use conmand::jls::{JlsCommand, Parameters};

#[test]
fn command_test_tokenize_jls_line() {
    let line = "devfs_ruleset=5 nodying enforce_statfs=2 env=\"\" host=new ip4=disable";
    let expected: Vec<String> = vec![
        "devfs_ruleset=5".to_string(),
        "nodying".to_string(),
        "enforce_statfs=2".to_string(),
        "env=\"\"".to_string(),
        "host=new".to_string(),
        "ip4=disable".to_string(),
    ];

    let jls = JlsCommand::new();
    let result = jls.tokenize_jls_line(line);
    assert_eq!(result, expected);
}

#[test]
fn command_test_directive_to_paramter_boolean() {
    let jls = JlsCommand::new();

    let expected = Parameters::BooleanParameter("nodying".to_string(), true);
    let test_case = "nodying";
    let result = jls.directive_to_paramter(test_case);
    assert!(result.is_ok());
    assert_eq!(expected, result.unwrap());

    let expected = Parameters::BooleanParameter("ip4".to_string(), false);
    let test_case = "ip4=disable";
    let result = jls.directive_to_paramter(test_case);
    assert!(result.is_ok());
    assert_eq!(expected, result.unwrap());
}

#[test]
fn command_test_directive_to_paramter_numeric() {
    let jls = JlsCommand::new();

    let expected = Parameters::NumberParameter("devfs.ruleset".to_string(), 5);
    let test_case = "devfs.ruleset=5";
    let result = jls.directive_to_paramter(test_case);
    assert!(result.is_ok());
    assert_eq!(expected, result.unwrap());
}

#[test]
fn command_test_directive_to_parameter_quoted_string() {
    let jls = JlsCommand::new();

    let expected = Parameters::StringParameter("env".to_string(), String::default());
    let test_case = r#"env="""#;
    let result = jls.directive_to_paramter(test_case);
    assert!(result.is_ok());
    assert_eq!(expected, result.unwrap());

    let expected = Parameters::StringParameter("env".to_string(), "FOO=bar".to_string());
    let test_case = r#"env="FOO=bar""#;
    let result = jls.directive_to_paramter(test_case);
    assert!(result.is_ok());
    assert_eq!(expected, result.unwrap());
}

#[test]
fn command_test_directive_to_parameter_raw_string() {
    let jls = JlsCommand::new();

    let expected = Parameters::StringParameter("host".to_string(), "new".to_string());
    let test_case = r#"host=new"#;
    let result = jls.directive_to_paramter(test_case);
    assert!(result.is_ok());
    assert_eq!(expected, result.unwrap());

    let expected = Parameters::StringParameter("nothing".to_string(), String::default());
    let test_case = r#"nothing="#;
    let result = jls.directive_to_paramter(test_case);
    assert!(result.is_ok());
    assert_eq!(expected, result.unwrap());
}

#[test]
fn command_test_to_parameter_list() {
    let line = "devfs_ruleset=5 nodying enforce_statfs=2 env=\"\" host=new ip4=disable";
    let expected: Vec<Parameters> = vec![
        Parameters::NumberParameter("devfs_ruleset".to_string(), 5),
        Parameters::BooleanParameter("nodying".to_string(), true),
        Parameters::NumberParameter("enforce_statfs".to_string(), 2),
        Parameters::StringParameter("env".to_string(), "".to_string()),
        Parameters::StringParameter("host".to_string(), "new".to_string()),
        Parameters::BooleanParameter("ip4".to_string(), false),
    ];
    let jls = JlsCommand::new();

    let tokenized = jls.tokenize_jls_line(line);

    let result = jls.convert_to_parameter_list(&tokenized);
    assert!(result.is_ok());
    assert_eq!(result.unwrap(), expected);
}
