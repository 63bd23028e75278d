use conmand::configuration::Configuration;
use conmand::jls::{JlsCommand, Parameters};

#[test]
fn test_new_jail() {
    let line = "devfs_ruleset=5 nodying enforce_statfs=2 env=\"\" host=new ip4=disable";
    let jls = JlsCommand::new();
    let tokenized = jls.tokenize_jls_line(line);
    let parameters = jls.convert_to_parameter_list(&tokenized).unwrap();

    let jail = Configuration::new(parameters);
    assert_eq!(jail.directives.len(), 6);
}

#[test]
fn duplicate_names_overwrite_last_wins() {
    let data = vec![
        Parameters::NumberParameter("level".to_string(), 1),
        Parameters::StringParameter("host".to_string(), "old".to_string()),
        Parameters::NumberParameter("level".to_string(), 2),
    ];
    let jail = Configuration::new(data);
    assert_eq!(jail.directives.len(), 2);
    assert_eq!(jail.get("level"), &Parameters::NumberParameter("level".to_string(), 2));
}

#[test]
fn lookup_present_and_absent() {
    let data = vec![Parameters::BooleanParameter("nodying".to_string(), true)];
    let jail = Configuration::new(data);
    assert_eq!(
        jail.lookup("nodying"),
        Some(&Parameters::BooleanParameter("nodying".to_string(), true))
    );
    assert_eq!(jail.lookup("absent"), None);
    assert_eq!(jail.get("nodying"), &Parameters::BooleanParameter("nodying".to_string(), true));
}
