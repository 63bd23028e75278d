use conmand::config::Configuration;
use conmand::config_parser::{ConfigParser, ParseFailure};
use conmand::parser_state::ParserState;

#[test]
fn test_starting_stating_state() {
    let mut config_parser = ConfigParser::new();
    let mut configuration = Configuration::default();

    config_parser.handle_transition(
        &mut configuration,
        ' ',
        ParserState::Starting,
        ParserState::Starting,
    );
    assert_eq!(config_parser.state_stack, vec![ParserState::Starting]);

    let mut config_parser = ConfigParser::new();
    let mut configuration = Configuration::default();
    config_parser.handle_transition(
        &mut configuration,
        'n',
        ParserState::Starting,
        ParserState::Name,
    );

    assert_eq!(config_parser.state_stack, vec![ParserState::Starting, ParserState::Name]);
    assert_eq!(configuration.name, "n".to_string());

    let mut config_parser = ConfigParser::new();
    let mut configuration = Configuration::default();
    config_parser.handle_transition(
        &mut configuration,
        '#',
        ParserState::Starting,
        ParserState::Comment,
    );

    assert_eq!(config_parser.state_stack, vec![ParserState::Starting, ParserState::Comment]);

    let mut config_parser = ConfigParser::new();
    let mut configuration = Configuration::default();

    config_parser.handle_transition(
        &mut configuration,
        ' ',
        ParserState::Starting,
        ParserState::StartBlock,
    );

    assert_eq!(config_parser.state_stack, vec![ParserState::Starting, ParserState::StartBlock]);
}

#[test]
fn config_parser_test_name_state() {
    let mut config_parser = ConfigParser::new();
    let mut configuration = Configuration::default();
    config_parser.state_stack.push(ParserState::Name);
    configuration.name = "a".to_string();

    config_parser.handle_transition(
        &mut configuration,
        ' ',
        ParserState::Name,
        ParserState::Starting,
    );

    assert_eq!(config_parser.state_stack, vec![ParserState::Starting]);
    assert_eq!(configuration.name, "a".to_string());

    let mut config_parser = ConfigParser::new();
    let mut configuration = Configuration::default();
    config_parser.state_stack.push(ParserState::Name);
    configuration.name = "a".to_string();

    config_parser.handle_transition(
        &mut configuration,
        '#',
        ParserState::Name,
        ParserState::Comment,
    );

    assert_eq!(config_parser.state_stack, vec![ParserState::Starting, ParserState::Comment]);
    assert_eq!(configuration.name, "a".to_string());

    let mut config_parser = ConfigParser::new();
    let mut configuration = Configuration::default();
    config_parser.state_stack.push(ParserState::Name);
    configuration.name = "a".to_string();

    config_parser.handle_transition(
        &mut configuration,
        '{',
        ParserState::Name,
        ParserState::StartBlock,
    );

    assert_eq!(config_parser.state_stack, vec![ParserState::Starting, ParserState::StartBlock]);
    assert_eq!(configuration.name, "a".to_string());
}

#[test]
fn config_parser_test_start_block() {
    let mut config_parser = ConfigParser::new();
    let mut configuration = Configuration::default();
    config_parser.state_stack.push(ParserState::StartBlock);

    config_parser.handle_transition(
        &mut configuration,
        ' ',
        ParserState::StartBlock,
        ParserState::Seeking,
    );
    assert_eq!(
        config_parser.state_stack,
        vec![ParserState::Starting, ParserState::StartBlock, ParserState::Seeking]
    );

    let mut config_parser = ConfigParser::new();
    let mut configuration = Configuration::default();
    config_parser.state_stack.push(ParserState::StartBlock);

    config_parser.handle_transition(
        &mut configuration,
        'a',
        ParserState::StartBlock,
        ParserState::InDirective,
    );
    assert_eq!(
        config_parser.state_stack,
        vec![ParserState::Starting, ParserState::StartBlock, ParserState::InDirective]
    );
    assert_eq!(configuration.directives.last().unwrap().raw, "a".to_string());

    let mut config_parser = ConfigParser::new();
    let mut configuration = Configuration::default();
    config_parser.state_stack.push(ParserState::StartBlock);

    config_parser.handle_transition(
        &mut configuration,
        ' ',
        ParserState::StartBlock,
        ParserState::Comment,
    );
    assert_eq!(
        config_parser.state_stack,
        vec![ParserState::Starting, ParserState::StartBlock, ParserState::Comment]
    );
}

#[test]
fn config_parser_test_seeking() {
    let mut config_parser = ConfigParser::new();
    let mut configuration = Configuration::default();
    config_parser.state_stack.push(ParserState::StartBlock);
    config_parser.state_stack.push(ParserState::Seeking);

    config_parser.handle_transition(
        &mut configuration,
        'a',
        ParserState::Seeking,
        ParserState::InDirective,
    );
    assert_eq!(
        config_parser.state_stack,
        vec![
            ParserState::Starting,
            ParserState::StartBlock,
            ParserState::Seeking,
            ParserState::InDirective
        ]
    );

    let mut config_parser = ConfigParser::new();
    let mut configuration = Configuration::default();
    config_parser.state_stack.push(ParserState::StartBlock);
    config_parser.state_stack.push(ParserState::Seeking);

    config_parser.handle_transition(
        &mut configuration,
        '#',
        ParserState::Seeking,
        ParserState::Comment,
    );
    assert_eq!(
        config_parser.state_stack,
        vec![
            ParserState::Starting,
            ParserState::StartBlock,
            ParserState::Seeking,
            ParserState::Comment
        ]
    );

    let mut config_parser = ConfigParser::new();
    let mut configuration = Configuration::default();
    config_parser.state_stack.push(ParserState::StartBlock);
    config_parser.state_stack.push(ParserState::Seeking);

    config_parser.handle_transition(
        &mut configuration,
        '#',
        ParserState::Seeking,
        ParserState::EndBlock,
    );
    assert_eq!(config_parser.state_stack, vec![ParserState::Starting, ParserState::EndBlock]);
}

#[test]
fn config_parser_test_comment() {
    let mut config_parser = ConfigParser::new();
    let mut configuration = Configuration::default();
    config_parser.state_stack.push(ParserState::StartBlock);
    config_parser.state_stack.push(ParserState::Seeking);
    config_parser.state_stack.push(ParserState::Comment);

    config_parser.handle_transition(
        &mut configuration,
        '\n',
        ParserState::Comment,
        ParserState::Seeking,
    );
    assert_eq!(
        config_parser.state_stack,
        vec![ParserState::Starting, ParserState::StartBlock, ParserState::Seeking]
    );
}

#[test]
fn config_parser_test_in_directive() {
    let mut config_parser = ConfigParser::new();
    let mut configuration = Configuration::default();
    config_parser.state_stack.push(ParserState::StartBlock);
    config_parser.state_stack.push(ParserState::Seeking);
    config_parser.state_stack.push(ParserState::InDirective);

    config_parser.handle_transition(
        &mut configuration,
        '#',
        ParserState::InDirective,
        ParserState::Comment,
    );
    assert_eq!(
        config_parser.state_stack,
        vec![
            ParserState::Starting,
            ParserState::StartBlock,
            ParserState::Seeking,
            ParserState::InDirective,
            ParserState::Comment
        ]
    );

    let mut config_parser = ConfigParser::new();
    let mut configuration = Configuration::default();
    config_parser.state_stack.push(ParserState::StartBlock);
    config_parser.state_stack.push(ParserState::Seeking);
    config_parser.state_stack.push(ParserState::InDirective);

    config_parser.handle_transition(
        &mut configuration,
        ';',
        ParserState::InDirective,
        ParserState::Seeking,
    );
    assert_eq!(
        config_parser.state_stack,
        vec![ParserState::Starting, ParserState::StartBlock, ParserState::Seeking]
    );

    let mut config_parser = ConfigParser::new();
    let mut configuration = Configuration::default();
    config_parser.state_stack.push(ParserState::StartBlock);
    config_parser.state_stack.push(ParserState::Seeking);
    config_parser.state_stack.push(ParserState::InDirective);

    config_parser.handle_transition(
        &mut configuration,
        ';',
        ParserState::InDirective,
        ParserState::EndBlock,
    );
    assert_eq!(config_parser.state_stack, vec![ParserState::Starting, ParserState::EndBlock]);
}

#[test]
fn test_basic_parsing() {
    let mut config_parser = ConfigParser::new();
    let configuration = config_parser
        .parse_content(
            r#"fordo {
            # foo the bar
            bobo;
            coco="dodo";
        }"#,
        )
        .unwrap();

    assert_eq!(configuration.name, "fordo".to_string());
    assert_eq!(configuration.directives.len(), 2);
    assert_eq!(configuration.directives[0].raw, "bobo".to_string());
    assert_eq!(configuration.directives[1].raw, "coco=\"dodo\"".to_string());
}

#[test]
fn parse_name_with_empty_block() {
    let mut config_parser = ConfigParser::new();
    let configuration = config_parser.parse_content("X { }").unwrap();
    assert_eq!(configuration.name, "X".to_string());
    assert_eq!(configuration.directives.len(), 0);
}

#[test]
fn parse_longer_name_with_empty_block() {
    let mut config_parser = ConfigParser::new();
    let configuration = config_parser.parse_content("legolas42 { }").unwrap();
    assert_eq!(configuration.name, "legolas42".to_string());
    assert_eq!(configuration.directives.len(), 0);
}

#[test]
fn comment_inside_directive_accumulates_across() {
    let mut config_parser = ConfigParser::new();
    let configuration = config_parser.parse_content("x { foo#comment\nbar; }").unwrap();
    assert_eq!(configuration.name, "x".to_string());
    assert_eq!(configuration.directives.len(), 1);
    assert_eq!(configuration.directives[0].raw, "foobar".to_string());
}

#[test]
fn invalid_character_stops_parsing_with_position() {
    // The `!` at index 4 is legal in no state reachable here: parsing stops,
    // the partial result survives.
    let mut config_parser = ConfigParser::new();
    let (configuration, position) = config_parser.parse_content_checked("abc !x { y; }");
    assert_eq!(position, Some(ParseFailure { position: 4 }));
    assert_eq!(configuration.name, "abc".to_string());
    assert_eq!(configuration.directives.len(), 0);

    let mut config_parser = ConfigParser::new();
    let (configuration, position) = config_parser.parse_content_checked("abc { y; }");
    assert_eq!(position, None);
    assert_eq!(configuration.name, "abc".to_string());
    assert_eq!(configuration.directives.len(), 1);
}

#[test]
fn nested_open_brace_drives_invalid() {
    // A `{` inside a block is no sub-block: the automaton goes to Invalid
    // and keeps only what it had.
    let mut config_parser = ConfigParser::new();
    let (configuration, position) = config_parser.parse_content_checked("x { {");
    assert_eq!(position, Some(ParseFailure { position: 4 }));
    assert_eq!(configuration.name, "x".to_string());
    assert_eq!(configuration.directives.len(), 0);
}
