use conmand::parser_state::ParserState;

#[test]
fn test_start_state() {
    let current_state = ParserState::Starting;
    let next_state = current_state.next_state(' ');
    assert_eq!(next_state, ParserState::Starting);

    let next_state = current_state.next_state('\n');
    assert_eq!(next_state, ParserState::Starting);

    let next_state = current_state.next_state('a');
    assert_eq!(next_state, ParserState::Name);

    let next_state = current_state.next_state('{');
    assert_eq!(next_state, ParserState::StartBlock);

    let next_state = current_state.next_state('#');
    assert_eq!(next_state, ParserState::Comment);

    let next_state = current_state.next_state('.');
    assert_eq!(next_state, ParserState::Invalid);
}

#[test]
fn parser_state_test_name_state() {
    let current_state = ParserState::Name;
    let next_state = current_state.next_state('a');
    assert_eq!(next_state, ParserState::Name);

    let next_state = current_state.next_state(' ');
    assert_eq!(next_state, ParserState::Starting);

    let next_state = current_state.next_state('#');
    assert_eq!(next_state, ParserState::Comment);

    let next_state = current_state.next_state('{');
    assert_eq!(next_state, ParserState::StartBlock);
}

#[test]
fn parser_state_test_start_block() {
    let current_state = ParserState::StartBlock;
    let next_state = current_state.next_state(' ');
    assert_eq!(next_state, ParserState::Seeking);

    let next_state = current_state.next_state('#');
    assert_eq!(next_state, ParserState::Comment);

    let next_state = current_state.next_state('a');
    assert_eq!(next_state, ParserState::InDirective);

    let next_state = current_state.next_state('}');
    assert_eq!(next_state, ParserState::EndBlock);
}

#[test]
fn test_end_block() {
    let current_state = ParserState::EndBlock;
    let next_state = current_state.next_state('{');
    assert_eq!(next_state, ParserState::Invalid);

    let next_state = current_state.next_state(' ');
    assert_eq!(next_state, ParserState::EndBlock);

    let next_state = current_state.next_state('a');
    assert_eq!(next_state, ParserState::Invalid);

    let next_state = current_state.next_state('#');
    assert_eq!(next_state, ParserState::Comment);
}

#[test]
fn parser_state_test_seeking() {
    let current_state = ParserState::Seeking;
    let next_state = current_state.next_state(' ');
    assert_eq!(next_state, ParserState::Seeking);

    let next_state = current_state.next_state('#');
    assert_eq!(next_state, ParserState::Comment);

    let next_state = current_state.next_state('a');
    assert_eq!(next_state, ParserState::InDirective);

    let next_state = current_state.next_state('}');
    assert_eq!(next_state, ParserState::EndBlock);

    let next_state = current_state.next_state('{');
    assert_eq!(next_state, ParserState::Invalid);
}

#[test]
fn parser_state_test_comment() {
    let current_state = ParserState::Comment;
    let next_state = current_state.next_state(' ');
    assert_eq!(next_state, ParserState::Comment);

    let next_state = current_state.next_state('#');
    assert_eq!(next_state, ParserState::Comment);

    let next_state = current_state.next_state('a');
    assert_eq!(next_state, ParserState::Comment);

    let next_state = current_state.next_state(';');
    assert_eq!(next_state, ParserState::Comment);

    let next_state = current_state.next_state('\n');
    assert_eq!(next_state, ParserState::Seeking);
}

#[test]
fn parser_state_test_in_directive() {
    let current_state = ParserState::InDirective;
    let next_state = current_state.next_state(' ');
    assert_eq!(next_state, ParserState::InDirective);

    let next_state = current_state.next_state('#');
    assert_eq!(next_state, ParserState::Comment);

    let next_state = current_state.next_state('{');
    assert_eq!(next_state, ParserState::InDirective);

    let next_state = current_state.next_state('a');
    assert_eq!(next_state, ParserState::InDirective);

    let next_state = current_state.next_state('}');
    assert_eq!(next_state, ParserState::InDirective);

    let next_state = current_state.next_state(';');
    assert_eq!(next_state, ParserState::Seeking);
}

#[test]
fn test_invalid() {
    let current_state = ParserState::Invalid;
    let next_state = current_state.next_state(' ');
    assert_eq!(next_state, ParserState::Invalid);

    let next_state = current_state.next_state('#');
    assert_eq!(next_state, ParserState::Invalid);

    let next_state = current_state.next_state('{');
    assert_eq!(next_state, ParserState::Invalid);

    let next_state = current_state.next_state('}');
    assert_eq!(next_state, ParserState::Invalid);

    let next_state = current_state.next_state('a');
    assert_eq!(next_state, ParserState::Invalid);
}
