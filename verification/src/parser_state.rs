//! The tokenizer's state and its pure transition table.

use vstd::prelude::*;

verus! {

/// Character classes the transition table distinguishes.
///
/// ASCII whitespace: space, tab, line feed, form feed, carriage return.
pub open spec fn is_space_char(c: char) -> bool {
    c == ' ' || c == '\t' || c == '\n' || c == '\u{c}' || c == '\r'
}

/// An ASCII decimal digit.
pub open spec fn is_digit_char(c: char) -> bool {
    48 <= c as u32 && c as u32 <= 57
}

/// An ASCII letter.
pub open spec fn is_alpha_char(c: char) -> bool {
    (65 <= c as u32 && c as u32 <= 90) || (97 <= c as u32 && c as u32 <= 122)
}

/// An ASCII letter or digit.
pub open spec fn is_alnum_char(c: char) -> bool {
    is_alpha_char(c) || is_digit_char(c)
}

/// Whether `c` is ASCII whitespace.
pub fn space_char(c: char) -> (r: bool)
    ensures
        r == is_space_char(c),
{
    c == ' ' || c == '\t' || c == '\n' || c == '\u{c}' || c == '\r'
}

/// Whether `c` is an ASCII decimal digit.
pub fn digit_char(c: char) -> (r: bool)
    ensures
        r == is_digit_char(c),
{
    let u = c as u32;
    48 <= u && u <= 57
}

/// Whether `c` is an ASCII letter.
pub fn alpha_char(c: char) -> (r: bool)
    ensures
        r == is_alpha_char(c),
{
    let u = c as u32;
    (65 <= u && u <= 90) || (97 <= u && u <= 122)
}

/// Whether `c` is an ASCII letter or digit.
pub fn alnum_char(c: char) -> (r: bool)
    ensures
        r == is_alnum_char(c),
{
    alpha_char(c) || digit_char(c)
}

/// The current parser state (really a tokenizer).
///
/// * Starting - The initial state
/// * Name - Reading the configuration name.
/// * StartBlock - A block has been opened.
/// * EndBlock - The configuration block is complete.
/// * Seeking - Seeking the next directive.
/// * Comment - Reading comment text.
/// * InDirective - Reading a configuration directive.
/// * Invalid - An illegal state transition.
#[derive(PartialEq, Eq, Structural, Copy, Clone, Debug)]
pub enum ParserState {
    Starting,
    Name,
    StartBlock,
    EndBlock,
    Seeking,
    Comment,
    InDirective,
    Invalid,
}

/// The full transition table as a pure function on (state, character).
///
/// | From         | Input         | To           |
/// |--------------|---------------|--------------|
/// | Starting     | whitespace    | Starting     |
/// | Starting     | alphanumeric  | Name         |
/// | Starting     | `{`           | StartBlock   |
/// | Starting     | `#`           | Comment      |
/// | Starting     | other         | Invalid      |
/// | Name         | alphanumeric  | Name         |
/// | Name         | whitespace    | Starting     |
/// | Name         | `#`           | Comment      |
/// | Name         | `{`           | StartBlock   |
/// | Name         | other         | Invalid      |
/// | StartBlock   | whitespace    | Seeking      |
/// | StartBlock   | alphabetic    | InDirective  |
/// | StartBlock   | `#`           | Comment      |
/// | StartBlock   | `}`           | EndBlock     |
/// | StartBlock   | other         | Invalid      |
/// | EndBlock     | whitespace    | EndBlock     |
/// | EndBlock     | `#`           | Comment      |
/// | EndBlock     | other         | Invalid      |
/// | Seeking      | whitespace    | Seeking      |
/// | Seeking      | `#`           | Comment      |
/// | Seeking      | alphanumeric  | InDirective  |
/// | Seeking      | `}`           | EndBlock     |
/// | Seeking      | other         | Invalid      |
/// | Comment      | `\n`          | Seeking      |
/// | Comment      | other         | Comment      |
/// | InDirective  | `;`           | Seeking      |
/// | InDirective  | `#`           | Comment      |
/// | InDirective  | other         | InDirective  |
/// | Invalid      | any           | Invalid      |
pub open spec fn spec_next_state(s: ParserState, token: char) -> ParserState {
    match s {
        ParserState::Starting => if is_space_char(token) {
            ParserState::Starting
        } else if is_alnum_char(token) {
            ParserState::Name
        } else if token == '{' {
            ParserState::StartBlock
        } else if token == '#' {
            ParserState::Comment
        } else {
            ParserState::Invalid
        },
        ParserState::Name => if is_alnum_char(token) {
            ParserState::Name
        } else if is_space_char(token) {
            ParserState::Starting
        } else if token == '#' {
            ParserState::Comment
        } else if token == '{' {
            ParserState::StartBlock
        } else {
            ParserState::Invalid
        },
        ParserState::StartBlock => if is_space_char(token) {
            ParserState::Seeking
        } else if is_alpha_char(token) {
            ParserState::InDirective
        } else if token == '#' {
            ParserState::Comment
        } else if token == '}' {
            ParserState::EndBlock
        } else {
            ParserState::Invalid
        },
        ParserState::EndBlock => if is_space_char(token) {
            ParserState::EndBlock
        } else if token == '#' {
            ParserState::Comment
        } else {
            ParserState::Invalid
        },
        ParserState::Seeking => if is_space_char(token) {
            ParserState::Seeking
        } else if token == '#' {
            ParserState::Comment
        } else if is_alnum_char(token) {
            ParserState::InDirective
        } else if token == '}' {
            ParserState::EndBlock
        } else {
            ParserState::Invalid
        },
        ParserState::Comment => if token == '\n' {
            ParserState::Seeking
        } else {
            ParserState::Comment
        },
        ParserState::InDirective => if token == ';' {
            ParserState::Seeking
        } else if token == '#' {
            ParserState::Comment
        } else {
            ParserState::InDirective
        },
        ParserState::Invalid => ParserState::Invalid,
    }
}

impl ParserState {
    /// Given a state and a token, returns the next state, exactly as the
    /// transition table of [`spec_next_state`] prescribes.
    pub fn next_state(&self, token: char) -> (r: ParserState)
        ensures
            r == spec_next_state(*self, token),
    {
        match self {
            ParserState::Starting => {
                if space_char(token) {
                    ParserState::Starting
                } else if alnum_char(token) {
                    ParserState::Name
                } else if token == '{' {
                    ParserState::StartBlock
                } else if token == '#' {
                    ParserState::Comment
                } else {
                    ParserState::Invalid
                }
            },
            ParserState::Name => {
                if alnum_char(token) {
                    ParserState::Name
                } else if space_char(token) {
                    ParserState::Starting
                } else if token == '#' {
                    ParserState::Comment
                } else if token == '{' {
                    ParserState::StartBlock
                } else {
                    ParserState::Invalid
                }
            },
            ParserState::StartBlock => {
                if space_char(token) {
                    ParserState::Seeking
                } else if alpha_char(token) {
                    ParserState::InDirective
                } else if token == '#' {
                    ParserState::Comment
                } else if token == '}' {
                    ParserState::EndBlock
                } else {
                    ParserState::Invalid
                }
            },
            ParserState::EndBlock => {
                if space_char(token) {
                    ParserState::EndBlock
                } else if token == '#' {
                    ParserState::Comment
                } else {
                    ParserState::Invalid
                }
            },
            ParserState::Seeking => {
                if space_char(token) {
                    ParserState::Seeking
                } else if token == '#' {
                    ParserState::Comment
                } else if alnum_char(token) {
                    ParserState::InDirective
                } else if token == '}' {
                    ParserState::EndBlock
                } else {
                    ParserState::Invalid
                }
            },
            ParserState::Comment => {
                if token == '\n' {
                    ParserState::Seeking
                } else {
                    ParserState::Comment
                }
            },
            ParserState::InDirective => {
                if token == ';' {
                    ParserState::Seeking
                } else if token == '#' {
                    ParserState::Comment
                } else {
                    ParserState::InDirective
                }
            },
            ParserState::Invalid => ParserState::Invalid,
        }
    }
}

} // verus!
