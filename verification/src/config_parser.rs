//! The stack-based block tokenizer.
//!
//! The tokenizer drives the transition table of [`crate::parser_state`] over
//! the characters of the input, keeping an explicit stack of states whose top
//! is the current state.  Its whole behaviour is captured by a ghost machine
//! ([`ParseModel`], [`step_char`], [`run`]): the contracts of the parsing
//! functions state that the executable code computes exactly what the ghost
//! machine yields.

use vstd::prelude::*;
use crate::config::Configuration;
use crate::config_item::{ConfigItem, ConfigValue};
use crate::parser_state::{ParserState, spec_next_state};
use crate::text::{chars_of, push_char};

verus! {

/// The ghost state of the tokenizer: the state stack, the accumulated
/// container name, and the raw text of each directive gathered so far (the
/// last entry is still being accumulated while the machine is in
/// `InDirective`).
pub struct ParseModel {
    pub stack: Seq<ParserState>,
    pub name: Seq<char>,
    pub dirs: Seq<Seq<char>>,
}

/// The current state: the top of the stack, or `Invalid` when the stack is
/// empty.
pub open spec fn current_of(stack: Seq<ParserState>) -> ParserState {
    if stack.len() == 0 {
        ParserState::Invalid
    } else {
        stack.last()
    }
}

/// The machine halts once the current state is `Invalid`.
pub open spec fn halted(m: ParseModel) -> bool {
    current_of(m.stack) is Invalid
}

/// The stack after closing a block: states are popped down to and including
/// the innermost `StartBlock`.
pub open spec fn pop_to_block(stack: Seq<ParserState>) -> Seq<ParserState>
    decreases stack.len(),
{
    if stack.len() == 0 {
        stack
    } else if stack.last() is StartBlock {
        stack.drop_last()
    } else {
        pop_to_block(stack.drop_last())
    }
}

/// Opening a block: a `Name` on top is finished first.
pub open spec fn spec_start_block(m: ParseModel) -> ParseModel {
    if current_of(m.stack) is Name {
        ParseModel { stack: m.stack.drop_last().push(ParserState::StartBlock), name: m.name, dirs: m.dirs }
    } else {
        ParseModel { stack: m.stack.push(ParserState::StartBlock), name: m.name, dirs: m.dirs }
    }
}

/// Opening a comment: a `Name` on top is finished first.
pub open spec fn spec_start_comment(m: ParseModel) -> ParseModel {
    if current_of(m.stack) is Name {
        ParseModel { stack: m.stack.drop_last().push(ParserState::Comment), name: m.name, dirs: m.dirs }
    } else {
        ParseModel { stack: m.stack.push(ParserState::Comment), name: m.name, dirs: m.dirs }
    }
}

/// Seeking the next directive: leaving a directive pops it, otherwise a
/// `Seeking` state is pushed.
pub open spec fn spec_seeking(m: ParseModel) -> ParseModel {
    if m.stack.len() == 0 {
        m
    } else if m.stack.last() is InDirective {
        ParseModel { stack: m.stack.drop_last(), name: m.name, dirs: m.dirs }
    } else {
        ParseModel { stack: m.stack.push(ParserState::Seeking), name: m.name, dirs: m.dirs }
    }
}

/// Entering a directive: a fresh raw buffer seeded with the token joins the
/// directive list.
pub open spec fn spec_in_directive(m: ParseModel, token: char) -> ParseModel {
    ParseModel {
        stack: m.stack.push(ParserState::InDirective),
        name: m.name,
        dirs: m.dirs.push(seq![token]),
    }
}

/// Closing a block.
pub open spec fn spec_end_block(m: ParseModel) -> ParseModel {
    ParseModel { stack: pop_to_block(m.stack).push(ParserState::EndBlock), name: m.name, dirs: m.dirs }
}

/// An unrecognized character: the `Invalid` sink is pushed, so no further
/// transition is taken.
pub open spec fn spec_go_invalid(m: ParseModel) -> ParseModel {
    ParseModel { stack: m.stack.push(ParserState::Invalid), name: m.name, dirs: m.dirs }
}

/// The effect of one state change on the ghost machine, dispatched on the
/// pair of states exactly as [`ConfigParser::handle_transition`] does.
pub open spec fn step_transition(
    m: ParseModel,
    from: ParserState,
    to: ParserState,
    token: char,
) -> ParseModel {
    match from {
        ParserState::Starting => match to {
            ParserState::Name => ParseModel {
                stack: m.stack.push(ParserState::Name),
                name: seq![token],
                dirs: m.dirs,
            },
            ParserState::StartBlock => spec_start_block(m),
            ParserState::Comment => spec_start_comment(m),
            ParserState::Invalid => spec_go_invalid(m),
            _ => m,
        },
        ParserState::Name => match to {
            ParserState::Starting => ParseModel { stack: m.stack.drop_last(), name: m.name, dirs: m.dirs },
            ParserState::StartBlock => spec_start_block(m),
            ParserState::Comment => spec_start_comment(m),
            ParserState::Invalid => spec_go_invalid(m),
            _ => m,
        },
        ParserState::StartBlock => match to {
            ParserState::Seeking => spec_seeking(m),
            ParserState::InDirective => spec_in_directive(m, token),
            ParserState::Comment => spec_start_comment(m),
            ParserState::Invalid => spec_go_invalid(m),
            _ => m,
        },
        ParserState::EndBlock => match to {
            ParserState::Comment => spec_start_comment(m),
            ParserState::Invalid => spec_go_invalid(m),
            _ => m,
        },
        ParserState::Seeking => match to {
            ParserState::InDirective => spec_in_directive(m, token),
            ParserState::Comment => spec_start_comment(m),
            ParserState::EndBlock => spec_end_block(m),
            ParserState::Invalid => spec_go_invalid(m),
            _ => m,
        },
        ParserState::Comment => match to {
            ParserState::Seeking => if m.stack.len() == 0 {
                m
            } else {
                ParseModel { stack: m.stack.drop_last(), name: m.name, dirs: m.dirs }
            },
            _ => m,
        },
        ParserState::InDirective => match to {
            ParserState::Comment => spec_start_comment(m),
            ParserState::Seeking => spec_seeking(m),
            ParserState::EndBlock => spec_end_block(m),
            _ => m,
        },
        ParserState::Invalid => m,
    }
}

/// The effect of one input character: a state change dispatches into
/// [`step_transition`]; an unchanged `Name` or `InDirective` state extends
/// the name or the current directive text.
pub open spec fn step_char(m: ParseModel, c: char) -> ParseModel {
    let cur = current_of(m.stack);
    if cur is Invalid {
        m
    } else {
        let ns = spec_next_state(cur, c);
        if ns != cur {
            step_transition(m, cur, ns, c)
        } else if ns is InDirective {
            if m.dirs.len() > 0 {
                ParseModel {
                    stack: m.stack,
                    name: m.name,
                    dirs: m.dirs.update(m.dirs.len() - 1, m.dirs.last().push(c)),
                }
            } else {
                m
            }
        } else if ns is Name {
            ParseModel { stack: m.stack, name: m.name.push(c), dirs: m.dirs }
        } else {
            m
        }
    }
}

/// The machine run over a whole character sequence.
pub open spec fn run(m: ParseModel, s: Seq<char>) -> ParseModel
    decreases s.len(),
{
    if s.len() == 0 {
        m
    } else {
        run(step_char(m, s[0]), s.drop_first())
    }
}

/// The raw directive texts held by a sequence of items.
pub open spec fn dirs_of(items: Seq<ConfigItem>) -> Seq<Seq<char>> {
    items.map_values(|it: ConfigItem| it.raw@)
}

/// Items produced by the tokenizer carry only raw text: name, values and
/// bare directives are all empty.
pub open spec fn bare_items(items: Seq<ConfigItem>) -> bool {
    forall|i: int| 0 <= i < items.len() ==> {
        &&& (#[trigger] items[i]).name@ == Seq::<char>::empty()
        &&& items[i].values@ == Map::<Seq<char>, ConfigValue>::empty()
        &&& items[i].values.well_formed()
        &&& items[i].directives@ == Seq::<String>::empty()
    }
}

/// Running from a halted machine changes nothing.
pub proof fn lemma_run_halted(m: ParseModel, s: Seq<char>)
    requires
        halted(m),
    ensures
        run(m, s) == m,
    decreases s.len(),
{
    if s.len() > 0 {
        assert(step_char(m, s[0]) == m);
        lemma_run_halted(m, s.drop_first());
    }
}

/// A run splits into a run over a prefix followed by a run over the rest.
pub proof fn lemma_run_append(m: ParseModel, s: Seq<char>, t: Seq<char>)
    ensures
        run(m, s + t) == run(run(m, s), t),
    decreases s.len(),
{
    if s.len() == 0 {
        assert(s + t =~= t);
    } else {
        assert((s + t).drop_first() =~= s.drop_first() + t);
        assert((s + t)[0] == s[0]);
        lemma_run_append(step_char(m, s[0]), s.drop_first(), t);
    }
}

/// Extending the input by one character steps the machine once more.
pub proof fn lemma_run_snoc(m: ParseModel, s: Seq<char>, c: char)
    ensures
        run(m, s.push(c)) == step_char(run(m, s), c),
    decreases s.len(),
{
    if s.len() == 0 {
        assert(s.push(c)[0] == c);
        assert(s.push(c).drop_first() =~= Seq::<char>::empty());
        assert(run(m, s.push(c)) == run(step_char(m, c), s.push(c).drop_first()));
        assert(run(step_char(m, c), Seq::<char>::empty()) == step_char(m, c));
        assert(run(m, s) == m);
    } else {
        assert(s.push(c)[0] == s[0]);
        assert(s.push(c).drop_first() =~= s.drop_first().push(c));
        assert(run(m, s.push(c)) == run(step_char(m, s[0]), s.drop_first().push(c)));
        lemma_run_snoc(step_char(m, s[0]), s.drop_first(), c);
        assert(run(m, s) == run(step_char(m, s[0]), s.drop_first()));
    }
}

/// Somewhere below position `i` there is an open block.
pub open spec fn has_block_below(stack: Seq<ParserState>, i: int) -> bool {
    exists|j: int| 0 <= j < i && (#[trigger] stack[j]) is StartBlock
}

/// The shape every reachable state stack has: it is never empty, `Starting`
/// sits alone at the bottom, and a `Seeking` or `InDirective` entry always
/// has an open block somewhere below it.
pub open spec fn stack_invariant(stack: Seq<ParserState>) -> bool {
    &&& stack.len() >= 1
    &&& stack[0] is Starting
    &&& forall|i: int| 0 < i < stack.len() ==> !((#[trigger] stack[i]) is Starting)
    &&& forall|i: int|
        0 <= i < stack.len() && ((#[trigger] stack[i]) is Seeking || stack[i] is InDirective)
            ==> has_block_below(stack, i)
}

/// The position of the innermost `StartBlock`, or -1 when none is open.
pub open spec fn last_block_at(stack: Seq<ParserState>) -> int
    decreases stack.len(),
{
    if stack.len() == 0 {
        -1
    } else if stack.last() is StartBlock {
        stack.len() - 1
    } else {
        last_block_at(stack.drop_last())
    }
}

proof fn lemma_last_block(stack: Seq<ParserState>)
    ensures
        last_block_at(stack) >= 0 <==> (exists|j: int|
            0 <= j < stack.len() && (#[trigger] stack[j]) is StartBlock),
        last_block_at(stack) >= 0 ==> last_block_at(stack) < stack.len() && stack[last_block_at(
            stack,
        )] is StartBlock && pop_to_block(stack) == stack.take(last_block_at(stack)),
        last_block_at(stack) < 0 ==> pop_to_block(stack) == Seq::<ParserState>::empty(),
    decreases stack.len(),
{
    if stack.len() == 0 {
    } else if stack.last() is StartBlock {
        assert(stack[stack.len() - 1] is StartBlock);
        assert(pop_to_block(stack) == stack.drop_last());
        assert(stack.drop_last() =~= stack.take(stack.len() - 1));
    } else {
        lemma_last_block(stack.drop_last());
        if last_block_at(stack.drop_last()) >= 0 {
            let k = last_block_at(stack.drop_last());
            assert(stack.drop_last()[k] == stack[k]);
            assert(stack.drop_last().take(k) =~= stack.take(k));
        } else {
            if exists|j: int| 0 <= j < stack.len() && (#[trigger] stack[j]) is StartBlock {
                let j = choose|j: int|
                    0 <= j < stack.len() && (#[trigger] stack[j]) is StartBlock;
                assert(j < stack.len() - 1);
                assert(stack.drop_last()[j] is StartBlock);
            }
        }
    }
}

/// One machine step keeps the stack shape of [`stack_invariant`]: in
/// particular the stack never becomes empty.
pub proof fn lemma_step_keeps_stack_invariant(m: ParseModel, c: char)
    requires
        stack_invariant(m.stack),
    ensures
        stack_invariant(step_char(m, c).stack),
{
    let stack = m.stack;
    let n = stack.len() as int;
    let cur = current_of(stack);
    if cur is Invalid {
    } else {
        let ns = spec_next_state(cur, c);
        if ns != cur {
            let t = step_transition(m, cur, ns, c).stack;
            // A `Name` or `Comment` on top cannot be the bottom entry, so
            // the transitions that pop one leave the stack nonempty.
            assert(n == 1 ==> stack.last() == stack[0]);
            if cur is Seeking && ns is EndBlock {
                // Closing a block cuts the stack back to below the
                // innermost `StartBlock`, which exists below the `Seeking`.
                assert(stack[n - 1] is Seeking);
                assert(has_block_below(stack, n - 1));
                lemma_last_block(stack);
                let k = last_block_at(stack);
                assert(k >= 0);
                assert(k >= 1) by {
                    assert(stack[0] is Starting);
                }
                assert(t == stack.take(k).push(ParserState::EndBlock));
                assert(t[0] == stack[0]);
                assert forall|i: int|
                    0 <= i < t.len() && ((#[trigger] t[i]) is Seeking || t[i] is InDirective)
                        implies has_block_below(t, i) by {
                    assert(i < k);
                    assert(t[i] == stack[i]);
                    assert(has_block_below(stack, i));
                    let j = choose|j: int| 0 <= j < i && (#[trigger] stack[j]) is StartBlock;
                    assert(t[j] is StartBlock);
                }
            } else {
                // Every other transition pushes one entry, pops the top, or
                // swaps the top for a new entry; a `Seeking` or
                // `InDirective` it pushes sits directly above an open block.
                assert forall|i: int|
                    0 <= i < t.len() && ((#[trigger] t[i]) is Seeking || t[i] is InDirective)
                        implies has_block_below(t, i) by {
                    if i < n && t[i] == stack[i] {
                        assert(has_block_below(stack, i));
                        let j = choose|j: int|
                            0 <= j < i && (#[trigger] stack[j]) is StartBlock;
                        assert(t[j] is StartBlock);
                    } else {
                        // A pushed `Seeking` comes from a `StartBlock` on
                        // top; a pushed `InDirective` from a `StartBlock` or
                        // a `Seeking` on top.
                        if cur is StartBlock {
                            assert(t[n - 1] is StartBlock);
                        } else {
                            assert(cur is Seeking);
                            assert(has_block_below(stack, n - 1));
                            let j = choose|j: int|
                                0 <= j < n - 1 && (#[trigger] stack[j]) is StartBlock;
                            assert(t[j] is StartBlock);
                        }
                    }
                }
            }
        }
    }
}

/// A whole run keeps the stack shape of [`stack_invariant`]: the state
/// stack is never empty while parsing is active, whatever the input.
pub proof fn lemma_run_keeps_stack_invariant(m: ParseModel, s: Seq<char>)
    requires
        stack_invariant(m.stack),
    ensures
        stack_invariant(run(m, s).stack),
    decreases s.len(),
{
    if s.len() > 0 {
        lemma_step_keeps_stack_invariant(m, s[0]);
        lemma_run_keeps_stack_invariant(step_char(m, s[0]), s.drop_first());
    }
}

/// A fresh parser's stack, `Starting` alone, has the reachable shape.
pub proof fn lemma_initial_stack_invariant()
    ensures
        stack_invariant(seq![ParserState::Starting]),
{
    let stack = seq![ParserState::Starting];
    assert(stack[0] is Starting);
}

/// While the machine is reading a name, alphanumeric characters only extend
/// that name: stack and directives stay untouched.
proof fn lemma_run_name_chars(m: ParseModel, s: Seq<char>)
    requires
        current_of(m.stack) is Name,
        forall|i: int| 0 <= i < s.len() ==> crate::parser_state::is_alnum_char(#[trigger] s[i]),
    ensures
        run(m, s) == (ParseModel { stack: m.stack, name: m.name + s, dirs: m.dirs }),
    decreases s.len(),
{
    if s.len() == 0 {
        assert(m.name + s =~= m.name);
    } else {
        let c = s[0];
        let m1 = ParseModel { stack: m.stack, name: m.name.push(c), dirs: m.dirs };
        assert(step_char(m, c) == m1);
        assert(forall|i: int|
            0 <= i < s.drop_first().len() ==> crate::parser_state::is_alnum_char(
                #[trigger] s.drop_first()[i],
            ));
        lemma_run_name_chars(m1, s.drop_first());
        assert(m.name + s =~= m.name.push(c) + s.drop_first());
    }
}

/// While the machine is reading a comment, characters other than a newline
/// change nothing at all.
proof fn lemma_run_comment_chars(m: ParseModel, s: Seq<char>)
    requires
        current_of(m.stack) is Comment,
        forall|i: int| 0 <= i < s.len() ==> #[trigger] s[i] != '\n',
    ensures
        run(m, s) == m,
    decreases s.len(),
{
    if s.len() > 0 {
        assert(step_char(m, s[0]) == m);
        assert(forall|i: int| 0 <= i < s.drop_first().len() ==> #[trigger] s.drop_first()[i] != '\n');
        lemma_run_comment_chars(m, s.drop_first());
    }
}

/// The machine run over a single character is one step.
proof fn lemma_run_one(m: ParseModel, c: char)
    ensures
        run(m, seq![c]) == step_char(m, c),
{
    assert(seq![c].drop_first() =~= Seq::<char>::empty());
    assert(run(m, seq![c]) == run(step_char(m, c), seq![c].drop_first()));
}

/// For any nonempty alphanumeric name, tokenizing the text made of that name
/// followed by an empty block yields a configuration holding exactly that
/// name and no directives.
pub proof fn lemma_empty_block_yields_name(name: Seq<char>)
    requires
        name.len() > 0,
        forall|i: int| 0 <= i < name.len() ==> crate::parser_state::is_alnum_char(
            #[trigger] name[i],
        ),
    ensures
        ({
            let m = run(
                ParseModel {
                    stack: seq![ParserState::Starting],
                    name: Seq::empty(),
                    dirs: Seq::empty(),
                },
                name + seq![' ', '{', ' ', '}'],
            );
            &&& m.name == name
            &&& m.dirs == Seq::<Seq<char>>::empty()
            &&& m.stack == seq![ParserState::Starting, ParserState::EndBlock]
        }),
{
    let m0 = ParseModel {
        stack: seq![ParserState::Starting],
        name: Seq::<char>::empty(),
        dirs: Seq::<Seq<char>>::empty(),
    };
    let tail = seq![' ', '{', ' ', '}'];
    lemma_run_append(m0, name, tail);
    assert(name + tail =~= (name + tail));

    // The name: the first character moves `Starting` to `Name`, the rest
    // extend the name.
    let m1 = ParseModel {
        stack: seq![ParserState::Starting, ParserState::Name],
        name: seq![name[0]],
        dirs: Seq::<Seq<char>>::empty(),
    };
    assert(step_char(m0, name[0]) == m1) by {
        assert(current_of(m0.stack) == ParserState::Starting);
        assert(spec_next_state(ParserState::Starting, name[0]) == ParserState::Name);
        assert(m0.stack.push(ParserState::Name) =~= m1.stack);
        assert(seq![name[0]] =~= m1.name);
    }
    lemma_run_append(m0, seq![name[0]], name.drop_first());
    assert(seq![name[0]] + name.drop_first() =~= name);
    lemma_run_one(m0, name[0]);
    assert(forall|i: int|
        0 <= i < name.drop_first().len() ==> crate::parser_state::is_alnum_char(
            #[trigger] name.drop_first()[i],
        ));
    lemma_run_name_chars(m1, name.drop_first());
    let m2 = run(m0, name);
    assert(m2.stack == m1.stack && m2.dirs == m1.dirs);
    assert(m2.name == seq![name[0]] + name.drop_first());
    assert(m2.name == name);

    // The block: whitespace ends the name, `{` opens the block, whitespace
    // starts seeking, `}` closes the block.
    let m3 = step_char(m2, ' ');
    assert(m3.stack =~= seq![ParserState::Starting] && m3.name == name && m3.dirs
        == m2.dirs) by {
        assert(current_of(m2.stack) == ParserState::Name);
        assert(m2.stack.drop_last() =~= seq![ParserState::Starting]);
    }
    let m4 = step_char(m3, '{');
    assert(m4.stack =~= seq![ParserState::Starting, ParserState::StartBlock] && m4.name == name
        && m4.dirs == m2.dirs) by {
        assert(current_of(m3.stack) == ParserState::Starting);
    }
    let m5 = step_char(m4, ' ');
    assert(m5.stack =~= seq![
        ParserState::Starting,
        ParserState::StartBlock,
        ParserState::Seeking,
    ] && m5.name == name && m5.dirs == m2.dirs) by {
        assert(current_of(m4.stack) == ParserState::StartBlock);
    }
    let m6 = step_char(m5, '}');
    assert(m6.stack =~= seq![ParserState::Starting, ParserState::EndBlock] && m6.name == name
        && m6.dirs == m2.dirs) by {
        assert(current_of(m5.stack) == ParserState::Seeking);
        assert(m5.stack.last() == ParserState::Seeking);
        assert(pop_to_block(m5.stack) == pop_to_block(m5.stack.drop_last()));
        assert(m5.stack.drop_last().last() == ParserState::StartBlock);
        assert(pop_to_block(m5.stack.drop_last()) == m5.stack.drop_last().drop_last());
        assert(m5.stack.drop_last().drop_last() =~= seq![ParserState::Starting]);
    }
    assert(run(m2, tail) == m6) by {
        assert(tail.drop_first() =~= seq!['{', ' ', '}']);
        assert(tail.drop_first().drop_first() =~= seq![' ', '}']);
        assert(tail.drop_first().drop_first().drop_first() =~= seq!['}']);
        lemma_run_one(m5, '}');
        assert(run(m2, tail) == run(m3, tail.drop_first()));
        assert(run(m3, tail.drop_first()) == run(m4, tail.drop_first().drop_first()));
        assert(run(m4, tail.drop_first().drop_first()) == run(
            m5,
            tail.drop_first().drop_first().drop_first(),
        ));
    }
    assert(m6.stack =~= seq![ParserState::Starting, ParserState::EndBlock]);
}

/// A comment opened in the middle of a directive is transparent: once its
/// newline arrives, the machine is exactly as it was when the `#` appeared,
/// so the directive's raw text keeps accumulating as if uninterrupted.
pub proof fn lemma_comment_resumes_directive(m: ParseModel, comment: Seq<char>)
    requires
        current_of(m.stack) is InDirective,
        forall|i: int| 0 <= i < comment.len() ==> #[trigger] comment[i] != '\n',
    ensures
        run(m, seq!['#'] + comment + seq!['\n']) == m,
{
    let m1 = ParseModel { stack: m.stack.push(ParserState::Comment), name: m.name, dirs: m.dirs };
    assert(step_char(m, '#') == m1) by {
        assert(current_of(m.stack) == ParserState::InDirective);
        assert(spec_next_state(ParserState::InDirective, '#') == ParserState::Comment);
    }
    let s = seq!['#'] + comment + seq!['\n'];
    lemma_run_append(m, seq!['#'], comment + seq!['\n']);
    assert(seq!['#'] + (comment + seq!['\n']) =~= s);
    lemma_run_one(m, '#');
    lemma_run_append(m1, comment, seq!['\n']);
    assert(forall|i: int| 0 <= i < comment.len() ==> #[trigger] comment[i] != '\n');
    lemma_run_comment_chars(m1, comment);
    lemma_run_one(m1, '\n');
    assert(step_char(m1, '\n') == m) by {
        assert(current_of(m1.stack) == ParserState::Comment);
        assert(m1.stack.drop_last() =~= m.stack);
    }
}

/// A comment inside a directive is transparent to everything that follows:
/// the input with the comment span removed tokenizes to the very same
/// result, so the directive's text accumulates across the comment boundary
/// as if uninterrupted.
pub proof fn lemma_comment_transparent_in_directive(
    m: ParseModel,
    comment: Seq<char>,
    rest: Seq<char>,
)
    requires
        current_of(m.stack) is InDirective,
        forall|i: int| 0 <= i < comment.len() ==> #[trigger] comment[i] != '\n',
    ensures
        run(m, (seq!['#'] + comment + seq!['\n']) + rest) == run(m, rest),
{
    lemma_comment_resumes_directive(m, comment);
    lemma_run_append(m, seq!['#'] + comment + seq!['\n'], rest);
}

/// An explicit structural tokenizer failure: the position of the character
/// that drove the automaton into the `Invalid` state.
#[derive(Debug, Clone, Copy, PartialEq, Eq, Structural)]
pub struct ParseFailure {
    pub position: usize,
}

/// The parsing state when breaking apart a container configuration.  The
/// state tracked is a stack of states; the top-most entry is the current
/// state.
#[derive(Debug)]
pub struct ConfigParser {
    pub state_stack: Vec<ParserState>,
}

impl ConfigParser {
    /// The ghost machine this parser and an output configuration stand for.
    pub open spec fn model_with(stack: Seq<ParserState>, config: Configuration) -> ParseModel {
        ParseModel { stack: stack, name: config.name@, dirs: dirs_of(config.directives@) }
    }

    /// Creates a new configuration parser, in the `Starting` state.
    pub fn new() -> (r: ConfigParser)
        ensures
            r.state_stack@ == seq![ParserState::Starting],
    {
        let mut stack: Vec<ParserState> = Vec::new();
        stack.push(ParserState::Starting);
        proof {
            assert(stack@ =~= seq![ParserState::Starting]);
        }
        ConfigParser { state_stack: stack }
    }

    /// Handles the transition that starts the container name: the `Name`
    /// state is pushed and the token becomes the first letter of the name.
    pub fn start_name_transition(&mut self, config: &mut Configuration, token: char)
        ensures
            final(self).state_stack@ == old(self).state_stack@.push(ParserState::Name),
            final(config).name@ == seq![token],
            final(config).directives == old(config).directives,
    {
        config.name = String::new();
        self.state_stack.push(ParserState::Name);
        push_char(&mut config.name, token);
        proof {
            assert(config.name@ =~= seq![token]);
        }
    }

    /// Ends the name: the `Name` state is popped.  Popping a state that is
    /// not `Name` at this point would be an internal-logic defect, so the
    /// contract requires `Name` on top; the body then cannot observe anything
    /// else.
    pub fn end_name_transition(&mut self, _config: &mut Configuration, _token: char)
        requires
            old(self).state_stack@.len() > 0,
            old(self).state_stack@.last() is Name,
        ensures
            final(self).state_stack@ == old(self).state_stack@.drop_last(),
            *final(_config) == *old(_config),
    {
        self.state_stack.pop();
    }

    /// Opens the block holding the directives: a `Name` on top is popped
    /// first, then `StartBlock` is pushed.
    pub fn start_block_transition(&mut self, _config: &mut Configuration, _token: char)
        ensures
            final(self).state_stack@ == spec_start_block(
                ParseModel { stack: old(self).state_stack@, name: Seq::empty(), dirs: Seq::empty() },
            ).stack,
            *final(_config) == *old(_config),
    {
        let n = self.state_stack.len();
        if n > 0 && self.state_stack[n - 1] == ParserState::Name {
            self.state_stack.pop();
        }
        self.state_stack.push(ParserState::StartBlock);
    }

    /// Opens a comment, which runs to the end of the line: a `Name` on top is
    /// popped first, then `Comment` is pushed.
    pub fn start_comment_transition(&mut self, _config: &mut Configuration, _token: char)
        ensures
            final(self).state_stack@ == spec_start_comment(
                ParseModel { stack: old(self).state_stack@, name: Seq::empty(), dirs: Seq::empty() },
            ).stack,
            *final(_config) == *old(_config),
    {
        let n = self.state_stack.len();
        if n > 0 && self.state_stack[n - 1] == ParserState::Name {
            self.state_stack.pop();
        }
        self.state_stack.push(ParserState::Comment);
    }

    /// Starts seeking the next directive: a finished `InDirective` is popped,
    /// otherwise `Seeking` is pushed.
    pub fn seeking_transition(&mut self, _config: &mut Configuration, _token: char)
        ensures
            final(self).state_stack@ == spec_seeking(
                ParseModel { stack: old(self).state_stack@, name: Seq::empty(), dirs: Seq::empty() },
            ).stack,
            *final(_config) == *old(_config),
    {
        let n = self.state_stack.len();
        if n > 0 {
            if self.state_stack[n - 1] == ParserState::InDirective {
                self.state_stack.pop();
            } else {
                self.state_stack.push(ParserState::Seeking);
            }
        }
    }

    /// Enters a directive: a fresh item seeded with the token joins the
    /// directive list and `InDirective` is pushed.
    pub fn in_directive_transition(&mut self, config: &mut Configuration, token: char)
        ensures
            final(self).state_stack@ == old(self).state_stack@.push(ParserState::InDirective),
            final(config).name == old(config).name,
            dirs_of(final(config).directives@) == dirs_of(old(config).directives@).push(
                seq![token],
            ),
            bare_items(old(config).directives@) ==> bare_items(final(config).directives@),
    {
        let mut item = ConfigItem::new("");
        push_char(&mut item.raw, token);
        config.directives.push(item);
        self.state_stack.push(ParserState::InDirective);
        proof {
            reveal_strlit("");
            assert(item.raw@ =~= seq![token]);
            assert(dirs_of(config.directives@) =~= dirs_of(old(config).directives@).push(
                seq![token],
            ));
            assert(item.name@ =~= Seq::<char>::empty());
            if bare_items(old(config).directives@) {
                assert forall|i: int| 0 <= i < config.directives@.len() implies {
                    &&& (#[trigger] config.directives@[i]).name@ == Seq::<char>::empty()
                    &&& config.directives@[i].values@ == Map::<Seq<char>, ConfigValue>::empty()
                    &&& config.directives@[i].values.well_formed()
                    &&& config.directives@[i].directives@ == Seq::<String>::empty()
                } by {
                    if i < old(config).directives@.len() {
                        assert(config.directives@[i] == old(config).directives@[i]);
                    } else {
                        assert(config.directives@[i] == item);
                    }
                }
            }
        }
    }

    /// Ends a configuration block: states are popped down to and including
    /// the innermost `StartBlock`, then `EndBlock` is pushed.
    pub fn end_block_transition(&mut self, _config: &mut Configuration, _token: char)
        ensures
            final(self).state_stack@ == pop_to_block(old(self).state_stack@).push(
                ParserState::EndBlock,
            ),
            *final(_config) == *old(_config),
    {
        loop
            invariant_except_break
                pop_to_block(self.state_stack@) == pop_to_block(old(self).state_stack@),
            ensures
                self.state_stack@ == pop_to_block(old(self).state_stack@),
            decreases self.state_stack@.len(),
        {
            match self.state_stack.pop() {
                None => {
                    break ;
                },
                Some(state) => {
                    if state == ParserState::StartBlock {
                        break ;
                    }
                },
            }
        }
        self.state_stack.push(ParserState::EndBlock);
    }

    /// Ends a comment: the `Comment` state is popped, resuming whatever was
    /// interrupted.
    pub fn end_comment_transition(&mut self, _config: &mut Configuration, _token: char)
        ensures
            final(self).state_stack@ == if old(self).state_stack@.len() == 0 {
                old(self).state_stack@
            } else {
                old(self).state_stack@.drop_last()
            },
            *final(_config) == *old(_config),
    {
        self.state_stack.pop();
    }

    /// Dispatches a state change into its transition handler.  The effect on
    /// stack, name and directives is exactly [`step_transition`] on the ghost
    /// machine.
    pub fn handle_transition(
        &mut self,
        config: &mut Configuration,
        token: char,
        from: ParserState,
        to: ParserState,
    )
        requires
            from is Name && to is Starting ==> old(self).state_stack@.len() > 0
                && old(self).state_stack@.last() is Name,
        ensures
            ({
                let m1 = step_transition(
                    Self::model_with(old(self).state_stack@, *old(config)),
                    from,
                    to,
                    token,
                );
                &&& final(self).state_stack@ == m1.stack
                &&& final(config).name@ == m1.name
                &&& dirs_of(final(config).directives@) == m1.dirs
            }),
            bare_items(old(config).directives@) ==> bare_items(final(config).directives@),
    {
        match from {
            ParserState::Starting => {
                match to {
                    ParserState::Name => self.start_name_transition(config, token),
                    ParserState::StartBlock => self.start_block_transition(config, token),
                    ParserState::Comment => self.start_comment_transition(config, token),
                    ParserState::Invalid => self.state_stack.push(ParserState::Invalid),
                    _ => {},
                }
            },
            ParserState::Name => {
                match to {
                    ParserState::Starting => self.end_name_transition(config, token),
                    ParserState::StartBlock => self.start_block_transition(config, token),
                    ParserState::Comment => self.start_comment_transition(config, token),
                    ParserState::Invalid => self.state_stack.push(ParserState::Invalid),
                    _ => {},
                }
            },
            ParserState::StartBlock => {
                match to {
                    ParserState::Seeking => self.seeking_transition(config, token),
                    ParserState::InDirective => self.in_directive_transition(config, token),
                    ParserState::Comment => self.start_comment_transition(config, token),
                    ParserState::Invalid => self.state_stack.push(ParserState::Invalid),
                    _ => {},
                }
            },
            ParserState::EndBlock => {
                match to {
                    ParserState::Comment => self.start_comment_transition(config, token),
                    ParserState::Invalid => self.state_stack.push(ParserState::Invalid),
                    _ => {},
                }
            },
            ParserState::Seeking => {
                match to {
                    ParserState::InDirective => self.in_directive_transition(config, token),
                    ParserState::Comment => self.start_comment_transition(config, token),
                    ParserState::EndBlock => self.end_block_transition(config, token),
                    ParserState::Invalid => self.state_stack.push(ParserState::Invalid),
                    _ => {},
                }
            },
            ParserState::Comment => {
                match to {
                    ParserState::Seeking => self.end_comment_transition(config, token),
                    _ => {},
                }
            },
            ParserState::InDirective => {
                match to {
                    ParserState::Comment => self.start_comment_transition(config, token),
                    ParserState::Seeking => self.seeking_transition(config, token),
                    ParserState::EndBlock => self.end_block_transition(config, token),
                    _ => {},
                }
            },
            ParserState::Invalid => {},
        }
    }

    /// Tokenizes configuration text, additionally reporting where parsing
    /// stopped.  The returned configuration is exactly what the ghost
    /// machine accumulates over the input; the second component carries the
    /// position of the character that drove the automaton into `Invalid`, or
    /// `None` when the whole input was consumed.
    pub fn parse_content_checked(&mut self, content: &str) -> (r: (
        Configuration,
        Option<ParseFailure>,
    ))
        ensures
            ({
                let m0 = ParseModel {
                    stack: old(self).state_stack@,
                    name: Seq::empty(),
                    dirs: Seq::empty(),
                };
                let m = run(m0, content@);
                &&& final(self).state_stack@ == m.stack
                &&& r.0.name@ == m.name
                &&& dirs_of(r.0.directives@) == m.dirs
                &&& bare_items(r.0.directives@)
                &&& r.0.well_formed()
                &&& match r.1 {
                    Some(f) => f.position < content@.len() && !halted(
                        run(m0, content@.take(f.position as int)),
                    ) && halted(run(m0, content@.take(f.position as int + 1))),
                    None => halted(m0) || !halted(run(m0, content@)),
                }
            }),
    {
        let ghost m0 = ParseModel {
            stack: self.state_stack@,
            name: Seq::<char>::empty(),
            dirs: Seq::<Seq<char>>::empty(),
        };
        let cs = chars_of(content);
        let mut config = Configuration::default();
        let mut fail: Option<ParseFailure> = None;
        let n = cs.len();
        let mut i: usize = 0;
        let mut live = false;
        if self.state_stack.len() > 0 {
            live = self.state_stack[self.state_stack.len() - 1] != ParserState::Invalid;
        }
        while i < n && live
            invariant
                i <= n,
                n == cs@.len(),
                cs@ == content@,
                m0 == (ParseModel {
                    stack: old(self).state_stack@,
                    name: Seq::<char>::empty(),
                    dirs: Seq::<Seq<char>>::empty(),
                }),
                ({
                    let m = run(m0, cs@.take(i as int));
                    &&& self.state_stack@ == m.stack
                    &&& config.name@ == m.name
                    &&& dirs_of(config.directives@) == m.dirs
                }),
                live == !halted(run(m0, cs@.take(i as int))),
                bare_items(config.directives@),
                config.well_formed(),
                match fail {
                    Some(f) => f.position < i && !halted(run(m0, cs@.take(f.position as int)))
                        && halted(run(m0, cs@.take(f.position as int + 1))),
                    None => halted(m0) || !halted(run(m0, cs@.take(i as int))),
                },
            decreases n - i,
        {
            let ghost m_pre = run(m0, cs@.take(i as int));
            proof {
                assert(self.state_stack@.len() > 0);
            }
            let idx = self.state_stack.len() - 1;
            let current_state = self.state_stack[idx];
            let c = cs[i];
            proof {
                assert(current_of(m_pre.stack) == current_state);
            }
            let next = current_state.next_state(c);
            if current_state != next {
                self.handle_transition(&mut config, c, current_state, next);
            } else if next == ParserState::InDirective {
                match config.directives.pop() {
                    None => {},
                    Some(mut item) => {
                        push_char(&mut item.raw, c);
                        config.directives.push(item);
                        proof {
                            assert(dirs_of(config.directives@) =~= m_pre.dirs.update(
                                m_pre.dirs.len() - 1,
                                m_pre.dirs.last().push(c),
                            ));
                            assert(bare_items(config.directives@));
                        }
                    },
                }
            } else if next == ParserState::Name {
                push_char(&mut config.name, c);
            }
            i = i + 1;
            proof {
                lemma_run_snoc(m0, cs@.take(i - 1), c);
                assert(cs@.take(i as int) =~= cs@.take(i - 1).push(c));
                assert(run(m0, cs@.take(i as int)) == step_char(m_pre, c));
            }
            live = false;
            if self.state_stack.len() > 0 {
                live = self.state_stack[self.state_stack.len() - 1] != ParserState::Invalid;
            }
            if !live && fail.is_none() {
                fail = Some(ParseFailure { position: i - 1 });
                proof {
                    assert(cs@.take(i - 1) =~= cs@.take(i as int - 1));
                }
            }
        }
        proof {
            if !live {
                lemma_run_append(m0, cs@.take(i as int), cs@.skip(i as int));
                assert(cs@.take(i as int) + cs@.skip(i as int) =~= cs@);
                lemma_run_halted(run(m0, cs@.take(i as int)), cs@.skip(i as int));
            } else {
                assert(cs@.take(i as int) =~= cs@);
            }
        }
        (config, fail)
    }

    /// Tokenizes the content of a container configuration.  Each character
    /// in turn determines the next state as per the transition table; a
    /// state change dispatches into the transition handlers, while an
    /// unchanged `Name` or `InDirective` state extends the name or the
    /// current directive.  Never fails: on an unrecognized character the
    /// partial result gathered so far is returned.
    pub fn parse_content(&mut self, content: &str) -> (r: Result<Configuration, ParseFailure>)
        ensures
            r is Ok,
            ({
                let m = run(
                    ParseModel {
                        stack: old(self).state_stack@,
                        name: Seq::empty(),
                        dirs: Seq::empty(),
                    },
                    content@,
                );
                &&& final(self).state_stack@ == m.stack
                &&& r matches Ok(c) ==> {
                    &&& c.name@ == m.name
                    &&& dirs_of(c.directives@) == m.dirs
                    &&& bare_items(c.directives@)
                    &&& c.well_formed()
                }
            }),
    {
        let (config, _position) = self.parse_content_checked(content);
        Ok(config)
    }
}

} // verus!
