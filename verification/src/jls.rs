//! The live-system line tokenizer and the directive classifier.
//!
//! One line of live-system output is split into whitespace-separated tokens,
//! double-quoted spans kept whole ([`JlsCommand::tokenize_jls_line`]).  Each
//! raw directive is then classified against the directive grammar into one
//! typed parameter ([`JlsCommand::classify`]): boolean flag, number, or
//! string, with a sentinel parameter on grammar mismatch.

use vstd::prelude::*;
use crate::parser_state::{is_alnum_char, is_digit_char, alnum_char, digit_char};
use crate::text::{chars_of, string_from_chars, string_from_char_range};

verus! {

/// A typed parameter: one directive's name together with its boolean,
/// string, or numeric value.
#[derive(Debug, PartialEq)]
pub enum Parameters {
    BooleanParameter(String, bool),
    StringParameter(String, String),
    NumberParameter(String, i32),
}

/// The name a parameter carries.
pub open spec fn spec_param_name(p: Parameters) -> Seq<char> {
    match p {
        Parameters::BooleanParameter(n, _) => n@,
        Parameters::StringParameter(n, _) => n@,
        Parameters::NumberParameter(n, _) => n@,
    }
}

impl Parameters {
    /// The left-hand name of the directive this parameter came from.
    pub fn name(&self) -> (r: &String)
        ensures
            r@ == spec_param_name(*self),
    {
        match self {
            Parameters::BooleanParameter(n, _) => n,
            Parameters::StringParameter(n, _) => n,
            Parameters::NumberParameter(n, _) => n,
        }
    }
}

/// The error of a directive that matches no grammar form.
#[derive(Debug, PartialEq, Eq, Structural, Clone, Copy)]
pub enum DirectiveError {
    NoMatch,
}

// ---------------------------------------------------------------------------
// The line tokenizer.
// ---------------------------------------------------------------------------

/// One step of the line tokenizer: its state is (inside a quoted span,
/// current token, emitted tokens).  A space outside quotes flushes the
/// current token; a double quote opens a span that runs to the matching
/// quote, both quotes kept.
pub open spec fn tok_step(
    inq: bool,
    cur: Seq<char>,
    acc: Seq<Seq<char>>,
    c: char,
) -> (bool, Seq<char>, Seq<Seq<char>>) {
    if inq {
        (c != '"', cur.push(c), acc)
    } else if c == '"' {
        (true, cur.push(c), acc)
    } else if c == ' ' {
        if cur.len() > 0 {
            (false, Seq::empty(), acc.push(cur))
        } else {
            (false, cur, acc)
        }
    } else {
        (false, cur.push(c), acc)
    }
}

/// The line tokenizer run over a character sequence.
pub open spec fn tok_run(
    inq: bool,
    cur: Seq<char>,
    acc: Seq<Seq<char>>,
    s: Seq<char>,
) -> (bool, Seq<char>, Seq<Seq<char>>)
    decreases s.len(),
{
    if s.len() == 0 {
        (inq, cur, acc)
    } else {
        let st = tok_step(inq, cur, acc, s[0]);
        tok_run(st.0, st.1, st.2, s.drop_first())
    }
}

/// The tokens of one line: the tokenizer is run over the whole line and a
/// nonempty trailing token is flushed.
pub open spec fn spec_tokenize(s: Seq<char>) -> Seq<Seq<char>> {
    let st = tok_run(false, Seq::empty(), Seq::empty(), s);
    if st.1.len() > 0 {
        st.2.push(st.1)
    } else {
        st.2
    }
}

/// Extending the input by one character steps the tokenizer once more.
proof fn lemma_tok_snoc(inq: bool, cur: Seq<char>, acc: Seq<Seq<char>>, s: Seq<char>, c: char)
    ensures
        ({
            let st = tok_run(inq, cur, acc, s);
            tok_run(inq, cur, acc, s.push(c)) == tok_step(st.0, st.1, st.2, c)
        }),
    decreases s.len(),
{
    if s.len() == 0 {
        assert(s.push(c)[0] == c);
        assert(s.push(c).drop_first() =~= Seq::<char>::empty());
        let st = tok_step(inq, cur, acc, c);
        assert(tok_run(inq, cur, acc, s.push(c)) == tok_run(st.0, st.1, st.2, Seq::empty()));
    } else {
        assert(s.push(c)[0] == s[0]);
        assert(s.push(c).drop_first() =~= s.drop_first().push(c));
        let st = tok_step(inq, cur, acc, s[0]);
        lemma_tok_snoc(st.0, st.1, st.2, s.drop_first(), c);
    }
}

proof fn lemma_tok_acc_nonempty(inq: bool, cur: Seq<char>, acc: Seq<Seq<char>>, s: Seq<char>)
    requires
        forall|i: int| 0 <= i < acc.len() ==> (#[trigger] acc[i]).len() > 0,
    ensures
        ({
            let st = tok_run(inq, cur, acc, s);
            forall|i: int| 0 <= i < st.2.len() ==> (#[trigger] st.2[i]).len() > 0
        }),
    decreases s.len(),
{
    if s.len() > 0 {
        let st = tok_step(inq, cur, acc, s[0]);
        assert(forall|i: int| 0 <= i < st.2.len() ==> (#[trigger] st.2[i]).len() > 0);
        lemma_tok_acc_nonempty(st.0, st.1, st.2, s.drop_first());
        assert(tok_run(inq, cur, acc, s) == tok_run(st.0, st.1, st.2, s.drop_first()));
    }
}

/// Runs of whitespace never yield empty tokens: every token of any line is
/// nonempty.
pub proof fn lemma_tokens_nonempty(s: Seq<char>)
    ensures
        forall|i: int| 0 <= i < spec_tokenize(s).len() ==> (#[trigger] spec_tokenize(s)[i]).len()
            > 0,
{
    lemma_tok_acc_nonempty(false, Seq::empty(), Seq::empty(), s);
}

// ---------------------------------------------------------------------------
// The directive grammar.
// ---------------------------------------------------------------------------

/// A word character: letter, digit or underscore.
pub open spec fn is_word_char(c: char) -> bool {
    is_alnum_char(c) || c == '_'
}

/// A character a directive name may hold: word characters, `+` and `.`.
pub open spec fn is_name_char(c: char) -> bool {
    is_word_char(c) || c == '+' || c == '.'
}

/// The length of the name segment: the longest prefix of name characters.
pub open spec fn name_len(s: Seq<char>) -> int
    decreases s.len(),
{
    if s.len() == 0 || !is_name_char(s[0]) {
        0
    } else {
        1 + name_len(s.drop_first())
    }
}

/// The literal value text that disables a flag.
pub open spec fn disable_seq() -> Seq<char> {
    seq!['d', 'i', 's', 'a', 'b', 'l', 'e']
}

/// Every character is a decimal digit.
pub open spec fn all_digits(v: Seq<char>) -> bool {
    forall|i: int| 0 <= i < v.len() ==> is_digit_char(#[trigger] v[i])
}

/// Every character is a word character.
pub open spec fn all_word(v: Seq<char>) -> bool {
    forall|i: int| 0 <= i < v.len() ==> is_word_char(#[trigger] v[i])
}

/// A value that announces itself as numeric: it starts with a digit.
pub open spec fn is_numeric_form(v: Seq<char>) -> bool {
    v.len() > 0 && is_digit_char(v[0])
}

/// A double-quoted value: it starts and ends with a quote.
pub open spec fn is_quoted_form(v: Seq<char>) -> bool {
    v.len() >= 2 && v[0] == '"' && v.last() == '"'
}

/// The integer a digit run denotes.
pub open spec fn digits_value(v: Seq<char>) -> int
    decreases v.len(),
{
    if v.len() == 0 {
        0
    } else {
        digits_value(v.drop_last()) * 10 + (v.last() as u32 - 48)
    }
}

/// The number a numeric value yields: its digits' value where it is a pure
/// digit run fitting a 32-bit integer, and the diagnostic value -1 where the
/// text is malformed or overflows.
pub open spec fn spec_number_of(v: Seq<char>) -> int {
    if all_digits(v) && digits_value(v) <= 0x7fffffff {
        digits_value(v)
    } else {
        -1
    }
}

/// A value text matches the grammar when it is the disable literal, a
/// numeric-looking run, a closed double-quoted span, or a bare word run
/// (possibly empty).
pub open spec fn value_matches(v: Seq<char>) -> bool {
    ||| v == disable_seq()
    ||| is_numeric_form(v)
    ||| is_quoted_form(v)
    ||| all_word(v)
}

/// A directive matches the grammar when it has a nonempty name segment,
/// followed either by nothing or by `=` and a matching value text.
pub open spec fn directive_matches(s: Seq<char>) -> bool {
    let n = name_len(s);
    &&& n > 0
    &&& (n == s.len() || (s[n] == '=' && value_matches(s.subrange(n + 1, s.len() as int))))
}

/// What parameter a matching directive classifies to, by priority: value
/// absent -> true flag; `disable` -> false flag; digit-led value -> number
/// (or -1 when malformed); quoted value -> string without its quotes; word
/// value -> string as written.
pub open spec fn classifies(s: Seq<char>, p: Parameters) -> bool {
    let n = name_len(s);
    let name = s.take(n);
    if n == s.len() {
        p matches Parameters::BooleanParameter(nm, b) && nm@ == name && b == true
    } else {
        let v = s.subrange(n + 1, s.len() as int);
        if v == disable_seq() {
            p matches Parameters::BooleanParameter(nm, b) && nm@ == name && b == false
        } else if is_numeric_form(v) {
            p matches Parameters::NumberParameter(nm, x) && nm@ == name && x == spec_number_of(v)
        } else if is_quoted_form(v) {
            p matches Parameters::StringParameter(nm, val) && nm@ == name && val@ == v.subrange(
                1,
                v.len() - 1,
            )
        } else {
            p matches Parameters::StringParameter(nm, val) && nm@ == name && val@ == v
        }
    }
}

/// The sentinel parameter substituted on grammar mismatch.
pub open spec fn is_sentinel(p: Parameters) -> bool {
    p matches Parameters::StringParameter(n, v) && n@ == seq!['N', 'O', ' ', 'N', 'A', 'M', 'E']
        && v@ == seq!['N', 'O', ' ', 'V', 'A', 'L', 'U', 'E']
}

/// What classification yields for any directive text: its typed parameter
/// where the grammar matches, the sentinel otherwise.
pub open spec fn classified_as(s: Seq<char>, p: Parameters) -> bool {
    if directive_matches(s) {
        classifies(s, p)
    } else {
        is_sentinel(p)
    }
}

/// The name segment is the prefix of name characters up to the first
/// character that is not one (or the whole text).
proof fn lemma_name_len_at(s: Seq<char>, i: int)
    requires
        0 <= i <= s.len(),
        forall|j: int| 0 <= j < i ==> is_name_char(#[trigger] s[j]),
        i < s.len() ==> !is_name_char(s[i]),
    ensures
        name_len(s) == i,
    decreases s.len(),
{
    if i == 0 {
    } else {
        assert(is_name_char(s[0]));
        assert(forall|j: int| 0 <= j < i - 1 ==> is_name_char(#[trigger] s.drop_first()[j]));
        assert(i - 1 < s.drop_first().len() ==> !is_name_char(s.drop_first()[i - 1]));
        lemma_name_len_at(s.drop_first(), i - 1);
    }
}

/// A digit run's value is never negative.
proof fn lemma_digits_nonneg(v: Seq<char>)
    requires
        all_digits(v),
    ensures
        digits_value(v) >= 0,
    decreases v.len(),
{
    if v.len() > 0 {
        assert(all_digits(v.drop_last())) by {
            assert(forall|k: int| 0 <= k < v.len() - 1 ==> v.drop_last()[k] == v[k]);
        }
        lemma_digits_nonneg(v.drop_last());
        assert(is_digit_char(v.last()));
    }
}

/// A digit run's value only grows as the run extends.
proof fn lemma_digits_monotone(v: Seq<char>, j: int)
    requires
        all_digits(v),
        0 <= j <= v.len(),
    ensures
        digits_value(v) >= digits_value(v.take(j)),
        digits_value(v.take(j)) >= 0,
    decreases v.len(),
{
    if j == v.len() {
        assert(v.take(j) =~= v);
        lemma_digits_nonneg(v);
    } else {
        assert(all_digits(v.drop_last())) by {
            assert(forall|k: int| 0 <= k < v.len() - 1 ==> v.drop_last()[k] == v[k]);
        }
        assert(v.drop_last().take(j) =~= v.take(j));
        lemma_digits_monotone(v.drop_last(), j);
        assert(digits_value(v) == digits_value(v.drop_last()) * 10 + (v.last() as u32 - 48));
        assert(is_digit_char(v.last()));
        lemma_digits_nonneg(v.drop_last());
        assert(digits_value(v.drop_last()) * 10 >= digits_value(v.drop_last()));
    }
}

/// The source of live-system configuration lines.
pub struct JlsCommand {}

impl JlsCommand {
    /// A new live-system line reader.
    pub fn new() -> (r: JlsCommand) {
        JlsCommand {}
    }

    /// Splits one line of live-system output into its tokens: whitespace
    /// separates tokens, a double-quoted span is copied verbatim (quotes
    /// included), and runs of spaces yield no empty tokens.
    pub fn tokenize_jls_line(&self, raw: &str) -> (r: Vec<String>)
        ensures
            r.deep_view() == spec_tokenize(raw@),
    {
        let cs = chars_of(raw);
        let n = cs.len();
        let mut result: Vec<String> = Vec::new();
        let mut in_quotes = false;
        let mut current: Vec<char> = Vec::new();
        let mut i: usize = 0;
        while i < n
            invariant
                i <= n,
                n == cs@.len(),
                cs@ == raw@,
                ({
                    let st = tok_run(false, Seq::empty(), Seq::empty(), cs@.take(i as int));
                    &&& in_quotes == st.0
                    &&& current@ == st.1
                    &&& result.deep_view() == st.2
                }),
            decreases n - i,
        {
            let ghost st_pre = tok_run(false, Seq::empty(), Seq::empty(), cs@.take(i as int));
            let c = cs[i];
            if in_quotes {
                current.push(c);
                if c == '"' {
                    in_quotes = false;
                }
            } else if c == '"' {
                in_quotes = true;
                current.push(c);
            } else if c == ' ' {
                if current.len() > 0 {
                    let token = string_from_chars(&current);
                    result.push(token);
                    current = Vec::new();
                    proof {
                        assert(result.deep_view() =~= st_pre.2.push(st_pre.1));
                    }
                }
            } else {
                current.push(c);
            }
            i = i + 1;
            proof {
                lemma_tok_snoc(false, Seq::empty(), Seq::empty(), cs@.take(i - 1), c);
                assert(cs@.take(i as int) =~= cs@.take(i - 1).push(c));
            }
        }
        proof {
            assert(cs@.take(i as int) =~= cs@);
        }
        if current.len() > 0 {
            let token = string_from_chars(&current);
            result.push(token);
            proof {
                let st = tok_run(false, Seq::empty(), Seq::empty(), cs@);
                assert(result.deep_view() =~= st.2.push(st.1));
            }
        }
        result
    }

    /// Classifies one raw directive against the grammar: `Ok` with its typed
    /// parameter exactly when the directive matches a grammar form, `Err`
    /// exactly when it matches none.
    #[verifier::loop_isolation(false)]
    pub fn directive_to_paramter(&self, directive: &str) -> (r: Result<Parameters, DirectiveError>)
        ensures
            match r {
                Ok(p) => directive_matches(directive@) && classifies(directive@, p),
                Err(_) => !directive_matches(directive@),
            },
    {
        let cs = chars_of(directive);
        let n = cs.len();

        // The name segment: the longest prefix of name characters.
        let mut i: usize = 0;
        let mut scanning = true;
        while scanning
            invariant
                i <= n,
                forall|j: int| 0 <= j < i ==> is_name_char(#[trigger] cs@[j]),
                !scanning ==> (i == n || !is_name_char(cs@[i as int])),
            decreases n - i + (if scanning { 1int } else { 0int }),
        {
            if i < n {
                let c = cs[i];
                if alnum_char(c) || c == '_' || c == '+' || c == '.' {
                    i = i + 1;
                } else {
                    scanning = false;
                }
            } else {
                scanning = false;
            }
        }
        proof {
            lemma_name_len_at(directive@, i as int);
        }
        if i == 0 {
            return Err(DirectiveError::NoMatch);
        }
        let name = string_from_char_range(&cs, 0, i);
        proof {
            assert(name@ == directive@.take(i as int));
        }
        if i == n {
            return Ok(Parameters::BooleanParameter(name, true));
        }
        if cs[i] != '=' {
            return Err(DirectiveError::NoMatch);
        }

        // The value text after `=`.
        let vstart = i + 1;
        let ghost v = directive@.subrange(vstart as int, n as int);
        let vlen = n - vstart;

        // The disable literal.
        if vlen == 7 && cs[vstart] == 'd' && cs[vstart + 1] == 'i' && cs[vstart + 2] == 's'
            && cs[vstart + 3] == 'a' && cs[vstart + 4] == 'b' && cs[vstart + 5] == 'l'
            && cs[vstart + 6] == 'e' {
            proof {
                assert(v =~= disable_seq());
            }
            return Ok(Parameters::BooleanParameter(name, false));
        }
        proof {
            assert(v != disable_seq());
        }

        // A numeric-looking value: a digit leads.
        if vlen > 0 && digit_char(cs[vstart]) {
            proof {
                assert(v[0] == cs@[vstart as int]);
            }
            let mut ok = true;
            let mut acc: u64 = 0;
            let mut j: usize = 0;
            while j < vlen
                invariant
                    j <= vlen,
                    vlen == v.len(),
                    n == cs@.len(),
                    cs@ == directive@,
                    vstart + vlen == n,
                    v == directive@.subrange(vstart as int, n as int),
                    ok ==> {
                        &&& forall|k: int| 0 <= k < j ==> is_digit_char(#[trigger] v[k])
                        &&& acc == digits_value(v.take(j as int))
                        &&& acc <= 0x7fffffff
                    },
                    !ok ==> !(all_digits(v) && digits_value(v) <= 0x7fffffff),
                decreases vlen - j,
            {
                let c = cs[vstart + j];
                proof {
                    assert(v[j as int] == cs@[vstart + j]);
                }
                if !digit_char(c) {
                    ok = false;
                    proof {
                        assert(!is_digit_char(v[j as int]));
                    }
                } else if ok {
                    let d: u64 = (c as u32 - 48) as u64;
                    let next: u64 = acc * 10 + d;
                    proof {
                        assert(v.take(j + 1).drop_last() =~= v.take(j as int));
                        assert(v.take(j + 1).last() == v[j as int]);
                        assert(digits_value(v.take(j + 1)) == digits_value(v.take(j as int)) * 10
                            + (v[j as int] as u32 - 48));
                    }
                    if next > 2147483647 {
                        ok = false;
                        proof {
                            if all_digits(v) {
                                lemma_digits_monotone(v, j + 1);
                            }
                        }
                    } else {
                        acc = next;
                    }
                }
                j = j + 1;
            }
            if ok {
                proof {
                    assert(v.take(vlen as int) =~= v);
                    assert(all_digits(v));
                    assert(spec_number_of(v) == acc);
                }
                return Ok(Parameters::NumberParameter(name, acc as i32));
            } else {
                proof {
                    assert(spec_number_of(v) == -1);
                }
                return Ok(Parameters::NumberParameter(name, -1i32));
            }
        }

        // A double-quoted value.
        if vlen > 0 && cs[vstart] == '"' {
            proof {
                assert(v[0] == '"');
                assert(!is_numeric_form(v));
                assert(!is_word_char('"'));
                assert(!all_word(v));
            }
            if vlen >= 2 && cs[n - 1] == '"' {
                proof {
                    assert(v.last() == cs@[n - 1]);
                }
                let quoted = string_from_char_range(&cs, vstart + 1, n - 1);
                proof {
                    assert(quoted@ =~= v.subrange(1, v.len() - 1));
                }
                return Ok(Parameters::StringParameter(name, quoted));
            } else {
                proof {
                    if vlen >= 2 {
                        assert(v.last() == cs@[n - 1]);
                    }
                    assert(!is_quoted_form(v));
                }
                return Err(DirectiveError::NoMatch);
            }
        }

        // A bare word value, possibly empty.
        let mut j: usize = 0;
        while j < vlen
            invariant
                j <= vlen,
                vlen == v.len(),
                n == cs@.len(),
                cs@ == directive@,
                vstart + vlen == n,
                v == directive@.subrange(vstart as int, n as int),
                forall|k: int| 0 <= k < j ==> is_word_char(#[trigger] v[k]),
            decreases vlen - j,
        {
            let c = cs[vstart + j];
            proof {
                assert(v[j as int] == cs@[vstart + j]);
            }
            if !(alnum_char(c) || c == '_') {
                proof {
                    assert(!is_word_char(v[j as int]));
                    assert(!all_word(v));
                    assert(vlen > 0 ==> v[0] == cs@[vstart as int]);
                }
                return Err(DirectiveError::NoMatch);
            }
            j = j + 1;
        }
        proof {
            assert(all_word(v));
            assert(vlen > 0 ==> v[0] == cs@[vstart as int]);
            assert(!is_numeric_form(v));
            assert(!is_quoted_form(v));
        }
        let value = string_from_char_range(&cs, vstart, n);
        Ok(Parameters::StringParameter(name, value))
    }

    /// Classifies one raw directive, totally: the typed parameter where the
    /// grammar matches, and exactly one sentinel parameter otherwise — never
    /// an error, never zero or several results.
    pub fn classify(&self, directive: &str) -> (p: Parameters)
        ensures
            classified_as(directive@, p),
    {
        match self.directive_to_paramter(directive) {
            Ok(p) => p,
            Err(_) => {
                let name: String = "NO NAME".to_owned();
                let value: String = "NO VALUE".to_owned();
                proof {
                    reveal_strlit("NO NAME");
                    reveal_strlit("NO VALUE");
                    assert(name@ =~= seq!['N', 'O', ' ', 'N', 'A', 'M', 'E']);
                    assert(value@ =~= seq!['N', 'O', ' ', 'V', 'A', 'L', 'U', 'E']);
                }
                Parameters::StringParameter(name, value)
            },
        }
    }

    /// Classifies a whole token list, one parameter per token, sentinels
    /// included: the result always has exactly as many parameters as there
    /// were tokens.
    pub fn convert_to_parameter_list(&self, raw: &Vec<String>) -> (r: Result<
        Vec<Parameters>,
        DirectiveError,
    >)
        ensures
            r is Ok,
            r matches Ok(ps) ==> {
                &&& ps@.len() == raw@.len()
                &&& forall|i: int| 0 <= i < raw@.len() ==> classified_as(
                    raw@[i]@,
                    #[trigger] ps@[i],
                )
            },
    {
        let mut result: Vec<Parameters> = Vec::new();
        let n = raw.len();
        let mut i: usize = 0;
        while i < n
            invariant
                i <= n,
                n == raw@.len(),
                result@.len() == i,
                forall|k: int| 0 <= k < i ==> classified_as(raw@[k]@, #[trigger] result@[k]),
            decreases n - i,
        {
            let p = self.classify(raw[i].as_str());
            result.push(p);
            i = i + 1;
        }
        Ok(result)
    }
}

} // verus!

