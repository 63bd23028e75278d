//! Key-value and value-list parsing for configuration lines.
//!
//! A line without `=` or `+` is a bare directive.  Otherwise the line splits
//! at the first `+=` (or, failing that, the first `=`) into a key and a
//! value, both trimmed; a comma-separated value yields an ordered list of
//! strings, each element trimmed of whitespace and surrounding quotes, empty
//! elements dropped.

use vstd::prelude::*;
use crate::config_item::{ConfigItem, ConfigValue};
use crate::parser_state::{is_space_char, space_char};
use crate::text::{chars_of, chars_range, string_from_char_range};
use vstd::string::StrSliceExecFns;

verus! {

/// Whether `c` occurs in `s`.
pub open spec fn contains_char(s: Seq<char>, c: char) -> bool {
    exists|i: int| 0 <= i < s.len() && s[i] == c
}

/// The index of the first occurrence of `c` in `s`, or the length of `s`.
pub open spec fn first_char_at(s: Seq<char>, c: char) -> int
    decreases s.len(),
{
    if s.len() == 0 {
        0
    } else if s[0] == c {
        0
    } else {
        1 + first_char_at(s.drop_first(), c)
    }
}

/// The index of the first occurrence of the two-character operator `+=`, or
/// the length of `s` when there is none.
pub open spec fn first_plus_eq(s: Seq<char>) -> int
    decreases s.len(),
{
    if s.len() < 2 {
        s.len() as int
    } else if s[0] == '+' && s[1] == '=' {
        0
    } else {
        1 + first_plus_eq(s.drop_first())
    }
}

/// `s` without its leading whitespace.
pub open spec fn trim_left(s: Seq<char>) -> Seq<char>
    decreases s.len(),
{
    if s.len() > 0 && is_space_char(s[0]) {
        trim_left(s.drop_first())
    } else {
        s
    }
}

/// `s` without its trailing whitespace.
pub open spec fn trim_right(s: Seq<char>) -> Seq<char>
    decreases s.len(),
{
    if s.len() > 0 && is_space_char(s.last()) {
        trim_right(s.drop_last())
    } else {
        s
    }
}

/// `s` without leading and trailing whitespace.
pub open spec fn spec_trim(s: Seq<char>) -> Seq<char> {
    trim_right(trim_left(s))
}

/// `s` without leading occurrences of `c`.
pub open spec fn trim_char_left(s: Seq<char>, c: char) -> Seq<char>
    decreases s.len(),
{
    if s.len() > 0 && s[0] == c {
        trim_char_left(s.drop_first(), c)
    } else {
        s
    }
}

/// `s` without trailing occurrences of `c`.
pub open spec fn trim_char_right(s: Seq<char>, c: char) -> Seq<char>
    decreases s.len(),
{
    if s.len() > 0 && s.last() == c {
        trim_char_right(s.drop_last(), c)
    } else {
        s
    }
}

/// `s` without leading and trailing occurrences of `c`.
pub open spec fn trim_char(s: Seq<char>, c: char) -> Seq<char> {
    trim_char_right(trim_char_left(s, c), c)
}

/// `s` split at its commas.
pub open spec fn split_commas(s: Seq<char>) -> Seq<Seq<char>>
    decreases s.len(),
{
    let i = first_char_at(s, ',');
    if 0 <= i < s.len() {
        seq![s.take(i)] + split_commas(s.skip(i + 1))
    } else {
        seq![s]
    }
}

/// Each raw list element trimmed of whitespace and surrounding quotes, with
/// empty results dropped.
pub open spec fn clean_elems(parts: Seq<Seq<char>>) -> Seq<Seq<char>>
    decreases parts.len(),
{
    if parts.len() == 0 {
        Seq::empty()
    } else {
        let e = trim_char(spec_trim(parts[0]), '"');
        (if e.len() > 0 {
            seq![e]
        } else {
            Seq::empty()
        }) + clean_elems(parts.drop_first())
    }
}

/// The key and raw value a line splits into: at the first `+=` when present,
/// else at the first `=`; the key loses surrounding whitespace, the value
/// surrounding whitespace and then semicolons.  A line without `=` splits
/// not at all.
pub open spec fn spec_key_value(s: Seq<char>) -> Option<(Seq<char>, Seq<char>)> {
    let p = first_plus_eq(s);
    let q = first_char_at(s, '=');
    if p + 1 < s.len() {
        Some(
            (spec_trim(s.take(p)), trim_char(spec_trim(s.skip(p + 2)), ';')),
        )
    } else if q < s.len() {
        Some(
            (spec_trim(s.take(q)), trim_char(spec_trim(s.skip(q + 1)), ';')),
        )
    } else {
        None
    }
}

/// The value shape a raw value text yields: an ordered list where a comma
/// occurs, a single trimmed and unquoted string otherwise.
pub open spec fn value_shape(v: Seq<char>, cv: ConfigValue) -> bool {
    if contains_char(v, ',') {
        cv matches ConfigValue::Array(elems) && elems.deep_view() == clean_elems(split_commas(v))
    } else {
        cv matches ConfigValue::String(sv) && sv@ == trim_char(spec_trim(v), '"')
    }
}

proof fn lemma_first_char_found(s: Seq<char>, c: char, i: int)
    requires
        0 <= i < s.len(),
        s[i] == c,
        forall|j: int| 0 <= j < i ==> s[j] != c,
    ensures
        first_char_at(s, c) == i,
    decreases s.len(),
{
    if i > 0 {
        assert(forall|j: int| 0 <= j < i - 1 ==> s.drop_first()[j] != c);
        assert(s.drop_first()[i - 1] == c);
        lemma_first_char_found(s.drop_first(), c, i - 1);
    }
}

proof fn lemma_first_char_absent(s: Seq<char>, c: char)
    requires
        forall|j: int| 0 <= j < s.len() ==> s[j] != c,
    ensures
        first_char_at(s, c) == s.len(),
    decreases s.len(),
{
    if s.len() > 0 {
        assert(forall|j: int| 0 <= j < s.len() - 1 ==> s.drop_first()[j] != c);
        lemma_first_char_absent(s.drop_first(), c);
    }
}

proof fn lemma_first_plus_eq_found(s: Seq<char>, i: int)
    requires
        0 <= i,
        i + 1 < s.len(),
        s[i] == '+',
        s[i + 1] == '=',
        forall|j: int| 0 <= j < i ==> !((#[trigger] s[j]) == '+' && s[j + 1] == '='),
    ensures
        first_plus_eq(s) == i,
    decreases s.len(),
{
    if i > 0 {
        assert(!(s[0] == '+' && s[1] == '='));
        assert(forall|j: int|
            0 <= j < i - 1 ==> !((#[trigger] s.drop_first()[j]) == '+' && s.drop_first()[j + 1]
                == '='));
        assert(s.drop_first()[i - 1] == '+' && s.drop_first()[i] == '=');
        lemma_first_plus_eq_found(s.drop_first(), i - 1);
    }
}

proof fn lemma_first_plus_eq_absent(s: Seq<char>)
    requires
        forall|j: int| 0 <= j && j + 1 < s.len() ==> !((#[trigger] s[j]) == '+' && s[j + 1] == '='),
    ensures
        first_plus_eq(s) == s.len(),
    decreases s.len(),
{
    if s.len() >= 2 {
        assert(!(s[0] == '+' && s[1] == '='));
        assert(forall|j: int|
            0 <= j && j + 1 < s.len() - 1 ==> !((#[trigger] s.drop_first()[j]) == '+'
                && s.drop_first()[j + 1] == '='));
        lemma_first_plus_eq_absent(s.drop_first());
    }
}

proof fn lemma_trim_left_at(s: Seq<char>, k: int)
    requires
        0 <= k <= s.len(),
        forall|j: int| 0 <= j < k ==> is_space_char(#[trigger] s[j]),
        k < s.len() ==> !is_space_char(s[k]),
    ensures
        trim_left(s) == s.skip(k),
    decreases s.len(),
{
    if k == 0 {
        assert(s.skip(0) =~= s);
    } else {
        assert(is_space_char(s[0]));
        assert(forall|j: int| 0 <= j < k - 1 ==> is_space_char(#[trigger] s.drop_first()[j]));
        assert(k - 1 < s.drop_first().len() ==> !is_space_char(s.drop_first()[k - 1]));
        lemma_trim_left_at(s.drop_first(), k - 1);
        assert(s.drop_first().skip(k - 1) =~= s.skip(k));
    }
}

proof fn lemma_trim_right_at(s: Seq<char>, k: int)
    requires
        0 <= k <= s.len(),
        forall|j: int| k <= j < s.len() ==> is_space_char(#[trigger] s[j]),
        k > 0 ==> !is_space_char(s[k - 1]),
    ensures
        trim_right(s) == s.take(k),
    decreases s.len(),
{
    if k == s.len() {
        assert(s.take(k) =~= s);
    } else {
        assert(is_space_char(s.last()));
        assert(forall|j: int| k <= j < s.len() - 1 ==> is_space_char(#[trigger] s.drop_last()[j]));
        assert(k > 0 ==> !is_space_char(s.drop_last()[k - 1]));
        lemma_trim_right_at(s.drop_last(), k);
        assert(s.drop_last().take(k) =~= s.take(k));
    }
}

proof fn lemma_trim_char_left_at(s: Seq<char>, c: char, k: int)
    requires
        0 <= k <= s.len(),
        forall|j: int| 0 <= j < k ==> s[j] == c,
        k < s.len() ==> s[k] != c,
    ensures
        trim_char_left(s, c) == s.skip(k),
    decreases s.len(),
{
    if k == 0 {
        assert(s.skip(0) =~= s);
    } else {
        assert(s[0] == c);
        assert(forall|j: int| 0 <= j < k - 1 ==> s.drop_first()[j] == c);
        assert(k - 1 < s.drop_first().len() ==> s.drop_first()[k - 1] != c);
        lemma_trim_char_left_at(s.drop_first(), c, k - 1);
        assert(s.drop_first().skip(k - 1) =~= s.skip(k));
    }
}

proof fn lemma_trim_char_right_at(s: Seq<char>, c: char, k: int)
    requires
        0 <= k <= s.len(),
        forall|j: int| k <= j < s.len() ==> s[j] == c,
        k > 0 ==> s[k - 1] != c,
    ensures
        trim_char_right(s, c) == s.take(k),
    decreases s.len(),
{
    if k == s.len() {
        assert(s.take(k) =~= s);
    } else {
        assert(s.last() == c);
        assert(forall|j: int| k <= j < s.len() - 1 ==> s.drop_last()[j] == c);
        assert(k > 0 ==> s.drop_last()[k - 1] != c);
        lemma_trim_char_right_at(s.drop_last(), c, k);
        assert(s.drop_last().take(k) =~= s.take(k));
    }
}

/// Whether `c` occurs in `v`.
pub fn has_char(v: &Vec<char>, c: char) -> (r: bool)
    ensures
        r == contains_char(v@, c),
{
    let n = v.len();
    let mut i: usize = 0;
    while i < n
        invariant
            i <= n,
            n == v@.len(),
            forall|j: int| 0 <= j < i ==> v@[j] != c,
        decreases n - i,
    {
        if v[i] == c {
            return true;
        }
        i = i + 1;
    }
    false
}

/// The index of the first occurrence of `c` in `v`, or `v.len()`.
fn scan_char(v: &Vec<char>, from: usize, c: char) -> (r: usize)
    requires
        from <= v@.len(),
    ensures
        from <= r <= v@.len(),
        forall|j: int| from <= j < r ==> v@[j] != c,
        r < v@.len() ==> v@[r as int] == c,
    decreases v@.len() - from,
{
    let n = v.len();
    let mut i: usize = from;
    while i < n
        invariant
            from <= i <= n,
            n == v@.len(),
            forall|j: int| from <= j < i ==> v@[j] != c,
        decreases n - i,
    {
        if v[i] == c {
            return i;
        }
        i = i + 1;
    }
    n
}

/// The index of the first `+=` in `v`, or `v.len()` when there is none.
fn scan_plus_eq(v: &Vec<char>) -> (r: usize)
    ensures
        r as int == first_plus_eq(v@),
        r + 1 < v@.len() ==> v@[r as int] == '+' && v@[r + 1] == '=',
{
    let n = v.len();
    if n < 2 {
        return n;
    }
    let mut i: usize = 0;
    while i + 1 < n
        invariant
            i + 1 <= n,
            n == v@.len(),
            forall|j: int| 0 <= j < i ==> !((#[trigger] v@[j]) == '+' && v@[j + 1] == '='),
        decreases n - i,
    {
        if v[i] == '+' && v[i + 1] == '=' {
            proof {
                lemma_first_plus_eq_found(v@, i as int);
            }
            return i;
        }
        i = i + 1;
    }
    proof {
        lemma_first_plus_eq_absent(v@);
    }
    n
}

/// The bounds of `v` without surrounding whitespace.
fn trim_space_bounds(v: &Vec<char>) -> (r: (usize, usize))
    ensures
        r.0 <= r.1 <= v@.len(),
        v@.subrange(r.0 as int, r.1 as int) == spec_trim(v@),
{
    let n = v.len();
    let mut a: usize = 0;
    let mut scanning = true;
    while scanning
        invariant
            a <= n,
            n == v@.len(),
            forall|j: int| 0 <= j < a ==> is_space_char(#[trigger] v@[j]),
            !scanning ==> (a == n || !is_space_char(v@[a as int])),
        decreases n - a + (if scanning { 1int } else { 0int }),
    {
        if a < n && space_char(v[a]) {
            a = a + 1;
        } else {
            scanning = false;
        }
    }
    let mut b: usize = n;
    let mut scanning = true;
    while scanning
        invariant
            a <= b <= n,
            n == v@.len(),
            forall|j: int| b <= j < n ==> is_space_char(#[trigger] v@[j]),
            !scanning ==> (b == a || !is_space_char(v@[b - 1])),
        decreases b + (if scanning { 1int } else { 0int }),
    {
        if b > a && space_char(v[b - 1]) {
            b = b - 1;
        } else {
            scanning = false;
        }
    }
    proof {
        lemma_trim_left_at(v@, a as int);
        let t = v@.skip(a as int);
        assert(forall|j: int|
            (b - a) <= j < t.len() ==> is_space_char(#[trigger] t[j]) && t[j] == v@[j + a]);
        assert(b > a ==> t[b - a - 1] == v@[b - 1]);
        lemma_trim_right_at(t, b - a);
        assert(t.take(b - a) =~= v@.subrange(a as int, b as int));
    }
    (a, b)
}

/// The bounds of `v` without surrounding occurrences of `c`.
fn trim_char_bounds(v: &Vec<char>, c: char) -> (r: (usize, usize))
    ensures
        r.0 <= r.1 <= v@.len(),
        v@.subrange(r.0 as int, r.1 as int) == trim_char(v@, c),
{
    let n = v.len();
    let mut a: usize = 0;
    let mut scanning = true;
    while scanning
        invariant
            a <= n,
            n == v@.len(),
            forall|j: int| 0 <= j < a ==> v@[j] == c,
            !scanning ==> (a == n || v@[a as int] != c),
        decreases n - a + (if scanning { 1int } else { 0int }),
    {
        if a < n && v[a] == c {
            a = a + 1;
        } else {
            scanning = false;
        }
    }
    let mut b: usize = n;
    let mut scanning = true;
    while scanning
        invariant
            a <= b <= n,
            n == v@.len(),
            forall|j: int| b <= j < n ==> v@[j] == c,
            !scanning ==> (b == a || v@[b - 1] != c),
        decreases b + (if scanning { 1int } else { 0int }),
    {
        if b > a && v[b - 1] == c {
            b = b - 1;
        } else {
            scanning = false;
        }
    }
    proof {
        lemma_trim_char_left_at(v@, c, a as int);
        let t = v@.skip(a as int);
        assert(forall|j: int| (b - a) <= j < t.len() ==> t[j] == v@[j + a] && t[j] == c);
        assert(b > a ==> t[b - a - 1] == v@[b - 1]);
        lemma_trim_char_right_at(t, c, b - a);
        assert(t.take(b - a) =~= v@.subrange(a as int, b as int));
    }
    (a, b)
}

/// Trims `v` of surrounding whitespace and then of surrounding occurrences
/// of `c`, as a string.
fn trimmed_string(v: &Vec<char>, c: char) -> (r: String)
    ensures
        r@ == trim_char(spec_trim(v@), c),
{
    let (a, b) = trim_space_bounds(v);
    let seg = chars_range(v, a, b);
    let (a2, b2) = trim_char_bounds(&seg, c);
    string_from_char_range(&seg, a2, b2)
}

/// Splits a line into its key and raw value: at the first `+=` when one
/// occurs, else at the first `=`; both sides are trimmed of whitespace and
/// the value additionally of semicolons.  A line without `=` yields nothing.
pub fn parse_key_value(line: &str) -> (r: Option<(String, String)>)
    ensures
        match r {
            Some(kv) => spec_key_value(line@) matches Some(skv) && kv.0@ == skv.0 && kv.1@
                == skv.1,
            None => spec_key_value(line@) is None,
        },
{
    let cs = chars_of(line);
    let n = cs.len();
    let p = scan_plus_eq(&cs);
    let (key_raw, val_raw) = if n >= 2 && p < n - 1 {
        (chars_range(&cs, 0, p), chars_range(&cs, p + 2, n))
    } else {
        let q = scan_char(&cs, 0, '=');
        proof {
            if q < n {
                lemma_first_char_found(cs@, '=', q as int);
            } else {
                lemma_first_char_absent(cs@, '=');
            }
        }
        if q == n {
            return None;
        }
        (chars_range(&cs, 0, q), chars_range(&cs, q + 1, n))
    };
    proof {
        assert(key_raw@ == cs@.take(key_raw@.len() as int));
    }
    let (a, b) = trim_space_bounds(&key_raw);
    let key = string_from_char_range(&key_raw, a, b);
    let value = trimmed_string(&val_raw, ';');
    Some((key, value))
}

/// The cleaned elements of the comma-separated list in `v[start..]`: each
/// element trimmed of whitespace and surrounding quotes, empty elements
/// dropped.
fn clean_value_list(v: &Vec<char>, start: usize) -> (r: Vec<String>)
    requires
        start <= v@.len(),
    ensures
        r.deep_view() == clean_elems(split_commas(v@.skip(start as int))),
    decreases v@.len() - start,
{
    let n = v.len();
    let i = scan_char(v, start, ',');
    proof {
        let t = v@.skip(start as int);
        assert(forall|j: int| 0 <= j < (i - start) ==> t[j] == v@[j + start] && t[j] != ',');
        if i < n {
            assert(t[i - start] == v@[i as int]);
            lemma_first_char_found(t, ',', i - start);
        } else {
            lemma_first_char_absent(t, ',');
        }
    }
    let segment = chars_range(v, start, i);
    let elem = trimmed_string(&segment, '"');
    let mut out: Vec<String> = Vec::new();
    if elem.as_str().unicode_len() > 0 {
        out.push(elem);
    }
    proof {
        let t = v@.skip(start as int);
        if i < n {
            assert(segment@ =~= t.take(i - start));
        } else {
            assert(segment@ =~= t);
            assert(split_commas(t) == seq![t]);
            assert(seq![t].drop_first() =~= Seq::<Seq<char>>::empty());
            assert(clean_elems(seq![t].drop_first()) == Seq::<Seq<char>>::empty());
        }
    }
    if i < n {
        let mut rest = clean_value_list(v, i + 1);
        proof {
            let t = v@.skip(start as int);
            assert(v@.skip(i + 1) =~= t.skip(i - start + 1));
            let parts = seq![t.take(i - start)] + split_commas(t.skip(i - start + 1));
            assert(split_commas(t) == parts);
            assert(parts[0] == t.take(i - start));
            assert(parts.drop_first() =~= split_commas(t.skip(i - start + 1)));
        }
        out.append(&mut rest);
        proof {
            assert(out.deep_view() =~= clean_elems(split_commas(v@.skip(start as int))));
        }
    } else {
        proof {
            assert(out.deep_view() =~= clean_elems(split_commas(v@.skip(start as int))));
        }
    }
    out
}

/// Folds one configuration line into an item: a line without `=` or `+` is
/// a bare directive; otherwise its key-value split is stored, a
/// comma-separated value as an ordered list, any other as a single trimmed
/// and unquoted string.
pub fn parse_config_line(line: &str, config_item: &mut ConfigItem)
    requires
        old(config_item).well_formed(),
    ensures
        final(config_item).well_formed(),
        final(config_item).name == old(config_item).name,
        final(config_item).raw == old(config_item).raw,
        (!contains_char(line@, '=') && !contains_char(line@, '+')) ==> {
            &&& final(config_item).directives.deep_view() == old(
                config_item,
            ).directives.deep_view().push(line@)
            &&& final(config_item).values == old(config_item).values
        },
        (contains_char(line@, '=') || contains_char(line@, '+')) ==> {
            &&& final(config_item).directives == old(config_item).directives
            &&& match spec_key_value(line@) {
                Some(kv) => {
                    &&& final(config_item).values@ == old(config_item).values@.insert(
                        kv.0,
                        final(config_item).values@[kv.0],
                    )
                    &&& value_shape(kv.1, final(config_item).values@[kv.0])
                },
                None => final(config_item).values == old(config_item).values,
            }
        },
{
    let cs = chars_of(line);
    let has_eq = has_char(&cs, '=');
    let has_plus = has_char(&cs, '+');
    if !has_eq && !has_plus {
        config_item.add_directive(line);
        return ;
    }
    match parse_key_value(line) {
        Some((key, value)) => {
            let vcs = chars_of(value.as_str());
            if has_char(&vcs, ',') {
                let elems = clean_value_list(&vcs, 0);
                proof {
                    assert(vcs@.skip(0) =~= vcs@);
                }
                config_item.add_value(key.as_str(), ConfigValue::Array(elems));
            } else {
                let sv = trimmed_string(&vcs, '"');
                config_item.add_value(key.as_str(), ConfigValue::String(sv));
            }
        },
        None => {},
    }
}

} // verus!
