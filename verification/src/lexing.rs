use vstd::prelude::*;
use crate::text::{has_prefix, starts_with};

verus! {

/// The Unicode `White_Space` property, which `char::is_whitespace` tests: tab, line feed,
/// vertical tab, form feed, carriage return, space, next line, no-break space, ogham
/// space mark, the spaces U+2000 to U+200A, line and paragraph separators, narrow
/// no-break space, medium mathematical space and ideographic space.
pub open spec fn is_white(c: char) -> bool {
    let v = c as u32;
    ||| 0x09 <= v <= 0x0d
    ||| v == 0x20
    ||| v == 0x85
    ||| v == 0xa0
    ||| v == 0x1680
    ||| 0x2000 <= v <= 0x200a
    ||| v == 0x2028
    ||| v == 0x2029
    ||| v == 0x202f
    ||| v == 0x205f
    ||| v == 0x3000
}

/// Named result: `char::is_alphanumeric` (alphabetic or numeric in Unicode).
pub uninterp spec fn is_alnum(c: char) -> bool;

/// Named result: `char::is_uppercase` (the Unicode `Uppercase` property).
pub uninterp spec fn is_upper(c: char) -> bool;

/// Whether `c` is white space (see `is_white`).
pub(crate) fn char_is_whitespace(c: char) -> (r: bool)
    ensures
        r == is_white(c),
{
    let v = c as u32;
    (0x09 <= v && v <= 0x0d) || v == 0x20 || v == 0x85 || v == 0xa0 || v == 0x1680 || (0x2000 <= v && v
        <= 0x200a) || v == 0x2028 || v == 0x2029 || v == 0x202f || v == 0x205f || v == 0x3000
}

/// Calls `char::is_alphanumeric`, a property of the character alone.
#[verifier::external_body]
pub(crate) fn char_is_alphanumeric(c: char) -> (r: bool)
    ensures
        r == is_alnum(c),
{
    c.is_alphanumeric()
}

/// Calls `char::is_uppercase`, a property of the character alone.
#[verifier::external_body]
pub(crate) fn char_is_uppercase(c: char) -> (r: bool)
    ensures
        r == is_upper(c),
{
    c.is_uppercase()
}

/// The character classes that end a name or a word.
#[derive(Debug, Clone, Copy, PartialEq, Eq, Structural)]
pub enum Delim {
    /// White space.
    White,
    /// `(`, `<` or white space (a Rust function name).
    RustFn,
    /// `<`, `{` or white space (a Rust struct name).
    RustStruct,
    /// `(` or white space (a JavaScript or Go function name).
    CallOrWhite,
    /// A space, `{`, `<`, `(` or `:` (a class name; `:` ends a Python class header).
    ClassName,
    /// `(` or `:` (a Python function name).
    PyFn,
    /// Anything but a letter, digit or `_` (a dependency word).
    NonWord,
    /// `=`.
    Equals,
    /// `;` or `:`.
    Punct,
    /// `.`.
    Dot,
}

/// Whether `c` belongs to class `d`.
pub open spec fn in_class(d: Delim, c: char) -> bool {
    match d {
        Delim::White => is_white(c),
        Delim::RustFn => c == '(' || c == '<' || is_white(c),
        Delim::RustStruct => c == '<' || c == '{' || is_white(c),
        Delim::CallOrWhite => c == '(' || is_white(c),
        Delim::ClassName => c == ' ' || c == '{' || c == '<' || c == '(' || c == ':',
        Delim::PyFn => c == '(' || c == ':',
        Delim::NonWord => !(is_alnum(c) || c == '_'),
        Delim::Equals => c == '=',
        Delim::Punct => c == ';' || c == ':',
        Delim::Dot => c == '.',
    }
}

/// Whether `c` belongs to class `d`.
pub fn is_in_class(d: Delim, c: char) -> (r: bool)
    ensures
        r == in_class(d, c),
{
    match d {
        Delim::White => char_is_whitespace(c),
        Delim::RustFn => c == '(' || c == '<' || char_is_whitespace(c),
        Delim::RustStruct => c == '<' || c == '{' || char_is_whitespace(c),
        Delim::CallOrWhite => c == '(' || char_is_whitespace(c),
        Delim::ClassName => c == ' ' || c == '{' || c == '<' || c == '(' || c == ':',
        Delim::PyFn => c == '(' || c == ':',
        Delim::NonWord => !(char_is_alphanumeric(c) || c == '_'),
        Delim::Equals => c == '=',
        Delim::Punct => c == ';' || c == ':',
        Delim::Dot => c == '.',
    }
}

/// The position of the first character of class `d` in `s`, or `s.len()`.
pub open spec fn first_in(s: Seq<char>, d: Delim) -> int
    decreases s.len(),
{
    if s.len() == 0 {
        0
    } else if in_class(d, s[0]) {
        0
    } else {
        1 + first_in(s.drop_first(), d)
    }
}

pub proof fn lemma_first_in(s: Seq<char>, d: Delim)
    ensures
        0 <= first_in(s, d) <= s.len(),
        forall|i: int| 0 <= i < first_in(s, d) ==> !in_class(d, #[trigger] s[i]),
        first_in(s, d) < s.len() ==> in_class(d, s[first_in(s, d)]),
    decreases s.len(),
{
    if s.len() > 0 && !in_class(d, s[0]) {
        lemma_first_in(s.drop_first(), d);
        assert forall|i: int| 0 <= i < first_in(s, d) implies !in_class(d, #[trigger] s[i]) by {
            if i > 0 {
                assert(s[i] == s.drop_first()[i - 1]);
            }
        }
    }
}

/// The text of `s` before its first character of class `d` (the first piece of a split).
pub open spec fn until(s: Seq<char>, d: Delim) -> Seq<char> {
    s.subrange(0, first_in(s, d))
}

/// `s` without its leading characters of class `d`.
pub open spec fn trim_start_by(s: Seq<char>, d: Delim) -> Seq<char>
    decreases s.len(),
{
    if s.len() > 0 && in_class(d, s[0]) {
        trim_start_by(s.drop_first(), d)
    } else {
        s
    }
}

/// `s` without its trailing characters of class `d`.
pub open spec fn trim_end_by(s: Seq<char>, d: Delim) -> Seq<char>
    decreases s.len(),
{
    if s.len() > 0 && in_class(d, s.last()) {
        trim_end_by(s.drop_last(), d)
    } else {
        s
    }
}

/// `s` without the characters of class `d` at either end.
pub open spec fn trim_by(s: Seq<char>, d: Delim) -> Seq<char> {
    trim_end_by(trim_start_by(s, d), d)
}

/// `s` without white space at either end (`str::trim`).
pub open spec fn trim(s: Seq<char>) -> Seq<char> {
    trim_by(s, Delim::White)
}

/// `s` with every leading copy of `p` removed (`str::trim_start_matches`).
pub open spec fn strip_all(s: Seq<char>, p: Seq<char>) -> Seq<char>
    decreases s.len(),
{
    if p.len() > 0 && has_prefix(s, p) {
        strip_all(s.skip(p.len() as int), p)
    } else {
        s
    }
}

/// The first white-space separated word of `s`, if any.
pub open spec fn first_word(s: Seq<char>) -> Option<Seq<char>> {
    let t = trim_start_by(s, Delim::White);
    if t.len() == 0 {
        None
    } else {
        Some(until(t, Delim::White))
    }
}

/// The text of `s` after its last character of class `d`.
pub open spec fn after_last(s: Seq<char>, d: Delim) -> Seq<char>
    decreases s.len(),
{
    if s.len() == 0 {
        s
    } else if in_class(d, s.last()) {
        Seq::empty()
    } else {
        after_last(s.drop_last(), d).push(s.last())
    }
}

/// The last white-space separated word of `s`, if any.
pub open spec fn last_word(s: Seq<char>) -> Option<Seq<char>> {
    let t = trim_end_by(s, Delim::White);
    if t.len() == 0 {
        None
    } else {
        Some(after_last(t, Delim::White))
    }
}

/// The number of non-overlapping occurrences of `p` in `s`, found left to right.
pub open spec fn count_matches(s: Seq<char>, p: Seq<char>) -> nat
    decreases s.len(),
{
    if p.len() == 0 || s.len() < p.len() {
        0
    } else if s.subrange(0, p.len() as int) == p {
        1 + count_matches(s.skip(p.len() as int), p)
    } else {
        count_matches(s.drop_first(), p)
    }
}

pub proof fn lemma_count_matches_bound(s: Seq<char>, p: Seq<char>)
    requires
        p.len() >= 2,
    ensures
        2 * count_matches(s, p) <= s.len(),
    decreases s.len(),
{
    if s.len() >= p.len() {
        if s.subrange(0, p.len() as int) == p {
            lemma_count_matches_bound(s.skip(p.len() as int), p);
        } else {
            lemma_count_matches_bound(s.drop_first(), p);
        }
    }
}

/// The position of the first character of class `d` in `s`, or its length.
pub fn find_in(s: &str, d: Delim) -> (r: usize)
    ensures
        r == first_in(s@, d),
{
    let n = s.unicode_len();
    let mut i: usize = 0;
    proof {
        assert(s@.skip(0) =~= s@);
    }
    while i < n && !is_in_class(d, s.get_char(i))
        invariant
            n == s@.len(),
            i <= n,
            first_in(s@, d) == i + first_in(s@.skip(i as int), d),
        decreases n - i,
    {
        proof {
            assert(s@.skip(i as int).drop_first() =~= s@.skip(i + 1));
        }
        i = i + 1;
    }
    proof {
        if i < n {
            assert(s@.skip(i as int)[0] == s@[i as int]);
        }
    }
    i
}

/// The text of `s` before its first character of class `d`.
pub fn take_until(s: &str, d: Delim) -> (r: String)
    ensures
        r@ == until(s@, d),
{
    let k = find_in(s, d);
    proof {
        lemma_first_in(s@, d);
    }
    s.substring_char(0, k).to_string()
}

/// `s` without its leading characters of class `d`.
pub fn trim_start_str(s: &str, d: Delim) -> (r: String)
    ensures
        r@ == trim_start_by(s@, d),
{
    let n = s.unicode_len();
    let mut i: usize = 0;
    proof {
        assert(s@.skip(0) =~= s@);
    }
    while i < n && is_in_class(d, s.get_char(i))
        invariant
            n == s@.len(),
            i <= n,
            trim_start_by(s@, d) == trim_start_by(s@.skip(i as int), d),
        decreases n - i,
    {
        proof {
            assert(s@.skip(i as int).drop_first() =~= s@.skip(i + 1));
        }
        i = i + 1;
    }
    proof {
        assert(s@.subrange(i as int, n as int) =~= s@.skip(i as int));
    }
    s.substring_char(i, n).to_string()
}

/// `s` without its trailing characters of class `d`.
pub fn trim_end_str(s: &str, d: Delim) -> (r: String)
    ensures
        r@ == trim_end_by(s@, d),
{
    let n = s.unicode_len();
    let mut j: usize = n;
    proof {
        assert(s@.take(n as int) =~= s@);
    }
    while j > 0 && is_in_class(d, s.get_char(j - 1))
        invariant
            n == s@.len(),
            j <= n,
            trim_end_by(s@, d) == trim_end_by(s@.take(j as int), d),
        decreases j,
    {
        proof {
            assert(s@.take(j as int).drop_last() =~= s@.take(j - 1));
        }
        j = j - 1;
    }
    proof {
        assert(s@.subrange(0, j as int) =~= s@.take(j as int));
    }
    s.substring_char(0, j).to_string()
}

/// `s` without characters of class `d` at either end.
pub fn trim_str(s: &str, d: Delim) -> (r: String)
    ensures
        r@ == trim_by(s@, d),
{
    let a = trim_start_str(s, d);
    trim_end_str(a.as_str(), d)
}

/// `s` with every leading copy of `p` removed.
pub fn strip_all_str(s: &str, p: &str) -> (r: String)
    requires
        p@.len() > 0,
    ensures
        r@ == strip_all(s@, p@),
{
    let m = p.unicode_len();
    let mut cur = s.to_string();
    while starts_with(cur.as_str(), p)
        invariant
            m == p@.len(),
            m > 0,
            strip_all(s@, p@) == strip_all(cur@, p@),
        decreases cur@.len(),
    {
        let n = cur.unicode_len();
        let next = cur.as_str().substring_char(m, n).to_string();
        proof {
            assert(next@ =~= cur@.skip(m as int));
        }
        cur = next;
    }
    cur
}

/// The first white-space separated word of `s`.
pub fn first_word_str(s: &str) -> (r: Option<String>)
    ensures
        match first_word(s@) {
            Some(w) => r matches Some(x) && x@ == w,
            None => r is None,
        },
{
    let t = trim_start_str(s, Delim::White);
    if t.unicode_len() == 0 {
        None
    } else {
        Some(take_until(t.as_str(), Delim::White))
    }
}

/// The text of `s` after its last character of class `d`.
pub fn after_last_str(s: &str, d: Delim) -> (r: String)
    ensures
        r@ == after_last(s@, d),
{
    let n = s.unicode_len();
    let mut k: usize = n;
    proof {
        assert(s@.take(n as int) =~= s@);
        assert(after_last(s@, d) + s@.subrange(n as int, n as int) =~= after_last(s@, d));
    }
    while k > 0 && !is_in_class(d, s.get_char(k - 1))
        invariant
            n == s@.len(),
            k <= n,
            after_last(s@, d) == after_last(s@.take(k as int), d) + s@.subrange(k as int, n as int),
        decreases k,
    {
        proof {
            let t = s@.take(k as int);
            assert(t.drop_last() =~= s@.take(k - 1));
            assert(after_last(t, d) == after_last(s@.take(k - 1), d).push(s@[k - 1]));
            assert(after_last(s@.take(k - 1), d).push(s@[k - 1]) + s@.subrange(k as int, n as int)
                =~= after_last(s@.take(k - 1), d) + s@.subrange(k - 1, n as int));
        }
        k = k - 1;
    }
    proof {
        if k == 0 {
            assert(s@.take(0) =~= Seq::<char>::empty());
        } else {
            assert(in_class(d, s@.take(k as int).last()));
        }
        assert(Seq::<char>::empty() + s@.subrange(k as int, n as int) =~= s@.subrange(k as int, n as int));
    }
    s.substring_char(k, n).to_string()
}

/// The last white-space separated word of `s`.
pub fn last_word_str(s: &str) -> (r: Option<String>)
    ensures
        match last_word(s@) {
            Some(w) => r matches Some(x) && x@ == w,
            None => r is None,
        },
{
    let t = trim_end_str(s, Delim::White);
    if t.unicode_len() == 0 {
        None
    } else {
        Some(after_last_str(t.as_str(), Delim::White))
    }
}

/// The number of non-overlapping occurrences of `p` in `s`.
pub fn count_str_matches(s: &str, p: &str) -> (r: usize)
    requires
        p@.len() > 0,
    ensures
        r == count_matches(s@, p@),
{
    let n = s.unicode_len();
    let m = p.unicode_len();
    if m > n {
        return 0;
    }
    let mut i: usize = 0;
    let mut c: usize = 0;
    proof {
        assert(s@.skip(0) =~= s@);
    }
    while i <= n - m
        invariant
            m <= n,
            n == s@.len(),
            m == p@.len(),
            m > 0,
            i <= n,
            c <= i,
            count_matches(s@, p@) == c + count_matches(s@.skip(i as int), p@),
        decreases n - i,
    {
        let rest = s.substring_char(i, n);
        proof {
            assert(rest@ =~= s@.skip(i as int));
        }
        if starts_with(rest, p) {
            proof {
                assert(s@.skip(i as int).skip(m as int) =~= s@.skip(i + m));
            }
            c = c + 1;
            i = i + m;
        } else {
            proof {
                assert(s@.skip(i as int).drop_first() =~= s@.skip(i + 1));
            }
            i = i + 1;
        }
    }
    proof {
        assert(s@.skip(i as int).len() < m);
    }
    c
}

} // verus!
