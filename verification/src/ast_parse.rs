use vstd::prelude::*;
use crate::lexing::{is_white, after_last, after_last_str, Delim, in_class, trim_start_by, trim_end_by, first_in, lemma_first_in, until, trim_by, trim, strip_all, first_word, last_word, count_matches, lemma_count_matches_bound, is_upper, find_in, take_until, trim_str, strip_all_str, first_word_str, last_word_str, count_str_matches, is_in_class, char_is_uppercase};
use crate::text::{byte_len, has_prefix, has_substring, find_sub, lemma_find_sub, starts_with, str_contains, str_find, str_byte_len, decimal, decimal_string};
use crate::ast_cache::{AstCacheIndex, AstSubTree, Language, language_for_extension};
use crate::microvm::{file_name, path_file_name};
use crate::text::lowercase_of;
use crate::digest::{blake3_hex, blake3_hex_of};

verus! {

/// The name after `fn ` once leading `pub ` and then `async ` are stripped.
pub open spec fn rust_fn_name(t: Seq<char>) -> Option<Seq<char>> {
    let l = strip_all(strip_all(t, "pub "@), "async "@);
    if has_prefix(l, "fn "@) {
        Some(until(l.skip(3), Delim::RustFn))
    } else {
        None
    }
}

/// The name after `struct ` once leading `pub ` is stripped.
pub open spec fn rust_struct_name(t: Seq<char>) -> Option<Seq<char>> {
    let l = strip_all(t, "pub "@);
    if has_prefix(l, "struct "@) {
        Some(until(l.skip(7), Delim::RustStruct))
    } else {
        None
    }
}

/// The name after `function ` once leading `export ` and then `async ` are stripped.
pub open spec fn js_fn_name(t: Seq<char>) -> Option<Seq<char>> {
    let l = strip_all(strip_all(t, "export "@), "async "@);
    if has_prefix(l, "function "@) {
        Some(until(l.skip(9), Delim::CallOrWhite))
    } else {
        None
    }
}

/// The name after `class ` once leading `export ` is stripped.
pub open spec fn class_name(t: Seq<char>) -> Option<Seq<char>> {
    let l = strip_all(t, "export "@);
    if has_prefix(l, "class "@) {
        Some(until(l.skip(6), Delim::ClassName))
    } else {
        None
    }
}

/// The last word before the first `=`, without `;` and `:` at its ends.
pub open spec fn variable_name(t: Seq<char>) -> Option<Seq<char>> {
    let k = first_in(t, Delim::Equals);
    if k < t.len() {
        match last_word(t.subrange(0, k)) {
            Some(w) => Some(trim_by(w, Delim::Punct)),
            None => None,
        }
    } else {
        None
    }
}

/// The name after `def `, up to `(` or `:`, trimmed.
pub open spec fn python_fn_name(t: Seq<char>) -> Option<Seq<char>> {
    if has_prefix(t, "def "@) {
        Some(trim(until(t.skip(4), Delim::PyFn)))
    } else {
        None
    }
}

/// The text after `func `, past a `(receiver) ` part.
pub open spec fn go_fn_rest(t: Seq<char>) -> Seq<char> {
    let rest = t.skip(5);
    if rest.len() > 0 && rest[0] == '(' && find_sub(rest, ") "@) is Some {
        rest.skip(find_sub(rest, ") "@)->0 + 2)
    } else {
        rest
    }
}

/// The name of a Go function or method.
pub open spec fn go_fn_name(t: Seq<char>) -> Option<Seq<char>> {
    if has_prefix(t, "func "@) {
        Some(until(go_fn_rest(t), Delim::CallOrWhite))
    } else {
        None
    }
}

/// The first word after `type `.
pub open spec fn go_type_name(t: Seq<char>) -> Option<Seq<char>> {
    if has_prefix(t, "type "@) {
        first_word(t.skip(5))
    } else {
        None
    }
}

/// The first word after the leading `impl ` copies, or `unknown`.
pub open spec fn impl_target(t: Seq<char>) -> Seq<char> {
    match first_word(strip_all(t, "impl "@)) {
        Some(w) => w,
        None => "unknown"@,
    }
}

/// The pieces of `s` between characters of class `d` (empty pieces included).
pub open spec fn pieces(s: Seq<char>, d: Delim) -> Seq<Seq<char>>
    decreases s.len(),
{
    if s.len() == 0 {
        seq![Seq::empty()]
    } else {
        let p = pieces(s.drop_last(), d);
        if in_class(d, s.last()) {
            p.push(Seq::empty())
        } else {
            p.update(p.len() - 1, p.last().push(s.last()))
        }
    }
}

/// A word names a dependency: longer than 3 bytes and starting with an upper-case letter.
pub open spec fn is_dependency_word(w: Seq<char>) -> bool {
    byte_len(w) > 3 && is_upper(w[0])
}

/// The words of `t` (split at characters other than letters, digits and `_`) that name
/// dependencies, in order.
pub open spec fn dependencies(t: Seq<char>) -> Seq<Seq<char>> {
    pieces(t, Delim::NonWord).filter(dependency_pred())
}

/// `is_dependency_word` as a predicate value.
pub open spec fn dependency_pred() -> spec_fn(Seq<char>) -> bool {
    |w: Seq<char>| is_dependency_word(w)
}

/// One plus the number of branches and boolean operators on a line.
pub open spec fn complexity(t: Seq<char>) -> nat {
    1 + count_matches(t, "if "@) + count_matches(t, "for "@) + count_matches(t, "while "@)
        + count_matches(t, "match "@) + count_matches(t, "&&"@) + count_matches(t, "||"@)
}

/// The longest text, in characters, whose complexity score always fits in a `u32`: each
/// of the six counted patterns has at least two characters, so the score is at most one
/// plus three per character.
pub const MAX_SCORED_CHARS: usize = 1_431_655_764;

/// A text's complexity score is at most one plus three per character.
pub proof fn lemma_complexity_bound(t: Seq<char>)
    ensures
        complexity(t) <= 1 + 3 * t.len(),
        t.len() <= MAX_SCORED_CHARS ==> complexity(t) <= u32::MAX,
{
    reveal_strlit("if ");
    reveal_strlit("for ");
    reveal_strlit("while ");
    reveal_strlit("match ");
    reveal_strlit("&&");
    reveal_strlit("||");
    lemma_count_matches_bound(t, "if "@);
    lemma_count_matches_bound(t, "for "@);
    lemma_count_matches_bound(t, "while "@);
    lemma_count_matches_bound(t, "match "@);
    lemma_count_matches_bound(t, "&&"@);
    lemma_count_matches_bound(t, "||"@);
}

impl AstCacheIndex {
    /// The name of a Rust function declared on the trimmed line `t` (see `rust_fn_name`).
    pub fn extract_rust_fn_name(t: &str) -> (r: Option<String>)
        ensures
            match rust_fn_name(t@) {
                Some(n) => r matches Some(x) && x@ == n,
                None => r is None,
            },
            r matches Some(x) ==> forall|k: int| 0 <= k < x@.len() ==> (#[trigger] x@[k]) != '(' && x@[k] != '<' && !is_white(x@[k]),
    {
        proof {
            let l = strip_all(strip_all(t@, "pub "@), "async "@);
            if l.len() >= 3 {
                lemma_first_in(l.skip(3), Delim::RustFn);
            }
        }
        proof {
            reveal_strlit("pub ");
            reveal_strlit("async ");
            reveal_strlit("fn ");
        }
        let a = strip_all_str(t, "pub ");
        let l = strip_all_str(a.as_str(), "async ");
        if starts_with(l.as_str(), "fn ") {
            let n = l.unicode_len();
            let rest = l.as_str().substring_char(3, n);
            proof {
                assert(rest@ =~= l@.skip(3));
            }
            Some(take_until(rest, Delim::RustFn))
        } else {
            None
        }
    }

    /// The name of a Rust struct declared on the trimmed line `t` (see `rust_struct_name`).
    pub fn extract_rust_struct_name(t: &str) -> (r: Option<String>)
        ensures
            match rust_struct_name(t@) {
                Some(n) => r matches Some(x) && x@ == n,
                None => r is None,
            },
            r matches Some(x) ==> forall|k: int| 0 <= k < x@.len() ==> (#[trigger] x@[k]) != '<' && x@[k] != '{' && !is_white(x@[k]),
    {
        proof {
            let l = strip_all(t@, "pub "@);
            if l.len() >= 7 {
                lemma_first_in(l.skip(7), Delim::RustStruct);
            }
        }
        proof {
            reveal_strlit("pub ");
            reveal_strlit("struct ");
        }
        let l = strip_all_str(t, "pub ");
        if starts_with(l.as_str(), "struct ") {
            let n = l.unicode_len();
            let rest = l.as_str().substring_char(7, n);
            proof {
                assert(rest@ =~= l@.skip(7));
            }
            Some(take_until(rest, Delim::RustStruct))
        } else {
            None
        }
    }

    /// The name of a JavaScript function declared on `t` (see `js_fn_name`).
    pub fn extract_js_fn_name(t: &str) -> (r: Option<String>)
        ensures
            match js_fn_name(t@) {
                Some(n) => r matches Some(x) && x@ == n,
                None => r is None,
            },
            r matches Some(x) ==> forall|k: int| 0 <= k < x@.len() ==> (#[trigger] x@[k]) != '(' && !is_white(x@[k]),
    {
        proof {
            let l = strip_all(strip_all(t@, "export "@), "async "@);
            if l.len() >= 9 {
                lemma_first_in(l.skip(9), Delim::CallOrWhite);
            }
        }
        proof {
            reveal_strlit("export ");
            reveal_strlit("async ");
            reveal_strlit("function ");
        }
        let a = strip_all_str(t, "export ");
        let l = strip_all_str(a.as_str(), "async ");
        if starts_with(l.as_str(), "function ") {
            let n = l.unicode_len();
            let rest = l.as_str().substring_char(9, n);
            proof {
                assert(rest@ =~= l@.skip(9));
            }
            Some(take_until(rest, Delim::CallOrWhite))
        } else {
            None
        }
    }

    /// The name of a class declared on `t` (see `class_name`).
    pub fn extract_class_name(t: &str) -> (r: Option<String>)
        ensures
            match class_name(t@) {
                Some(n) => r matches Some(x) && x@ == n,
                None => r is None,
            },
            r matches Some(x) ==> forall|k: int| 0 <= k < x@.len() ==> (#[trigger] x@[k]) != ' ' && x@[k] != '{' && x@[k] != '<' && x@[k] != '(' && x@[k] != ':',
    {
        proof {
            let l = strip_all(t@, "export "@);
            if l.len() >= 6 {
                lemma_first_in(l.skip(6), Delim::ClassName);
            }
        }
        proof {
            reveal_strlit("export ");
            reveal_strlit("class ");
        }
        let l = strip_all_str(t, "export ");
        if starts_with(l.as_str(), "class ") {
            let n = l.unicode_len();
            let rest = l.as_str().substring_char(6, n);
            proof {
                assert(rest@ =~= l@.skip(6));
            }
            Some(take_until(rest, Delim::ClassName))
        } else {
            None
        }
    }

    /// The variable that `t` assigns (see `variable_name`).
    pub fn extract_variable_name(t: &str) -> (r: Option<String>)
        ensures
            match variable_name(t@) {
                Some(n) => r matches Some(x) && x@ == n,
                None => r is None,
            },
    {
        let k = find_in(t, Delim::Equals);
        proof {
            lemma_first_in(t@, Delim::Equals);
        }
        if k < t.unicode_len() {
            let before = t.substring_char(0, k);
            match last_word_str(before) {
                Some(w) => Some(trim_str(w.as_str(), Delim::Punct)),
                None => None,
            }
        } else {
            None
        }
    }

    /// The name of a Python function declared on `t` (see `python_fn_name`).
    pub fn extract_python_fn_name(t: &str) -> (r: Option<String>)
        ensures
            match python_fn_name(t@) {
                Some(n) => r matches Some(x) && x@ == n,
                None => r is None,
            },
    {
        proof {
            reveal_strlit("def ");
        }
        if starts_with(t, "def ") {
            let n = t.unicode_len();
            let rest = t.substring_char(4, n);
            proof {
                assert(rest@ =~= t@.skip(4));
            }
            let name = take_until(rest, Delim::PyFn);
            Some(trim_str(name.as_str(), Delim::White))
        } else {
            None
        }
    }

    /// The name of a Go function or method declared on `t` (see `go_fn_name`).
    pub fn extract_go_fn_name(t: &str) -> (r: Option<String>)
        ensures
            match go_fn_name(t@) {
                Some(n) => r matches Some(x) && x@ == n,
                None => r is None,
            },
    {
        proof {
            reveal_strlit("func ");
            reveal_strlit(") ");
        }
        if !starts_with(t, "func ") {
            return None;
        }
        let n = t.unicode_len();
        let rest = t.substring_char(5, n);
        proof {
            assert(rest@ =~= t@.skip(5));
        }
        let m = rest.unicode_len();
        if m > 0 && rest.get_char(0) == '(' {
            match str_find(rest, ") ") {
                Some(close) => {
                    proof {
                        lemma_find_sub(rest@, ") "@);
                    }
                    let tail = rest.substring_char(close + 2, m);
                    proof {
                        assert(tail@ =~= rest@.skip(close + 2));
                    }
                    return Some(take_until(tail, Delim::CallOrWhite));
                },
                None => {},
            }
        }
        Some(take_until(rest, Delim::CallOrWhite))
    }

    /// The name of a Go type declared on `t` (see `go_type_name`).
    pub fn extract_go_type_name(t: &str) -> (r: Option<String>)
        ensures
            match go_type_name(t@) {
                Some(n) => r matches Some(x) && x@ == n,
                None => r is None,
            },
    {
        proof {
            reveal_strlit("type ");
        }
        if starts_with(t, "type ") {
            let n = t.unicode_len();
            let rest = t.substring_char(5, n);
            proof {
                assert(rest@ =~= t@.skip(5));
            }
            first_word_str(rest)
        } else {
            None
        }
    }

    /// The dependency words of `t` (see `dependencies`).
    pub fn extract_dependencies(t: &str) -> (r: Vec<String>)
        ensures
            r@.map_values(|x: String| x@) == dependencies(t@),
    {
        let n = t.unicode_len();
        let mut deps: Vec<String> = Vec::new();
        let mut start: usize = 0;
        let mut i: usize = 0;
        let ghost done: Seq<Seq<char>> = Seq::empty();
        proof {
            assert(t@.take(0) =~= Seq::<char>::empty());
            assert(pieces(t@.take(0), Delim::NonWord) =~= done.push(t@.subrange(0, 0)));
        }
        while i < n
            invariant
                n == t@.len(),
                start <= i <= n,
                pieces(t@.take(i as int), Delim::NonWord) == done.push(t@.subrange(start as int, i as int)),
                deps@.map_values(|x: String| x@) == done.filter(dependency_pred()),
            decreases n - i,
        {
            let c = t.get_char(i);
            proof {
                assert(t@.take(i + 1).drop_last() =~= t@.take(i as int));
                assert(t@.take(i + 1).last() == c);
            }
            if is_in_class(Delim::NonWord, c) {
                let w = t.substring_char(start, i);
                let wl = str_byte_len(w);
                let ghost before = deps@;
                if wl > 3 && char_is_uppercase(w.get_char(0)) {
                    deps.push(w.to_string());
                }
                proof {
                    let f = dependency_pred();
                    let nd = done.push(w@);
                    assert(nd.drop_last() =~= done);
                    assert(nd.last() == w@);
                    done.lemma_filter_push(w@, f);
                    assert(f(w@) == (wl > 3 && is_upper(w@[0])));
                    assert(deps@.map_values(|x: String| x@) =~= nd.filter(f));
                    done = nd;
                    assert(in_class(Delim::NonWord, t@.take(i + 1).last()));
                    assert(pieces(t@.take(i + 1), Delim::NonWord) == pieces(t@.take(i as int), Delim::NonWord).push(Seq::empty()));
                    assert(w@ == t@.subrange(start as int, i as int));
                    assert(t@.subrange(i + 1, i + 1) =~= Seq::<char>::empty());
                    assert(pieces(t@.take(i + 1), Delim::NonWord) =~= done.push(t@.subrange(i + 1, i + 1)));
                }
                start = i + 1;
            } else {
                proof {
                    let p = pieces(t@.take(i as int), Delim::NonWord);
                    assert(p.last() == t@.subrange(start as int, i as int));
                    assert(p.last().push(c) =~= t@.subrange(start as int, i + 1));
                    assert(pieces(t@.take(i + 1), Delim::NonWord) =~= done.push(t@.subrange(start as int, i + 1)));
                }
            }
            i = i + 1;
        }
        let w = t.substring_char(start, n);
        let wl = str_byte_len(w);
        if wl > 3 && char_is_uppercase(w.get_char(0)) {
            deps.push(w.to_string());
        }
        proof {
            let f = dependency_pred();
            let nd = done.push(w@);
            assert(nd.drop_last() =~= done);
            assert(nd.last() == w@);
            done.lemma_filter_push(w@, f);
            assert(f(w@) == (wl > 3 && is_upper(w@[0])));
            assert(t@.take(n as int) =~= t@);
            assert(deps@.map_values(|x: String| x@) =~= nd.filter(f));
        }
        deps
    }

    /// The complexity score of `t` (see `complexity`).
    pub fn calculate_complexity(t: &str) -> (r: u32)
        requires
            complexity(t@) <= u32::MAX,
        ensures
            r == complexity(t@),
    {
        proof {
            reveal_strlit("if ");
            reveal_strlit("for ");
            reveal_strlit("while ");
            reveal_strlit("match ");
            reveal_strlit("&&");
            reveal_strlit("||");
            lemma_count_matches_bound(t@, "if "@);
            lemma_count_matches_bound(t@, "for "@);
            lemma_count_matches_bound(t@, "while "@);
            lemma_count_matches_bound(t@, "match "@);
            lemma_count_matches_bound(t@, "&&"@);
            lemma_count_matches_bound(t@, "||"@);
        }
        let mut score: u32 = 1;
        score = score + count_str_matches(t, "if ") as u32;
        score = score + count_str_matches(t, "for ") as u32;
        score = score + count_str_matches(t, "while ") as u32;
        score = score + count_str_matches(t, "match ") as u32;
        score = score + count_str_matches(t, "&&") as u32;
        score = score + count_str_matches(t, "||") as u32;
        score
    }
}

fn impl_target_of(t: &str) -> (r: String)
    ensures
        r@ == impl_target(t@),
{
    proof {
        reveal_strlit("impl ");
    }
    let l = strip_all_str(t, "impl ");
    match first_word_str(l.as_str()) {
        Some(w) => w,
        None => "unknown".to_string(),
    }
}

/// The parser a file's language selects.
#[derive(Debug, Clone, Copy, PartialEq, Eq, Structural)]
pub enum ParseMode {
    Rust,
    /// TypeScript and JavaScript; sub-trees are recorded as TypeScript.
    Script,
    Python,
    Go,
    /// Any other language: every long enough non-comment line.
    Generic(Language),
}

/// A sub-tree as values: name, kind, digest of its trimmed line, byte span, language,
/// dependencies and complexity.
pub struct SubTreeView {
    pub symbol_name: Seq<char>,
    pub kind: Seq<char>,
    pub content_hash: Seq<char>,
    pub start: int,
    pub end: int,
    pub language: Language,
    pub dependencies: Seq<Seq<char>>,
    pub complexity: int,
}

/// The values of a sub-tree.
pub open spec fn view_of(t: AstSubTree) -> SubTreeView {
    SubTreeView {
        symbol_name: t.symbol_name@,
        kind: t.kind@,
        content_hash: t.content_hash@,
        start: t.byte_range.0 as int,
        end: t.byte_range.1 as int,
        language: t.language,
        dependencies: t.dependencies@.map_values(|x: String| x@),
        complexity: t.complexity_score as int,
    }
}

/// The sub-tree found on one line, if any; `off` is the line's byte offset and `t` its
/// trimmed text, whose digest identifies the sub-tree.
pub open spec fn line_subtree(mode: ParseMode, line: Seq<char>, off: int) -> Option<SubTreeView> {
    let t = trim(line);
    let h = blake3_hex_of(vstd::utf8::encode_utf8(t));
    let end = off + byte_len(line);
    let mk = |name: Seq<char>, kind: Seq<char>, lang: Language, deps: Seq<Seq<char>>, score: int|
        SubTreeView {
            symbol_name: name,
            kind,
            content_hash: h,
            start: off,
            end,
            language: lang,
            dependencies: deps,
            complexity: score,
        };
    match mode {
        ParseMode::Rust => if has_prefix(t, "fn "@) || has_prefix(t, "pub fn "@) || has_prefix(t, "async fn "@) {
            match rust_fn_name(t) {
                Some(n) => Some(mk(n, "fn"@, Language::Rust, dependencies(t), complexity(t) as int)),
                None => None,
            }
        } else if has_prefix(t, "struct "@) || has_prefix(t, "pub struct "@) {
            match rust_struct_name(t) {
                Some(n) => Some(mk(n, "struct"@, Language::Rust, Seq::empty(), 1)),
                None => None,
            }
        } else if has_prefix(t, "impl "@) {
            let n = impl_target(t);
            Some(mk("impl_"@ + n, "impl"@, Language::Rust, seq![n], 2))
        } else {
            None
        },
        ParseMode::Script => if has_prefix(t, "function "@) || has_prefix(t, "export function "@)
            || has_prefix(t, "async function "@) {
            match js_fn_name(t) {
                Some(n) => Some(mk(n, "function"@, Language::TypeScript, dependencies(t), complexity(t) as int)),
                None => None,
            }
        } else if has_prefix(t, "class "@) || has_prefix(t, "export class "@) {
            match class_name(t) {
                Some(n) => Some(mk(n, "class"@, Language::TypeScript, Seq::empty(), 3)),
                None => None,
            }
        } else if has_substring(t, "=>"@) && (has_substring(t, "const "@) || has_substring(t, "let "@)) {
            match variable_name(t) {
                Some(n) => Some(mk(n, "arrow_fn"@, Language::TypeScript, dependencies(t), 1)),
                None => None,
            }
        } else {
            None
        },
        ParseMode::Python => if has_prefix(t, "def "@) {
            match python_fn_name(t) {
                Some(n) => Some(mk(n, "function"@, Language::Python, dependencies(t), complexity(t) as int)),
                None => None,
            }
        } else if has_prefix(t, "class "@) {
            match class_name(t) {
                Some(n) => Some(mk(n, "class"@, Language::Python, Seq::empty(), 3)),
                None => None,
            }
        } else {
            None
        },
        ParseMode::Go => if has_prefix(t, "func "@) {
            match go_fn_name(t) {
                Some(n) => Some(mk(n, "func"@, Language::Go, dependencies(t), complexity(t) as int)),
                None => None,
            }
        } else if has_prefix(t, "type "@) && has_substring(t, "struct"@) {
            match go_type_name(t) {
                Some(n) => Some(mk(n, "struct"@, Language::Go, Seq::empty(), 2)),
                None => None,
            }
        } else {
            None
        },
        ParseMode::Generic(lang) => if t.len() == 0 || has_prefix(t, "//"@) || has_prefix(t, "#"@) {
            None
        } else if byte_len(t) > 10 {
            Some(mk("symbol_"@ + decimal(off as nat), "generic"@, lang, Seq::empty(), 1))
        } else {
            None
        },
    }
}

/// What the line parser found: the sub-tree's values, if any.
pub open spec fn found(r: Option<AstSubTree>, expected: Option<SubTreeView>) -> bool {
    match expected {
        Some(v) => r matches Some(x) && view_of(x) == v,
        None => r is None,
    }
}

fn make_subtree(
    name: String,
    kind: &str,
    hash: &String,
    off: usize,
    end: usize,
    language: Language,
    dependencies: Vec<String>,
    score: u32,
) -> (r: AstSubTree)
    ensures
        view_of(r) == (SubTreeView {
            symbol_name: name@,
            kind: kind@,
            content_hash: hash@,
            start: off as int,
            end: end as int,
            language,
            dependencies: dependencies@.map_values(|x: String| x@),
            complexity: score as int,
        }),
{
    AstSubTree {
        symbol_name: name,
        kind: kind.to_string(),
        content_hash: hash.clone(),
        byte_range: (off, end),
        language,
        dependencies,
        complexity_score: score,
    }
}

proof fn lemma_trim_start_len(s: Seq<char>, d: Delim)
    ensures
        trim_start_by(s, d).len() <= s.len(),
    decreases s.len(),
{
    if s.len() > 0 {
        lemma_trim_start_len(s.drop_first(), d);
    }
}

proof fn lemma_trim_end_len(s: Seq<char>, d: Delim)
    ensures
        trim_end_by(s, d).len() <= s.len(),
    decreases s.len(),
{
    if s.len() > 0 {
        lemma_trim_end_len(s.drop_last(), d);
    }
}

proof fn lemma_trim_len(s: Seq<char>, d: Delim)
    ensures
        trim_by(s, d).len() <= s.len(),
{
    lemma_trim_start_len(s, d);
    lemma_trim_end_len(trim_start_by(s, d), d);
}

fn classify_line(mode: ParseMode, line: &str, off: usize) -> (r: Option<AstSubTree>)
    requires
        off + byte_len(line@) <= usize::MAX,
        line@.len() <= MAX_SCORED_CHARS,
    ensures
        found(r, line_subtree(mode, line@, off as int)),
{
    let t = trim_str(line, Delim::White);
    proof {
        lemma_trim_len(line@, Delim::White);
        lemma_complexity_bound(t@);
    }
    let h = blake3_hex(t.as_str().as_bytes());
    let end = off + str_byte_len(line);
    let ts = t.as_str();
    match mode {
        ParseMode::Rust => {
            if starts_with(ts, "fn ") || starts_with(ts, "pub fn ") || starts_with(ts, "async fn ") {
                match AstCacheIndex::extract_rust_fn_name(ts) {
                    Some(n) => {
                        let deps = AstCacheIndex::extract_dependencies(ts);
                        let score = AstCacheIndex::calculate_complexity(ts);
                        Some(make_subtree(n, "fn", &h, off, end, Language::Rust, deps, score))
                    },
                    None => None,
                }
            } else if starts_with(ts, "struct ") || starts_with(ts, "pub struct ") {
                match AstCacheIndex::extract_rust_struct_name(ts) {
                    Some(n) => {
                        let r = make_subtree(n, "struct", &h, off, end, Language::Rust, Vec::new(), 1);
                        proof {
                            assert(view_of(r).dependencies =~= Seq::<Seq<char>>::empty());
                        }
                        Some(r)
                    },
                    None => None,
                }
            } else if starts_with(ts, "impl ") {
                let n = impl_target_of(ts);
                let mut name = "impl_".to_string();
                name.append(n.as_str());
                let mut deps: Vec<String> = Vec::new();
                deps.push(n);
                let r = make_subtree(name, "impl", &h, off, end, Language::Rust, deps, 2);
                proof {
                    assert(view_of(r).dependencies =~= seq![impl_target(t@)]);
                }
                Some(r)
            } else {
                None
            }
        },
        ParseMode::Script => {
            if starts_with(ts, "function ") || starts_with(ts, "export function ") || starts_with(
                ts,
                "async function ",
            ) {
                match AstCacheIndex::extract_js_fn_name(ts) {
                    Some(n) => {
                        let deps = AstCacheIndex::extract_dependencies(ts);
                        let score = AstCacheIndex::calculate_complexity(ts);
                        Some(make_subtree(n, "function", &h, off, end, Language::TypeScript, deps, score))
                    },
                    None => None,
                }
            } else if starts_with(ts, "class ") || starts_with(ts, "export class ") {
                match AstCacheIndex::extract_class_name(ts) {
                    Some(n) => {
                        let r = make_subtree(n, "class", &h, off, end, Language::TypeScript, Vec::new(), 3);
                        proof {
                            assert(view_of(r).dependencies =~= Seq::<Seq<char>>::empty());
                        }
                        Some(r)
                    },
                    None => None,
                }
            } else if str_contains(ts, "=>") && (str_contains(ts, "const ") || str_contains(ts, "let ")) {
                match AstCacheIndex::extract_variable_name(ts) {
                    Some(n) => {
                        let deps = AstCacheIndex::extract_dependencies(ts);
                        Some(make_subtree(n, "arrow_fn", &h, off, end, Language::TypeScript, deps, 1))
                    },
                    None => None,
                }
            } else {
                None
            }
        },
        ParseMode::Python => {
            if starts_with(ts, "def ") {
                match AstCacheIndex::extract_python_fn_name(ts) {
                    Some(n) => {
                        let deps = AstCacheIndex::extract_dependencies(ts);
                        let score = AstCacheIndex::calculate_complexity(ts);
                        Some(make_subtree(n, "function", &h, off, end, Language::Python, deps, score))
                    },
                    None => None,
                }
            } else if starts_with(ts, "class ") {
                match AstCacheIndex::extract_class_name(ts) {
                    Some(n) => {
                        let r = make_subtree(n, "class", &h, off, end, Language::Python, Vec::new(), 3);
                        proof {
                            assert(view_of(r).dependencies =~= Seq::<Seq<char>>::empty());
                        }
                        Some(r)
                    },
                    None => None,
                }
            } else {
                None
            }
        },
        ParseMode::Go => {
            if starts_with(ts, "func ") {
                match AstCacheIndex::extract_go_fn_name(ts) {
                    Some(n) => {
                        let deps = AstCacheIndex::extract_dependencies(ts);
                        let score = AstCacheIndex::calculate_complexity(ts);
                        Some(make_subtree(n, "func", &h, off, end, Language::Go, deps, score))
                    },
                    None => None,
                }
            } else if starts_with(ts, "type ") && str_contains(ts, "struct") {
                match AstCacheIndex::extract_go_type_name(ts) {
                    Some(n) => {
                        let r = make_subtree(n, "struct", &h, off, end, Language::Go, Vec::new(), 2);
                        proof {
                            assert(view_of(r).dependencies =~= Seq::<Seq<char>>::empty());
                        }
                        Some(r)
                    },
                    None => None,
                }
            } else {
                None
            }
        },
        ParseMode::Generic(lang) => {
            if ts.unicode_len() == 0 || starts_with(ts, "//") || starts_with(ts, "#") {
                None
            } else if str_byte_len(ts) > 10 {
                let mut name = "symbol_".to_string();
                let digits = decimal_string(off as u128);
                name.append(digits.as_str());
                let r = make_subtree(name, "generic", &h, off, end, lang, Vec::new(), 1);
                proof {
                    assert(view_of(r).dependencies =~= Seq::<Seq<char>>::empty());
                }
                Some(r)
            } else {
                None
            }
        },
    }
}

/// The position of the first `\n` of `s`, or `s.len()`.
pub open spec fn newline_index(s: Seq<char>) -> int
    decreases s.len(),
{
    if s.len() == 0 {
        0
    } else if s[0] == '\n' {
        0
    } else {
        1 + newline_index(s.drop_first())
    }
}

pub proof fn lemma_newline_index(s: Seq<char>)
    ensures
        0 <= newline_index(s) <= s.len(),
        newline_index(s) < s.len() ==> s[newline_index(s)] == '\n',
        forall|i: int| 0 <= i < newline_index(s) ==> s[i] != '\n',
    decreases s.len(),
{
    if s.len() > 0 && s[0] != '\n' {
        lemma_newline_index(s.drop_first());
        assert forall|i: int| 0 <= i < newline_index(s) implies s[i] != '\n' by {
            if i > 0 {
                assert(s[i] == s.drop_first()[i - 1]);
            }
        }
    }
}

/// A line as `str::lines` yields it: a line ended by `\n` loses a final `\r`.
pub open spec fn line_text(piece: Seq<char>, ended: bool) -> Seq<char> {
    if ended && piece.len() > 0 && piece.last() == '\r' {
        piece.drop_last()
    } else {
        piece
    }
}

/// An optional element as a sequence of zero or one element.
pub open spec fn opt_seq<T>(o: Option<T>) -> Seq<T> {
    match o {
        Some(x) => seq![x],
        None => Seq::empty(),
    }
}

/// The sub-trees found in `s`, line by line, the first line at byte offset `off`; each
/// line advances the offset by its length in bytes plus one.
pub open spec fn parse_from(mode: ParseMode, s: Seq<char>, off: int) -> Seq<SubTreeView>
    decreases s.len(),
{
    if s.len() == 0 {
        Seq::empty()
    } else {
        let i = newline_index(s);
        let ended = i < s.len();
        let line = line_text(s.subrange(0, i), ended);
        let head = opt_seq(line_subtree(mode, line, off));
        if ended {
            proof {
                lemma_newline_index(s);
            }
            head + parse_from(mode, s.subrange(i + 1, s.len() as int), off + byte_len(line) + 1)
        } else {
            head
        }
    }
}

pub proof fn lemma_byte_len_concat(a: Seq<char>, b: Seq<char>)
    ensures
        byte_len(a + b) == byte_len(a) + byte_len(b),
    decreases a.len(),
{
    if a.len() > 0 {
        lemma_byte_len_concat(a.drop_first(), b);
        assert((a + b).drop_first() =~= a.drop_first() + b);
        assert((a + b)[0] == a[0]);
    } else {
        assert(a + b =~= b);
    }
}

proof fn lemma_byte_len_char(c: char)
    ensures
        byte_len(seq![c]) >= 1,
{
    assert(seq![c].drop_first() =~= Seq::<char>::empty());
}

proof fn lemma_line_bytes(piece: Seq<char>, ended: bool)
    ensures
        byte_len(line_text(piece, ended)) <= byte_len(piece),
        line_text(piece, ended).len() <= piece.len(),
{
    if ended && piece.len() > 0 && piece.last() == '\r' {
        assert(piece =~= piece.drop_last() + seq![piece.last()]);
        lemma_byte_len_concat(piece.drop_last(), seq![piece.last()]);
    }
}

/// The line that starts at `pos`: where it ends, whether a `\n` ends it, and its text.
fn next_line(content: &str, pos: usize) -> (r: (usize, bool, String))
    requires
        pos < content@.len(),
    ensures
        r.0 == pos + newline_index(content@.skip(pos as int)),
        r.1 == (r.0 < content@.len()),
        r.2@ == line_text(content@.subrange(pos as int, r.0 as int), r.1),
{
    let n = content.unicode_len();
    let ghost s = content@;
    let ghost rest = s.skip(pos as int);
    let mut j: usize = pos;
    while j < n && content.get_char(j) != '\n'
        invariant
            pos <= j <= n,
            n == s.len(),
            s == content@,
            forall|k: int| pos <= k < j ==> s[k] != '\n',
        decreases n - j,
    {
        j = j + 1;
    }
    proof {
        lemma_newline_index(rest);
        let ni = newline_index(rest);
        if ni < j - pos {
            assert(rest[ni] == s[pos + ni]);
        }
        if j < n {
            assert(rest[j - pos] == s[j as int]);
        }
        assert(ni == j - pos);
    }
    let ended = j < n;
    let piece = content.substring_char(pos, j);
    let pn = piece.unicode_len();
    let line_end = if ended && pn > 0 && piece.get_char(pn - 1) == '\r' {
        pn - 1
    } else {
        pn
    };
    let line = piece.substring_char(0, line_end);
    proof {
        assert(line@ =~= line_text(piece@, ended));
    }
    (j, ended, line.to_string())
}

proof fn lemma_parse_step(mode: ParseMode, s: Seq<char>, pos: int, j: int, off: int)
    requires
        0 <= pos < s.len(),
        j == pos + newline_index(s.skip(pos)),
    ensures
        ({
            let ended = j < s.len();
            let line = line_text(s.subrange(pos, j), ended);
            let head = opt_seq(line_subtree(mode, line, off));
            parse_from(mode, s.skip(pos), off) == if ended {
                head + parse_from(mode, s.skip(j + 1), off + byte_len(line) + 1)
            } else {
                head
            }
        }),
{
    let rest = s.skip(pos);
    lemma_newline_index(rest);
    assert(rest.subrange(0, j - pos) =~= s.subrange(pos, j));
    if j < s.len() {
        assert(rest.subrange(j - pos + 1, rest.len() as int) =~= s.skip(j + 1));
    }
}

proof fn lemma_offset_step(s: Seq<char>, pos: int, j: int, ended: bool, off: int)
    requires
        0 <= pos <= j <= s.len(),
        ended == (j < s.len()),
        off <= byte_len(s.take(pos)),
    ensures
        off + byte_len(line_text(s.subrange(pos, j), ended)) <= byte_len(s),
        ended ==> off + byte_len(line_text(s.subrange(pos, j), ended)) + 1 <= byte_len(s.take(j + 1)),
{
    let piece = s.subrange(pos, j);
    lemma_line_bytes(piece, ended);
    assert(s.take(j) =~= s.take(pos) + piece);
    lemma_byte_len_concat(s.take(pos), piece);
    assert(s =~= s.take(j) + s.skip(j));
    lemma_byte_len_concat(s.take(j), s.skip(j));
    if ended {
        assert(s.take(j + 1) =~= s.take(j) + seq![s[j]]);
        lemma_byte_len_concat(s.take(j), seq![s[j]]);
        lemma_byte_len_char(s[j]);
    }
}

/// The sub-trees of `content` under parser `mode`, line by line.
pub fn parse_lines(content: &str, mode: ParseMode) -> (r: Vec<AstSubTree>)
    requires
        byte_len(content@) < usize::MAX,
        content@.len() <= MAX_SCORED_CHARS,
    ensures
        r@.map_values(|t: AstSubTree| view_of(t)) == parse_from(mode, content@, 0),
{
    let n = content.unicode_len();
    let ghost s = content@;
    let mut out: Vec<AstSubTree> = Vec::new();
    let mut pos: usize = 0;
    let mut off: usize = 0;
    proof {
        assert(s.skip(0) =~= s);
        assert(s.take(0) =~= Seq::<char>::empty());
        assert(out@.map_values(|t: AstSubTree| view_of(t)) + parse_from(mode, s.skip(0), 0) =~= parse_from(mode, s, 0));
    }
    while pos < n
        invariant
            n == s.len(),
            s == content@,
            byte_len(s) < usize::MAX,
            s.len() <= MAX_SCORED_CHARS,
            pos <= n,
            pos < n ==> off <= byte_len(s.take(pos as int)),
            out@.map_values(|t: AstSubTree| view_of(t)) + parse_from(mode, s.skip(pos as int), off as int)
                == parse_from(mode, s, 0),
        decreases n - pos,
    {
        let (j, ended, line) = next_line(content, pos);
        proof {
            lemma_newline_index(s.skip(pos as int));
            lemma_offset_step(s, pos as int, j as int, ended, off as int);
            lemma_line_bytes(s.subrange(pos as int, j as int), ended);
            lemma_parse_step(mode, s, pos as int, j as int, off as int);
        }
        let found_here = classify_line(mode, line.as_str(), off);
        let ghost before = out@.map_values(|t: AstSubTree| view_of(t));
        let ghost head = opt_seq(line_subtree(mode, line@, off as int));
        match found_here {
            Some(t) => {
                out.push(t);
            },
            None => {},
        }
        let lb = str_byte_len(line.as_str());
        proof {
            assert(out@.map_values(|t: AstSubTree| view_of(t)) =~= before + head);
            if ended {
                assert(out@.map_values(|t: AstSubTree| view_of(t)) + parse_from(mode, s.skip(j + 1), off + lb + 1)
                    =~= before + (head + parse_from(mode, s.skip(j + 1), off + lb + 1)));
            } else {
                assert(s.skip(n as int) =~= Seq::<char>::empty());
                assert(out@.map_values(|t: AstSubTree| view_of(t)) + parse_from(mode, s.skip(n as int), off + lb + 1)
                    =~= before + head);
            }
        }
        off = off + lb + 1;
        pos = if ended { j + 1 } else { n };
    }
    proof {
        assert(s.skip(n as int) =~= Seq::<char>::empty());
        assert(out@.map_values(|t: AstSubTree| view_of(t)) + Seq::<SubTreeView>::empty() =~= out@.map_values(
            |t: AstSubTree| view_of(t),
        ));
    }
    out
}

/// The extension of a path's last component, as `Path::extension` finds it: the text
/// after the last `.`, unless that `.` starts the name or there is none.
pub open spec fn extension(p: Seq<char>) -> Option<Seq<char>> {
    match file_name(p) {
        None => None,
        Some(n) => {
            let a = after_last(n, Delim::Dot);
            if a.len() + 1 >= n.len() {
                None
            } else {
                Some(a)
            }
        },
    }
}

/// The language a file's extension selects, Rust when it selects none.
pub open spec fn file_language(path: Seq<char>) -> Language {
    let e = match extension(path) {
        Some(e) => e,
        None => Seq::empty(),
    };
    match language_for_extension(lowercase_of(e)) {
        Some(l) => l,
        None => Language::Rust,
    }
}

/// The parser for a language.
pub open spec fn mode_for(l: Language) -> ParseMode {
    match l {
        Language::Rust => ParseMode::Rust,
        Language::TypeScript | Language::JavaScript => ParseMode::Script,
        Language::Python => ParseMode::Python,
        Language::Go => ParseMode::Go,
        _ => ParseMode::Generic(l),
    }
}

/// The extension of the path `p` (see `extension`).
pub fn path_extension(p: &str) -> (r: Option<String>)
    ensures
        match extension(p@) {
            Some(e) => r matches Some(x) && x@ == e,
            None => r is None,
        },
{
    match path_file_name(p) {
        None => None,
        Some(n) => {
            let a = after_last_str(n.as_str(), Delim::Dot);
            let al = a.unicode_len();
            let nl = n.unicode_len();
            if nl == 0 || al >= nl - 1 {
                None
            } else {
                Some(a)
            }
        },
    }
}

impl AstCacheIndex {
    /// The sub-trees of a source file, found line by line by the parser that the file's
    /// extension selects (see `line_subtree`).
    pub fn parse_file_content(file_path: &str, content: &str) -> (r: Vec<AstSubTree>)
        requires
            byte_len(content@) < usize::MAX,
            content@.len() <= MAX_SCORED_CHARS,
        ensures
            r@.map_values(|t: AstSubTree| view_of(t)) == parse_from(mode_for(file_language(file_path@)), content@, 0),
    {
        let ext = match path_extension(file_path) {
            Some(e) => e,
            None => {
                proof {
                    reveal_strlit("");
                    assert(""@ =~= Seq::<char>::empty());
                }
                "".to_string()
            },
        };
        let language = match Language::from_extension(ext.as_str()) {
            Some(l) => l,
            None => Language::Rust,
        };
        match language {
            Language::Rust => Self::parse_rust_content(content),
            Language::TypeScript | Language::JavaScript => Self::parse_ts_content(content),
            Language::Python => Self::parse_python_content(content),
            Language::Go => Self::parse_go_content(content),
            _ => Self::parse_generic_content(content, language),
        }
    }

    /// Rust functions, structs and impl blocks, one per line.
    fn parse_rust_content(content: &str) -> (r: Vec<AstSubTree>)
        requires
            byte_len(content@) < usize::MAX,
            content@.len() <= MAX_SCORED_CHARS,
        ensures
            r@.map_values(|t: AstSubTree| view_of(t)) == parse_from(ParseMode::Rust, content@, 0),
    {
        parse_lines(content, ParseMode::Rust)
    }

    /// TypeScript and JavaScript functions, classes and arrow functions, one per line.
    fn parse_ts_content(content: &str) -> (r: Vec<AstSubTree>)
        requires
            byte_len(content@) < usize::MAX,
            content@.len() <= MAX_SCORED_CHARS,
        ensures
            r@.map_values(|t: AstSubTree| view_of(t)) == parse_from(ParseMode::Script, content@, 0),
    {
        parse_lines(content, ParseMode::Script)
    }

    /// Python functions and classes, one per line.
    fn parse_python_content(content: &str) -> (r: Vec<AstSubTree>)
        requires
            byte_len(content@) < usize::MAX,
            content@.len() <= MAX_SCORED_CHARS,
        ensures
            r@.map_values(|t: AstSubTree| view_of(t)) == parse_from(ParseMode::Python, content@, 0),
    {
        parse_lines(content, ParseMode::Python)
    }

    /// Go functions and struct types, one per line.
    fn parse_go_content(content: &str) -> (r: Vec<AstSubTree>)
        requires
            byte_len(content@) < usize::MAX,
            content@.len() <= MAX_SCORED_CHARS,
        ensures
            r@.map_values(|t: AstSubTree| view_of(t)) == parse_from(ParseMode::Go, content@, 0),
    {
        parse_lines(content, ParseMode::Go)
    }

    /// Every long enough line that is not a comment, as a symbol of `language`.
    fn parse_generic_content(content: &str, language: Language) -> (r: Vec<AstSubTree>)
        requires
            byte_len(content@) < usize::MAX,
            content@.len() <= MAX_SCORED_CHARS,
        ensures
            r@.map_values(|t: AstSubTree| view_of(t)) == parse_from(ParseMode::Generic(language), content@, 0),
    {
        parse_lines(content, ParseMode::Generic(language))
    }
}

} // verus!
