use vstd::prelude::*;
use crate::text::{str_eq, lowercase_of, to_lowercase};

verus! {

/// Source languages known to the sub-tree cache.
#[derive(Debug, Clone, Copy, PartialEq, Eq, Structural)]
pub enum Language {
    Rust,
    TypeScript,
    JavaScript,
    Python,
    Go,
    C,
    Cpp,
    Java,
    Swift,
    Dart,
    Zig,
    DotNet,
}

/// The language of a lower-case file extension.
pub open spec fn language_for_extension(e: Seq<char>) -> Option<Language> {
    if e == "rs"@ {
        Some(Language::Rust)
    } else if e == "ts"@ || e == "tsx"@ {
        Some(Language::TypeScript)
    } else if e == "js"@ || e == "jsx"@ || e == "mjs"@ {
        Some(Language::JavaScript)
    } else if e == "py"@ {
        Some(Language::Python)
    } else if e == "go"@ {
        Some(Language::Go)
    } else if e == "c"@ || e == "h"@ {
        Some(Language::C)
    } else if e == "cpp"@ || e == "cc"@ || e == "cxx"@ || e == "hpp"@ {
        Some(Language::Cpp)
    } else if e == "java"@ {
        Some(Language::Java)
    } else if e == "swift"@ {
        Some(Language::Swift)
    } else if e == "dart"@ {
        Some(Language::Dart)
    } else if e == "zig"@ {
        Some(Language::Zig)
    } else if e == "cs"@ {
        Some(Language::DotNet)
    } else {
        None
    }
}

/// The languages whose sources are split into sub-trees.
pub open spec fn caches_subtrees(l: Language) -> bool {
    l == Language::Rust || l == Language::TypeScript || l == Language::JavaScript || l == Language::Python
        || l == Language::Go || l == Language::C || l == Language::Cpp
}

impl Language {
    /// The language of an extension already in lower case.
    pub fn from_lowercase_extension(ext: &str) -> (r: Option<Self>)
        ensures
            r == language_for_extension(ext@),
    {
        if str_eq(ext, "rs") {
            Some(Language::Rust)
        } else if str_eq(ext, "ts") || str_eq(ext, "tsx") {
            Some(Language::TypeScript)
        } else if str_eq(ext, "js") || str_eq(ext, "jsx") || str_eq(ext, "mjs") {
            Some(Language::JavaScript)
        } else if str_eq(ext, "py") {
            Some(Language::Python)
        } else if str_eq(ext, "go") {
            Some(Language::Go)
        } else if str_eq(ext, "c") || str_eq(ext, "h") {
            Some(Language::C)
        } else if str_eq(ext, "cpp") || str_eq(ext, "cc") || str_eq(ext, "cxx") || str_eq(ext, "hpp") {
            Some(Language::Cpp)
        } else if str_eq(ext, "java") {
            Some(Language::Java)
        } else if str_eq(ext, "swift") {
            Some(Language::Swift)
        } else if str_eq(ext, "dart") {
            Some(Language::Dart)
        } else if str_eq(ext, "zig") {
            Some(Language::Zig)
        } else if str_eq(ext, "cs") {
            Some(Language::DotNet)
        } else {
            None
        }
    }

    /// The language of a file extension, compared case-insensitively (after Unicode
    /// lower-casing).
    pub fn from_extension(ext: &str) -> (r: Option<Self>)
        ensures
            r == language_for_extension(lowercase_of(ext@)),
    {
        let lower = to_lowercase(ext);
        Self::from_lowercase_extension(lower.as_str())
    }

    pub fn supports_subtree_caching(&self) -> (r: bool)
        ensures
            r == caches_subtrees(*self),
    {
        match self {
            Language::Rust | Language::TypeScript | Language::JavaScript | Language::Python
            | Language::Go | Language::C | Language::Cpp => true,
            _ => false,
        }
    }
}

/// One cached syntactic unit of a source file.
pub struct AstSubTree {
    pub symbol_name: String,
    pub kind: String,
    pub content_hash: String,
    pub byte_range: (usize, usize),
    pub language: Language,
    pub dependencies: Vec<String>,
    pub complexity_score: u32,
}

impl AstSubTree {
    /// Two sub-trees hold the same values (dependency lists compared by their elements).
    pub open spec fn same_as(self, other: AstSubTree) -> bool {
        &&& self.symbol_name == other.symbol_name
        &&& self.kind == other.kind
        &&& self.content_hash == other.content_hash
        &&& self.byte_range == other.byte_range
        &&& self.language == other.language
        &&& self.dependencies@ == other.dependencies@
        &&& self.complexity_score == other.complexity_score
    }
}

impl Clone for AstSubTree {
    fn clone(&self) -> (r: Self)
        ensures
            r.same_as(*self),
    {
        let deps = self.dependencies.clone();
        proof {
            assert(deps@ =~= self.dependencies@);
        }
        AstSubTree {
            symbol_name: self.symbol_name.clone(),
            kind: self.kind.clone(),
            content_hash: self.content_hash.clone(),
            byte_range: self.byte_range,
            language: self.language,
            dependencies: deps,
            complexity_score: self.complexity_score,
        }
    }
}

/// The symbol names of `s`, in order.
pub open spec fn names(s: Seq<AstSubTree>) -> Seq<Seq<char>> {
    s.map_values(|t: AstSubTree| t.symbol_name@)
}

/// The views of a list of strings.
pub open spec fn views(s: Seq<String>) -> Seq<Seq<char>> {
    s.map_values(|x: String| x@)
}

/// The content hash recorded last for symbol `n` in `old` (a later entry of the same
/// name overrides an earlier one).
pub open spec fn last_hash(old: Seq<AstSubTree>, n: Seq<char>) -> Option<Seq<char>>
    decreases old.len(),
{
    if old.len() == 0 {
        None
    } else if old.last().symbol_name@ == n {
        Some(old.last().content_hash@)
    } else {
        last_hash(old.drop_last(), n)
    }
}

/// `t` is recorded in `old` with the same content hash.
pub open spec fn is_unchanged(old: Seq<AstSubTree>, t: AstSubTree) -> bool {
    last_hash(old, t.symbol_name@) == Some(t.content_hash@)
}

/// The symbols that changed between the recorded sub-trees (`None`: nothing recorded) and
/// `new`: every new symbol whose hash differs or that is new, in order, then every recorded
/// symbol that `new` lacks.
pub open spec fn changed_symbols(old: Option<Seq<AstSubTree>>, new: Seq<AstSubTree>) -> Seq<Seq<char>> {
    match old {
        None => names(new),
        Some(o) => names(new.filter(|t: AstSubTree| !is_unchanged(o, t))) + names(
            o.filter(|t: AstSubTree| !names(new).contains(t.symbol_name@)),
        ),
    }
}

/// The hash last recorded for `name` in `old`.
fn find_last_hash<'a>(old: &'a Vec<AstSubTree>, name: &String) -> (r: Option<&'a String>)
    ensures
        match r {
            Some(h) => last_hash(old@, name@) == Some(h@),
            None => last_hash(old@, name@) is None,
        },
{
    let mut i = old.len();
    proof {
        assert(old@.take(i as int) =~= old@);
    }
    while i > 0
        invariant
            i <= old@.len(),
            last_hash(old@, name@) == last_hash(old@.take(i as int), name@),
        decreases i,
    {
        proof {
            assert(old@.take(i as int).drop_last() =~= old@.take(i - 1));
        }
        if old[i - 1].symbol_name == *name {
            return Some(&old[i - 1].content_hash);
        }
        i = i - 1;
    }
    None
}

/// Whether some sub-tree of `s` is named `name`.
fn has_name(s: &[AstSubTree], name: &String) -> (r: bool)
    ensures
        r == names(s@).contains(name@),
{
    let mut i: usize = 0;
    while i < s.len()
        invariant
            i <= s@.len(),
            forall|j: int| 0 <= j < i ==> (#[trigger] s@[j]).symbol_name@ != name@,
        decreases s@.len() - i,
    {
        if s[i].symbol_name == *name {
            proof {
                assert(names(s@)[i as int] == name@);
            }
            return true;
        }
        i = i + 1;
    }
    proof {
        if names(s@).contains(name@) {
            let j = choose|j: int| 0 <= j < names(s@).len() && names(s@)[j] == name@;
            assert(s@[j].symbol_name@ == name@);
        }
    }
    false
}

/// The sub-tree records of one file.
pub struct FileSubtrees {
    pub path: String,
    pub subtrees: Vec<AstSubTree>,
}

/// The files in which a symbol is recorded (a file appears once per sub-tree of that name).
pub struct SymbolFiles {
    pub symbol: String,
    pub files: Vec<String>,
}

/// Per-language counters.
pub struct LanguageStats {
    pub file_count: usize,
    pub symbol_count: usize,
    pub total_bytes: usize,
    pub cached_symbols: usize,
}

impl Clone for LanguageStats {
    fn clone(&self) -> (r: Self)
        ensures
            r == *self,
    {
        LanguageStats {
            file_count: self.file_count,
            symbol_count: self.symbol_count,
            total_bytes: self.total_bytes,
            cached_symbols: self.cached_symbols,
        }
    }
}

/// The counters of one language, keyed by the language's name.
pub struct LanguageStatsEntry {
    pub language: String,
    pub stats: LanguageStats,
}

impl Clone for LanguageStatsEntry {
    fn clone(&self) -> (r: Self)
        ensures
            r == *self,
    {
        LanguageStatsEntry { language: self.language.clone(), stats: self.stats.clone() }
    }
}

/// Some record is kept for `p`.
pub open spec fn has_file(s: Seq<FileSubtrees>, p: Seq<char>) -> bool {
    exists|i: int| 0 <= i < s.len() && (#[trigger] s[i]).path@ == p
}

/// The position of the record of `p` (meaningful when `has_file(s, p)`).
pub open spec fn file_position(s: Seq<FileSubtrees>, p: Seq<char>) -> int {
    choose|i: int| 0 <= i < s.len() && (#[trigger] s[i]).path@ == p
}

/// The sub-trees recorded for `p`, if any.
pub open spec fn trees_of(s: Seq<FileSubtrees>, p: Seq<char>) -> Option<Seq<AstSubTree>> {
    if has_file(s, p) {
        Some(s[file_position(s, p)].subtrees@)
    } else {
        None
    }
}

/// The sub-trees of all recorded files, file by file.
pub open spec fn all_subtrees(files: Seq<FileSubtrees>) -> Seq<AstSubTree>
    decreases files.len(),
{
    if files.len() == 0 {
        Seq::empty()
    } else {
        all_subtrees(files.drop_last()) + files.last().subtrees@
    }
}

/// `t` lists symbol `x` among its dependencies.
pub open spec fn depends_on(t: AstSubTree, x: Seq<char>) -> bool {
    views(t.dependencies@).contains(x)
}

/// `path` is a dependency chain through `all` that starts at a changed symbol: its first
/// sub-tree depends on a member of `changed`, and each next one on the previous one's symbol.
pub open spec fn is_impact_chain(all: Seq<AstSubTree>, changed: Seq<Seq<char>>, path: Seq<AstSubTree>) -> bool {
    &&& path.len() > 0
    &&& forall|i: int| 0 <= i < path.len() ==> all.contains(#[trigger] path[i])
    &&& exists|c: Seq<char>| changed.contains(c) && #[trigger] depends_on(path[0], c)
    &&& forall|i: int|
        0 <= i < path.len() - 1 ==> #[trigger] depends_on(path[i + 1], path[i].symbol_name@)
}

/// Symbol `n` is affected by `changed`: some dependency chain ends at a sub-tree named `n`.
pub open spec fn is_impacted(all: Seq<AstSubTree>, changed: Seq<Seq<char>>, n: Seq<char>) -> bool {
    exists|path: Seq<AstSubTree>| #[trigger] is_impact_chain(all, changed, path) && path.last().symbol_name@ == n
}

/// Every sub-tree of `all` that depends on a symbol of `changed` or of `r` is named in `r`.
pub open spec fn impact_closed(all: Seq<AstSubTree>, changed: Seq<Seq<char>>, r: Seq<Seq<char>>) -> bool {
    forall|t: AstSubTree, x: Seq<char>|
        all.contains(t) && (changed.contains(x) || r.contains(x)) && #[trigger] depends_on(t, x) ==> r.contains(t.symbol_name@)
}

/// A closed set contains every symbol reachable by a dependency chain.
proof fn lemma_closed_contains_chains(all: Seq<AstSubTree>, changed: Seq<Seq<char>>, r: Seq<Seq<char>>, path: Seq<AstSubTree>, k: int)
    requires
        impact_closed(all, changed, r),
        is_impact_chain(all, changed, path),
        0 <= k < path.len(),
    ensures
        r.contains(path[k].symbol_name@),
    decreases k,
{
    if k == 0 {
        let c = choose|c: Seq<char>| changed.contains(c) && #[trigger] depends_on(path[0], c);
        assert(all.contains(path[0]));
    } else {
        lemma_closed_contains_chains(all, changed, r, path, k - 1);
        assert(depends_on(path[(k - 1) + 1], path[k - 1].symbol_name@));
        assert(all.contains(path[k]));
    }
}

/// Replacing one file's record changes the number of all sub-trees by the difference of
/// the two records' counts.
proof fn lemma_all_subtrees_update(s: Seq<FileSubtrees>, i: int, f: FileSubtrees)
    requires
        0 <= i < s.len(),
    ensures
        all_subtrees(s.update(i, f)).len() == all_subtrees(s).len() - s[i].subtrees@.len() + f.subtrees@.len(),
{
    let a = s.take(i);
    let b = s.skip(i + 1);
    let x = s[i];
    assert(s =~= a + seq![x] + b);
    assert(s.update(i, f) =~= a + seq![f] + b);
    lemma_all_subtrees_add(a + seq![x], b);
    lemma_all_subtrees_add(a, seq![x]);
    lemma_all_subtrees_add(a + seq![f], b);
    lemma_all_subtrees_add(a, seq![f]);
    assert(seq![x].drop_last() =~= Seq::<FileSubtrees>::empty());
    assert(seq![f].drop_last() =~= Seq::<FileSubtrees>::empty());
}

/// Collecting sub-trees distributes over splitting the file list.
proof fn lemma_all_subtrees_add(a: Seq<FileSubtrees>, b: Seq<FileSubtrees>)
    ensures
        all_subtrees(a + b) == all_subtrees(a) + all_subtrees(b),
    decreases b.len(),
{
    if b.len() == 0 {
        assert(a + b =~= a);
        assert(all_subtrees(a) + all_subtrees(b) =~= all_subtrees(a));
    } else {
        assert((a + b).drop_last() =~= a + b.drop_last());
        lemma_all_subtrees_add(a, b.drop_last());
        assert(all_subtrees(a + b) =~= all_subtrees(a) + all_subtrees(b));
    }
}

/// A duplicate-free list of names of `all` is no longer than `all`.
proof fn lemma_unique_names_bound(r: Seq<Seq<char>>, all: Seq<AstSubTree>)
    requires
        r.no_duplicates(),
        forall|m: int| 0 <= m < r.len() ==> names(all).contains(#[trigger] r[m]),
    ensures
        r.len() <= all.len(),
{
    r.unique_seq_to_set();
    names(all).lemma_cardinality_of_set();
    assert(r.to_set().subset_of(names(all).to_set())) by {
        assert forall|x: Seq<char>| r.to_set().contains(x) implies names(all).to_set().contains(x) by {
            let m = choose|m: int| 0 <= m < r.len() && r[m] == x;
            assert(names(all).contains(r[m]));
        }
    }
    vstd::set_lib::lemma_len_subset(r.to_set(), names(all).to_set());
}

/// Whether `t` lists `x` among its dependencies.
fn has_dependency(t: &AstSubTree, x: &String) -> (r: bool)
    ensures
        r == depends_on(*t, x@),
{
    let mut i: usize = 0;
    while i < t.dependencies.len()
        invariant
            i <= t.dependencies@.len(),
            forall|j: int| 0 <= j < i ==> (#[trigger] t.dependencies@[j])@ != x@,
        decreases t.dependencies@.len() - i,
    {
        if t.dependencies[i] == *x {
            proof {
                assert(views(t.dependencies@)[i as int] == x@);
            }
            return true;
        }
        i = i + 1;
    }
    proof {
        if views(t.dependencies@).contains(x@) {
            let j = choose|j: int| 0 <= j < views(t.dependencies@).len() && views(t.dependencies@)[j] == x@;
            assert(t.dependencies@[j]@ == x@);
        }
    }
    false
}

/// Whether `v` holds a string equal to `x`.
fn contains_string(v: &Vec<String>, x: &String) -> (r: bool)
    ensures
        r == views(v@).contains(x@),
{
    let mut i: usize = 0;
    while i < v.len()
        invariant
            i <= v@.len(),
            forall|j: int| 0 <= j < i ==> (#[trigger] v@[j])@ != x@,
        decreases v@.len() - i,
    {
        if v[i] == *x {
            proof {
                assert(views(v@)[i as int] == x@);
            }
            return true;
        }
        i = i + 1;
    }
    proof {
        if views(v@).contains(x@) {
            let j = choose|j: int| 0 <= j < views(v@).len() && views(v@)[j] == x@;
            assert(v@[j]@ == x@);
        }
    }
    false
}

/// Some entry of the symbol index is keyed `s`.
pub open spec fn is_indexed(idx: Seq<SymbolFiles>, s: Seq<char>) -> bool {
    exists|i: int| 0 <= i < idx.len() && (#[trigger] idx[i]).symbol@ == s
}

/// The files listed for symbol `s` (none when it is not indexed).
pub open spec fn files_of(idx: Seq<SymbolFiles>, s: Seq<char>) -> Seq<Seq<char>> {
    if is_indexed(idx, s) {
        views(idx[choose|i: int| 0 <= i < idx.len() && (#[trigger] idx[i]).symbol@ == s].files@)
    } else {
        Seq::empty()
    }
}

/// Symbol keys of the index are unique.
pub open spec fn index_keys_unique(idx: Seq<SymbolFiles>) -> bool {
    forall|i: int, j: int|
        0 <= i < idx.len() && 0 <= j < idx.len() && i != j ==> (#[trigger] idx[i]).symbol@ != (
        #[trigger] idx[j]).symbol@
}

/// How many sub-trees of `t` are named `s`.
pub open spec fn name_count(t: Seq<AstSubTree>, s: Seq<char>) -> nat {
    names(t).filter(|n: Seq<char>| n == s).len()
}

/// `path` repeated `n` times.
pub open spec fn repeated(path: Seq<char>, n: nat) -> Seq<Seq<char>> {
    Seq::new(n, |_i: int| path)
}

/// The files listed for symbol `s` once the sub-trees of `path` are replaced by `new`:
/// `path` drops out of the list of every symbol the old sub-trees named, then is listed
/// once per new sub-tree named `s`.
pub open spec fn files_after(
    idx: Seq<SymbolFiles>,
    old_trees: Option<Seq<AstSubTree>>,
    new: Seq<AstSubTree>,
    path: Seq<char>,
    s: Seq<char>,
) -> Seq<Seq<char>> {
    let base = match old_trees {
        Some(o) => if names(o).contains(s) {
            drop_path(files_of(idx, s), path)
        } else {
            files_of(idx, s)
        },
        None => files_of(idx, s),
    };
    base + repeated(path, name_count(new, s))
}

proof fn lemma_files_of_at(idx: Seq<SymbolFiles>, i: int)
    requires
        index_keys_unique(idx),
        0 <= i < idx.len(),
    ensures
        is_indexed(idx, idx[i].symbol@),
        files_of(idx, idx[i].symbol@) == views(idx[i].files@),
{
    let s = idx[i].symbol@;
    assert(is_indexed(idx, s));
    let j = choose|j: int| 0 <= j < idx.len() && (#[trigger] idx[j]).symbol@ == s;
    assert(j == i);
}

proof fn lemma_files_of_update(idx: Seq<SymbolFiles>, i: int, e: SymbolFiles)
    requires
        index_keys_unique(idx),
        0 <= i < idx.len(),
        idx[i].symbol@ == e.symbol@,
    ensures
        index_keys_unique(idx.update(i, e)),
        forall|s: Seq<char>|
            #[trigger] files_of(idx.update(i, e), s) == if s == e.symbol@ {
                views(e.files@)
            } else {
                files_of(idx, s)
            },
{
    let n = idx.update(i, e);
    assert forall|a: int, b: int| 0 <= a < n.len() && 0 <= b < n.len() && a != b implies (#[trigger] n[a]).symbol@ != (#[trigger] n[b]).symbol@ by {
        assert(n[a].symbol@ == idx[a].symbol@);
        assert(n[b].symbol@ == idx[b].symbol@);
    }
    lemma_files_of_at(n, i);
    assert forall|s: Seq<char>| s != e.symbol@ implies #[trigger] files_of(n, s) == files_of(idx, s) by {
        if is_indexed(idx, s) {
            let j = choose|j: int| 0 <= j < idx.len() && (#[trigger] idx[j]).symbol@ == s;
            assert(n[j] == idx[j]);
            lemma_files_of_at(idx, j);
            lemma_files_of_at(n, j);
        }
        if is_indexed(n, s) {
            let j = choose|j: int| 0 <= j < n.len() && (#[trigger] n[j]).symbol@ == s;
            assert(n[j] == idx[j]);
            assert(is_indexed(idx, s));
        }
    }
}

proof fn lemma_files_of_push(idx: Seq<SymbolFiles>, e: SymbolFiles)
    requires
        index_keys_unique(idx),
        !is_indexed(idx, e.symbol@),
    ensures
        index_keys_unique(idx.push(e)),
        forall|s: Seq<char>|
            #[trigger] files_of(idx.push(e), s) == if s == e.symbol@ {
                views(e.files@)
            } else {
                files_of(idx, s)
            },
{
    let n = idx.push(e);
    assert forall|a: int, b: int| 0 <= a < n.len() && 0 <= b < n.len() && a != b implies (#[trigger] n[a]).symbol@ != (#[trigger] n[b]).symbol@ by {
        if a == idx.len() {
            assert(n[b] == idx[b]);
        } else if b == idx.len() {
            assert(n[a] == idx[a]);
        } else {
            assert(n[a] == idx[a] && n[b] == idx[b]);
        }
    }
    lemma_files_of_at(n, idx.len() as int);
    assert forall|s: Seq<char>| s != e.symbol@ implies #[trigger] files_of(n, s) == files_of(idx, s) by {
        if is_indexed(idx, s) {
            let j = choose|j: int| 0 <= j < idx.len() && (#[trigger] idx[j]).symbol@ == s;
            assert(n[j] == idx[j]);
            lemma_files_of_at(idx, j);
            lemma_files_of_at(n, j);
        }
        if is_indexed(n, s) {
            let j = choose|j: int| 0 <= j < n.len() && (#[trigger] n[j]).symbol@ == s;
            assert(n[j] == idx[j]);
            assert(is_indexed(idx, s));
        }
    }
}

proof fn lemma_files_of_remove(idx: Seq<SymbolFiles>, i: int)
    requires
        index_keys_unique(idx),
        0 <= i < idx.len(),
    ensures
        index_keys_unique(idx.remove(i)),
        forall|s: Seq<char>|
            #[trigger] files_of(idx.remove(i), s) == if s == idx[i].symbol@ {
                Seq::<Seq<char>>::empty()
            } else {
                files_of(idx, s)
            },
{
    let n = idx.remove(i);
    assert forall|a: int, b: int| 0 <= a < n.len() && 0 <= b < n.len() && a != b implies (#[trigger] n[a]).symbol@ != (#[trigger] n[b]).symbol@ by {
        let a2 = if a < i { a } else { a + 1 };
        let b2 = if b < i { b } else { b + 1 };
        assert(n[a] == idx[a2] && n[b] == idx[b2]);
    }
    assert forall|s: Seq<char>| #[trigger] files_of(n, s) == if s == idx[i].symbol@ { Seq::<Seq<char>>::empty() } else { files_of(idx, s) } by {
        if s == idx[i].symbol@ {
            if is_indexed(n, s) {
                let j = choose|j: int| 0 <= j < n.len() && (#[trigger] n[j]).symbol@ == s;
                let j2 = if j < i { j } else { j + 1 };
                assert(n[j] == idx[j2]);
            }
        } else {
            if is_indexed(idx, s) {
                let j = choose|j: int| 0 <= j < idx.len() && (#[trigger] idx[j]).symbol@ == s;
                let j2 = if j < i { j } else { j - 1 };
                assert(n[j2] == idx[j]);
                lemma_files_of_at(idx, j);
                lemma_files_of_at(n, j2);
            }
            if is_indexed(n, s) {
                let j = choose|j: int| 0 <= j < n.len() && (#[trigger] n[j]).symbol@ == s;
                let j2 = if j < i { j } else { j + 1 };
                assert(n[j] == idx[j2]);
                assert(is_indexed(idx, s));
            }
        }
    }
}

/// Symbol `s` left out of the list `files` every entry equal to `path`.
fn without_path(files: &Vec<String>, path: &String) -> (r: Vec<String>)
    ensures
        views(r@) == drop_path(views(files@), path@),
{
    let mut r: Vec<String> = Vec::new();
    let mut i: usize = 0;
    while i < files.len()
        invariant
            i <= files@.len(),
            views(r@) == drop_path(views(files@).take(i as int), path@),
        decreases files@.len() - i,
    {
        proof {
            reveal_with_fuel(Seq::filter, 1);
            assert(views(files@).take(i + 1).drop_last() =~= views(files@).take(i as int));
        }
        if files[i] != *path {
            let ghost prev = r@;
            r.push(files[i].clone());
            proof {
                assert(views(r@) =~= views(prev).push(files@[i as int]@));
            }
        }
        i = i + 1;
    }
    proof {
        assert(views(files@).take(i as int) =~= views(files@));
    }
    r
}

/// The position of the index entry of `s`, if any.
fn find_symbol(idx: &Vec<SymbolFiles>, s: &String) -> (r: Option<usize>)
    ensures
        match r {
            Some(i) => i < idx@.len() && idx@[i as int].symbol@ == s@,
            None => !is_indexed(idx@, s@),
        },
{
    let mut i: usize = 0;
    while i < idx.len()
        invariant
            i <= idx@.len(),
            forall|j: int| 0 <= j < i ==> (#[trigger] idx@[j]).symbol@ != s@,
        decreases idx@.len() - i,
    {
        if idx[i].symbol == *s {
            return Some(i);
        }
        i = i + 1;
    }
    None
}

/// `s` without the entries equal to `p`.
pub open spec fn drop_path(s: Seq<Seq<char>>, p: Seq<char>) -> Seq<Seq<char>> {
    s.filter(|f: Seq<char>| f != p)
}

proof fn lemma_drop_path_idempotent(s: Seq<Seq<char>>, p: Seq<char>)
    ensures
        drop_path(drop_path(s, p), p) == drop_path(s, p),
    decreases s.len(),
{
    reveal_with_fuel(Seq::filter, 1);
    if s.len() > 0 {
        lemma_drop_path_idempotent(s.drop_last(), p);
        let a = drop_path(s.drop_last(), p);
        if s.last() != p {
            assert(drop_path(s, p) == a.push(s.last()));
            assert(a.push(s.last()).drop_last() =~= a);
        }
    }
}

/// Drops `path` from the file list of every symbol named in `old`; a symbol left without
/// files leaves the index.
fn drop_path_from_index(idx: &mut Vec<SymbolFiles>, prior: &Vec<AstSubTree>, path: &String)
    requires
        index_keys_unique(old(idx)@),
        forall|i: int| 0 <= i < old(idx)@.len() ==> (#[trigger] old(idx)@[i]).files@.len() > 0,
    ensures
        index_keys_unique(final(idx)@),
        forall|i: int| 0 <= i < final(idx)@.len() ==> (#[trigger] final(idx)@[i]).files@.len() > 0,
        forall|s: Seq<char>|
            #[trigger] files_of(final(idx)@, s) == if names(prior@).contains(s) {
                drop_path(files_of(old(idx)@, s), path@)
            } else {
                files_of(old(idx)@, s)
            },
{
    let ghost i0 = idx@;
    let mut k: usize = 0;
    while k < prior.len()
        invariant
            k <= prior@.len(),
            index_keys_unique(idx@),
            forall|i: int| 0 <= i < idx@.len() ==> (#[trigger] idx@[i]).files@.len() > 0,
            forall|s: Seq<char>|
                #[trigger] files_of(idx@, s) == if names(prior@.take(k as int)).contains(s) {
                    drop_path(files_of(i0, s), path@)
                } else {
                    files_of(i0, s)
                },
        decreases prior@.len() - k,
    {
        let name = &prior[k].symbol_name;
        let ghost before = idx@;
        proof {
            assert(names(prior@.take(k + 1)) =~= names(prior@.take(k as int)).push(name@));
            assert forall|s: Seq<char>| names(prior@.take(k + 1)).contains(s) <==> (names(prior@.take(k as int)).contains(s) || s == name@) by {
                if names(prior@.take(k + 1)).contains(s) {
                    let z = choose|z: int| 0 <= z < names(prior@.take(k + 1)).len() && #[trigger] names(prior@.take(k + 1))[z] == s;
                    if z < k {
                        assert(names(prior@.take(k as int))[z] == s);
                    }
                }
                if names(prior@.take(k as int)).contains(s) {
                    let z = choose|z: int| 0 <= z < names(prior@.take(k as int)).len() && #[trigger] names(prior@.take(k as int))[z] == s;
                    assert(names(prior@.take(k + 1))[z] == s);
                }
                if s == name@ {
                    assert(names(prior@.take(k + 1))[k as int] == s);
                }
            }
            lemma_drop_path_idempotent(files_of(i0, name@), path@);
        }
        match find_symbol(idx, name) {
            None => {
                proof {
                    assert(files_of(idx@, name@) =~= Seq::<Seq<char>>::empty());
                    if !names(prior@.take(k as int)).contains(name@) {
                        assert(files_of(i0, name@) =~= Seq::<Seq<char>>::empty());
                    }
                }
            },
            Some(si) => {
                let kept = without_path(&idx[si].files, path);
                proof {
                    lemma_files_of_at(idx@, si as int);
                    let ff = files_of(i0, name@);
                    assert(views(kept@) == drop_path(files_of(before, name@), path@));
                    if names(prior@.take(k as int)).contains(name@) {
                        assert(files_of(before, name@) == drop_path(ff, path@));
                    } else {
                        assert(files_of(before, name@) == ff);
                    }
                    assert(views(kept@) == drop_path(ff, path@));
                }
                if kept.len() == 0 {
                    idx.remove(si);
                    proof {
                        lemma_files_of_remove(before, si as int);
                        assert forall|i: int| 0 <= i < idx@.len() implies (#[trigger] idx@[i]).files@.len() > 0 by {
                            let i2 = if i < si { i } else { i + 1 };
                            assert(idx@[i] == before[i2]);
                        }
                        assert(views(kept@).len() == 0);
                        assert(files_of(idx@, name@) =~= drop_path(files_of(i0, name@), path@));
                    }
                } else {
                    let e = SymbolFiles { symbol: name.clone(), files: kept };
                    idx.set(si, e);
                    proof {
                        lemma_files_of_update(before, si as int, e);
                        assert forall|i: int| 0 <= i < idx@.len() implies (#[trigger] idx@[i]).files@.len() > 0 by {
                            if i != si {
                                assert(idx@[i] == before[i]);
                            }
                        }
                    }
                }
            },
        }
        k = k + 1;
    }
    proof {
        assert(prior@.take(k as int) =~= prior@);
    }
}

/// Lists `path` once more for the symbol of each sub-tree of `new`.
fn add_path_to_index(idx: &mut Vec<SymbolFiles>, new: &Vec<AstSubTree>, path: &String)
    requires
        index_keys_unique(old(idx)@),
        forall|i: int| 0 <= i < old(idx)@.len() ==> (#[trigger] old(idx)@[i]).files@.len() > 0,
    ensures
        index_keys_unique(final(idx)@),
        forall|i: int| 0 <= i < final(idx)@.len() ==> (#[trigger] final(idx)@[i]).files@.len() > 0,
        forall|s: Seq<char>|
            #[trigger] files_of(final(idx)@, s) == files_of(old(idx)@, s) + repeated(path@, name_count(new@, s)),
{
    let ghost i0 = idx@;
    let mut k: usize = 0;
    proof {
        assert forall|s: Seq<char>| #[trigger] files_of(idx@, s) == files_of(i0, s) + repeated(path@, name_count(new@.take(0), s)) by {
            assert(names(new@.take(0)) =~= Seq::<Seq<char>>::empty());
            assert(names(new@.take(0)).filter(|n: Seq<char>| n == s) =~= Seq::<Seq<char>>::empty());
            assert(files_of(i0, s) + repeated(path@, 0) =~= files_of(i0, s));
        }
    }
    while k < new.len()
        invariant
            k <= new@.len(),
            index_keys_unique(idx@),
            forall|i: int| 0 <= i < idx@.len() ==> (#[trigger] idx@[i]).files@.len() > 0,
            forall|s: Seq<char>|
                #[trigger] files_of(idx@, s) == files_of(i0, s) + repeated(path@, name_count(new@.take(k as int), s)),
        decreases new@.len() - k,
    {
        let name = &new[k].symbol_name;
        let ghost before = idx@;
        proof {
            reveal_with_fuel(Seq::filter, 1);
            assert(names(new@.take(k + 1)) =~= names(new@.take(k as int)).push(name@));
            assert(names(new@.take(k + 1)).drop_last() =~= names(new@.take(k as int)));
            assert forall|s: Seq<char>| name_count(new@.take(k + 1), s) == name_count(new@.take(k as int), s) + if s == name@ { 1nat } else { 0nat } by {
            }
        }
        match find_symbol(idx, name) {
            None => {
                proof {
                    assert(files_of(before, name@).len() == 0);
                }
                let mut files: Vec<String> = Vec::new();
                files.push(path.clone());
                let e = SymbolFiles { symbol: name.clone(), files };
                idx.push(e);
                proof {
                    lemma_files_of_push(before, e);
                    assert forall|s: Seq<char>| #[trigger] files_of(idx@, s) == files_of(i0, s) + repeated(path@, name_count(new@.take(k + 1), s)) by {
                        if s == name@ {
                            assert(views(e.files@) =~= seq![path@]);
                            let c = name_count(new@.take(k as int), s);
                            assert(files_of(i0, s) + repeated(path@, c) == files_of(before, s));
                            assert(c == 0) by {
                                if c > 0 {
                                    assert((files_of(i0, s) + repeated(path@, c)).len() > 0);
                                }
                            }
                            assert(files_of(i0, s).len() == 0);
                            assert(files_of(i0, s) + repeated(path@, 1) =~= seq![path@]);
                        }
                    }
                    assert forall|i: int| 0 <= i < idx@.len() implies (#[trigger] idx@[i]).files@.len() > 0 by {
                        if i < before.len() {
                            assert(idx@[i] == before[i]);
                        }
                    }
                }
            },
            Some(si) => {
                let mut files = idx[si].files.clone();
                proof {
                    assert(files@ =~= idx@[si as int].files@);
                    lemma_files_of_at(idx@, si as int);
                }
                let ghost fprev = files@;
                files.push(path.clone());
                let e = SymbolFiles { symbol: name.clone(), files };
                idx.set(si, e);
                proof {
                    lemma_files_of_update(before, si as int, e);
                    assert(views(e.files@) =~= views(fprev).push(path@));
                    assert forall|s: Seq<char>| #[trigger] files_of(idx@, s) == files_of(i0, s) + repeated(path@, name_count(new@.take(k + 1), s)) by {
                        if s == name@ {
                            let c = name_count(new@.take(k as int), s);
                            assert(repeated(path@, c + 1) =~= repeated(path@, c).push(path@));
                            assert(files_of(i0, s) + repeated(path@, c).push(path@) =~= (files_of(i0, s) + repeated(path@, c)).push(path@));
                        }
                    }
                    assert forall|i: int| 0 <= i < idx@.len() implies (#[trigger] idx@[i]).files@.len() > 0 by {
                        if i != si {
                            assert(idx@[i] == before[i]);
                        }
                    }
                }
            },
        }
        k = k + 1;
    }
    proof {
        assert(new@.take(k as int) =~= new@);
    }
}

/// Some counters are kept for language key `k`.
pub open spec fn has_stats(s: Seq<LanguageStatsEntry>, k: Seq<char>) -> bool {
    exists|i: int| 0 <= i < s.len() && (#[trigger] s[i]).language@ == k
}

/// The counters of language key `k` (all zero when none are kept).
pub open spec fn stats_of(s: Seq<LanguageStatsEntry>, k: Seq<char>) -> LanguageStats {
    if has_stats(s, k) {
        s[choose|i: int| 0 <= i < s.len() && (#[trigger] s[i]).language@ == k].stats
    } else {
        LanguageStats { file_count: 0, symbol_count: 0, total_bytes: 0, cached_symbols: 0 }
    }
}

/// The total length of the byte ranges of `t`.
pub open spec fn span_sum(t: Seq<AstSubTree>) -> int
    decreases t.len(),
{
    if t.len() == 0 {
        0
    } else {
        span_sum(t.drop_last()) + (t.last().byte_range.1 - t.last().byte_range.0)
    }
}

/// The key under which a language's counters are kept: its name.
pub open spec fn language_name(l: Language) -> Seq<char> {
    match l {
        Language::Rust => "Rust"@,
        Language::TypeScript => "TypeScript"@,
        Language::JavaScript => "JavaScript"@,
        Language::Python => "Python"@,
        Language::Go => "Go"@,
        Language::C => "C"@,
        Language::Cpp => "Cpp"@,
        Language::Java => "Java"@,
        Language::Swift => "Swift"@,
        Language::Dart => "Dart"@,
        Language::Zig => "Zig"@,
        Language::DotNet => "DotNet"@,
    }
}

impl Language {
    /// The language's name.
    pub fn name(&self) -> (r: String)
        ensures
            r@ == language_name(*self),
    {
        match self {
            Language::Rust => "Rust".to_string(),
            Language::TypeScript => "TypeScript".to_string(),
            Language::JavaScript => "JavaScript".to_string(),
            Language::Python => "Python".to_string(),
            Language::Go => "Go".to_string(),
            Language::C => "C".to_string(),
            Language::Cpp => "Cpp".to_string(),
            Language::Java => "Java".to_string(),
            Language::Swift => "Swift".to_string(),
            Language::Dart => "Dart".to_string(),
            Language::Zig => "Zig".to_string(),
            Language::DotNet => "DotNet".to_string(),
        }
    }
}

/// Every sub-tree's byte range ends no earlier than it starts.
pub open spec fn ranges_ordered(t: Seq<AstSubTree>) -> bool {
    forall|i: int| 0 <= i < t.len() ==> (#[trigger] t[i]).byte_range.0 <= t[i].byte_range.1
}

proof fn lemma_span_sum_nonneg(t: Seq<AstSubTree>)
    requires
        ranges_ordered(t),
    ensures
        span_sum(t) >= 0,
        forall|k: int| 0 <= k <= t.len() ==> span_sum(#[trigger] t.take(k)) <= span_sum(t),
    decreases t.len(),
{
    if t.len() > 0 {
        assert(ranges_ordered(t.drop_last())) by {
            assert forall|i: int| 0 <= i < t.drop_last().len() implies (#[trigger] t.drop_last()[i]).byte_range.0 <= t.drop_last()[i].byte_range.1 by {
                assert(t.drop_last()[i] == t[i]);
            }
        }
        lemma_span_sum_nonneg(t.drop_last());
        assert(t.last() == t[t.len() - 1]);
        assert forall|k: int| 0 <= k <= t.len() implies span_sum(#[trigger] t.take(k)) <= span_sum(t) by {
            if k == t.len() {
                assert(t.take(k) =~= t);
            } else {
                assert(t.take(k) =~= t.drop_last().take(k));
            }
        }
    }
}

/// Adds one file holding `new` to the counters of `new`'s first language.
fn update_stats(stats: &mut Vec<LanguageStatsEntry>, new: &Vec<AstSubTree>)
    requires
        forall|i: int, j: int|
            0 <= i < old(stats)@.len() && 0 <= j < old(stats)@.len() && i != j ==> (#[trigger] old(stats)@[i]).language@ != (
            #[trigger] old(stats)@[j]).language@,
        new@.len() > 0,
        ranges_ordered(new@),
        ({
            let st = stats_of(old(stats)@, language_name(new@[0].language));
            &&& st.file_count < usize::MAX
            &&& st.symbol_count + new@.len() <= usize::MAX
            &&& st.total_bytes + span_sum(new@) <= usize::MAX
        }),
    ensures
        forall|i: int, j: int|
            0 <= i < final(stats)@.len() && 0 <= j < final(stats)@.len() && i != j ==> (#[trigger] final(stats)@[i]).language@ != (
            #[trigger] final(stats)@[j]).language@,
        ({
            let k = language_name(new@[0].language);
            let o = stats_of(old(stats)@, k);
            &&& has_stats(final(stats)@, k)
            &&& stats_of(final(stats)@, k) == LanguageStats {
                file_count: (o.file_count + 1) as usize,
                symbol_count: (o.symbol_count + new@.len()) as usize,
                total_bytes: (o.total_bytes + span_sum(new@)) as usize,
                cached_symbols: o.cached_symbols,
            }
            &&& forall|k2: Seq<char>|
                k2 != k ==> (has_stats(final(stats)@, k2) == has_stats(old(stats)@, k2) && stats_of(final(stats)@, k2)
                    == stats_of(old(stats)@, k2))
        }),
{
    let ghost s0 = stats@;
    let key = new[0].language.name();
    let mut pos: Option<usize> = None;
    let mut i: usize = 0;
    while i < stats.len()
        invariant
            i <= stats@.len(),
            pos matches Some(p) ==> p < i && stats@[p as int].language@ == key@,
            pos is None ==> forall|j: int| 0 <= j < i ==> (#[trigger] stats@[j]).language@ != key@,
        decreases stats@.len() - i,
    {
        if stats[i].language == key {
            pos = Some(i);
        }
        i = i + 1;
    }
    let base = match pos {
        Some(p) => stats[p].stats.clone(),
        None => LanguageStats { file_count: 0, symbol_count: 0, total_bytes: 0, cached_symbols: 0 },
    };
    proof {
        match pos {
            Some(p) => {
                assert(has_stats(s0, key@));
                let c = choose|c: int| 0 <= c < s0.len() && (#[trigger] s0[c]).language@ == key@;
                assert(c == p);
            },
            None => {},
        }
        assert(base == stats_of(s0, key@));
        lemma_span_sum_nonneg(new@);
    }
    let mut bytes: usize = 0;
    let mut j: usize = 0;
    while j < new.len()
        invariant
            j <= new@.len(),
            ranges_ordered(new@),
            bytes == span_sum(new@.take(j as int)),
            base.total_bytes + span_sum(new@) <= usize::MAX,
            forall|k: int| 0 <= k <= new@.len() ==> span_sum(#[trigger] new@.take(k)) <= span_sum(new@),
            span_sum(new@) >= 0,
        decreases new@.len() - j,
    {
        proof {
            assert(new@.take(j + 1).drop_last() =~= new@.take(j as int));
            assert(new@.take(j + 1).last() == new@[j as int]);
            assert(span_sum(new@.take(j + 1)) <= span_sum(new@));
            assert(new@[j as int].byte_range.0 <= new@[j as int].byte_range.1);
        }
        bytes = bytes + (new[j].byte_range.1 - new[j].byte_range.0);
        j = j + 1;
    }
    proof {
        assert(new@.take(j as int) =~= new@);
    }
    let updated = LanguageStats {
        file_count: base.file_count + 1,
        symbol_count: base.symbol_count + new.len(),
        total_bytes: base.total_bytes + bytes,
        cached_symbols: base.cached_symbols,
    };
    let e = LanguageStatsEntry { language: key, stats: updated };
    let ghost k = language_name(new@[0].language);
    match pos {
        Some(p) => {
            stats.set(p, e);
            proof {
                let n = stats@;
                assert forall|a: int, b: int| 0 <= a < n.len() && 0 <= b < n.len() && a != b implies (#[trigger] n[a]).language@ != (#[trigger] n[b]).language@ by {
                    assert(n[a].language@ == s0[a].language@ && n[b].language@ == s0[b].language@);
                }
                assert(n[p as int].language@ == k);
                assert(has_stats(n, k));
                let c = choose|c: int| 0 <= c < n.len() && (#[trigger] n[c]).language@ == k;
                assert(c == p);
                assert forall|k2: Seq<char>| k2 != k implies (has_stats(n, k2) == has_stats(s0, k2) && stats_of(n, k2) == stats_of(s0, k2)) by {
                    if has_stats(s0, k2) {
                        let c0 = choose|c0: int| 0 <= c0 < s0.len() && (#[trigger] s0[c0]).language@ == k2;
                        assert(n[c0] == s0[c0]);
                        assert(has_stats(n, k2));
                        let c1 = choose|c1: int| 0 <= c1 < n.len() && (#[trigger] n[c1]).language@ == k2;
                        assert(c1 == c0);
                    }
                    if has_stats(n, k2) {
                        let c1 = choose|c1: int| 0 <= c1 < n.len() && (#[trigger] n[c1]).language@ == k2;
                        assert(n[c1] == s0[c1]);
                        assert(has_stats(s0, k2));
                    }
                }
            }
        },
        None => {
            stats.push(e);
            proof {
                let n = stats@;
                assert forall|a: int, b: int| 0 <= a < n.len() && 0 <= b < n.len() && a != b implies (#[trigger] n[a]).language@ != (#[trigger] n[b]).language@ by {
                    if a == s0.len() {
                        assert(n[b] == s0[b]);
                    } else if b == s0.len() {
                        assert(n[a] == s0[a]);
                    } else {
                        assert(n[a] == s0[a] && n[b] == s0[b]);
                    }
                }
                assert(n[s0.len() as int].language@ == k);
                assert(has_stats(n, k));
                let c = choose|c: int| 0 <= c < n.len() && (#[trigger] n[c]).language@ == k;
                assert(c == s0.len());
                assert forall|k2: Seq<char>| k2 != k implies (has_stats(n, k2) == has_stats(s0, k2) && stats_of(n, k2) == stats_of(s0, k2)) by {
                    if has_stats(s0, k2) {
                        let c0 = choose|c0: int| 0 <= c0 < s0.len() && (#[trigger] s0[c0]).language@ == k2;
                        assert(n[c0] == s0[c0]);
                        assert(has_stats(n, k2));
                        let c1 = choose|c1: int| 0 <= c1 < n.len() && (#[trigger] n[c1]).language@ == k2;
                        assert(c1 == c0);
                    }
                    if has_stats(n, k2) {
                        let c1 = choose|c1: int| 0 <= c1 < n.len() && (#[trigger] n[c1]).language@ == k2;
                        assert(c1 != s0.len());
                        assert(n[c1] == s0[c1]);
                        assert(has_stats(s0, k2));
                    }
                }
            }
        },
    }
}

/// Index of cached sub-trees: per file, per symbol and per language.
pub struct AstCacheIndex {
    pub file_trees: Vec<FileSubtrees>,
    pub symbol_index: Vec<SymbolFiles>,
    pub language_stats: Vec<LanguageStatsEntry>,
}

impl AstCacheIndex {
    /// Files, symbols and languages are each keyed uniquely, and every indexed symbol
    /// lists at least one file.
    pub open spec fn wf(self) -> bool {
        &&& forall|i: int, j: int|
            0 <= i < self.file_trees@.len() && 0 <= j < self.file_trees@.len() && i != j ==> (
            #[trigger] self.file_trees@[i]).path@ != (#[trigger] self.file_trees@[j]).path@
        &&& forall|i: int, j: int|
            0 <= i < self.symbol_index@.len() && 0 <= j < self.symbol_index@.len() && i != j ==> (
            #[trigger] self.symbol_index@[i]).symbol@ != (#[trigger] self.symbol_index@[j]).symbol@
        &&& forall|i: int|
            0 <= i < self.symbol_index@.len() ==> (#[trigger] self.symbol_index@[i]).files@.len() > 0
        &&& forall|i: int, j: int|
            0 <= i < self.language_stats@.len() && 0 <= j < self.language_stats@.len() && i != j
                ==> (#[trigger] self.language_stats@[i]).language@ != (
            #[trigger] self.language_stats@[j]).language@
    }

    pub fn new() -> (r: Self)
        ensures
            r.wf(),
            r.file_trees@.len() == 0,
            r.symbol_index@.len() == 0,
            r.language_stats@.len() == 0,
    {
        AstCacheIndex { file_trees: Vec::new(), symbol_index: Vec::new(), language_stats: Vec::new() }
    }

    /// The position of the record of `path`, if any.
    fn find_file(&self, path: &String) -> (r: Option<usize>)
        requires
            self.wf(),
        ensures
            match r {
                Some(i) => i < self.file_trees@.len() && self.file_trees@[i as int].path@ == path@ && i
                    == file_position(self.file_trees@, path@),
                None => !has_file(self.file_trees@, path@),
            },
    {
        let mut i: usize = 0;
        while i < self.file_trees.len()
            invariant
                i <= self.file_trees@.len(),
                forall|j: int| 0 <= j < i ==> (#[trigger] self.file_trees@[j]).path@ != path@,
            decreases self.file_trees@.len() - i,
        {
            if self.file_trees[i].path == *path {
                proof {
                    assert(has_file(self.file_trees@, path@));
                    let j = file_position(self.file_trees@, path@);
                    assert(self.file_trees@[j].path@ == path@);
                }
                return Some(i);
            }
            i = i + 1;
        }
        None
    }

    /// The symbols of `file_path` that changed: new or re-hashed symbols of
    /// `new_subtrees`, then recorded symbols missing from it; every symbol of
    /// `new_subtrees` when nothing is recorded for the file.
    pub fn compute_changed_symbols(&self, file_path: &str, new_subtrees: &[AstSubTree]) -> (r: Vec<String>)
        requires
            self.wf(),
        ensures
            views(r@) == changed_symbols(trees_of(self.file_trees@, file_path@), new_subtrees@),
    {
        let path = file_path.to_string();
        let mut changed: Vec<String> = Vec::new();
        match self.find_file(&path) {
            None => {
                let mut i: usize = 0;
                while i < new_subtrees.len()
                    invariant
                        i <= new_subtrees@.len(),
                        views(changed@) == names(new_subtrees@.take(i as int)),
                    decreases new_subtrees@.len() - i,
                {
                    let ghost prev = changed@;
                    changed.push(new_subtrees[i].symbol_name.clone());
                    proof {
                        assert(changed@ == prev.push(changed@[i as int]));
                        assert(names(new_subtrees@.take(i + 1)) =~= names(new_subtrees@.take(i as int)).push(new_subtrees@[i as int].symbol_name@));
                        assert(views(changed@) =~= views(prev).push(changed@[i as int]@));
                    }
                    i = i + 1;
                }
                proof {
                    assert(new_subtrees@.take(i as int) =~= new_subtrees@);
                }
            },
            Some(fi) => {
                let old = &self.file_trees[fi].subtrees;
                let ghost o = old@;
                let mut i: usize = 0;
                while i < new_subtrees.len()
                    invariant
                        i <= new_subtrees@.len(),
                        o == old@,
                        views(changed@) == names(
                            new_subtrees@.take(i as int).filter(|t: AstSubTree| !is_unchanged(o, t)),
                        ),
                    decreases new_subtrees@.len() - i,
                {
                    proof {
                        reveal_with_fuel(Seq::filter, 1);
                        assert(new_subtrees@.take(i + 1).drop_last() =~= new_subtrees@.take(i as int));
                    }
                    let t = &new_subtrees[i];
                    let same = match find_last_hash(old, &t.symbol_name) {
                        Some(h) => *h == t.content_hash,
                        None => false,
                    };
                    if !same {
                        let ghost prev = changed@;
                        changed.push(t.symbol_name.clone());
                        proof {
                            assert(views(changed@) =~= views(prev).push(t.symbol_name@));
                            assert(!is_unchanged(o, new_subtrees@[i as int]));
                            assert(views(changed@) =~= names(
                                new_subtrees@.take(i + 1).filter(|t: AstSubTree| !is_unchanged(o, t)),
                            ));
                        }
                    }
                    i = i + 1;
                }
                proof {
                    assert(new_subtrees@.take(i as int) =~= new_subtrees@);
                }
                let ghost first = views(changed@);
                let mut k: usize = 0;
                while k < old.len()
                    invariant
                        k <= o.len(),
                        o == old@,
                        views(changed@) == first + names(
                            o.take(k as int).filter(|t: AstSubTree| !names(new_subtrees@).contains(t.symbol_name@)),
                        ),
                    decreases o.len() - k,
                {
                    proof {
                        reveal_with_fuel(Seq::filter, 1);
                        assert(o.take(k + 1).drop_last() =~= o.take(k as int));
                    }
                    let present = has_name(new_subtrees, &old[k].symbol_name);
                    if !present {
                        let ghost prev = changed@;
                        changed.push(old[k].symbol_name.clone());
                        proof {
                            assert(views(changed@) =~= views(prev).push(old[k as int].symbol_name@));
                            assert(views(changed@) =~= first + names(
                                o.take(k + 1).filter(|t: AstSubTree| !names(new_subtrees@).contains(t.symbol_name@)),
                            ));
                        }
                    }
                    k = k + 1;
                }
                proof {
                    assert(o.take(k as int) =~= o);
                    assert(trees_of(self.file_trees@, file_path@) == Some(o));
                }
            },
        }
        changed
    }

    /// Adds to `impacted`, and queues, the symbol of every recorded sub-tree that depends
    /// on `x` and is not impacted yet.
    fn scan_dependents(
        &self,
        x: &String,
        impacted: &mut Vec<String>,
        queue: &mut Vec<String>,
        Ghost(changed): Ghost<Seq<Seq<char>>>,
    )
        requires
            changed.contains(x@) || views(old(impacted)@).contains(x@),
            views(old(impacted)@).no_duplicates(),
            forall|m: int|
                0 <= m < old(impacted)@.len() ==> is_impacted(
                    all_subtrees(self.file_trees@),
                    changed,
                    #[trigger] views(old(impacted)@)[m],
                ),
            forall|m: int|
                0 <= m < old(impacted)@.len() ==> names(all_subtrees(self.file_trees@)).contains(
                    #[trigger] views(old(impacted)@)[m],
                ),
        ensures
            ({
                let added = views(final(impacted)@).skip(old(impacted)@.len() as int);
                &&& views(final(impacted)@) == views(old(impacted)@) + added
                &&& views(final(queue)@) == views(old(queue)@) + added
            }),
            views(final(impacted)@).no_duplicates(),
            forall|m: int|
                0 <= m < final(impacted)@.len() ==> is_impacted(
                    all_subtrees(self.file_trees@),
                    changed,
                    #[trigger] views(final(impacted)@)[m],
                ),
            forall|m: int|
                0 <= m < final(impacted)@.len() ==> names(all_subtrees(self.file_trees@)).contains(
                    #[trigger] views(final(impacted)@)[m],
                ),
            forall|t: AstSubTree|
                all_subtrees(self.file_trees@).contains(t) && #[trigger] depends_on(t, x@) ==> views(
                    final(impacted)@,
                ).contains(t.symbol_name@),
    {
        let ghost all = all_subtrees(self.file_trees@);
        let ghost files = self.file_trees@;
        let ghost i0 = views(impacted@);
        let ghost q0 = views(queue@);
        let mut fi: usize = 0;
        while fi < self.file_trees.len()
            invariant
                fi <= files.len(),
                files == self.file_trees@,
                all == all_subtrees(files),
                changed.contains(x@) || views(impacted@).contains(x@),
                views(impacted@).len() >= i0.len(),
                views(impacted@).take(i0.len() as int) == i0,
                views(queue@) == q0 + views(impacted@).skip(i0.len() as int),
                views(impacted@).no_duplicates(),
                forall|m: int| 0 <= m < impacted@.len() ==> is_impacted(all, changed, #[trigger] views(impacted@)[m]),
                forall|m: int| 0 <= m < impacted@.len() ==> names(all).contains(#[trigger] views(impacted@)[m]),
                forall|j: int|
                    0 <= j < all_subtrees(files.take(fi as int)).len() && #[trigger] depends_on(
                        all_subtrees(files.take(fi as int))[j],
                        x@,
                    ) ==> views(impacted@).contains(all_subtrees(files.take(fi as int))[j].symbol_name@),
            decreases files.len() - fi,
        {
            let subs = &self.file_trees[fi].subtrees;
            let ghost pre = all_subtrees(files.take(fi as int));
            proof {
                assert(files.take(fi + 1).drop_last() =~= files.take(fi as int));
                assert(all_subtrees(files.take(fi + 1)) == pre + subs@);
                assert(files =~= files.take(fi + 1) + files.skip(fi + 1));
                lemma_all_subtrees_add(files.take(fi + 1), files.skip(fi + 1));
            }
            let mut si: usize = 0;
            while si < subs.len()
                invariant
                    si <= subs@.len(),
                    fi < files.len(),
                    files == self.file_trees@,
                    all == all_subtrees(files),
                    *subs == files[fi as int].subtrees,
                    pre == all_subtrees(files.take(fi as int)),
                    all == pre + subs@ + all_subtrees(files.skip(fi + 1)),
                    changed.contains(x@) || views(impacted@).contains(x@),
                    views(impacted@).len() >= i0.len(),
                    views(impacted@).take(i0.len() as int) == i0,
                    views(queue@) == q0 + views(impacted@).skip(i0.len() as int),
                    views(impacted@).no_duplicates(),
                    forall|m: int| 0 <= m < impacted@.len() ==> is_impacted(all, changed, #[trigger] views(impacted@)[m]),
                    forall|m: int| 0 <= m < impacted@.len() ==> names(all).contains(#[trigger] views(impacted@)[m]),
                    forall|j: int|
                        0 <= j < pre.len() && #[trigger] depends_on(pre[j], x@) ==> views(impacted@).contains(pre[j].symbol_name@),
                    forall|j: int|
                        0 <= j < si && #[trigger] depends_on(subs@[j], x@) ==> views(impacted@).contains(subs@[j].symbol_name@),
                decreases subs@.len() - si,
            {
                let t = &subs[si];
                let ghost pos = pre.len() + si;
                let ghost vstart = views(impacted@);
                proof {
                    assert(all[pos] == subs@[si as int]);
                    assert(all.contains(*t));
                    assert(names(all)[pos] == t.symbol_name@);
                }
                if has_dependency(t, x) {
                    if !contains_string(impacted, &t.symbol_name) {
                        let ghost vi = views(impacted@);
                        let ghost vq = views(queue@);
                        proof {
                            // a chain reaching `t` through `x`
                            if changed.contains(x@) {
                                let path = seq![*t];
                                assert(depends_on(path[0], x@));
                                assert(is_impact_chain(all, changed, path));
                            } else {
                                let m = choose|m: int| 0 <= m < vi.len() && vi[m] == x@;
                                assert(is_impacted(all, changed, vi[m]));
                                let path = choose|path: Seq<AstSubTree>| #[trigger] is_impact_chain(all, changed, path) && path.last().symbol_name@ == x@;
                                let path2 = path.push(*t);
                                assert(path2[0] == path[0]);
                                assert forall|k: int| 0 <= k < path2.len() implies all.contains(#[trigger] path2[k]) by {
                                    if k < path.len() {
                                        assert(path2[k] == path[k]);
                                    }
                                }
                                assert forall|k: int| 0 <= k < path2.len() - 1 implies #[trigger] depends_on(path2[k + 1], path2[k].symbol_name@) by {
                                    if k < path.len() - 1 {
                                        assert(path2[k + 1] == path[k + 1] && path2[k] == path[k]);
                                    } else {
                                        assert(path2[k + 1] == *t);
                                        assert(path2[k] == path.last());
                                    }
                                }
                                let c = choose|c: Seq<char>| changed.contains(c) && #[trigger] depends_on(path[0], c);
                                assert(depends_on(path2[0], c));
                                assert(is_impact_chain(all, changed, path2));
                                assert(path2.last().symbol_name@ == t.symbol_name@);
                            }
                        }
                        impacted.push(t.symbol_name.clone());
                        queue.push(t.symbol_name.clone());
                        proof {
                            assert(views(impacted@) =~= vi.push(t.symbol_name@));
                            assert(views(queue@) =~= vq.push(t.symbol_name@));
                            assert(views(impacted@).take(i0.len() as int) =~= vi.take(i0.len() as int));
                            assert(views(impacted@).skip(i0.len() as int) =~= vi.skip(i0.len() as int).push(t.symbol_name@));
                            assert forall|a: int, b: int| 0 <= a < views(impacted@).len() && 0 <= b < views(impacted@).len() && a != b implies views(impacted@)[a] != views(impacted@)[b] by {
                                if a == vi.len() {
                                    assert(vi.contains(vi[b]));
                                } else if b == vi.len() {
                                    assert(vi.contains(vi[a]));
                                }
                            }
                            assert forall|m: int| 0 <= m < impacted@.len() implies is_impacted(all, changed, #[trigger] views(impacted@)[m]) by {
                                if m < vi.len() {
                                    assert(views(impacted@)[m] == vi[m]);
                                }
                            }
                            assert forall|m: int| 0 <= m < impacted@.len() implies names(all).contains(#[trigger] views(impacted@)[m]) by {
                                if m < vi.len() {
                                    assert(views(impacted@)[m] == vi[m]);
                                } else {
                                    assert(names(all)[pos] == views(impacted@)[m]);
                                }
                            }
                        }
                    }
                }
                proof {
                    assert forall|y: Seq<char>| vstart.contains(y) implies views(impacted@).contains(y) by {
                        let z = choose|z: int| 0 <= z < vstart.len() && vstart[z] == y;
                        assert(views(impacted@)[z] == vstart[z]);
                    }
                    assert forall|j: int| 0 <= j < si + 1 && #[trigger] depends_on(subs@[j], x@) implies views(impacted@).contains(subs@[j].symbol_name@) by {
                        if j == si {
                            if vstart.contains(t.symbol_name@) {
                            } else {
                                assert(views(impacted@)[views(impacted@).len() - 1] == t.symbol_name@);
                            }
                        } else {
                            assert(vstart.contains(subs@[j].symbol_name@));
                        }
                    }
                    assert forall|j: int| 0 <= j < pre.len() && #[trigger] depends_on(pre[j], x@) implies views(impacted@).contains(pre[j].symbol_name@) by {
                        assert(vstart.contains(pre[j].symbol_name@));
                    }
                    assert(changed.contains(x@) || views(impacted@).contains(x@)) by {
                        if !changed.contains(x@) {
                            assert(vstart.contains(x@));
                        }
                    }
                }
                si = si + 1;
            }
            proof {
                assert(subs@.take(si as int) =~= subs@);
                let pre2 = all_subtrees(files.take(fi + 1));
                assert forall|j: int| 0 <= j < pre2.len() && #[trigger] depends_on(pre2[j], x@) implies views(impacted@).contains(pre2[j].symbol_name@) by {
                    if j < pre.len() {
                        assert(pre2[j] == pre[j]);
                    } else {
                        assert(pre2[j] == subs@[j - pre.len()]);
                    }
                }
            }
            fi = fi + 1;
        }
        proof {
            assert(files.take(fi as int) =~= files);
            assert forall|t: AstSubTree| all.contains(t) && #[trigger] depends_on(t, x@) implies views(impacted@).contains(t.symbol_name@) by {
                let j = choose|j: int| 0 <= j < all.len() && all[j] == t;
                assert(depends_on(all[j], x@));
            }
            assert(views(impacted@) =~= i0 + views(impacted@).skip(i0.len() as int));
        }
    }

    /// Every recorded symbol reachable from `changed_symbols` through dependencies: a
    /// symbol is impacted when its sub-tree depends on a changed or an impacted symbol.
    /// Each appears once; the order is unspecified.
    pub fn compute_transitive_impact(&self, changed_symbols: &[String]) -> (r: Vec<String>)
        ensures
            views(r@).no_duplicates(),
            forall|n: Seq<char>|
                views(r@).contains(n) <==> #[trigger] is_impacted(
                    all_subtrees(self.file_trees@),
                    views(changed_symbols@),
                    n,
                ),
    {
        let ghost all = all_subtrees(self.file_trees@);
        let ghost ch = views(changed_symbols@);
        let mut queue: Vec<String> = Vec::new();
        let mut i: usize = 0;
        while i < changed_symbols.len()
            invariant
                i <= changed_symbols@.len(),
                views(queue@) == ch.take(i as int),
            decreases changed_symbols@.len() - i,
        {
            let ghost vq = views(queue@);
            queue.push(changed_symbols[i].clone());
            proof {
                assert(views(queue@) =~= vq.push(ch[i as int]));
                assert(ch.take(i + 1) =~= ch.take(i as int).push(ch[i as int]));
            }
            i = i + 1;
        }
        proof {
            assert(ch.take(i as int) =~= ch);
        }
        let mut visited: Vec<String> = Vec::new();
        let mut impacted: Vec<String> = Vec::new();
        proof {
            assert(views(impacted@) =~= Seq::<Seq<char>>::empty());
            assert(views(visited@) =~= Seq::<Seq<char>>::empty());
        }
        while queue.len() > 0
            invariant
                all == all_subtrees(self.file_trees@),
                ch == views(changed_symbols@),
                views(impacted@).no_duplicates(),
                forall|m: int| 0 <= m < impacted@.len() ==> is_impacted(all, ch, #[trigger] views(impacted@)[m]),
                forall|m: int| 0 <= m < impacted@.len() ==> names(all).contains(#[trigger] views(impacted@)[m]),
                forall|m: int| 0 <= m < queue@.len() ==> ch.contains(#[trigger] views(queue@)[m]) || views(impacted@).contains(views(queue@)[m]),
                forall|v: Seq<char>, t: AstSubTree|
                    views(visited@).contains(v) && all.contains(t) && #[trigger] depends_on(t, v) ==> views(impacted@).contains(t.symbol_name@),
                forall|x: Seq<char>|
                    (ch.contains(x) || views(impacted@).contains(x)) ==> (#[trigger] views(visited@).contains(x) || views(queue@).contains(x)),
                impacted@.len() <= all.len(),
            decreases 2 * (all.len() - impacted@.len()) + queue@.len(),
        {
            let ghost vq = views(queue@);
            let sym = queue.pop().unwrap();
            proof {
                assert(vq =~= views(queue@).push(sym@));
                assert(vq[vq.len() - 1] == sym@);
                assert(ch.contains(sym@) || views(impacted@).contains(sym@));
            }
            if contains_string(&visited, &sym) {
                proof {
                    assert forall|x: Seq<char>| (ch.contains(x) || views(impacted@).contains(x)) implies (#[trigger] views(visited@).contains(x) || views(queue@).contains(x)) by {
                        if vq.contains(x) && x != sym@ {
                            let m = choose|m: int| 0 <= m < vq.len() && vq[m] == x;
                            assert(views(queue@)[m] == x);
                        }
                    }
                    assert forall|m: int| 0 <= m < queue@.len() implies ch.contains(#[trigger] views(queue@)[m]) || views(impacted@).contains(views(queue@)[m]) by {
                        assert(views(queue@)[m] == vq[m]);
                    }
                }
                continue;
            }
            let ghost vv = views(visited@);
            visited.push(sym.clone());
            proof {
                assert(views(visited@) =~= vv.push(sym@));
            }
            let ghost vi = views(impacted@);
            let ghost vq1 = views(queue@);
            self.scan_dependents(&sym, &mut impacted, &mut queue, Ghost(ch));
            proof {
                let added = views(impacted@).skip(vi.len() as int);
                lemma_unique_names_bound(views(impacted@), all);
                assert(views(queue@) == vq1 + added);
                assert(views(impacted@) == vi + added);
                assert(views(queue@).len() == vq1.len() + added.len());
                assert(impacted@.len() == vi.len() + added.len());
                assert(queue@.len() == vq1.len() + added.len());
                assert(vq1.len() + 1 == vq.len());
                assert forall|m: int| 0 <= m < queue@.len() implies ch.contains(#[trigger] views(queue@)[m]) || views(impacted@).contains(views(queue@)[m]) by {
                    if m < vq1.len() {
                        assert(views(queue@)[m] == vq1[m]);
                        assert(vq1[m] == vq[m]);
                        if views(impacted@).len() > 0 && vi.contains(vq[m]) {
                            let z = choose|z: int| 0 <= z < vi.len() && vi[z] == vq[m];
                            assert(views(impacted@)[z] == vi[z]);
                        }
                    } else {
                        assert(views(queue@)[m] == added[m - vq1.len()]);
                        assert(views(impacted@)[vi.len() + m - vq1.len()] == added[m - vq1.len()]);
                    }
                }
                assert forall|v: Seq<char>, t: AstSubTree|
                    views(visited@).contains(v) && all.contains(t) && #[trigger] depends_on(t, v) implies views(impacted@).contains(t.symbol_name@) by {
                    if v == sym@ {
                    } else {
                        let z = choose|z: int| 0 <= z < views(visited@).len() && views(visited@)[z] == v;
                        assert(vv[z] == v);
                        assert(vi.contains(t.symbol_name@));
                        let w = choose|w: int| 0 <= w < vi.len() && vi[w] == t.symbol_name@;
                        assert(views(impacted@)[w] == vi[w]);
                    }
                }
                assert forall|x: Seq<char>| (ch.contains(x) || views(impacted@).contains(x)) implies (#[trigger] views(visited@).contains(x) || views(queue@).contains(x)) by {
                    if x == sym@ {
                        assert(views(visited@)[vv.len() as int] == sym@);
                    } else if views(impacted@).contains(x) && !vi.contains(x) {
                        let z = choose|z: int| 0 <= z < views(impacted@).len() && views(impacted@)[z] == x;
                        if z < vi.len() {
                            assert(vi[z] == x);
                        }
                        assert(added[z - vi.len()] == x);
                        assert(views(queue@)[vq1.len() + z - vi.len()] == x);
                    } else {
                        if vv.contains(x) {
                            let z = choose|z: int| 0 <= z < vv.len() && vv[z] == x;
                            assert(views(visited@)[z] == x);
                        } else {
                            assert(vq.contains(x));
                            let z = choose|z: int| 0 <= z < vq.len() && vq[z] == x;
                            assert(z < vq1.len());
                            assert(views(queue@)[z] == x);
                        }
                    }
                }
            }
        }
        proof {
            assert forall|n: Seq<char>| views(impacted@).contains(n) <==> #[trigger] is_impacted(all, ch, n) by {
                if views(impacted@).contains(n) {
                    let m = choose|m: int| 0 <= m < views(impacted@).len() && views(impacted@)[m] == n;
                }
                if is_impacted(all, ch, n) {
                    let path = choose|path: Seq<AstSubTree>| #[trigger] is_impact_chain(all, ch, path) && path.last().symbol_name@ == n;
                    assert(impact_closed(all, ch, views(impacted@))) by {
                        assert forall|t: AstSubTree, x: Seq<char>|
                            all.contains(t) && (ch.contains(x) || views(impacted@).contains(x)) && #[trigger] depends_on(t, x) implies views(impacted@).contains(t.symbol_name@) by {
                            assert(views(visited@).contains(x) || views(queue@).contains(x));
                        }
                    }
                    lemma_closed_contains_chains(all, ch, views(impacted@), path, path.len() - 1);
                }
            }
        }
        impacted
    }

    /// Records the sub-trees of `file_path`, replacing what was recorded for it: the
    /// symbol index drops the file from the symbols it named before and lists it once
    /// per new sub-tree; when `subtrees` is not empty, the counters of its first
    /// sub-tree's language gain one file, its sub-trees and their byte lengths.
    pub fn record_file_subtrees(&mut self, file_path: &str, subtrees: Vec<AstSubTree>)
        requires
            old(self).wf(),
            ranges_ordered(subtrees@),
            subtrees@.len() > 0 ==> ({
                let st = stats_of(old(self).language_stats@, language_name(subtrees@[0].language));
                &&& st.file_count < usize::MAX
                &&& st.symbol_count + subtrees@.len() <= usize::MAX
                &&& st.total_bytes + span_sum(subtrees@) <= usize::MAX
            }),
        ensures
            final(self).wf(),
            trees_of(final(self).file_trees@, file_path@) == Some(subtrees@),
            forall|p: Seq<char>|
                p != file_path@ ==> #[trigger] trees_of(final(self).file_trees@, p) == trees_of(
                    old(self).file_trees@,
                    p,
                ),
            forall|s: Seq<char>|
                #[trigger] files_of(final(self).symbol_index@, s) == files_after(
                    old(self).symbol_index@,
                    trees_of(old(self).file_trees@, file_path@),
                    subtrees@,
                    file_path@,
                    s,
                ),
            all_subtrees(final(self).file_trees@).len() == all_subtrees(old(self).file_trees@).len() + subtrees@.len()
                - match trees_of(old(self).file_trees@, file_path@) {
                Some(t) => t.len() as int,
                None => 0int,
            },
            subtrees@.len() == 0 ==> final(self).language_stats@ == old(self).language_stats@,
            subtrees@.len() > 0 ==> ({
                let k = language_name(subtrees@[0].language);
                let o = stats_of(old(self).language_stats@, k);
                &&& has_stats(final(self).language_stats@, k)
                &&& stats_of(final(self).language_stats@, k) == LanguageStats {
                    file_count: (o.file_count + 1) as usize,
                    symbol_count: (o.symbol_count + subtrees@.len()) as usize,
                    total_bytes: (o.total_bytes + span_sum(subtrees@)) as usize,
                    cached_symbols: o.cached_symbols,
                }
                &&& forall|k2: Seq<char>|
                    k2 != k ==> (has_stats(final(self).language_stats@, k2) == has_stats(
                        old(self).language_stats@,
                        k2,
                    ) && stats_of(final(self).language_stats@, k2) == stats_of(
                        old(self).language_stats@,
                        k2,
                    ))
            }),
    {
        let path = file_path.to_string();
        let fi = self.find_file(&path);
        let ghost idx0 = self.symbol_index@;
        let ghost old_trees = trees_of(self.file_trees@, path@);
        match fi {
            Some(i) => {
                drop_path_from_index(&mut self.symbol_index, &self.file_trees[i].subtrees, &path);
            },
            None => {},
        }
        let ghost idx1 = self.symbol_index@;
        proof {
            assert forall|s: Seq<char>| files_of(idx1, s) + repeated(path@, name_count(subtrees@, s)) == files_after(idx0, old_trees, subtrees@, path@, s) by {
            }
        }
        add_path_to_index(&mut self.symbol_index, &subtrees, &path);
        if subtrees.len() > 0 {
            update_stats(&mut self.language_stats, &subtrees);
        }
        let ghost ft0 = self.file_trees@;
        let rec = FileSubtrees { path: path.clone(), subtrees };
        let ghost frec = rec;
        match fi {
            Some(i) => {
                proof {
                    lemma_all_subtrees_update(ft0, i as int, frec);
                }
                self.file_trees.set(i, rec);
            },
            None => {
                proof {
                    assert(ft0.push(frec).drop_last() =~= ft0);
                }
                self.file_trees.push(rec);
            },
        }
        proof {
            let ft = self.file_trees@;
            assert forall|a: int, b: int| 0 <= a < ft.len() && 0 <= b < ft.len() && a != b implies (#[trigger] ft[a]).path@ != (#[trigger] ft[b]).path@ by {
                match fi {
                    Some(i) => {
                        assert(ft[a].path@ == ft0[a].path@ && ft[b].path@ == ft0[b].path@);
                    },
                    None => {
                        if a == ft0.len() {
                            assert(ft[b] == ft0[b]);
                        } else if b == ft0.len() {
                            assert(ft[a] == ft0[a]);
                        } else {
                            assert(ft[a] == ft0[a] && ft[b] == ft0[b]);
                        }
                    },
                }
            }
            let at = match fi { Some(i) => i as int, None => ft0.len() as int };
            assert(ft[at].path@ == path@);
            assert(has_file(ft, path@));
            let c = file_position(ft, path@);
            assert(ft[c].path@ == path@);
            assert(c == at);
            assert forall|p: Seq<char>| p != path@ implies #[trigger] trees_of(ft, p) == trees_of(ft0, p) by {
                if has_file(ft0, p) {
                    let c0 = file_position(ft0, p);
                    assert(ft0[c0].path@ == p);
                    assert(ft[c0] == ft0[c0]);
                    assert(has_file(ft, p));
                    let c1 = file_position(ft, p);
                    assert(ft[c1].path@ == p);
                    assert(c1 == c0);
                }
                if has_file(ft, p) {
                    let c1 = file_position(ft, p);
                    assert(ft[c1].path@ == p);
                    assert(c1 != at);
                    assert(ft[c1] == ft0[c1]);
                    assert(has_file(ft0, p));
                }
            }
        }
    }

    /// The per-language counters.
    pub fn get_stats(&self) -> (r: Vec<LanguageStatsEntry>)
        ensures
            r@ == self.language_stats@,
    {
        let r = self.language_stats.clone();
        proof {
            assert(r@ =~= self.language_stats@);
        }
        r
    }

    /// The number of recorded sub-trees over all files.
    pub fn total_symbols(&self) -> (r: usize)
        requires
            all_subtrees(self.file_trees@).len() <= usize::MAX,
        ensures
            r == all_subtrees(self.file_trees@).len(),
    {
        let mut total: usize = 0;
        let mut i: usize = 0;
        while i < self.file_trees.len()
            invariant
                i <= self.file_trees@.len(),
                total == all_subtrees(self.file_trees@.take(i as int)).len(),
                all_subtrees(self.file_trees@).len() <= usize::MAX,
            decreases self.file_trees@.len() - i,
        {
            proof {
                let f = self.file_trees@;
                assert(f.take(i + 1).drop_last() =~= f.take(i as int));
                assert(f =~= f.take(i + 1) + f.skip(i + 1));
                lemma_all_subtrees_add(f.take(i + 1), f.skip(i + 1));
            }
            total = total + self.file_trees[i].subtrees.len();
            i = i + 1;
        }
        proof {
            assert(self.file_trees@.take(i as int) =~= self.file_trees@);
        }
        total
    }

    /// The sub-trees recorded for `file_path`, if any.
    pub fn get_file_symbols(&self, file_path: &str) -> (r: Option<&Vec<AstSubTree>>)
        requires
            self.wf(),
        ensures
            match r {
                Some(v) => trees_of(self.file_trees@, file_path@) == Some(v@),
                None => trees_of(self.file_trees@, file_path@) is None,
            },
    {
        let path = file_path.to_string();
        match self.find_file(&path) {
            Some(i) => Some(&self.file_trees[i].subtrees),
            None => None,
        }
    }
}

/// The impacted symbols form the least closed set: any symbol list that is closed under
/// dependency from the changed symbols (see `impact_closed`) holds every impacted symbol.
pub proof fn law_impact_is_least(all: Seq<AstSubTree>, changed: Seq<Seq<char>>, r: Seq<Seq<char>>, n: Seq<char>)
    requires
        impact_closed(all, changed, r),
        is_impacted(all, changed, n),
    ensures
        r.contains(n),
{
    let path = choose|path: Seq<AstSubTree>| #[trigger] is_impact_chain(all, changed, path) && path.last().symbol_name@ == n;
    lemma_closed_contains_chains(all, changed, r, path, path.len() - 1);
}

} // verus!

verus! {

proof fn lemma_last_hash_unique(t: Seq<AstSubTree>, i: int)
    requires
        names(t).no_duplicates(),
        0 <= i < t.len(),
    ensures
        last_hash(t, t[i].symbol_name@) == Some(t[i].content_hash@),
    decreases t.len(),
{
    if i == t.len() - 1 {
    } else {
        let d = t.drop_last();
        assert(names(d) =~= names(t).drop_last());
        assert(names(t)[t.len() - 1] != names(t)[i]);
        assert(d[i] == t[i]);
        lemma_last_hash_unique(d, i);
    }
}

/// Comparing a file's sub-trees with exactly what was recorded for it reports no change,
/// provided no two of them share a symbol name.
pub proof fn law_identical_subtrees_unchanged(t: Seq<AstSubTree>)
    requires
        names(t).no_duplicates(),
    ensures
        changed_symbols(Some(t), t) == Seq::<Seq<char>>::empty(),
{
    assert forall|i: int| 0 <= i < t.len() implies is_unchanged(t, #[trigger] t[i]) by {
        lemma_last_hash_unique(t, i);
    }
    t.lemma_all_neg_filter_empty(|x: AstSubTree| !is_unchanged(t, x));
    assert forall|i: int| 0 <= i < t.len() implies names(t).contains(#[trigger] t[i].symbol_name@) by {
        assert(names(t)[i] == t[i].symbol_name@);
    }
    t.lemma_all_neg_filter_empty(|x: AstSubTree| !names(t).contains(x.symbol_name@));
    assert(names(Seq::<AstSubTree>::empty()) =~= Seq::<Seq<char>>::empty());
    assert(changed_symbols(Some(t), t) =~= Seq::<Seq<char>>::empty());
}

/// A symbol recorded for a file but missing from its new sub-trees is reported as changed.
pub proof fn law_removed_symbol_reported(old: Seq<AstSubTree>, new: Seq<AstSubTree>, i: int)
    requires
        0 <= i < old.len(),
        !names(new).contains(old[i].symbol_name@),
    ensures
        changed_symbols(Some(old), new).contains(old[i].symbol_name@),
{
    let f = old.filter(|t: AstSubTree| !names(new).contains(t.symbol_name@));
    old.lemma_filter_contains(|t: AstSubTree| !names(new).contains(t.symbol_name@), i);
    assert(f.contains(old[i]));
    let j = choose|j: int| 0 <= j < f.len() && f[j] == old[i];
    let first = names(new.filter(|t: AstSubTree| !is_unchanged(old, t)));
    assert(names(f)[j] == old[i].symbol_name@);
    assert(changed_symbols(Some(old), new) == first + names(f));
    assert(changed_symbols(Some(old), new)[first.len() + j] == old[i].symbol_name@);
}

/// A symbol whose sub-tree is new or re-hashed is reported as changed.
pub proof fn law_rehashed_symbol_reported(old: Seq<AstSubTree>, new: Seq<AstSubTree>, i: int)
    requires
        0 <= i < new.len(),
        last_hash(old, new[i].symbol_name@) != Some(new[i].content_hash@),
    ensures
        changed_symbols(Some(old), new).contains(new[i].symbol_name@),
{
    let f = new.filter(|t: AstSubTree| !is_unchanged(old, t));
    new.lemma_filter_contains(|t: AstSubTree| !is_unchanged(old, t), i);
    assert(f.contains(new[i]));
    let j = choose|j: int| 0 <= j < f.len() && f[j] == new[i];
    assert(names(f)[j] == new[i].symbol_name@);
    assert(changed_symbols(Some(old), new)[j] == new[i].symbol_name@);
}

/// The impacted symbols are closed under dependency: any recorded sub-tree that depends
/// on a changed or an impacted symbol is itself impacted.
pub proof fn law_impact_is_closed(all: Seq<AstSubTree>, changed: Seq<Seq<char>>, t: AstSubTree, x: Seq<char>)
    requires
        all.contains(t),
        depends_on(t, x),
        changed.contains(x) || is_impacted(all, changed, x),
    ensures
        is_impacted(all, changed, t.symbol_name@),
{
    if changed.contains(x) {
        let path = seq![t];
        assert(depends_on(path[0], x));
        assert(is_impact_chain(all, changed, path));
    } else {
        let path = choose|path: Seq<AstSubTree>| #[trigger] is_impact_chain(all, changed, path) && path.last().symbol_name@ == x;
        let p2 = path.push(t);
        assert forall|k: int| 0 <= k < p2.len() implies all.contains(#[trigger] p2[k]) by {
            if k < path.len() {
                assert(p2[k] == path[k]);
            }
        }
        assert forall|k: int| 0 <= k < p2.len() - 1 implies #[trigger] depends_on(p2[k + 1], p2[k].symbol_name@) by {
            if k < path.len() - 1 {
                assert(p2[k + 1] == path[k + 1] && p2[k] == path[k]);
            }
        }
        let c = choose|c: Seq<char>| changed.contains(c) && #[trigger] depends_on(path[0], c);
        assert(p2[0] == path[0]);
        assert(depends_on(p2[0], c));
        assert(is_impact_chain(all, changed, p2));
    }
}

} // verus!
