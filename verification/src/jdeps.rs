//! jdeps integration: resolve Java bytecode dependencies reported by `jdeps`.
//!
//! The scanned Java sources give an index from fully-qualified names to source
//! paths; the class-level dependencies that jdeps reports are mapped back to
//! file-level import edges through it. Running jdeps and probing directories is
//! left to the caller, which these steps tell what to do next.
use vstd::prelude::*;

use crate::fqn_index::FqnIndex;
use crate::jdeps_parse::dot_deps;
use crate::jdeps_parse::parse_dot_deps;
use crate::jdeps_parse::parse_jdeps_verbose_output;
use crate::jdeps_parse::verbose_deps;
use crate::text::find_char;
use crate::text::first_index;
use crate::text::has_prefix;
use crate::text::has_suffix;
use crate::text::last_index;
use crate::text::push_char;
use crate::text::rfind_char;
use crate::text::string_of;
use crate::text::to_chars;
use crate::types::edge_views;
use crate::types::pair_views;
use crate::types::str_views;
use crate::types::FileNode;
use crate::types::ImportEdge;

verus! {

/// Result of a jdeps analysis run.
pub struct JdepsResult {
    /// Additional import edges discovered by jdeps.
    pub edges: Vec<ImportEdge>,
    /// Number of jdeps dependencies with an end that could not be mapped to a source file.
    pub unmapped_count: usize,
}

/// `path` with a leading source root (`src/main/java/`, `src/test/java/`,
/// `src/`, `java/`, the first that matches) removed.
pub open spec fn strip_source_root(path: Seq<char>) -> Seq<char> {
    if "src/main/java/"@.is_prefix_of(path) {
        path.skip("src/main/java/"@.len() as int)
    } else if "src/test/java/"@.is_prefix_of(path) {
        path.skip("src/test/java/"@.len() as int)
    } else if "src/"@.is_prefix_of(path) {
        path.skip("src/"@.len() as int)
    } else if "java/"@.is_prefix_of(path) {
        path.skip("java/"@.len() as int)
    } else {
        path
    }
}

/// `s` with every `/` replaced by `.`.
pub open spec fn dotted(s: Seq<char>) -> Seq<char> {
    s.map_values(|c: char| if c == '/' { '.' } else { c })
}

/// The class name a `.java` source path stands for: `com/example/Foo.java`
/// under a source root gives `com.example.Foo`.
pub open spec fn class_name_of(path: Seq<char>) -> Option<Seq<char>> {
    let p = strip_source_root(path);
    if ".java"@.is_suffix_of(p) {
        Some(dotted(p.take(p.len() - ".java"@.len())))
    } else {
        None
    }
}

/// The text of `s` before position `pos`, where there is such a position.
pub open spec fn prefix_at(s: Seq<char>, pos: Option<int>) -> Option<Seq<char>> {
    match pos {
        Some(d) => Some(s.take(d)),
        None => None,
    }
}

/// What indexing one scanned file adds to `m`: a Java source with a class
/// name maps that name to its path, replacing an earlier entry, and maps its
/// package (the name before the last `.`) to its path unless the package is
/// already there.
pub open spec fn index_file(m: Map<Seq<char>, Seq<char>>, lang: Seq<char>, path: Seq<char>) -> Map<
    Seq<char>,
    Seq<char>,
> {
    if lang != "java"@ {
        m
    } else {
        match class_name_of(path) {
            None => m,
            Some(f) => {
                let m1 = m.insert(f, path);
                match prefix_at(f, last_index(f, '.')) {
                    Some(pkg) => if m1.contains_key(pkg) {
                        m1
                    } else {
                        m1.insert(pkg, path)
                    },
                    None => m1,
                }
            },
        }
    }
}

/// The index built from the scanned files `(lang, path)`, in order.
pub open spec fn fqn_index_of(files: Seq<(Seq<char>, Seq<char>)>) -> Map<Seq<char>, Seq<char>>
    decreases files.len(),
{
    if files.len() == 0 {
        Map::empty()
    } else {
        let f = files.last();
        index_file(fqn_index_of(files.drop_last()), f.0, f.1)
    }
}

/// The `(lang, path)` of each scanned file.
pub open spec fn file_views(files: Seq<&FileNode>) -> Seq<(Seq<char>, Seq<char>)> {
    files.map_values(|f: &FileNode| (f.lang@, f.path@))
}

/// The path stored under the prefix of `fqn` that ends before `pos`.
pub open spec fn lookup_prefix(m: Map<Seq<char>, Seq<char>>, fqn: Seq<char>, pos: Option<int>) -> Option<
    Seq<char>,
> {
    match prefix_at(fqn, pos) {
        Some(p) => if m.contains_key(p) {
            Some(m[p])
        } else {
            None
        },
        None => None,
    }
}

/// The source path of a class name: an exact match; else, for an inner class
/// `Outer$Inner`, the outer class; else its package (the name before the last `.`).
pub open spec fn resolve_fqn_spec(m: Map<Seq<char>, Seq<char>>, fqn: Seq<char>) -> Option<Seq<char>> {
    if m.contains_key(fqn) {
        Some(m[fqn])
    } else if lookup_prefix(m, fqn, first_index(fqn, '$')) is Some {
        lookup_prefix(m, fqn, first_index(fqn, '$'))
    } else {
        lookup_prefix(m, fqn, last_index(fqn, '.'))
    }
}

/// Mapping the dependencies `deps` in order: each whose ends resolve to two
/// different files adds that file edge unless it is already there; one whose
/// ends resolve to the same file adds nothing; one with an end that does not
/// resolve counts as unmapped. Gives the edges and the unmapped count.
pub open spec fn map_deps(m: Map<Seq<char>, Seq<char>>, deps: Seq<(Seq<char>, Seq<char>)>) -> (
    Seq<(Seq<char>, Seq<char>)>,
    nat,
)
    decreases deps.len(),
{
    if deps.len() == 0 {
        (Seq::empty(), 0)
    } else {
        let (es, u) = map_deps(m, deps.drop_last());
        let d = deps.last();
        match (resolve_fqn_spec(m, d.0), resolve_fqn_spec(m, d.1)) {
            (Some(a), Some(b)) => if a != b {
                if es.contains((a, b)) {
                    (es, u)
                } else {
                    (es.push((a, b)), u)
                }
            } else {
                (es, u)
            },
            _ => (es, u + 1),
        }
    }
}

proof fn lemma_map_deps_bound(m: Map<Seq<char>, Seq<char>>, deps: Seq<(Seq<char>, Seq<char>)>)
    ensures
        map_deps(m, deps).1 <= deps.len(),
    decreases deps.len(),
{
    if deps.len() > 0 {
        lemma_map_deps_bound(m, deps.drop_last());
    }
}

/// The literal source roots, as characters.
struct SourceRoots {
    main: Vec<char>,
    test: Vec<char>,
    src: Vec<char>,
    java: Vec<char>,
    suffix: Vec<char>,
}

impl SourceRoots {
    spec fn ok(&self) -> bool {
        &&& self.main@ == "src/main/java/"@
        &&& self.test@ == "src/test/java/"@
        &&& self.src@ == "src/"@
        &&& self.java@ == "java/"@
        &&& self.suffix@ == ".java"@
    }

    fn new() -> (r: SourceRoots)
        ensures
            r.ok(),
    {
        SourceRoots {
            main: to_chars("src/main/java/"),
            test: to_chars("src/test/java/"),
            src: to_chars("src/"),
            java: to_chars("java/"),
            suffix: to_chars(".java"),
        }
    }

    /// Where the package path of `v` starts once its source root is stripped.
    fn package_start(&self, v: &Vec<char>) -> (i: usize)
        requires
            self.ok(),
        ensures
            i <= v.len(),
            v@.skip(i as int) == strip_source_root(v@),
    {
        let n = v.len();
        assert(v@.subrange(0, n as int) =~= v@);
        if has_prefix(v, 0, n, &self.main) {
            self.main.len()
        } else if has_prefix(v, 0, n, &self.test) {
            self.test.len()
        } else if has_prefix(v, 0, n, &self.src) {
            self.src.len()
        } else if has_prefix(v, 0, n, &self.java) {
            self.java.len()
        } else {
            assert(v@.skip(0) =~= v@);
            0
        }
    }
}

/// The class name of a source path, as a string and as characters.
fn class_name(v: &Vec<char>, roots: &SourceRoots) -> (r: Option<(String, Vec<char>)>)
    requires
        roots.ok(),
    ensures
        r matches Some(c) ==> class_name_of(v@) == Some(c.0@) && c.1@ == c.0@,
        r is None ==> class_name_of(v@) is None,
{
    let start = roots.package_start(v);
    let n = v.len();
    let ghost p = strip_source_root(v@);
    assert(p =~= v@.subrange(start as int, n as int));
    if !has_suffix(v, start, n, &roots.suffix) {
        return None;
    }
    let stop = n - roots.suffix.len();
    let mut name = String::new();
    let mut chars: Vec<char> = Vec::new();
    let mut i: usize = start;
    while i < stop
        invariant
            start <= i <= stop <= n == v.len(),
            name@ == chars@,
            chars@ == dotted(v@.subrange(start as int, i as int)),
        decreases stop - i,
    {
        let c = if v[i] == '/' {
            '.'
        } else {
            v[i]
        };
        push_char(&mut name, c);
        chars.push(c);
        assert(dotted(v@.subrange(start as int, i + 1)) =~= dotted(
            v@.subrange(start as int, i as int),
        ).push(c));
        i += 1;
    }
    assert(p.take(p.len() - ".java"@.len()) =~= v@.subrange(start as int, stop as int));
    Some((name, chars))
}

/// Builds a map from Java fully-qualified class name (and package name) to
/// source file path, inferring names from paths relative to common source roots.
pub fn build_fqn_index(_scan_root: &str, files: &[&FileNode]) -> (index: FqnIndex)
    ensures
        index@ == fqn_index_of(file_views(files@)),
{
    let ghost fs = file_views(files@);
    let roots = SourceRoots::new();
    let java = "java".to_owned();
    let mut index = FqnIndex::new();
    let mut k: usize = 0;
    assert(fs.take(0) =~= Seq::<(Seq<char>, Seq<char>)>::empty());
    while k < files.len()
        invariant
            roots.ok(),
            java@ == "java"@,
            fs == file_views(files@),
            0 <= k <= files.len(),
            index@ == fqn_index_of(fs.take(k as int)),
        decreases files.len() - k,
    {
        let file = files[k];
        assert(fs.take(k + 1).drop_last() =~= fs.take(k as int));
        assert(fs.take(k + 1).last() == (file.lang@, file.path@));
        if file.lang == java {
            let v = to_chars(file.path.as_str());
            if let Some((fqn, chars)) = class_name(&v, &roots) {
                index.insert(fqn, file.path.clone());
                if let Some(d) = rfind_char(&chars, 0, chars.len(), '.') {
                    assert(chars@.subrange(0, chars.len() as int) =~= chars@);
                    let pkg = string_of(&chars, 0, d);
                    assert(pkg@ =~= chars@.take(d as int));
                    index.insert_if_absent(pkg, file.path.clone());
                } else {
                    assert(chars@.subrange(0, chars.len() as int) =~= chars@);
                }
            }
        }
        k += 1;
    }
    assert(fs.take(files.len() as int) =~= fs);
    index
}

/// Resolves a fully-qualified class name to a source file path: exact match,
/// then the outer class of an inner class (`Foo$Bar` → `Foo`), then the package.
pub fn resolve_fqn(fqn: &str, index: &FqnIndex) -> (r: Option<String>)
    ensures
        r matches Some(p) ==> resolve_fqn_spec(index@, fqn@) == Some(p@),
        r is None ==> resolve_fqn_spec(index@, fqn@) is None,
{
    let key = fqn.to_owned();
    if let Some(path) = index.get(&key) {
        return Some(path);
    }
    let v = to_chars(fqn);
    let n = v.len();
    assert(v@.subrange(0, n as int) =~= v@);
    let dollar = find_char(&v, 0, n, '$');
    if let Some(d) = dollar {
        let outer = string_of(&v, 0, d);
        assert(outer@ =~= v@.take(d as int));
        if let Some(path) = index.get(&outer) {
            return Some(path);
        }
    }
    if let Some(d) = rfind_char(&v, 0, n, '.') {
        let pkg = string_of(&v, 0, d);
        assert(pkg@ =~= v@.take(d as int));
        if let Some(path) = index.get(&pkg) {
            return Some(path);
        }
    }
    None
}

/// Whether `edges` already holds the edge `a -> b`.
fn has_edge(edges: &Vec<ImportEdge>, a: &String, b: &String) -> (r: bool)
    ensures
        r == edge_views(edges@).contains((a@, b@)),
{
    let mut i: usize = 0;
    while i < edges.len()
        invariant
            0 <= i <= edges.len(),
            forall|j: int| 0 <= j < i ==> edge_views(edges@)[j] != (a@, b@),
        decreases edges.len() - i,
    {
        if edges[i].from_file == *a && edges[i].to_file == *b {
            assert(edge_views(edges@)[i as int] == (a@, b@));
            return true;
        }
        i += 1;
    }
    false
}

/// Maps class-level dependencies to file-level import edges through the index,
/// keeping each file edge once and dropping dependencies within one file;
/// returns the edges and the number of dependencies with an end that could
/// not be mapped to a source file.
pub fn map_deps_to_edges(deps: &[(String, String)], fqn_index: &FqnIndex) -> (r: (
    Vec<ImportEdge>,
    usize,
))
    ensures
        (edge_views(r.0@), r.1 as nat) == map_deps(fqn_index@, pair_views(deps@)),
{
    let ghost ds = pair_views(deps@);
    let mut edges: Vec<ImportEdge> = Vec::new();
    let mut unmapped: usize = 0;
    let mut k: usize = 0;
    assert(ds.take(0) =~= Seq::<(Seq<char>, Seq<char>)>::empty());
    assert(edge_views(edges@) =~= Seq::<(Seq<char>, Seq<char>)>::empty());
    while k < deps.len()
        invariant
            ds == pair_views(deps@),
            0 <= k <= deps.len(),
            (edge_views(edges@), unmapped as nat) == map_deps(fqn_index@, ds.take(k as int)),
        decreases deps.len() - k,
    {
        assert(ds.take(k + 1).drop_last() =~= ds.take(k as int));
        assert(ds.take(k + 1).last() == (deps@[k as int].0@, deps@[k as int].1@));
        proof {
            lemma_map_deps_bound(fqn_index@, ds.take(k as int));
        }
        let from = resolve_fqn(deps[k].0.as_str(), fqn_index);
        let to = resolve_fqn(deps[k].1.as_str(), fqn_index);
        match (from, to) {
            (Some(a), Some(b)) => {
                if a != b {
                    if !has_edge(&edges, &a, &b) {
                        let ghost before = edges@;
                        edges.push(ImportEdge { from_file: a, to_file: b });
                        assert(edge_views(edges@) =~= edge_views(before).push(
                            (edges@[edges.len() - 1].from_file@, edges@[edges.len() - 1].to_file@),
                        ));
                    }
                }
            },
            _ => {
                unmapped += 1;
            },
        }
        k += 1;
    }
    assert(ds.take(deps.len() as int) =~= ds);
    (edges, unmapped)
}

/// Build output directories that Maven, Gradle, IntelliJ and Eclipse use,
/// relative to the project root.
pub open spec fn class_dir_names() -> Seq<Seq<char>> {
    seq![
        "target/classes"@,
        "build/classes/java/main"@,
        "build/classes"@,
        "out/production/classes"@,
        "bin"@,
    ]
}

/// `rel` under the directory `root`, with one `/` between them.
pub open spec fn join_path(root: Seq<char>, rel: Seq<char>) -> Seq<char> {
    if root.len() == 0 {
        rel
    } else if root.last() == '/' {
        root + rel
    } else {
        root + seq!['/'] + rel
    }
}

/// The build output directories to look for under `root`.
pub open spec fn class_dir_paths(root: Seq<char>) -> Seq<Seq<char>> {
    class_dir_names().map_values(|c: Seq<char>| join_path(root, c))
}

/// The entries of `s` whose flag is set, in order.
pub open spec fn select(s: Seq<Seq<char>>, flags: Seq<bool>) -> Seq<Seq<char>>
    decreases s.len(),
{
    if s.len() == 0 {
        Seq::empty()
    } else if flags[s.len() - 1] {
        select(s.drop_last(), flags).push(s.last())
    } else {
        select(s.drop_last(), flags)
    }
}

/// The path `rel` under `root`.
fn join(root: &str, rel: &str) -> (r: String)
    ensures
        r@ == join_path(root@, rel@),
{
    let n = root.unicode_len();
    if n == 0 {
        return rel.to_owned();
    }
    let mut s = root.to_owned();
    if root.get_char(n - 1) != '/' {
        push_char(&mut s, '/');
    }
    s.append(rel);
    s
}

/// The common build output directories under `scan_root`.
pub fn class_dir_candidates(scan_root: &str) -> (r: Vec<String>)
    ensures
        str_views(r@) == class_dir_paths(scan_root@),
{
    let mut r: Vec<String> = Vec::new();
    r.push(join(scan_root, "target/classes"));
    r.push(join(scan_root, "build/classes/java/main"));
    r.push(join(scan_root, "build/classes"));
    r.push(join(scan_root, "out/production/classes"));
    r.push(join(scan_root, "bin"));
    assert(str_views(r@) =~= class_dir_paths(scan_root@));
    r
}

/// The common build output directories under `scan_root` that exist, given
/// for each candidate (in the order of `class_dir_candidates`) whether it is a directory.
pub fn auto_detect_class_dirs(scan_root: &str, is_dir: &[bool]) -> (r: Vec<String>)
    requires
        is_dir.len() == class_dir_names().len(),
    ensures
        str_views(r@) == select(class_dir_paths(scan_root@), is_dir@),
{
    let candidates = class_dir_candidates(scan_root);
    let ghost cs = str_views(candidates@);
    let mut r: Vec<String> = Vec::new();
    let mut i: usize = 0;
    assert(cs.take(0) =~= Seq::<Seq<char>>::empty());
    while i < candidates.len()
        invariant
            cs == str_views(candidates@),
            candidates.len() == is_dir.len(),
            0 <= i <= candidates.len(),
            str_views(r@) == select(cs.take(i as int), is_dir@),
        decreases candidates.len() - i,
    {
        assert(cs.take(i + 1).drop_last() =~= cs.take(i as int));
        assert(cs.take(i + 1).last() == candidates@[i as int]@);
        if is_dir[i] {
            let ghost before = r@;
            r.push(candidates[i].clone());
            assert(str_views(r@) =~= str_views(before).push(candidates@[i as int]@));
        }
        i += 1;
    }
    assert(cs.take(candidates.len() as int) =~= cs);
    r
}

/// What the caller is to do next to resolve jdeps edges.
pub enum JdepsStep {
    /// Nothing more to do; this is the result.
    Finished(Option<JdepsResult>),
    /// Report which of these candidate class directories exist
    /// (to `JdepsSession::class_dirs_probed`).
    ProbeClassDirs(Vec<String>),
    /// Run `jdeps -verbose:class -filter:none --dot-output` on these class
    /// directories or JARs and report how it went
    /// (to `JdepsSession::dot_run_finished`).
    RunJdeps(Vec<String>),
    /// The `.dot` run failed: run `jdeps -verbose:class -filter:none` on these
    /// targets and report its text output, or nothing when it failed too
    /// (to `JdepsSession::verbose_run_finished`).
    RunJdepsVerbose(Vec<String>),
}

/// How a jdeps run with `.dot` output went.
pub enum JdepsDotRun {
    /// jdeps could not be started.
    NotStarted,
    /// jdeps ran and reported failure.
    Failed,
    /// jdeps succeeded; the texts of the `.dot` files it wrote.
    Succeeded(Vec<String>),
}

/// The dependencies in a series of jdeps `.dot` files, file after file.
pub open spec fn dot_files_deps(files: Seq<Seq<char>>) -> Seq<(Seq<char>, Seq<char>)>
    decreases files.len(),
{
    if files.len() == 0 {
        Seq::empty()
    } else {
        dot_files_deps(files.drop_last()) + dot_deps(files.last())
    }
}

/// `r` is the result of mapping the class dependencies `deps` through `index`:
/// none when there is no dependency, else the edges and the unmapped count.
pub open spec fn maps_deps(
    index: Map<Seq<char>, Seq<char>>,
    deps: Seq<(Seq<char>, Seq<char>)>,
    r: Option<JdepsResult>,
) -> bool {
    if deps.len() == 0 {
        r is None
    } else {
        r matches Some(res) && (edge_views(res.edges@), res.unmapped_count as nat) == map_deps(
            index,
            deps,
        )
    }
}

/// A copy of `v`.
fn copy_strings(v: &[String]) -> (r: Vec<String>)
    ensures
        str_views(r@) == str_views(v@),
{
    let mut r: Vec<String> = Vec::new();
    let mut i: usize = 0;
    while i < v.len()
        invariant
            0 <= i <= v.len(),
            str_views(r@) == str_views(v@).take(i as int),
        decreases v.len() - i,
    {
        let ghost before = r@;
        r.push(v[i].clone());
        assert(str_views(r@) =~= str_views(before).push(v@[i as int]@));
        assert(str_views(v@).take(i + 1) =~= str_views(v@).take(i as int).push(v@[i as int]@));
        i += 1;
    }
    assert(str_views(v@).take(v.len() as int) =~= str_views(v@));
    r
}

/// The state of a jdeps resolution between steps.
pub struct JdepsSession {
    /// Project root.
    pub scan_root: String,
    /// Fully-qualified name → source path, from the scanned Java files.
    pub index: FqnIndex,
}

/// Starts resolving jdeps edges for a Java project.
///
/// `scan_root`: project root (used to locate build output);
/// `files`: scanned file nodes (used to map names to source paths);
/// `class_dirs`: explicit class directories or JARs to analyze; if empty, the
/// common build output directories are probed.
/// With no Java source the result is `None` at once.
pub fn resolve_jdeps_edges(scan_root: &str, files: &[&FileNode], class_dirs: &[String]) -> (r: (
    JdepsSession,
    JdepsStep,
))
    ensures
        r.0.scan_root@ == scan_root@,
        r.0.index@ == fqn_index_of(file_views(files@)),
        r.0.index@ == Map::<Seq<char>, Seq<char>>::empty() ==> r.1 matches JdepsStep::Finished(
            None,
        ),
        r.0.index@ != Map::<Seq<char>, Seq<char>>::empty() && class_dirs.len() == 0 ==> (r.1 matches JdepsStep::ProbeClassDirs(c)
            && str_views(c@) == class_dir_paths(scan_root@)),
        r.0.index@ != Map::<Seq<char>, Seq<char>>::empty() && class_dirs.len() > 0 ==> (r.1 matches JdepsStep::RunJdeps(t)
            && str_views(t@) == str_views(class_dirs@)),
{
    let index = build_fqn_index(scan_root, files);
    let empty = index.is_empty();
    let session = JdepsSession { scan_root: scan_root.to_owned(), index };
    if empty {
        return (session, JdepsStep::Finished(None));
    }
    if class_dirs.len() == 0 {
        return (session, JdepsStep::ProbeClassDirs(class_dir_candidates(scan_root)));
    }
    (session, JdepsStep::RunJdeps(copy_strings(class_dirs)))
}

impl JdepsSession {
    /// Continues once the candidate class directories have been probed:
    /// `is_dir` tells, in the order of `class_dir_candidates`, which exist.
    /// With none found the result is `None`.
    pub fn class_dirs_probed(&self, is_dir: &[bool]) -> (r: JdepsStep)
        requires
            is_dir.len() == class_dir_names().len(),
        ensures
            select(class_dir_paths(self.scan_root@), is_dir@).len() == 0 ==> r matches JdepsStep::Finished(None),
            select(class_dir_paths(self.scan_root@), is_dir@).len() > 0 ==> (r matches JdepsStep::RunJdeps(t)
                && str_views(t@) == select(class_dir_paths(self.scan_root@), is_dir@)),
    {
        let targets = auto_detect_class_dirs(self.scan_root.as_str(), is_dir);
        if targets.len() == 0 {
            JdepsStep::Finished(None)
        } else {
            JdepsStep::RunJdeps(targets)
        }
    }

    /// Finishes once jdeps has run: `deps` is `None` when jdeps could not be
    /// run or failed, else the `(from, to)` class dependencies it reported.
    /// No dependency at all gives `None`; otherwise they are mapped to file edges.
    pub fn jdeps_finished(&self, deps: Option<Vec<(String, String)>>) -> (r: Option<JdepsResult>)
        ensures
            match deps {
                None => r is None,
                Some(d) => maps_deps(self.index@, pair_views(d@), r),
            },
    {
        match deps {
            None => None,
            Some(d) => {
                if d.len() == 0 {
                    None
                } else {
                    let (edges, unmapped_count) = map_deps_to_edges(d.as_slice(), &self.index);
                    Some(JdepsResult { edges, unmapped_count })
                }
            },
        }
    }

    /// Continues once jdeps has run with `.dot` output on `targets`: when it
    /// could not start there is no result; when it failed, the same targets
    /// are to be run with text output; else the dependencies in the `.dot`
    /// files, file after file, are mapped as `jdeps_finished` does.
    pub fn dot_run_finished(&self, targets: &[String], run: JdepsDotRun) -> (r: JdepsStep)
        ensures
            match run {
                JdepsDotRun::NotStarted => r matches JdepsStep::Finished(None),
                JdepsDotRun::Failed => r matches JdepsStep::RunJdepsVerbose(t) && str_views(t@)
                    == str_views(targets@),
                JdepsDotRun::Succeeded(files) => r matches JdepsStep::Finished(res) && maps_deps(
                    self.index@,
                    dot_files_deps(str_views(files@)),
                    res,
                ),
            },
    {
        match run {
            JdepsDotRun::NotStarted => JdepsStep::Finished(None),
            JdepsDotRun::Failed => JdepsStep::RunJdepsVerbose(copy_strings(targets)),
            JdepsDotRun::Succeeded(files) => {
                let ghost fs = str_views(files@);
                let mut deps: Vec<(String, String)> = Vec::new();
                let mut i: usize = 0;
                assert(fs.take(0) =~= Seq::<Seq<char>>::empty());
                while i < files.len()
                    invariant
                        fs == str_views(files@),
                        0 <= i <= files.len(),
                        pair_views(deps@) == dot_files_deps(fs.take(i as int)),
                    decreases files.len() - i,
                {
                    assert(fs.take(i + 1).drop_last() =~= fs.take(i as int));
                    assert(fs.take(i + 1).last() == files@[i as int]@);
                    parse_dot_deps(files[i].as_str(), &mut deps);
                    i += 1;
                }
                assert(fs.take(files.len() as int) =~= fs);
                JdepsStep::Finished(self.jdeps_finished(Some(deps)))
            },
        }
    }

    /// Finishes once jdeps has run with text output: `stdout` is `None` when
    /// it could not run or failed, else its output, whose dependencies are
    /// mapped as `jdeps_finished` does.
    pub fn verbose_run_finished(&self, stdout: Option<String>) -> (r: Option<JdepsResult>)
        ensures
            match stdout {
                None => r is None,
                Some(s) => maps_deps(self.index@, verbose_deps(s@), r),
            },
    {
        match stdout {
            None => None,
            Some(s) => self.jdeps_finished(Some(parse_jdeps_verbose_output(s.as_str()))),
        }
    }
}

} // verus!
