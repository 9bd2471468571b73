//! The scanned-file and import-edge records that the analyses read.
use vstd::prelude::*;

verus! {

/// A file-level dependency: `from_file` imports `to_file`.
#[derive(Debug, Clone, PartialEq, Eq)]
pub struct ImportEdge {
    pub from_file: String,
    pub to_file: String,
}

impl View for ImportEdge {
    type V = (Seq<char>, Seq<char>);

    open spec fn view(&self) -> (Seq<char>, Seq<char>) {
        (self.from_file@, self.to_file@)
    }
}

/// The edges as pairs of (importer, imported) texts.
pub open spec fn edge_views(edges: Seq<ImportEdge>) -> Seq<(Seq<char>, Seq<char>)> {
    edges.map_values(|e: ImportEdge| e@)
}

/// The texts of a list of strings.
pub open spec fn str_views(v: Seq<String>) -> Seq<Seq<char>> {
    v.map_values(|s: String| s@)
}

/// The texts of a list of string pairs.
pub open spec fn pair_views(v: Seq<(String, String)>) -> Seq<(Seq<char>, Seq<char>)> {
    v.map_values(|p: (String, String)| (p.0@, p.1@))
}

/// A scanned file or directory with its line metrics.
#[derive(Debug, Clone, PartialEq, Eq)]
pub struct FileNode {
    /// Path relative to the scan root, with `/` separators.
    pub path: String,
    pub name: String,
    pub is_dir: bool,
    pub lines: u32,
    pub logic: u32,
    pub comments: u32,
    pub blanks: u32,
    pub funcs: u32,
    pub gs: String,
    /// Language name, such as `java`.
    pub lang: String,
}

} // verus!
