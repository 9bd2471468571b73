//! Dependency-graph analysis core: jdeps output parsing and mapping,
//! cycle-breaking suggestions over import edges, and list layout.
pub mod cycle_break;
pub mod file_graph;
pub mod fqn_index;
pub mod graph;
pub mod jdeps;
pub mod jdeps_parse;
pub mod laws;
pub mod list_layout;
pub mod text;
pub mod types;

pub use cycle_break::compute_fan_maps;
pub use cycle_break::compute_reverse_reach;
pub use cycle_break::count_cycles;
pub use cycle_break::cycle_edge_candidates;
pub use cycle_break::greedy_cycle_breaks;
pub use cycle_break::BreakImpact;
pub use cycle_break::CycleBreakReport;
pub use cycle_break::CycleBreakSuggestion;
pub use fqn_index::FqnIndex;
pub use jdeps::auto_detect_class_dirs;
pub use jdeps::build_fqn_index;
pub use jdeps::class_dir_candidates;
pub use jdeps::map_deps_to_edges;
pub use jdeps::resolve_fqn;
pub use jdeps::resolve_jdeps_edges;
pub use jdeps::JdepsDotRun;
pub use jdeps::JdepsResult;
pub use jdeps::JdepsSession;
pub use jdeps::JdepsStep;
pub use jdeps_parse::extract_quoted;
pub use jdeps_parse::parse_dot_deps;
pub use jdeps_parse::parse_jdeps_verbose_output;
pub use list_layout::flagged_list_layout;
pub use list_layout::ListLayout;
pub use types::FileNode;
pub use types::ImportEdge;
