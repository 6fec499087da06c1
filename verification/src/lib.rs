//! Word-ladder solving: a graph over a dictionary in which two words are
//! linked when they differ in exactly one position, and a breadth-first
//! search that finds a shortest chain of linked words between two words.

pub mod graph;
pub mod path;
pub mod queue;
pub mod render;
pub mod search;
mod sweep;
pub mod word;

pub use graph::{build_graph_from_dict, Graph};
pub use queue::Queue;
pub use render::render_path;
pub use search::{bfs, find_shortest_path, ParentMap, SearchError};
pub use word::{is_one_char_diff, same_word};
