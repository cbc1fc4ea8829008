//! An arena-backed document tree for HTML and XML, the node payloads it
//! holds, the construction callbacks a markup tree builder drives, and the
//! element predicates a selector matcher asks.

pub mod attrs;
pub mod iter;
pub mod matching;
pub mod nodes;
pub mod options;
pub mod qualname;
pub mod serialize;
pub mod stream;
pub mod strings;
pub mod tree;
pub mod treedom;
