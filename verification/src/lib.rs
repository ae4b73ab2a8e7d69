//! Tree pagination for a note sidebar.
//!
//! The library walks a tree of notes in document order, splits the walk
//! into pages of a bounded number of entries, replays the ancestor chain as
//! marked context entries at every page break, and decides for each node
//! whether it renders expanded or highlighted. It hands a renderer typed
//! entries — identifier, title, nesting depth, open, highlight and context
//! flags — and an index from node identifier to the first page holding the
//! node.
//!
//! `tree` holds the node type and its counting and containment model;
//! `state` the selection (current node and breadcrumbs) and the open and
//! highlight rules; `page` the entry and page types with the document-order
//! walk model; `paginate` the paginator and the page lookup; `laws` the
//! proved properties of the paginator; `flash` and `params` the plain data
//! the surrounding web frontend passes around.

pub mod tree;
pub mod state;
pub mod page;
pub mod paginate;
pub mod laws;
pub mod flash;
pub mod params;
