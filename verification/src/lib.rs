//! Markch documents: folders of markdown pages with a JSON manifest.
pub mod text;
pub mod split;
pub mod decimal;
pub mod paths;
pub mod markdown;
pub mod paginate;
pub mod model;
pub mod document;
pub mod clock;
pub mod edits;
pub mod page_ops;
pub mod writes;
pub mod folders;
pub mod reflow;
pub mod publish;
