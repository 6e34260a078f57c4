//! Library dependency analysis for DataFlex workspaces.
pub mod text;
pub mod paths;
pub mod ini_doc;
pub mod source_scan;
pub mod workspace;
pub mod lookup;
pub mod workspace_tree;
pub mod terminal;
pub mod grouping;
pub mod report;
pub mod options;
