pub mod binary;
pub mod bytes;
pub mod error;
pub mod object;
pub mod object_store;
pub mod codec;
pub mod edit_script;
pub mod text;
pub mod diff_types;
pub mod hunks;
pub mod diff;
pub mod format;
pub mod merge_text;
pub mod merge_types;
pub mod merge;
pub mod commit;
pub mod graph;
pub mod index;
pub mod tree;
pub mod options;
pub mod refs;
pub mod merge_plan;
pub mod status;
