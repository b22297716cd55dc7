pub mod segment_tree;
pub mod unionfind;
