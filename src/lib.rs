pub mod list;
pub mod tree;
pub mod test_match;
