pub mod bst1;
