pub mod test_enum_match;
pub mod test_struct_match;
