pub mod linkedlist1;
pub mod linkedlist2;
