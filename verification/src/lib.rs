pub mod hash_table;
pub mod linked_list;
pub mod queue;
