pub mod member_order;
pub mod sorted_set;
pub mod receipt_map;
