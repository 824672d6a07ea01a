pub mod stable_ordered_set;
