pub mod stat_for_hlist;
