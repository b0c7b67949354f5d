pub mod stat;
pub mod change;
pub mod change_generic;
pub mod cache_set;
pub mod determining;
pub mod bundle;
pub mod stat_pac;
pub mod stat_apply_change;
pub mod determining_apply_changes;
pub mod determining_apply_changes_generic;
