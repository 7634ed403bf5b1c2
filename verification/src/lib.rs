pub mod datetime;
pub mod filter;
pub mod metadata;
pub mod reconcile;
pub mod scope;
pub mod store;

pub use datetime::parse_capture_datetime;
pub use filter::{filter_image_names, is_image_filename};
pub use metadata::capture_instant_from_bytes;
pub use reconcile::{
    commit_reconcile, compute_diff, join_path, plan_reconcile, resolve_effective_dir, ImageInfo,
    ReconcileError, ReconcilePlan,
};
pub use scope::sanitize_table_name;
pub use store::{CacheEntry, TimestampStore};
