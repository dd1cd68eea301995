pub mod schema;
pub mod record;
pub mod file_scan;
pub mod projection;
pub mod merge_sort;
