pub mod cache;
pub mod errors;

pub use cache::Cache;
pub use cache::CacheError;
