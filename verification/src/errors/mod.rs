pub mod error;

pub use error::Define;
pub use error::Error;
