pub mod errors;
pub mod path;
pub mod str_id;
pub mod timestamps;
pub mod version;

pub use errors::Error;
pub use path::Path;
pub use path::PathError;
pub use str_id::StrId;
pub use timestamps::Timestamps;
pub use version::Version;
pub use version::VersionError;
