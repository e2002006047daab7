pub mod codec;
pub mod compress;
pub mod compression;
pub mod de;
pub mod error;
pub mod header;
pub mod meta;
pub mod path;
pub mod reader;
pub mod record;
pub mod ser;
pub mod writer;

pub use compression::Compression;
pub use error::{BoxError, FormatError, PathError};
pub use header::BoxHeader;
pub use meta::BoxMetadata;
pub use path::BoxPath;
pub use record::{AttrMap, DirectoryRecord, FileRecord, LinkRecord, Record};
