//! Workshop item bundles: a line-oriented text format embedding item ids and
//! metadata directives, the bundle entity, the collection diff, the ordered
//! bundle store and the serializer back into the text format.

mod bundle;
mod collection;
mod diff;
mod format;
mod store;
mod text;
mod timestamp;

pub use bundle::{Bundle, BundleError, CollectionLink};
pub use collection::{bundles_path, check_bundle_collection, CollectionData, QueriedItem};
pub use diff::diff;
pub use store::Bundles;
pub use text::{decimal_text, parse_u64};
pub use timestamp::{ts_le, Timestamp, RFC2822_MAX_SECS, RFC2822_MIN_SECS};
