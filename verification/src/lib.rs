//! Master playlists of HTTP Live Streaming: reading one from its text,
//! sorting its entries by the fields of the variants, and writing it again.
//!
//! `attribute` lexes attribute lists, `read` parses a playlist, `playlist`
//! holds the model and writes it, `sort` sorts by several fields at once and
//! `variant` names the fields of a variant. `roundtrip` shows that what is
//! written is read again as it was, and `text` holds the work on characters
//! that the others share.
pub mod attribute;
pub mod playlist;
pub mod read;
pub mod roundtrip;
pub mod sort;
pub mod text;
pub mod variant;

pub use attribute::AttributePairs;
pub use playlist::{Attributes, Entry, MasterPlaylist};
pub use read::parse_playlist;
pub use sort::{by_fields, Direction, SortField, SortableByField};
pub use variant::VariantSortFieldName;
