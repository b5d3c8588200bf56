//! Keeps stable keys for the paragraphs of a text across its revisions.
pub mod counts;
pub mod entries;
pub mod fill;
pub mod keys;
pub mod pipeline;
pub mod sort;
pub mod stability;
pub mod text;
pub mod unique;

pub use counts::TextCounts;
pub use entries::EntrySet;
pub use fill::{fill_similar_strings, match_similar_strings};
pub use keys::{add_usize_i32, get_key_number};
pub use pipeline::{pipeline, pipeline_with_table};
pub use sort::{alphabetical_sort, try_alphabetical_sort};
pub use text::string_to_array;
pub use unique::{get_unique_key, try_get_unique_key};
