//! Categorization of URLs and domains against named blocklists.
//!
//! A [`MultipleBlocklist`] holds a domain index and a URL index, each mapping a
//! normalized key to the categories (tags) whose lists name it. Looking up a
//! candidate merges the tags of its domain, of every ancestor domain above the
//! top-level label, and of its URL.
pub mod ancestors;
pub mod blocklist;
pub mod blocklist_multi;
pub mod error;
pub mod parsed_url;
pub mod tag_index;

pub use blocklist::Blocklist;
pub use blocklist_multi::Blocklist as MultipleBlocklist;
pub use error::Ut1Error as Error;
pub use parsed_url::ParsedUrl;
