//! Verified coordination logic for an interactive credential picker.
//!
//! The crate parses the JSON responses of a secrets-manager CLI, maps a
//! user's selection (a title or a zero-based index) back to the chosen
//! item, decides which field to fetch from a prompt string, and trims the
//! fetched value.  All process I/O — spawning the CLI and the selector —
//! lives outside the library and hands it plain byte vectors.

use vstd::prelude::*;

pub mod json;
pub mod select;

verus! {

/// A stored credential record: an opaque identifier and a display title,
/// both kept as the UTF-8 bytes found in the CLI's JSON response.
#[derive(Debug, PartialEq, Eq)]
pub struct Item {
    pub id: Vec<u8>,
    pub title: Vec<u8>,
}

/// Mathematical model of an [`Item`]: the two byte strings.
pub ghost struct ItemModel {
    pub id: Seq<u8>,
    pub title: Seq<u8>,
}

impl View for Item {
    type V = ItemModel;

    open spec fn view(&self) -> ItemModel {
        ItemModel { id: self.id@, title: self.title@ }
    }
}

} // verus!
