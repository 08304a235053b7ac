//! Pure logic of a terminal viewer and editor for Cosense (Scrapbox) pages:
//! outline planning, whole-page edit scripts, review comments, the page
//! index, notation scanning and the small parsers around them.
#![allow(unused_imports)]

use vstd::prelude::*;

pub mod outline;
pub mod text;
pub mod clock;
pub mod api;
pub mod editops;
pub mod lang;
pub mod capability;
pub mod comment;
pub mod index;
pub mod bytes;
pub mod image_probe;
pub mod chrome;
pub mod ime;
pub mod clipboard;
pub mod render;
pub mod inline;
pub mod image_fetch;
pub mod config;
pub mod math;
pub mod undo;
pub mod decorate;
pub mod table;
pub mod page;
pub mod weave;
pub mod web_batch;
pub mod view_settings;
pub mod content;
pub mod inline_layout;

verus! {

} // verus!
