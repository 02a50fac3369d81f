//! Verified core of the Cirrust desktop client: the iCalendar/vCard codecs,
//! the three-way sync decisions and the small path/text rules around them.

use vstd::prelude::*;

pub mod text;
pub mod paths;
pub mod journal;
pub mod engine;
pub mod contentline;
pub mod lossless;
pub mod lookup;
pub mod readback;
pub mod vcard;
pub mod clock;
pub mod num;
pub mod datetime;
pub mod ical;
pub mod pathmap;
pub mod plan;
pub mod progress;
pub mod config;
pub mod status;
pub mod stream;
pub mod mediahttp;
pub mod auth;
pub mod store;
pub mod xml;
pub mod dav;
pub mod webdav;
pub mod trash;
pub mod caldav;
pub mod carddav;
pub mod ocs;
pub mod install;
pub mod bus;
pub mod control;
pub mod checksum;
pub mod mediacache;
pub mod files;

verus! {
} // verus!
