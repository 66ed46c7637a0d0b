//! Navigation core of an image browser: ordering the files of a folder,
//! stepping through them, remembering favourites and caching decoded images.

pub mod cache;
pub mod collect;
pub mod db;
pub mod interleave;
pub mod message;
pub mod natural;
pub mod path;
pub mod pathset;
pub mod scrubber;
