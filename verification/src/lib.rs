//! The logic of `koe`, which turns a recorded meeting into a transcript and minutes:
//! everything between the bytes that the media and speech tools hand over and the text
//! that goes to disk.

pub mod media;
pub mod merge;
pub mod minutes;
pub mod progress;
pub mod segments;
pub mod speakers;
pub mod stitch;
pub mod text;
pub mod transcript;
