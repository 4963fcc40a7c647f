//! Verified core of a tool set that places GPS-tagged photos in space and
//! time and groups them into clusters.
pub mod clusters;
pub mod encoding;
pub mod exif;
pub mod live;
pub mod neighbours;
pub mod summary;
pub mod text;

