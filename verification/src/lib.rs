//! Builder for VDFS volumes: packages a directory tree into a single binary
//! archive made of a fixed-layout header, a flat catalog of fixed-width
//! records, and a contiguous data segment holding the packaged file contents.

pub mod archive;
pub mod bytes;
pub mod encode;
pub mod filetree;
pub mod laws;
pub mod linearize;
pub mod script;
pub mod siblings;
