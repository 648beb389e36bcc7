//! File system images: exFAT volumes and ISO 9660 image construction.

pub mod bytes;
pub mod byte_laws;
pub mod civil;
pub mod exfat;
pub mod iso;
pub mod text;
pub mod text_laws;
