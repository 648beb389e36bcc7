//! ISO 9660 image construction.

pub mod name;
pub mod types;
pub mod susp;
pub mod system_use;
pub mod metadata;
pub mod time;
pub mod error;
pub mod tree;
pub mod refmap;
pub mod written;
pub mod relocate;
pub mod dedup;
pub mod extent;
pub mod order;
pub mod rrip;
pub mod shapes;
pub mod records;
pub mod layout;
pub mod record_laws;
pub mod plan;
pub mod emit;
pub mod path_table;
pub mod volume;
pub mod boot;
pub mod partition;
pub mod boot_image;

pub mod options;
pub mod estimator;
pub mod usual_size;
pub mod planned;
pub mod image;
pub mod chunk;
pub mod plan_laws;
pub mod success_laws;
pub mod boot_laws;
pub mod content_laws;
pub mod gather;
pub mod sums;
pub mod record_sizes;
pub mod tree_sums;
pub mod relocation_sums;
pub mod estimate_laws;
pub mod read_laws;
pub mod field_laws;
pub mod table_laws;
pub mod disk_laws;
pub mod catalog_laws;
pub mod tree_laws;
pub mod image_laws;
pub mod size_laws;
