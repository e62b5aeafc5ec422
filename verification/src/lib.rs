pub mod buffer;
pub mod checksum;
pub mod endian;
pub mod layer;
pub mod radix;
pub mod storage;
pub mod store;
pub mod structure;
pub mod text;
