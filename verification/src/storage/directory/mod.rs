pub mod decoder;
pub mod recovery;
pub mod wal;
