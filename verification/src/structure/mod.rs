pub mod adjacencylist;
pub mod bitarray;
pub mod bitindex;
pub mod logarray;
pub mod objectindex;
pub mod pfc;
pub mod storage;
pub mod tripleindex;
pub mod wavelettree;
