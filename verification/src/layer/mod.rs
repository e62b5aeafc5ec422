pub mod base;
pub mod builder;
pub mod child;
pub mod files;
pub mod layer;
pub mod rollup;
