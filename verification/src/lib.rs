pub mod blocks;
pub mod closure_sample;
pub mod codec;
pub mod collection_sample;
pub mod compress;
pub mod iterator_sample;
pub mod package;
pub mod table;
pub mod traits;
pub mod util;
