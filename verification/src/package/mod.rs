pub mod compress;
