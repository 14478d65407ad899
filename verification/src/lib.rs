pub mod bigdec;
pub mod binary64;
pub mod cloud;
pub mod indexer;
pub mod storage;
pub mod text;
pub mod tui;
pub mod types;
pub mod util;
