pub mod ascii_num;
pub mod export_irap_ascii;
pub mod export_irap_binary;
pub mod ieee;
pub mod import_irap_ascii;
pub mod import_irap_binary;
pub mod irap;
pub mod laws;
pub mod utils;
pub mod words;

pub use irap::Irap;
pub use irap::IrapError;
pub use irap::IrapHeader;
