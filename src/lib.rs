pub mod memory;
pub mod entry;
pub mod table;
pub mod codec;
pub mod catalog;
pub mod scan;
pub mod resolve;
pub mod textfile;
pub mod search;
