pub mod codec_laws;
pub mod master;
pub mod mode;
pub mod num;
pub mod rdb;
pub mod replica;
pub mod resp;
pub mod store;
pub mod stream;
pub mod value;
