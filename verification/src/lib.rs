pub mod channel;
pub mod device;
pub mod experiment;
pub mod instruction;
pub mod maps;
pub mod ports;
pub mod stream;
pub mod utils;
pub mod value;
pub mod worker;
