pub mod builder;
pub mod candid_type;
pub mod error;
pub mod leb128;
pub mod little_endian;
pub mod type_ser;
pub mod types;
pub mod value;
pub mod value_ser;
