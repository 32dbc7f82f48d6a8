pub mod aggregate;
pub mod container;
pub mod decode;
pub mod gzip;
pub mod histogram;
pub mod payload;
pub mod serializer;
