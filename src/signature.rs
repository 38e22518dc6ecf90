pub mod aggregate;
pub mod loquat;
pub mod ring_signature;
