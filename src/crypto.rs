pub mod hash_functions;
pub mod legendre_prf;
pub mod merkle;
pub mod polynomial;
