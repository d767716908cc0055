pub mod dilithium;
pub mod hash;
pub mod keys;
