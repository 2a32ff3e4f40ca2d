//! The boundary to the system: what its structures mean and what follows from
//! what its calls return.

pub mod attrlist;
pub mod errno;
pub mod ffi;
pub mod iopolicy;
pub mod mounts;
pub mod tcc;
