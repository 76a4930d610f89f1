pub mod bits;
pub mod mem;
pub mod pd;
pub mod tasks;
pub mod term;
pub mod utils;
pub mod boot;
pub mod bytes;
pub mod collections;
pub mod desc;
pub mod drivers;
