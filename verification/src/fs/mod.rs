//! What files are made of, as far as it does not depend on a device.
pub mod fcntl;
pub mod pipe;
