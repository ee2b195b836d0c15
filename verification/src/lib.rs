pub mod init;
pub mod laws;
pub mod rng;
pub mod sim;
