pub mod autotools;
pub mod cmake;
pub mod defrag;
