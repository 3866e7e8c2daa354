pub mod doh;
pub mod dot;
