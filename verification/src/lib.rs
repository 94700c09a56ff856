//! A vault of satellite orbit data: Two-Line Element sets read from text and
//! validated, and the records that the vault keeps of satellites and orbits.
pub mod record;
pub mod text;
