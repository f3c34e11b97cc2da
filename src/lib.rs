//! Ranking in the factorial number system: a validated alphabet of symbols,
//! and the Lehmer-code digit vector of an ordinal index over that alphabet.

pub mod charset;
pub mod error;
pub mod lehmer;
pub mod text;

pub use charset::CharSet;
pub use error::LehmerError;
pub use lehmer::LehmerCodeValue;

