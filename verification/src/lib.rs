//! Plain-text colour images: a rectangular buffer of quantised pixels and
//! its serialisation, together with the decision rules of ray/sphere
//! intersection that do not depend on real-number arithmetic.

pub mod ascii;
pub mod decimal;
pub mod hit;
pub mod ppm;
pub mod unambiguous;
