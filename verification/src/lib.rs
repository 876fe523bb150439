use vstd::prelude::*;

pub mod linear_map;
pub mod ring_buffer;
pub mod string;
pub mod vec;

pub use linear_map::LinearMap;
pub use ring_buffer::RingBuffer;
pub use string::String;
pub use vec::Vec;

verus! {

/// The error returned when a fixed-capacity container has no room left.
#[derive(Debug, PartialEq, Eq, Structural)]
pub enum Error {
    Full,
}

} // verus!
