use vstd::prelude::*;

pub mod c4;
pub mod cs;
pub mod ebr;
pub mod nt;

pub use c4::C4;
pub use cs::CS;
pub use nt::NT;

verus! {

/// The games that come with the library.
#[derive(Debug, Clone, Copy, PartialEq, Eq, Structural)]
pub enum Games {
    C4,
    NT,
    CS,
    EBR,
}

} // verus!
