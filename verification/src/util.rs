//! Building blocks shared by the consensus types.

pub mod cancel;
pub mod clique;
pub mod codec;
pub mod handle;
pub mod hash;
pub mod weight;
