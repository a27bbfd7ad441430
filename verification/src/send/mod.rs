//! The sending side: how a file becomes packets.
pub mod raptor;
pub mod raptor_q;
