//! Packet formats and the verified sending and receiving logic of a
//! one-way UDP file transfer that protects its data with Raptor codes.

pub mod fountain;
pub mod packet;
pub mod recv;
pub mod rq;
pub mod send;

pub use packet::{EncoderConfig, Packet, PacketQ, Preamble};
