//! An acoustic data modem's data-link stack: packet framing, the symbolic side
//! of multi-tone modulation, spectral tone detection on integer energy columns,
//! preamble voting, and the receiver's synchronisation state machine.

pub mod endian;
pub mod packet;
pub mod packet_laws;
pub mod physics;
pub mod preamble;
pub mod spectrum;
pub mod text;
pub mod transmission;

pub use packet::{DecodeError, Packet};
pub use text::{decode, encode};
