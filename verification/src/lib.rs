//! A reliable, ordered byte-stream transport over unreliable datagrams.
//!
//! The crate verifies the protocol engine itself: the packet codec with its
//! CRC-32 integrity check, the handshake state machine, the interlocked
//! send/receive queues with wrap-safe sequence arithmetic, acknowledgement
//! processing, and the periodic tick that drives heartbeats, liveness
//! detection, retransmission and window-gated emission.  The caller owns the
//! datagram socket and the clock: inbound datagrams and the current time in
//! milliseconds are handed in, outbound datagrams are handed back.

pub mod laws;
pub mod packet;
pub mod seqnum;
pub mod stream;
