//! Framing and carrier-tracking core of a two-tone (V.21-style) FSK modem.
//!
//! The transmit side expands bytes into a line signal of one value per
//! sample (start bit, eight data bits least significant first, stop bit);
//! the receive side recovers bytes from such a signal, and a hysteresis
//! state machine decides when a carrier is present.
pub mod carrier;
pub mod uart;
