//! Verified core of a maimai touch-panel emulator: the serial touch packet,
//! the zone layout, colour-based zone lookup, the touch-event state machine
//! and the handshake protocol spoken with the game.

pub mod event;
pub mod image_access;
pub mod layout;
pub mod packet;
pub mod serial;
pub mod touch;
pub mod zone;
