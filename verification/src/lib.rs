//! Driver core for a small monochrome HID display: a packed-bit canvas,
//! text compositing from pre-rasterized glyphs, chunking of the canvas into
//! fixed-size transport packets, and diff-based transmission that resends
//! only the packets that changed since the previous frame.

pub mod bits;
pub mod canvas;
pub mod layout;
pub mod packet;
pub mod timefmt;
pub mod transport;
