//! Verified core of a small cube ray tracer: the pixel grid that a frame is
//! rendered into, the choice of the nearest and of the occluding hit along a
//! ray, and the packing of a rendered frame into RGBA bytes.

pub mod framebuffer;
pub mod hit;
pub mod present;
