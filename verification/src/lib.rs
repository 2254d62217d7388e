//! Timing core of a live MIDI loop recorder: a musical-time coordinate
//! system (measures and quantization grid), a quantized recorded-loop
//! buffer with tempo rescaling and real-time replay, and reconstruction
//! of structured note spans from paired note events.

pub mod measure;
pub mod midi;
pub mod sample;
