//! A 1-Wire bus engine and a DS18B20 thermometer command layer.
//!
//! The bus engine does not touch hardware itself: every bus operation is
//! recorded as a plan of line actions (drive low, release, sample, wait),
//! which the caller performs on a real open-drain pin. The levels sampled
//! while performing a plan are handed back to the decoders here.
pub mod one_wire;
pub mod ds18b20;
pub mod format;
