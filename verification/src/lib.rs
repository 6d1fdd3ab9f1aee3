//! Verified rolling-window drivers for candle envelope indicators.
pub mod windows;
