//! Counting plays per track over a trailing window of calendar days.
//!
//! The pipeline is: the days of the window ([`calendar`], [`window`]), the
//! merge of the per-day documents that could be read ([`window`]), the count
//! per track identity ([`aggregate`]), and the stable ranking by count
//! ([`rank`]). Reading documents and publishing results happen outside.
pub mod calendar;
pub mod keys;
pub mod event;
pub mod aggregate;
pub mod rank;
pub mod window;
pub mod pipeline;
