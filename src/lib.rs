//! Distance readings from a MaxSonar ultrasonic rangefinder.
//!
//! The sensor is driven into free-run mode through a trigger line and then
//! streams range frames of the form `R####\r` over a serial link.
//! [`frame`] assembles and decodes those frames from arbitrarily split reads;
//! [`acquisition`] sequences one measurement cycle (trigger, settle, read,
//! release) as a state machine whose actions the caller carries out.
pub mod frame;
pub mod stream;
pub mod acquisition;
