//! The logic of a loopback audio splitter, which plays what the default speaker plays on a second
//! output as well: cutting captured audio into chunks, feeding the second output, metering both
//! sides, finding devices by name, and the state behind the window.

pub mod bridge;
pub mod capture;
pub mod devices;
pub mod layout;
pub mod meters;
pub mod peak;
pub mod playback;
pub mod single;
pub mod splitter;
pub mod text;
