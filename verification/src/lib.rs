//! The resource usage of containers, read from the text in which a container
//! runtime reports it and kept, container by container, as the latest
//! figures: the share of processor time, memory in use and its limit, bytes
//! over the network and bytes on block devices.
//!
//! `parser` reads the fields of a sample, `decode` a whole line, `stat`
//! holds a sample in text and in figures, `store` keeps the latest figures
//! of every container, and `gauge` names the gauges under which they are
//! published. `text` and `number` hold what the readers are made of.

pub mod decode;
pub mod gauge;
pub mod number;
pub mod parser;
pub mod stat;
pub mod store;
pub mod text;
