//! Extraction of pool `Swap` events from committed chain segments, and the
//! queue records built from them.

pub mod chain;
pub mod text;
pub mod decode;
pub mod record;
pub mod publish;
