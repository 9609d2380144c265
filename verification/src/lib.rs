//! Verified core of a camera pose-estimation pipeline and of a small
//! in-memory byte device: colour conversion, pixel packing, the length-framed
//! wire protocol between camera client and inference server, and the
//! bounded read/write window of the memory device with its shared counter.

pub mod byte_order;
pub mod color;
pub mod pixels;
pub mod memory;
pub mod counter;
pub mod frame;
pub mod control;
