//! HugiMQ: the verified core of a publish/subscribe broker and of its load generator.

pub mod address;
mod arith;
pub mod bench;
pub mod broker;
pub mod buffers;
pub mod codec;
pub mod consumer;
pub mod decimal;
pub mod frame;
pub mod histogram;
pub mod orchestrator;
pub mod producer;
pub mod protocol;
pub mod publisher;
pub mod ring_buffer;
pub mod server;
pub mod spsc_ring;
pub mod subscriber;
pub mod topics;
