pub mod errors;
pub mod laws;
pub mod name_wire;
pub mod packet_buffer;

pub use errors::DnsError;
pub use packet_buffer::PacketBuffer;
