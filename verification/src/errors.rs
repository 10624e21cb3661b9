use vstd::prelude::*;

verus! {

/// The recoverable failures a `PacketBuffer` operation can report.
///
/// Every checked access that would touch an offset at or past capacity
/// reports `IndexOutOfBound`; a compression-pointer chain longer than the
/// configured maximum reports `JumpsLimit` carrying that maximum; a label
/// too long for the 6-bit wire length field reports `LabelLenLimit`.
#[derive(Clone, Copy, Debug, PartialEq, Eq, Structural)]
pub enum DnsError {
    IndexOutOfBound,
    JumpsLimit(u8),
    LabelLenLimit,
}

} // verus!
