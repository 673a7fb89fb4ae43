use vstd::prelude::*;

verus! {

/// Relies on rand::random: an arbitrary identifier; nothing is promised
/// of the value.
#[verifier::external_body]
pub fn random_u16() -> (r: u16) {
    rand::random::<u16>()
}

/// Relies on rand::random: an arbitrary sequence number; nothing is
/// promised of the value.
#[verifier::external_body]
pub fn random_u32() -> (r: u32) {
    rand::random::<u32>()
}

/// Relies on rand::random_range: a source port drawn from the ephemeral
/// band the scanners use.
#[verifier::external_body]
pub fn random_high_port() -> (r: u16)
    ensures
        50_000 <= r < 65_535,
{
    rand::random_range(50_000..u16::MAX)
}

/// A 20-bit flow label from an arbitrary draw.
pub fn random_flow_label() -> (r: u32)
    ensures
        r < 0x10_0000,
{
    let v = random_u32();
    v % 0x10_0000
}

} // verus!
