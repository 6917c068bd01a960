use vstd::prelude::*;
use crate::block::MAX_ADDR;

verus! {

/// The bytes that a conventional textual MAC-address notation denotes, or
/// nothing when the text is no valid address literal; a function of the
/// characters alone.
pub uninterp spec fn mac_bytes_of(s: Seq<char>) -> Option<Seq<u8>>;

/// Relies on macaddr::MacAddr6's FromStr impl: it parses colon-, dash- or
/// dot-separated hex notations of a 6-byte hardware address, and its
/// outcome depends on the characters of the text alone.
#[verifier::external_body]
pub fn parse_mac_text(s: &str) -> (r: Option<[u8; 6]>)
    ensures
        match r {
            Some(b) => mac_bytes_of(s@) == Some(b@),
            None => mac_bytes_of(s@) == None::<Seq<u8>>,
        },
{
    match s.parse::<macaddr::MacAddr6>() {
        Ok(m) => Some(m.into_array()),
        Err(_) => None,
    }
}

/// The 48-bit integer that a 6-byte hardware address denotes, big-endian.
pub open spec fn spec_mac_int(b: Seq<u8>) -> int {
    b[0] * 0x100_0000_0000 + b[1] * 0x1_0000_0000 + b[2] * 0x100_0000 + b[3] * 0x1_0000 + b[4]
        * 0x100 + b[5]
}

/// Converts a 6-byte hardware address into the 48-bit unsigned integer
/// used as the range-index query key: the bytes are read big-endian, as if
/// left-padded with two zero bytes to a 64-bit width.
pub fn mac_to_u64(b: &[u8; 6]) -> (r: u64)
    ensures
        r == spec_mac_int(b@),
        r <= MAX_ADDR,
{
    let b0 = b[0] as u64;
    let b1 = b[1] as u64;
    let b2 = b[2] as u64;
    let b3 = b[3] as u64;
    let b4 = b[4] as u64;
    let b5 = b[5] as u64;
    b0 * 0x100_0000_0000 + b1 * 0x1_0000_0000 + b2 * 0x100_0000 + b3 * 0x1_0000 + b4 * 0x100 + b5
}

} // verus!
