use crate::level::nbt_net_scan::net_varints_fit;
use vstd::prelude::*;

verus! {

#[verifier::external_type_specification]
#[verifier::external_body]
pub struct ExNbtError(nbtx::Error);

/// How many bytes `nbtx::from_le_bytes` leaves unread after it reads one NBT value
/// (in the little endian variant that Bedrock writes to disk) from the start of the
/// bytes, or `None` where it fails.
pub uninterp spec fn nbt_le_rest_len(bytes: Seq<u8>) -> Option<nat>;

/// How many bytes `nbtx::from_net_bytes` leaves unread after it reads one NBT value
/// (in the network variant) from the start of the bytes, or `None` where it fails.
pub uninterp spec fn nbt_net_rest_len(bytes: Seq<u8>) -> Option<nat>;

/// `nbtx::from_le_bytes` read into `nbtx::Value`: reads one NBT value from the start of
/// `bytes` and gives the number of bytes that follow it. The claim: the result is the named
/// `nbt_le_rest_len` of the bytes, and the bytes left are no more than the bytes given
/// (the reader advances through the slice). Which error comes back is not stated.
#[verifier::external_body]
pub(crate) fn read_le_value(bytes: &[u8]) -> (r: Result<usize, nbtx::Error>)
    ensures
        match r {
            Ok(rest) => nbt_le_rest_len(bytes@) == Some(rest as nat) && rest <= bytes@.len(),
            Err(_) => nbt_le_rest_len(bytes@) is None,
        },
{
    let mut reader = bytes;
    match nbtx::from_le_bytes::<nbtx::Value, _>(&mut reader) {
        Ok(_) => Ok(reader.len()),
        Err(e) => Err(e),
    }
}

/// `nbtx::from_net_bytes` read into `nbtx::Value`: as `read_le_value`, for the network
/// variant, with the named `nbt_net_rest_len`. The network variant reads lengths and numbers
/// as varints, and its varint reader shifts a `u32` by 35 (a `u64` by 70) once a varint runs
/// past five (ten) bytes with the high bit set, which panics where overflow is checked;
/// `requires` leaves out those inputs: `net_varints_fit` follows the path along which the
/// value is read (root compound, name, fields; lists and arrays with their counts) and
/// holds where that path meets no such varint.
#[verifier::external_body]
pub(crate) fn read_net_value(bytes: &[u8]) -> (r: Result<usize, nbtx::Error>)
    requires
        net_varints_fit(bytes@),
    ensures
        match r {
            Ok(rest) => nbt_net_rest_len(bytes@) == Some(rest as nat) && rest <= bytes@.len(),
            Err(_) => nbt_net_rest_len(bytes@) is None,
        },
{
    let mut reader = bytes;
    match nbtx::from_net_bytes::<nbtx::Value, _>(&mut reader) {
        Ok(_) => Ok(reader.len()),
        Err(e) => Err(e),
    }
}

} // verus!
