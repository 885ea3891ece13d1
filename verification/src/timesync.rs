use vstd::prelude::*;

verus! {

/// Milliseconds between the Unix epoch and the epoch that the
/// time-broadcast service counts from.
pub const EPOCH_OFFSET_MS: u64 = 1704063600000;

/// Byte `i` (little-endian order) of `t`.
pub open spec fn le_byte(t: u64, i: int) -> u8 {
    ((t >> ((8 * i) as u64)) & 0xff) as u8
}

/// Milliseconds since the service epoch, computed from a wall-clock
/// reading in milliseconds since the Unix epoch.  `None` when the
/// reading lies before the service epoch or the difference does not
/// fit a `u64`.
pub fn time(now_unix_ms: u128) -> (r: Option<u64>)
    ensures
        match r {
            Some(t) => {
                &&& now_unix_ms >= EPOCH_OFFSET_MS
                &&& t == now_unix_ms - EPOCH_OFFSET_MS
            },
            None => now_unix_ms < EPOCH_OFFSET_MS
                || now_unix_ms - EPOCH_OFFSET_MS > u64::MAX,
        },
{
    if now_unix_ms < EPOCH_OFFSET_MS as u128 {
        return None;
    }
    let d: u128 = now_unix_ms - EPOCH_OFFSET_MS as u128;
    if d > u64::MAX as u128 {
        None
    } else {
        Some(d as u64)
    }
}

/// The 16-byte frame the time-broadcast service writes to each client:
/// the timestamp once in little-endian and once in big-endian byte order.
pub fn time_frame(t: u64) -> (r: Vec<u8>)
    ensures
        r@.len() == 16,
        forall|i: int| 0 <= i < 8 ==> r@[i] == le_byte(t, i),
        forall|i: int| 8 <= i < 16 ==> r@[i] == le_byte(t, 15 - i),
{
    let mut r: Vec<u8> = Vec::new();
    let mut i: u64 = 0;
    while i < 8
        invariant
            0 <= i <= 8,
            r@.len() == i,
            forall|j: int| 0 <= j < i ==> r@[j] == le_byte(t, j),
        decreases 8 - i,
    {
        proof {
            assert((t >> (8 * i)) & 0xff <= 0xff) by (bit_vector);
        }
        r.push(((t >> (8 * i)) & 0xff) as u8);
        i = i + 1;
    }
    let mut k: u64 = 8;
    while k < 16
        invariant
            8 <= k <= 16,
            r@.len() == k,
            forall|j: int| 0 <= j < 8 ==> r@[j] == le_byte(t, j),
            forall|j: int| 8 <= j < k ==> r@[j] == le_byte(t, 15 - j),
        decreases 16 - k,
    {
        let sh: u64 = 15 - k;
        proof {
            assert((t >> (8 * sh)) & 0xff <= 0xff) by (bit_vector);
        }
        r.push(((t >> (8 * sh)) & 0xff) as u8);
        k = k + 1;
    }
    r
}

} // verus!
