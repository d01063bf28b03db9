//! Bounds-checked little-endian reads out of an immutable byte buffer,
//! and the scan for a null terminator. Every cursor-advancing read in the
//! decoders goes through these.

use vstd::prelude::*;

verus! {

/// The 16-bit little-endian integer whose bytes sit at `b[i]`, `b[i + 1]`.
pub open spec fn le16(b: Seq<u8>, i: int) -> u16 {
    (b[i] as u16) | ((b[i + 1] as u16) << 8)
}

/// The 32-bit little-endian integer whose bytes start at `b[i]`.
pub open spec fn le32(b: Seq<u8>, i: int) -> u32 {
    (b[i] as u32) | ((b[i + 1] as u32) << 8) | ((b[i + 2] as u32) << 16)
        | ((b[i + 3] as u32) << 24)
}

/// The 64-bit little-endian integer whose bytes start at `b[i]`.
pub open spec fn le64(b: Seq<u8>, i: int) -> u64 {
    (le32(b, i) as u64) | ((le32(b, i + 4) as u64) << 32)
}

/// Index of the first zero byte at or after `i`, or `b.len()` if none.
pub open spec fn find_nul(b: Seq<u8>, i: int) -> int
    decreases b.len() - i when 0 <= i <= b.len()
{
    if i >= b.len() {
        b.len() as int
    } else if b[i] == 0 {
        i
    } else {
        find_nul(b, i + 1)
    }
}

/// A scan that sees no zero before `j` and a zero at `j` (or runs off the
/// end) has found exactly `find_nul`.
pub proof fn lemma_find_nul_at(b: Seq<u8>, i: int, j: int)
    requires
        0 <= i <= j <= b.len(),
        forall|k: int| i <= k < j ==> b[k] != 0,
        j == b.len() || b[j] == 0,
    ensures
        find_nul(b, i) == j,
    decreases j - i,
{
    if i < j {
        lemma_find_nul_at(b, i + 1, j);
    }
}

/// Bytes read one `u8`, in bounds or `None`.
pub fn read_u8(b: &[u8], i: usize) -> (r: Option<u8>)
    ensures
        r is Some <==> i < b@.len(),
        r is Some ==> r->0 == b@[i as int],
{
    if i < b.len() {
        Some(b[i])
    } else {
        None
    }
}

/// Bytes read one little-endian `u16`, in bounds or `None`.
pub fn read_u16(b: &[u8], i: usize) -> (r: Option<u16>)
    ensures
        r is Some <==> i + 2 <= b@.len(),
        r is Some ==> r->0 == le16(b@, i as int),
{
    if b.len() < 2 || i > b.len() - 2 {
        None
    } else {
        Some((b[i] as u16) | ((b[i + 1] as u16) << 8))
    }
}

/// Bytes read one little-endian `u32`, in bounds or `None`.
pub fn read_u32(b: &[u8], i: usize) -> (r: Option<u32>)
    ensures
        r is Some <==> i + 4 <= b@.len(),
        r is Some ==> r->0 == le32(b@, i as int),
{
    if b.len() < 4 || i > b.len() - 4 {
        None
    } else {
        Some(
            (b[i] as u32) | ((b[i + 1] as u32) << 8) | ((b[i + 2] as u32) << 16)
                | ((b[i + 3] as u32) << 24),
        )
    }
}

/// Bytes read one little-endian `u64`, in bounds or `None`.
pub fn read_u64(b: &[u8], i: usize) -> (r: Option<u64>)
    ensures
        r is Some <==> i + 8 <= b@.len(),
        r is Some ==> r->0 == le64(b@, i as int),
{
    if b.len() < 8 || i > b.len() - 8 {
        None
    } else {
        let lo = (b[i] as u32) | ((b[i + 1] as u32) << 8) | ((b[i + 2] as u32) << 16)
            | ((b[i + 3] as u32) << 24);
        let hi = (b[i + 4] as u32) | ((b[i + 5] as u32) << 8) | ((b[i + 6] as u32) << 16)
            | ((b[i + 7] as u32) << 24);
        Some((lo as u64) | ((hi as u64) << 32))
    }
}

/// Scan for the first zero byte at or after `i`; `None` when the scan runs
/// off the end of the buffer (or starts past it).
pub fn scan_nul(b: &[u8], i: usize) -> (r: Option<usize>)
    ensures
        i <= b@.len() ==> {
            &&& r is Some <==> find_nul(b@, i as int) < b@.len()
            &&& r is Some ==> r->0 == find_nul(b@, i as int)
        },
        i > b@.len() ==> r is None,
        r is Some ==> i <= r->0 < b@.len(),
{
    if i > b.len() {
        return None;
    }
    let mut j: usize = i;
    while j < b.len()
        invariant
            i <= j <= b@.len(),
            forall|k: int| i <= k < j ==> b@[k] != 0,
        decreases b@.len() - j,
    {
        if b[j] == 0 {
            proof {
                lemma_find_nul_at(b@, i as int, j as int);
            }
            return Some(j);
        }
        j += 1;
    }
    proof {
        lemma_find_nul_at(b@, i as int, b@.len() as int);
    }
    None
}

/// Byte-for-byte comparison of two vectors.
pub fn bytes_eq(a: &Vec<u8>, b: &Vec<u8>) -> (r: bool)
    ensures
        r <==> a@ == b@,
{
    if a.len() != b.len() {
        return false;
    }
    let mut i: usize = 0;
    while i < a.len()
        invariant
            i <= a@.len(),
            a@.len() == b@.len(),
            forall|k: int| 0 <= k < i ==> a@[k] == b@[k],
        decreases a@.len() - i,
    {
        if a[i] != b[i] {
            return false;
        }
        i += 1;
    }
    proof {
        assert(a@ =~= b@);
    }
    true
}

/// Copy of `b[from..to]` as a fresh vector.
pub fn copy_range(b: &[u8], from: usize, to: usize) -> (r: Vec<u8>)
    requires
        from <= to <= b@.len(),
    ensures
        r@ == b@.subrange(from as int, to as int),
{
    let mut out: Vec<u8> = Vec::new();
    let mut j: usize = from;
    while j < to
        invariant
            from <= j <= to <= b@.len(),
            out@ == b@.subrange(from as int, j as int),
        decreases to - j,
    {
        out.push(b[j]);
        proof {
            assert(out@ =~= b@.subrange(from as int, j + 1));
        }
        j += 1;
    }
    out
}

} // verus!
