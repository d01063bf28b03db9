//! The entry point resolver: picks apart the CLI header's entry-point
//! token, finds the method row it names, and reads the method's name out
//! of the `#Strings` heap.

use vstd::prelude::*;

use crate::bytes::{copy_range, find_nul, scan_nul};
use crate::tables::{MethodDef, METHOD_TABLE_ID};
use crate::InspectError;

verus! {

/// Whether a null-terminated string can be read at `start`: the start
/// lies in the buffer and a terminator follows before the end.
pub open spec fn heap_string_ok(b: Seq<u8>, start: int) -> bool {
    0 <= start <= b.len() && find_nul(b, start) < b.len()
}

/// The bytes of the null-terminated string at `start`, terminator
/// excluded.
pub open spec fn heap_string_at(b: Seq<u8>, start: int) -> Seq<u8> {
    b.subrange(start, find_nul(b, start))
}

/// Reads the null-terminated name at byte offset `base + index` of the
/// buffer; fails exactly when that offset is past the buffer or no
/// terminator follows.
pub fn read_heap_string(b: &[u8], base: u64, index: u64) -> (r: Result<Vec<u8>, InspectError>)
    ensures
        r is Ok <==> heap_string_ok(b@, base + index),
        r is Ok ==> r->Ok_0@ == heap_string_at(b@, base + index),
        r is Err ==> r->Err_0 == InspectError::Truncated,
{
    let blen = b.len();
    if base > u64::MAX - index {
        return Err(InspectError::Truncated);
    }
    let start = base + index;
    if start >= blen as u64 {
        return Err(InspectError::Truncated);
    }
    let s = start as usize;
    match scan_nul(b, s) {
        Some(p) => Ok(copy_range(b, s, p)),
        None => Err(InspectError::Truncated),
    }
}

/// The metadata table id packed in the entry-point token's high byte.
pub open spec fn token_table(token: u32) -> u32 {
    token >> 24
}

/// The 1-based row index packed in the token's low three bytes.
pub open spec fn token_row(token: u32) -> u32 {
    token & 0xFFFFFF
}

/// Resolves the entry-point token against the decoded method rows and
/// the string heap based at `strings_base`. The token must name the
/// method table, its row index is 1-based (zero is rejected) and must
/// fall inside the decoded rows; the row's name index is then read out
/// of the heap.
pub fn resolve_entry_point(
    b: &[u8],
    methods: &Vec<MethodDef>,
    strings_base: u64,
    token: u32,
) -> (r: Result<Vec<u8>, InspectError>)
    ensures
        r is Ok <==> (token_table(token) == METHOD_TABLE_ID && 1 <= token_row(token)
            <= methods@.len() && heap_string_ok(
            b@,
            strings_base + methods@[token_row(token) - 1].name,
        )),
        r is Ok ==> r->Ok_0@ == heap_string_at(
            b@,
            strings_base + methods@[token_row(token) - 1].name,
        ),
        r is Err ==> (r->Err_0 == InspectError::BadToken(token) || r->Err_0
            == InspectError::Truncated),
        r is Err ==> ((r->Err_0 == InspectError::BadToken(token)) <==> !(token_table(token)
            == METHOD_TABLE_ID && 1 <= token_row(token) <= methods@.len())),
        token_row(token) == 0 ==> r == Err::<Vec<u8>, InspectError>(InspectError::BadToken(token)),
{
    let table = token >> 24;
    let row = token & 0xFFFFFF;
    if table != METHOD_TABLE_ID || row == 0 || row as usize > methods.len() {
        return Err(InspectError::BadToken(token));
    }
    let m = methods[row as usize - 1];
    read_heap_string(b, strings_base, m.name as u64)
}

/// Resolves every method's name from the string heap, in row order;
/// fails exactly when some row's name index resolves to no readable
/// string.
pub fn method_names(b: &[u8], methods: &Vec<MethodDef>, strings_base: u64) -> (r: Result<
    Vec<Vec<u8>>,
    InspectError,
>)
    ensures
        r is Ok <==> (forall|k: int|
            0 <= k < methods@.len() ==> heap_string_ok(
                b@,
                strings_base + (#[trigger] methods@[k]).name,
            )),
        r is Ok ==> r->Ok_0@.len() == methods@.len(),
        r is Ok ==> forall|k: int|
            0 <= k < methods@.len() ==> (#[trigger] r->Ok_0@[k])@ == heap_string_at(
                b@,
                strings_base + methods@[k].name,
            ),
        r is Err ==> r->Err_0 == InspectError::Truncated,
{
    let mut out: Vec<Vec<u8>> = Vec::new();
    let n = methods.len();
    let mut k: usize = 0;
    while k < n
        invariant
            n == methods@.len(),
            0 <= k <= n,
            out@.len() == k,
            forall|j: int|
                0 <= j < k ==> heap_string_ok(b@, strings_base + (#[trigger] methods@[j]).name),
            forall|j: int|
                0 <= j < k ==> (#[trigger] out@[j])@ == heap_string_at(
                    b@,
                    strings_base + methods@[j].name,
                ),
        decreases n - k,
    {
        match read_heap_string(b, strings_base, methods[k].name as u64) {
            Ok(name) => {
                out.push(name);
            },
            Err(_) => {
                return Err(InspectError::Truncated);
            },
        }
        k += 1;
    }
    Ok(out)
}

/// Index of the first name equal to `target`, if any.
pub fn find_name(names: &Vec<Vec<u8>>, target: &Vec<u8>) -> (r: Option<usize>)
    ensures
        r is Some ==> 0 <= r->0 < names@.len() && names@[r->0 as int]@ == target@,
        r is Some ==> forall|j: int| 0 <= j < r->0 ==> (#[trigger] names@[j])@ != target@,
        r is None ==> forall|j: int| 0 <= j < names@.len() ==> (#[trigger] names@[j])@ != target@,
{
    let n = names.len();
    let mut i: usize = 0;
    while i < n
        invariant
            n == names@.len(),
            0 <= i <= n,
            forall|j: int| 0 <= j < i ==> (#[trigger] names@[j])@ != target@,
        decreases n - i,
    {
        if crate::bytes::bytes_eq(&names[i], target) {
            return Some(i);
        }
        i += 1;
    }
    None
}

} // verus!
