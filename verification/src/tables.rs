//! The table stream decoder: the `#~` compressed-metadata-tables stream,
//! whose row layout is data-dependent, driven by a 64-bit presence
//! bitmask and per-table row widths. The method-definition table is
//! materialized row by row; every other table is skipped byte-exactly.

use vstd::prelude::*;

use crate::bytes::{le16, le32, le64, read_u16, read_u32, read_u64, read_u8};
use crate::InspectError;

verus! {

/// Metadata table id of the method-definition table.
pub const METHOD_TABLE_ID: u32 = 6;

/// One row of the method-definition table: 14 bytes of little-endian
/// fields. The name, signature and param-list fields are 2-byte heap
/// indexes.
#[derive(Debug, Clone, Copy, PartialEq, Eq, Structural)]
pub struct MethodDef {
    pub rva: u32,
    pub impl_flags: u16,
    pub flags: u16,
    pub name: u16,
    pub signature: u16,
    pub param_list: u16,
}

/// The method row whose 14 bytes start at `b[p]`.
pub open spec fn method_row_at(b: Seq<u8>, p: int) -> MethodDef {
    MethodDef {
        rva: le32(b, p),
        impl_flags: le16(b, p + 4),
        flags: le16(b, p + 6),
        name: le16(b, p + 8),
        signature: le16(b, p + 10),
        param_list: le16(b, p + 12),
    }
}

/// Fixed row width in bytes of each metadata table this decoder knows;
/// zero for an id it has no layout for, which must then not appear with
/// a nonzero row count.
pub open spec fn table_row_width(id: int) -> int {
    if id == 0 {
        10
    } else if id == 1 {
        6
    } else if id == 2 {
        14
    } else if id == 4 {
        6
    } else if id == 6 {
        14
    } else if id == 8 {
        6
    } else if id == 10 {
        6
    } else if id == 12 {
        6
    } else if id == 17 {
        2
    } else if id == 32 {
        22
    } else if id == 35 {
        20
    } else {
        0
    }
}

/// Whether bit `i` of `v` is set.
pub open spec fn bit_set(v: u64, i: int) -> bool {
    0 <= i < 64 && ((v >> (i as u64)) & 1) == 1
}

/// How many of the bits below `n` are set in `v`.
pub open spec fn count_bits(v: u64, n: int) -> int
    decreases n,
{
    if n <= 0 {
        0
    } else {
        count_bits(v, n - 1) + (if bit_set(v, n - 1) {
            1int
        } else {
            0int
        })
    }
}

/// The (table id, row count) pairs for the set bits of `v` at or above
/// bit `i`, in ascending bit order; the count of the table for bit `j`
/// is the little-endian word at `base + 4 * count_bits(v, j)`.
pub open spec fn rows_spec(b: Seq<u8>, base: int, v: u64, i: int) -> Seq<(u32, u32)>
    decreases 64 - i when 0 <= i <= 64
{
    if i >= 64 {
        Seq::empty()
    } else if bit_set(v, i) {
        seq![(i as u32, le32(b, base + 4 * count_bits(v, i)))] + rows_spec(b, base, v, i + 1)
    } else {
        rows_spec(b, base, v, i + 1)
    }
}

/// Bytes taken by the row data of the first `j` row-count entries.
pub open spec fn row_bytes_prefix(rows: Seq<(u32, u32)>, j: int) -> int
    decreases j,
{
    if j <= 0 {
        0
    } else {
        row_bytes_prefix(rows, j - 1) + table_row_width(rows[j - 1].0 as int) * rows[j - 1].1
    }
}

/// The row-count entries of the `#~` stream at `off`, as the presence
/// bitmask declares them.
pub open spec fn tilda_rows(b: Seq<u8>, off: int) -> Seq<(u32, u32)> {
    rows_spec(b, off + 24, le64(b, off + 8), 0)
}

/// When the `#~` stream at `off` decodes: its fixed header and every
/// row count fit in the buffer, no table with an unknown row width
/// carries rows, and the row data of every declared table fits.
pub open spec fn tilda_ok(b: Seq<u8>, off: int) -> bool {
    let v = le64(b, off + 8);
    let rows = tilda_rows(b, off);
    &&& off + 24 <= b.len()
    &&& off + 24 + 4 * count_bits(v, 64) <= b.len()
    &&& forall|j: int|
        0 <= j < rows.len() ==> ((#[trigger] rows[j]).0 == METHOD_TABLE_ID || table_row_width(
            rows[j].0 as int,
        ) > 0 || rows[j].1 == 0)
    &&& off + 24 + 4 * rows.len() + row_bytes_prefix(rows, rows.len() as int) <= b.len()
}

proof fn lemma_count_bits_mono(v: u64, i: int, j: int)
    requires
        0 <= i <= j,
    ensures
        count_bits(v, i) <= count_bits(v, j) <= count_bits(v, i) + (j - i),
    decreases j - i,
{
    if i < j {
        lemma_count_bits_mono(v, i, j - 1);
    }
}

proof fn lemma_rows_spec_len(b: Seq<u8>, base: int, v: u64, i: int)
    requires
        0 <= i <= 64,
    ensures
        rows_spec(b, base, v, i).len() == count_bits(v, 64) - count_bits(v, i),
    decreases 64 - i,
{
    if i < 64 {
        lemma_rows_spec_len(b, base, v, i + 1);
    }
}

proof fn lemma_rows_spec_ids(b: Seq<u8>, base: int, v: u64, i: int)
    requires
        0 <= i <= 64,
    ensures
        forall|j: int|
            0 <= j < rows_spec(b, base, v, i).len() ==> i <= (#[trigger] rows_spec(
                b,
                base,
                v,
                i,
            )[j]).0 < 64,
        forall|j1: int, j2: int|
            0 <= j1 < j2 < rows_spec(b, base, v, i).len() ==> (#[trigger] rows_spec(
                b,
                base,
                v,
                i,
            )[j1]).0 < (#[trigger] rows_spec(b, base, v, i)[j2]).0,
    decreases 64 - i,
{
    if i < 64 {
        lemma_rows_spec_ids(b, base, v, i + 1);
        let s = rows_spec(b, base, v, i);
        let rest = rows_spec(b, base, v, i + 1);
        if bit_set(v, i) {
            assert(s == seq![(i as u32, le32(b, base + 4 * count_bits(v, i)))] + rest);
            assert forall|j: int| 0 <= j < s.len() implies i <= (#[trigger] s[j]).0 < 64 by {
                if j == 0 {
                    assert(s[0].0 == i as u32);
                } else {
                    assert(s[j] == rest[j - 1]);
                }
            }
            assert forall|j1: int, j2: int|
                0 <= j1 < j2 < s.len() implies (#[trigger] s[j1]).0 < (#[trigger] s[j2]).0 by {
                assert(s[j2] == rest[j2 - 1]);
                if j1 == 0 {
                    assert(s[0].0 == i as u32);
                } else {
                    assert(s[j1] == rest[j1 - 1]);
                }
            }
        } else {
            assert(s == rest);
        }
    }
}

/// A set bit at or above `i` has its (id, count) entry in the row list.
pub proof fn lemma_rows_spec_bit_present(b: Seq<u8>, base: int, v: u64, i: int, t: int)
    requires
        0 <= i <= t < 64,
        bit_set(v, t),
    ensures
        exists|j: int|
            0 <= j < rows_spec(b, base, v, i).len() && (#[trigger] rows_spec(b, base, v, i)[j]).0
                == t as u32,
    decreases t - i,
{
    let s = rows_spec(b, base, v, i);
    if i == t {
        assert(s[0].0 == t as u32);
    } else {
        lemma_rows_spec_bit_present(b, base, v, i + 1, t);
        let rest = rows_spec(b, base, v, i + 1);
        let j0 = choose|j: int| 0 <= j < rest.len() && (#[trigger] rest[j]).0 == t as u32;
        if bit_set(v, i) {
            assert(s[j0 + 1] == rest[j0]);
        } else {
            assert(s == rest);
            assert(s[j0].0 == t as u32);
        }
    }
}

proof fn lemma_prefix_mono(rows: Seq<(u32, u32)>, j1: int, j2: int)
    requires
        0 <= j1 <= j2 <= rows.len(),
        forall|j: int| 0 <= j < rows.len() ==> table_row_width((#[trigger] rows[j]).0 as int) >= 0,
    ensures
        row_bytes_prefix(rows, j1) <= row_bytes_prefix(rows, j2),
    decreases j2 - j1,
{
    if j1 < j2 {
        lemma_prefix_mono(rows, j1, j2 - 1);
        let id = rows[j2 - 1].0 as int;
        let cnt = rows[j2 - 1].1 as int;
        assert(table_row_width(id) * cnt >= 0) by (nonlinear_arith)
            requires
                table_row_width(id) >= 0,
                cnt >= 0,
        ;
    }
}

/// Exec lookup of `table_row_width`.
fn table_row_width_of(id: u32) -> (w: u32)
    ensures
        w == table_row_width(id as int),
{
    if id == 0 {
        10
    } else if id == 1 {
        6
    } else if id == 2 {
        14
    } else if id == 4 {
        6
    } else if id == 6 {
        14
    } else if id == 8 {
        6
    } else if id == 10 {
        6
    } else if id == 12 {
        6
    } else if id == 17 {
        2
    } else if id == 32 {
        22
    } else if id == 35 {
        20
    } else {
        0
    }
}

/// The decoded `#~` stream: fixed fields, the (table id, row count)
/// pairs for every set bit of the presence bitmask, and the materialized
/// method-definition rows.
#[derive(Debug, Clone, PartialEq, Eq)]
pub struct TildaStream {
    pub reserved: u32,
    pub major_version: u8,
    pub minor_version: u8,
    pub heap_sizes: u8,
    pub reserved2: u8,
    pub valid: u64,
    pub sorted: u64,
    pub rows: Vec<(u32, u32)>,
    pub methods: Vec<MethodDef>,
}

/// What holds of a decoded `#~` stream value against the bytes it was
/// decoded from at `off`: every fixed field is the little-endian value
/// in place, the row-count entries are exactly those the presence
/// bitmask declares, and the method rows are the method table's rows,
/// decoded at the cursor position the skipped tables leave.
pub open spec fn tilda_post(b: Seq<u8>, off: int, t: TildaStream) -> bool {
    &&& t.reserved == le32(b, off)
    &&& t.major_version == b[off + 4]
    &&& t.minor_version == b[off + 5]
    &&& t.heap_sizes == b[off + 6]
    &&& t.reserved2 == b[off + 7]
    &&& t.valid == le64(b, off + 8)
    &&& t.sorted == le64(b, off + 16)
    &&& t.rows@ == tilda_rows(b, off)
    &&& t.rows@.len() == count_bits(t.valid, 64)
    &&& (!bit_set(t.valid, 6) ==> t.methods@.len() == 0)
    &&& forall|j: int|
        0 <= j < t.rows@.len() && (#[trigger] t.rows@[j]).0 == METHOD_TABLE_ID ==> {
            &&& t.methods@.len() == t.rows@[j].1
            &&& forall|k: int|
                0 <= k < t.methods@.len() ==> #[trigger] t.methods@[k] == method_row_at(
                    b,
                    off + 24 + 4 * t.rows@.len() + row_bytes_prefix(t.rows@, j) + 14 * k,
                )
        }
}

/// Decodes the `#~` stream at `off`. Exactly `count_bits(valid, 64)`
/// row counts are read; the cursor then advances byte-exactly over every
/// declared table, decoding the method table's rows and skipping all
/// others, so that the returned end cursor is the fixed header plus the
/// count words plus every table's `width * count` bytes. A table id with
/// no known width and a nonzero count is refused.
pub fn decode_tilda_stream(b: &[u8], off: usize) -> (r: Result<(TildaStream, usize), InspectError>)
    ensures
        r is Ok <==> tilda_ok(b@, off as int),
        r is Ok ==> tilda_post(b@, off as int, (r->Ok_0).0),
        r is Ok ==> ({
            let t = (r->Ok_0).0;
            let end = (r->Ok_0).1;
            &&& end == off + 24 + 4 * t.rows@.len() + row_bytes_prefix(
                t.rows@,
                t.rows@.len() as int,
            )
            &&& end <= b@.len()
        }),
        r is Err ==> (r->Err_0 == InspectError::Truncated || r->Err_0 matches
            InspectError::UnsupportedTable(_)),
        r matches Err(InspectError::UnsupportedTable(id)) ==> exists|j: int|
            0 <= j < tilda_rows(b@, off as int).len() && (#[trigger] tilda_rows(b@, off as int)[j]).0
                == id && table_row_width(id as int) == 0 && tilda_rows(b@, off as int)[j].1 > 0,
{
    if b.len() < 24 || off > b.len() - 24 {
        return Err(InspectError::Truncated);
    }
    let reserved = read_u32(b, off).unwrap();
    let major_version = read_u8(b, off + 4).unwrap();
    let minor_version = read_u8(b, off + 5).unwrap();
    let heap_sizes = read_u8(b, off + 6).unwrap();
    let reserved2 = read_u8(b, off + 7).unwrap();
    let valid = read_u64(b, off + 8).unwrap();
    let sorted = read_u64(b, off + 16).unwrap();
    let ghost full = rows_spec(b@, off as int + 24, valid, 0);
    let mut rows: Vec<(u32, u32)> = Vec::new();
    let mut c: usize = off + 24;
    let mut i: u32 = 0;
    proof {
        assert(rows@ + full =~= full);
    }
    while i < 64
        invariant
            0 <= i <= 64,
            b@.len() <= usize::MAX,
            off + 24 <= c <= b@.len(),
            valid == le64(b@, off + 8),
            full == rows_spec(b@, off as int + 24, valid, 0),
            rows@.len() == count_bits(valid, i as int),
            c == off + 24 + 4 * rows@.len(),
            full == rows@ + rows_spec(b@, off as int + 24, valid, i as int),
        decreases 64 - i,
    {
        if ((valid >> (i as u64)) & 1) == 1 {
            let cnt = match read_u32(b, c) {
                Some(v) => v,
                None => {
                    proof {
                        lemma_count_bits_mono(valid, i as int + 1, 64);
                        lemma_rows_spec_len(b@, off as int + 24, valid, 0);
                    }
                    return Err(InspectError::Truncated);
                },
            };
            proof {
                let base = off as int + 24;
                assert(rows_spec(b@, base, valid, i as int) == seq![
                    (i as u32, le32(b@, base + 4 * count_bits(valid, i as int))),
                ] + rows_spec(b@, base, valid, i as int + 1));
                assert(rows@ + (seq![(i as u32, cnt)] + rows_spec(b@, base, valid, i as int + 1))
                    =~= rows@.push((i as u32, cnt)) + rows_spec(b@, base, valid, i as int + 1));
            }
            rows.push((i, cnt));
            proof {
                assert(c + 4 <= b@.len());
            }
            c += 4;
        } else {
            proof {
                let base = off as int + 24;
                assert(rows_spec(b@, base, valid, i as int) == rows_spec(
                    b@,
                    base,
                    valid,
                    i as int + 1,
                ));
            }
        }
        i += 1;
    }
    proof {
        assert(rows_spec(b@, off as int + 24, valid, 64) =~= Seq::<(u32, u32)>::empty());
        assert(rows@ + Seq::<(u32, u32)>::empty() =~= rows@);
        assert(rows@ == full);
        lemma_rows_spec_ids(b@, off as int + 24, valid, 0);
    }
    let ghost counts_end = c as int;
    let mut methods: Vec<MethodDef> = Vec::new();
    let n_rows = rows.len();
    let mut j: usize = 0;
    while j < n_rows
        invariant
            0 <= j <= n_rows,
            b@.len() <= usize::MAX,
            n_rows == rows@.len(),
            off + 24 <= b@.len(),
            valid == le64(b@, off + 8),
            rows@ == full,
            full == rows_spec(b@, off as int + 24, valid, 0),
            rows@.len() == count_bits(valid, 64),
            counts_end == off + 24 + 4 * rows@.len(),
            counts_end <= b@.len(),
            c == counts_end + row_bytes_prefix(rows@, j as int),
            c <= b@.len(),
            forall|j1: int, j2: int|
                0 <= j1 < j2 < rows@.len() ==> (#[trigger] rows@[j1]).0 < (#[trigger] rows@[j2]).0,
            forall|jj: int|
                0 <= jj < rows@.len() ==> (#[trigger] rows@[jj]).0 < 64,
            forall|jj: int|
                0 <= jj < j ==> ((#[trigger] rows@[jj]).0 == METHOD_TABLE_ID || table_row_width(
                    rows@[jj].0 as int,
                ) > 0 || rows@[jj].1 == 0),
            (forall|jj: int| 0 <= jj < j ==> (#[trigger] rows@[jj]).0 != METHOD_TABLE_ID)
                ==> methods@.len() == 0,
            forall|jj: int|
                0 <= jj < j && (#[trigger] rows@[jj]).0 == METHOD_TABLE_ID ==> {
                    &&& methods@.len() == rows@[jj].1
                    &&& forall|k: int|
                        0 <= k < methods@.len() ==> #[trigger] methods@[k] == method_row_at(
                            b@,
                            counts_end + row_bytes_prefix(rows@, jj) + 14 * k,
                        )
                },
        decreases n_rows - j,
    {
        let (id, cnt) = rows[j];
        if id == METHOD_TABLE_ID {
            proof {
                assert(methods@.len() == 0);
            }
            let ghost mbase = c as int;
            let mut k: u32 = 0;
            while k < cnt
                invariant
                    0 <= k <= cnt,
                    b@.len() <= usize::MAX,
                    methods@.len() == k,
                    mbase == counts_end + row_bytes_prefix(rows@, j as int),
                    c == mbase + 14 * k,
                    c <= b@.len(),
                    off + 24 <= b@.len(),
                    valid == le64(b@, off + 8),
                    rows@ == full,
                    full == rows_spec(b@, off as int + 24, valid, 0),
                    rows@.len() == count_bits(valid, 64),
                    counts_end == off + 24 + 4 * rows@.len(),
                    counts_end <= b@.len(),
                    0 <= j < rows@.len(),
                    rows@[j as int] == (id, cnt),
                    id == METHOD_TABLE_ID,
                    forall|kk: int|
                        0 <= kk < methods@.len() ==> #[trigger] methods@[kk] == method_row_at(
                            b@,
                            mbase + 14 * kk,
                        ),
                decreases cnt - k,
            {
                if b.len() - c < 14 {
                    proof {
                        lemma_prefix_mono(rows@, j as int + 1, rows@.len() as int);
                        assert(row_bytes_prefix(rows@, j as int + 1) == row_bytes_prefix(
                            rows@,
                            j as int,
                        ) + 14 * cnt);
                        assert(14 * k + 14 <= 14 * cnt) by (nonlinear_arith)
                            requires
                                k < cnt,
                        ;
                    }
                    return Err(InspectError::Truncated);
                }
                let rva = read_u32(b, c).unwrap();
                let impl_flags = read_u16(b, c + 4).unwrap();
                let flags = read_u16(b, c + 6).unwrap();
                let name = read_u16(b, c + 8).unwrap();
                let signature = read_u16(b, c + 10).unwrap();
                let param_list = read_u16(b, c + 12).unwrap();
                methods.push(MethodDef { rva, impl_flags, flags, name, signature, param_list });
                c += 14;
                k += 1;
                proof {
                    assert(14 * k == 14 * (k - 1) + 14);
                }
            }
            proof {
                assert(row_bytes_prefix(rows@, j as int + 1) == row_bytes_prefix(rows@, j as int)
                    + 14 * cnt);
            }
        } else {
            let w = table_row_width_of(id);
            if w == 0 {
                if cnt != 0 {
                    proof {
                        assert(tilda_rows(b@, off as int)[j as int] == (id, cnt));
                    }
                    return Err(InspectError::UnsupportedTable(id));
                }
                proof {
                    assert(row_bytes_prefix(rows@, j as int + 1) == row_bytes_prefix(
                        rows@,
                        j as int,
                    ));
                }
            } else {
                proof {
                    assert(w <= 22);
                    assert((w as u64) * (cnt as u64) <= 22 * 0xFFFF_FFFFu64) by (nonlinear_arith)
                        requires
                            w <= 22u32,
                            cnt <= 0xFFFF_FFFFu32,
                    ;
                }
                let need = (w as u64) * (cnt as u64);
                if need > (b.len() - c) as u64 {
                    proof {
                        lemma_prefix_mono(rows@, j as int + 1, rows@.len() as int);
                        assert(row_bytes_prefix(rows@, j as int + 1) == row_bytes_prefix(
                            rows@,
                            j as int,
                        ) + w * cnt);
                    }
                    return Err(InspectError::Truncated);
                }
                c += need as usize;
                proof {
                    assert(row_bytes_prefix(rows@, j as int + 1) == row_bytes_prefix(
                        rows@,
                        j as int,
                    ) + w * cnt);
                }
            }
        }
        j += 1;
    }
    let t = TildaStream {
        reserved,
        major_version,
        minor_version,
        heap_sizes,
        reserved2,
        valid,
        sorted,
        rows,
        methods,
    };
    proof {
        if !bit_set(valid, 6) {
            assert forall|jj: int| 0 <= jj < t.rows@.len() implies (#[trigger] t.rows@[jj]).0
                != METHOD_TABLE_ID by {
                lemma_rows_spec_ids(b@, off as int + 24, valid, 0);
                if t.rows@[jj].0 == METHOD_TABLE_ID {
                    lemma_rows_spec_has_bit(b@, off as int + 24, valid, 0, jj);
                }
            }
        }
    }
    Ok((t, c))
}

proof fn lemma_rows_spec_has_bit(b: Seq<u8>, base: int, v: u64, i: int, j: int)
    requires
        0 <= i <= 64,
        0 <= j < rows_spec(b, base, v, i).len(),
    ensures
        bit_set(v, rows_spec(b, base, v, i)[j].0 as int),
    decreases 64 - i,
{
    if i < 64 {
        if bit_set(v, i) {
            if j > 0 {
                lemma_rows_spec_has_bit(b, base, v, i + 1, j - 1);
            }
        } else {
            lemma_rows_spec_has_bit(b, base, v, i + 1, j);
        }
    }
}

} // verus!
