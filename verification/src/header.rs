//! The header decoder: the fixed-layout CLI header, and the metadata root
//! with its variable-length version string and stream directory.

use vstd::prelude::*;

use crate::bytes::{
    copy_range, find_nul, le16, le32, lemma_find_nul_at, read_u16, read_u32, scan_nul,
};
use crate::InspectError;

verus! {

/// The magic value every metadata root must begin with.
pub const METADATA_SIGNATURE: u32 = 0x424A5342;

/// Virtual address and size of a directory entry the CLI header points
/// through.
#[derive(Debug, Clone, Copy, PartialEq, Eq, Structural)]
pub struct MetadataDirectory {
    pub virtual_address: u32,
    pub size: u32,
}

/// The fixed-size CLI (CLR runtime) header: 24 bytes of little-endian
/// fields. The entry-point token packs a table id in its high byte and a
/// 1-based row index in its low three bytes.
#[derive(Debug, Clone, Copy, PartialEq, Eq, Structural)]
pub struct CliHeader {
    pub cb: u32,
    pub major_version: u16,
    pub minor_version: u16,
    pub metadata: MetadataDirectory,
    pub flags: u32,
    pub entry_point_token: u32,
}

/// The CLI header whose 24 bytes start at `b[off]`.
pub open spec fn cli_header_at(b: Seq<u8>, off: int) -> CliHeader {
    CliHeader {
        cb: le32(b, off),
        major_version: le16(b, off + 4),
        minor_version: le16(b, off + 6),
        metadata: MetadataDirectory {
            virtual_address: le32(b, off + 8),
            size: le32(b, off + 12),
        },
        flags: le32(b, off + 16),
        entry_point_token: le32(b, off + 20),
    }
}

/// Decodes the CLI header at `off`; fails exactly when the 24 bytes do
/// not fit in the buffer.
pub fn decode_cli_header(b: &[u8], off: usize) -> (r: Result<CliHeader, InspectError>)
    ensures
        r is Ok <==> off + 24 <= b@.len(),
        r is Ok ==> r->Ok_0 == cli_header_at(b@, off as int),
        r is Err ==> r->Err_0 == InspectError::Truncated,
{
    if b.len() < 24 || off > b.len() - 24 {
        return Err(InspectError::Truncated);
    }
    let cb = read_u32(b, off).unwrap();
    let major_version = read_u16(b, off + 4).unwrap();
    let minor_version = read_u16(b, off + 6).unwrap();
    let metadata_va = read_u32(b, off + 8).unwrap();
    let metadata_size = read_u32(b, off + 12).unwrap();
    let flags = read_u32(b, off + 16).unwrap();
    let entry_point_token = read_u32(b, off + 20).unwrap();
    Ok(
        CliHeader {
            cb,
            major_version,
            minor_version,
            metadata: MetadataDirectory { virtual_address: metadata_va, size: metadata_size },
            flags,
            entry_point_token,
        },
    )
}

/// One record of the metadata root's stream directory. The offset is
/// relative to the metadata root's file offset, not the file start; the
/// name is the null-terminated byte sequence without its terminator.
#[derive(Debug, Clone, PartialEq, Eq)]
pub struct StreamHeader {
    pub offset: u32,
    pub size: u32,
    pub name: Vec<u8>,
}

/// Spec-level value of a stream header.
pub ghost struct StreamHeaderV {
    pub offset: u32,
    pub size: u32,
    pub name: Seq<u8>,
}

impl View for StreamHeader {
    type V = StreamHeaderV;

    open spec fn view(&self) -> StreamHeaderV {
        StreamHeaderV { offset: self.offset, size: self.size, name: self.name@ }
    }
}

/// The metadata root: signature, versions, a null-terminated version
/// string padded to a 4-byte boundary, flags, and the stream directory.
#[derive(Debug, Clone, PartialEq, Eq)]
pub struct MetadataRoot {
    pub signature: u32,
    pub major_version: u16,
    pub minor_version: u16,
    pub reserved: u32,
    pub length: u32,
    pub version: Vec<u8>,
    pub flags: u16,
    pub streams: u16,
    pub stream_headers: Vec<StreamHeader>,
}

/// Spec-level value of a metadata root.
pub ghost struct MetadataRootV {
    pub signature: u32,
    pub major_version: u16,
    pub minor_version: u16,
    pub reserved: u32,
    pub length: u32,
    pub version: Seq<u8>,
    pub flags: u16,
    pub streams: u16,
    pub stream_headers: Seq<StreamHeaderV>,
}

impl View for MetadataRoot {
    type V = MetadataRootV;

    open spec fn view(&self) -> MetadataRootV {
        MetadataRootV {
            signature: self.signature,
            major_version: self.major_version,
            minor_version: self.minor_version,
            reserved: self.reserved,
            length: self.length,
            version: self.version@,
            flags: self.flags,
            streams: self.streams,
            stream_headers: self.stream_headers@.map_values(|h: StreamHeader| h@),
        }
    }
}

/// Bytes of padding that advance a cursor `c` to the next 4-byte
/// boundary (none when already aligned).
pub open spec fn pad4(c: int) -> int {
    if c % 4 == 0 {
        0
    } else {
        4 - c % 4
    }
}

/// Decodes `n` stream headers starting at absolute cursor `c`; `root` is
/// the metadata root's offset, against which the 4-byte padding after
/// each name is computed. Returns the headers and the cursor after the
/// last one's padding.
pub open spec fn decode_streams_spec(b: Seq<u8>, root: int, c: int, n: int) -> Option<
    (Seq<StreamHeaderV>, int),
>
    decreases n,
{
    if n <= 0 {
        Some((Seq::empty(), c))
    } else if !(0 <= c && c + 8 <= b.len()) {
        None
    } else {
        let p = find_nul(b, c + 8);
        if p >= b.len() {
            None
        } else {
            let h = StreamHeaderV { offset: le32(b, c), size: le32(b, c + 4), name: b.subrange(c + 8, p) };
            let c2 = p + 1 + pad4(p + 1 - root);
            match decode_streams_spec(b, root, c2, n - 1) {
                Some((rest, end)) => Some((seq![h] + rest, end)),
                None => None,
            }
        }
    }
}

/// Decodes the metadata root at `off`: fixed fields, version string with
/// padding, flags, stream count, and that many stream headers. Returns
/// the root and the absolute cursor after the last stream header.
pub open spec fn decode_root_spec(b: Seq<u8>, off: int) -> Option<(MetadataRootV, int)> {
    if !(0 <= off && off + 16 <= b.len()) {
        None
    } else if le32(b, off) != METADATA_SIGNATURE {
        None
    } else {
        let p = find_nul(b, off + 16);
        if p >= b.len() {
            None
        } else {
            let c1 = p + 1 + pad4(p + 1 - off);
            if c1 + 4 > b.len() {
                None
            } else {
                let n = le16(b, c1 + 2);
                match decode_streams_spec(b, off, c1 + 4, n as int) {
                    Some((hs, end)) => Some(
                        (
                            MetadataRootV {
                                signature: le32(b, off),
                                major_version: le16(b, off + 4),
                                minor_version: le16(b, off + 6),
                                reserved: le32(b, off + 8),
                                length: le32(b, off + 12),
                                version: b.subrange(off + 16, p),
                                flags: le16(b, c1),
                                streams: n,
                                stream_headers: hs,
                            },
                            end,
                        ),
                    ),
                    None => None,
                }
            }
        }
    }
}

/// Padding that brings cursor `c` to the next 4-byte boundary.
fn pad4_len(c: usize) -> (r: usize)
    ensures
        r == pad4(c as int),
{
    let m = c % 4;
    if m == 0 {
        0
    } else {
        4 - m
    }
}

/// Decodes `n` stream headers starting at `c0`; `root` is the metadata
/// root's offset, against which the padding after each name is computed.
fn decode_streams(b: &[u8], root: usize, c0: usize, n: u16) -> (r: Result<
    (Vec<StreamHeader>, usize),
    InspectError,
>)
    requires
        b@.len() + 16 <= usize::MAX,
        root <= c0 <= b@.len(),
    ensures
        r is Ok <==> decode_streams_spec(b@, root as int, c0 as int, n as int) is Some,
        r is Ok ==> decode_streams_spec(b@, root as int, c0 as int, n as int) == Some(
            (((r->Ok_0).0)@.map_values(|h: StreamHeader| h@), (r->Ok_0).1 as int),
        ),
        r is Err ==> r->Err_0 == InspectError::Truncated,
{
    let ghost full = decode_streams_spec(b@, root as int, c0 as int, n as int);
    let mut out: Vec<StreamHeader> = Vec::new();
    let mut c: usize = c0;
    let mut i: u16 = 0;
    proof {
        if full is Some {
            assert(out@.map_values(|h: StreamHeader| h@) + (full->0).0 =~= (full->0).0);
        }
    }
    while i < n
        invariant
            b@.len() + 16 <= usize::MAX,
            i <= n,
            root <= c <= b@.len() + 3,
            full == decode_streams_spec(b@, root as int, c0 as int, n as int),
            full == (match decode_streams_spec(b@, root as int, c as int, n - i) {
                Some((rest, end)) => Some(
                    (out@.map_values(|h: StreamHeader| h@) + rest, end),
                ),
                None => None::<(Seq<StreamHeaderV>, int)>,
            }),
        decreases n - i,
    {
        let offset_field = match read_u32(b, c) {
            Some(v) => v,
            None => {
                proof {
                    assert(decode_streams_spec(b@, root as int, c as int, n - i) is None);
                }
                return Err(InspectError::Truncated);
            },
        };
        let size = match read_u32(b, c + 4) {
            Some(v) => v,
            None => {
                proof {
                    assert(decode_streams_spec(b@, root as int, c as int, n - i) is None);
                }
                return Err(InspectError::Truncated);
            },
        };
        let p = match scan_nul(b, c + 8) {
            Some(p) => p,
            None => {
                proof {
                    assert(decode_streams_spec(b@, root as int, c as int, n - i) is None);
                }
                return Err(InspectError::Truncated);
            },
        };
        let name = copy_range(b, c + 8, p);
        let h = StreamHeader { offset: offset_field, size, name };
        let c2 = p + 1 + pad4_len(p + 1 - root);
        proof {
            let hv = StreamHeaderV {
                offset: le32(b@, c as int),
                size: le32(b@, c as int + 4),
                name: b@.subrange(c as int + 8, p as int),
            };
            assert(h@ == hv);
            let rest0 = decode_streams_spec(b@, root as int, c2 as int, n - i - 1);
            assert(decode_streams_spec(b@, root as int, c as int, n - i) == (match rest0 {
                Some((rest, end)) => Some((seq![hv] + rest, end)),
                None => None::<(Seq<StreamHeaderV>, int)>,
            }));
            if rest0 is Some {
                assert(out@.map_values(|h: StreamHeader| h@) + (seq![hv] + (rest0->0).0)
                    =~= out@.push(h).map_values(|h: StreamHeader| h@) + (rest0->0).0);
            }
        }
        out.push(h);
        c = c2;
        i += 1;
    }
    proof {
        assert(out@.map_values(|h: StreamHeader| h@) + Seq::<StreamHeaderV>::empty()
            =~= out@.map_values(|h: StreamHeader| h@));
    }
    Ok((out, c))
}

/// Decodes the metadata root at `off`, checking the signature and every
/// read against the buffer. On success returns the root together with
/// the absolute cursor after its stream directory.
pub fn decode_metadata_root(b: &[u8], off: usize) -> (r: Result<
    (MetadataRoot, usize),
    InspectError,
>)
    requires
        b@.len() + 16 <= usize::MAX,
    ensures
        r is Ok <==> decode_root_spec(b@, off as int) is Some,
        r is Ok ==> decode_root_spec(b@, off as int) == Some(((r->Ok_0).0@, (r->Ok_0).1 as int)),
        r is Err ==> r->Err_0 == (if off + 16 <= b@.len() && le32(b@, off as int)
            != METADATA_SIGNATURE {
            InspectError::BadSignature
        } else {
            InspectError::Truncated
        }),
{
    if b.len() < 16 || off > b.len() - 16 {
        return Err(InspectError::Truncated);
    }
    let signature = read_u32(b, off).unwrap();
    if signature != METADATA_SIGNATURE {
        return Err(InspectError::BadSignature);
    }
    let major_version = read_u16(b, off + 4).unwrap();
    let minor_version = read_u16(b, off + 6).unwrap();
    let reserved = read_u32(b, off + 8).unwrap();
    let length = read_u32(b, off + 12).unwrap();
    let p = match scan_nul(b, off + 16) {
        Some(p) => p,
        None => {
            return Err(InspectError::Truncated);
        },
    };
    let version = copy_range(b, off + 16, p);
    let c1 = p + 1 + pad4_len(p + 1 - off);
    if b.len() < 4 || c1 > b.len() - 4 {
        return Err(InspectError::Truncated);
    }
    let flags = read_u16(b, c1).unwrap();
    let n = read_u16(b, c1 + 2).unwrap();
    let (stream_headers, end) = match decode_streams(b, off, c1 + 4, n) {
        Ok(v) => v,
        Err(e) => {
            return Err(e);
        },
    };
    let root = MetadataRoot {
        signature,
        major_version,
        minor_version,
        reserved,
        length,
        version,
        flags,
        streams: n,
        stream_headers,
    };
    proof {
        assert(decode_root_spec(b@, off as int) == Some((root@, end as int)));
    }
    Ok((root, end))
}

/// The two little-endian bytes of `v`.
pub open spec fn le_bytes16(v: u16) -> Seq<u8> {
    seq![(v & 0xff) as u8, ((v >> 8) & 0xff) as u8]
}

/// The four little-endian bytes of `v`.
pub open spec fn le_bytes32(v: u32) -> Seq<u8> {
    seq![
        (v & 0xff) as u8,
        ((v >> 8) & 0xff) as u8,
        ((v >> 16) & 0xff) as u8,
        ((v >> 24) & 0xff) as u8,
    ]
}

/// `n` zero bytes.
pub open spec fn zeros(n: int) -> Seq<u8> {
    Seq::new(n as nat, |i: int| 0u8)
}

/// Encoding of one stream header as it stands at a 4-byte-aligned
/// cursor: offset, size, name, terminator, padding back to alignment.
pub open spec fn encode_stream_spec(h: StreamHeaderV) -> Seq<u8> {
    le_bytes32(h.offset) + le_bytes32(h.size) + h.name + seq![0u8] + zeros(
        pad4(9 + h.name.len() as int),
    )
}

/// Encoding of the whole stream directory.
pub open spec fn encode_streams_spec(hs: Seq<StreamHeaderV>) -> Seq<u8>
    decreases hs.len(),
{
    if hs.len() == 0 {
        Seq::empty()
    } else {
        encode_stream_spec(hs[0]) + encode_streams_spec(hs.drop_first())
    }
}

/// Everything of the root's encoding before the stream directory.
pub open spec fn encode_root_head(r: MetadataRootV) -> Seq<u8> {
    le_bytes32(r.signature) + le_bytes16(r.major_version) + le_bytes16(r.minor_version)
        + le_bytes32(r.reserved) + le_bytes32(r.length) + r.version + seq![0u8] + zeros(
        pad4(17 + r.version.len() as int),
    ) + le_bytes16(r.flags) + le_bytes16(r.streams)
}

/// The full encoding of a metadata root.
pub open spec fn encode_root_spec(r: MetadataRootV) -> Seq<u8> {
    encode_root_head(r) + encode_streams_spec(r.stream_headers)
}

/// A root that encodes to a decodable byte string: the right magic, no
/// stray null byte inside the version or a stream name, and a stream
/// count that matches the directory.
pub open spec fn root_wf(r: MetadataRootV) -> bool {
    &&& r.signature == METADATA_SIGNATURE
    &&& !r.version.contains(0u8)
    &&& r.streams as int == r.stream_headers.len()
    &&& forall|i: int|
        0 <= i < r.stream_headers.len() ==> !(#[trigger] r.stream_headers[i]).name.contains(0u8)
}

proof fn lemma_pad4_aligns(x: int)
    requires
        x >= 0,
    ensures
        0 <= pad4(x) < 4,
        (x + pad4(x)) % 4 == 0,
{
    assert(0 <= pad4(x) < 4 && (x + pad4(x)) % 4 == 0) by (nonlinear_arith)
        requires
            x >= 0,
    ;
}

proof fn lemma_pad4_congruent(a: int, x: int)
    requires
        a % 4 == 0,
        a >= 0,
        x >= 0,
    ensures
        pad4(a + x) == pad4(x),
{
    assert((a + x) % 4 == x % 4) by (nonlinear_arith)
        requires
            a % 4 == 0,
            a >= 0,
            x >= 0,
    ;
}

proof fn lemma_le16_concat(b: Seq<u8>, i: int, v: u16)
    requires
        0 <= i,
        i + 2 <= b.len(),
        b[i] == le_bytes16(v)[0],
        b[i + 1] == le_bytes16(v)[1],
    ensures
        le16(b, i) == v,
{
    assert(((v & 0xff) as u8 as u16) | ((((v >> 8) & 0xff) as u8 as u16) << 8) == v)
        by (bit_vector);
}

proof fn lemma_le32_concat(b: Seq<u8>, i: int, v: u32)
    requires
        0 <= i,
        i + 4 <= b.len(),
        b[i] == le_bytes32(v)[0],
        b[i + 1] == le_bytes32(v)[1],
        b[i + 2] == le_bytes32(v)[2],
        b[i + 3] == le_bytes32(v)[3],
    ensures
        le32(b, i) == v,
{
    assert(((v & 0xff) as u8 as u32) | ((((v >> 8) & 0xff) as u8 as u32) << 8) | ((((v >> 16)
        & 0xff) as u8 as u32) << 16) | ((((v >> 24) & 0xff) as u8 as u32) << 24) == v)
        by (bit_vector);
}

/// Appends the two little-endian bytes of `v`.
fn push_u16(out: &mut Vec<u8>, v: u16)
    ensures
        final(out)@ == old(out)@ + le_bytes16(v),
{
    out.push((v & 0xff) as u8);
    out.push(((v >> 8) & 0xff) as u8);
    proof {
        assert(out@ =~= old(out)@ + le_bytes16(v));
    }
}

/// Appends the four little-endian bytes of `v`.
fn push_u32(out: &mut Vec<u8>, v: u32)
    ensures
        final(out)@ == old(out)@ + le_bytes32(v),
{
    out.push((v & 0xff) as u8);
    out.push(((v >> 8) & 0xff) as u8);
    out.push(((v >> 16) & 0xff) as u8);
    out.push(((v >> 24) & 0xff) as u8);
    proof {
        assert(out@ =~= old(out)@ + le_bytes32(v));
    }
}

/// Appends a copy of `s`.
fn push_slice(out: &mut Vec<u8>, s: &Vec<u8>)
    ensures
        final(out)@ == old(out)@ + s@,
{
    let mut j: usize = 0;
    while j < s.len()
        invariant
            j <= s@.len(),
            out@ == old(out)@ + s@.subrange(0, j as int),
        decreases s@.len() - j,
    {
        out.push(s[j]);
        proof {
            assert(out@ =~= old(out)@ + s@.subrange(0, j + 1));
        }
        j += 1;
    }
    proof {
        assert(s@.subrange(0, s@.len() as int) =~= s@);
    }
}

/// Appends `n` zero bytes.
fn push_zeros(out: &mut Vec<u8>, n: usize)
    ensures
        final(out)@ == old(out)@ + zeros(n as int),
{
    let mut j: usize = 0;
    while j < n
        invariant
            j <= n,
            out@ == old(out)@ + zeros(j as int),
        decreases n - j,
    {
        out.push(0u8);
        proof {
            assert(out@ =~= old(out)@ + zeros(j + 1));
        }
        j += 1;
    }
}

/// Appends the encoding of one stream header; the cursor must sit on a
/// 4-byte boundary, and is left on one.
fn encode_stream_header(out: &mut Vec<u8>, h: &StreamHeader)
    requires
        old(out)@.len() % 4 == 0,
    ensures
        final(out)@ == old(out)@ + encode_stream_spec(h@),
        final(out)@.len() % 4 == 0,
{
    push_u32(out, h.offset);
    push_u32(out, h.size);
    push_slice(out, &h.name);
    out.push(0u8);
    proof {
        assert(out@.len() == old(out)@.len() + 9 + h.name@.len());
        lemma_pad4_congruent(old(out)@.len() as int, 9 + h.name@.len() as int);
    }
    let pad = pad4_len(out.len());
    push_zeros(out, pad);
    proof {
        assert(out@ =~= old(out)@ + encode_stream_spec(h@));
        lemma_pad4_aligns(9 + h.name@.len() as int);
        let a = old(out)@.len() as int;
        let y = 9 + h.name@.len() as int;
        let z = out@.len() as int;
        assert(z % 4 == 0) by (nonlinear_arith)
            requires
                z == a + y + pad4(y),
                a % 4 == 0,
                (y + pad4(y)) % 4 == 0,
        ;
    }
}

proof fn lemma_encode_streams_snoc(hs: Seq<StreamHeaderV>)
    requires
        hs.len() > 0,
    ensures
        encode_streams_spec(hs) == encode_streams_spec(hs.drop_last()) + encode_stream_spec(
            hs.last(),
        ),
    decreases hs.len(),
{
    if hs.len() == 1 {
        assert(encode_streams_spec(hs.drop_first()) == Seq::<u8>::empty());
        assert(encode_streams_spec(hs.drop_last()) == Seq::<u8>::empty());
        assert(encode_streams_spec(hs) == encode_stream_spec(hs[0]) + encode_streams_spec(
            hs.drop_first(),
        ));
        assert(encode_streams_spec(hs) =~= encode_streams_spec(hs.drop_last())
            + encode_stream_spec(hs.last()));
    } else {
        lemma_encode_streams_snoc(hs.drop_first());
        assert(encode_streams_spec(hs) == encode_stream_spec(hs[0]) + encode_streams_spec(
            hs.drop_first(),
        ));
        assert(hs.drop_first().drop_last() =~= hs.drop_last().drop_first());
        assert(hs.drop_first().last() == hs.last());
        assert(encode_streams_spec(hs.drop_last()) == encode_stream_spec(hs.drop_last()[0])
            + encode_streams_spec(hs.drop_last().drop_first()));
        assert(hs.drop_last()[0] == hs[0]);
        assert(encode_streams_spec(hs) =~= encode_streams_spec(hs.drop_last())
            + encode_stream_spec(hs.last()));
    }
}

/// Encodes a metadata root back into bytes: fixed fields, version string
/// with terminator and padding, flags, stream count, and every stream
/// header in order.
pub fn encode_metadata_root(root: &MetadataRoot) -> (out: Vec<u8>)
    ensures
        out@ == encode_root_spec(root@),
{
    let mut out: Vec<u8> = Vec::new();
    push_u32(&mut out, root.signature);
    push_u16(&mut out, root.major_version);
    push_u16(&mut out, root.minor_version);
    push_u32(&mut out, root.reserved);
    push_u32(&mut out, root.length);
    push_slice(&mut out, &root.version);
    out.push(0u8);
    proof {
        assert(out@.len() == 17 + root.version@.len());
    }
    let pad = pad4_len(out.len());
    push_zeros(&mut out, pad);
    push_u16(&mut out, root.flags);
    push_u16(&mut out, root.streams);
    proof {
        assert(out@ =~= encode_root_head(root@));
        lemma_pad4_aligns(17 + root.version@.len() as int);
        assert(out@.len() % 4 == 0) by (nonlinear_arith)
            requires
                out@.len() == (17 + root.version@.len()) + pad4(17 + root.version@.len() as int)
                    + 4,
                ((17 + root.version@.len()) + pad4(17 + root.version@.len() as int)) % 4 == 0,
        ;
    }
    let ghost head = encode_root_head(root@);
    let ghost hs = root@.stream_headers;
    let n = root.stream_headers.len();
    let mut i: usize = 0;
    proof {
        assert(out@ =~= head + encode_streams_spec(hs.take(0)));
    }
    while i < n
        invariant
            i <= n,
            n == root.stream_headers@.len(),
            hs == root@.stream_headers,
            head == encode_root_head(root@),
            out@ == head + encode_streams_spec(hs.take(i as int)),
            out@.len() % 4 == 0,
        decreases n - i,
    {
        encode_stream_header(&mut out, &root.stream_headers[i]);
        proof {
            assert(root.stream_headers@[i as int]@ == hs[i as int]);
            lemma_encode_streams_snoc(hs.take(i + 1));
            assert(hs.take(i + 1).drop_last() =~= hs.take(i as int));
            assert(hs.take(i + 1).last() == hs[i as int]);
            assert(out@ =~= head + encode_streams_spec(hs.take(i + 1)));
        }
        i += 1;
    }
    proof {
        assert(hs.take(n as int) =~= hs);
        assert(out@ =~= encode_root_spec(root@));
    }
    out
}

proof fn lemma_streams_round_trip(b: Seq<u8>, root: int, c: int, hs: Seq<StreamHeaderV>)
    requires
        0 <= root <= c,
        (c - root) % 4 == 0,
        c + encode_streams_spec(hs).len() <= b.len(),
        b.subrange(c, c + encode_streams_spec(hs).len() as int) == encode_streams_spec(hs),
        forall|i: int| 0 <= i < hs.len() ==> !(#[trigger] hs[i]).name.contains(0u8),
    ensures
        decode_streams_spec(b, root, c, hs.len() as int) == Some(
            (hs, c + encode_streams_spec(hs).len()),
        ),
    decreases hs.len(),
{
    let enc = encode_streams_spec(hs);
    if hs.len() == 0 {
        assert(hs =~= Seq::<StreamHeaderV>::empty());
    } else {
        let h = hs[0];
        let e0 = encode_stream_spec(h);
        let etail = encode_streams_spec(hs.drop_first());
        let nl = h.name.len() as int;
        lemma_pad4_aligns(9 + nl);
        assert(enc == e0 + etail);
        assert(e0.len() == 9 + nl + pad4(9 + nl));
        assert forall|k: int| 0 <= k < e0.len() implies b[c + k] == e0[k] by {
            assert(b.subrange(c, c + enc.len() as int)[k] == enc[k]);
            assert(enc[k] == e0[k]);
        }
        // the fixed fields
        assert(e0[0] == le_bytes32(h.offset)[0]);
        assert(e0[1] == le_bytes32(h.offset)[1]);
        assert(e0[2] == le_bytes32(h.offset)[2]);
        assert(e0[3] == le_bytes32(h.offset)[3]);
        assert(b[c] == le_bytes32(h.offset)[0]);
        lemma_le32_concat(b, c, h.offset);
        assert(e0[4] == le_bytes32(h.size)[0]);
        assert(e0[5] == le_bytes32(h.size)[1]);
        assert(e0[6] == le_bytes32(h.size)[2]);
        assert(e0[7] == le_bytes32(h.size)[3]);
        assert(b[c + 4] == le_bytes32(h.size)[0]);
        lemma_le32_concat(b, c + 4, h.size);
        // the name and its terminator
        assert forall|k: int| 0 <= k < nl implies b[c + 8 + k] == h.name[k] by {
            assert(e0[8 + k] == h.name[k]);
        }
        assert(e0[8 + nl] == 0u8);
        assert(b[c + 8 + nl] == 0u8);
        assert forall|k: int| c + 8 <= k < c + 8 + nl implies b[k] != 0 by {
            let k0 = k - (c + 8);
            assert(b[c + 8 + k0] == h.name[k0]);
            assert(!h.name.contains(0u8));
            assert(h.name[k0] != 0);
        }
        lemma_find_nul_at(b, c + 8, c + 8 + nl);
        let p = c + 8 + nl;
        assert forall|k: int| 0 <= k < nl implies b.subrange(c + 8, p)[k] == h.name[k] by {
            assert(b[c + 8 + k] == h.name[k]);
        }
        assert(b.subrange(c + 8, p) =~= h.name);
        // padding congruence against the root-relative cursor
        lemma_pad4_congruent(c - root, 9 + nl);
        assert(p + 1 - root == (c - root) + (9 + nl));
        let c2 = p + 1 + pad4(p + 1 - root);
        assert(c2 == c + e0.len());
        assert((c2 - root) % 4 == 0) by (nonlinear_arith)
            requires
                c2 - root == (c - root) + ((9 + nl) + pad4(9 + nl)),
                (c - root) % 4 == 0,
                ((9 + nl) + pad4(9 + nl)) % 4 == 0,
        ;
        // the tail
        assert forall|k: int| 0 <= k < etail.len() implies b[c2 + k] == etail[k] by {
            assert(b.subrange(c, c + enc.len() as int)[e0.len() + k] == enc[e0.len() + k]);
            assert(enc[e0.len() + k] == etail[k]);
        }
        assert forall|k: int|
            0 <= k < etail.len() implies b.subrange(c2, c2 + etail.len() as int)[k]
            == etail[k] by {
            assert(b[c2 + k] == etail[k]);
        }
        assert(b.subrange(c2, c2 + etail.len() as int) =~= etail);
        lemma_streams_round_trip(b, root, c2, hs.drop_first());
        let hv = StreamHeaderV { offset: le32(b, c), size: le32(b, c + 4), name: b.subrange(c + 8, p) };
        assert(hv == h);
        assert(seq![h] + hs.drop_first() =~= hs);
        assert(decode_streams_spec(b, root, c, hs.len() as int) == Some((hs, c + enc.len())));
    }
}

/// Round trip: a well-formed metadata root decodes back from its own
/// encoding to the identical value, and the final cursor equals the
/// total encoded length, all paddings included.
#[verifier::rlimit(80)]
pub proof fn lemma_root_round_trip(r: MetadataRootV)
    requires
        root_wf(r),
    ensures
        decode_root_spec(encode_root_spec(r), 0) == Some(
            (r, encode_root_spec(r).len() as int),
        ),
{
    let b = encode_root_spec(r);
    let head = encode_root_head(r);
    let es = encode_streams_spec(r.stream_headers);
    let vl = r.version.len() as int;
    lemma_pad4_aligns(17 + vl);
    let p5 = le_bytes32(r.signature) + le_bytes16(r.major_version) + le_bytes16(r.minor_version)
        + le_bytes32(r.reserved) + le_bytes32(r.length);
    let x = p5 + r.version + seq![0u8] + zeros(pad4(17 + vl));
    assert(head == x + le_bytes16(r.flags) + le_bytes16(r.streams));
    assert(p5.len() == 16);
    assert(x.len() == 17 + vl + pad4(17 + vl));
    assert(head.len() == x.len() + 4);
    assert(b == head + es);
    assert forall|k: int| 0 <= k < head.len() implies b[k] == head[k] by {
        assert((head + es)[k] == head[k]);
    }
    // the five fixed fields
    assert(head[0] == le_bytes32(r.signature)[0]);
    assert(head[1] == le_bytes32(r.signature)[1]);
    assert(head[2] == le_bytes32(r.signature)[2]);
    assert(head[3] == le_bytes32(r.signature)[3]);
    assert(b[0] == le_bytes32(r.signature)[0]);
    lemma_le32_concat(b, 0, r.signature);
    assert(head[4] == le_bytes16(r.major_version)[0]);
    assert(head[5] == le_bytes16(r.major_version)[1]);
    assert(b[4] == le_bytes16(r.major_version)[0]);
    lemma_le16_concat(b, 4, r.major_version);
    assert(head[6] == le_bytes16(r.minor_version)[0]);
    assert(head[7] == le_bytes16(r.minor_version)[1]);
    assert(b[6] == le_bytes16(r.minor_version)[0]);
    lemma_le16_concat(b, 6, r.minor_version);
    assert(head[8] == le_bytes32(r.reserved)[0]);
    assert(head[9] == le_bytes32(r.reserved)[1]);
    assert(head[10] == le_bytes32(r.reserved)[2]);
    assert(head[11] == le_bytes32(r.reserved)[3]);
    assert(b[8] == le_bytes32(r.reserved)[0]);
    lemma_le32_concat(b, 8, r.reserved);
    assert(head[12] == le_bytes32(r.length)[0]);
    assert(head[13] == le_bytes32(r.length)[1]);
    assert(head[14] == le_bytes32(r.length)[2]);
    assert(head[15] == le_bytes32(r.length)[3]);
    assert(b[12] == le_bytes32(r.length)[0]);
    lemma_le32_concat(b, 12, r.length);
    // the version string and its terminator
    assert forall|k: int| 0 <= k < vl implies b[16 + k] == r.version[k] by {
        assert(head[16 + k] == r.version[k]);
    }
    assert forall|k: int| 16 <= k < 16 + vl implies b[k] != 0 by {
        let k0 = k - 16;
        assert(b[16 + k0] == r.version[k0]);
        assert(!r.version.contains(0u8));
        assert(r.version[k0] != 0);
    }
    assert(head[16 + vl] == 0u8);
    assert(b[16 + vl] == 0u8);
    lemma_find_nul_at(b, 16, 16 + vl);
    let p = 16 + vl;
    assert(find_nul(b, 16) == p);
    assert forall|k: int| 0 <= k < vl implies b.subrange(16, p)[k] == r.version[k] by {
        assert(b[16 + k] == r.version[k]);
    }
    assert(b.subrange(16, p) =~= r.version);
    let c1 = p + 1 + pad4(p + 1);
    assert(c1 == 17 + vl + pad4(17 + vl));
    assert(c1 + 4 == head.len());
    // flags and stream count
    assert(head[c1] == le_bytes16(r.flags)[0]);
    assert(head[c1 + 1] == le_bytes16(r.flags)[1]);
    assert(b[c1] == le_bytes16(r.flags)[0]);
    assert(b[c1 + 1] == le_bytes16(r.flags)[1]);
    lemma_le16_concat(b, c1, r.flags);
    assert(head[c1 + 2] == le_bytes16(r.streams)[0]);
    assert(head[c1 + 3] == le_bytes16(r.streams)[1]);
    assert(b[c1 + 2] == le_bytes16(r.streams)[0]);
    assert(b[c1 + 3] == le_bytes16(r.streams)[1]);
    lemma_le16_concat(b, c1 + 2, r.streams);
    // the stream directory
    let c = c1 + 4;
    assert(c % 4 == 0) by (nonlinear_arith)
        requires
            c == (17 + vl + pad4(17 + vl)) + 4,
            ((17 + vl) + pad4(17 + vl)) % 4 == 0,
    ;
    assert forall|k: int| 0 <= k < es.len() implies b[c + k] == es[k] by {
        assert((head + es)[head.len() + k] == es[k]);
    }
    assert forall|k: int| 0 <= k < es.len() implies b.subrange(c, c + es.len() as int)[k]
        == es[k] by {
        assert(b[c + k] == es[k]);
    }
    assert(b.subrange(c, c + es.len() as int) =~= es);
    lemma_streams_round_trip(b, 0, c, r.stream_headers);
    let decoded = MetadataRootV {
        signature: le32(b, 0),
        major_version: le16(b, 4),
        minor_version: le16(b, 6),
        reserved: le32(b, 8),
        length: le32(b, 12),
        version: b.subrange(16, p),
        flags: le16(b, c1),
        streams: le16(b, c1 + 2),
        stream_headers: r.stream_headers,
    };
    assert(decoded == r);
    assert(decode_root_spec(b, 0) == Some((r, b.len() as int)));
}

} // verus!
