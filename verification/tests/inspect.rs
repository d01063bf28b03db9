//! End-to-end and component tests on synthetic images and streams.

use clrmeta::header::{
    decode_cli_header, decode_metadata_root, encode_metadata_root, MetadataRoot, StreamHeader,
};
use clrmeta::image::{analyze, inspect_bytes, ImageLayout};
use clrmeta::mapper::{address_to_offset, SectionDescriptor};
use clrmeta::resolve::{find_name, method_names, read_heap_string, resolve_entry_point};
use clrmeta::tables::{decode_tilda_stream, MethodDef};
use clrmeta::InspectError;

fn put_u16(v: &mut Vec<u8>, x: u16) {
    v.extend_from_slice(&x.to_le_bytes());
}

fn put_u32(v: &mut Vec<u8>, x: u32) {
    v.extend_from_slice(&x.to_le_bytes());
}

fn put_u64(v: &mut Vec<u8>, x: u64) {
    v.extend_from_slice(&x.to_le_bytes());
}

fn section_0x2000() -> SectionDescriptor {
    SectionDescriptor {
        virtual_address: 0x2000,
        virtual_size: 0,
        pointer_to_raw_data: 0x200,
        size_of_raw_data: 0x400,
    }
}

/// A `#~` stream with only the method table present, holding one row
/// whose name index is 10.
fn tilde_stream_bytes() -> Vec<u8> {
    let mut t = Vec::new();
    put_u32(&mut t, 0); // reserved
    t.push(2); // major version
    t.push(0); // minor version
    t.push(0); // heap sizes
    t.push(0); // reserved
    put_u64(&mut t, 1u64 << 6); // valid: method table only
    put_u64(&mut t, 0); // sorted
    put_u32(&mut t, 1); // one method row
    put_u32(&mut t, 0x1234); // rva
    put_u16(&mut t, 0); // impl flags
    put_u16(&mut t, 0); // flags
    put_u16(&mut t, 10); // name heap index
    put_u16(&mut t, 0); // signature
    put_u16(&mut t, 1); // param list
    assert_eq!(t.len(), 42);
    t
}

/// Writes the managed payload into `f`: a CLI header at file offset
/// 0x200 (rva 0x2000), its metadata directory at rva 0x2040, which the
/// section maps to file offset 0x240, where the metadata root sits,
/// followed by the `#~` stream and the string heap.
fn write_managed_payload(f: &mut [u8]) {
    let root = MetadataRoot {
        signature: 0x424A5342,
        major_version: 1,
        minor_version: 1,
        reserved: 0,
        length: 0,
        version: b"v4.0".to_vec(),
        flags: 0,
        streams: 2,
        stream_headers: vec![
            StreamHeader { offset: 60, size: 42, name: b"#~".to_vec() },
            StreamHeader { offset: 102, size: 64, name: b"#Strings".to_vec() },
        ],
    };
    let root_bytes = encode_metadata_root(&root);
    assert_eq!(root_bytes.len(), 60);

    let mut cli = Vec::new();
    put_u32(&mut cli, 0); // cb
    put_u16(&mut cli, 2); // major runtime version
    put_u16(&mut cli, 5); // minor runtime version
    put_u32(&mut cli, 0x2040); // metadata rva
    put_u32(&mut cli, 72); // metadata size
    put_u32(&mut cli, 0); // flags
    put_u32(&mut cli, 0x06000001); // entry-point token

    let tilde = tilde_stream_bytes();

    f[0x200..0x200 + 24].copy_from_slice(&cli);
    f[0x240..0x240 + 60].copy_from_slice(&root_bytes);
    f[0x240 + 60..0x240 + 102].copy_from_slice(&tilde);
    // the string heap, based at root offset + 102: "Main\0" at index 10
    let heap_base = 0x240 + 102;
    f[heap_base + 10..heap_base + 15].copy_from_slice(b"Main\0");
}

/// The raw bytes and loader layout of the synthetic image.
fn synthetic_image() -> (Vec<u8>, ImageLayout) {
    let mut f = vec![0u8; 0x800];
    write_managed_payload(&mut f);
    let img = ImageLayout {
        machine: 0x14C,
        file_alignment: 0x200,
        clr_rva: 0x2000,
        clr_size: 72,
        sections: vec![section_0x2000()],
    };
    (f, img)
}

/// A complete minimal PE32 container around the managed payload: DOS
/// stub, COFF header, optional header with the CLR directory in slot
/// 14, and one section mapping rva 0x2000 to file offset 0x200.
fn build_pe32_image() -> Vec<u8> {
    let mut f = vec![0u8; 0x800];
    f[0] = b'M';
    f[1] = b'Z';
    f[0x3C..0x40].copy_from_slice(&0x80u32.to_le_bytes());
    f[0x80..0x84].copy_from_slice(b"PE\0\0");
    let mut coff = Vec::new();
    put_u16(&mut coff, 0x14C); // machine: x86
    put_u16(&mut coff, 1); // one section
    put_u32(&mut coff, 0); // timestamp
    put_u32(&mut coff, 0); // symbol table pointer
    put_u32(&mut coff, 0); // symbol count
    put_u16(&mut coff, 224); // optional header size
    put_u16(&mut coff, 0x0102); // characteristics
    f[0x84..0x98].copy_from_slice(&coff);
    let mut opt = Vec::new();
    put_u16(&mut opt, 0x10B); // PE32 magic
    opt.push(14); // linker major
    opt.push(0); // linker minor
    put_u32(&mut opt, 0x400); // size of code
    put_u32(&mut opt, 0); // size of initialized data
    put_u32(&mut opt, 0); // size of uninitialized data
    put_u32(&mut opt, 0); // entry point rva
    put_u32(&mut opt, 0x2000); // base of code
    put_u32(&mut opt, 0); // base of data
    put_u32(&mut opt, 0x400000); // image base
    put_u32(&mut opt, 0x1000); // section alignment
    put_u32(&mut opt, 0x200); // file alignment
    put_u16(&mut opt, 4); // os major
    put_u16(&mut opt, 0); // os minor
    put_u16(&mut opt, 0); // image major
    put_u16(&mut opt, 0); // image minor
    put_u16(&mut opt, 4); // subsystem major
    put_u16(&mut opt, 0); // subsystem minor
    put_u32(&mut opt, 0); // win32 version
    put_u32(&mut opt, 0x3000); // size of image
    put_u32(&mut opt, 0x200); // size of headers
    put_u32(&mut opt, 0); // checksum
    put_u16(&mut opt, 3); // subsystem: console
    put_u16(&mut opt, 0); // dll characteristics
    put_u32(&mut opt, 0x100000); // stack reserve
    put_u32(&mut opt, 0x1000); // stack commit
    put_u32(&mut opt, 0x100000); // heap reserve
    put_u32(&mut opt, 0x1000); // heap commit
    put_u32(&mut opt, 0); // loader flags
    put_u32(&mut opt, 16); // data directory count
    for i in 0..16u32 {
        if i == 14 {
            // the CLR runtime header directory
            put_u32(&mut opt, 0x2000);
            put_u32(&mut opt, 72);
        } else {
            put_u32(&mut opt, 0);
            put_u32(&mut opt, 0);
        }
    }
    assert_eq!(opt.len(), 224);
    f[0x98..0x98 + 224].copy_from_slice(&opt);
    let mut sec = Vec::new();
    sec.extend_from_slice(b".text\0\0\0");
    put_u32(&mut sec, 0x1000); // virtual size
    put_u32(&mut sec, 0x2000); // virtual address
    put_u32(&mut sec, 0x400); // size of raw data
    put_u32(&mut sec, 0x200); // pointer to raw data
    put_u32(&mut sec, 0); // relocations pointer
    put_u32(&mut sec, 0); // line numbers pointer
    put_u16(&mut sec, 0); // relocation count
    put_u16(&mut sec, 0); // line number count
    put_u32(&mut sec, 0x60000020); // characteristics
    f[0x178..0x178 + 40].copy_from_slice(&sec);
    write_managed_payload(&mut f);
    f
}

#[test]
fn maps_metadata_rva_to_0x240() {
    let sections = vec![section_0x2000()];
    assert_eq!(address_to_offset(&sections, 0x200, 0x2040), Some(0x240));
}

#[test]
fn maps_start_of_section() {
    let sections = vec![section_0x2000()];
    assert_eq!(address_to_offset(&sections, 0x200, 0x2000), Some(0x200));
}

#[test]
fn unmapped_address_is_none() {
    let sections = vec![section_0x2000()];
    assert_eq!(address_to_offset(&sections, 0x200, 0x1FFF), None);
    assert_eq!(address_to_offset(&sections, 0x200, 0x9000), None);
}

#[test]
fn full_pipeline_resolves_main() {
    let (f, img) = synthetic_image();
    let rep = analyze(&f, &img).expect("inspection must succeed");
    // the CLI header decoded from offset 0x200
    assert_eq!(rep.cli.cb, 0);
    assert_eq!(rep.cli.major_version, 2);
    assert_eq!(rep.cli.minor_version, 5);
    assert_eq!(rep.cli.metadata.virtual_address, 0x2040);
    assert_eq!(rep.cli.metadata.size, 72);
    assert_eq!(rep.cli.entry_point_token, 0x06000001);
    // the metadata root decoded from offset 0x240
    assert_eq!(rep.root.signature, 0x424A5342);
    assert_eq!(rep.root.streams, 2);
    assert_eq!(rep.root.version, b"v4.0".to_vec());
    assert_eq!(rep.root.stream_headers[0].name, b"#~".to_vec());
    assert_eq!(rep.root.stream_headers[1].name, b"#Strings".to_vec());
    // the table stream
    assert_eq!(rep.tables.valid, 1u64 << 6);
    assert_eq!(rep.tables.rows, vec![(6u32, 1u32)]);
    assert_eq!(rep.tables.methods.len(), 1);
    assert_eq!(rep.tables.methods[0].rva, 0x1234);
    assert_eq!(rep.tables.methods[0].name, 10);
    // token 0x06000001: table 6, first row, whose name is "Main"
    assert_eq!(rep.entry_point_name, b"Main".to_vec());
}

#[test]
fn wrong_machine_is_not_managed() {
    let (f, mut img) = synthetic_image();
    img.machine = 0x8664;
    assert_eq!(analyze(&f, &img), Err(InspectError::NotManaged));
}

#[test]
fn unmappable_clr_rva_reported() {
    let (f, mut img) = synthetic_image();
    img.clr_rva = 0x9000;
    assert_eq!(analyze(&f, &img), Err(InspectError::Unmapped(0x9000)));
}

#[test]
fn missing_tilde_stream_reported() {
    // a root whose directory has only the string heap
    let root = MetadataRoot {
        signature: 0x424A5342,
        major_version: 1,
        minor_version: 1,
        reserved: 0,
        length: 0,
        version: b"v4.0".to_vec(),
        flags: 0,
        streams: 1,
        stream_headers: vec![StreamHeader { offset: 40, size: 64, name: b"#Strings".to_vec() }],
    };
    let root_bytes = encode_metadata_root(&root);
    let mut f = vec![0u8; 0x800];
    let mut cli = Vec::new();
    put_u32(&mut cli, 0);
    put_u16(&mut cli, 2);
    put_u16(&mut cli, 5);
    put_u32(&mut cli, 0x2040);
    put_u32(&mut cli, 72);
    put_u32(&mut cli, 0);
    put_u32(&mut cli, 0x06000001);
    f[0x200..0x200 + 24].copy_from_slice(&cli);
    f[0x240..0x240 + root_bytes.len()].copy_from_slice(&root_bytes);
    let img = ImageLayout {
        machine: 0x14C,
        file_alignment: 0x200,
        clr_rva: 0x2000,
        clr_size: 72,
        sections: vec![section_0x2000()],
    };
    assert_eq!(analyze(&f, &img), Err(InspectError::MissingStream));
}

#[test]
fn whole_container_resolves_main() {
    let f = build_pe32_image();
    let rep = inspect_bytes(&f).expect("the container must parse and decode");
    assert_eq!(rep.cli.metadata.virtual_address, 0x2040);
    assert_eq!(rep.tables.methods.len(), 1);
    assert_eq!(rep.entry_point_name, b"Main".to_vec());
}

#[test]
fn garbage_bytes_are_a_container_error() {
    let junk = vec![0xA5u8; 64];
    assert_eq!(inspect_bytes(&junk), Err(InspectError::Container));
}

#[test]
fn root_round_trips_with_three_streams() {
    let root = MetadataRoot {
        signature: 0x424A5342,
        major_version: 1,
        minor_version: 1,
        reserved: 7,
        length: 12,
        version: b"v2.0.50727".to_vec(),
        flags: 0x1234,
        streams: 3,
        stream_headers: vec![
            StreamHeader { offset: 0x6C, size: 0x100, name: b"#~".to_vec() },
            StreamHeader { offset: 0x16C, size: 0x80, name: b"#Strings".to_vec() },
            StreamHeader { offset: 0x1EC, size: 0x10, name: b"#US".to_vec() },
        ],
    };
    let enc = encode_metadata_root(&root);
    let (decoded, end) = decode_metadata_root(&enc, 0).expect("round trip must decode");
    assert_eq!(decoded, root);
    assert_eq!(decoded.stream_headers.len(), 3);
    assert_eq!(end, enc.len());
}

#[test]
fn root_encoding_exact_bytes() {
    let root = MetadataRoot {
        signature: 0x424A5342,
        major_version: 1,
        minor_version: 2,
        reserved: 0,
        length: 0,
        version: b"v".to_vec(),
        flags: 3,
        streams: 1,
        stream_headers: vec![StreamHeader { offset: 5, size: 6, name: b"#~".to_vec() }],
    };
    let enc = encode_metadata_root(&root);
    let expected: Vec<u8> = vec![
        0x42, 0x53, 0x4A, 0x42, // signature, little endian
        1, 0, 2, 0, // major, minor
        0, 0, 0, 0, // reserved
        0, 0, 0, 0, // length
        b'v', 0, 0, 0, // version, terminator, padding to 20
        3, 0, // flags
        1, 0, // stream count
        5, 0, 0, 0, // stream offset
        6, 0, 0, 0, // stream size
        b'#', b'~', 0, 0, // name, terminator, padding
    ];
    assert_eq!(enc, expected);
}

#[test]
fn bad_signature_rejected() {
    let mut b = Vec::new();
    put_u32(&mut b, 0xDEADBEEF);
    b.resize(64, 0);
    assert_eq!(decode_metadata_root(&b, 0), Err(InspectError::BadSignature));
}

#[test]
fn truncated_root_rejected() {
    let b = vec![0x42u8, 0x53, 0x4A];
    assert_eq!(decode_metadata_root(&b, 0), Err(InspectError::Truncated));
}

#[test]
fn truncated_cli_header_rejected() {
    let b = vec![0u8; 23];
    assert_eq!(decode_cli_header(&b, 0), Err(InspectError::Truncated));
}

#[test]
fn tilde_reads_popcount_counts_and_exact_length() {
    // tables 0 (width 10), 6 (methods, width 14) and 17 (width 2)
    let mut t = Vec::new();
    put_u32(&mut t, 0);
    t.push(2);
    t.push(0);
    t.push(0);
    t.push(0);
    put_u64(&mut t, (1u64 << 0) | (1u64 << 6) | (1u64 << 17));
    put_u64(&mut t, 0);
    put_u32(&mut t, 2); // table 0: two rows
    put_u32(&mut t, 1); // table 6: one row
    put_u32(&mut t, 3); // table 17: three rows
    let declared = 24 + 12 + (10 * 2 + 14 * 1 + 2 * 3);
    t.resize(declared, 0xEE); // row data, content of skipped tables arbitrary
    // overwrite the method row, which sits after table 0's 20 bytes
    let mbase = 24 + 12 + 20;
    let mut m = Vec::new();
    put_u32(&mut m, 0x40);
    put_u16(&mut m, 1);
    put_u16(&mut m, 2);
    put_u16(&mut m, 3);
    put_u16(&mut m, 4);
    put_u16(&mut m, 5);
    t[mbase..mbase + 14].copy_from_slice(&m);
    // trailing bytes past the declared length must not be consumed
    t.extend_from_slice(&[0xFF; 9]);
    let (ts, end) = decode_tilda_stream(&t, 0).expect("stream must decode");
    assert_eq!(ts.rows, vec![(0u32, 2u32), (6, 1), (17, 3)]);
    assert_eq!(end, declared);
    assert_eq!(ts.methods.len(), 1);
    assert_eq!(
        ts.methods[0],
        MethodDef { rva: 0x40, impl_flags: 1, flags: 2, name: 3, signature: 4, param_list: 5 }
    );
}

#[test]
fn method_table_with_zero_rows_is_fine() {
    let mut t = Vec::new();
    put_u32(&mut t, 0);
    t.push(2);
    t.push(0);
    t.push(0);
    t.push(0);
    put_u64(&mut t, 1u64 << 6);
    put_u64(&mut t, 0);
    put_u32(&mut t, 0); // zero method rows
    let (ts, end) = decode_tilda_stream(&t, 0).expect("stream must decode");
    assert_eq!(ts.rows, vec![(6u32, 0u32)]);
    assert_eq!(ts.methods.len(), 0);
    assert_eq!(end, 28);
}

#[test]
fn unknown_table_with_rows_is_refused() {
    let mut t = Vec::new();
    put_u32(&mut t, 0);
    t.push(2);
    t.push(0);
    t.push(0);
    t.push(0);
    put_u64(&mut t, 1u64 << 3); // table 3 has no known width
    put_u64(&mut t, 0);
    put_u32(&mut t, 1); // ... but one row
    assert_eq!(decode_tilda_stream(&t, 0), Err(InspectError::UnsupportedTable(3)));
}

#[test]
fn unknown_table_with_zero_rows_is_skipped() {
    let mut t = Vec::new();
    put_u32(&mut t, 0);
    t.push(2);
    t.push(0);
    t.push(0);
    t.push(0);
    put_u64(&mut t, 1u64 << 3);
    put_u64(&mut t, 0);
    put_u32(&mut t, 0);
    let (ts, end) = decode_tilda_stream(&t, 0).expect("stream must decode");
    assert_eq!(ts.rows, vec![(3u32, 0u32)]);
    assert_eq!(end, 28);
}

#[test]
fn truncated_tilde_stream_rejected() {
    let mut t = Vec::new();
    put_u32(&mut t, 0);
    t.push(2);
    t.push(0);
    t.push(0);
    t.push(0);
    put_u64(&mut t, 1u64 << 0);
    put_u64(&mut t, 0);
    put_u32(&mut t, 100); // 100 rows of table 0 claimed, no data
    assert_eq!(decode_tilda_stream(&t, 0), Err(InspectError::Truncated));
}

#[test]
fn heap_string_read_at_based_index() {
    let mut b = vec![0u8; 5016];
    b[5010..5015].copy_from_slice(b"Main\0");
    // the bytes right before the name are nonzero, so the scan cannot
    // land short
    b[5008] = b'x';
    b[5009] = b'y';
    let name = read_heap_string(&b, 5000, 10).expect("name must resolve");
    assert_eq!(name, b"Main".to_vec());
}

#[test]
fn heap_string_without_terminator_rejected() {
    let b = vec![1u8; 32];
    assert_eq!(read_heap_string(&b, 0, 4), Err(InspectError::Truncated));
}

#[test]
fn entry_token_first_method_resolves() {
    let methods = vec![
        MethodDef { rva: 0, impl_flags: 0, flags: 0, name: 10, signature: 0, param_list: 1 },
    ];
    let mut b = vec![0u8; 64];
    b[30..35].copy_from_slice(b"Main\0");
    // token 0x06000001: table id 6 (methods), row index 1, meaning the
    // first method
    let name = resolve_entry_point(&b, &methods, 20, 0x06000001).expect("token must resolve");
    assert_eq!(name, b"Main".to_vec());
}

#[test]
fn entry_token_row_zero_rejected() {
    let methods = vec![
        MethodDef { rva: 0, impl_flags: 0, flags: 0, name: 0, signature: 0, param_list: 1 },
    ];
    let b = vec![0u8; 64];
    assert_eq!(
        resolve_entry_point(&b, &methods, 0, 0x06000000),
        Err(InspectError::BadToken(0x06000000))
    );
}

#[test]
fn entry_token_wrong_table_rejected() {
    let methods = vec![
        MethodDef { rva: 0, impl_flags: 0, flags: 0, name: 0, signature: 0, param_list: 1 },
    ];
    let b = vec![0u8; 64];
    assert_eq!(
        resolve_entry_point(&b, &methods, 0, 0x02000001),
        Err(InspectError::BadToken(0x02000001))
    );
}

#[test]
fn all_method_names_resolve_in_row_order() {
    let methods = vec![
        MethodDef { rva: 0, impl_flags: 0, flags: 0, name: 6, signature: 0, param_list: 1 },
        MethodDef { rva: 0, impl_flags: 0, flags: 0, name: 0, signature: 0, param_list: 2 },
    ];
    let mut b = vec![0u8; 32];
    b[8..12].copy_from_slice(b".cto"); // heap base 8: ".ctor\0Main\0"
    b[12..19].copy_from_slice(b"r\0Main\0");
    let names = method_names(&b, &methods, 8).expect("names must resolve");
    assert_eq!(names, vec![b"Main".to_vec(), b".ctor".to_vec()]);
    assert_eq!(find_name(&names, &b"Main".to_vec()), Some(0));
    assert_eq!(find_name(&names, &b".ctor".to_vec()), Some(1));
    assert_eq!(find_name(&names, &b"Other".to_vec()), None);
}

#[test]
fn entry_token_row_out_of_range_rejected() {
    let methods = vec![
        MethodDef { rva: 0, impl_flags: 0, flags: 0, name: 0, signature: 0, param_list: 1 },
    ];
    let b = vec![0u8; 64];
    assert_eq!(
        resolve_entry_point(&b, &methods, 0, 0x06000002),
        Err(InspectError::BadToken(0x06000002))
    );
}
