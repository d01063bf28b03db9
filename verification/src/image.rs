//! The driver: takes the plain values the container-level loader hands
//! over (machine type, file alignment, CLR directory, section
//! geometry), maps the CLR header's address, decodes the CLI header,
//! the metadata root and the `#~` stream, and resolves the entry-point
//! method's name. The container parse itself is delegated to the
//! loader; everything after it is verified.

use vstd::prelude::*;

use crate::bytes::{bytes_eq, le16};
use crate::header::{
    cli_header_at, decode_cli_header, decode_metadata_root, decode_root_spec, CliHeader,
    MetadataRoot, StreamHeader, StreamHeaderV,
};
use crate::mapper::{address_to_offset, map_rva, SectionDescriptor};
use crate::resolve::{
    heap_string_at, heap_string_ok, resolve_entry_point, token_row, token_table,
};
use crate::tables::{
    bit_set, decode_tilda_stream, lemma_rows_spec_bit_present, row_bytes_prefix, tilda_ok,
    tilda_post, tilda_rows, TildaStream, METHOD_TABLE_ID,
};
use crate::InspectError;

verus! {

/// The machine code for 32-bit x86: the only container machine type
/// this reader takes for a managed image, as narrow as that proxy is.
pub const MACHINE_I386: u16 = 0x14C;

/// What the container-level loader hands over: the machine type, the
/// declared file alignment, the CLR runtime directory's address and
/// size, and the geometry of every section.
#[derive(Debug, Clone, PartialEq, Eq)]
pub struct ImageLayout {
    pub machine: u16,
    pub file_alignment: u32,
    pub clr_rva: u32,
    pub clr_size: u32,
    pub sections: Vec<SectionDescriptor>,
}

/// Everything one inspection decodes.
#[derive(Debug, Clone, PartialEq, Eq)]
pub struct InspectionReport {
    pub cli: CliHeader,
    pub root: MetadataRoot,
    pub tables: TildaStream,
    /// File offset the `#Strings` heap is based at; name-heap indexes
    /// count from here.
    pub strings_base: u64,
    pub entry_point_name: Vec<u8>,
}

/// Name bytes of the compressed tables stream, `#~`.
pub open spec fn tilde_stream_name() -> Seq<u8> {
    seq![0x23u8, 0x7Eu8]
}

/// Name bytes of the string heap stream, `#Strings`.
pub open spec fn strings_stream_name() -> Seq<u8> {
    seq![0x23u8, 0x53u8, 0x74u8, 0x72u8, 0x69u8, 0x6Eu8, 0x67u8, 0x73u8]
}

fn tilde_name_bytes() -> (r: Vec<u8>)
    ensures
        r@ == tilde_stream_name(),
{
    let mut v: Vec<u8> = Vec::new();
    v.push(0x23);
    v.push(0x7E);
    proof {
        assert(v@ =~= tilde_stream_name());
    }
    v
}

fn strings_name_bytes() -> (r: Vec<u8>)
    ensures
        r@ == strings_stream_name(),
{
    let mut v: Vec<u8> = Vec::new();
    v.push(0x23);
    v.push(0x53);
    v.push(0x74);
    v.push(0x72);
    v.push(0x69);
    v.push(0x6E);
    v.push(0x67);
    v.push(0x73);
    proof {
        assert(v@ =~= strings_stream_name());
    }
    v
}

/// Whether index `i` holds the first stream of that name in the
/// directory.
pub open spec fn is_first_stream(hs: Seq<StreamHeaderV>, name: Seq<u8>, i: int) -> bool {
    &&& 0 <= i < hs.len()
    &&& hs[i].name == name
    &&& forall|j: int| 0 <= j < i ==> (#[trigger] hs[j]).name != name
}

/// Finds the first stream of the given name, if any.
fn find_stream(headers: &Vec<StreamHeader>, name: &Vec<u8>) -> (r: Option<usize>)
    ensures
        r is Some ==> is_first_stream(
            headers@.map_values(|h: StreamHeader| h@),
            name@,
            r->0 as int,
        ),
        r is None ==> forall|j: int|
            0 <= j < headers@.len() ==> (#[trigger] headers@[j]).name@ != name@,
{
    let n = headers.len();
    let mut i: usize = 0;
    while i < n
        invariant
            n == headers@.len(),
            0 <= i <= n,
            forall|j: int| 0 <= j < i ==> (#[trigger] headers@[j]).name@ != name@,
        decreases n - i,
    {
        if bytes_eq(&headers[i].name, name) {
            proof {
                let hs = headers@.map_values(|h: StreamHeader| h@);
                assert(hs[i as int] == headers@[i as int]@);
                assert forall|j: int| 0 <= j < i implies (#[trigger] hs[j]).name != name@ by {
                    assert(hs[j] == headers@[j]@);
                }
            }
            return Some(i);
        }
        i += 1;
    }
    proof {
        let hs = headers@.map_values(|h: StreamHeader| h@);
        assert forall|j: int| 0 <= j < headers@.len() implies (#[trigger] hs[j]).name != name@ by {
            assert(hs[j] == headers@[j]@);
        }
    }
    None
}

/// What holds of a successful inspection against the raw bytes and the
/// layout the loader handed over: the CLR header's address maps to an
/// offset where the decoded CLI header sits, the header's metadata
/// directory maps to the metadata root, the first `#~` stream decodes
/// to the table stream, and the entry-point name is the string the
/// token's method row points to in the first `#Strings` heap.
pub open spec fn analyze_post(b: Seq<u8>, img: ImageLayout, rep: InspectionReport) -> bool {
    let fa = img.file_alignment as int;
    let cli_map = map_rva(img.sections@, fa, img.clr_rva as int);
    &&& img.machine == MACHINE_I386
    &&& cli_map is Some
    &&& ({
        let cli_off = cli_map->0;
        &&& cli_off + 24 <= b.len()
        &&& rep.cli == cli_header_at(b, cli_off)
        &&& ({
            let root_map = map_rva(img.sections@, fa, rep.cli.metadata.virtual_address as int);
            &&& root_map is Some
            &&& ({
                let root_off = root_map->0;
                &&& decode_root_spec(b, root_off) is Some
                &&& rep.root@ == (decode_root_spec(b, root_off)->0).0
                &&& exists|ti: int|
                    {
                        &&& #[trigger] is_first_stream(
                            rep.root@.stream_headers,
                            tilde_stream_name(),
                            ti,
                        )
                        &&& tilda_ok(b, root_off + rep.root@.stream_headers[ti].offset)
                        &&& tilda_post(
                            b,
                            root_off + rep.root@.stream_headers[ti].offset,
                            rep.tables,
                        )
                    }
                &&& exists|si: int|
                    {
                        &&& #[trigger] is_first_stream(
                            rep.root@.stream_headers,
                            strings_stream_name(),
                            si,
                        )
                        &&& ({
                            let sbase = root_off + rep.root@.stream_headers[si].offset;
                            let tok = rep.cli.entry_point_token;
                            &&& rep.strings_base == sbase
                            &&& token_table(tok) == METHOD_TABLE_ID
                            &&& 1 <= token_row(tok) <= rep.tables.methods@.len()
                            &&& heap_string_ok(
                                b,
                                sbase + rep.tables.methods@[token_row(tok) - 1].name,
                            )
                            &&& rep.entry_point_name@ == heap_string_at(
                                b,
                                sbase + rep.tables.methods@[token_row(tok) - 1].name,
                            )
                        })
                    }
            })
        })
    })
}

/// The index of the first stream of that name; meaningful only when
/// one exists.
pub open spec fn first_stream(hs: Seq<StreamHeaderV>, name: Seq<u8>) -> int {
    choose|i: int| is_first_stream(hs, name, i)
}

/// Whether the row-count list declares the method table.
pub open spec fn has_method_entry(rows: Seq<(u32, u32)>) -> bool {
    exists|j: int| 0 <= j < rows.len() && (#[trigger] rows[j]).0 == METHOD_TABLE_ID
}

/// The position of the method table's entry in the row-count list;
/// meaningful only when one exists.
pub open spec fn method_entry_index(rows: Seq<(u32, u32)>) -> int {
    choose|j: int| 0 <= j < rows.len() && (#[trigger] rows[j]).0 == METHOD_TABLE_ID
}

/// The method table's declared row count, zero when absent.
pub open spec fn spec_method_count(rows: Seq<(u32, u32)>) -> int {
    if has_method_entry(rows) {
        rows[method_entry_index(rows)].1 as int
    } else {
        0
    }
}

/// The name-heap index of method row `k` of the `#~` stream at `toff`:
/// the 2-byte field 8 bytes into the row, which sits after the fixed
/// header, the count words, and the tables before the method table.
pub open spec fn method_name_index(b: Seq<u8>, toff: int, k: int) -> u16 {
    let rows = tilda_rows(b, toff);
    let j = method_entry_index(rows);
    le16(b, toff + 24 + 4 * rows.len() + row_bytes_prefix(rows, j) + 14 * k + 8)
}

/// When the whole inspection of a layout succeeds: the machine type is
/// accepted, the CLR header's address and the metadata directory's
/// address both map, the CLI header and the metadata root fit and
/// decode, both required streams are in the directory, the `#~` stream
/// decodes, and the entry-point token names a method row whose name
/// can be read out of the heap.
pub open spec fn analyze_ok(b: Seq<u8>, img: ImageLayout) -> bool {
    let fa = img.file_alignment as int;
    let cli_map = map_rva(img.sections@, fa, img.clr_rva as int);
    &&& img.machine == MACHINE_I386
    &&& cli_map is Some
    &&& cli_map->0 + 24 <= b.len()
    &&& ({
        let cli = cli_header_at(b, cli_map->0);
        let root_map = map_rva(img.sections@, fa, cli.metadata.virtual_address as int);
        &&& root_map is Some
        &&& decode_root_spec(b, root_map->0) is Some
        &&& ({
            let root_off = root_map->0;
            let hs = (decode_root_spec(b, root_off)->0).0.stream_headers;
            &&& exists|ti: int| #[trigger] is_first_stream(hs, tilde_stream_name(), ti)
            &&& exists|si: int| #[trigger] is_first_stream(hs, strings_stream_name(), si)
            &&& ({
                let toff = root_off + hs[first_stream(hs, tilde_stream_name())].offset;
                let sbase = root_off + hs[first_stream(hs, strings_stream_name())].offset;
                let tok = cli.entry_point_token;
                let rows = tilda_rows(b, toff);
                &&& tilda_ok(b, toff)
                &&& token_table(tok) == METHOD_TABLE_ID
                &&& 1 <= token_row(tok) <= spec_method_count(rows)
                &&& heap_string_ok(b, sbase + method_name_index(b, toff, token_row(tok) - 1))
            })
        })
    })
}

proof fn lemma_first_stream_unique(hs: Seq<StreamHeaderV>, name: Seq<u8>, i1: int, i2: int)
    requires
        is_first_stream(hs, name, i1),
        is_first_stream(hs, name, i2),
    ensures
        i1 == i2,
{
    if i1 < i2 {
        assert(hs[i1].name != name);
    }
    if i2 < i1 {
        assert(hs[i2].name != name);
    }
}

/// Runs the verified part of the inspection on the raw bytes and the
/// loader's layout: machine check, address mapping, CLI header,
/// metadata root, `#~` stream, entry-point name. Fails fast at the
/// first malformed field.
pub fn analyze(b: &[u8], img: &ImageLayout) -> (r: Result<InspectionReport, InspectError>)
    requires
        b@.len() + 16 <= usize::MAX,
    ensures
        r is Ok <==> analyze_ok(b@, *img),
        r is Ok ==> analyze_post(b@, *img, r->Ok_0),
        r is Err ==> r->Err_0 != InspectError::Container,
        r is Err ==> ((r->Err_0 == InspectError::NotManaged) <==> img.machine != MACHINE_I386),
        r matches Err(InspectError::Unmapped(rva)) ==> map_rva(
            img.sections@,
            img.file_alignment as int,
            rva as int,
        ) is None,
{
    let blen = b.len();
    if img.machine != MACHINE_I386 {
        return Err(InspectError::NotManaged);
    }
    let cli_off64 = match address_to_offset(&img.sections, img.file_alignment, img.clr_rva) {
        Some(o) => o,
        None => {
            return Err(InspectError::Unmapped(img.clr_rva));
        },
    };
    if cli_off64 >= blen as u64 {
        return Err(InspectError::Truncated);
    }
    let cli_off = cli_off64 as usize;
    let cli = match decode_cli_header(b, cli_off) {
        Ok(h) => h,
        Err(e) => {
            return Err(e);
        },
    };
    let root_off64 = match address_to_offset(
        &img.sections,
        img.file_alignment,
        cli.metadata.virtual_address,
    ) {
        Some(o) => o,
        None => {
            return Err(InspectError::Unmapped(cli.metadata.virtual_address));
        },
    };
    if root_off64 >= blen as u64 {
        return Err(InspectError::Truncated);
    }
    let root_off = root_off64 as usize;
    let (root, _root_end) = match decode_metadata_root(b, root_off) {
        Ok(v) => v,
        Err(e) => {
            return Err(e);
        },
    };
    let tilde_name = tilde_name_bytes();
    let ti = match find_stream(&root.stream_headers, &tilde_name) {
        Some(i) => i,
        None => {
            proof {
                let hs = root@.stream_headers;
                assert forall|t: int| !(#[trigger] is_first_stream(
                    hs,
                    tilde_stream_name(),
                    t,
                )) by {
                    if 0 <= t < hs.len() {
                        assert(hs[t] == root.stream_headers@[t]@);
                    }
                }
            }
            return Err(InspectError::MissingStream);
        },
    };
    let tilde_rel = root.stream_headers[ti].offset;
    proof {
        let hs = root@.stream_headers;
        assert(is_first_stream(hs, tilde_stream_name(), ti as int));
        assert(is_first_stream(hs, tilde_stream_name(), first_stream(hs, tilde_stream_name())));
        lemma_first_stream_unique(
            hs,
            tilde_stream_name(),
            first_stream(hs, tilde_stream_name()),
            ti as int,
        );
        assert(hs[ti as int].offset == tilde_rel);
        assert(b@.len() <= u64::MAX);
    }
    if (tilde_rel as u64) > u64::MAX - root_off64 {
        return Err(InspectError::Truncated);
    }
    let tilde_off64 = root_off64 + tilde_rel as u64;
    if tilde_off64 >= blen as u64 {
        return Err(InspectError::Truncated);
    }
    let tilde_off = tilde_off64 as usize;
    let (tables, _tables_end) = match decode_tilda_stream(b, tilde_off) {
        Ok(v) => v,
        Err(e) => {
            return Err(e);
        },
    };
    let strings_name = strings_name_bytes();
    let si = match find_stream(&root.stream_headers, &strings_name) {
        Some(i) => i,
        None => {
            proof {
                let hs = root@.stream_headers;
                assert forall|t: int| !(#[trigger] is_first_stream(
                    hs,
                    strings_stream_name(),
                    t,
                )) by {
                    if 0 <= t < hs.len() {
                        assert(hs[t] == root.stream_headers@[t]@);
                    }
                }
            }
            return Err(InspectError::MissingStream);
        },
    };
    let strings_rel = root.stream_headers[si].offset;
    proof {
        let hs = root@.stream_headers;
        assert(is_first_stream(hs, strings_stream_name(), si as int));
        assert(is_first_stream(
            hs,
            strings_stream_name(),
            first_stream(hs, strings_stream_name()),
        ));
        lemma_first_stream_unique(
            hs,
            strings_stream_name(),
            first_stream(hs, strings_stream_name()),
            si as int,
        );
        assert(hs[si as int].offset == strings_rel);
    }
    if (strings_rel as u64) > u64::MAX - root_off64 {
        return Err(InspectError::Truncated);
    }
    let strings_base = root_off64 + strings_rel as u64;
    let entry_point_name = match resolve_entry_point(
        b,
        &tables.methods,
        strings_base,
        cli.entry_point_token,
    ) {
        Ok(v) => v,
        Err(e) => {
            proof {
                if analyze_ok(b@, *img) {
                    let toff = root_off64 as int + tilde_rel as int;
                    let rows = tilda_rows(b@, toff);
                    assert(rows == tables.rows@);
                    let tok = cli.entry_point_token;
                    assert(1 <= token_row(tok) <= spec_method_count(rows));
                    assert(has_method_entry(rows));
                    let j = method_entry_index(rows);
                    assert(0 <= j < rows.len() && rows[j].0 == METHOD_TABLE_ID);
                    assert(tables.methods@.len() == rows[j].1);
                    let k = token_row(tok) - 1;
                    assert(0 <= k < tables.methods@.len());
                    assert(tables.methods@[k] == crate::tables::method_row_at(
                        b@,
                        toff + 24 + 4 * rows.len() + row_bytes_prefix(rows, j) + 14 * k,
                    ));
                    assert(tables.methods@[k].name == method_name_index(b@, toff, k));
                    assert(heap_string_ok(b@, strings_base + tables.methods@[k].name));
                    assert(false);
                }
            }
            return Err(e);
        },
    };
    proof {
        assert(bit_set(tables.valid, 6)) by {
            assert(1 <= token_row(cli.entry_point_token) <= tables.methods@.len());
        }
        let toff = root_off64 as int + tilde_rel as int;
        lemma_rows_spec_bit_present(b@, toff + 24, tables.valid, 0, 6);
        let rows = tilda_rows(b@, toff);
        assert(rows == tables.rows@);
        assert(has_method_entry(rows));
        let j = method_entry_index(rows);
        assert(0 <= j < rows.len() && rows[j].0 == METHOD_TABLE_ID);
        assert(tables.methods@.len() == rows[j].1);
        let k = token_row(cli.entry_point_token) - 1;
        assert(0 <= k < tables.methods@.len());
        assert(tables.methods@[k] == crate::tables::method_row_at(
            b@,
            toff + 24 + 4 * rows.len() + row_bytes_prefix(rows, j) + 14 * k,
        ));
        assert(tables.methods@[k].name == method_name_index(b@, toff, k));
    }
    let rep = InspectionReport { cli, root, tables, strings_base, entry_point_name };
    proof {
        let hs = rep.root@.stream_headers;
        assert(is_first_stream(hs, tilde_stream_name(), ti as int));
        assert(is_first_stream(hs, strings_stream_name(), si as int));
        assert(hs[ti as int].offset == tilde_rel);
        assert(hs[si as int].offset == strings_rel);
        assert(analyze_ok(b@, *img));
    }
    Ok(rep)
}

/// The layout the container-level parse extracts from the image bytes,
/// or nothing where the container does not parse; it depends on the
/// bytes alone.
pub uninterp spec fn parsed_image(b: Seq<u8>) -> Option<ImageLayout>;

/// Relies on goblin::pe::PE::parse for the container-level parse of the
/// executable image: the COFF header's machine field, the optional
/// header's file alignment, the CLR runtime data directory (slot 14 of
/// the data-directory array), and each section's geometry, handed over
/// as plain values. Returns nothing when the container does not parse
/// or lacks an optional header or a CLR directory.
#[verifier::external_body]
fn parse_container(b: &[u8]) -> (r: Option<ImageLayout>)
    ensures
        r == parsed_image(b@),
{
    let pe = goblin::pe::PE::parse(b).ok()?;
    let machine = pe.header.coff_header.machine;
    let opt = pe.header.optional_header?;
    let dir = *opt.data_directories.get_clr_runtime_header()?;
    let sections = pe.sections.iter().map(
        |s| (SectionDescriptor { virtual_address: s.virtual_address, virtual_size: s.virtual_size, pointer_to_raw_data: s.pointer_to_raw_data, size_of_raw_data: s.size_of_raw_data }),
    ).collect();
    Some(
        ImageLayout { machine, file_alignment: opt.windows_fields.file_alignment, clr_rva: dir.virtual_address, clr_size: dir.size, sections },
    )
}

/// Inspects a whole image: the container parse is delegated to the
/// loader, and whatever layout it hands back is analyzed by the
/// verified pipeline; a layout the loader cannot produce is a container
/// error.
pub fn inspect_bytes(b: &[u8]) -> (r: Result<InspectionReport, InspectError>)
    requires
        b@.len() + 16 <= usize::MAX,
    ensures
        parsed_image(b@) is None <==> r == Err::<InspectionReport, InspectError>(
            InspectError::Container,
        ),
        parsed_image(b@) matches Some(img) ==> (r is Ok <==> analyze_ok(b@, img)),
        parsed_image(b@) matches Some(img) ==> (r is Ok ==> analyze_post(b@, img, r->Ok_0)),
{
    match parse_container(b) {
        None => Err(InspectError::Container),
        Some(img) => {
            match analyze(b, &img) {
                Ok(rep) => {
                    proof {
                        assert(analyze_post(b@, img, rep));
                    }
                    Ok(rep)
                },
                Err(e) => Err(e),
            }
        },
    }
}

} // verus!
