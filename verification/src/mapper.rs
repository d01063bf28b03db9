//! The address mapper: converts an image-relative virtual address into a
//! file byte offset using the section geometry and the alignment rules of
//! the container format.

use vstd::prelude::*;

verus! {

/// Geometry of one section, as the container-level loader hands it over.
/// The raw-data pointer is not necessarily aligned to the same boundary
/// as the virtual address; the mapper corrects for that.
#[derive(Debug, Clone, Copy, PartialEq, Eq, Structural)]
pub struct SectionDescriptor {
    pub virtual_address: u32,
    pub virtual_size: u32,
    pub pointer_to_raw_data: u32,
    pub size_of_raw_data: u32,
}

/// `x` rounded up to the next multiple of `a` (`x` itself when `a` is not
/// positive).
pub open spec fn round_up(x: int, a: int) -> int {
    if a <= 0 {
        x
    } else {
        ((x + a - 1) / a) * a
    }
}

/// `x` rounded down to the previous multiple of `a` (positive `a`).
pub open spec fn align_down(x: int, a: int) -> int {
    if a <= 0 {
        x
    } else {
        (x / a) * a
    }
}

/// How many bytes of the section may be read: the raw read-size candidate
/// `round_up(raw_pointer + raw_size, file_alignment)` clamped to
/// `round_up(raw_size, 0x1000)`, and, when the virtual size is nonzero,
/// further clamped to `round_up(virtual_size, 0x1000)`.
pub open spec fn readable_size(s: SectionDescriptor, file_alignment: int) -> int {
    let raw = round_up(s.pointer_to_raw_data + s.size_of_raw_data, file_alignment);
    let page = round_up(s.size_of_raw_data as int, 0x1000);
    let cand = if raw <= page {
        raw
    } else {
        page
    };
    if s.virtual_size == 0 {
        cand
    } else {
        let vpage = round_up(s.virtual_size as int, 0x1000);
        if cand <= vpage {
            cand
        } else {
            vpage
        }
    }
}

/// Whether `rva` falls inside the section's mapped virtual range.
pub open spec fn section_contains(s: SectionDescriptor, file_alignment: int, rva: int) -> bool {
    s.virtual_address <= rva < s.virtual_address + readable_size(s, file_alignment)
}

/// The file offset an address inside the section maps to: the distance
/// from the section's virtual address, based at the raw pointer masked
/// down to the fixed 512-byte physical granularity of the container.
pub open spec fn section_offset(s: SectionDescriptor, rva: int) -> int {
    rva - s.virtual_address + align_down(s.pointer_to_raw_data as int, 512)
}

/// The offset the whole section list maps `rva` to: the first section
/// whose mapped range contains `rva` decides; none means unmappable.
pub open spec fn map_rva(ss: Seq<SectionDescriptor>, file_alignment: int, rva: int) -> Option<
    int,
>
    decreases ss.len(),
{
    if ss.len() == 0 {
        None
    } else if section_contains(ss[0], file_alignment, rva) {
        Some(section_offset(ss[0], rva))
    } else {
        map_rva(ss.drop_first(), file_alignment, rva)
    }
}

proof fn lemma_map_rva_none(ss: Seq<SectionDescriptor>, file_alignment: int, rva: int)
    requires
        forall|j: int| 0 <= j < ss.len() ==> !section_contains(ss[j], file_alignment, rva),
    ensures
        map_rva(ss, file_alignment, rva) is None,
    decreases ss.len(),
{
    if ss.len() > 0 {
        lemma_map_rva_none(ss.drop_first(), file_alignment, rva);
    }
}

proof fn lemma_map_rva_found(ss: Seq<SectionDescriptor>, file_alignment: int, rva: int, i: int)
    requires
        0 <= i < ss.len(),
        forall|j: int| 0 <= j < i ==> !section_contains(ss[j], file_alignment, rva),
        section_contains(ss[i], file_alignment, rva),
    ensures
        map_rva(ss, file_alignment, rva) == Some(section_offset(ss[i], rva)),
    decreases i,
{
    if i > 0 {
        lemma_map_rva_found(ss.drop_first(), file_alignment, rva, i - 1);
    }
}

/// `x` rounded up to a multiple of `a`.
fn round_up_u64(x: u64, a: u64) -> (r: u64)
    requires
        x + a <= u64::MAX,
    ensures
        r == round_up(x as int, a as int),
        x <= r,
{
    if a == 0 {
        x
    } else {
        let q = (x + (a - 1)) / a;
        proof {
            assert(q * a <= x + a - 1 && x <= q * a) by (nonlinear_arith)
                requires
                    a >= 1,
                    x >= 0,
                    q == (x + a - 1) as int / a as int,
            ;
        }
        q * a
    }
}

/// `x` rounded down to a multiple of 512.
fn align_down_512(x: u64) -> (r: u64)
    ensures
        r == align_down(x as int, 512),
        r <= x,
{
    let q = x / 512;
    proof {
        assert(q * 512 <= x) by (nonlinear_arith)
            requires
                x >= 0,
                q == x as int / 512,
        ;
    }
    q * 512
}

/// Readable byte count of one section.
fn section_readable_size(s: &SectionDescriptor, file_alignment: u32) -> (r: u64)
    ensures
        r == readable_size(*s, file_alignment as int),
{
    let raw = round_up_u64(
        s.pointer_to_raw_data as u64 + s.size_of_raw_data as u64,
        file_alignment as u64,
    );
    let page = round_up_u64(s.size_of_raw_data as u64, 0x1000);
    let mut cand = if raw <= page {
        raw
    } else {
        page
    };
    if s.virtual_size != 0 {
        let vpage = round_up_u64(s.virtual_size as u64, 0x1000);
        if vpage < cand {
            cand = vpage;
        }
    }
    cand
}

/// Maps a virtual address to a physical file offset, or reports it
/// unmappable. The first section whose mapped virtual range
/// `[virtual_address, virtual_address + readable_size)` contains the
/// address decides; the offset is the distance into that section plus the
/// section's raw pointer masked down to a 512-byte boundary, and so lands
/// inside the section's readable raw-data window.
pub fn address_to_offset(sections: &Vec<SectionDescriptor>, file_alignment: u32, rva: u32) -> (r:
    Option<u64>)
    ensures
        r is Some <==> exists|i: int|
            0 <= i < sections@.len() && section_contains(
                sections@[i],
                file_alignment as int,
                rva as int,
            ),
        match r {
            Some(off) => {
                &&& map_rva(sections@, file_alignment as int, rva as int) == Some(off as int)
                &&& exists|i: int|
                    {
                        &&& 0 <= i < sections@.len()
                        &&& #[trigger] section_contains(sections@[i], file_alignment as int, rva as int)
                        &&& off == section_offset(sections@[i], rva as int)
                        &&& align_down(sections@[i].pointer_to_raw_data as int, 512) <= off as int
                        &&& (off as int) < align_down(sections@[i].pointer_to_raw_data as int, 512)
                            + readable_size(sections@[i], file_alignment as int)
                    }
            },
            None => map_rva(sections@, file_alignment as int, rva as int) is None,
        },
{
    let n = sections.len();
    let mut i: usize = 0;
    while i < n
        invariant
            n == sections@.len(),
            0 <= i <= n,
            forall|j: int|
                0 <= j < i ==> !section_contains(sections@[j], file_alignment as int, rva as int),
        decreases n - i,
    {
        let s = &sections[i];
        let rs = section_readable_size(s, file_alignment);
        if s.virtual_address <= rva && (rva as u64) < s.virtual_address as u64 + rs {
            let off = (rva - s.virtual_address) as u64 + align_down_512(
                s.pointer_to_raw_data as u64,
            );
            proof {
                lemma_map_rva_found(sections@, file_alignment as int, rva as int, i as int);
                assert(section_contains(sections@[i as int], file_alignment as int, rva as int));
                assert(off == section_offset(sections@[i as int], rva as int));
            }
            return Some(off);
        }
        i += 1;
    }
    proof {
        lemma_map_rva_none(sections@, file_alignment as int, rva as int);
    }
    None
}

} // verus!

