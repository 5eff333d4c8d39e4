//! Loading a user binary: the ELF image is parsed by the goblin crate
//! behind a trusted boundary; verified code validates the loadable
//! segments, maps them page by page with fresh frames, copies the file
//! bytes in, maps the user stack, and hands back the entry point.

use vstd::prelude::*;
use crate::entry::{has_flag, FLAG_PRESENT, FLAG_SMALL_PAGE};
use crate::fault::{USER_DATA_FLAGS, USER_STACK_END};
use crate::mem::{mem_inv, PhysicalMemory};
use crate::table::{is_root, vaddr_ok, walk, PageSize, PageTable};
use crate::KernelError;

verus! {

/// The program-header type of a loadable segment.
pub const PT_LOAD: u32 = 1;

/// Pages of user stack `exec` maps below `USER_STACK_END`.
pub const USER_STACK_PAGES: u64 = 16;

/// What an ELF image parses to: its entry point and, for each program
/// header, the tuple (type, file offset, virtual address, file size,
/// memory size). The result is a function of the bytes alone.
pub uninterp spec fn elf_view(b: Seq<u8>) -> Option<(u64, Seq<(u32, u64, u64, u64, u64)>)>;

/// Relies on goblin's `Elf::parse`: hand out the entry point and the raw
/// program-header fields of the image, or nothing when the bytes do not
/// parse as an ELF binary. The parse is a function of the bytes alone
/// within any one build; goblin routes some 64-bit header fields through
/// `usize`, so a 32-bit build could reject images a 64-bit build accepts.
#[verifier::external_body]
fn parse_elf(data: &Vec<u8>) -> (r: Option<(u64, Vec<(u32, u64, u64, u64, u64)>)>)
    ensures
        match r {
            Option::Some((e, segs)) => elf_view(data@) == Option::Some((e, segs@)),
            Option::None => elf_view(data@) is None,
        },
{
    match goblin::elf::Elf::parse(data.as_slice()) {
        Ok(elf) => {
            let segs = elf
                .program_headers
                .iter()
                .map(|p| (p.p_type, p.p_offset, p.p_vaddr, p.p_filesz, p.p_memsz))
                .collect();
            Some((elf.header.e_entry, segs))
        },
        Err(_) => None,
    }
}

/// A loadable header the loader accepts: page-aligned, non-empty, and
/// ending at least a page below the user stack region; every bound comes
/// from the address layout.
pub open spec fn seg_ok(sg: (u32, u64, u64, u64, u64)) -> bool {
    &&& sg.2 % 4096 == 0
    &&& sg.4 > 0
    &&& sg.2 <= USER_STACK_END
    &&& USER_STACK_END - USER_STACK_PAGES * 4096 - sg.4 >= 4096
    &&& sg.2 < USER_STACK_END - USER_STACK_PAGES * 4096 - sg.4 - 4096
}

/// Every loadable header passes the loader's bounds.
pub open spec fn segs_ok(segs: Seq<(u32, u64, u64, u64, u64)>) -> bool {
    forall|i: int| 0 <= i < segs.len() && (#[trigger] segs[i]).0 == PT_LOAD ==> seg_ok(segs[i])
}

/// Frames that suffice to map the loadable segments from header `i` on:
/// one data frame and at most three intermediate tables per page.
pub open spec fn spec_load_cost_from(segs: Seq<(u32, u64, u64, u64, u64)>, i: int) -> int
    decreases segs.len() - i,
{
    if i < 0 || i >= segs.len() {
        0
    } else {
        (if segs[i].0 == PT_LOAD {
            4 * ((segs[i].4 + 4095) / 4096)
        } else {
            0
        }) + spec_load_cost_from(segs, i + 1)
    }
}

/// Every byte of the segment translates, as a writable user page.
pub open spec fn seg_mapped(
    s: Seq<crate::mem::FrameSlot>,
    root: u64,
    sg: (u32, u64, u64, u64, u64),
) -> bool {
    forall|v: u64|
        sg.2 <= v < sg.2 + sg.4 ==> (#[trigger] walk(s, root, v) is Some && walk(
            s,
            root,
            v,
        )->Some_0.1 == USER_DATA_FLAGS | FLAG_PRESENT)
}

/// The byte the loader leaves at offset `o` of a loadable segment: the
/// image byte where the file provides one, zero up to the memory size.
pub open spec fn seg_byte(data: Seq<u8>, sg: (u32, u64, u64, u64, u64), o: u64) -> u8 {
    if o < sg.3 && sg.1 + o < data.len() {
        data[(sg.1 + o) as int]
    } else {
        0u8
    }
}

/// The byte user address `v` reads through `root`.
pub open spec fn user_byte(s: Seq<crate::mem::FrameSlot>, root: u64, v: u64) -> u8 {
    crate::mem::page_bytes(s, ((walk(s, root, v)->Some_0.0) / 4096) as u64)[(v % 4096) as int]
}

/// Every byte of the segment reads back as loaded: the backing frames
/// are data pages holding the file's bytes first and zeros to the end
/// of the memory size.
pub open spec fn seg_loaded(
    s: Seq<crate::mem::FrameSlot>,
    root: u64,
    data: Seq<u8>,
    sg: (u32, u64, u64, u64, u64),
) -> bool {
    forall|o: u64|
        o < sg.4 ==> {
            &&& crate::mem::is_page(
                s,
                (((#[trigger] walk(s, root, (sg.2 + o) as u64))->Some_0.0) / 4096) as u64,
            )
            &&& user_byte(s, root, (sg.2 + o) as u64) == seg_byte(data, sg, o)
        }
}

/// Loadable headers that do not share pages: the page-aligned spans of
/// any two distinct loadable segments are disjoint.
pub open spec fn segs_separate(segs: Seq<(u32, u64, u64, u64, u64)>) -> bool {
    forall|i: int, j: int|
        0 <= i < segs.len() && 0 <= j < segs.len() && i != j && (#[trigger] segs[i]).0 == PT_LOAD
            && (#[trigger] segs[j]).0 == PT_LOAD ==> segs[i].2 + ((segs[i].4 + 4095) / 4096)
            * 4096 <= segs[j].2 || segs[j].2 + ((segs[j].4 + 4095) / 4096) * 4096 <= segs[i].2
}

/// Two addresses with one page number and one page offset are equal.
proof fn lemma_same_vpn_same_off(a: u64, b: u64)
    by (bit_vector)
    requires
        (a >> 12) & 0xf_ffff_ffff == (b >> 12) & 0xf_ffff_ffff,
        a % 4096 == b % 4096,
        a < 0x1_0000_0000_0000,
        b < 0x1_0000_0000_0000,
    ensures
        a == b,
{
}

/// Frames already holding a data page keep it, bytes untouched.
pub open spec fn pages_kept(s0: Seq<crate::mem::FrameSlot>, s1: Seq<crate::mem::FrameSlot>) -> bool {
    forall|g: u64|
        #[trigger] crate::mem::is_page(s0, g) ==> crate::mem::is_page(s1, g)
            && crate::mem::page_bytes(s1, g) == crate::mem::page_bytes(s0, g)
}

/// Every address of the range translates to a freshly allocated
/// zero-filled data frame, and two addresses in different pages of the
/// range reach different frames.
pub open spec fn range_fresh_zero(
    s0: Seq<crate::mem::FrameSlot>,
    s1: Seq<crate::mem::FrameSlot>,
    root: u64,
    start: u64,
    pages: u64,
) -> bool {
    &&& forall|v: u64|
        start <= v < start + pages * 4096 ==> {
            let fr = (((#[trigger] walk(s1, root, v))->Some_0.0) / 4096) as u64;
            &&& crate::mem::is_page(s1, fr)
            &&& crate::mem::page_bytes(s1, fr) == Seq::new(4096nat, |i: int| 0u8)
            &&& !crate::mem::is_page(s0, fr)
        }
    &&& forall|v: u64, w: u64|
        start <= v < start + pages * 4096 && start <= w < start + pages * 4096
            && crate::table::vpn(v) != crate::table::vpn(w) ==> (#[trigger] walk(
            s1,
            root,
            v,
        ))->Some_0.0 != (#[trigger] walk(s1, root, w))->Some_0.0
}

/// Frames that suffice for the whole load.
pub open spec fn spec_load_cost(segs: Seq<(u32, u64, u64, u64, u64)>) -> int {
    spec_load_cost_from(segs, 0)
}

/// The cost of a suffix of the headers is never negative.
proof fn lemma_load_cost_nonneg(segs: Seq<(u32, u64, u64, u64, u64)>, i: int)
    ensures
        spec_load_cost_from(segs, i) >= 0,
    decreases segs.len() - i,
{
    if 0 <= i && i < segs.len() {
        lemma_load_cost_nonneg(segs, i + 1);
    }
}

/// No 2 MiB block is mapped anywhere in this space: every translation
/// that exists is a small page. Fresh spaces have it; mapping small
/// pages keeps it.
pub open spec fn all_small(s: Seq<crate::mem::FrameSlot>, root: u64) -> bool {
    forall|v: u64|
        vaddr_ok(v) ==> match #[trigger] walk(s, root, v) {
            Option::Some((a, fl)) => has_flag(fl, FLAG_SMALL_PAGE),
            Option::None => true,
        }
}

/// Two 48-bit addresses in one 4 KiB page lie within its bounds.
proof fn lemma_same_page_bounds(a: u64, b: u64)
    by (bit_vector)
    requires
        (a >> 12) & 0xf_ffff_ffff == (b >> 12) & 0xf_ffff_ffff,
        b % 4096 == 0,
        a < 0x1_0000_0000_0000,
        b < 0x1_0000_0000_0000,
    ensures
        b <= a && a < b + 4096,
{
}

/// Addresses below the top of the user region never walk through the
/// self-reference slot.
proof fn lemma_low_vaddr_ok(v: u64)
    by (bit_vector)
    requires
        v < 0x8000_0000_0000u64,
    ensures
        (v >> 39) & 0x1ff < 256,
{
}

/// An address inside an aligned 4 KiB page shares its page number.
proof fn lemma_in_page_vpn(v: u64, page: u64)
    by (bit_vector)
    requires
        page % 4096 == 0,
        page <= v,
        v < page + 4096,
    ensures
        (v >> 12) & 0xf_ffff_ffff == (page >> 12) & 0xf_ffff_ffff,
{
}

/// Map `pages` fresh zero frames at `start`, page by page.
fn map_user_range(pt: &PageTable, mem: &mut PhysicalMemory, start: u64, pages: u64) -> (r: Result<
    (),
    KernelError,
>)
    requires
        mem_inv(*old(mem)),
        is_root(old(mem).frames@, pt.root),
        all_small(old(mem).frames@, pt.root),
        start % 4096 == 0,
        pages <= 0x8_0000_0000,
        start + pages * 4096 < 0x8000_0000_0000,
    ensures
        mem_inv(*final(mem)),
        final(mem).capacity == old(mem).capacity,
        is_root(final(mem).frames@, pt.root),
        all_small(final(mem).frames@, pt.root),
        pages_kept(old(mem).frames@, final(mem).frames@),
        crate::mem::spec_avail(*final(mem)) >= crate::mem::spec_avail(*old(mem)) - 4 * pages,
        crate::mem::spec_avail(*old(mem)) >= 4 * pages ==> r is Ok,
        // addresses outside the range, in this space and every other,
        // translate exactly as before (addresses are 48-bit)
        forall|r2: u64, v2: u64|
            is_root(old(mem).frames@, r2) && vaddr_ok(v2) && v2 < 0x1_0000_0000_0000 && !(r2
                == pt.root && start <= v2 < start + pages * 4096) ==> #[trigger] walk(
                final(mem).frames@,
                r2,
                v2,
            ) == walk(old(mem).frames@, r2, v2),
        match r {
            Result::Err(e) => e == KernelError::OutOfMemory && crate::mem::spec_avail(
                *final(mem),
            ) == 0,
            Result::Ok(_) => range_fresh_zero(
                old(mem).frames@,
                final(mem).frames@,
                pt.root,
                start,
                pages,
            ) && forall|v: u64|
                start <= v < start + pages * 4096 ==> (#[trigger] walk(
                    final(mem).frames@,
                    pt.root,
                    v,
                ) is Some && walk(final(mem).frames@, pt.root, v)->Some_0.1 == USER_DATA_FLAGS
                    | FLAG_PRESENT),
        },
{
    let mut k: u64 = 0;
    while k < pages
        invariant
            mem_inv(*mem),
            mem.capacity == old(mem).capacity,
            is_root(mem.frames@, pt.root),
            all_small(mem.frames@, pt.root),
            k <= pages,
            pages <= 0x8_0000_0000,
            start % 4096 == 0,
            start + pages * 4096 < 0x8000_0000_0000,
            crate::mem::spec_avail(*mem) >= crate::mem::spec_avail(*old(mem)) - 4 * k,
            pages_kept(old(mem).frames@, mem.frames@),
            range_fresh_zero(old(mem).frames@, mem.frames@, pt.root, start, k),
            forall|g: u64|
                #[trigger] crate::mem::is_table(old(mem).frames@, g) ==> crate::mem::is_table(
                    mem.frames@,
                    g,
                ) && crate::mem::table_level(mem.frames@, g) == crate::mem::table_level(
                    old(mem).frames@,
                    g,
                ),
            forall|v: u64|
                start <= v < start + k * 4096 ==> (#[trigger] walk(mem.frames@, pt.root, v)
                    is Some && walk(mem.frames@, pt.root, v)->Some_0.1 == USER_DATA_FLAGS
                    | FLAG_PRESENT),
            forall|r2: u64, v2: u64|
                is_root(old(mem).frames@, r2) && vaddr_ok(v2) && v2 < 0x1_0000_0000_0000 && !(r2
                    == pt.root && start <= v2 < start + k * 4096) ==> #[trigger] walk(
                    mem.frames@,
                    r2,
                    v2,
                ) == walk(old(mem).frames@, r2, v2),
        decreases pages - k,
    {
        let page = start + k * 4096;
        let ghost sp = mem.frames@;
        proof {
            lemma_low_vaddr_ok(page);
            assert(vaddr_ok(page));
            assert(crate::table::no_block_on_path(sp, pt.root, page)) by {
                if crate::table::path2(sp, pt.root, page) is Some {
                    let t2 = crate::table::path2(sp, pt.root, page)->Some_0;
                    let e2 = crate::mem::ent(sp, t2, crate::table::idx2(page));
                    if crate::entry::e_present(e2) && !crate::entry::e_small(e2) {
                        assert(walk(sp, pt.root, page) == Option::Some(
                            (crate::entry::e_addr(e2), crate::entry::e_flags(e2)),
                        ));
                        assert(!((crate::entry::e_flags(e2)) & 0x2u64 == 0x2u64) ==> !has_flag(
                            crate::entry::e_flags(e2),
                            FLAG_SMALL_PAGE,
                        ));
                        assert(!crate::entry::e_small(e2) ==> !(crate::entry::e_flags(e2)
                            & 0x2u64 == 0x2u64)) by (bit_vector);
                    }
                }
            }
            assert((0x742u64 & 0x0000_ffff_ffff_f000u64 == 0) && (0x742u64 & 0x2u64 == 0x2))
                by (bit_vector);
            crate::mem::lemma_frame_addr(0);
        }
        let f = match mem.alloc_page() {
            Option::Some(f) => f,
            Option::None => {
                proof {
                    assert(crate::mem::spec_avail(*old(mem)) < 4 * pages);
                }
                return Result::Err(KernelError::OutOfMemory);
            },
        };
        let ghost sa = mem.frames@;
        proof {
            crate::mem::lemma_nontable_update(sp, sa, f);
            assert(is_root(sa, pt.root));
            assert(crate::table::no_block_on_path(sa, pt.root, page));
            crate::mem::lemma_frame_addr(f);
            assert forall|g: u64|
                #[trigger] crate::mem::is_table(old(mem).frames@, g) implies crate::mem::is_table(
                sa,
                g,
            ) && crate::mem::table_level(sa, g) == crate::mem::table_level(
                old(mem).frames@,
                g,
            ) by {
                assert(crate::mem::is_table(sp, g) && crate::mem::table_level(sp, g)
                    == crate::mem::table_level(old(mem).frames@, g));
                assert(g != f);
                assert(sa[g as int] == sp[g as int]);
            }
        }
        let fa = f * 4096;
        proof {
            let ghost ma = *mem;
            assert(crate::table::spec_tables_missing(sa, pt.root, page) <= 3);
        }
        match pt.map(mem, PageSize::Size4K, page, fa, USER_DATA_FLAGS) {
            Result::Ok(_) => {
                proof {
                    assert forall|g: u64|
                        #[trigger] crate::mem::is_table(old(mem).frames@, g) implies
                    crate::mem::is_table(mem.frames@, g) && crate::mem::table_level(
                        mem.frames@,
                        g,
                    ) == crate::mem::table_level(old(mem).frames@, g) by {
                        assert(crate::mem::is_table(sa, g) && crate::mem::table_level(sa, g)
                            == crate::mem::table_level(old(mem).frames@, g));
                        assert(crate::mem::is_table(mem.frames@, g) && crate::mem::table_level(
                            mem.frames@,
                            g,
                        ) == crate::mem::table_level(sa, g));
                    }
                }
            },
            Result::Err(e) => {
                proof {
                    assert(crate::mem::spec_avail(*old(mem)) < 4 * pages);
                    assert forall|r2: u64, v2: u64|
                        is_root(old(mem).frames@, r2) && vaddr_ok(v2) && v2
                            < 0x1_0000_0000_0000 && !(r2 == pt.root && start <= v2 < start
                            + pages * 4096) implies #[trigger] walk(mem.frames@, r2, v2) == walk(
                        old(mem).frames@,
                        r2,
                        v2,
                    ) by {
                        assert(walk(sa, r2, v2) == walk(sp, r2, v2));
                        assert(walk(sp, r2, v2) == walk(old(mem).frames@, r2, v2));
                        assert(is_root(sa, r2)) by {
                            assert(crate::mem::is_table(sp, r2) && crate::mem::table_level(
                                sp,
                                r2,
                            ) == 4);
                            assert(sa[r2 as int] == sp[r2 as int]);
                        }
                        assert(walk(mem.frames@, r2, v2) == walk(sa, r2, v2));
                    }
                    let s1 = mem.frames@;
                    assert(all_small(s1, pt.root)) by {
                        assert forall|v: u64| vaddr_ok(v) implies match #[trigger] walk(
                            s1,
                            pt.root,
                            v,
                        ) {
                            Option::Some((a, fl)) => has_flag(fl, FLAG_SMALL_PAGE),
                            Option::None => true,
                        } by {
                            assert(walk(s1, pt.root, v) == walk(sa, pt.root, v));
                            assert(walk(sa, pt.root, v) == walk(sp, pt.root, v));
                        }
                    }
                }
                return Result::Err(e);
            },
        }
        proof {
            let s1 = mem.frames@;
            assert forall|v: u64|
                start <= v < start + (k + 1) * 4096 implies (#[trigger] walk(s1, pt.root, v)
                is Some && walk(s1, pt.root, v)->Some_0.1 == USER_DATA_FLAGS
                | FLAG_PRESENT) by {
                lemma_low_vaddr_ok(v);
                if crate::table::same_page_4k(v, page) {
                    assert(walk(s1, pt.root, v) == Option::Some(
                        (fa, USER_DATA_FLAGS | FLAG_PRESENT),
                    ));
                } else {
                    assert(walk(sa, pt.root, v) == walk(sp, pt.root, v));
                    if start <= v < start + k * 4096 {
                        assert(walk(sp, pt.root, v) is Some && walk(sp, pt.root, v)->Some_0.1
                            == USER_DATA_FLAGS | FLAG_PRESENT);
                        assert(walk(s1, pt.root, v) == walk(sa, pt.root, v));
                    } else {
                        // v lies in the page being mapped
                        assert(page % 4096 == 0);
                        assert((page % 4096 == 0 && page <= v < page + 4096) ==> (v >> 12) == (
                        page >> 12)) by (bit_vector);
                        assert(crate::table::vpn(v) == crate::table::vpn(page));
                        assert(false);
                    }
                }
            }
            assert forall|r2: u64, v2: u64|
                is_root(old(mem).frames@, r2) && vaddr_ok(v2) && v2 < 0x1_0000_0000_0000 && !(r2
                    == pt.root && start <= v2 < start + (k + 1) * 4096) implies #[trigger] walk(
                s1,
                r2,
                v2,
            ) == walk(old(mem).frames@, r2, v2) by {
                assert(walk(sa, r2, v2) == walk(sp, r2, v2));
                assert(walk(sp, r2, v2) == walk(old(mem).frames@, r2, v2));
                assert(is_root(sa, r2)) by {
                    assert(crate::mem::is_table(sp, r2) && crate::mem::table_level(sp, r2)
                        == 4);
                    assert(sa[r2 as int] == sp[r2 as int]);
                }
                assert(!(r2 == pt.root && crate::table::same_page_4k(v2, page))) by {
                    if r2 == pt.root && crate::table::same_page_4k(v2, page) {
                        lemma_same_page_bounds(v2, page);
                        assert(start <= v2 < start + (k + 1) * 4096);
                    }
                }
                assert(walk(s1, r2, v2) == walk(sa, r2, v2));
            }
            assert(all_small(s1, pt.root)) by {
                assert forall|v: u64| vaddr_ok(v) implies match #[trigger] walk(s1, pt.root, v) {
                    Option::Some((a, fl)) => has_flag(fl, FLAG_SMALL_PAGE),
                    Option::None => true,
                } by {
                    if crate::table::same_page_4k(v, page) {
                        assert(walk(s1, pt.root, v) == Option::Some(
                            (fa, USER_DATA_FLAGS | FLAG_PRESENT),
                        ));
                        assert((0x742u64 | 0x1u64) & 0x2u64 == 0x2u64) by (bit_vector);
                    } else {
                        assert(walk(s1, pt.root, v) == walk(sa, pt.root, v));
                        assert(walk(sa, pt.root, v) == walk(sp, pt.root, v));
                    }
                }
            }
            // pages that existed keep their bytes, and the range's frames
            // are fresh zero pages, one per page of the range
            assert(pages_kept(sp, s1)) by {
                assert forall|g: u64| crate::mem::is_page(sp, g) implies crate::mem::is_page(
                    s1,
                    g,
                ) && crate::mem::page_bytes(s1, g) == crate::mem::page_bytes(sp, g) by {
                    assert(g != f);
                    assert(sa[g as int] == sp[g as int]);
                    assert(crate::mem::is_page(sa, g));
                }
            }
            assert(fa / 4096 == f);
            assert(crate::mem::is_page(s1, f) && crate::mem::page_bytes(s1, f) == Seq::new(
                4096nat,
                |i: int| 0u8,
            )) by {
                assert(crate::mem::is_page(sa, f) && crate::mem::page_bytes(sa, f) == Seq::new(
                    4096nat,
                    |i: int| 0u8,
                ));
            }
            assert forall|v: u64| start <= v < start + (k + 1) * 4096 && !crate::table::same_page_4k(
                v,
                page,
            ) implies start <= v < start + k * 4096 && walk(s1, pt.root, v) == walk(
                sp,
                pt.root,
                v,
            ) by {
                lemma_low_vaddr_ok(v);
                if !(start <= v < start + k * 4096) {
                    lemma_in_page_vpn(v, page);
                    assert(false);
                }
                assert(walk(sa, pt.root, v) == walk(sp, pt.root, v));
                assert(walk(s1, pt.root, v) == walk(sa, pt.root, v));
            }
            assert forall|v: u64| start <= v < start + (k + 1) * 4096 implies {
                let fr = (((#[trigger] walk(s1, pt.root, v))->Some_0.0) / 4096) as u64;
                &&& crate::mem::is_page(s1, fr)
                &&& crate::mem::page_bytes(s1, fr) == Seq::new(4096nat, |i: int| 0u8)
                &&& !crate::mem::is_page(old(mem).frames@, fr)
            } by {
                if crate::table::same_page_4k(v, page) {
                    assert(walk(s1, pt.root, v) == Option::Some(
                        (fa, USER_DATA_FLAGS | FLAG_PRESENT),
                    ));
                    assert(!crate::mem::is_page(sp, f));
                    assert(!crate::mem::is_page(old(mem).frames@, f));
                } else {
                    let fr = ((walk(sp, pt.root, v)->Some_0.0) / 4096) as u64;
                    assert(crate::mem::is_page(sp, fr) && crate::mem::page_bytes(sp, fr)
                        == Seq::new(4096nat, |i: int| 0u8) && !crate::mem::is_page(
                        old(mem).frames@,
                        fr,
                    ));
                    assert(crate::mem::is_page(s1, fr) && crate::mem::page_bytes(s1, fr)
                        == crate::mem::page_bytes(sp, fr));
                }
            }
            assert forall|v: u64, w: u64|
                start <= v < start + (k + 1) * 4096 && start <= w < start + (k + 1) * 4096
                    && crate::table::vpn(v) != crate::table::vpn(w) implies (#[trigger] walk(
                s1,
                pt.root,
                v,
            ))->Some_0.0 != (#[trigger] walk(s1, pt.root, w))->Some_0.0 by {
                let av = walk(s1, pt.root, v)->Some_0.0;
                let aw = walk(s1, pt.root, w)->Some_0.0;
                if crate::table::same_page_4k(v, page) && crate::table::same_page_4k(w, page) {
                    assert(false);
                } else if crate::table::same_page_4k(v, page) {
                    assert(av == fa);
                    assert(crate::mem::is_page(sp, ((aw / 4096) as u64)));
                    assert(!crate::mem::is_page(sp, f));
                    if av == aw {
                        assert((aw / 4096) as u64 == f);
                        assert(false);
                    }
                } else if crate::table::same_page_4k(w, page) {
                    assert(aw == fa);
                    assert(crate::mem::is_page(sp, ((av / 4096) as u64)));
                    assert(!crate::mem::is_page(sp, f));
                    if av == aw {
                        assert((av / 4096) as u64 == f);
                        assert(false);
                    }
                } else {
                    assert(walk(s1, pt.root, v) == walk(sp, pt.root, v));
                    assert(walk(s1, pt.root, w) == walk(sp, pt.root, w));
                }
            }
        }
        k = k + 1;
    }
    Result::Ok(())
}

/// A walk's physical result is a masked address field: page-aligned and
/// within the addressable range.
proof fn lemma_walk_result_aligned(s: Seq<crate::mem::FrameSlot>, root: u64, v: u64)
    requires
        walk(s, root, v) is Some,
    ensures
        walk(s, root, v)->Some_0.0 % 4096 == 0,
        walk(s, root, v)->Some_0.0 <= 0x0000_ffff_ffff_f000u64,
{
    assert forall|e: u64|
        (#[trigger] crate::entry::e_addr(e)) % 4096 == 0 && crate::entry::e_addr(e)
            <= 0x0000_ffff_ffff_f000u64 by {
        assert((e & 0x0000_ffff_ffff_f000u64) % 4096 == 0 && (e & 0x0000_ffff_ffff_f000u64)
            <= 0x0000_ffff_ffff_f000u64) by (bit_vector);
    }
}

/// Copy one byte of the image into the page that backs `v`, through the
/// translation. Bytes whose target is not a pool page are skipped; the
/// mappings `exec` just created always are.
fn poke_user_byte(pt: &PageTable, mem: &mut PhysicalMemory, v: u64, b: u8)
    requires
        mem_inv(*old(mem)),
        is_root(old(mem).frames@, pt.root),
    ensures
        mem_inv(*final(mem)),
        final(mem).capacity == old(mem).capacity,
        crate::mem::spec_avail(*final(mem)) == crate::mem::spec_avail(*old(mem)),
        is_root(final(mem).frames@, pt.root),
        forall|g: u64, i: int|
            #[trigger] crate::mem::ent(final(mem).frames@, g, i) == crate::mem::ent(
                old(mem).frames@,
                g,
                i,
            ),
        forall|g: u64|
            #[trigger] crate::mem::is_table(final(mem).frames@, g) <==> crate::mem::is_table(
                old(mem).frames@,
                g,
            ),
        forall|g: u64|
            crate::mem::is_table(old(mem).frames@, g) ==> #[trigger] crate::mem::table_level(
                final(mem).frames@,
                g,
            ) == crate::mem::table_level(old(mem).frames@, g),
        forall|g: u64|
            #[trigger] crate::mem::is_page(final(mem).frames@, g) <==> crate::mem::is_page(
                old(mem).frames@,
                g,
            ),
        match walk(old(mem).frames@, pt.root, v) {
            Option::Some((a, fl)) => {
                let fr = ((a / 4096) as u64);
                &&& (crate::mem::is_page(old(mem).frames@, fr)
                    ==> crate::mem::page_bytes(final(mem).frames@, fr) == crate::mem::page_bytes(
                    old(mem).frames@,
                    fr,
                ).update((v % 4096) as int, b))
                &&& forall|g: u64|
                    g != fr && crate::mem::is_page(old(mem).frames@, g)
                        ==> #[trigger] crate::mem::page_bytes(final(mem).frames@, g)
                        == crate::mem::page_bytes(old(mem).frames@, g)
            },
            Option::None => forall|g: u64|
                crate::mem::is_page(old(mem).frames@, g) ==> #[trigger] crate::mem::page_bytes(
                    final(mem).frames@,
                    g,
                ) == crate::mem::page_bytes(old(mem).frames@, g),
        },
    {
        match pt.translate(mem, v) {
            Option::Some((pa, _fl)) => {
                let f = pa / 4096;
                proof {
                    let a = walk(old(mem).frames@, pt.root, v)->Some_0.0;
                    assert(a % 4096 == 0) by {
                        lemma_walk_result_aligned(old(mem).frames@, pt.root, v);
                    }
                    assert(pa == (a + (v & 0xfff)) as u64);
                    assert(a % 4096 == 0 && a <= 0x0000_ffff_ffff_f000u64 ==> ((a + (v
                        & 0xfff)) as u64) / 4096 == a / 4096 && ((a + (v & 0xfff)) as u64) % 4096
                        == v % 4096) by (bit_vector);
                    assert(a <= 0x0000_ffff_ffff_f000u64) by {
                        lemma_walk_result_aligned(old(mem).frames@, pt.root, v);
                    }
                    assert(f == (a / 4096) as u64 && pa % 4096 == v % 4096);
                }
                if mem.is_data_page(f) {
                    let off = (pa % 4096) as usize;
                    proof {
                        assert(crate::mem::frame_page_ok(old(mem).frames@, f));
                    }
                    mem.write_byte(f, off, b);
                    proof {
                        assert(crate::mem::is_page(mem.frames@, f));
                        assert(crate::mem::frame_page_ok(mem.frames@, f));
                        crate::mem::lemma_nontable_update(old(mem).frames@, mem.frames@, f);
                        assert forall|g: u64|
                            g != f && crate::mem::is_page(old(mem).frames@, g)
                                implies #[trigger] crate::mem::page_bytes(mem.frames@, g)
                            == crate::mem::page_bytes(old(mem).frames@, g) by {
                            assert(mem.frames@[g as int] == old(mem).frames@[g as int]);
                        }
                        assert forall|g: u64|
                            #[trigger] crate::mem::is_page(mem.frames@, g)
                                <==> crate::mem::is_page(old(mem).frames@, g) by {
                            if g != f {
                                assert(mem.frames@[g as int] == old(mem).frames@[g as int] || g
                                    >= old(mem).frames@.len());
                            }
                        }
                    }
                } else {
                }
            },
            Option::None => {},
        }
    }

/// Load a user binary: parse it, map every loadable segment and copy its
/// file bytes in (the rest of each segment reads zero), map the user
/// stack below `USER_STACK_END`, and return the image's entry point, to
/// which the exec path then lowers itself in user mode.
pub fn exec_user(pt: &PageTable, mem: &mut PhysicalMemory, elf_data: &Vec<u8>) -> (r: Result<
    u64,
    KernelError,
>)
    requires
        mem_inv(*old(mem)),
        is_root(old(mem).frames@, pt.root),
        all_small(old(mem).frames@, pt.root),
    ensures
        mem_inv(*final(mem)),
        final(mem).capacity == old(mem).capacity,
        is_root(final(mem).frames@, pt.root),
        elf_view(elf_data@) is None ==> r == Result::<u64, KernelError>::Err(
            KernelError::Unsupported,
        ),
        // success is owed: a parsable image whose loadable headers pass the
        // loader's bounds loads whenever the pool holds enough frames for
        // the segments and the sixteen-page user stack
        (elf_view(elf_data@) is Some && segs_ok(elf_view(elf_data@)->Some_0.1)
            && crate::mem::spec_avail(*old(mem)) >= spec_load_cost(elf_view(elf_data@)->Some_0.1)
            + 64) ==> r is Ok,
        match r {
            Result::Ok(e) => {
                &&& elf_view(elf_data@) is Some
                &&& e == elf_view(elf_data@)->Some_0.0
                // every loadable segment's pages are in place
                &&& forall|ks: int|
                    0 <= ks < elf_view(elf_data@)->Some_0.1.len() && (#[trigger] elf_view(
                        elf_data@,
                    )->Some_0.1[ks]).0 == PT_LOAD ==> seg_mapped(
                        final(mem).frames@,
                        pt.root,
                        elf_view(elf_data@)->Some_0.1[ks],
                    )
                // where no two loadable segments share a page, each
                // reads back as the file's bytes followed by zeros
                &&& segs_separate(elf_view(elf_data@)->Some_0.1) ==> forall|ks: int|
                    0 <= ks < elf_view(elf_data@)->Some_0.1.len() && (#[trigger] elf_view(
                        elf_data@,
                    )->Some_0.1[ks]).0 == PT_LOAD ==> seg_loaded(
                        final(mem).frames@,
                        pt.root,
                        elf_data@,
                        elf_view(elf_data@)->Some_0.1[ks],
                    )
                // so is the user stack, writable user memory throughout
                &&& forall|v: u64|
                    USER_STACK_END - USER_STACK_PAGES * 4096 <= v < USER_STACK_END
                        ==> (#[trigger] walk(final(mem).frames@, pt.root, v) is Some && walk(
                        final(mem).frames@,
                        pt.root,
                        v,
                    )->Some_0.1 == USER_DATA_FLAGS | FLAG_PRESENT)
            },
            Result::Err(e) => e == KernelError::Unsupported || e == KernelError::InvalidAddress
                || e == KernelError::OutOfMemory,
        },
{
    let parsed = match parse_elf(elf_data) {
        Option::Some(p) => p,
        Option::None => {
            return Result::Err(KernelError::Unsupported);
        },
    };
    let (entry, segs) = parsed;
    let ghost view_segs = elf_view(elf_data@)->Some_0.1;
    let ghost promised = segs_ok(view_segs) && crate::mem::spec_avail(*old(mem))
        >= spec_load_cost(view_segs) + 64;
    let ghost sep = segs_separate(view_segs);
    let mut si: usize = 0;
    while si < segs.len()
        invariant
            mem_inv(*mem),
            mem.capacity == old(mem).capacity,
            is_root(mem.frames@, pt.root),
            all_small(mem.frames@, pt.root),
            elf_view(elf_data@) is Some,
            segs@ == elf_view(elf_data@)->Some_0.1,
            view_segs == segs@,
            promised == (segs_ok(view_segs) && crate::mem::spec_avail(*old(mem))
                >= spec_load_cost(view_segs) + 64),
            si <= segs@.len(),
            promised ==> crate::mem::spec_avail(*mem) >= spec_load_cost_from(view_segs, si as int)
                + 64,
            sep == segs_separate(view_segs),
            forall|ks: int|
                0 <= ks < si && (#[trigger] segs@[ks]).0 == PT_LOAD ==> segs@[ks].2 + segs@[ks].4
                    + 4096 < USER_STACK_END - USER_STACK_PAGES * 4096,
            forall|ks: int|
                0 <= ks < si && (#[trigger] segs@[ks]).0 == PT_LOAD ==> seg_mapped(
                    mem.frames@,
                    pt.root,
                    segs@[ks],
                ),
            sep ==> forall|ks: int|
                0 <= ks < si && (#[trigger] segs@[ks]).0 == PT_LOAD ==> seg_loaded(
                    mem.frames@,
                    pt.root,
                    elf_data@,
                    segs@[ks],
                ),
        decreases segs@.len() - si,
    {
        let (p_type, p_offset, p_vaddr, p_filesz, p_memsz) = segs[si];
        if p_type == PT_LOAD {
            if !(p_vaddr % 4096 == 0 && p_memsz > 0 && p_memsz <= USER_STACK_END
                - USER_STACK_PAGES * 4096 - 4096 && p_vaddr < USER_STACK_END - USER_STACK_PAGES
                * 4096 - p_memsz - 4096 && p_vaddr <= USER_STACK_END) {
                proof {
                    assert(!seg_ok(view_segs[si as int]));
                    assert(!segs_ok(view_segs));
                }
                return Result::Err(KernelError::InvalidAddress);
            }
            let pages = (p_memsz + 4095) / 4096;
            proof {
                assert(pages * 4096 <= p_memsz + 4096);
                assert(p_vaddr + pages * 4096 < 0x8000_0000_0000);
                assert(spec_load_cost_from(view_segs, si as int) == 4 * pages
                    + spec_load_cost_from(view_segs, si as int + 1));
                assert(spec_load_cost_from(view_segs, si as int + 1) >= 0) by {
                    lemma_load_cost_nonneg(view_segs, si as int + 1);
                }
            }
            let ghost m_before_map = *mem;
            match map_user_range(pt, mem, p_vaddr, pages) {
                Result::Ok(_) => {},
                Result::Err(e) => {
                    proof {
                        if promised {
                            assert(crate::mem::spec_avail(m_before_map) >= 4 * pages);
                            assert(false);
                        }
                    }
                    return Result::Err(e);
                },
            }
            proof {
                let s1 = mem.frames@;
                assert(p_memsz <= pages * 4096);
                assert forall|ks: int|
                    0 <= ks < si + 1 && (#[trigger] segs@[ks]).0 == PT_LOAD implies seg_mapped(
                    s1,
                    pt.root,
                    segs@[ks],
                ) by {
                    assert forall|v: u64|
                        segs@[ks].2 <= v < segs@[ks].2 + segs@[ks].4 implies (#[trigger] walk(
                        s1,
                        pt.root,
                        v,
                    ) is Some && walk(s1, pt.root, v)->Some_0.1 == USER_DATA_FLAGS
                        | FLAG_PRESENT) by {
                        if ks < si {
                            assert(segs@[ks].2 + segs@[ks].4 < 0x8000_0000_0000);
                            assert(seg_mapped(m_before_map.frames@, pt.root, segs@[ks]));
                            lemma_low_vaddr_ok(v);
                            if !(p_vaddr <= v < p_vaddr + pages * 4096) {
                                assert(walk(s1, pt.root, v) == walk(
                                    m_before_map.frames@,
                                    pt.root,
                                    v,
                                ));
                                assert(walk(m_before_map.frames@, pt.root, v) is Some && walk(
                                    m_before_map.frames@,
                                    pt.root,
                                    v,
                                )->Some_0.1 == USER_DATA_FLAGS | FLAG_PRESENT);
                            }
                        } else {
                            assert(segs@[ks] == (p_type, p_offset, p_vaddr, p_filesz, p_memsz));
                            assert(p_vaddr <= v < p_vaddr + pages * 4096);
                        }
                    }
                }
                // already-loaded segments sit on other pages and keep
                // their frames and bytes through this mapping
                if sep {
                    assert forall|ks: int|
                        0 <= ks < si && (#[trigger] segs@[ks]).0 == PT_LOAD implies seg_loaded(
                        s1,
                        pt.root,
                        elf_data@,
                        segs@[ks],
                    ) by {
                        let sg = segs@[ks];
                        assert(sg.4 <= ((sg.4 + 4095) / 4096) * 4096);
                        assert(segs@[si as int] == (p_type, p_offset, p_vaddr, p_filesz, p_memsz));
                        assert(sg.2 + ((sg.4 + 4095) / 4096) * 4096 <= p_vaddr || p_vaddr + pages
                            * 4096 <= sg.2);
                        assert forall|o: u64| o < sg.4 implies {
                            &&& crate::mem::is_page(
                                s1,
                                (((#[trigger] walk(s1, pt.root, (sg.2 + o) as u64))->Some_0.0)
                                    / 4096) as u64,
                            )
                            &&& user_byte(s1, pt.root, (sg.2 + o) as u64) == seg_byte(
                                elf_data@,
                                sg,
                                o,
                            )
                        } by {
                            let v = (sg.2 + o) as u64;
                            lemma_low_vaddr_ok(v);
                            assert(!(p_vaddr <= v < p_vaddr + pages * 4096));
                            assert(walk(s1, pt.root, v) == walk(m_before_map.frames@, pt.root, v));
                            let fr = ((walk(m_before_map.frames@, pt.root, v)->Some_0.0)
                                / 4096) as u64;
                            assert(crate::mem::is_page(m_before_map.frames@, fr) && user_byte(
                                m_before_map.frames@,
                                pt.root,
                                v,
                            ) == seg_byte(elf_data@, sg, o));
                            assert(crate::mem::is_page(s1, fr) && crate::mem::page_bytes(s1, fr)
                                == crate::mem::page_bytes(m_before_map.frames@, fr));
                        }
                    }
                }
                // the fresh range reads zero everywhere
                assert forall|o: u64| o < p_memsz implies {
                    &&& walk(s1, pt.root, (p_vaddr + o) as u64) is Some
                    &&& crate::mem::is_page(
                        s1,
                        (((#[trigger] walk(s1, pt.root, (p_vaddr + o) as u64))->Some_0.0)
                            / 4096) as u64,
                    )
                    &&& !crate::mem::is_page(
                        m_before_map.frames@,
                        ((walk(s1, pt.root, (p_vaddr + o) as u64)->Some_0.0) / 4096) as u64,
                    )
                    &&& user_byte(s1, pt.root, (p_vaddr + o) as u64) == 0u8
                } by {
                    let v = (p_vaddr + o) as u64;
                    assert(p_vaddr <= v < p_vaddr + pages * 4096);
                }
            }
            let ghost s_map = mem.frames@;
            // copy the file bytes; the remainder of the segment stays zero
            let mut i: u64 = 0;
            while i < p_filesz && i < p_memsz
                invariant
                    mem_inv(*mem),
                    mem.capacity == old(mem).capacity,
                    is_root(mem.frames@, pt.root),
                    all_small(mem.frames@, pt.root),
                    p_vaddr < USER_STACK_END,
                    p_memsz < 0x8000_0000_0000,
                    elf_view(elf_data@) is Some,
                    segs@ == elf_view(elf_data@)->Some_0.1,
                    view_segs == segs@,
                    promised == (segs_ok(view_segs) && crate::mem::spec_avail(*old(mem))
                        >= spec_load_cost(view_segs) + 64),
                    si < segs@.len(),
                    promised ==> crate::mem::spec_avail(*mem) >= spec_load_cost_from(
                        view_segs,
                        si as int + 1,
                    ) + 64,
                    forall|ks: int|
                        0 <= ks < si && (#[trigger] segs@[ks]).0 == PT_LOAD ==> segs@[ks].2
                            + segs@[ks].4 < 0x8000_0000_0000,
                    forall|ks: int|
                        0 <= ks < si + 1 && (#[trigger] segs@[ks]).0 == PT_LOAD ==> seg_mapped(
                            mem.frames@,
                            pt.root,
                            segs@[ks],
                        ),
                    segs@[si as int] == (p_type, p_offset, p_vaddr, p_filesz, p_memsz),
                    p_type == PT_LOAD,
                    p_memsz <= pages * 4096,
                    p_vaddr % 4096 == 0,
                    p_vaddr + pages * 4096 < 0x8000_0000_0000,
                    is_root(s_map, pt.root),
                    forall|g: u64, j: int|
                        #[trigger] crate::mem::ent(mem.frames@, g, j) == crate::mem::ent(
                            s_map,
                            g,
                            j,
                        ),
                    forall|g: u64|
                        #[trigger] crate::mem::is_page(mem.frames@, g) <==> crate::mem::is_page(
                            s_map,
                            g,
                        ),
                    pages_kept(m_before_map.frames@, mem.frames@),
                    range_fresh_zero(m_before_map.frames@, s_map, pt.root, p_vaddr, pages),
                    forall|o: u64|
                        o < p_memsz ==> #[trigger] user_byte(
                            mem.frames@,
                            pt.root,
                            (p_vaddr + o) as u64,
                        ) == (if o < i && o < p_filesz && p_offset + o < elf_data@.len() {
                            elf_data@[(p_offset + o) as int]
                        } else {
                            0u8
                        }),
                decreases p_filesz - i,
            {
                if p_offset < elf_data.len() as u64 && i < elf_data.len() as u64 - p_offset {
                    let src = p_offset + i;
                    let ghost sp = mem.frames@;
                    let b = elf_data[src as usize];
                    poke_user_byte(pt, mem, p_vaddr + i, b);
                    proof {
                        assert(all_small(mem.frames@, pt.root)) by {
                            assert forall|v: u64| vaddr_ok(v) implies match #[trigger] walk(
                                mem.frames@,
                                pt.root,
                                v,
                            ) {
                                Option::Some((a, fl)) => has_flag(fl, FLAG_SMALL_PAGE),
                                Option::None => true,
                            } by {
                                assert(walk(mem.frames@, pt.root, v) == walk(sp, pt.root, v));
                            }
                        }
                        assert forall|ks: int|
                            0 <= ks < si + 1 && (#[trigger] segs@[ks]).0
                                == PT_LOAD implies seg_mapped(mem.frames@, pt.root, segs@[ks]) by {
                            assert(seg_mapped(sp, pt.root, segs@[ks]));
                            assert forall|v: u64|
                                segs@[ks].2 <= v < segs@[ks].2 + segs@[ks].4 implies (
                            #[trigger] walk(mem.frames@, pt.root, v) is Some && walk(
                                mem.frames@,
                                pt.root,
                                v,
                            )->Some_0.1 == USER_DATA_FLAGS | FLAG_PRESENT) by {
                                assert(walk(mem.frames@, pt.root, v) == walk(sp, pt.root, v));
                                assert(walk(sp, pt.root, v) is Some && walk(
                                    sp,
                                    pt.root,
                                    v,
                                )->Some_0.1 == USER_DATA_FLAGS | FLAG_PRESENT);
                            }
                        }
                        // the one byte landed where it should; every other
                        // byte of every data page stands as it was
                        let s2 = mem.frames@;
                        let vcur = (p_vaddr + i) as u64;
                        assert(seg_mapped(sp, pt.root, segs@[si as int]));
                        assert(walk(sp, pt.root, vcur) is Some);
                        assert(walk(sp, pt.root, vcur) == walk(s_map, pt.root, vcur));
                        assert(p_vaddr <= vcur < p_vaddr + pages * 4096);
                        let ai = walk(s_map, pt.root, vcur)->Some_0.0;
                        let fri = ((ai / 4096) as u64);
                        assert(crate::mem::is_page(s_map, fri) && !crate::mem::is_page(
                            m_before_map.frames@,
                            fri,
                        ));
                        assert(crate::mem::is_page(sp, fri));
                        assert(crate::mem::page_bytes(sp, fri).len() == 4096) by {
                            assert(crate::mem::frame_page_ok(sp, fri));
                        }
                        assert(crate::mem::page_bytes(s2, fri) == crate::mem::page_bytes(
                            sp,
                            fri,
                        ).update((vcur % 4096) as int, b));
                        assert forall|g: u64|
                            crate::mem::is_page(m_before_map.frames@, g) implies crate::mem::is_page(
                            s2,
                            g,
                        ) && crate::mem::page_bytes(s2, g) == crate::mem::page_bytes(
                            m_before_map.frames@,
                            g,
                        ) by {
                            assert(crate::mem::is_page(sp, g) && crate::mem::page_bytes(sp, g)
                                == crate::mem::page_bytes(m_before_map.frames@, g));
                            assert(g != fri);
                        }
                        assert forall|o: u64| o < p_memsz implies #[trigger] user_byte(
                            s2,
                            pt.root,
                            (p_vaddr + o) as u64,
                        ) == (if o < i + 1 && o < p_filesz && p_offset + o < elf_data@.len() {
                            elf_data@[(p_offset + o) as int]
                        } else {
                            0u8
                        }) by {
                            let vo = (p_vaddr + o) as u64;
                            assert(walk(sp, pt.root, vo) is Some);
                            assert(walk(s2, pt.root, vo) == walk(sp, pt.root, vo));
                            assert(walk(sp, pt.root, vo) == walk(s_map, pt.root, vo));
                            assert(p_vaddr <= vo < p_vaddr + pages * 4096);
                            let ao = walk(s_map, pt.root, vo)->Some_0.0;
                            let fro = ((ao / 4096) as u64);
                            assert(crate::mem::is_page(s_map, fro));
                            assert(crate::mem::is_page(sp, fro));
                            assert(crate::mem::page_bytes(sp, fro).len() == 4096) by {
                                assert(crate::mem::frame_page_ok(sp, fro));
                            }
                            if o == i {
                                assert(vo == vcur && fro == fri);
                                assert(user_byte(s2, pt.root, vo) == b);
                                assert(b == elf_data@[(p_offset + i) as int]);
                            } else {
                                assert(vo != vcur);
                                if ao == ai {
                                    assert(crate::table::vpn(vo) == crate::table::vpn(vcur)) by {
                                        if crate::table::vpn(vo) != crate::table::vpn(vcur) {
                                            assert(ao != ai);
                                        }
                                    }
                                    assert(vo % 4096 != vcur % 4096) by {
                                        if vo % 4096 == vcur % 4096 {
                                            lemma_same_vpn_same_off(vo, vcur);
                                        }
                                    }
                                    assert(crate::mem::page_bytes(s2, fro)[(vo % 4096) as int]
                                        == crate::mem::page_bytes(sp, fro)[(vo % 4096) as int]);
                                } else {
                                    assert(ao % 4096 == 0 && ai % 4096 == 0) by {
                                        lemma_walk_result_aligned(s_map, pt.root, vo);
                                        lemma_walk_result_aligned(s_map, pt.root, vcur);
                                    }
                                    assert(fro != fri);
                                    assert(crate::mem::page_bytes(s2, fro)
                                        == crate::mem::page_bytes(sp, fro));
                                }
                                assert(user_byte(s2, pt.root, vo) == user_byte(sp, pt.root, vo));
                            }
                        }
                    }
                }
                i = i + 1;
            }
            proof {
                let s_end = mem.frames@;
                assert(segs@[si as int] == (p_type, p_offset, p_vaddr, p_filesz, p_memsz));
                // this segment now reads back as loaded
                assert forall|o: u64| o < p_memsz implies {
                    &&& crate::mem::is_page(
                        s_end,
                        (((#[trigger] walk(s_end, pt.root, (p_vaddr + o) as u64))->Some_0.0)
                            / 4096) as u64,
                    )
                    &&& user_byte(s_end, pt.root, (p_vaddr + o) as u64) == seg_byte(
                        elf_data@,
                        segs@[si as int],
                        o,
                    )
                } by {
                    let vo = (p_vaddr + o) as u64;
                    assert(walk(s_end, pt.root, vo) == walk(s_map, pt.root, vo));
                    assert(p_vaddr <= vo < p_vaddr + pages * 4096);
                    let fro = (((walk(s_map, pt.root, vo)->Some_0.0) / 4096) as u64);
                    assert(crate::mem::is_page(s_map, fro));
                    assert(crate::mem::is_page(s_end, fro));
                    if o < p_filesz && p_offset + o < elf_data@.len() {
                        assert(o < i);
                    }
                }
                assert(seg_loaded(s_end, pt.root, elf_data@, segs@[si as int]));
                // earlier segments kept their bytes through the pokes
                if sep {
                    assert forall|ks: int|
                        0 <= ks < si && (#[trigger] segs@[ks]).0 == PT_LOAD implies seg_loaded(
                        s_end,
                        pt.root,
                        elf_data@,
                        segs@[ks],
                    ) by {
                        let sg = segs@[ks];
                        assert(sg.4 <= ((sg.4 + 4095) / 4096) * 4096);
                        assert(sg.2 + ((sg.4 + 4095) / 4096) * 4096 <= p_vaddr || p_vaddr + pages
                            * 4096 <= sg.2);
                        assert(seg_loaded(m_before_map.frames@, pt.root, elf_data@, sg));
                        assert forall|o: u64| o < sg.4 implies {
                            &&& crate::mem::is_page(
                                s_end,
                                (((#[trigger] walk(s_end, pt.root, (sg.2 + o) as u64))->Some_0.0)
                                    / 4096) as u64,
                            )
                            &&& user_byte(s_end, pt.root, (sg.2 + o) as u64) == seg_byte(
                                elf_data@,
                                sg,
                                o,
                            )
                        } by {
                            let vo = (sg.2 + o) as u64;
                            lemma_low_vaddr_ok(vo);
                            assert(!(p_vaddr <= vo < p_vaddr + pages * 4096));
                            assert(walk(s_map, pt.root, vo) == walk(
                                m_before_map.frames@,
                                pt.root,
                                vo,
                            ));
                            assert(walk(s_end, pt.root, vo) == walk(s_map, pt.root, vo));
                            let fro = (((walk(m_before_map.frames@, pt.root, vo)->Some_0.0)
                                / 4096) as u64);
                            assert(crate::mem::is_page(m_before_map.frames@, fro) && user_byte(
                                m_before_map.frames@,
                                pt.root,
                                vo,
                            ) == seg_byte(elf_data@, sg, o));
                            assert(crate::mem::is_page(s_end, fro) && crate::mem::page_bytes(
                                s_end,
                                fro,
                            ) == crate::mem::page_bytes(m_before_map.frames@, fro));
                        }
                    }
                }
            }
        }
        si = si + 1;
    }
    // the user stack
    let stack_start = USER_STACK_END - USER_STACK_PAGES * 4096;
    let ghost m_before_stack = *mem;
    match map_user_range(pt, mem, stack_start, USER_STACK_PAGES) {
        Result::Ok(_) => {},
        Result::Err(e) => {
            proof {
                if promised {
                    assert(crate::mem::spec_avail(m_before_stack) >= 64);
                    assert(false);
                }
            }
            return Result::Err(e);
        },
    }
    proof {
        let s1 = mem.frames@;
        assert forall|ks: int|
            0 <= ks < view_segs.len() && (#[trigger] view_segs[ks]).0 == PT_LOAD implies seg_mapped(
            s1,
            pt.root,
            view_segs[ks],
        ) by {
            assert((#[trigger] segs@[ks]).0 == PT_LOAD);
            assert(seg_mapped(m_before_stack.frames@, pt.root, segs@[ks]));
            assert(segs@[ks].2 + segs@[ks].4 < 0x8000_0000_0000);
            assert forall|v: u64|
                view_segs[ks].2 <= v < view_segs[ks].2 + view_segs[ks].4 implies (#[trigger] walk(
                s1,
                pt.root,
                v,
            ) is Some && walk(s1, pt.root, v)->Some_0.1 == USER_DATA_FLAGS | FLAG_PRESENT) by {
                lemma_low_vaddr_ok(v);
                if !(stack_start <= v < stack_start + USER_STACK_PAGES * 4096) {
                    assert(walk(s1, pt.root, v) == walk(m_before_stack.frames@, pt.root, v));
                    assert(walk(m_before_stack.frames@, pt.root, v) is Some && walk(
                        m_before_stack.frames@,
                        pt.root,
                        v,
                    )->Some_0.1 == USER_DATA_FLAGS | FLAG_PRESENT);
                }
            }
        }
        if sep {
            assert forall|ks: int|
                0 <= ks < view_segs.len() && (#[trigger] view_segs[ks]).0
                    == PT_LOAD implies seg_loaded(s1, pt.root, elf_data@, view_segs[ks]) by {
                let sg = segs@[ks];
                assert((#[trigger] segs@[ks]).0 == PT_LOAD);
                assert(seg_loaded(m_before_stack.frames@, pt.root, elf_data@, sg));
                assert(sg.2 + sg.4 + 4096 < USER_STACK_END - USER_STACK_PAGES * 4096);
                assert forall|o: u64| o < sg.4 implies {
                    &&& crate::mem::is_page(
                        s1,
                        (((#[trigger] walk(s1, pt.root, (sg.2 + o) as u64))->Some_0.0)
                            / 4096) as u64,
                    )
                    &&& user_byte(s1, pt.root, (sg.2 + o) as u64) == seg_byte(elf_data@, sg, o)
                } by {
                    let vo = (sg.2 + o) as u64;
                    lemma_low_vaddr_ok(vo);
                    assert(!(stack_start <= vo < stack_start + USER_STACK_PAGES * 4096));
                    assert(walk(s1, pt.root, vo) == walk(m_before_stack.frames@, pt.root, vo));
                    let fro = (((walk(m_before_stack.frames@, pt.root, vo)->Some_0.0)
                        / 4096) as u64);
                    assert(crate::mem::is_page(m_before_stack.frames@, fro) && user_byte(
                        m_before_stack.frames@,
                        pt.root,
                        vo,
                    ) == seg_byte(elf_data@, sg, o));
                    assert(crate::mem::is_page(s1, fro) && crate::mem::page_bytes(s1, fro)
                        == crate::mem::page_bytes(m_before_stack.frames@, fro));
                }
            }
        }
    }
    Result::Ok(entry)
}

} // verus!
