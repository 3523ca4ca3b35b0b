//! Heuristic scans over the mapped regions: tables stored outside the main
//! image, and the runtime's heap copies of each resource's pointer/size pair.
use vstd::prelude::*;
use crate::memory::{AddressSpace, Region};
use crate::entry::MusicEntry;
use crate::table::{fixed_table_found, fixed_table_entries, resolve_fixed_table};

verus! {

/// Regions narrower than this hold no external table.
pub const EXTERNAL_MIN_SPAN: u64 = 0xFFFF;

/// Where, from a region's start, the marker, the count and the first slot of an
/// external table lie.
pub const MARKER_OFFSET: u32 = 0x30;
pub const COUNT_OFFSET: u32 = 0x40;
pub const FIRST_SLOT_OFFSET: u32 = 0x44;

/// The marker `FORM` that opens an external table.
pub open spec fn marker() -> Seq<u8> {
    seq![0x46u8, 0x4Fu8, 0x52u8, 0x4Du8]
}

/// `r` is wider than the threshold, carries the marker and holds a table that
/// can be resolved.
pub open spec fn holds_external_table(mem: AddressSpace, r: Region) -> bool {
    &&& r.bytes@.len() > EXTERNAL_MIN_SPAN
    &&& r.start + r.bytes@.len() <= 0x1_0000_0000
    &&& mem.readable(r.start + MARKER_OFFSET, 4)
    &&& mem.bytes_at(r.start + MARKER_OFFSET, 4) == marker()
    &&& fixed_table_found(mem, (r.start + COUNT_OFFSET) as u32, (r.start + FIRST_SLOT_OFFSET) as u32)
}

/// The starts of the regions among `regions` that hold an external table, in
/// order.
pub open spec fn external_table_starts(mem: AddressSpace, regions: Seq<Region>) -> Seq<u32>
    decreases regions.len(),
{
    if regions.len() == 0 {
        seq![]
    } else {
        let prev = external_table_starts(mem, regions.drop_last());
        if holds_external_table(mem, regions.last()) {
            prev.push(regions.last().start)
        } else {
            prev
        }
    }
}

/// The entries of the external table of the region that starts at `start`.
pub open spec fn external_table(mem: AddressSpace, start: u32) -> Seq<MusicEntry> {
    fixed_table_entries(mem, (start + COUNT_OFFSET) as u32, (start + FIRST_SLOT_OFFSET) as u32)
}

/// Resolves every external table, one group per region that holds one, in
/// region order. A region without the marker, or whose table cannot be
/// resolved, contributes nothing.
pub fn scan_external_tables(mem: &AddressSpace) -> (r: Vec<Vec<MusicEntry>>)
    requires
        mem.wf(),
    ensures
        r@.len() == external_table_starts(*mem, mem.regions@).len(),
        forall|t: int|
            0 <= t < r@.len() ==> (#[trigger] r@[t])@ == external_table(
                *mem,
                external_table_starts(*mem, mem.regions@)[t],
            ),
{
    let mut groups: Vec<Vec<MusicEntry>> = Vec::new();
    let mut k: usize = 0;
    while k < mem.regions.len()
        invariant
            mem.wf(),
            k <= mem.regions@.len(),
            groups@.len() == external_table_starts(*mem, mem.regions@.take(k as int)).len(),
            forall|t: int|
                0 <= t < groups@.len() ==> (#[trigger] groups@[t])@ == external_table(
                    *mem,
                    external_table_starts(*mem, mem.regions@.take(k as int))[t],
                ),
        decreases mem.regions@.len() - k,
    {
        let ghost before = external_table_starts(*mem, mem.regions@.take(k as int));
        assert(mem.regions@.take(k + 1).drop_last() =~= mem.regions@.take(k as int));
        assert(mem.regions@.take(k + 1).last() == mem.regions@[k as int]);
        let region = &mem.regions[k];
        assert(mem.regions@[k as int].start + mem.regions@[k as int].bytes@.len() <= 0x1_0000_0000);
        if region.bytes.len() as u64 > EXTERNAL_MIN_SPAN {
            let start = region.start;
            let found = match mem.read_bytes(start + MARKER_OFFSET, 4) {
                Some(m) => m[0] == 0x46 && m[1] == 0x4F && m[2] == 0x52 && m[3] == 0x4D,
                None => false,
            };
            if found {
                proof {
                    assert(mem.bytes_at(start + MARKER_OFFSET, 4) =~= marker());
                }
                match resolve_fixed_table(mem, start + COUNT_OFFSET, start + FIRST_SLOT_OFFSET) {
                    Some(entries) => {
                        groups.push(entries);
                    },
                    None => {},
                }
            } else {
                proof {
                    if mem.readable(start + MARKER_OFFSET, 4) {
                        let m = mem.bytes_at(start + MARKER_OFFSET, 4);
                        if m == marker() {
                            assert(m[0] == 0x46 && m[1] == 0x4F && m[2] == 0x52 && m[3] == 0x4D);
                        }
                    }
                }
            }
        }
        proof {
            let after = external_table_starts(*mem, mem.regions@.take(k + 1));
            assert forall|t: int| 0 <= t < groups@.len() implies (#[trigger] groups@[t])@ == external_table(*mem, after[t]) by {
                if t < before.len() {
                    assert(after[t] == before[t]);
                }
            }
        }
        k += 1;
    }
    assert(mem.regions@.take(mem.regions@.len() as int) =~= mem.regions@);
    groups
}

/// The heap segment that the secondary scan covers: regions over 1 MiB and
/// under 4 MiB that start below 0x1000_0000.
pub open spec fn in_heap_window(r: Region) -> bool {
    &&& r.bytes@.len() > 0x10_0000
    &&& r.bytes@.len() < 0x40_0000
    &&& r.start < 0x1000_0000
}

/// The 4-byte-aligned word addresses that fit whole inside `r`.
pub open spec fn region_words(r: Region) -> Seq<u32> {
    Seq::new(r.bytes@.len() / 4, |k: int| (r.start + 4 * k) as u32)
}

/// Every word address the secondary scan visits, region by region.
pub open spec fn scanned_words(regions: Seq<Region>) -> Seq<u32>
    decreases regions.len(),
{
    if regions.len() == 0 {
        seq![]
    } else {
        scanned_words(regions.drop_last()) + if in_heap_window(regions.last()) {
            region_words(regions.last())
        } else {
            seq![]
        }
    }
}

/// The word at `w` can be read and holds `target`.
pub open spec fn word_is(mem: AddressSpace, w: u32, target: u32) -> bool {
    mem.readable(w as int, 4) && mem.u32_at(w as int) == target
}

/// The word at `w` holds `target` and the word after it can be read too.
pub open spec fn pair_is(mem: AddressSpace, w: u32, target: u32) -> bool {
    word_is(mem, w, target) && w + 8 <= 0x1_0000_0000 && mem.readable(w + 4, 4)
}

/// The last word of `words` that holds `target`, if any.
pub open spec fn last_word_hit(mem: AddressSpace, words: Seq<u32>, target: u32) -> Option<u32>
    decreases words.len(),
{
    if words.len() == 0 {
        None
    } else if word_is(mem, words.last(), target) {
        Some(words.last())
    } else {
        last_word_hit(mem, words.drop_last(), target)
    }
}

/// The last word of `words` that starts a pair holding `target`, if any.
pub open spec fn last_pair_hit(mem: AddressSpace, words: Seq<u32>, target: u32) -> Option<u32>
    decreases words.len(),
{
    if words.len() == 0 {
        None
    } else if pair_is(mem, words.last(), target) {
        Some(words.last())
    } else {
        last_pair_hit(mem, words.drop_last(), target)
    }
}

/// The heap copies located for a resource at `resolved`: the last word equal
/// to `resolved`; the last word equal to `resolved + 4`, with the size word
/// right after it. Later matches win.
#[derive(Clone, Copy, PartialEq, Eq, Debug)]
pub struct SecondarySlots {
    pub slot: Option<u32>,
    pub slot_2: Option<u32>,
    pub size_slot: Option<u32>,
}

pub open spec fn slots_after(mem: AddressSpace, words: Seq<u32>, resolved: u32) -> SecondarySlots {
    let p = last_pair_hit(mem, words, resolved.wrapping_add(4));
    SecondarySlots {
        slot: last_word_hit(mem, words, resolved),
        slot_2: p,
        size_slot: match p {
            Some(w) => Some((w + 4) as u32),
            None => None,
        },
    }
}

/// One step of the scan: the word at `w` against one target.
fn visit_word(mem: &AddressSpace, w: u32, word: Option<u32>, next_readable: bool, target: u32, s: SecondarySlots, ghost_words: Ghost<Seq<u32>>) -> (r: SecondarySlots)
    requires
        word is Some <==> mem.readable(w as int, 4),
        word is Some ==> word->0 == mem.u32_at(w as int),
        next_readable <==> (w + 8 <= 0x1_0000_0000 && mem.readable(w + 4, 4)),
        s == slots_after(*mem, ghost_words@, target),
    ensures
        r == slots_after(*mem, ghost_words@.push(w), target),
{
    let ghost ws = ghost_words@.push(w);
    assert(ws.drop_last() =~= ghost_words@);
    let mut r = s;
    if word == Some(target) {
        r.slot = Some(w);
    }
    if word == Some(target.wrapping_add(4)) && next_readable {
        r.slot_2 = Some(w);
        r.size_slot = Some(w + 4);
    }
    r
}

/// Locates, for each address of `targets`, the heap copies of its pointer
/// and of its size across every region of the heap window.
pub fn locate_secondary_slots(mem: &AddressSpace, targets: &Vec<u32>) -> (r: Vec<SecondarySlots>)
    requires
        mem.wf(),
    ensures
        r@.len() == targets@.len(),
        forall|t: int|
            0 <= t < r@.len() ==> #[trigger] r@[t] == slots_after(*mem, scanned_words(mem.regions@), targets@[t]),
{
    let mut out: Vec<SecondarySlots> = Vec::new();
    let mut t: usize = 0;
    while t < targets.len()
        invariant
            out@.len() == t,
            t <= targets@.len(),
            forall|j: int| 0 <= j < t ==> #[trigger] out@[j] == slots_after(*mem, Seq::<u32>::empty(), targets@[j]),
        decreases targets@.len() - t,
    {
        out.push(SecondarySlots { slot: None, slot_2: None, size_slot: None });
        t += 1;
    }
    let mut k: usize = 0;
    while k < mem.regions.len()
        invariant
            mem.wf(),
            k <= mem.regions@.len(),
            out@.len() == targets@.len(),
            forall|j: int| 0 <= j < out@.len() ==> #[trigger] out@[j] == slots_after(*mem, scanned_words(mem.regions@.take(k as int)), targets@[j]),
        decreases mem.regions@.len() - k,
    {
        let ghost prefix = scanned_words(mem.regions@.take(k as int));
        assert(mem.regions@.take(k + 1).drop_last() =~= mem.regions@.take(k as int));
        let region = &mem.regions[k];
        assert(mem.regions@[k as int].start + mem.regions@[k as int].bytes@.len() <= 0x1_0000_0000);
        if region.bytes.len() > 0x10_0000 && region.bytes.len() < 0x40_0000 && region.start < 0x1000_0000 {
            let n = region.bytes.len() / 4;
            let mut i: usize = 0;
            while i < n
                invariant
                    mem.wf(),
                    region == mem.regions@[k as int],
                    in_heap_window(*region),
                    region.start + region.bytes@.len() <= 0x1_0000_0000,
                    n == region.bytes@.len() / 4,
                    i <= n,
                    out@.len() == targets@.len(),
                    forall|j: int| 0 <= j < out@.len() ==> #[trigger] out@[j] == slots_after(*mem, prefix + region_words(*region).take(i as int), targets@[j]),
                decreases n - i,
            {
                let ghost done = prefix + region_words(*region).take(i as int);
                let w = region.start + 4 * (i as u32);
                let word = mem.read_u32(w);
                let next_readable = (w as u64) + 8 <= 0x1_0000_0000 && mem.read_u32(w + 4).is_some();
                let mut t: usize = 0;
                while t < out.len()
                    invariant
                        out@.len() == targets@.len(),
                        t <= out@.len(),
                        word is Some <==> mem.readable(w as int, 4),
                        word is Some ==> word->0 == mem.u32_at(w as int),
                        next_readable <==> (w + 8 <= 0x1_0000_0000 && mem.readable(w + 4, 4)),
                        forall|j: int| 0 <= j < t ==> #[trigger] out@[j] == slots_after(*mem, done.push(w), targets@[j]),
                        forall|j: int| t <= j < out@.len() ==> #[trigger] out@[j] == slots_after(*mem, done, targets@[j]),
                    decreases out@.len() - t,
                {
                    let s = visit_word(mem, w, word, next_readable, targets[t], out[t], Ghost(done));
                    out.set(t, s);
                    t += 1;
                }
                assert(done.push(w) =~= prefix + region_words(*region).take(i + 1));
                i += 1;
            }
            assert(region_words(*region).take(n as int) =~= region_words(*region));
            assert(scanned_words(mem.regions@.take(k + 1)) =~= prefix + region_words(*region));
        } else {
            assert(scanned_words(mem.regions@.take(k + 1)) =~= prefix);
        }
        k += 1;
    }
    assert(mem.regions@.take(mem.regions@.len() as int) =~= mem.regions@);
    out
}

} // verus!
