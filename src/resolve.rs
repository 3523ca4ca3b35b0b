//! Building the catalog: the anchored tables, the external tables, the heap
//! copies of each audio pointer, and the text table.
use vstd::prelude::*;
use crate::memory::{AddressSpace, Region};
use crate::entry::MusicEntry;
use crate::table::{
    fixed_table_found, fixed_table_entries, resolve_fixed_table, resolve_string_table,
    string_table_found, is_resolved_string, table_correction, entry_readable,
};
use crate::scan::{
    SecondarySlots, external_table, external_table_starts, holds_external_table,
    locate_secondary_slots, scan_external_tables, scanned_words, slots_after, last_word_hit,
    last_pair_hit, word_is, pair_is, COUNT_OFFSET, FIRST_SLOT_OFFSET,
};
use crate::catalog::{ResourceIndex, music_entry_ok, string_entry_ok};

verus! {

/// Where one build of the runtime keeps its tables.
#[derive(Clone, Copy, PartialEq, Eq, Debug)]
pub struct Anchors {
    /// The count of the audio table.
    pub music_count: u32,
    /// The first slot of the audio table.
    pub music_first_slot: u32,
    /// The first slot of the text table.
    pub string_first_slot: u32,
}

/// The audio table header of build 2.7.9c.
pub const MUSIC_ANCHOR: u32 = 0x0290ac95;
/// The text table header of build 2.7.9c.
pub const STRING_ANCHOR: u32 = 0x01b62c39;

impl Anchors {
    /// The anchors of build 2.7.9c: the audio count 8 bytes into its header,
    /// its slots right after; the text slots 12 bytes into theirs.
    pub fn build_2_7_9c() -> (r: Anchors)
        ensures
            r.music_count == MUSIC_ANCHOR + 8,
            r.music_first_slot == MUSIC_ANCHOR + 12,
            r.string_first_slot == STRING_ANCHOR + 12,
    {
        Anchors {
            music_count: MUSIC_ANCHOR + 8,
            music_first_slot: MUSIC_ANCHOR + 12,
            string_first_slot: STRING_ANCHOR + 12,
        }
    }
}

/// The audio tables in catalog order: the anchored one where it is found, then
/// one per region that holds an external table.
pub open spec fn music_tables(mem: AddressSpace, anchors: Anchors) -> Seq<Seq<MusicEntry>> {
    let anchored = if fixed_table_found(mem, anchors.music_count, anchors.music_first_slot) {
        seq![fixed_table_entries(mem, anchors.music_count, anchors.music_first_slot)]
    } else {
        seq![]
    };
    anchored + external_table_starts(mem, mem.regions@).map_values(|s: u32| external_table(mem, s))
}

/// `e` with the heap copies `s` attached.
pub open spec fn with_slots(e: MusicEntry, s: SecondarySlots) -> MusicEntry {
    MusicEntry {
        secondary_slot: s.slot,
        secondary_slot_2: s.slot_2,
        secondary_size_slot: s.size_slot,
        ..e
    }
}

/// The audio entries of the catalog, each with the heap copies located for it.
pub open spec fn catalog_music(mem: AddressSpace, anchors: Anchors) -> Seq<MusicEntry> {
    let plain = music_tables(mem, anchors).flatten();
    Seq::new(
        plain.len(),
        |i: int| with_slots(plain[i], slots_after(mem, scanned_words(mem.regions@), plain[i].resolved_address)),
    )
}

/// Every entry of `t` has a mapped primary slot and no swap buffer.
pub open spec fn table_ok(mem: AddressSpace, t: Seq<MusicEntry>) -> bool {
    forall|i: int| 0 <= i < t.len() ==> {
        &&& mem.readable((#[trigger] t[i]).primary_slot as int, 4)
        &&& t[i].swapped_buffer is None
    }
}

proof fn lemma_found_table_ok(mem: AddressSpace, count_addr: u32, first_slot: u32)
    requires
        fixed_table_found(mem, count_addr, first_slot),
    ensures
        table_ok(mem, fixed_table_entries(mem, count_addr, first_slot)),
{
    let t = fixed_table_entries(mem, count_addr, first_slot);
    let corr = table_correction(mem, first_slot, mem.u32_at(count_addr as int));
    assert forall|i: int| 0 <= i < t.len() implies mem.readable((#[trigger] t[i]).primary_slot as int, 4) by {
        assert(entry_readable(mem, first_slot, corr, i));
    }
}

proof fn lemma_external_starts_hold(mem: AddressSpace, regions: Seq<Region>)
    ensures
        forall|t: int| 0 <= t < external_table_starts(mem, regions).len() ==> exists|k: int| 0 <= k < regions.len()
            && regions[k].start == #[trigger] external_table_starts(mem, regions)[t] && holds_external_table(mem, regions[k]),
    decreases regions.len(),
{
    if regions.len() > 0 {
        lemma_external_starts_hold(mem, regions.drop_last());
        let prev = external_table_starts(mem, regions.drop_last());
        let cur = external_table_starts(mem, regions);
        assert forall|t: int| 0 <= t < cur.len() implies exists|k: int| 0 <= k < regions.len()
            && regions[k].start == #[trigger] cur[t] && holds_external_table(mem, regions[k]) by {
            if t < prev.len() {
                assert(cur[t] == prev[t]);
                let k = choose|k: int| 0 <= k < regions.drop_last().len()
                    && regions.drop_last()[k].start == prev[t] && holds_external_table(mem, regions.drop_last()[k]);
                assert(regions[k] == regions.drop_last()[k]);
            } else {
                assert(regions[regions.len() - 1] == regions.last());
            }
        }
    }
}

proof fn lemma_music_tables_ok(mem: AddressSpace, anchors: Anchors)
    ensures
        forall|g: int| 0 <= g < music_tables(mem, anchors).len() ==> table_ok(mem, #[trigger] music_tables(mem, anchors)[g]),
{
    let tables = music_tables(mem, anchors);
    let starts = external_table_starts(mem, mem.regions@);
    lemma_external_starts_hold(mem, mem.regions@);
    let off = if fixed_table_found(mem, anchors.music_count, anchors.music_first_slot) { 1int } else { 0int };
    assert forall|g: int| 0 <= g < tables.len() implies table_ok(mem, #[trigger] tables[g]) by {
        if g < off {
            lemma_found_table_ok(mem, anchors.music_count, anchors.music_first_slot);
        } else {
            let s = starts[g - off];
            let k = choose|k: int| 0 <= k < mem.regions@.len() && mem.regions@[k].start == s
                && holds_external_table(mem, mem.regions@[k]);
            lemma_found_table_ok(mem, (s + COUNT_OFFSET) as u32, (s + FIRST_SLOT_OFFSET) as u32);
        }
    }
}

proof fn lemma_word_hit(mem: AddressSpace, words: Seq<u32>, target: u32)
    ensures
        last_word_hit(mem, words, target) matches Some(w) ==> word_is(mem, w, target),
        last_pair_hit(mem, words, target) matches Some(w) ==> pair_is(mem, w, target),
    decreases words.len(),
{
    if words.len() > 0 {
        lemma_word_hit(mem, words.drop_last(), target);
    }
}

/// A copy of an entry that holds no swap buffer.
fn copy_entry(e: &MusicEntry) -> (r: MusicEntry)
    requires
        e.swapped_buffer is None,
    ensures
        r == *e,
{
    MusicEntry {
        primary_slot: e.primary_slot,
        offset_correction: e.offset_correction,
        resolved_address: e.resolved_address,
        original_size: e.original_size,
        secondary_slot: e.secondary_slot,
        secondary_slot_2: e.secondary_slot_2,
        secondary_size_slot: e.secondary_size_slot,
        swapped_buffer: None,
    }
}

/// Resolves the whole catalog over `mem`: the audio tables (see
/// `music_tables`) with the heap copies of each entry attached, and the text
/// table, empty where it is not found. Also returns the size of each audio
/// table, in catalog order. Swap buffers will go from `next_buffer` up.
pub fn resolve_catalog(mem: AddressSpace, anchors: &Anchors, next_buffer: u32) -> (r: (ResourceIndex, Vec<usize>))
    requires
        mem.wf(),
    ensures
        r.0.wf(),
        r.0.mem == mem,
        r.0.next_buffer == next_buffer,
        r.0.music@ == catalog_music(mem, *anchors),
        r.1@.len() == music_tables(mem, *anchors).len(),
        forall|g: int| 0 <= g < r.1@.len() ==> #[trigger] r.1@[g] == music_tables(mem, *anchors)[g].len(),
        (exists|n: int| string_table_found(mem, anchors.string_first_slot, n)) ==> {
            &&& string_table_found(mem, anchors.string_first_slot, r.0.strings@.len() as int)
            &&& forall|i: int| 0 <= i < r.0.strings@.len() ==> is_resolved_string(
                #[trigger] r.0.strings@[i],
                mem,
                anchors.string_first_slot,
                table_correction(mem, anchors.string_first_slot, r.0.strings@.len() as u32),
                i,
            )
        },
        !(exists|n: int| string_table_found(mem, anchors.string_first_slot, n)) ==> r.0.strings@.len() == 0,
{
    let mut tables: Vec<Vec<MusicEntry>> = Vec::new();
    match resolve_fixed_table(&mem, anchors.music_count, anchors.music_first_slot) {
        Some(t) => tables.push(t),
        None => {},
    }
    let mut external = scan_external_tables(&mem);
    tables.append(&mut external);
    let ghost spec_tables = music_tables(mem, *anchors);
    assert(tables@.len() == spec_tables.len());
    assert forall|g: int| 0 <= g < tables@.len() implies (#[trigger] tables@[g])@ == spec_tables[g] by {}
    proof {
        lemma_music_tables_ok(mem, *anchors);
    }
    let mut sizes: Vec<usize> = Vec::new();
    let mut plain: Vec<MusicEntry> = Vec::new();
    let mut g: usize = 0;
    assert(spec_tables.take(0).flatten() =~= Seq::<MusicEntry>::empty());
    while g < tables.len()
        invariant
            mem.wf(),
            tables@.len() == spec_tables.len(),
            forall|h: int| 0 <= h < tables@.len() ==> (#[trigger] tables@[h])@ == spec_tables[h],
            forall|h: int| 0 <= h < spec_tables.len() ==> table_ok(mem, #[trigger] spec_tables[h]),
            g <= tables@.len(),
            sizes@.len() == g,
            forall|h: int| 0 <= h < g ==> #[trigger] sizes@[h] == spec_tables[h].len(),
            plain@ == spec_tables.take(g as int).flatten(),
            table_ok(mem, plain@),
        decreases tables@.len() - g,
    {
        let table = &tables[g];
        assert(table_ok(mem, spec_tables[g as int]));
        let ghost base = plain@;
        let mut i: usize = 0;
        while i < table.len()
            invariant
                table@ == spec_tables[g as int],
                table_ok(mem, table@),
                i <= table@.len(),
                plain@ == base + table@.take(i as int),
                table_ok(mem, plain@),
            decreases table@.len() - i,
        {
            assert(table@[i as int].swapped_buffer is None);
            plain.push(copy_entry(&table[i]));
            assert(table@.take(i + 1) =~= table@.take(i as int).push(table@[i as int]));
            assert(plain@ =~= base + table@.take(i + 1));
            i += 1;
        }
        sizes.push(table.len());
        proof {
            assert(table@.take(table@.len() as int) =~= table@);
            assert(spec_tables.take(g + 1) =~= spec_tables.take(g as int).push(spec_tables[g as int]));
            spec_tables.take(g as int).lemma_flatten_push(spec_tables[g as int]);
        }
        g += 1;
    }
    assert(spec_tables.take(spec_tables.len() as int) =~= spec_tables);
    let mut targets: Vec<u32> = Vec::new();
    let mut k: usize = 0;
    while k < plain.len()
        invariant
            k <= plain@.len(),
            targets@.len() == k,
            forall|j: int| 0 <= j < k ==> #[trigger] targets@[j] == plain@[j].resolved_address,
        decreases plain@.len() - k,
    {
        targets.push(plain[k].resolved_address);
        k += 1;
    }
    assert(table_ok(mem, plain@));
    let slots = locate_secondary_slots(&mem, &targets);
    let ghost words = scanned_words(mem.regions@);
    let mut music: Vec<MusicEntry> = Vec::new();
    let mut k: usize = 0;
    while k < plain.len()
        invariant
            k <= plain@.len(),
            targets@.len() == plain@.len(),
            slots@.len() == plain@.len(),
            forall|j: int| 0 <= j < plain@.len() ==> #[trigger] targets@[j] == plain@[j].resolved_address,
            forall|j: int| 0 <= j < slots@.len() ==> #[trigger] slots@[j] == slots_after(mem, words, targets@[j]),
            table_ok(mem, plain@),
            music@.len() == k,
            forall|j: int| 0 <= j < k ==> #[trigger] music@[j] == with_slots(plain@[j], slots@[j]),
        decreases plain@.len() - k,
    {
        let e = &plain[k];
        let s = slots[k];
        music.push(MusicEntry {
            primary_slot: e.primary_slot,
            offset_correction: e.offset_correction,
            resolved_address: e.resolved_address,
            original_size: e.original_size,
            secondary_slot: s.slot,
            secondary_slot_2: s.slot_2,
            secondary_size_slot: s.size_slot,
            swapped_buffer: None,
        });
        k += 1;
    }
    let strings = match resolve_string_table(&mem, anchors.string_first_slot) {
        Some(v) => v,
        None => Vec::new(),
    };
    assert(music@ =~= catalog_music(mem, *anchors));
    let ghost nb = next_buffer as u64;
    proof {
        assert forall|j: int| 0 <= j < music@.len() implies music_entry_ok(mem, #[trigger] music@[j], nb) by {
            let p = plain@[j];
            lemma_word_hit(mem, words, p.resolved_address);
            lemma_word_hit(mem, words, p.resolved_address.wrapping_add(4));
        }
        assert forall|j: int| 0 <= j < strings@.len() implies string_entry_ok(mem, #[trigger] strings@[j], nb) by {
            let n = strings@.len() as int;
            assert(string_table_found(mem, anchors.string_first_slot, n));
            assert(mem.readable(anchors.string_first_slot + 4 * j, 4));
        }
    }
    (ResourceIndex { mem, music, strings, next_buffer: next_buffer as u64 }, sizes)
}

/// Where the count and the first slot of each audio table lie, in catalog
/// order.
pub open spec fn table_headers(mem: AddressSpace, anchors: Anchors) -> Seq<(u32, u32)> {
    let anchored = if fixed_table_found(mem, anchors.music_count, anchors.music_first_slot) {
        seq![(anchors.music_count, anchors.music_first_slot)]
    } else {
        seq![]
    };
    anchored + external_table_starts(mem, mem.regions@).map_values(
        |s: u32| ((s + COUNT_OFFSET) as u32, (s + FIRST_SLOT_OFFSET) as u32),
    )
}

/// The sum of the counts declared in `headers`.
pub open spec fn declared_total(mem: AddressSpace, headers: Seq<(u32, u32)>) -> int
    decreases headers.len(),
{
    if headers.len() == 0 {
        0
    } else {
        mem.u32_at(headers[0].0 as int) + declared_total(mem, headers.drop_first())
    }
}

proof fn lemma_flatten_total(mem: AddressSpace, tables: Seq<Seq<MusicEntry>>, headers: Seq<(u32, u32)>)
    requires
        tables.len() == headers.len(),
        forall|g: int| 0 <= g < tables.len() ==> (#[trigger] tables[g]).len() == mem.u32_at(headers[g].0 as int),
    ensures
        tables.flatten().len() == declared_total(mem, headers),
    decreases tables.len(),
{
    if tables.len() > 0 {
        let (t, h) = (tables.drop_first(), headers.drop_first());
        assert forall|g: int| 0 <= g < t.len() implies (#[trigger] t[g]).len() == mem.u32_at(h[g].0 as int) by {
            assert(t[g] == tables[g + 1]);
        }
        lemma_flatten_total(mem, t, h);
        assert(tables[0].len() == mem.u32_at(headers[0].0 as int));
    }
}

/// Every audio table of the catalog is found at its header and holds exactly
/// the count declared there, each of its entries carrying the one correction
/// of that table; the catalog holds all their entries, so as many as the
/// declared counts add up to.
pub proof fn lemma_catalog_tables(mem: AddressSpace, anchors: Anchors)
    ensures
        music_tables(mem, anchors).len() == table_headers(mem, anchors).len(),
        forall|g: int| 0 <= g < music_tables(mem, anchors).len() ==> {
            let (c, f) = table_headers(mem, anchors)[g];
            let t = #[trigger] music_tables(mem, anchors)[g];
            &&& fixed_table_found(mem, c, f)
            &&& t == fixed_table_entries(mem, c, f)
            &&& t.len() == mem.u32_at(c as int)
            &&& forall|i: int| 0 <= i < t.len() ==> (#[trigger] t[i]).offset_correction
                == table_correction(mem, f, mem.u32_at(c as int))
        },
        catalog_music(mem, anchors).len() == declared_total(mem, table_headers(mem, anchors)),
{
    let tables = music_tables(mem, anchors);
    let headers = table_headers(mem, anchors);
    let starts = external_table_starts(mem, mem.regions@);
    lemma_external_starts_hold(mem, mem.regions@);
    let off = if fixed_table_found(mem, anchors.music_count, anchors.music_first_slot) { 1int } else { 0int };
    assert forall|g: int| 0 <= g < tables.len() implies {
        let (c, f) = headers[g];
        let t = #[trigger] tables[g];
        &&& fixed_table_found(mem, c, f)
        &&& t == fixed_table_entries(mem, c, f)
        &&& t.len() == mem.u32_at(c as int)
        &&& forall|i: int| 0 <= i < t.len() ==> (#[trigger] t[i]).offset_correction
            == table_correction(mem, f, mem.u32_at(c as int))
    } by {
        if g >= off {
            let s = starts[g - off];
            let k = choose|k: int| 0 <= k < mem.regions@.len() && mem.regions@[k].start == s
                && holds_external_table(mem, mem.regions@[k]);
        }
    }
    lemma_flatten_total(mem, tables, headers);
}

} // verus!
