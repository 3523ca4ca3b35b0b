//! Walking the runtime's pointer tables.
//!
//! A table is an array of 4-byte slots. The runtime stores in each slot the
//! resource's address minus a correction; the correction is derived once, from
//! slot 0, as `first_slot - value(slot 0) + 4 * count`, and shared by every
//! slot of the table. All address arithmetic wraps at 32 bits, as the
//! runtime's own does.
use vstd::prelude::*;
use crate::memory::AddressSpace;
use crate::entry::{MusicEntry, StringEntry};
use crate::codec::{utf8_text, decode_utf8_lossy};

verus! {

/// The value stored in slot `i` of a table whose first slot is at `first_slot`.
pub open spec fn slot_value(mem: AddressSpace, first_slot: int, i: int) -> u32 {
    mem.u32_at(first_slot + 4 * i)
}

/// `4 * count`, wrapped to 32 bits.
pub open spec fn table_span(count: u32) -> u32 {
    count.wrapping_mul(4)
}

/// The correction shared by every slot of a table of `count` slots.
pub open spec fn table_correction(mem: AddressSpace, first_slot: u32, count: u32) -> u32 {
    first_slot.wrapping_sub(slot_value(mem, first_slot as int, 0)).wrapping_add(
        table_span(count),
    )
}

/// The absolute address that slot `i` refers to under correction `corr`.
pub open spec fn resolved_at(mem: AddressSpace, first_slot: u32, corr: u32, i: int) -> u32 {
    slot_value(mem, first_slot as int, i).wrapping_add(corr)
}

/// Slot `i` and the length prefix it refers to can both be read.
pub open spec fn entry_readable(mem: AddressSpace, first_slot: u32, corr: u32, i: int) -> bool {
    &&& mem.readable(first_slot + 4 * i, 4)
    &&& mem.readable(resolved_at(mem, first_slot, corr, i) as int, 4)
}

/// The count at `count_addr` and every slot of the table, with what each
/// refers to, lie in mapped memory.
pub open spec fn fixed_table_found(mem: AddressSpace, count_addr: u32, first_slot: u32) -> bool {
    let count = mem.u32_at(count_addr as int);
    let corr = table_correction(mem, first_slot, count);
    &&& mem.readable(count_addr as int, 4)
    &&& first_slot + 4 * count <= 0x1_0000_0000
    &&& forall|i: int| 0 <= i < count ==> #[trigger] entry_readable(mem, first_slot, corr, i)
}

/// `e` is the freshly resolved entry for slot `i`.
pub open spec fn is_resolved_entry(
    e: MusicEntry,
    mem: AddressSpace,
    first_slot: u32,
    corr: u32,
    i: int,
) -> bool {
    &&& e.primary_slot == first_slot + 4 * i
    &&& e.offset_correction == corr
    &&& e.resolved_address == resolved_at(mem, first_slot, corr, i)
    &&& e.original_size == mem.u32_at(e.resolved_address as int)
    &&& e.secondary_slot is None
    &&& e.secondary_slot_2 is None
    &&& e.secondary_size_slot is None
    &&& e.swapped_buffer is None
}

/// The freshly resolved entry for slot `i`.
pub open spec fn resolved_entry(mem: AddressSpace, first_slot: u32, corr: u32, i: int) -> MusicEntry {
    let r = resolved_at(mem, first_slot, corr, i);
    MusicEntry {
        primary_slot: (first_slot + 4 * i) as u32,
        offset_correction: corr,
        resolved_address: r,
        original_size: mem.u32_at(r as int),
        secondary_slot: None,
        secondary_slot_2: None,
        secondary_size_slot: None,
        swapped_buffer: None,
    }
}

/// The entries of the fixed-count table at `count_addr` / `first_slot`.
pub open spec fn fixed_table_entries(mem: AddressSpace, count_addr: u32, first_slot: u32) -> Seq<MusicEntry> {
    let count = mem.u32_at(count_addr as int);
    let corr = table_correction(mem, first_slot, count);
    Seq::new(count as nat, |i: int| resolved_entry(mem, first_slot, corr, i))
}

/// What resolving a fixed-count table yields: one resolved entry per slot.
pub open spec fn is_fixed_table(
    entries: Seq<MusicEntry>,
    mem: AddressSpace,
    count_addr: u32,
    first_slot: u32,
) -> bool {
    let count = mem.u32_at(count_addr as int);
    let corr = table_correction(mem, first_slot, count);
    &&& entries.len() == count
    &&& forall|i: int|
        0 <= i < entries.len() ==> is_resolved_entry(
            #[trigger] entries[i],
            mem,
            first_slot,
            corr,
            i,
        )
}

/// Resolves the fixed-count table whose count lies at `count_addr` and whose
/// slots start at `first_slot`. `None` where the table is not found: some part
/// of it lies outside mapped memory.
pub fn resolve_fixed_table(mem: &AddressSpace, count_addr: u32, first_slot: u32) -> (r: Option<
    Vec<MusicEntry>,
>)
    ensures
        r is Some <==> fixed_table_found(*mem, count_addr, first_slot),
        r is Some ==> is_fixed_table(r->0@, *mem, count_addr, first_slot),
        r is Some ==> r->0@ == fixed_table_entries(*mem, count_addr, first_slot),
{
    let count = match mem.read_u32(count_addr) {
        Some(c) => c,
        None => return None,
    };
    if first_slot as u64 + 4 * count as u64 > 0x1_0000_0000 {
        return None;
    }
    let ghost corr_spec = table_correction(*mem, first_slot, count);
    let mut corr: u32 = 0;
    let mut entries: Vec<MusicEntry> = Vec::new();
    let mut i: u32 = 0;
    while i < count
        invariant
            count == mem.u32_at(count_addr as int),
            mem.readable(count_addr as int, 4),
            first_slot + 4 * count <= 0x1_0000_0000,
            corr_spec == table_correction(*mem, first_slot, count),
            i > 0 ==> corr == corr_spec,
            i <= count,
            entries@.len() == i,
            forall|j: int| 0 <= j < i ==> #[trigger] entry_readable(*mem, first_slot, corr_spec, j),
            forall|j: int|
                0 <= j < i ==> is_resolved_entry(#[trigger] entries@[j], *mem, first_slot, corr_spec, j),
        decreases count - i,
    {
        let slot = first_slot + 4 * i;
        let value = match mem.read_u32(slot) {
            Some(v) => v,
            None => {
                assert(!entry_readable(*mem, first_slot, corr_spec, i as int));
                return None;
            },
        };
        if i == 0 {
            corr = first_slot.wrapping_sub(value).wrapping_add(count.wrapping_mul(4));
        }
        let resolved = value.wrapping_add(corr);
        let size = match mem.read_u32(resolved) {
            Some(s) => s,
            None => {
                assert(!entry_readable(*mem, first_slot, corr_spec, i as int));
                return None;
            },
        };
        entries.push(MusicEntry::new(slot, corr, resolved, size));
        i += 1;
    }
    assert(entries@ =~= fixed_table_entries(*mem, count_addr, first_slot));
    Some(entries)
}

/// Every entry of a resolved fixed-count table carries the one correction
/// derived from slot 0, there is one entry per declared slot, and recomputing
/// the correction from any entry (its resolved address minus the value in its
/// slot) gives that same correction back.
pub proof fn lemma_shared_correction(
    entries: Seq<MusicEntry>,
    mem: AddressSpace,
    count_addr: u32,
    first_slot: u32,
)
    requires
        is_fixed_table(entries, mem, count_addr, first_slot),
    ensures
        entries.len() == mem.u32_at(count_addr as int),
        forall|i: int|
            0 <= i < entries.len() ==> (#[trigger] entries[i]).offset_correction
                == table_correction(mem, first_slot, entries.len() as u32),
        forall|i: int|
            0 <= i < entries.len() ==> (#[trigger] entries[i]).resolved_address.wrapping_sub(
                mem.u32_at(entries[i].primary_slot as int),
            ) == entries[0].offset_correction,
{
    let count = mem.u32_at(count_addr as int);
    let corr = table_correction(mem, first_slot, count);
    assert forall|i: int| 0 <= i < entries.len() implies (#[trigger] entries[i]).resolved_address.wrapping_sub(
        mem.u32_at(entries[i].primary_slot as int),
    ) == entries[0].offset_correction by {
        assert(is_resolved_entry(entries[i], mem, first_slot, corr, i));
        assert(is_resolved_entry(entries[0], mem, first_slot, corr, 0));
    }
}

/// Slot values at or below this mark end a sentinel-terminated table: they are
/// reserved markers, not relative offsets.
pub const SENTINEL_THRESHOLD: u32 = 0x80;

/// Slots `0 .. n` of a sentinel-terminated table hold values above the
/// threshold and slot `n` holds one at or below it, all of them mapped.
pub open spec fn sentinel_table_len(mem: AddressSpace, first_slot: u32, n: int) -> bool {
    &&& 0 <= n
    &&& first_slot + 4 * n + 4 <= 0x1_0000_0000
    &&& forall|j: int|
        0 <= j <= n ==> #[trigger] mem.readable(first_slot + 4 * j, 4)
    &&& forall|j: int|
        0 <= j < n ==> #[trigger] slot_value(mem, first_slot as int, j) > SENTINEL_THRESHOLD
    &&& slot_value(mem, first_slot as int, n) <= SENTINEL_THRESHOLD
}

/// The number of slots of the sentinel-terminated table at `first_slot`: the
/// walk stops at the first value at or below the threshold. `None` where the
/// walk reaches unmapped memory first (table not found). A table whose slot 0
/// holds a small value reads as empty.
pub fn sentinel_count(mem: &AddressSpace, first_slot: u32) -> (r: Option<u32>)
    ensures
        r matches Some(n) ==> sentinel_table_len(*mem, first_slot, n as int),
        r is None ==> forall|n: int| !sentinel_table_len(*mem, first_slot, n),
{
    let mut i: u32 = 0;
    loop
        invariant
            first_slot + 4 * i <= 0x1_0000_0000,
            forall|j: int| 0 <= j < i ==> #[trigger] mem.readable(first_slot + 4 * j, 4),
            forall|j: int|
                0 <= j < i ==> #[trigger] slot_value(*mem, first_slot as int, j) > SENTINEL_THRESHOLD,
        decreases 0x1_0000_0000 - (first_slot + 4 * i),
    {
        if first_slot as u64 + 4 * i as u64 + 4 > 0x1_0000_0000 {
            assert forall|n: int| !sentinel_table_len(*mem, first_slot, n) by {
                if sentinel_table_len(*mem, first_slot, n) && n >= i {
                }
                if sentinel_table_len(*mem, first_slot, n) && n < i {
                    assert(slot_value(*mem, first_slot as int, n) > SENTINEL_THRESHOLD);
                }
            }
            return None;
        }
        let slot = first_slot + 4 * i;
        match mem.read_u32(slot) {
            None => {
                assert forall|n: int| !sentinel_table_len(*mem, first_slot, n) by {
                    if sentinel_table_len(*mem, first_slot, n) && n >= i {
                        assert(mem.readable(first_slot + 4 * (i as int), 4));
                    }
                    if sentinel_table_len(*mem, first_slot, n) && n < i {
                        assert(slot_value(*mem, first_slot as int, n) > SENTINEL_THRESHOLD);
                    }
                }
                return None;
            },
            Some(v) => {
                if v <= SENTINEL_THRESHOLD {
                    return Some(i);
                }
            },
        }
        i += 1;
    }
}

/// The text at `a`: the bytes up to the first null byte, all mapped, decoded.
pub open spec fn c_text_len(mem: AddressSpace, a: int, n: int) -> bool {
    &&& 0 <= n
    &&& mem.readable(a, n + 1)
    &&& forall|k: int| 0 <= k < n ==> #[trigger] mem.byte_at(a + k) != Some(0u8)
    &&& mem.byte_at(a + n) == Some(0u8)
}

pub open spec fn c_text_at(mem: AddressSpace, a: int) -> Option<Seq<char>> {
    if exists|n: int| c_text_len(mem, a, n) {
        let n = choose|n: int| c_text_len(mem, a, n);
        Some(utf8_text(mem.bytes_at(a, n as nat)))
    } else {
        None
    }
}

/// Reads the null-terminated text at `a`, decoding invalid UTF-8 lossily.
/// `None` where unmapped memory comes before the terminator.
pub fn read_c_text(mem: &AddressSpace, a: u32) -> (r: Option<String>)
    ensures
        r is Some <==> c_text_at(*mem, a as int) is Some,
        r is Some ==> r->0@ == c_text_at(*mem, a as int)->0,
{
    let mut bytes: Vec<u8> = Vec::new();
    let mut k: u64 = 0;
    loop
        invariant
            a + k <= 0x1_0000_0000,
            bytes@.len() == k,
            forall|j: int| 0 <= j < k ==> (#[trigger] mem.byte_at(a + j)) is Some,
            forall|j: int| 0 <= j < k ==> #[trigger] mem.byte_at(a + j) != Some(0u8),
            forall|j: int| 0 <= j < k ==> bytes@[j] == #[trigger] mem.byte_at(a + j)->0,
        decreases 0x1_0000_0000 - (a + k),
    {
        let none_found = a as u64 + k as u64 >= 0x1_0000_0000;
        let b = if none_found { None } else { mem.read_byte((a as u64 + k) as u32) };
        match b {
            None => {
                assert forall|n: int| !c_text_len(*mem, a as int, n) by {
                    if c_text_len(*mem, a as int, n) && n >= k {
                        assert(mem.byte_at(a + k) is Some);
                    }
                    if c_text_len(*mem, a as int, n) && n < k {
                        assert(mem.byte_at(a + n) != Some(0u8));
                    }
                }
                return None;
            },
            Some(0) => {
                assert(c_text_len(*mem, a as int, k as int));
                let ghost m = choose|n: int| c_text_len(*mem, a as int, n);
                assert(m == k) by {
                    if m < k {
                        assert(mem.byte_at(a + m) != Some(0u8));
                    } else if m > k {
                        assert(mem.byte_at(a + k) != Some(0u8));
                    }
                }
                assert(bytes@ =~= mem.bytes_at(a as int, k as nat));
                return Some(decode_utf8_lossy(bytes.as_slice()));
            },
            Some(_) => {
                bytes.push(b.unwrap());
            },
        }
        k += 1;
    }
}

/// `e` is the freshly resolved string entry for slot `i`.
pub open spec fn is_resolved_string(e: StringEntry, mem: AddressSpace, first_slot: u32, corr: u32, i: int) -> bool {
    &&& e.primary_slot == first_slot + 4 * i
    &&& e.offset_correction == corr
    &&& e.resolved_address == resolved_at(mem, first_slot, corr, i)
    &&& c_text_at(mem, e.resolved_address + 4) == Some(e.text@)
    &&& e.swapped_buffer is None
}

/// Every slot of the sentinel table at `first_slot` refers to a text that
/// can be read.
pub open spec fn string_table_found(mem: AddressSpace, first_slot: u32, n: int) -> bool {
    let corr = table_correction(mem, first_slot, n as u32);
    &&& sentinel_table_len(mem, first_slot, n)
    &&& forall|i: int| 0 <= i < n ==> (#[trigger] c_text_at(mem, resolved_at(mem, first_slot, corr, i) + 4)) is Some
}

/// Resolves the sentinel-terminated table of texts whose slots start at
/// `first_slot`, with the same shared correction as a fixed-count table.
/// `None` where the table or one of its texts is not found.
pub fn resolve_string_table(mem: &AddressSpace, first_slot: u32) -> (r: Option<Vec<StringEntry>>)
    ensures
        r is Some <==> exists|n: int| string_table_found(*mem, first_slot, n),
        r matches Some(v) ==> {
            &&& string_table_found(*mem, first_slot, v@.len() as int)
            &&& forall|i: int| 0 <= i < v@.len() ==> is_resolved_string(#[trigger] v@[i], *mem, first_slot,
                table_correction(*mem, first_slot, v@.len() as u32), i)
        },
{
    let count = match sentinel_count(mem, first_slot) {
        Some(c) => c,
        None => return None,
    };
    let ghost corr_spec = table_correction(*mem, first_slot, count);
    let mut corr: u32 = 0;
    let mut entries: Vec<StringEntry> = Vec::new();
    let mut i: u32 = 0;
    while i < count
        invariant
            sentinel_table_len(*mem, first_slot, count as int),
            corr_spec == table_correction(*mem, first_slot, count),
            i > 0 ==> corr == corr_spec,
            i <= count,
            entries@.len() == i,
            forall|j: int| 0 <= j < i ==> (#[trigger] c_text_at(*mem, resolved_at(*mem, first_slot, corr_spec, j) + 4)) is Some,
            forall|j: int| 0 <= j < i ==> is_resolved_string(#[trigger] entries@[j], *mem, first_slot, corr_spec, j),
        decreases count - i,
    {
        let slot = first_slot + 4 * i;
        assert(mem.readable(first_slot + 4 * (i as int), 4));
        let value = mem.read_u32(slot).unwrap();
        if i == 0 {
            corr = first_slot.wrapping_sub(value).wrapping_add(count.wrapping_mul(4));
        }
        let resolved = value.wrapping_add(corr);
        if resolved as u64 + 4 >= 0x1_0000_0000 {
            assert(c_text_at(*mem, resolved + 4) is None) by {
                assert forall|n: int| !#[trigger] c_text_len(*mem, resolved + 4, n) by {}
            }
            assert(c_text_at(*mem, resolved_at(*mem, first_slot, corr_spec, i as int) + 4) is None);
            assert(!string_table_found(*mem, first_slot, count as int));
            proof { lemma_sentinel_unique(*mem, first_slot, count as int); }
            return None;
        }
        let text = match read_c_text(mem, resolved + 4) {
            Some(t) => t,
            None => {
                assert(c_text_at(*mem, resolved_at(*mem, first_slot, corr_spec, i as int) + 4) is None);
                assert(!string_table_found(*mem, first_slot, count as int));
                proof { lemma_sentinel_unique(*mem, first_slot, count as int); }
                return None;
            },
        };
        entries.push(StringEntry { primary_slot: slot, offset_correction: corr, resolved_address: resolved, text, swapped_buffer: None });
        i += 1;
    }
    assert(string_table_found(*mem, first_slot, count as int));
    Some(entries)
}

/// A sentinel table has one length.
proof fn lemma_sentinel_unique(mem: AddressSpace, first_slot: u32, n: int)
    requires
        sentinel_table_len(mem, first_slot, n),
    ensures
        forall|m: int| sentinel_table_len(mem, first_slot, m) ==> m == n,
{
    assert forall|m: int| sentinel_table_len(mem, first_slot, m) implies m == n by {
        if m < n {
            assert(slot_value(mem, first_slot as int, m) > SENTINEL_THRESHOLD);
        } else if m > n {
            assert(slot_value(mem, first_slot as int, n) > SENTINEL_THRESHOLD);
        }
    }
}

} // verus!
