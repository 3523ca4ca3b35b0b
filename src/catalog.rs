//! The resource catalog and the swap/restore lifecycle of its entries.
//!
//! The catalog alone owns swap buffers: an entry holds at most one, a swap
//! installs the new buffer's pointers before the old buffer is dropped, and a
//! restore points every located slot back at the original resource and drops
//! the buffer. Buffers are placed at ascending addresses from `next_buffer`,
//! so a new buffer never shares its address with a live one; the owner of the
//! catalog picks a `next_buffer` where nothing else lives.
use vstd::prelude::*;
use crate::memory::{AddressSpace, Patch, le_bytes, push_u32_le, patched_byte, patch_covers};
use crate::entry::{MusicEntry, StringEntry, SwapBuffer};
use crate::codec::{encode_record, record_text, string_to_gmpointer, decode_record, lemma_text_round_trip};
use vstd::utf8::encode_utf8;

verus! {

/// The catalog: the address space it patches, its audio and text entries,
/// and where the next swap buffer goes.
pub struct ResourceIndex {
    pub mem: AddressSpace,
    pub music: Vec<MusicEntry>,
    pub strings: Vec<StringEntry>,
    pub next_buffer: u64,
}

#[derive(Clone, Copy, PartialEq, Eq, Debug)]
pub enum SwapError {
    /// No room is left below 4 GiB for the replacement buffer.
    AddressSpaceExhausted,
}

/// A located slot can be read and written.
pub open spec fn slot_ok(mem: AddressSpace, slot: Option<u32>) -> bool {
    match slot {
        Some(a) => mem.readable(a as int, 4),
        None => true,
    }
}

pub open spec fn buffer_ok(b: Option<SwapBuffer>, next_buffer: u64) -> bool {
    match b {
        Some(b) => b.bytes@.len() >= 4 && b.address + b.bytes@.len() <= next_buffer,
        None => true,
    }
}

pub open spec fn music_entry_ok(mem: AddressSpace, e: MusicEntry, next_buffer: u64) -> bool {
    &&& mem.readable(e.primary_slot as int, 4)
    &&& slot_ok(mem, e.secondary_slot)
    &&& slot_ok(mem, e.secondary_slot_2)
    &&& slot_ok(mem, e.secondary_size_slot)
    &&& buffer_ok(e.swapped_buffer, next_buffer)
}

pub open spec fn string_entry_ok(mem: AddressSpace, e: StringEntry, next_buffer: u64) -> bool {
    &&& mem.readable(e.primary_slot as int, 4)
    &&& buffer_ok(e.swapped_buffer, next_buffer)
}

/// The write of `value` to `slot`, where the slot was located.
pub open spec fn slot_write(slot: Option<u32>, value: u32) -> Seq<Patch> {
    match slot {
        Some(a) => seq![Patch { address: a, value }],
        None => seq![],
    }
}

/// The writes that point every located slot of `e` at a resource that starts
/// at `target` and holds `size` payload bytes. The primary slot takes the
/// relative form.
pub open spec fn pointing_writes(e: MusicEntry, target: u32, size: u32) -> Seq<Patch> {
    seq![Patch { address: e.primary_slot, value: target.wrapping_sub(e.offset_correction) }]
        + slot_write(e.secondary_slot, target) + slot_write(
        e.secondary_slot_2,
        target.wrapping_add(4),
    ) + slot_write(e.secondary_size_slot, size)
}

/// The buffer that holds `payload` behind its length prefix.
pub open spec fn music_buffer_bytes(payload: Seq<u8>) -> Seq<u8> {
    le_bytes(payload.len() as u32) + payload
}

/// The original payload of `e` as `mem` holds it, `None` where unmapped.
pub open spec fn original_music_bytes(mem: AddressSpace, e: MusicEntry) -> Option<Seq<u8>> {
    if mem.readable(e.resolved_address + 4, e.original_size as int) {
        Some(mem.bytes_at(e.resolved_address + 4, e.original_size as nat))
    } else {
        None
    }
}

/// The payload that entry `i` currently presents: its swap buffer's payload,
/// else the original bytes in memory.
pub open spec fn music_bytes(idx: ResourceIndex, i: int) -> Option<Seq<u8>> {
    let e = idx.music@[i];
    match e.swapped_buffer {
        Some(b) => Some(b.bytes@.skip(4)),
        None => original_music_bytes(idx.mem, e),
    }
}

/// `e2` is `e1` with only its swap buffer replaced by `b`.
pub open spec fn same_music_entry_but_buffer(e1: MusicEntry, e2: MusicEntry, b: Option<SwapBuffer>) -> bool {
    &&& e2.primary_slot == e1.primary_slot
    &&& e2.offset_correction == e1.offset_correction
    &&& e2.resolved_address == e1.resolved_address
    &&& e2.original_size == e1.original_size
    &&& e2.secondary_slot == e1.secondary_slot
    &&& e2.secondary_slot_2 == e1.secondary_slot_2
    &&& e2.secondary_size_slot == e1.secondary_size_slot
    &&& e2.swapped_buffer == b
}

/// `e2` is `e1` with only its swap buffer replaced by `b`.
pub open spec fn same_string_entry_but_buffer(e1: StringEntry, e2: StringEntry, b: Option<SwapBuffer>) -> bool {
    &&& e2.primary_slot == e1.primary_slot
    &&& e2.offset_correction == e1.offset_correction
    &&& e2.resolved_address == e1.resolved_address
    &&& e2.text == e1.text
    &&& e2.swapped_buffer == b
}

/// `b` is the swap of music entry `i` of `a` to `payload`: a buffer at
/// `a.next_buffer` holds the payload behind its length, every located slot
/// points at it, and nothing else changed.
pub open spec fn music_swapped(a: ResourceIndex, b: ResourceIndex, i: int, payload: Seq<u8>) -> bool {
    let e = a.music@[i];
    let buf = SwapBuffer { address: a.next_buffer as u32, bytes: b.music@[i].swapped_buffer->0.bytes };
    &&& b.mem.regions == a.mem.regions
    &&& b.mem.patches@ == a.mem.patches@ + pointing_writes(e, a.next_buffer as u32, payload.len() as u32)
    &&& b.music@.len() == a.music@.len()
    &&& same_music_entry_but_buffer(e, b.music@[i], Some(buf))
    &&& buf.bytes@ == music_buffer_bytes(payload)
    &&& forall|j: int| 0 <= j < a.music@.len() && j != i ==> b.music@[j] == a.music@[j]
    &&& b.strings == a.strings
    &&& b.next_buffer == a.next_buffer + buf.bytes@.len()
    &&& b.next_buffer <= 0x1_0000_0000
}

/// `b` is `a` after restoring music entry `i`.
pub open spec fn music_restored(a: ResourceIndex, b: ResourceIndex, i: int) -> bool {
    let e = a.music@[i];
    &&& b.mem.regions == a.mem.regions
    &&& b.music@.len() == a.music@.len()
    &&& forall|j: int| 0 <= j < a.music@.len() && j != i ==> b.music@[j] == a.music@[j]
    &&& b.strings == a.strings
    &&& b.next_buffer == a.next_buffer
    &&& if e.swapped_buffer is Some {
        &&& b.mem.patches@ == a.mem.patches@ + pointing_writes(
            e,
            e.resolved_address,
            e.original_size,
        )
        &&& same_music_entry_but_buffer(e, b.music@[i], None)
    } else {
        &&& b.mem.patches == a.mem.patches
        &&& b.music@[i] == e
    }
}

impl ResourceIndex {
    pub open spec fn wf(&self) -> bool {
        &&& self.mem.wf()
        &&& self.next_buffer <= 0x1_0000_0000
        &&& forall|i: int|
            0 <= i < self.music@.len() ==> music_entry_ok(self.mem, #[trigger] self.music@[i], self.next_buffer)
        &&& forall|i: int|
            0 <= i < self.strings@.len() ==> string_entry_ok(self.mem, #[trigger] self.strings@[i], self.next_buffer)
    }

    /// An empty catalog over `mem`; swap buffers go from `next_buffer` up.
    pub fn new(mem: AddressSpace, next_buffer: u32) -> (r: ResourceIndex)
        requires
            mem.wf(),
        ensures
            r.wf(),
            r.mem == mem,
            r.music@.len() == 0,
            r.strings@.len() == 0,
            r.next_buffer == next_buffer,
    {
        ResourceIndex { mem, music: Vec::new(), strings: Vec::new(), next_buffer: next_buffer as u64 }
    }

    /// Installs `payload` as the content of music entry `i`: builds an owned
    /// buffer `[length][payload]` at `next_buffer`, points the primary slot
    /// (relative form) and every located secondary slot at it, then drops the
    /// buffer the entry held before, if any. Fails, changing nothing, where the
    /// buffer would not fit below 4 GiB.
    pub fn swap_music(&mut self, i: usize, payload: Vec<u8>) -> (r: Result<(), SwapError>)
        requires
            old(self).wf(),
            i < old(self).music@.len(),
        ensures
            final(self).wf(),
            r is Err <==> old(self).next_buffer + 4 + payload@.len() > 0x1_0000_0000,
            r is Err ==> *final(self) == *old(self),
            r is Ok ==> music_swapped(*old(self), *final(self), i as int, payload@),
    {
        if payload.len() > 0xFFFF_FFFC || self.next_buffer as u64 + 4 + payload.len() as u64
            > 0x1_0000_0000 {
            return Err(SwapError::AddressSpaceExhausted);
        }
        let ghost s0 = *self;
        let ghost payload_view = payload@;
        let address = self.next_buffer as u32;
        let n = payload.len() as u32;
        let mut bytes: Vec<u8> = Vec::new();
        push_u32_le(&mut bytes, n);
        let mut payload = payload;
        bytes.append(&mut payload);
        let total = 4 + n as u64;
        assert(self.wf());
        assert(music_entry_ok(self.mem, self.music@[i as int], self.next_buffer));
        let e = &self.music[i];
        Self::point_music_entry(&mut self.mem, e, address, n);
        let entry = MusicEntry {
            primary_slot: e.primary_slot,
            offset_correction: e.offset_correction,
            resolved_address: e.resolved_address,
            original_size: e.original_size,
            secondary_slot: e.secondary_slot,
            secondary_slot_2: e.secondary_slot_2,
            secondary_size_slot: e.secondary_size_slot,
            swapped_buffer: Some(SwapBuffer { address, bytes }),
        };
        self.music.set(i, entry);
        self.next_buffer = self.next_buffer + total;
        proof {
            assert(self.music@[i as int].swapped_buffer->0.bytes@ =~= music_buffer_bytes(payload_view));
            assert(address as int == s0.next_buffer);
            assert(self.music@[i as int].swapped_buffer->0.bytes@.len() == total);
            assert(buffer_ok(self.music@[i as int].swapped_buffer, self.next_buffer));
            assert forall|j: int| 0 <= j < self.music@.len() && j != i implies self.music@[j] == s0.music@[j] by {}
            Self::lemma_keeps_wf(s0, *self, pointing_writes(s0.music@[i as int], address, n));
        }
        Ok(())
    }

    /// Points every located slot of music entry `i` back at its original
    /// resource and drops its swap buffer. Without a swap this is a no-op and
    /// returns `false`.
    pub fn restore_music(&mut self, i: usize) -> (r: bool)
        requires
            old(self).wf(),
            i < old(self).music@.len(),
        ensures
            final(self).wf(),
            r == old(self).music@[i as int].swapped_buffer is Some,
            music_restored(*old(self), *final(self), i as int),
    {
        if self.music[i].swapped_buffer.is_none() {
            return false;
        }
        let ghost s0 = *self;
        assert(music_entry_ok(self.mem, self.music@[i as int], self.next_buffer));
        let e = &self.music[i];
        Self::point_music_entry(&mut self.mem, e, e.resolved_address, e.original_size);
        let entry = MusicEntry {
            primary_slot: e.primary_slot,
            offset_correction: e.offset_correction,
            resolved_address: e.resolved_address,
            original_size: e.original_size,
            secondary_slot: e.secondary_slot,
            secondary_slot_2: e.secondary_slot_2,
            secondary_size_slot: e.secondary_size_slot,
            swapped_buffer: None,
        };
        self.music.set(i, entry);
        proof {
            let e0 = s0.music@[i as int];
            Self::lemma_keeps_wf(s0, *self, pointing_writes(e0, e0.resolved_address, e0.original_size));
        }
        true
    }

    /// The payload music entry `i` currently presents: its swap buffer's
    /// payload, else the original bytes; `None` where those are unmapped.
    pub fn read_current_bytes(&self, i: usize) -> (r: Option<Vec<u8>>)
        requires
            self.wf(),
            i < self.music@.len(),
        ensures
            r is Some <==> music_bytes(*self, i as int) is Some,
            r is Some ==> r->0@ == music_bytes(*self, i as int)->0,
    {
        let e = &self.music[i];
        match &e.swapped_buffer {
            Some(b) => {
                assert(buffer_ok(e.swapped_buffer, self.next_buffer));
                let mut out: Vec<u8> = Vec::new();
                let mut k: usize = 4;
                while k < b.bytes.len()
                    invariant
                        4 <= k <= b.bytes@.len(),
                        out@ == b.bytes@.subrange(4, k as int),
                    decreases b.bytes@.len() - k,
                {
                    out.push(b.bytes[k]);
                    assert(b.bytes@.subrange(4, k + 1) =~= b.bytes@.subrange(4, k as int).push(b.bytes@[k as int]));
                    k += 1;
                }
                assert(out@ =~= b.bytes@.skip(4));
                Some(out)
            },
            None => {
                if e.resolved_address as u64 + 4 + e.original_size as u64 > 0x1_0000_0000 {
                    return None;
                }
                if e.resolved_address as u64 + 4 == 0x1_0000_0000 {
                    assert(self.mem.bytes_at(e.resolved_address + 4, 0) =~= Seq::<u8>::empty());
                    return Some(Vec::new());
                }
                self.mem.read_bytes(e.resolved_address + 4, e.original_size)
            },
        }
    }

    /// Writes that leave the regions alone, and an entry or a buffer bound
    /// that changes only as the lifecycle changes them, keep the catalog
    /// well formed.
    proof fn lemma_keeps_wf(a: ResourceIndex, b: ResourceIndex, extra: Seq<Patch>)
        requires
            a.wf(),
            b.mem.regions == a.mem.regions,
            b.mem.patches@ == a.mem.patches@ + extra,
            b.next_buffer >= a.next_buffer,
            b.next_buffer <= 0x1_0000_0000,
            b.music@.len() == a.music@.len(),
            b.strings@.len() == a.strings@.len(),
            forall|j: int|
                0 <= j < b.music@.len() ==> {
                    let (e1, e2) = (a.music@[j], #[trigger] b.music@[j]);
                    &&& e2.primary_slot == e1.primary_slot
                    &&& e2.secondary_slot == e1.secondary_slot
                    &&& e2.secondary_slot_2 == e1.secondary_slot_2
                    &&& e2.secondary_size_slot == e1.secondary_size_slot
                    &&& (e2.swapped_buffer == e1.swapped_buffer || buffer_ok(e2.swapped_buffer, b.next_buffer))
                },
            forall|j: int|
                0 <= j < b.strings@.len() ==> {
                    let (e1, e2) = (a.strings@[j], #[trigger] b.strings@[j]);
                    &&& e2.primary_slot == e1.primary_slot
                    &&& (e2.swapped_buffer == e1.swapped_buffer || buffer_ok(e2.swapped_buffer, b.next_buffer))
                },
        ensures
            b.wf(),
    {
        assert forall|j: int| 0 <= j < b.music@.len() implies music_entry_ok(b.mem, #[trigger] b.music@[j], b.next_buffer) by {
            let e1 = a.music@[j];
            assert(music_entry_ok(a.mem, e1, a.next_buffer));
            lemma_writes_keep_readable(a.mem, b.mem, extra, e1.primary_slot as int, 4);
            Self::lemma_slot_kept(a.mem, b.mem, extra, e1.secondary_slot);
            Self::lemma_slot_kept(a.mem, b.mem, extra, e1.secondary_slot_2);
            Self::lemma_slot_kept(a.mem, b.mem, extra, e1.secondary_size_slot);
        }
        assert forall|j: int| 0 <= j < b.strings@.len() implies string_entry_ok(b.mem, #[trigger] b.strings@[j], b.next_buffer) by {
            let e1 = a.strings@[j];
            assert(string_entry_ok(a.mem, e1, a.next_buffer));
            lemma_writes_keep_readable(a.mem, b.mem, extra, e1.primary_slot as int, 4);
        }
    }

    /// Installs `text` as the content of string entry `i`: builds its record
    /// in an owned buffer at `next_buffer`, points the primary slot at it
    /// (relative form), then drops the buffer held before, if any. Fails,
    /// changing nothing, where the record would not fit below 4 GiB.
    pub fn swap_string(&mut self, i: usize, text: &str) -> (r: Result<(), SwapError>)
        requires
            old(self).wf(),
            i < old(self).strings@.len(),
        ensures
            final(self).wf(),
            r is Err <==> old(self).next_buffer + 5 + encode_utf8(text@).len() > 0x1_0000_0000,
            r is Err ==> *final(self) == *old(self),
            r is Ok ==> string_swapped(*old(self), *final(self), i as int, text@),
    {
        let text_len = text.as_bytes().len();
        if text_len > 0xFFFF_FFFB || self.next_buffer as u64 + 5 + text_len as u64 > 0x1_0000_0000 {
            return Err(SwapError::AddressSpaceExhausted);
        }
        let ghost s0 = *self;
        let address = self.next_buffer as u32;
        let bytes = string_to_gmpointer(text);
        let total = bytes.len() as u64;
        assert(string_entry_ok(self.mem, self.strings@[i as int], self.next_buffer));
        let e = &self.strings[i];
        self.mem.write_u32(e.primary_slot, address.wrapping_sub(e.offset_correction));
        let entry = StringEntry {
            primary_slot: e.primary_slot,
            offset_correction: e.offset_correction,
            resolved_address: e.resolved_address,
            text: e.text.clone(),
            swapped_buffer: Some(SwapBuffer { address, bytes }),
        };
        self.strings.set(i, entry);
        self.next_buffer = self.next_buffer + total;
        proof {
            assert(address as int == s0.next_buffer);
            assert(buffer_ok(self.strings@[i as int].swapped_buffer, self.next_buffer));
            assert forall|j: int| 0 <= j < self.strings@.len() && j != i implies self.strings@[j] == s0.strings@[j] by {}
            let w = seq![self.mem.patches@.last()];
            assert(self.mem.patches@ =~= s0.mem.patches@ + w);
            Self::lemma_keeps_wf(s0, *self, w);
        }
        Ok(())
    }

    /// Points the primary slot of string entry `i` back at its original text
    /// and drops its swap buffer. Without a swap this is a no-op and returns
    /// `false`.
    pub fn restore_string(&mut self, i: usize) -> (r: bool)
        requires
            old(self).wf(),
            i < old(self).strings@.len(),
        ensures
            final(self).wf(),
            r == old(self).strings@[i as int].swapped_buffer is Some,
            string_restored(*old(self), *final(self), i as int),
    {
        if self.strings[i].swapped_buffer.is_none() {
            return false;
        }
        let ghost s0 = *self;
        assert(string_entry_ok(self.mem, self.strings@[i as int], self.next_buffer));
        let e = &self.strings[i];
        self.mem.write_u32(e.primary_slot, e.resolved_address.wrapping_sub(e.offset_correction));
        let entry = StringEntry {
            primary_slot: e.primary_slot,
            offset_correction: e.offset_correction,
            resolved_address: e.resolved_address,
            text: e.text.clone(),
            swapped_buffer: None,
        };
        self.strings.set(i, entry);
        proof {
            let w = seq![self.mem.patches@.last()];
            assert(self.mem.patches@ =~= s0.mem.patches@ + w);
            Self::lemma_keeps_wf(s0, *self, w);
        }
        true
    }

    /// The text string entry `i` currently presents: its swap buffer's record,
    /// decoded, else the text read at resolution.
    pub fn current_text(&self, i: usize) -> (r: Option<String>)
        requires
            i < self.strings@.len(),
        ensures
            r is Some <==> string_text(*self, i as int) is Some,
            r is Some ==> r->0@ == string_text(*self, i as int)->0,
    {
        let e = &self.strings[i];
        match &e.swapped_buffer {
            Some(b) => decode_record(b.bytes.as_slice()),
            None => Some(e.text.clone()),
        }
    }

    /// Installs `texts[k]` as the content of string entry `k`, for each `k`
    /// below both lengths, in order; texts beyond the catalog are ignored.
    /// Succeeds, returning how many were installed, exactly where all their
    /// records fit below 4 GiB. Otherwise it stops at the first record that
    /// does not fit, with the entries before it swapped and the rest as they
    /// were.
    pub fn import_texts(&mut self, texts: &Vec<String>) -> (r: Result<usize, SwapError>)
        requires
            old(self).wf(),
        ensures
            final(self).wf(),
            r is Ok <==> old(self).next_buffer + records_room(texts@, import_count(*old(self), texts@))
                <= 0x1_0000_0000,
            r matches Ok(m) ==> m == import_count(*old(self), texts@) && texts_imported(
                *old(self),
                *final(self),
                texts@,
                m as int,
            ),
            r is Err ==> exists|k: int|
                0 <= k < import_count(*old(self), texts@) && texts_imported(
                    *old(self),
                    *final(self),
                    texts@,
                    k,
                ) && old(self).next_buffer + #[trigger] records_room(texts@, k + 1) > 0x1_0000_0000,
    {
        let ghost s0 = *self;
        let n = if texts.len() < self.strings.len() { texts.len() } else { self.strings.len() };
        assert(n == import_count(s0, texts@));
        assert(texts_imported(s0, *self, texts@, 0)) by {
            assert(s0.mem.patches@ + import_writes(s0, texts@, 0) =~= s0.mem.patches@);
        }
        let mut k: usize = 0;
        while k < n
            invariant
                s0 == *old(self),
                self.wf(),
                k <= n,
                n == import_count(s0, texts@),
                texts_imported(s0, *self, texts@, k as int),
            decreases n - k,
        {
            let ghost before = *self;
            assert(before.strings@[k as int] == s0.strings@[k as int]);
            match self.swap_string(k, texts[k].as_str()) {
                Ok(()) => {},
                Err(e) => {
                    proof {
                        lemma_room_grows(texts@, k + 1, n as int);
                    }
                    return Err(e);
                },
            }
            proof {
                let t = texts@[k as int]@;
                assert(encode_record(t).len() == record_room(t));
                assert(import_writes(s0, texts@, k + 1) =~= import_writes(s0, texts@, k as int).push(
                    Patch {
                        address: s0.strings@[k as int].primary_slot,
                        value: (before.next_buffer as u32).wrapping_sub(s0.strings@[k as int].offset_correction),
                    },
                ));
                assert(self.mem.patches@ =~= s0.mem.patches@ + import_writes(s0, texts@, k + 1));
                assert forall|j: int| 0 <= j < k + 1 implies import_entry(s0, *self, texts@, j, #[trigger] self.strings@[j]) by {
                    if j < k {
                        assert(self.strings@[j] == before.strings@[j]);
                        assert(import_entry(s0, before, texts@, j, before.strings@[j]));
                    }
                }
                assert forall|j: int| k + 1 <= j < s0.strings@.len() implies #[trigger] self.strings@[j] == s0.strings@[j] by {
                    assert(self.strings@[j] == before.strings@[j]);
                }
            }
            k += 1;
        }
        Ok(n)
    }

    /// Restores every string entry, in order; returns how many held a swap.
    pub fn restore_all_strings(&mut self) -> (r: usize)
        requires
            old(self).wf(),
        ensures
            final(self).wf(),
            final(self).music == old(self).music,
            final(self).mem.regions == old(self).mem.regions,
            final(self).next_buffer == old(self).next_buffer,
            final(self).mem.patches@ == old(self).mem.patches@ + restore_writes(
                old(self).strings@,
                old(self).strings@.len() as int,
            ),
            final(self).strings@.len() == old(self).strings@.len(),
            r == count_swapped(old(self).strings@, old(self).strings@.len() as int),
            forall|k: int| 0 <= k < old(self).strings@.len() ==> same_string_entry_but_buffer(
                old(self).strings@[k],
                #[trigger] final(self).strings@[k],
                None,
            ),
    {
        let ghost s0 = *self;
        let mut count: usize = 0;
        let mut k: usize = 0;
        assert(s0.mem.patches@ + restore_writes(s0.strings@, 0) =~= s0.mem.patches@);
        while k < self.strings.len()
            invariant
                s0 == *old(self),
                self.wf(),
                k <= self.strings@.len(),
                count == count_swapped(s0.strings@, k as int),
                count <= k,
                self.music == s0.music,
                self.mem.regions == s0.mem.regions,
                self.next_buffer == s0.next_buffer,
                self.mem.patches@ == s0.mem.patches@ + restore_writes(s0.strings@, k as int),
                self.strings@.len() == s0.strings@.len(),
                forall|j: int| 0 <= j < k ==> same_string_entry_but_buffer(s0.strings@[j], #[trigger] self.strings@[j], None),
                forall|j: int| k <= j < s0.strings@.len() ==> #[trigger] self.strings@[j] == s0.strings@[j],
            decreases self.strings@.len() - k,
        {
            let ghost before = *self;
            assert(self.strings@[k as int] == s0.strings@[k as int]);
            if self.restore_string(k) {
                count += 1;
            }
            proof {
                assert(self.mem.patches@ =~= s0.mem.patches@ + restore_writes(s0.strings@, k + 1));
                assert forall|j: int| 0 <= j < k + 1 implies same_string_entry_but_buffer(s0.strings@[j], #[trigger] self.strings@[j], None) by {
                    if j < k {
                        assert(self.strings@[j] == before.strings@[j]);
                    }
                }
                assert forall|j: int| k + 1 <= j < s0.strings@.len() implies #[trigger] self.strings@[j] == s0.strings@[j] by {
                    assert(self.strings@[j] == before.strings@[j]);
                }
            }
            k += 1;
        }
        count
    }

    /// Writes `value` at `slot` where the slot was located.
    fn write_slot(mem: &mut AddressSpace, slot: Option<u32>, value: u32)
        requires
            slot_ok(*old(mem), slot),
        ensures
            final(mem).regions == old(mem).regions,
            final(mem).patches@ == old(mem).patches@ + slot_write(slot, value),
    {
        match slot {
            Some(a) => mem.write_u32(a, value),
            None => {
                assert(mem.patches@ + slot_write(slot, value) =~= mem.patches@);
            },
        }
    }

    /// Points every located slot of `e` at `target`, with `size` payload bytes.
    fn point_music_entry(mem: &mut AddressSpace, e: &MusicEntry, target: u32, size: u32)
        requires
            old(mem).readable(e.primary_slot as int, 4),
            slot_ok(*old(mem), e.secondary_slot),
            slot_ok(*old(mem), e.secondary_slot_2),
            slot_ok(*old(mem), e.secondary_size_slot),
        ensures
            final(mem).regions == old(mem).regions,
            final(mem).patches@ == old(mem).patches@ + pointing_writes(*e, target, size),
    {
        let ghost m0 = *mem;
        mem.write_u32(e.primary_slot, target.wrapping_sub(e.offset_correction));
        let ghost m1 = *mem;
        proof {
            let x = seq![m1.patches@.last()];
            assert(m1.patches@ =~= m0.patches@ + x);
            Self::lemma_slot_kept(m0, m1, x, e.secondary_slot);
            Self::lemma_slot_kept(m0, m1, x, e.secondary_slot_2);
            Self::lemma_slot_kept(m0, m1, x, e.secondary_size_slot);
        }
        Self::write_slot(mem, e.secondary_slot, target);
        let ghost m2 = *mem;
        proof {
            let x = slot_write(e.secondary_slot, target);
            Self::lemma_slot_kept(m1, m2, x, e.secondary_slot_2);
            Self::lemma_slot_kept(m1, m2, x, e.secondary_size_slot);
        }
        Self::write_slot(mem, e.secondary_slot_2, target.wrapping_add(4));
        proof {
            let x = slot_write(e.secondary_slot_2, target.wrapping_add(4));
            Self::lemma_slot_kept(m2, *mem, x, e.secondary_size_slot);
        }
        Self::write_slot(mem, e.secondary_size_slot, size);
        assert(mem.patches@ =~= m0.patches@ + pointing_writes(*e, target, size));
    }

    proof fn lemma_slot_kept(m1: AddressSpace, m2: AddressSpace, extra: Seq<Patch>, slot: Option<u32>)
        requires
            m2.regions == m1.regions,
            m2.patches@ == m1.patches@ + extra,
            slot_ok(m1, slot),
        ensures
            slot_ok(m2, slot),
    {
        if let Some(a) = slot {
            lemma_writes_keep_readable(m1, m2, extra, a as int, 4);
        }
    }
}


/// The text that string entry `i` currently presents: its swap buffer's
/// record, decoded, else the text read at resolution.
pub open spec fn string_text(idx: ResourceIndex, i: int) -> Option<Seq<char>> {
    let e = idx.strings@[i];
    match e.swapped_buffer {
        Some(b) => record_text(b.bytes@),
        None => Some(e.text@),
    }
}

/// `b` is the swap of string entry `i` of `a` to `text`: a buffer at
/// `a.next_buffer` holds the text's record, the primary slot points at it,
/// and nothing else changed.
pub open spec fn string_swapped(a: ResourceIndex, b: ResourceIndex, i: int, text: Seq<char>) -> bool {
    let e = a.strings@[i];
    let buf = SwapBuffer { address: a.next_buffer as u32, bytes: b.strings@[i].swapped_buffer->0.bytes };
    &&& b.mem.regions == a.mem.regions
    &&& b.mem.patches@ == a.mem.patches@.push(
        Patch { address: e.primary_slot, value: (a.next_buffer as u32).wrapping_sub(e.offset_correction) },
    )
    &&& b.strings@.len() == a.strings@.len()
    &&& same_string_entry_but_buffer(e, b.strings@[i], Some(buf))
    &&& buf.bytes@ == encode_record(text)
    &&& forall|j: int| 0 <= j < a.strings@.len() && j != i ==> b.strings@[j] == a.strings@[j]
    &&& b.music == a.music
    &&& b.next_buffer == a.next_buffer + buf.bytes@.len()
    &&& b.next_buffer <= 0x1_0000_0000
}

/// The room the record of `t` takes: length prefix, UTF-8 bytes, terminator.
pub open spec fn record_room(t: Seq<char>) -> int {
    5 + encode_utf8(t).len() as int
}

/// The room the records of the first `k` texts take together.
pub open spec fn records_room(texts: Seq<String>, k: int) -> int
    decreases k,
{
    if k <= 0 {
        0
    } else {
        records_room(texts, k - 1) + record_room(texts[k - 1]@)
    }
}

/// How many texts an import of `texts` into `a` installs.
pub open spec fn import_count(a: ResourceIndex, texts: Seq<String>) -> int {
    if texts.len() < a.strings@.len() {
        texts.len() as int
    } else {
        a.strings@.len() as int
    }
}

/// The primary-slot writes that installing the first `m` texts issues, one
/// per text, each pointing at that text's buffer.
pub open spec fn import_writes(a: ResourceIndex, texts: Seq<String>, m: int) -> Seq<Patch> {
    Seq::new(
        m as nat,
        |j: int|
            Patch {
                address: a.strings@[j].primary_slot,
                value: ((a.next_buffer + records_room(texts, j)) as u32).wrapping_sub(
                    a.strings@[j].offset_correction,
                ),
            },
    )
}

/// `e` is string entry `j` of `a` with the record of `texts[j]` installed.
pub open spec fn import_entry(a: ResourceIndex, b: ResourceIndex, texts: Seq<String>, j: int, e: StringEntry) -> bool {
    let buf = SwapBuffer {
        address: (a.next_buffer + records_room(texts, j)) as u32,
        bytes: e.swapped_buffer->0.bytes,
    };
    &&& same_string_entry_but_buffer(a.strings@[j], e, Some(buf))
    &&& buf.bytes@ == encode_record(texts[j]@)
}

/// `b` is `a` with the first `m` texts installed, in order, and nothing else
/// changed.
pub open spec fn texts_imported(a: ResourceIndex, b: ResourceIndex, texts: Seq<String>, m: int) -> bool {
    &&& 0 <= m <= import_count(a, texts)
    &&& b.mem.regions == a.mem.regions
    &&& b.mem.patches@ == a.mem.patches@ + import_writes(a, texts, m)
    &&& b.music == a.music
    &&& b.strings@.len() == a.strings@.len()
    &&& forall|j: int| 0 <= j < m ==> import_entry(a, b, texts, j, #[trigger] b.strings@[j])
    &&& forall|j: int| m <= j < a.strings@.len() ==> #[trigger] b.strings@[j] == a.strings@[j]
    &&& b.next_buffer == a.next_buffer + records_room(texts, m)
}

/// The primary-slot writes that restoring the first `n` string entries
/// issues: one back to the original, in relative form, per entry that held a
/// buffer.
pub open spec fn restore_writes(entries: Seq<StringEntry>, n: int) -> Seq<Patch>
    decreases n,
{
    if n <= 0 {
        seq![]
    } else {
        let e = entries[n - 1];
        restore_writes(entries, n - 1) + if e.swapped_buffer is Some {
            seq![Patch { address: e.primary_slot, value: e.resolved_address.wrapping_sub(e.offset_correction) }]
        } else {
            seq![]
        }
    }
}

proof fn lemma_room_grows(texts: Seq<String>, j: int, k: int)
    requires
        0 <= j <= k,
    ensures
        records_room(texts, j) <= records_room(texts, k),
    decreases k - j,
{
    if j < k {
        lemma_room_grows(texts, j, k - 1);
    }
}

/// How many of the first `n` string entries hold a swap buffer.
pub open spec fn count_swapped(entries: Seq<StringEntry>, n: int) -> int
    decreases n,
{
    if n <= 0 {
        0
    } else {
        count_swapped(entries, n - 1) + if entries[n - 1].swapped_buffer is Some { 1int } else { 0int }
    }
}

/// `b` is `a` after restoring string entry `i`.
pub open spec fn string_restored(a: ResourceIndex, b: ResourceIndex, i: int) -> bool {
    let e = a.strings@[i];
    &&& b.mem.regions == a.mem.regions
    &&& b.strings@.len() == a.strings@.len()
    &&& forall|j: int| 0 <= j < a.strings@.len() && j != i ==> b.strings@[j] == a.strings@[j]
    &&& b.music == a.music
    &&& b.next_buffer == a.next_buffer
    &&& if e.swapped_buffer is Some {
        &&& b.mem.patches@ == a.mem.patches@.push(
            Patch { address: e.primary_slot, value: e.resolved_address.wrapping_sub(e.offset_correction) },
        )
        &&& same_string_entry_but_buffer(e, b.strings@[i], None)
    } else {
        &&& b.mem.patches == a.mem.patches
        &&& b.strings@[i] == e
    }
}

proof fn lemma_patched_none(ps: Seq<Patch>, extra: Seq<Patch>, a: int)
    requires
        patched_byte(ps + extra, a) is None,
    ensures
        patched_byte(ps, a) is None,
    decreases extra.len(),
{
    if extra.len() == 0 {
        assert(ps + extra =~= ps);
    } else {
        assert((ps + extra).drop_last() =~= ps + extra.drop_last());
        lemma_patched_none(ps, extra.drop_last(), a);
    }
}

/// Writes never unmap a byte.
pub proof fn lemma_writes_keep_readable(m1: AddressSpace, m2: AddressSpace, extra: Seq<Patch>, a: int, n: int)
    requires
        m2.regions == m1.regions,
        m2.patches@ == m1.patches@ + extra,
        m1.readable(a, n),
    ensures
        m2.readable(a, n),
{
    assert forall|k: int| 0 <= k < n implies (#[trigger] m2.byte_at(a + k)).is_some() by {
        assert(m1.byte_at(a + k).is_some());
        if patched_byte(m2.patches@, a + k) is None {
            lemma_patched_none(m1.patches@, extra, a + k);
        }
    }
}

proof fn lemma_patched_outside(ps: Seq<Patch>, extra: Seq<Patch>, a: int)
    requires
        forall|k: int| 0 <= k < extra.len() ==> !patch_covers(#[trigger] extra[k], a),
    ensures
        patched_byte(ps + extra, a) == patched_byte(ps, a),
    decreases extra.len(),
{
    if extra.len() == 0 {
        assert(ps + extra =~= ps);
    } else {
        assert((ps + extra).drop_last() =~= ps + extra.drop_last());
        assert(!patch_covers(extra[extra.len() - 1], a));
        lemma_patched_outside(ps, extra.drop_last(), a);
    }
}

/// No located slot of `e` overlaps the bytes of its original payload.
pub open spec fn slots_clear_of_payload(e: MusicEntry) -> bool {
    let lo = e.resolved_address + 4;
    let hi = e.resolved_address + 4 + e.original_size;
    let clear = |s: u32| s + 4 <= lo || s >= hi;
    &&& clear(e.primary_slot)
    &&& (e.secondary_slot matches Some(s) ==> clear(s))
    &&& (e.secondary_slot_2 matches Some(s) ==> clear(s))
    &&& (e.secondary_size_slot matches Some(s) ==> clear(s))
}

/// After a swap, the entry presents exactly the new payload.
pub proof fn lemma_swap_then_read(a: ResourceIndex, b: ResourceIndex, i: int, payload: Seq<u8>)
    requires
        0 <= i < a.music@.len(),
        music_swapped(a, b, i, payload),
    ensures
        music_bytes(b, i) == Some(payload),
{
    let bytes = b.music@[i].swapped_buffer->0.bytes@;
    assert(bytes.skip(4) =~= payload);
}

/// After two swaps of one entry it holds one buffer, the second, and presents
/// the second payload; no entry of the catalog holds the first buffer any more.
pub proof fn lemma_swap_twice(
    a: ResourceIndex,
    b: ResourceIndex,
    c: ResourceIndex,
    i: int,
    first_payload: Seq<u8>,
    second_payload: Seq<u8>,
)
    requires
        a.wf(),
        0 <= i < a.music@.len(),
        music_swapped(a, b, i, first_payload),
        music_swapped(b, c, i, second_payload),
    ensures
        c.music@[i].swapped_buffer is Some,
        c.music@[i].swapped_buffer->0.bytes@ == music_buffer_bytes(second_payload),
        music_bytes(c, i) == Some(second_payload),
        forall|j: int|
            0 <= j < c.music@.len() && (#[trigger] c.music@[j]).swapped_buffer is Some
                ==> c.music@[j].swapped_buffer->0.address != b.music@[i].swapped_buffer->0.address,
        forall|j: int|
            0 <= j < c.strings@.len() && (#[trigger] c.strings@[j]).swapped_buffer is Some
                ==> c.strings@[j].swapped_buffer->0.address != b.music@[i].swapped_buffer->0.address,
{
    lemma_swap_then_read(b, c, i, second_payload);
    let first = b.music@[i].swapped_buffer->0.address;
    assert(first == a.next_buffer);
    assert(c.music@[i].swapped_buffer->0.address == b.next_buffer);
    assert forall|j: int|
        0 <= j < c.music@.len() && (#[trigger] c.music@[j]).swapped_buffer is Some implies
            c.music@[j].swapped_buffer->0.address != first by {
        if j != i {
            assert(c.music@[j] == a.music@[j]);
            assert(music_entry_ok(a.mem, a.music@[j], a.next_buffer));
        }
    }
    assert forall|j: int|
        0 <= j < c.strings@.len() && (#[trigger] c.strings@[j]).swapped_buffer is Some implies
            c.strings@[j].swapped_buffer->0.address != first by {
        assert(string_entry_ok(a.mem, a.strings@[j], a.next_buffer));
    }
}

/// Swapping and then restoring an entry brings back its original bytes and
/// leaves it without a buffer, provided its slots lie outside its payload.
pub proof fn lemma_swap_then_restore(a: ResourceIndex, b: ResourceIndex, c: ResourceIndex, i: int, p: Seq<u8>)
    requires
        0 <= i < a.music@.len(),
        slots_clear_of_payload(a.music@[i]),
        music_swapped(a, b, i, p),
        music_restored(b, c, i),
    ensures
        c.music@[i].swapped_buffer is None,
        music_bytes(c, i) == original_music_bytes(a.mem, a.music@[i]),
{
    let e = a.music@[i];
    let extra = pointing_writes(e, a.next_buffer as u32, p.len() as u32) + pointing_writes(
        b.music@[i],
        e.resolved_address,
        e.original_size,
    );
    assert(c.mem.patches@ =~= a.mem.patches@ + extra);
    let lo = e.resolved_address + 4;
    let n = e.original_size as int;
    assert forall|k: int| 0 <= k < n implies #[trigger] c.mem.byte_at(lo + k) == a.mem.byte_at(lo + k) by {
        assert forall|m: int| 0 <= m < extra.len() implies !patch_covers(#[trigger] extra[m], lo + k) by {}
        lemma_patched_outside(a.mem.patches@, extra, lo + k);
    }
    if a.mem.readable(lo, n) {
        assert(c.mem.readable(lo, n));
        assert(c.mem.bytes_at(lo, n as nat) =~= a.mem.bytes_at(lo, n as nat));
    } else if c.mem.readable(lo, n) {
        assert forall|k: int| 0 <= k < n implies (#[trigger] a.mem.byte_at(lo + k)).is_some() by {
            assert(c.mem.byte_at(lo + k).is_some());
        }
    }
}

/// Restoring an entry that holds no swap buffer changes nothing: no write is
/// issued and the catalog stays as it was.
pub proof fn lemma_restore_unswapped(a: ResourceIndex, b: ResourceIndex, i: int)
    requires
        0 <= i < a.music@.len(),
        a.music@[i].swapped_buffer is None,
        music_restored(a, b, i),
    ensures
        b.mem.patches == a.mem.patches,
        b.mem.regions == a.mem.regions,
        b.music@ == a.music@,
        b.strings == a.strings,
        b.next_buffer == a.next_buffer,
{
    assert(b.music@ =~= a.music@);
}

/// A swap of an entry whose secondary slots were never located writes the
/// primary slot alone: no other address is written.
pub proof fn lemma_unlocated_slots_unwritten(a: ResourceIndex, b: ResourceIndex, i: int, p: Seq<u8>)
    requires
        0 <= i < a.music@.len(),
        a.music@[i].secondary_slot is None,
        a.music@[i].secondary_slot_2 is None,
        a.music@[i].secondary_size_slot is None,
        music_swapped(a, b, i, p),
    ensures
        b.mem.patches@.len() == a.mem.patches@.len() + 1,
        b.mem.patches@.last().address == a.music@[i].primary_slot,
{
    let e = a.music@[i];
    assert(pointing_writes(e, a.next_buffer as u32, p.len() as u32) =~= seq![
        Patch { address: e.primary_slot, value: (a.next_buffer as u32).wrapping_sub(e.offset_correction) },
    ]);
}

/// After a swap of a string entry to a text without a null character, the
/// entry presents exactly that text.
pub proof fn lemma_string_swap_then_read(a: ResourceIndex, b: ResourceIndex, i: int, text: Seq<char>)
    requires
        0 <= i < a.strings@.len(),
        forall|k: int| 0 <= k < text.len() ==> #[trigger] text[k] != '\0',
        string_swapped(a, b, i, text),
    ensures
        string_text(b, i) == Some(text),
{
    assert(encode_record(text).len() == 5 + encode_utf8(text).len());
    lemma_text_round_trip(text);
}

/// Swapping a string entry and then restoring it brings back the text read at
/// resolution and leaves the entry without a buffer.
pub proof fn lemma_string_swap_then_restore(a: ResourceIndex, b: ResourceIndex, c: ResourceIndex, i: int, text: Seq<char>)
    requires
        0 <= i < a.strings@.len(),
        string_swapped(a, b, i, text),
        string_restored(b, c, i),
    ensures
        c.strings@[i].swapped_buffer is None,
        string_text(c, i) == Some(a.strings@[i].text@),
{
}

} // verus!
