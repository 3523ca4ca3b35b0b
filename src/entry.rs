//! The records of the resource catalog.
use vstd::prelude::*;

verus! {

/// A replacement buffer owned by the catalog, laid out as
/// `[4-byte little-endian length][payload]` (text adds a trailing null byte).
/// The runtime is pointed at `address`.
pub struct SwapBuffer {
    pub address: u32,
    pub bytes: Vec<u8>,
}

/// One audio resource, resolved from a fixed-count table.
///
/// The runtime keeps `resolved_address - offset_correction` at `primary_slot`;
/// the payload's length lies at `resolved_address`, its bytes right after.
/// The secondary slots are heap copies of the pointer/size pair, `None` until
/// located.
pub struct MusicEntry {
    pub primary_slot: u32,
    pub offset_correction: u32,
    pub resolved_address: u32,
    pub original_size: u32,
    pub secondary_slot: Option<u32>,
    pub secondary_slot_2: Option<u32>,
    pub secondary_size_slot: Option<u32>,
    pub swapped_buffer: Option<SwapBuffer>,
}

/// One text resource, resolved from a sentinel-terminated table. `text` is the
/// original string as read at resolution, never changed afterwards.
pub struct StringEntry {
    pub primary_slot: u32,
    pub offset_correction: u32,
    pub resolved_address: u32,
    pub text: String,
    pub swapped_buffer: Option<SwapBuffer>,
}

impl MusicEntry {
    /// An entry with no secondary slot located and no swap installed.
    pub fn new(primary_slot: u32, offset_correction: u32, resolved_address: u32, original_size: u32) -> (r:
        MusicEntry)
        ensures
            r.primary_slot == primary_slot,
            r.offset_correction == offset_correction,
            r.resolved_address == resolved_address,
            r.original_size == original_size,
            r.secondary_slot is None,
            r.secondary_slot_2 is None,
            r.secondary_size_slot is None,
            r.swapped_buffer is None,
    {
        MusicEntry {
            primary_slot,
            offset_correction,
            resolved_address,
            original_size,
            secondary_slot: None,
            secondary_slot_2: None,
            secondary_size_slot: None,
            swapped_buffer: None,
        }
    }
}

} // verus!
