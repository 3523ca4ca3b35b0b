use df_mod_tool::catalog::{ResourceIndex, SwapError};
use df_mod_tool::memory::{AddressSpace, Patch};
use df_mod_tool::resolve::{resolve_catalog, Anchors};
use df_mod_tool::table::{read_c_text, resolve_fixed_table, resolve_string_table, sentinel_count};

const A: u32 = 0x1000;
const S: u32 = 0x3000;
const HEAP: u32 = 0x10_0000;
const EXT: u32 = 0x20_0000;

fn put_u32(bytes: &mut Vec<u8>, at: usize, v: u32) {
    bytes[at..at + 4].copy_from_slice(&v.to_le_bytes());
}

/// Count 2 at A, slots at A+4 and A+8 resolving to A+12 and A+40, with
/// payloads of 4 and 8 bytes.
fn audio_region() -> Vec<u8> {
    let mut b = vec![0u8; 64];
    put_u32(&mut b, 0, 2);
    put_u32(&mut b, 4, 0x100);
    put_u32(&mut b, 8, 0x100 + 28);
    put_u32(&mut b, 12, 4);
    b[16..20].copy_from_slice(&[1, 2, 3, 4]);
    put_u32(&mut b, 40, 8);
    b[44..52].copy_from_slice(&[10, 11, 12, 13, 14, 15, 16, 17]);
    b
}

/// Two text slots and a sentinel that doubles as the first text's length.
fn string_region() -> Vec<u8> {
    let mut b = vec![0u8; 48];
    put_u32(&mut b, 0, 0x200);
    put_u32(&mut b, 4, 0x210);
    put_u32(&mut b, 8, 5);
    b[12..18].copy_from_slice(b"hello\0");
    put_u32(&mut b, 24, 2);
    b[28..31].copy_from_slice(b"hi\0");
    b
}

/// A heap segment holding copies of the second audio entry's pointers.
fn heap_region() -> Vec<u8> {
    let mut b = vec![0u8; 0x10_0004];
    put_u32(&mut b, 0x10, A + 40);
    put_u32(&mut b, 0x20, A + 44);
    put_u32(&mut b, 0x24, 8);
    b
}

/// A region holding an external table of one entry.
fn external_region() -> Vec<u8> {
    let mut b = vec![0u8; 0x1_0000];
    b[0x30..0x34].copy_from_slice(b"FORM");
    put_u32(&mut b, 0x40, 1);
    put_u32(&mut b, 0x44, 7);
    put_u32(&mut b, 0x48, 3);
    b[0x4C..0x4F].copy_from_slice(&[7, 8, 9]);
    b
}

fn memory() -> AddressSpace {
    let mut m = AddressSpace::new();
    m.map_region(A, audio_region());
    m.map_region(S, string_region());
    m.map_region(HEAP, heap_region());
    m.map_region(EXT, external_region());
    m
}

fn anchors() -> Anchors {
    Anchors { music_count: A, music_first_slot: A + 4, string_first_slot: S }
}

fn index() -> ResourceIndex {
    resolve_catalog(memory(), &anchors(), 0x4000_0000).0
}

#[test]
fn fixed_table_two_entries() {
    let m = memory();
    let t = resolve_fixed_table(&m, A, A + 4).unwrap();
    assert_eq!(t.len(), 2);
    assert_eq!(t[0].resolved_address, A + 12);
    assert_eq!(t[1].resolved_address, A + 40);
    assert_eq!(t[0].offset_correction, t[1].offset_correction);
    assert_eq!(t[0].offset_correction, A + 12 - 0x100);
    assert_eq!(t[0].original_size, 4);
    assert_eq!(t[1].original_size, 8);
    assert_eq!(t[0].primary_slot, A + 4);
    assert_eq!(t[1].primary_slot, A + 8);
}

#[test]
fn correction_recomputed_from_any_entry() {
    let m = memory();
    let t = resolve_fixed_table(&m, A, A + 4).unwrap();
    for e in &t {
        let v = m.read_u32(e.primary_slot).unwrap();
        assert_eq!(e.resolved_address.wrapping_sub(v), t[0].offset_correction);
    }
}

#[test]
fn fixed_table_outside_memory_is_not_found() {
    let m = memory();
    assert!(resolve_fixed_table(&m, 0x9000_0000, 0x9000_0004).is_none());
    let mut small = AddressSpace::new();
    let mut b = vec![0u8; 8];
    put_u32(&mut b, 0, 3);
    small.map_region(0x100, b);
    assert!(resolve_fixed_table(&small, 0x100, 0x104).is_none());
}

#[test]
fn empty_fixed_table() {
    let mut m = AddressSpace::new();
    m.map_region(0x100, vec![0u8; 8]);
    assert_eq!(resolve_fixed_table(&m, 0x100, 0x104).unwrap().len(), 0);
}

#[test]
fn sentinel_walk() {
    let m = memory();
    assert_eq!(sentinel_count(&m, S), Some(2));
    let mut low = AddressSpace::new();
    let mut b = vec![0u8; 8];
    put_u32(&mut b, 0, 0x80);
    low.map_region(0x100, b);
    assert_eq!(sentinel_count(&low, 0x100), Some(0));
    let mut runaway = AddressSpace::new();
    runaway.map_region(0x100, vec![0xFFu8; 16]);
    assert_eq!(sentinel_count(&runaway, 0x100), None);
}

#[test]
fn string_table_texts() {
    let m = memory();
    let t = resolve_string_table(&m, S).unwrap();
    assert_eq!(t.len(), 2);
    assert_eq!(t[0].text, "hello");
    assert_eq!(t[1].text, "hi");
    assert_eq!(t[0].resolved_address, S + 8);
    assert_eq!(t[1].resolved_address, S + 24);
    assert_eq!(t[0].offset_correction, t[1].offset_correction);
}

#[test]
fn c_text_lossy_and_unterminated() {
    let mut m = AddressSpace::new();
    m.map_region(0x100, vec![0xFF, b'a', 0, b'x']);
    assert_eq!(read_c_text(&m, 0x100).unwrap(), "\u{FFFD}a");
    assert_eq!(read_c_text(&m, 0x103), None);
}

#[test]
fn catalog_layout() {
    let (idx, groups) = resolve_catalog(memory(), &anchors(), 0x4000_0000);
    assert_eq!(groups, vec![2, 1]);
    assert_eq!(idx.music.len(), 3);
    assert_eq!(idx.music[2].resolved_address, EXT + 0x48);
    assert_eq!(idx.music[2].original_size, 3);
    assert_eq!(idx.strings.len(), 2);
    assert_eq!(idx.music[0].secondary_slot, None);
    assert_eq!(idx.music[0].secondary_slot_2, None);
    assert_eq!(idx.music[1].secondary_slot, Some(HEAP + 0x10));
    assert_eq!(idx.music[1].secondary_slot_2, Some(HEAP + 0x20));
    assert_eq!(idx.music[1].secondary_size_slot, Some(HEAP + 0x24));
}

#[test]
fn catalog_without_tables() {
    let mut m = AddressSpace::new();
    m.map_region(0x100, vec![0u8; 16]);
    let a = Anchors { music_count: 0x9000_0000, music_first_slot: 0x9000_0004, string_first_slot: 0x9000_0100 };
    let (idx, groups) = resolve_catalog(m, &a, 0x4000_0000);
    assert!(groups.is_empty());
    assert!(idx.music.is_empty());
    assert!(idx.strings.is_empty());
}

#[test]
fn original_bytes_read() {
    let idx = index();
    assert_eq!(idx.read_current_bytes(0).unwrap(), vec![1, 2, 3, 4]);
    assert_eq!(idx.read_current_bytes(1).unwrap(), vec![10, 11, 12, 13, 14, 15, 16, 17]);
    assert_eq!(idx.read_current_bytes(2).unwrap(), vec![7, 8, 9]);
}

#[test]
fn swap_then_read_current_bytes() {
    let mut idx = index();
    let payload = vec![5u8, 6, 7, 8, 9, 10];
    idx.swap_music(0, payload.clone()).unwrap();
    assert_eq!(idx.read_current_bytes(0).unwrap(), payload);
    let b = idx.music[0].swapped_buffer.as_ref().unwrap();
    assert_eq!(b.address, 0x4000_0000);
    assert_eq!(b.bytes, vec![6, 0, 0, 0, 5, 6, 7, 8, 9, 10]);
    let m = &idx.mem;
    assert_eq!(m.read_u32(A + 4).unwrap(), 0x4000_0000u32.wrapping_sub(idx.music[0].offset_correction));
}

#[test]
fn swap_twice_keeps_one_buffer() {
    let mut idx = index();
    idx.swap_music(1, vec![1, 1, 1]).unwrap();
    let first = idx.music[1].swapped_buffer.as_ref().unwrap().address;
    idx.swap_music(1, vec![2, 2]).unwrap();
    let second = idx.music[1].swapped_buffer.as_ref().unwrap().address;
    assert_ne!(first, second);
    assert_eq!(second, first + 7);
    assert_eq!(idx.read_current_bytes(1).unwrap(), vec![2, 2]);
    let held = idx.music.iter().filter(|e| e.swapped_buffer.is_some()).count();
    assert_eq!(held, 1);
}

#[test]
fn swap_then_restore_gives_original() {
    let mut idx = index();
    let before = idx.read_current_bytes(1).unwrap();
    idx.swap_music(1, vec![9; 20]).unwrap();
    assert!(idx.restore_music(1));
    assert!(idx.music[1].swapped_buffer.is_none());
    assert_eq!(idx.read_current_bytes(1).unwrap(), before);
    let m = &idx.mem;
    assert_eq!(m.read_u32(A + 8).unwrap(), 0x100 + 28);
    assert_eq!(m.read_u32(HEAP + 0x10).unwrap(), A + 40);
    assert_eq!(m.read_u32(HEAP + 0x20).unwrap(), A + 44);
    assert_eq!(m.read_u32(HEAP + 0x24).unwrap(), 8);
}

#[test]
fn swap_writes_located_secondary_slots() {
    let mut idx = index();
    let n = idx.mem.patches.len();
    idx.swap_music(1, vec![3; 5]).unwrap();
    let corr = idx.music[1].offset_correction;
    let w = &idx.mem.patches[n..];
    assert_eq!(
        w.to_vec(),
        vec![
            Patch { address: A + 8, value: 0x4000_0000u32.wrapping_sub(corr) },
            Patch { address: HEAP + 0x10, value: 0x4000_0000 },
            Patch { address: HEAP + 0x20, value: 0x4000_0004 },
            Patch { address: HEAP + 0x24, value: 5 },
        ]
    );
}

#[test]
fn restore_without_swap_is_noop() {
    let mut idx = index();
    let n = idx.mem.patches.len();
    assert!(!idx.restore_music(0));
    assert_eq!(idx.mem.patches.len(), n);
    assert!(idx.music[0].swapped_buffer.is_none());
    assert_eq!(idx.next_buffer, 0x4000_0000);
}

#[test]
fn unlocated_slots_are_not_written() {
    let mut idx = index();
    let n = idx.mem.patches.len();
    idx.swap_music(0, vec![1, 2]).unwrap();
    assert_eq!(idx.mem.patches.len(), n + 1);
    assert_eq!(idx.mem.patches[n].address, A + 4);
    assert!(idx.mem.patches.iter().all(|p| p.address != 0));
    idx.restore_music(0);
    assert_eq!(idx.mem.patches.len(), n + 2);
    assert_eq!(idx.mem.patches[n + 1].address, A + 4);
    assert_eq!(idx.mem.patches[n + 1].value, 0x100);
}

#[test]
fn swap_fails_when_space_runs_out() {
    let (mut idx, _) = resolve_catalog(memory(), &anchors(), 0xFFFF_FFF0);
    assert_eq!(idx.swap_music(0, vec![0; 12]), Ok(()));
    assert_eq!(idx.swap_music(0, vec![0; 1]), Err(SwapError::AddressSpaceExhausted));
    assert_eq!(idx.read_current_bytes(0).unwrap(), vec![0; 12]);
    assert_eq!(idx.swap_string(0, "x"), Err(SwapError::AddressSpaceExhausted));
}

#[test]
fn string_swap_and_restore() {
    let mut idx = index();
    assert_eq!(idx.current_text(0).unwrap(), "hello");
    idx.swap_string(0, "bye\r\nnow").unwrap();
    assert_eq!(idx.current_text(0).unwrap(), "bye\r\nnow");
    assert_eq!(idx.strings[0].text, "hello");
    let b = idx.strings[0].swapped_buffer.as_ref().unwrap();
    assert_eq!(b.bytes.len(), 4 + 8 + 1);
    assert_eq!(idx.mem.read_u32(S).unwrap(), 0x4000_0000u32.wrapping_sub(idx.strings[0].offset_correction));
    assert!(idx.restore_string(0));
    assert_eq!(idx.current_text(0).unwrap(), "hello");
    assert_eq!(idx.mem.read_u32(S).unwrap(), 0x200);
    assert!(!idx.restore_string(0));
}

#[test]
fn import_and_restore_all_texts() {
    let mut idx = index();
    let texts = vec!["one".to_string(), "two".to_string(), "three".to_string()];
    assert_eq!(idx.import_texts(&texts), Ok(2));
    assert_eq!(idx.current_text(0).unwrap(), "one");
    assert_eq!(idx.current_text(1).unwrap(), "two");
    assert_eq!(idx.restore_all_strings(), 2);
    assert_eq!(idx.current_text(0).unwrap(), "hello");
    assert_eq!(idx.current_text(1).unwrap(), "hi");
    assert_eq!(idx.restore_all_strings(), 0);
}

#[test]
fn empty_index() {
    let idx = ResourceIndex::new(AddressSpace::new(), 0x100);
    assert!(idx.music.is_empty());
    assert_eq!(idx.next_buffer, 0x100);
}

#[test]
fn import_stops_where_room_runs_out() {
    let (mut idx, _) = resolve_catalog(memory(), &anchors(), 0xFFFF_FFF0);
    let n = idx.mem.patches.len();
    let texts = vec!["abcdefghijkl".to_string(), "x".to_string()];
    assert_eq!(idx.import_texts(&texts), Err(SwapError::AddressSpaceExhausted));
    assert_eq!(idx.current_text(0).unwrap(), "hello");
    assert_eq!(idx.mem.patches.len(), n);
    let texts = vec!["abcdef".to_string(), "x".to_string()];
    assert_eq!(idx.import_texts(&texts), Err(SwapError::AddressSpaceExhausted));
    assert_eq!(idx.current_text(0).unwrap(), "abcdef");
    assert_eq!(idx.current_text(1).unwrap(), "hi");
    assert_eq!(idx.mem.patches.len(), n + 1);
    assert_eq!(idx.next_buffer, 0xFFFF_FFFB);
}

#[test]
fn restore_all_writes_back_swapped_entries_only() {
    let mut idx = index();
    idx.swap_string(1, "new").unwrap();
    let n = idx.mem.patches.len();
    let next = idx.next_buffer;
    assert_eq!(idx.restore_all_strings(), 1);
    assert_eq!(idx.mem.patches.len(), n + 1);
    assert_eq!(idx.mem.patches[n].address, S + 4);
    assert_eq!(idx.mem.patches[n].value, 0x210);
    assert_eq!(idx.next_buffer, next);
}
