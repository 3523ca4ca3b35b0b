use df_mod_tool::codec::{decode_record, string_to_gmpointer};
use df_mod_tool::memory::AddressSpace;
use df_mod_tool::search::{contains_text, matching_items, same_text, ListBoxData, StringSearch};
use df_mod_tool::textfile::{export_strings, import_lines, import_strings};

#[test]
fn record_layout() {
    assert_eq!(string_to_gmpointer("ab"), vec![2, 0, 0, 0, b'a', b'b', 0]);
    assert_eq!(string_to_gmpointer(""), vec![0, 0, 0, 0, 0]);
    assert_eq!(string_to_gmpointer("é"), vec![2, 0, 0, 0, 0xC3, 0xA9, 0]);
}

#[test]
fn record_round_trip() {
    for s in ["", "hello", "line\r\nnext\n", "héllo ✓ 漢字"] {
        assert_eq!(decode_record(&string_to_gmpointer(s)).unwrap(), s);
    }
}

#[test]
fn record_decoding_goes_by_terminator() {
    assert_eq!(decode_record(&[9, 0, 0, 0, b'a', 0, b'b', 0]).unwrap(), "a");
    assert_eq!(decode_record(&[1, 0, 0, 0, b'a']), None);
    assert_eq!(decode_record(&[1, 0, 0]), None);
    assert_eq!(decode_record(&[2, 0, 0, 0, 0xFF, b'a', 0]).unwrap(), "\u{FFFD}a");
}

#[test]
fn export_escapes_and_joins() {
    let texts = vec!["a\nb".to_string(), "c\rd".to_string(), String::new()];
    assert_eq!(export_strings(&texts), b"a\\nb\r\nc\\rd\r\n".to_vec());
    assert_eq!(export_strings(&Vec::new()), Vec::<u8>::new());
}

#[test]
fn import_splits_and_unescapes() {
    assert_eq!(import_lines(b"a\\nb\r\nc\\rd"), vec![b"a\nb".to_vec(), b"c\rd".to_vec()]);
    assert_eq!(import_lines(b""), vec![Vec::<u8>::new()]);
    assert_eq!(import_lines(b"x\r\n"), vec![b"x".to_vec(), Vec::new()]);
    assert_eq!(import_lines(b"\\\\r"), vec![b"\\\r".to_vec()]);
}

#[test]
fn export_import_round_trip() {
    let texts = vec!["first\r\nline".to_string(), "plain".to_string(), "é\n".to_string()];
    assert_eq!(import_strings(&export_strings(&texts)), texts);
}

#[test]
fn text_comparisons() {
    assert!(same_text("abc", "abc"));
    assert!(!same_text("abc", "abd"));
    assert!(!same_text("abc", "ab"));
    assert!(contains_text("hello world", "o w"));
    assert!(contains_text("abc", ""));
    assert!(!contains_text("abc", "abcd"));
    assert!(!contains_text("abc", "ac"));
}

#[test]
fn matching_ignores_case() {
    let items = vec!["Hello".to_string(), "world".to_string(), "HELLO there".to_string()];
    assert_eq!(matching_items(&items, "hElLo"), vec![true, false, true]);
}

#[test]
fn search_steps_through_matches() {
    let mut list = ListBoxData {
        item: 1,
        items: vec!["Hello".to_string(), "world".to_string(), "HELLO there".to_string()],
    };
    let mut s = StringSearch::new();
    s.search = "hello".to_string();
    assert_eq!(s.run(&mut list), Some(0));
    assert_eq!(list.item, 0);
    assert_eq!(s.size, 2);
    assert_eq!(s.run(&mut list), Some(2));
    assert_eq!(list.item, 2);
    assert_eq!(s.run(&mut list), Some(0));
    assert_eq!(s.times, 0);
    s.search = "zzz".to_string();
    assert_eq!(s.run(&mut list), None);
    assert_eq!(list.item, 0);
    assert_eq!(s.size, 0);
}

#[test]
fn search_wraps_when_matches_shrink() {
    let mut s = StringSearch { search: "a".to_string(), last: "a".to_string(), times: 4, size: 0 };
    assert_eq!(s.advance(&vec![false, true, true]), Some(1));
    assert_eq!(s.times, 0);
    assert_eq!(s.size, 2);
}

#[test]
fn memory_reads_and_writes() {
    let mut m = AddressSpace::new();
    m.map_region(0x10, vec![1, 2, 3, 4, 5, 6, 7, 8]);
    assert_eq!(m.read_u32(0x10), Some(0x0403_0201));
    assert_eq!(m.read_u32(0x16), None);
    assert_eq!(m.read_byte(0x0F), None);
    m.write_u32(0x12, 0xAABB_CCDD);
    assert_eq!(m.read_bytes(0x10, 8).unwrap(), vec![1, 2, 0xDD, 0xCC, 0xBB, 0xAA, 7, 8]);
    assert_eq!(m.region_bounds(), vec![(0x10, 0x18)]);
}
