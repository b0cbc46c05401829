//! Decoding tests: the fixed envelope, the directory, both element layouts,
//! and each structural error on a buffer that provokes it.

use omadb::parse_table;
use omadb::validate_pair;
use omadb::Axis;
use omadb::ClassKind;
use omadb::DecodeError;
use omadb::IndexViolation;

fn push_u32(out: &mut Vec<u8>, v: u32) {
    out.push((v >> 24) as u8);
    out.push((v >> 16) as u8);
    out.push((v >> 8) as u8);
    out.push(v as u8);
}

fn push_u16_field(out: &mut Vec<u8>, v: u16) {
    out.push(0);
    out.push(0);
    out.push((v >> 8) as u8);
    out.push(v as u8);
}

fn push_u16(out: &mut Vec<u8>, v: u16) {
    out.push((v >> 8) as u8);
    out.push(v as u8);
}

fn header(name: &[u8; 4], class_count: u8) -> Vec<u8> {
    let mut out = Vec::new();
    out.extend_from_slice(name);
    push_u32(&mut out, 0x01010000);
    out.push(class_count);
    while out.len() < 16 {
        out.push(0);
    }
    out
}

fn description(out: &mut Vec<u8>, name: &[u8; 4], address: u32, len: u32) {
    out.extend_from_slice(name);
    push_u32(out, address);
    push_u32(out, len);
    push_u32(out, 0);
}

fn pad_to(out: &mut Vec<u8>, address: usize) {
    while out.len() < address {
        out.push(0);
    }
}

/// A `TREE` table with one GPLB class of 3 elements at 0x30 and one TPLB
/// class of the titles 1 through 9 at 0x4040.
fn tree_buffer_with(third_group: (u16, u16, u16)) -> Vec<u8> {
    let mut out = header(b"TREE", 2);
    description(&mut out, b"GPLB", 0x30, 0x4010);
    description(&mut out, b"TPLB", 0x4040, 9 * 2 + 16);
    pad_to(&mut out, 0x30);
    out.extend_from_slice(b"GPLB");
    push_u16_field(&mut out, 3);
    push_u16_field(&mut out, 8);
    for (id, association, title_id) in [(1u16, 0x0100u16, 1u16), (2, 0x0100, 3), third_group] {
        push_u16_field(&mut out, id);
        push_u16_field(&mut out, association);
        push_u16_field(&mut out, title_id);
        out.push(0);
        out.push(0);
    }
    pad_to(&mut out, 0x4040);
    out.extend_from_slice(b"TPLB");
    push_u16_field(&mut out, 9);
    push_u16_field(&mut out, 2);
    for title_id in 1u16..=9 {
        push_u16(&mut out, title_id);
    }
    out
}

fn tree_buffer() -> Vec<u8> {
    tree_buffer_with((3, 0x0000, 0))
}

#[test]
fn empty_table_decodes() {
    let buffer = header(b"GTLT", 0);
    let table = parse_table(&buffer).unwrap();
    assert_eq!(table.name, b"GTLT".to_vec());
    assert_eq!(table.class_count, 0);
    assert!(table.class_descriptions.is_empty());
    assert!(table.classes.is_empty());
}

#[test]
fn tree_table_decodes_exactly() {
    let buffer = tree_buffer();
    let table = parse_table(&buffer).unwrap();
    assert_eq!(table.name, b"TREE".to_vec());
    assert_eq!(table.class_count, 2);
    assert_eq!(table.class_descriptions.len(), 2);
    assert_eq!(table.classes.len(), 2);

    assert_eq!(table.class_descriptions[0].name, b"GPLB".to_vec());
    assert_eq!(table.class_descriptions[0].address, 0x30);
    assert_eq!(table.class_descriptions[0].len, 0x4010);
    assert_eq!(table.class_descriptions[1].name, b"TPLB".to_vec());
    assert_eq!(table.class_descriptions[1].address, 0x4040);
    assert_eq!(table.class_descriptions[1].len, 34);

    let gplb = &table.classes[0];
    assert_eq!(gplb.name, b"GPLB".to_vec());
    assert_eq!(gplb.element_count, 3);
    assert_eq!(gplb.element_length, 8);
    match &gplb.kind {
        ClassKind::Gplb(es) => {
            assert_eq!(es.len(), 3);
            assert_eq!((es[0].id, es[0].association, es[0].title_id), (1, 0x0100, 1));
            assert_eq!((es[1].id, es[1].association, es[1].title_id), (2, 0x0100, 3));
            assert_eq!((es[2].id, es[2].association, es[2].title_id), (3, 0x0000, 0));
        }
        ClassKind::Tplb(_) => panic!("first class must be a group listing"),
    }

    let tplb = &table.classes[1];
    assert_eq!(tplb.name, b"TPLB".to_vec());
    assert_eq!(tplb.element_count, 9);
    assert_eq!(tplb.element_length, 2);
    match &tplb.kind {
        ClassKind::Tplb(es) => {
            let titles: Vec<u16> = es.iter().map(|e| e.title_id).collect();
            assert_eq!(titles, vec![1, 2, 3, 4, 5, 6, 7, 8, 9]);
        }
        ClassKind::Gplb(_) => panic!("second class must be a track listing"),
    }
}

#[test]
fn element_count_sits_in_low_half_of_its_slot() {
    // The count slot holds garbage in its reserved upper half; the decoder
    // must take the low 16 bits (here 1), not the upper ones (here 2).
    let mut buffer = header(b"TREE", 1);
    description(&mut buffer, b"TPLB", 0x20, 0);
    buffer.extend_from_slice(b"TPLB");
    buffer.push(0x00);
    buffer.push(0x02);
    buffer.push(0x00);
    buffer.push(0x01);
    push_u16_field(&mut buffer, 2);
    push_u16(&mut buffer, 77);
    let table = parse_table(&buffer).unwrap();
    assert_eq!(table.classes[0].element_count, 1);
    match &table.classes[0].kind {
        ClassKind::Tplb(es) => {
            assert_eq!(es.len(), 1);
            assert_eq!(es[0].title_id, 77);
        }
        ClassKind::Gplb(_) => panic!("the class must be a track listing"),
    }
}

#[test]
fn decoded_tree_pair_validates() {
    let table = parse_table(&tree_buffer()).unwrap();
    let (ClassKind::Gplb(gplb), ClassKind::Tplb(tplb)) = (&table.classes[0].kind, &table.classes[1].kind)
    else {
        panic!("the tree table must decode to a group listing and a track listing");
    };
    assert!(validate_pair(Axis::UploadOrder, gplb, tplb).is_ok());
}

#[test]
fn decoded_dangling_reference_is_flagged() {
    // The same table, but the third group entry claims to be in use with its
    // first track at position 99 of a 9-track listing.
    let table = parse_table(&tree_buffer_with((3, 0x0100, 99))).unwrap();
    let (ClassKind::Gplb(gplb), ClassKind::Tplb(tplb)) = (&table.classes[0].kind, &table.classes[1].kind)
    else {
        panic!("the tree table must decode to a group listing and a track listing");
    };
    let f = validate_pair(Axis::UploadOrder, gplb, tplb).unwrap_err();
    assert_eq!(f.detail, IndexViolation::TitleIdOutOfRange { index: 2, title_id: 99 });
}

#[test]
fn empty_buffer_underruns() {
    let r = parse_table(&[]);
    assert_eq!(r.unwrap_err(), DecodeError::BufferUnderrun { requested: 4, remaining: 0 });
}

#[test]
fn short_header_underruns() {
    // Ten bytes: the name and the marker fit, the count fits, the skip to
    // offset 16 asks for 7 bytes with only 1 left.
    let mut buffer = header(b"TREE", 0);
    buffer.truncate(10);
    let r = parse_table(&buffer);
    assert_eq!(r.unwrap_err(), DecodeError::BufferUnderrun { requested: 7, remaining: 1 });
}

#[test]
fn truncation_anywhere_underruns() {
    let buffer = tree_buffer();
    for cut in [3, 7, 8, 15, 16, 20, 47, 0x30, 0x35, 0x40, 0x4040, 0x4045, buffer.len() - 1] {
        let r = parse_table(&buffer[..cut]);
        match r {
            Err(DecodeError::BufferUnderrun { .. }) => {}
            other => panic!("cut at {} must underrun, got {:?}", cut, other),
        }
    }
}

#[test]
fn corrupt_magic_reports_both_values() {
    let mut buffer = tree_buffer();
    buffer[7] = 0x5a;
    let r = parse_table(&buffer);
    assert_eq!(
        r.unwrap_err(),
        DecodeError::MagicMismatch { expected: 0x01010000, actual: 0x0101005a },
    );
}

#[test]
fn unknown_class_tag_is_reported() {
    let mut buffer = header(b"TREE", 1);
    description(&mut buffer, b"XXXX", 0x20, 0x10);
    buffer.extend_from_slice(b"XXXX");
    push_u16_field(&mut buffer, 0);
    push_u16_field(&mut buffer, 0);
    let r = parse_table(&buffer);
    assert_eq!(r.unwrap_err(), DecodeError::UnknownClassKind { tag: 0x58585858 });
}

#[test]
fn overlapping_class_seeks_backward() {
    // The second description points back inside the first class body.
    let mut buffer = header(b"TREE", 2);
    description(&mut buffer, b"TPLB", 0x30, 0x10);
    description(&mut buffer, b"TPLB", 0x32, 0x10);
    pad_to(&mut buffer, 0x30);
    buffer.extend_from_slice(b"TPLB");
    push_u16_field(&mut buffer, 0);
    push_u16_field(&mut buffer, 2);
    let r = parse_table(&buffer);
    assert_eq!(r.unwrap_err(), DecodeError::BackwardSeek { target: 0x32, position: 0x3c });
}

#[test]
fn trailing_bytes_are_ignored() {
    let mut buffer = tree_buffer();
    buffer.extend_from_slice(&[0xde, 0xad]);
    let table = parse_table(&buffer).unwrap();
    assert_eq!(table.classes.len(), 2);
}
