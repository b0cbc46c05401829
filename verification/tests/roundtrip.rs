//! Round-trip tests: a well-formed table value, encoded and decoded again,
//! comes back equal, for both element kinds; and the encoder emits the exact
//! documented layout.

use omadb::encode_table;
use omadb::is_well_formed;
use omadb::parse_table;
use omadb::Class;
use omadb::ClassDescription;
use omadb::ClassKind;
use omadb::GplbElement;
use omadb::Table;
use omadb::TplbElement;

fn tree_table() -> Table {
    Table {
        classes: vec![
            Class {
                name: b"GPLB".to_vec(),
                element_count: 3,
                element_length: 8,
                kind: ClassKind::Gplb(vec![
                    GplbElement { id: 1, association: 0x0100, title_id: 1 },
                    GplbElement { id: 2, association: 0x0100, title_id: 3 },
                    GplbElement { id: 3, association: 0x0000, title_id: 0 },
                ]),
            },
            Class {
                name: b"TPLB".to_vec(),
                element_count: 9,
                element_length: 2,
                kind: ClassKind::Tplb(
                    (1u16..=9).map(|title_id| TplbElement { title_id }).collect(),
                ),
            },
        ],
        class_descriptions: vec![
            ClassDescription { name: b"GPLB".to_vec(), address: 0x30, len: 0x4010 },
            ClassDescription { name: b"TPLB".to_vec(), address: 0x4040, len: 34 },
        ],
        class_count: 2,
        name: b"TREE".to_vec(),
    }
}

#[test]
fn roundtrip_table_with_both_kinds() {
    let table = tree_table();
    assert!(is_well_formed(&table));
    let bytes = encode_table(&table);
    let decoded = parse_table(&bytes).unwrap();
    assert_eq!(decoded, table);
}

#[test]
fn roundtrip_empty_table() {
    let table = Table {
        classes: vec![],
        class_descriptions: vec![],
        class_count: 0,
        name: b"GTLT".to_vec(),
    };
    assert!(is_well_formed(&table));
    let bytes = encode_table(&table);
    assert_eq!(bytes.len(), 16);
    let decoded = parse_table(&bytes).unwrap();
    assert_eq!(decoded, table);
}

#[test]
fn roundtrip_group_listing_alone() {
    let table = Table {
        classes: vec![Class {
            name: b"GPLB".to_vec(),
            element_count: 1,
            element_length: 8,
            kind: ClassKind::Gplb(vec![GplbElement { id: 9, association: 0x0200, title_id: 1 }]),
        }],
        class_descriptions: vec![ClassDescription {
            name: b"GPLB".to_vec(),
            address: 0x40,
            len: 0x1a,
        }],
        class_count: 1,
        name: b"TREE".to_vec(),
    };
    assert!(is_well_formed(&table));
    let decoded = parse_table(&encode_table(&table)).unwrap();
    assert_eq!(decoded, table);
}

#[test]
fn roundtrip_track_listing_alone() {
    let table = Table {
        classes: vec![Class {
            name: b"TPLB".to_vec(),
            element_count: 2,
            element_length: 2,
            kind: ClassKind::Tplb(vec![
                TplbElement { title_id: 700 },
                TplbElement { title_id: 7 },
            ]),
        }],
        class_descriptions: vec![ClassDescription {
            name: b"TPLB".to_vec(),
            address: 0x20,
            len: 0x14,
        }],
        class_count: 1,
        name: b"TREE".to_vec(),
    };
    assert!(is_well_formed(&table));
    let decoded = parse_table(&encode_table(&table)).unwrap();
    assert_eq!(decoded, table);
}

#[test]
fn encoder_emits_documented_layout() {
    let bytes = encode_table(&tree_table());
    // Header: name, marker, count, reserved to offset 16.
    assert_eq!(&bytes[0..4], b"TREE");
    assert_eq!(&bytes[4..8], &[0x01, 0x01, 0x00, 0x00]);
    assert_eq!(bytes[8], 2);
    assert_eq!(&bytes[9..16], &[0; 7]);
    // First description at 16: tag, address, declared length, reserved.
    assert_eq!(&bytes[16..20], b"GPLB");
    assert_eq!(&bytes[20..24], &[0x00, 0x00, 0x00, 0x30]);
    assert_eq!(&bytes[24..28], &[0x00, 0x00, 0x40, 0x10]);
    // First class body at its address.
    assert_eq!(&bytes[0x30..0x34], b"GPLB");
    assert_eq!(&bytes[0x34..0x38], &[0x00, 0x00, 0x00, 0x03]);
    // Second class body at its address; the listing ends the buffer.
    assert_eq!(&bytes[0x4040..0x4044], b"TPLB");
    assert_eq!(bytes.len(), 0x4040 + 12 + 9 * 2);
}

#[test]
fn malformed_tables_are_rejected_by_the_check() {
    // A tag that contradicts the element kind.
    let mut table = tree_table();
    table.classes[0].name = b"TPLB".to_vec();
    assert!(!is_well_formed(&table));

    // An element count that contradicts the decoded elements.
    let mut table = tree_table();
    table.classes[0].element_count = 4;
    assert!(!is_well_formed(&table));

    // A second class overlapping the first.
    let mut table = tree_table();
    table.class_descriptions[1].address = 0x31;
    assert!(!is_well_formed(&table));

    // A first class inside the description directory.
    let mut table = tree_table();
    table.class_descriptions[0].address = 0x2f;
    assert!(!is_well_formed(&table));

    // A missing class.
    let mut table = tree_table();
    table.classes.pop();
    assert!(!is_well_formed(&table));
}

#[test]
fn decoded_counts_match_declared_count() {
    let bytes = encode_table(&tree_table());
    let decoded = parse_table(&bytes).unwrap();
    assert_eq!(decoded.class_count, 2);
    assert_eq!(decoded.class_descriptions.len(), decoded.class_count as usize);
    assert_eq!(decoded.classes.len(), decoded.class_count as usize);
}
