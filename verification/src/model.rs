//! Data model of an on-device catalog table: the decoded structures, their
//! mathematical views, and the well-formedness predicate that a table value
//! must satisfy for the symmetric encoder to lay it out in bytes.

use vstd::prelude::*;

verus! {

/// The 4-byte envelope marker that follows the table name in every table header.
pub const TABLE_MAGIC: u32 = 0x01010000;

/// Size in bytes of the fixed table header region.
pub const TABLE_HEADER_LEN: usize = 16;

/// Stride in bytes of one class description directory entry.
pub const DESCRIPTION_STRIDE: usize = 16;

/// Size in bytes of a class body's local header: 4-byte tag and two 4-byte
/// slots holding the element count and the element length.
pub const CLASS_HEADER_LEN: usize = 12;

/// Bytes consumed per group-listing element: three u16 values each stored in a
/// 4-byte slot, then a 2-byte reserved trailer.
pub const GPLB_STRIDE: usize = 14;

/// Bytes consumed per track-listing element: one plain u16.
pub const TPLB_STRIDE: usize = 2;

/// The class tag of a group-listing body, as its four ASCII bytes.
pub open spec fn gplb_tag() -> Seq<u8> {
    seq![0x47u8, 0x50u8, 0x4Cu8, 0x42u8]
}

/// The class tag of a track-listing body, as its four ASCII bytes.
pub open spec fn tplb_tag() -> Seq<u8> {
    seq![0x54u8, 0x50u8, 0x4Cu8, 0x42u8]
}

/// A structural decoding failure. Any of these aborts the whole table decode:
/// the format has no recovery mechanism, so no partial table is ever returned.
#[derive(Clone, Copy, PartialEq, Eq, Structural, Debug)]
pub enum DecodeError {
    /// A read asked for `requested` bytes when only `remaining` were left.
    BufferUnderrun { requested: usize, remaining: usize },
    /// A class description's address lies before the cursor's position.
    BackwardSeek { target: u32, position: usize },
    /// An expected 4-byte constant was not found; both values are the four
    /// bytes read as an unsigned integer, most significant byte first.
    MagicMismatch { expected: u32, actual: u32 },
    /// A class tag outside the supported set; `tag` holds the tag's four
    /// bytes read as an unsigned integer, most significant byte first.
    UnknownClassKind { tag: u32 },
}

/// One group-listing entry: a group of tracks sharing one value of the
/// table's sort axis (an artist, an album, a genre, or an upload batch).
#[derive(Clone, Copy, PartialEq, Eq, Structural, Debug)]
pub struct GplbElement {
    /// Key of the group's name in the sibling catalog-metadata file.
    pub id: u16,
    /// 0x0100 (or 0x0200 for an album entry of the combined axis) when the
    /// group has tracks; 0x0000 when it is listed but currently empty.
    pub association: u16,
    /// 1-based position, in the sibling track listing, of the group's first
    /// track; meaningless when `association` is zero.
    pub title_id: u16,
}

/// One track-listing entry: a track identified by its position in the master
/// track catalog.
#[derive(Clone, Copy, PartialEq, Eq, Structural, Debug)]
pub struct TplbElement {
    pub title_id: u16,
}

/// The decoded element payload of a class, selected by the class's tag.
#[derive(PartialEq, Eq, Debug)]
pub enum ClassKind {
    Gplb(Vec<GplbElement>),
    Tplb(Vec<TplbElement>),
}

/// Mathematical view of `ClassKind`.
pub enum ClassKindView {
    Gplb(Seq<GplbElement>),
    Tplb(Seq<TplbElement>),
}

impl View for ClassKind {
    type V = ClassKindView;

    open spec fn view(&self) -> ClassKindView {
        match self {
            ClassKind::Gplb(es) => ClassKindView::Gplb(es@),
            ClassKind::Tplb(es) => ClassKindView::Tplb(es@),
        }
    }
}

/// One decoded class body.
#[derive(PartialEq, Eq, Debug)]
pub struct Class {
    /// The 4-byte tag read from the class's local header.
    pub name: Vec<u8>,
    /// The element count read from the local header's first 4-byte slot.
    pub element_count: u16,
    /// The declared per-element size from the second 4-byte slot; retained as
    /// metadata only, the true element size is fixed by the tag.
    pub element_length: u16,
    /// The decoded element payload.
    pub kind: ClassKind,
}

/// Mathematical view of `Class`.
pub struct ClassView {
    pub name: Seq<u8>,
    pub element_count: u16,
    pub element_length: u16,
    pub kind: ClassKindView,
}

impl View for Class {
    type V = ClassView;

    open spec fn view(&self) -> ClassView {
        ClassView {
            name: self.name@,
            element_count: self.element_count,
            element_length: self.element_length,
            kind: self.kind@,
        }
    }
}

/// One directory entry of the table: where a class body lives.
#[derive(PartialEq, Eq, Debug)]
pub struct ClassDescription {
    /// The 4-byte tag; for a sound file it matches the class body's own tag.
    pub name: Vec<u8>,
    /// Absolute byte offset of the class body within the table buffer.
    pub address: u32,
    /// Declared byte length of the class body, local header included;
    /// retained as metadata only, the decoder takes sizes from the tag.
    pub len: u32,
}

/// Mathematical view of `ClassDescription`.
pub struct ClassDescriptionView {
    pub name: Seq<u8>,
    pub address: u32,
    pub len: u32,
}

impl View for ClassDescription {
    type V = ClassDescriptionView;

    open spec fn view(&self) -> ClassDescriptionView {
        ClassDescriptionView { name: self.name@, address: self.address, len: self.len }
    }
}

/// One whole decoded table file.
#[derive(PartialEq, Eq, Debug)]
pub struct Table {
    /// The decoded class bodies, positionally paired with the descriptions.
    pub classes: Vec<Class>,
    /// The directory entries, in the order they stand in the file.
    pub class_descriptions: Vec<ClassDescription>,
    /// The class count read from the table header.
    pub class_count: u8,
    /// The table's 4-byte name tag.
    pub name: Vec<u8>,
}

/// Mathematical view of `Table`.
pub struct TableView {
    pub classes: Seq<ClassView>,
    pub class_descriptions: Seq<ClassDescriptionView>,
    pub class_count: u8,
    pub name: Seq<u8>,
}

impl View for Table {
    type V = TableView;

    open spec fn view(&self) -> TableView {
        TableView {
            classes: self.classes@.map_values(|c: Class| c@),
            class_descriptions: self.class_descriptions@.map_values(|d: ClassDescription| d@),
            class_count: self.class_count,
            name: self.name@,
        }
    }
}

/// Bytes a class's element array occupies on disk.
pub open spec fn class_kind_len(k: ClassKindView) -> int {
    match k {
        ClassKindView::Gplb(es) => (GPLB_STRIDE as int) * es.len(),
        ClassKindView::Tplb(es) => (TPLB_STRIDE as int) * es.len(),
    }
}

/// Bytes a class body occupies on disk: local header plus element array.
pub open spec fn class_body_len(c: ClassView) -> int {
    CLASS_HEADER_LEN as int + class_kind_len(c.kind)
}

/// A class value is internally coherent: its tag names its kind and its
/// recorded element count equals the number of decoded elements.
pub open spec fn class_wf(c: ClassView) -> bool {
    match c.kind {
        ClassKindView::Gplb(es) => c.name == gplb_tag() && es.len() == c.element_count as int,
        ClassKindView::Tplb(es) => c.name == tplb_tag() && es.len() == c.element_count as int,
    }
}

/// The class bodies, laid out at their declared addresses, sit at or after
/// `pos`, appear in description order without overlapping, and the table's
/// end offset still fits in a 4-byte address.
pub open spec fn layout_ok(
    descs: Seq<ClassDescriptionView>,
    classes: Seq<ClassView>,
    pos: int,
) -> bool
    decreases classes.len(),
{
    if classes.len() == 0 {
        true
    } else {
        &&& pos <= descs[0].address as int
        &&& descs[0].address + class_body_len(classes[0]) <= u32::MAX as int
        &&& layout_ok(descs.skip(1), classes.skip(1), descs[0].address + class_body_len(classes[0]))
    }
}

/// A table value that the encoder can lay out and the decoder will read back:
/// 4-byte name tags, one description per class, coherent classes, and class
/// bodies standing in order after the description directory.
pub open spec fn well_formed(t: TableView) -> bool {
    &&& t.name.len() == 4
    &&& t.class_descriptions.len() == t.class_count as int
    &&& t.classes.len() == t.class_count as int
    &&& (forall|i: int|
        0 <= i < t.class_descriptions.len() ==> (#[trigger] t.class_descriptions[i]).name.len()
            == 4)
    &&& (forall|i: int| 0 <= i < t.classes.len() ==> class_wf(#[trigger] t.classes[i]))
    &&& layout_ok(
        t.class_descriptions,
        t.classes,
        TABLE_HEADER_LEN as int + (DESCRIPTION_STRIDE as int) * (t.class_count as int),
    )
}

} // verus!
