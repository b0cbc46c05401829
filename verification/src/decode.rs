//! The table decoder. `spec_parse_table` states, byte for byte, what decoding
//! a buffer yields — a table value or one precise error — and the executable
//! decoder is proved to return exactly that.

use vstd::prelude::*;

use crate::cursor::Cursor;
use crate::cursor::spec_u16_field_at;
use crate::cursor::spec_u32_at;
use crate::cursor::u16_be;
use crate::cursor::underrun;
use crate::model::Class;
use crate::model::ClassDescription;
use crate::model::ClassDescriptionView;
use crate::model::ClassKind;
use crate::model::ClassKindView;
use crate::model::ClassView;
use crate::model::DecodeError;
use crate::model::GplbElement;
use crate::model::Table;
use crate::model::TableView;
use crate::model::TplbElement;
use crate::model::TABLE_MAGIC;
use crate::model::TABLE_HEADER_LEN;
use crate::model::gplb_tag;
use crate::model::tplb_tag;

verus! {

/// One 16-byte directory entry read at offset `pos`: 4-byte tag, 4-byte
/// address, 4-byte declared length, 4 reserved bytes read and discarded.
pub open spec fn spec_parse_description(b: Seq<u8>, pos: int) -> Result<
    (ClassDescriptionView, int),
    DecodeError,
> {
    if pos + 4 > b.len() {
        Err(underrun(b, pos, 4))
    } else if pos + 8 > b.len() {
        Err(underrun(b, pos + 4, 4))
    } else if pos + 12 > b.len() {
        Err(underrun(b, pos + 8, 4))
    } else if pos + 16 > b.len() {
        Err(underrun(b, pos + 12, 4))
    } else {
        Ok(
            (
                ClassDescriptionView {
                    name: b.subrange(pos, pos + 4),
                    address: spec_u32_at(b, pos + 4),
                    len: spec_u32_at(b, pos + 8),
                },
                pos + 16,
            ),
        )
    }
}

/// `n` directory entries read in sequence from offset `pos`.
pub open spec fn spec_parse_descriptions(b: Seq<u8>, pos: int, n: nat) -> Result<
    (Seq<ClassDescriptionView>, int),
    DecodeError,
>
    decreases n,
{
    if n == 0 {
        Ok((Seq::<ClassDescriptionView>::empty(), pos))
    } else {
        match spec_parse_description(b, pos) {
            Ok((d, mid)) => match spec_parse_descriptions(b, mid, (n - 1) as nat) {
                Ok((ds, end)) => Ok((seq![d] + ds, end)),
                Err(e) => Err(e),
            },
            Err(e) => Err(e),
        }
    }
}

/// One group-listing element read at offset `pos`: three u16 values each in a
/// 4-byte slot, then a 2-byte reserved trailer.
pub open spec fn spec_parse_gplb_element(b: Seq<u8>, pos: int) -> Result<
    (GplbElement, int),
    DecodeError,
> {
    if pos + 4 > b.len() {
        Err(underrun(b, pos, 4))
    } else if pos + 8 > b.len() {
        Err(underrun(b, pos + 4, 4))
    } else if pos + 12 > b.len() {
        Err(underrun(b, pos + 8, 4))
    } else if pos + 14 > b.len() {
        Err(underrun(b, pos + 12, 2))
    } else {
        Ok(
            (
                GplbElement {
                    id: spec_u16_field_at(b, pos),
                    association: spec_u16_field_at(b, pos + 4),
                    title_id: spec_u16_field_at(b, pos + 8),
                },
                pos + 14,
            ),
        )
    }
}

/// `n` group-listing elements read in sequence from offset `pos`.
pub open spec fn spec_parse_gplb_elements(b: Seq<u8>, pos: int, n: nat) -> Result<
    (Seq<GplbElement>, int),
    DecodeError,
>
    decreases n,
{
    if n == 0 {
        Ok((Seq::<GplbElement>::empty(), pos))
    } else {
        match spec_parse_gplb_element(b, pos) {
            Ok((e, mid)) => match spec_parse_gplb_elements(b, mid, (n - 1) as nat) {
                Ok((es, end)) => Ok((seq![e] + es, end)),
                Err(err) => Err(err),
            },
            Err(err) => Err(err),
        }
    }
}

/// One track-listing element read at offset `pos`: a plain 2-byte u16.
pub open spec fn spec_parse_tplb_element(b: Seq<u8>, pos: int) -> Result<
    (TplbElement, int),
    DecodeError,
> {
    if pos + 2 > b.len() {
        Err(underrun(b, pos, 2))
    } else {
        Ok((TplbElement { title_id: u16_be(b[pos], b[pos + 1]) }, pos + 2))
    }
}

/// `n` track-listing elements read in sequence from offset `pos`.
pub open spec fn spec_parse_tplb_elements(b: Seq<u8>, pos: int, n: nat) -> Result<
    (Seq<TplbElement>, int),
    DecodeError,
>
    decreases n,
{
    if n == 0 {
        Ok((Seq::<TplbElement>::empty(), pos))
    } else {
        match spec_parse_tplb_element(b, pos) {
            Ok((e, mid)) => match spec_parse_tplb_elements(b, mid, (n - 1) as nat) {
                Ok((es, end)) => Ok((seq![e] + es, end)),
                Err(err) => Err(err),
            },
            Err(err) => Err(err),
        }
    }
}

/// A class body read at its description's declared address: 4-byte tag, the
/// element count and element length each in a 4-byte slot, then the element
/// array of the kind the tag names.
pub open spec fn spec_parse_class_body(b: Seq<u8>, d: ClassDescriptionView) -> Result<
    (ClassView, int),
    DecodeError,
> {
    let a = d.address as int;
    if a + 4 > b.len() {
        Err(underrun(b, a, 4))
    } else if a + 8 > b.len() {
        Err(underrun(b, a + 4, 4))
    } else if a + 12 > b.len() {
        Err(underrun(b, a + 8, 4))
    } else {
        let tag = b.subrange(a, a + 4);
        let element_count = spec_u16_field_at(b, a + 4);
        let element_length = spec_u16_field_at(b, a + 8);
        if tag == gplb_tag() {
            match spec_parse_gplb_elements(b, a + 12, element_count as nat) {
                Ok((es, end)) => Ok(
                    (
                        ClassView {
                            name: tag,
                            element_count,
                            element_length,
                            kind: ClassKindView::Gplb(es),
                        },
                        end,
                    ),
                ),
                Err(e) => Err(e),
            }
        } else if tag == tplb_tag() {
            match spec_parse_tplb_elements(b, a + 12, element_count as nat) {
                Ok((es, end)) => Ok(
                    (
                        ClassView {
                            name: tag,
                            element_count,
                            element_length,
                            kind: ClassKindView::Tplb(es),
                        },
                        end,
                    ),
                ),
                Err(e) => Err(e),
            }
        } else {
            Err(DecodeError::UnknownClassKind { tag: spec_u32_at(b, a) })
        }
    }
}

/// A class read with the cursor standing at offset `pos`: seek forward to the
/// declared address — never backward — then read the body there.
pub open spec fn spec_parse_class(b: Seq<u8>, pos: int, d: ClassDescriptionView) -> Result<
    (ClassView, int),
    DecodeError,
> {
    if (d.address as int) < pos {
        Err(DecodeError::BackwardSeek { target: d.address, position: pos as usize })
    } else if (d.address as int) > b.len() {
        Err(underrun(b, pos, d.address - pos))
    } else {
        spec_parse_class_body(b, d)
    }
}

/// The class bodies of all the given descriptions, read in description order
/// starting with the cursor at offset `pos`.
pub open spec fn spec_parse_classes(
    b: Seq<u8>,
    pos: int,
    ds: Seq<ClassDescriptionView>,
) -> Result<(Seq<ClassView>, int), DecodeError>
    decreases ds.len(),
{
    if ds.len() == 0 {
        Ok((Seq::<ClassView>::empty(), pos))
    } else {
        match spec_parse_class(b, pos, ds[0]) {
            Ok((c, mid)) => match spec_parse_classes(b, mid, ds.skip(1)) {
                Ok((cs, end)) => Ok((seq![c] + cs, end)),
                Err(e) => Err(e),
            },
            Err(e) => Err(e),
        }
    }
}

/// A whole table together with its end offset, the offset just past the last
/// class body: 4-byte name, the envelope marker, a 1-byte class count, a skip
/// to offset 16, the description directory, then one class per description.
pub open spec fn spec_parse_table_and_end(b: Seq<u8>) -> Result<(TableView, int), DecodeError> {
    if b.len() < 4 {
        Err(underrun(b, 0, 4))
    } else if b.len() < 8 {
        Err(underrun(b, 4, 4))
    } else if spec_u32_at(b, 4) != TABLE_MAGIC {
        Err(DecodeError::MagicMismatch { expected: TABLE_MAGIC, actual: spec_u32_at(b, 4) })
    } else if b.len() < 9 {
        Err(underrun(b, 8, 1))
    } else if b.len() < 16 {
        Err(underrun(b, 9, 7))
    } else {
        match spec_parse_descriptions(b, 16, b[8] as nat) {
            Ok((ds, mid)) => match spec_parse_classes(b, mid, ds) {
                Ok((cs, end)) => Ok(
                    (
                        TableView {
                            classes: cs,
                            class_descriptions: ds,
                            class_count: b[8],
                            name: b.subrange(0, 4),
                        },
                        end,
                    ),
                ),
                Err(e) => Err(e),
            },
            Err(e) => Err(e),
        }
    }
}

/// What decoding a buffer yields: the table value, or the precise error that
/// aborts the decode. Bytes after the last class body are ignored.
pub open spec fn spec_parse_table(b: Seq<u8>) -> Result<TableView, DecodeError> {
    match spec_parse_table_and_end(b) {
        Ok((t, end)) => Ok(t),
        Err(e) => Err(e),
    }
}

/// A partial decode already in hand, prefixed to whatever the rest of the
/// parse yields.
pub open spec fn with_prefix<T>(prefix: Seq<T>, rest: Result<(Seq<T>, int), DecodeError>) -> Result<
    (Seq<T>, int),
    DecodeError,
> {
    match rest {
        Ok((s, end)) => Ok((prefix + s, end)),
        Err(e) => Err(e),
    }
}

/// Decodes one directory entry at the cursor.
fn parse_class_description(cur: &mut Cursor) -> (r: Result<ClassDescription, DecodeError>)
    requires
        old(cur).wf(),
    ensures
        final(cur).wf(),
        final(cur).bytes() == old(cur).bytes(),
        match r {
            Ok(d) => spec_parse_description(old(cur).bytes(), old(cur).position()) == Ok::<
                _,
                DecodeError,
            >((d@, final(cur).position())),
            Err(e) => spec_parse_description(old(cur).bytes(), old(cur).position()) == Err::<
                (ClassDescriptionView, int),
                _,
            >(e),
        },
{
    let name = cur.take(4)?;
    let address = cur.read_u32()?;
    let len = cur.read_u32()?;
    let _reserved = cur.take(4)?;
    Ok(ClassDescription { name, address, len })
}

/// Decodes `n` directory entries at the cursor.
#[verifier::loop_isolation(false)]
fn parse_class_descriptions(cur: &mut Cursor, n: u8) -> (r: Result<
    Vec<ClassDescription>,
    DecodeError,
>)
    requires
        old(cur).wf(),
    ensures
        final(cur).wf(),
        final(cur).bytes() == old(cur).bytes(),
        match r {
            Ok(ds) => spec_parse_descriptions(old(cur).bytes(), old(cur).position(), n as nat)
                == Ok::<_, DecodeError>(
                (ds@.map_values(|d: ClassDescription| d@), final(cur).position()),
            ),
            Err(e) => spec_parse_descriptions(old(cur).bytes(), old(cur).position(), n as nat)
                == Err::<(Seq<ClassDescriptionView>, int), _>(e),
        },
{
    let ghost b0 = cur.bytes();
    let ghost pos0 = cur.position();
    let mut ds: Vec<ClassDescription> = Vec::new();
    let mut i: u8 = 0;
    proof {
        if let Ok((rest, end)) = spec_parse_descriptions(b0, pos0, n as nat) {
            assert(Seq::<ClassDescriptionView>::empty() + rest =~= rest);
        }
    }
    while i < n
        invariant
            i <= n,
            cur.wf(),
            cur.bytes() == b0,
            spec_parse_descriptions(b0, pos0, n as nat) == with_prefix(
                ds@.map_values(|d: ClassDescription| d@),
                spec_parse_descriptions(b0, cur.position(), (n - i) as nat),
            ),
        decreases n - i,
    {
        let ghost prevv = ds@.map_values(|d: ClassDescription| d@);
        let d = match parse_class_description(cur) {
            Ok(d) => d,
            Err(e) => {
                return Err(e);
            },
        };
        ds.push(d);
        i = i + 1;
        proof {
            let newv = ds@.map_values(|d: ClassDescription| d@);
            assert(newv =~= prevv.push(d@));
            if let Ok((rest, end)) = spec_parse_descriptions(b0, cur.position(), (n - i) as nat) {
                assert(prevv + (seq![d@] + rest) =~= newv + rest);
            }
        }
    }
    proof {
        if let Ok((rest, end)) = spec_parse_descriptions(b0, cur.position(), 0) {
            assert(ds@.map_values(|d: ClassDescription| d@) + rest =~= ds@.map_values(
                |d: ClassDescription| d@,
            ));
        }
    }
    Ok(ds)
}

/// Decodes `n` group-listing elements at the cursor.
#[verifier::loop_isolation(false)]
fn parse_gplb_elements(cur: &mut Cursor, n: u16) -> (r: Result<Vec<GplbElement>, DecodeError>)
    requires
        old(cur).wf(),
    ensures
        final(cur).wf(),
        final(cur).bytes() == old(cur).bytes(),
        match r {
            Ok(es) => spec_parse_gplb_elements(old(cur).bytes(), old(cur).position(), n as nat)
                == Ok::<_, DecodeError>((es@, final(cur).position())),
            Err(e) => spec_parse_gplb_elements(old(cur).bytes(), old(cur).position(), n as nat)
                == Err::<(Seq<GplbElement>, int), _>(e),
        },
{
    let ghost b0 = cur.bytes();
    let ghost pos0 = cur.position();
    let mut es: Vec<GplbElement> = Vec::new();
    let mut i: u16 = 0;
    proof {
        if let Ok((rest, end)) = spec_parse_gplb_elements(b0, pos0, n as nat) {
            assert(Seq::<GplbElement>::empty() + rest =~= rest);
        }
    }
    while i < n
        invariant
            i <= n,
            cur.wf(),
            cur.bytes() == b0,
            spec_parse_gplb_elements(b0, pos0, n as nat) == with_prefix(
                es@,
                spec_parse_gplb_elements(b0, cur.position(), (n - i) as nat),
            ),
        decreases n - i,
    {
        let ghost prevv = es@;
        let id = match cur.read_u16_from_u32_field() {
            Ok(v) => v,
            Err(e) => {
                return Err(e);
            },
        };
        let association = match cur.read_u16_from_u32_field() {
            Ok(v) => v,
            Err(e) => {
                return Err(e);
            },
        };
        let title_id = match cur.read_u16_from_u32_field() {
            Ok(v) => v,
            Err(e) => {
                return Err(e);
            },
        };
        match cur.take(2) {
            Ok(_) => (),
            Err(e) => {
                return Err(e);
            },
        };
        let e = GplbElement { id, association, title_id };
        es.push(e);
        i = i + 1;
        proof {
            assert(es@ =~= prevv.push(e));
            if let Ok((rest, end)) = spec_parse_gplb_elements(b0, cur.position(), (n - i) as nat) {
                assert(prevv + (seq![e] + rest) =~= es@ + rest);
            }
        }
    }
    proof {
        if let Ok((rest, end)) = spec_parse_gplb_elements(b0, cur.position(), 0) {
            assert(es@ + rest =~= es@);
        }
    }
    Ok(es)
}

/// Decodes `n` track-listing elements at the cursor.
#[verifier::loop_isolation(false)]
fn parse_tplb_elements(cur: &mut Cursor, n: u16) -> (r: Result<Vec<TplbElement>, DecodeError>)
    requires
        old(cur).wf(),
    ensures
        final(cur).wf(),
        final(cur).bytes() == old(cur).bytes(),
        match r {
            Ok(es) => spec_parse_tplb_elements(old(cur).bytes(), old(cur).position(), n as nat)
                == Ok::<_, DecodeError>((es@, final(cur).position())),
            Err(e) => spec_parse_tplb_elements(old(cur).bytes(), old(cur).position(), n as nat)
                == Err::<(Seq<TplbElement>, int), _>(e),
        },
{
    let ghost b0 = cur.bytes();
    let ghost pos0 = cur.position();
    let mut es: Vec<TplbElement> = Vec::new();
    let mut i: u16 = 0;
    proof {
        if let Ok((rest, end)) = spec_parse_tplb_elements(b0, pos0, n as nat) {
            assert(Seq::<TplbElement>::empty() + rest =~= rest);
        }
    }
    while i < n
        invariant
            i <= n,
            cur.wf(),
            cur.bytes() == b0,
            spec_parse_tplb_elements(b0, pos0, n as nat) == with_prefix(
                es@,
                spec_parse_tplb_elements(b0, cur.position(), (n - i) as nat),
            ),
        decreases n - i,
    {
        let ghost prevv = es@;
        let pair = match cur.take(2) {
            Ok(v) => v,
            Err(e) => {
                return Err(e);
            },
        };
        let title_id = ((pair[0] as u16) << 8) | (pair[1] as u16);
        let e = TplbElement { title_id };
        es.push(e);
        i = i + 1;
        proof {
            assert(es@ =~= prevv.push(e));
            if let Ok((rest, end)) = spec_parse_tplb_elements(b0, cur.position(), (n - i) as nat) {
                assert(prevv + (seq![e] + rest) =~= es@ + rest);
            }
        }
    }
    proof {
        if let Ok((rest, end)) = spec_parse_tplb_elements(b0, cur.position(), 0) {
            assert(es@ + rest =~= es@);
        }
    }
    Ok(es)
}

/// Seeks to a description's declared address and decodes the class body
/// standing there.
fn parse_class(cur: &mut Cursor, d: &ClassDescription) -> (r: Result<Class, DecodeError>)
    requires
        old(cur).wf(),
    ensures
        final(cur).wf(),
        final(cur).bytes() == old(cur).bytes(),
        match r {
            Ok(c) => spec_parse_class(old(cur).bytes(), old(cur).position(), d@) == Ok::<
                _,
                DecodeError,
            >((c@, final(cur).position())),
            Err(e) => spec_parse_class(old(cur).bytes(), old(cur).position(), d@) == Err::<
                (ClassView, int),
                _,
            >(e),
        },
{
    cur.skip_to(d.address)?;
    let name = cur.take(4)?;
    let element_count = cur.read_u16_from_u32_field()?;
    let element_length = cur.read_u16_from_u32_field()?;
    if name[0] == 0x47 && name[1] == 0x50 && name[2] == 0x4C && name[3] == 0x42 {
        proof {
            assert(name@ =~= gplb_tag());
        }
        let es = parse_gplb_elements(cur, element_count)?;
        Ok(Class { name, element_count, element_length, kind: ClassKind::Gplb(es) })
    } else if name[0] == 0x54 && name[1] == 0x50 && name[2] == 0x4C && name[3] == 0x42 {
        proof {
            assert(name@ =~= tplb_tag());
        }
        let es = parse_tplb_elements(cur, element_count)?;
        Ok(Class { name, element_count, element_length, kind: ClassKind::Tplb(es) })
    } else {
        proof {
            assert(name@ != gplb_tag());
            assert(name@ != tplb_tag());
        }
        let tag = ((name[0] as u32) << 24) | ((name[1] as u32) << 16) | ((name[2] as u32) << 8) | (
        name[3] as u32);
        Err(DecodeError::UnknownClassKind { tag })
    }
}

/// Decodes one class body per description, in description order.
#[verifier::loop_isolation(false)]
fn parse_classes(cur: &mut Cursor, ds: &Vec<ClassDescription>) -> (r: Result<
    Vec<Class>,
    DecodeError,
>)
    requires
        old(cur).wf(),
    ensures
        final(cur).wf(),
        final(cur).bytes() == old(cur).bytes(),
        match r {
            Ok(cs) => spec_parse_classes(
                old(cur).bytes(),
                old(cur).position(),
                ds@.map_values(|d: ClassDescription| d@),
            ) == Ok::<_, DecodeError>((cs@.map_values(|c: Class| c@), final(cur).position())),
            Err(e) => spec_parse_classes(
                old(cur).bytes(),
                old(cur).position(),
                ds@.map_values(|d: ClassDescription| d@),
            ) == Err::<(Seq<ClassView>, int), _>(e),
        },
{
    let ghost b0 = cur.bytes();
    let ghost pos0 = cur.position();
    let ghost dsv = ds@.map_values(|d: ClassDescription| d@);
    let mut cs: Vec<Class> = Vec::new();
    let mut i: usize = 0;
    proof {
        if let Ok((rest, end)) = spec_parse_classes(b0, pos0, dsv) {
            assert(Seq::<ClassView>::empty() + rest =~= rest);
        }
        assert(dsv.skip(0) =~= dsv);
    }
    while i < ds.len()
        invariant
            i <= ds.len(),
            cur.wf(),
            cur.bytes() == b0,
            dsv == ds@.map_values(|d: ClassDescription| d@),
            spec_parse_classes(b0, pos0, dsv) == with_prefix(
                cs@.map_values(|c: Class| c@),
                spec_parse_classes(b0, cur.position(), dsv.skip(i as int)),
            ),
        decreases ds.len() - i,
    {
        let ghost prevv = cs@.map_values(|c: Class| c@);
        proof {
            assert(dsv.skip(i as int)[0] == dsv[i as int]);
            assert(ds@[i as int]@ == dsv[i as int]);
        }
        let c = match parse_class(cur, &ds[i]) {
            Ok(c) => c,
            Err(e) => {
                return Err(e);
            },
        };
        cs.push(c);
        i = i + 1;
        proof {
            let newv = cs@.map_values(|c: Class| c@);
            assert(newv =~= prevv.push(c@));
            assert(dsv.skip(i - 1).skip(1) =~= dsv.skip(i as int));
            if let Ok((rest, end)) = spec_parse_classes(b0, cur.position(), dsv.skip(i as int)) {
                assert(prevv + (seq![c@] + rest) =~= newv + rest);
            }
        }
    }
    proof {
        assert(dsv.skip(ds@.len() as int) =~= Seq::<ClassDescriptionView>::empty());
        if let Ok((rest, end)) = spec_parse_classes(b0, cur.position(), dsv.skip(ds@.len() as int)) {
            assert(cs@.map_values(|c: Class| c@) + rest =~= cs@.map_values(|c: Class| c@));
        }
    }
    Ok(cs)
}

/// Decodes one whole table file from a byte buffer. Returns exactly what
/// `spec_parse_table` says the buffer holds: the table value, or the precise
/// structural error — never a partial table.
pub fn parse_table(buffer: &[u8]) -> (r: Result<Table, DecodeError>)
    ensures
        match r {
            Ok(t) => spec_parse_table(buffer@) == Ok::<TableView, DecodeError>(t@),
            Err(e) => spec_parse_table(buffer@) == Err::<TableView, DecodeError>(e),
        },
{
    let mut cur = Cursor::new(buffer);
    let name = cur.take(4)?;
    cur.expect_u32(TABLE_MAGIC)?;
    let class_count = cur.read_u8()?;
    cur.skip_to(TABLE_HEADER_LEN as u32)?;
    let class_descriptions = parse_class_descriptions(&mut cur, class_count)?;
    let classes = parse_classes(&mut cur, &class_descriptions)?;
    Ok(Table { classes, class_descriptions, class_count, name })
}

} // verus!
