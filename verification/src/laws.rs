//! The laws tying decoder and encoder together: an encoded well-formed table
//! decodes back to itself; a decode that succeeds yields exactly one class
//! per description, each read at its description's address; truncating a
//! decodable buffer before its end always surfaces as a buffer underrun; and
//! corrupting the envelope marker always surfaces as a magic mismatch
//! reporting both values.

use vstd::prelude::*;

use crate::cursor::spec_u16_field_at;
use crate::cursor::spec_u32_at;
use crate::cursor::u16_be;
use crate::decode::spec_parse_class;
use crate::decode::spec_parse_class_body;
use crate::decode::spec_parse_classes;
use crate::decode::spec_parse_description;
use crate::decode::spec_parse_descriptions;
use crate::decode::spec_parse_gplb_element;
use crate::decode::spec_parse_gplb_elements;
use crate::decode::spec_parse_table;
use crate::decode::spec_parse_table_and_end;
use crate::decode::spec_parse_tplb_element;
use crate::decode::spec_parse_tplb_elements;
use crate::encode::classes_end;
use crate::encode::lemma_encode_class_body_len;
use crate::encode::lemma_encode_descriptions_len;
use crate::encode::lemma_encode_gplb_elements_len;
use crate::encode::lemma_encode_tplb_elements_len;
use crate::encode::spec_encode_class_body;
use crate::encode::spec_encode_class_kind;
use crate::encode::spec_encode_classes;
use crate::encode::spec_encode_description;
use crate::encode::spec_encode_descriptions;
use crate::encode::spec_encode_gplb_element;
use crate::encode::spec_encode_gplb_elements;
use crate::encode::spec_encode_header;
use crate::encode::spec_encode_table;
use crate::encode::spec_encode_tplb_element;
use crate::encode::spec_encode_tplb_elements;
use crate::encode::spec_u16_bytes;
use crate::encode::spec_u16_field_bytes;
use crate::encode::spec_u32_bytes;
use crate::encode::zero_bytes;
use crate::model::ClassDescriptionView;
use crate::model::ClassKindView;
use crate::model::ClassView;
use crate::model::DecodeError;
use crate::model::GplbElement;
use crate::model::TableView;
use crate::model::TplbElement;
use crate::model::DESCRIPTION_STRIDE;
use crate::model::GPLB_STRIDE;
use crate::model::TABLE_HEADER_LEN;
use crate::model::TABLE_MAGIC;
use crate::model::TPLB_STRIDE;
use crate::model::class_body_len;
use crate::model::class_wf;
use crate::model::gplb_tag;
use crate::model::layout_ok;
use crate::model::tplb_tag;
use crate::model::well_formed;

verus! {

/// `b` holds the byte sequence `s` at offset `pos`.
pub open spec fn contains_at(b: Seq<u8>, pos: int, s: Seq<u8>) -> bool {
    &&& 0 <= pos
    &&& pos + s.len() <= b.len()
    &&& b.subrange(pos, pos + s.len()) == s
}

/// A held concatenation splits into its two held halves.
proof fn lemma_contains_split(b: Seq<u8>, pos: int, s1: Seq<u8>, s2: Seq<u8>)
    requires
        contains_at(b, pos, s1 + s2),
    ensures
        contains_at(b, pos, s1),
        contains_at(b, pos + s1.len(), s2),
{
    assert forall|i: int| 0 <= i < s1.len() implies b[pos + i] == s1[i] by {
        assert(b.subrange(pos, pos + (s1 + s2).len())[i] == (s1 + s2)[i]);
    }
    assert(b.subrange(pos, pos + s1.len()) =~= s1);
    assert forall|i: int| 0 <= i < s2.len() implies b[pos + s1.len() + i] == s2[i] by {
        assert(b.subrange(pos, pos + (s1 + s2).len())[s1.len() + i] == (s1 + s2)[s1.len() + i]);
    }
    assert(b.subrange(pos + s1.len(), pos + s1.len() + s2.len()) =~= s2);
}

/// One byte of a held sequence.
proof fn lemma_contains_index(b: Seq<u8>, pos: int, s: Seq<u8>, i: int)
    requires
        contains_at(b, pos, s),
        0 <= i < s.len(),
    ensures
        b[pos + i] == s[i],
{
    assert(b.subrange(pos, pos + s.len())[i] == s[i]);
}

/// Reading four bytes back gives the integer they encode.
proof fn lemma_read_u32_at(b: Seq<u8>, pos: int, v: u32)
    requires
        contains_at(b, pos, spec_u32_bytes(v)),
    ensures
        spec_u32_at(b, pos) == v,
{
    lemma_contains_index(b, pos, spec_u32_bytes(v), 0);
    lemma_contains_index(b, pos, spec_u32_bytes(v), 1);
    lemma_contains_index(b, pos, spec_u32_bytes(v), 2);
    lemma_contains_index(b, pos, spec_u32_bytes(v), 3);
    assert(((((v >> 24) & 0xff) as u8) as u32) << 24 | ((((v >> 16) & 0xff) as u8) as u32) << 16 | (
    (((v >> 8) & 0xff) as u8) as u32) << 8 | (((v & 0xff) as u8) as u32) == v) by (bit_vector);
}

/// Reading a 4-byte slot back gives the u16 stored in its low half.
proof fn lemma_read_u16_field_at(b: Seq<u8>, pos: int, v: u16)
    requires
        contains_at(b, pos, spec_u16_field_bytes(v)),
    ensures
        spec_u16_field_at(b, pos) == v,
{
    lemma_contains_index(b, pos, spec_u16_field_bytes(v), 2);
    lemma_contains_index(b, pos, spec_u16_field_bytes(v), 3);
    assert(spec_u16_field_bytes(v)[2] == spec_u16_bytes(v)[0]);
    assert(spec_u16_field_bytes(v)[3] == spec_u16_bytes(v)[1]);
    assert(((((v >> 8) & 0xff) as u8) as u16) << 8 | (((v & 0xff) as u8) as u16) == v)
        by (bit_vector);
}

/// Reading two bytes back gives the u16 they encode.
proof fn lemma_read_u16_at(b: Seq<u8>, pos: int, v: u16)
    requires
        contains_at(b, pos, spec_u16_bytes(v)),
    ensures
        u16_be(b[pos], b[pos + 1]) == v,
{
    lemma_contains_index(b, pos, spec_u16_bytes(v), 0);
    lemma_contains_index(b, pos, spec_u16_bytes(v), 1);
    assert(((((v >> 8) & 0xff) as u8) as u16) << 8 | (((v & 0xff) as u8) as u16) == v)
        by (bit_vector);
}

/// An encoded group-listing array parses back to its elements.
proof fn lemma_parse_encoded_gplb_elements(b: Seq<u8>, pos: int, es: Seq<GplbElement>)
    requires
        contains_at(b, pos, spec_encode_gplb_elements(es)),
    ensures
        spec_parse_gplb_elements(b, pos, es.len()) == Ok::<(Seq<GplbElement>, int), DecodeError>(
            (es, pos + (GPLB_STRIDE as int) * es.len()),
        ),
    decreases es.len(),
{
    lemma_encode_gplb_elements_len(es);
    if es.len() == 0 {
        assert(es =~= Seq::<GplbElement>::empty());
    } else {
        let e = es[0];
        let f1 = spec_u16_field_bytes(e.id);
        let f2 = spec_u16_field_bytes(e.association);
        let f3 = spec_u16_field_bytes(e.title_id);
        let rest = spec_encode_gplb_elements(es.skip(1));
        lemma_contains_split(b, pos, spec_encode_gplb_element(e), rest);
        lemma_contains_split(b, pos, f1 + f2 + f3, zero_bytes(2));
        lemma_contains_split(b, pos, f1 + f2, f3);
        lemma_contains_split(b, pos, f1, f2);
        lemma_read_u16_field_at(b, pos, e.id);
        lemma_read_u16_field_at(b, pos + 4, e.association);
        lemma_read_u16_field_at(b, pos + 8, e.title_id);
        assert(spec_parse_gplb_element(b, pos) == Ok::<(GplbElement, int), DecodeError>(
            (e, pos + 14),
        ));
        lemma_parse_encoded_gplb_elements(b, pos + 14, es.skip(1));
        assert(seq![e] + es.skip(1) =~= es);
    }
}

/// An encoded track-listing array parses back to its elements.
proof fn lemma_parse_encoded_tplb_elements(b: Seq<u8>, pos: int, es: Seq<TplbElement>)
    requires
        contains_at(b, pos, spec_encode_tplb_elements(es)),
    ensures
        spec_parse_tplb_elements(b, pos, es.len()) == Ok::<(Seq<TplbElement>, int), DecodeError>(
            (es, pos + (TPLB_STRIDE as int) * es.len()),
        ),
    decreases es.len(),
{
    lemma_encode_tplb_elements_len(es);
    if es.len() == 0 {
        assert(es =~= Seq::<TplbElement>::empty());
    } else {
        let e = es[0];
        let rest = spec_encode_tplb_elements(es.skip(1));
        lemma_contains_split(b, pos, spec_encode_tplb_element(e), rest);
        lemma_read_u16_at(b, pos, e.title_id);
        assert(spec_parse_tplb_element(b, pos) == Ok::<(TplbElement, int), DecodeError>(
            (e, pos + 2),
        ));
        lemma_parse_encoded_tplb_elements(b, pos + 2, es.skip(1));
        assert(seq![e] + es.skip(1) =~= es);
    }
}

/// An encoded description directory parses back to its entries.
proof fn lemma_parse_encoded_descriptions(b: Seq<u8>, pos: int, ds: Seq<ClassDescriptionView>)
    requires
        contains_at(b, pos, spec_encode_descriptions(ds)),
        forall|i: int| 0 <= i < ds.len() ==> (#[trigger] ds[i]).name.len() == 4,
    ensures
        spec_parse_descriptions(b, pos, ds.len()) == Ok::<
            (Seq<ClassDescriptionView>, int),
            DecodeError,
        >((ds, pos + (DESCRIPTION_STRIDE as int) * ds.len())),
    decreases ds.len(),
{
    lemma_encode_descriptions_len(ds);
    if ds.len() == 0 {
        assert(ds =~= Seq::<ClassDescriptionView>::empty());
    } else {
        let d = ds[0];
        assert(d.name.len() == 4);
        let rest = spec_encode_descriptions(ds.skip(1));
        lemma_contains_split(b, pos, spec_encode_description(d), rest);
        lemma_contains_split(b, pos, d.name + spec_u32_bytes(d.address) + spec_u32_bytes(d.len), zero_bytes(4));
        lemma_contains_split(b, pos, d.name + spec_u32_bytes(d.address), spec_u32_bytes(d.len));
        lemma_contains_split(b, pos, d.name, spec_u32_bytes(d.address));
        lemma_read_u32_at(b, pos + 4, d.address);
        lemma_read_u32_at(b, pos + 8, d.len);
        assert(b.subrange(pos, pos + 4) == d.name);
        assert(spec_parse_description(b, pos) == Ok::<(ClassDescriptionView, int), DecodeError>(
            (d, pos + 16),
        ));
        assert(forall|i: int|
            0 <= i < ds.skip(1).len() ==> (#[trigger] ds.skip(1)[i]).name.len() == 4);
        lemma_parse_encoded_descriptions(b, pos + 16, ds.skip(1));
        assert(seq![d] + ds.skip(1) =~= ds);
    }
}

/// An encoded class body, standing at its description's address, parses back
/// to the class.
proof fn lemma_parse_encoded_class_body(b: Seq<u8>, d: ClassDescriptionView, c: ClassView)
    requires
        class_wf(c),
        contains_at(b, d.address as int, spec_encode_class_body(c)),
    ensures
        spec_parse_class_body(b, d) == Ok::<(ClassView, int), DecodeError>(
            (c, d.address + class_body_len(c)),
        ),
{
    let a = d.address as int;
    assert(gplb_tag().len() == 4);
    assert(tplb_tag().len() == 4);
    lemma_encode_class_body_len(c);
    let cf = spec_u16_field_bytes(c.element_count);
    let lf = spec_u16_field_bytes(c.element_length);
    let ke = spec_encode_class_kind(c.kind);
    lemma_contains_split(b, a, c.name + cf + lf, ke);
    lemma_contains_split(b, a, c.name + cf, lf);
    lemma_contains_split(b, a, c.name, cf);
    lemma_read_u16_field_at(b, a + 4, c.element_count);
    lemma_read_u16_field_at(b, a + 8, c.element_length);
    assert(b.subrange(a, a + 4) == c.name);
    assert(gplb_tag() != tplb_tag()) by {
        assert(gplb_tag()[0] == 0x47u8);
        assert(tplb_tag()[0] == 0x54u8);
    }
    match c.kind {
        ClassKindView::Gplb(es) => {
            assert(c.name == gplb_tag());
            lemma_parse_encoded_gplb_elements(b, a + 12, es);
            assert(es.len() == c.element_count as nat);
        },
        ClassKindView::Tplb(es) => {
            assert(c.name == tplb_tag());
            lemma_parse_encoded_tplb_elements(b, a + 12, es);
            assert(es.len() == c.element_count as nat);
        },
    }
}

/// Encoded class bodies, laid out from `pos` in description order, parse back
/// to the classes.
proof fn lemma_parse_encoded_classes(
    b: Seq<u8>,
    pos: int,
    descs: Seq<ClassDescriptionView>,
    classes: Seq<ClassView>,
)
    requires
        descs.len() == classes.len(),
        forall|i: int| 0 <= i < classes.len() ==> class_wf(#[trigger] classes[i]),
        layout_ok(descs, classes, pos),
        contains_at(b, pos, spec_encode_classes(descs, classes, pos)),
    ensures
        spec_parse_classes(b, pos, descs) == Ok::<(Seq<ClassView>, int), DecodeError>(
            (classes, classes_end(descs, classes, pos)),
        ),
    decreases classes.len(),
{
    if classes.len() == 0 {
        assert(classes =~= Seq::<ClassView>::empty());
    } else {
        let d = descs[0];
        let c = classes[0];
        let a = d.address as int;
        let gap = zero_bytes(a - pos);
        let body = spec_encode_class_body(c);
        let restenc = spec_encode_classes(descs.skip(1), classes.skip(1), a + class_body_len(c));
        lemma_encode_class_body_len(c);
        lemma_contains_split(b, pos, gap + body, restenc);
        lemma_contains_split(b, pos, gap, body);
        lemma_parse_encoded_class_body(b, d, c);
        assert(spec_parse_class(b, pos, d) == Ok::<(ClassView, int), DecodeError>(
            (c, a + class_body_len(c)),
        ));
        assert(forall|i: int|
            0 <= i < classes.skip(1).len() ==> class_wf(#[trigger] classes.skip(1)[i]));
        lemma_parse_encoded_classes(b, a + class_body_len(c), descs.skip(1), classes.skip(1));
        assert(seq![c] + classes.skip(1) =~= classes);
    }
}

/// Round trip: encoding any well-formed table value and decoding the result
/// yields an equal value, whatever element kinds the table's classes hold.
pub proof fn lemma_encode_then_decode(t: TableView)
    requires
        well_formed(t),
    ensures
        spec_parse_table(spec_encode_table(t)) == Ok::<TableView, DecodeError>(t),
{
    let b = spec_encode_table(t);
    let hdr = spec_encode_header(t);
    let de = spec_encode_descriptions(t.class_descriptions);
    let pos0 = TABLE_HEADER_LEN as int + (DESCRIPTION_STRIDE as int) * (t.class_count as int);
    let ce = spec_encode_classes(t.class_descriptions, t.classes, pos0);
    assert(contains_at(b, 0, (hdr + de) + ce)) by {
        assert(b =~= (hdr + de) + ce);
        assert(b.subrange(0, b.len() as int) =~= b);
    }
    lemma_contains_split(b, 0, hdr + de, ce);
    lemma_contains_split(b, 0, hdr, de);
    let magicb = spec_u32_bytes(TABLE_MAGIC);
    lemma_contains_split(b, 0, t.name + magicb + seq![t.class_count], zero_bytes(7));
    lemma_contains_split(b, 0, t.name + magicb, seq![t.class_count]);
    lemma_contains_split(b, 0, t.name, magicb);
    lemma_read_u32_at(b, 4, TABLE_MAGIC);
    lemma_contains_index(b, 8, seq![t.class_count], 0);
    assert(b[8] == t.class_count);
    assert(b.subrange(0, 4) == t.name);
    lemma_encode_descriptions_len(t.class_descriptions);
    lemma_parse_encoded_descriptions(b, 16, t.class_descriptions);
    assert(16 + (DESCRIPTION_STRIDE as int) * t.class_descriptions.len() == pos0);
    lemma_parse_encoded_classes(b, pos0, t.class_descriptions, t.classes);
    assert(b.len() >= 16);
    assert(spec_parse_table_and_end(b) == Ok::<(TableView, int), DecodeError>(
        (t, classes_end(t.class_descriptions, t.classes, pos0)),
    ));
}

/// The class body at a description's address decodes to the class `c`.
pub open spec fn body_decodes_to(b: Seq<u8>, d: ClassDescriptionView, c: ClassView) -> bool {
    exists|end: int|
        spec_parse_class_body(b, d) == Ok::<(ClassView, int), DecodeError>((c, end))
}

/// A successful description-directory parse yields one entry per requested
/// count, reading a fixed stride each.
proof fn lemma_descriptions_shape(
    b: Seq<u8>,
    pos: int,
    n: nat,
    ds: Seq<ClassDescriptionView>,
    end: int,
)
    requires
        spec_parse_descriptions(b, pos, n) == Ok::<(Seq<ClassDescriptionView>, int), DecodeError>(
            (ds, end),
        ),
    ensures
        ds.len() == n,
        end == pos + (DESCRIPTION_STRIDE as int) * n,
        n > 0 ==> pos + (DESCRIPTION_STRIDE as int) * n <= b.len(),
    decreases n,
{
    if n != 0 {
        if let Ok((d, mid)) = spec_parse_description(b, pos) {
            if let Ok((ds2, end2)) = spec_parse_descriptions(b, mid, (n - 1) as nat) {
                lemma_descriptions_shape(b, mid, (n - 1) as nat, ds2, end2);
            } else {
                assert(false);
            }
        } else {
            assert(false);
        }
    }
}

/// A successful class-sequence parse yields one class per description, each
/// the decode of its own description's body.
proof fn lemma_classes_pairing(
    b: Seq<u8>,
    pos: int,
    descs: Seq<ClassDescriptionView>,
    cs: Seq<ClassView>,
    end: int,
)
    requires
        spec_parse_classes(b, pos, descs) == Ok::<(Seq<ClassView>, int), DecodeError>((cs, end)),
    ensures
        cs.len() == descs.len(),
        forall|i: int|
            0 <= i < descs.len() ==> body_decodes_to(b, #[trigger] descs[i], cs[i]),
    decreases descs.len(),
{
    if descs.len() != 0 {
        if let Ok((c, mid)) = spec_parse_class(b, pos, descs[0]) {
            if let Ok((cs2, end2)) = spec_parse_classes(b, mid, descs.skip(1)) {
                lemma_classes_pairing(b, mid, descs.skip(1), cs2, end2);
                assert(cs == seq![c] + cs2);
                assert(body_decodes_to(b, descs[0], c));
                assert forall|i: int|
                    0 <= i < descs.len() implies body_decodes_to(
                    b,
                    #[trigger] descs[i],
                    cs[i],
                ) by {
                    if i > 0 {
                        assert(descs.skip(1)[i - 1] == descs[i]);
                        assert(cs2[i - 1] == cs[i]);
                        assert(body_decodes_to(b, descs.skip(1)[i - 1], cs2[i - 1]));
                    }
                }
            } else {
                assert(false);
            }
        } else {
            assert(false);
        }
    }
}

/// A decoded table holds exactly `class_count` descriptions and classes,
/// positionally paired: the i-th class is what the class body standing at the
/// i-th description's address decodes to.
pub proof fn lemma_decode_counts_and_pairing(b: Seq<u8>, t: TableView)
    requires
        spec_parse_table(b) == Ok::<TableView, DecodeError>(t),
    ensures
        t.class_descriptions.len() == t.class_count as int,
        t.classes.len() == t.class_count as int,
        forall|i: int|
            0 <= i < t.classes.len() ==> body_decodes_to(
                b,
                #[trigger] t.class_descriptions[i],
                t.classes[i],
            ),
{
    if let Ok((ds, mid)) = spec_parse_descriptions(b, 16, b[8] as nat) {
        lemma_descriptions_shape(b, 16, b[8] as nat, ds, mid);
        if let Ok((cs, end2)) = spec_parse_classes(b, mid, ds) {
            lemma_classes_pairing(b, mid, ds, cs, end2);
        } else {
            assert(false);
        }
    } else {
        assert(false);
    }
}

/// The result is a failure for want of bytes.
pub open spec fn is_underrun_result<T>(r: Result<T, DecodeError>) -> bool {
    r matches Err(e) && e is BufferUnderrun
}

/// A parsed group-listing array spans a fixed stride per element.
proof fn lemma_gplb_bounds(b: Seq<u8>, pos: int, n: nat, es: Seq<GplbElement>, end: int)
    requires
        spec_parse_gplb_elements(b, pos, n) == Ok::<(Seq<GplbElement>, int), DecodeError>(
            (es, end),
        ),
        pos <= b.len(),
    ensures
        pos <= end <= b.len(),
        end == pos + (GPLB_STRIDE as int) * n,
    decreases n,
{
    if n != 0 {
        if let Ok((e, mid)) = spec_parse_gplb_element(b, pos) {
            if let Ok((es2, end2)) = spec_parse_gplb_elements(b, mid, (n - 1) as nat) {
                lemma_gplb_bounds(b, mid, (n - 1) as nat, es2, end2);
            } else {
                assert(false);
            }
        } else {
            assert(false);
        }
    }
}

/// A parsed track-listing array spans a fixed stride per element.
proof fn lemma_tplb_bounds(b: Seq<u8>, pos: int, n: nat, es: Seq<TplbElement>, end: int)
    requires
        spec_parse_tplb_elements(b, pos, n) == Ok::<(Seq<TplbElement>, int), DecodeError>(
            (es, end),
        ),
        pos <= b.len(),
    ensures
        pos <= end <= b.len(),
        end == pos + (TPLB_STRIDE as int) * n,
    decreases n,
{
    if n != 0 {
        if let Ok((e, mid)) = spec_parse_tplb_element(b, pos) {
            if let Ok((es2, end2)) = spec_parse_tplb_elements(b, mid, (n - 1) as nat) {
                lemma_tplb_bounds(b, mid, (n - 1) as nat, es2, end2);
            } else {
                assert(false);
            }
        } else {
            assert(false);
        }
    }
}

/// A parsed class spans from its description's address to its end offset.
proof fn lemma_class_bounds(b: Seq<u8>, pos: int, d: ClassDescriptionView, c: ClassView, mid: int)
    requires
        spec_parse_class(b, pos, d) == Ok::<(ClassView, int), DecodeError>((c, mid)),
        0 <= pos,
    ensures
        pos <= d.address as int,
        d.address + 12 <= mid <= b.len(),
{
    let a = d.address as int;
    let tag = b.subrange(a, a + 4);
    let count = spec_u16_field_at(b, a + 4);
    if tag == gplb_tag() {
        if let Ok((es, end)) = spec_parse_gplb_elements(b, a + 12, count as nat) {
            lemma_gplb_bounds(b, a + 12, count as nat, es, end);
        } else {
            assert(false);
        }
    } else if tag == tplb_tag() {
        if let Ok((es, end)) = spec_parse_tplb_elements(b, a + 12, count as nat) {
            lemma_tplb_bounds(b, a + 12, count as nat, es, end);
        } else {
            assert(false);
        }
    } else {
        assert(false);
    }
}

/// A parsed class sequence only moves the offset forward, within the buffer.
proof fn lemma_classes_bounds(
    b: Seq<u8>,
    pos: int,
    descs: Seq<ClassDescriptionView>,
    cs: Seq<ClassView>,
    end: int,
)
    requires
        spec_parse_classes(b, pos, descs) == Ok::<(Seq<ClassView>, int), DecodeError>((cs, end)),
        0 <= pos <= b.len(),
    ensures
        pos <= end <= b.len(),
    decreases descs.len(),
{
    if descs.len() != 0 {
        if let Ok((c, mid)) = spec_parse_class(b, pos, descs[0]) {
            lemma_class_bounds(b, pos, descs[0], c, mid);
            if let Ok((cs2, end2)) = spec_parse_classes(b, mid, descs.skip(1)) {
                lemma_classes_bounds(b, mid, descs.skip(1), cs2, end2);
            } else {
                assert(false);
            }
        } else {
            assert(false);
        }
    }
}

/// A group-listing parse that fits below the cut parses the same on the
/// truncated buffer.
proof fn lemma_frame_gplb(b: Seq<u8>, pos: int, n: nat, es: Seq<GplbElement>, end: int, k: int)
    requires
        spec_parse_gplb_elements(b, pos, n) == Ok::<(Seq<GplbElement>, int), DecodeError>(
            (es, end),
        ),
        0 <= pos,
        end <= k <= b.len(),
    ensures
        spec_parse_gplb_elements(b.take(k), pos, n) == Ok::<(Seq<GplbElement>, int), DecodeError>(
            (es, end),
        ),
    decreases n,
{
    let b2 = b.take(k);
    if n != 0 {
        if let Ok((e, mid)) = spec_parse_gplb_element(b, pos) {
            if let Ok((es2, end2)) = spec_parse_gplb_elements(b, mid, (n - 1) as nat) {
                lemma_gplb_bounds(b, mid, (n - 1) as nat, es2, end2);
                assert(spec_u16_field_at(b2, pos) == spec_u16_field_at(b, pos));
                assert(spec_u16_field_at(b2, pos + 4) == spec_u16_field_at(b, pos + 4));
                assert(spec_u16_field_at(b2, pos + 8) == spec_u16_field_at(b, pos + 8));
                assert(spec_parse_gplb_element(b2, pos) == Ok::<(GplbElement, int), DecodeError>(
                    (e, pos + 14),
                ));
                lemma_frame_gplb(b, mid, (n - 1) as nat, es2, end, k);
            } else {
                assert(false);
            }
        } else {
            assert(false);
        }
    }
}

/// A track-listing parse that fits below the cut parses the same on the
/// truncated buffer.
proof fn lemma_frame_tplb(b: Seq<u8>, pos: int, n: nat, es: Seq<TplbElement>, end: int, k: int)
    requires
        spec_parse_tplb_elements(b, pos, n) == Ok::<(Seq<TplbElement>, int), DecodeError>(
            (es, end),
        ),
        0 <= pos,
        end <= k <= b.len(),
    ensures
        spec_parse_tplb_elements(b.take(k), pos, n) == Ok::<(Seq<TplbElement>, int), DecodeError>(
            (es, end),
        ),
    decreases n,
{
    let b2 = b.take(k);
    if n != 0 {
        if let Ok((e, mid)) = spec_parse_tplb_element(b, pos) {
            if let Ok((es2, end2)) = spec_parse_tplb_elements(b, mid, (n - 1) as nat) {
                lemma_tplb_bounds(b, mid, (n - 1) as nat, es2, end2);
                assert(b2[pos] == b[pos] && b2[pos + 1] == b[pos + 1]);
                assert(spec_parse_tplb_element(b2, pos) == Ok::<(TplbElement, int), DecodeError>(
                    (e, pos + 2),
                ));
                lemma_frame_tplb(b, mid, (n - 1) as nat, es2, end, k);
            } else {
                assert(false);
            }
        } else {
            assert(false);
        }
    }
}

/// Cutting a parsed group-listing array anywhere inside makes the truncated
/// parse fail for want of bytes.
proof fn lemma_trunc_gplb(b: Seq<u8>, pos: int, n: nat, es: Seq<GplbElement>, end: int, k: int)
    requires
        spec_parse_gplb_elements(b, pos, n) == Ok::<(Seq<GplbElement>, int), DecodeError>(
            (es, end),
        ),
        0 <= pos <= k < end,
        k <= b.len(),
    ensures
        is_underrun_result(spec_parse_gplb_elements(b.take(k), pos, n)),
    decreases n,
{
    let b2 = b.take(k);
    assert(n != 0);
    if let Ok((e, mid)) = spec_parse_gplb_element(b, pos) {
        if let Ok((es2, end2)) = spec_parse_gplb_elements(b, mid, (n - 1) as nat) {
            lemma_gplb_bounds(b, mid, (n - 1) as nat, es2, end2);
            if k < pos + 14 {
                assert(spec_parse_gplb_element(b2, pos) matches Err(err)
                    && err is BufferUnderrun);
            } else {
                assert(spec_u16_field_at(b2, pos) == spec_u16_field_at(b, pos));
                assert(spec_u16_field_at(b2, pos + 4) == spec_u16_field_at(b, pos + 4));
                assert(spec_u16_field_at(b2, pos + 8) == spec_u16_field_at(b, pos + 8));
                assert(spec_parse_gplb_element(b2, pos) == Ok::<(GplbElement, int), DecodeError>(
                    (e, pos + 14),
                ));
                lemma_trunc_gplb(b, mid, (n - 1) as nat, es2, end, k);
            }
        } else {
            assert(false);
        }
    } else {
        assert(false);
    }
}

/// Cutting a parsed track-listing array anywhere inside makes the truncated
/// parse fail for want of bytes.
proof fn lemma_trunc_tplb(b: Seq<u8>, pos: int, n: nat, es: Seq<TplbElement>, end: int, k: int)
    requires
        spec_parse_tplb_elements(b, pos, n) == Ok::<(Seq<TplbElement>, int), DecodeError>(
            (es, end),
        ),
        0 <= pos <= k < end,
        k <= b.len(),
    ensures
        is_underrun_result(spec_parse_tplb_elements(b.take(k), pos, n)),
    decreases n,
{
    let b2 = b.take(k);
    assert(n != 0);
    if let Ok((e, mid)) = spec_parse_tplb_element(b, pos) {
        if let Ok((es2, end2)) = spec_parse_tplb_elements(b, mid, (n - 1) as nat) {
            lemma_tplb_bounds(b, mid, (n - 1) as nat, es2, end2);
            if k < pos + 2 {
                assert(spec_parse_tplb_element(b2, pos) matches Err(err)
                    && err is BufferUnderrun);
            } else {
                assert(b2[pos] == b[pos] && b2[pos + 1] == b[pos + 1]);
                assert(spec_parse_tplb_element(b2, pos) == Ok::<(TplbElement, int), DecodeError>(
                    (e, pos + 2),
                ));
                lemma_trunc_tplb(b, mid, (n - 1) as nat, es2, end, k);
            }
        } else {
            assert(false);
        }
    } else {
        assert(false);
    }
}

/// A directory parse that fits below the cut parses the same on the
/// truncated buffer.
proof fn lemma_frame_descriptions(
    b: Seq<u8>,
    pos: int,
    n: nat,
    ds: Seq<ClassDescriptionView>,
    end: int,
    k: int,
)
    requires
        spec_parse_descriptions(b, pos, n) == Ok::<(Seq<ClassDescriptionView>, int), DecodeError>(
            (ds, end),
        ),
        0 <= pos,
        end <= k <= b.len(),
    ensures
        spec_parse_descriptions(b.take(k), pos, n) == Ok::<
            (Seq<ClassDescriptionView>, int),
            DecodeError,
        >((ds, end)),
    decreases n,
{
    let b2 = b.take(k);
    if n != 0 {
        if let Ok((d, mid)) = spec_parse_description(b, pos) {
            if let Ok((ds2, end2)) = spec_parse_descriptions(b, mid, (n - 1) as nat) {
                lemma_descriptions_shape(b, mid, (n - 1) as nat, ds2, end2);
                assert(end2 >= mid);
                assert(b2.subrange(pos, pos + 4) =~= b.subrange(pos, pos + 4));
                assert(spec_u32_at(b2, pos + 4) == spec_u32_at(b, pos + 4));
                assert(spec_u32_at(b2, pos + 8) == spec_u32_at(b, pos + 8));
                assert(spec_parse_description(b2, pos) == Ok::<
                    (ClassDescriptionView, int),
                    DecodeError,
                >((d, pos + 16)));
                lemma_frame_descriptions(b, mid, (n - 1) as nat, ds2, end, k);
            } else {
                assert(false);
            }
        } else {
            assert(false);
        }
    }
}

/// Cutting a parsed directory anywhere inside makes the truncated parse fail
/// for want of bytes.
proof fn lemma_trunc_descriptions(
    b: Seq<u8>,
    pos: int,
    n: nat,
    ds: Seq<ClassDescriptionView>,
    end: int,
    k: int,
)
    requires
        spec_parse_descriptions(b, pos, n) == Ok::<(Seq<ClassDescriptionView>, int), DecodeError>(
            (ds, end),
        ),
        0 <= pos <= k < end,
        k <= b.len(),
    ensures
        is_underrun_result(spec_parse_descriptions(b.take(k), pos, n)),
    decreases n,
{
    let b2 = b.take(k);
    assert(n != 0);
    if let Ok((d, mid)) = spec_parse_description(b, pos) {
        if let Ok((ds2, end2)) = spec_parse_descriptions(b, mid, (n - 1) as nat) {
            lemma_descriptions_shape(b, mid, (n - 1) as nat, ds2, end2);
            if k < pos + 16 {
                assert(spec_parse_description(b2, pos) matches Err(err)
                    && err is BufferUnderrun);
            } else {
                assert(b2.subrange(pos, pos + 4) =~= b.subrange(pos, pos + 4));
                assert(spec_u32_at(b2, pos + 4) == spec_u32_at(b, pos + 4));
                assert(spec_u32_at(b2, pos + 8) == spec_u32_at(b, pos + 8));
                assert(spec_parse_description(b2, pos) == Ok::<
                    (ClassDescriptionView, int),
                    DecodeError,
                >((d, pos + 16)));
                lemma_trunc_descriptions(b, mid, (n - 1) as nat, ds2, end, k);
            }
        } else {
            assert(false);
        }
    } else {
        assert(false);
    }
}

/// A class parse that fits below the cut parses the same on the truncated
/// buffer.
proof fn lemma_frame_class(
    b: Seq<u8>,
    pos: int,
    d: ClassDescriptionView,
    c: ClassView,
    mid: int,
    k: int,
)
    requires
        spec_parse_class(b, pos, d) == Ok::<(ClassView, int), DecodeError>((c, mid)),
        0 <= pos,
        mid <= k <= b.len(),
    ensures
        spec_parse_class(b.take(k), pos, d) == Ok::<(ClassView, int), DecodeError>((c, mid)),
{
    let b2 = b.take(k);
    let a = d.address as int;
    lemma_class_bounds(b, pos, d, c, mid);
    assert(b2.subrange(a, a + 4) =~= b.subrange(a, a + 4));
    assert(spec_u16_field_at(b2, a + 4) == spec_u16_field_at(b, a + 4));
    assert(spec_u16_field_at(b2, a + 8) == spec_u16_field_at(b, a + 8));
    let tag = b.subrange(a, a + 4);
    let count = spec_u16_field_at(b, a + 4);
    if tag == gplb_tag() {
        if let Ok((es, end)) = spec_parse_gplb_elements(b, a + 12, count as nat) {
            lemma_frame_gplb(b, a + 12, count as nat, es, end, k);
        } else {
            assert(false);
        }
    } else if tag == tplb_tag() {
        if let Ok((es, end)) = spec_parse_tplb_elements(b, a + 12, count as nat) {
            lemma_frame_tplb(b, a + 12, count as nat, es, end, k);
        } else {
            assert(false);
        }
    } else {
        assert(false);
    }
}

/// Cutting a parsed class anywhere inside makes the truncated parse fail for
/// want of bytes.
proof fn lemma_trunc_class(
    b: Seq<u8>,
    pos: int,
    d: ClassDescriptionView,
    c: ClassView,
    mid: int,
    k: int,
)
    requires
        spec_parse_class(b, pos, d) == Ok::<(ClassView, int), DecodeError>((c, mid)),
        0 <= pos <= k < mid,
        k <= b.len(),
    ensures
        is_underrun_result(spec_parse_class(b.take(k), pos, d)),
{
    let b2 = b.take(k);
    let a = d.address as int;
    lemma_class_bounds(b, pos, d, c, mid);
    if k < a {
        assert(spec_parse_class(b2, pos, d) matches Err(err) && err is BufferUnderrun);
    } else if k < a + 12 {
        assert(spec_parse_class(b2, pos, d) matches Err(err) && err is BufferUnderrun);
    } else {
        assert(b2.subrange(a, a + 4) =~= b.subrange(a, a + 4));
        assert(spec_u16_field_at(b2, a + 4) == spec_u16_field_at(b, a + 4));
        assert(spec_u16_field_at(b2, a + 8) == spec_u16_field_at(b, a + 8));
        let tag = b.subrange(a, a + 4);
        let count = spec_u16_field_at(b, a + 4);
        if tag == gplb_tag() {
            if let Ok((es, end)) = spec_parse_gplb_elements(b, a + 12, count as nat) {
                lemma_trunc_gplb(b, a + 12, count as nat, es, end, k);
            } else {
                assert(false);
            }
        } else if tag == tplb_tag() {
            if let Ok((es, end)) = spec_parse_tplb_elements(b, a + 12, count as nat) {
                lemma_trunc_tplb(b, a + 12, count as nat, es, end, k);
            } else {
                assert(false);
            }
        } else {
            assert(false);
        }
    }
}

/// A class-sequence parse that fits below the cut parses the same on the
/// truncated buffer.
proof fn lemma_frame_classes(
    b: Seq<u8>,
    pos: int,
    descs: Seq<ClassDescriptionView>,
    cs: Seq<ClassView>,
    end: int,
    k: int,
)
    requires
        spec_parse_classes(b, pos, descs) == Ok::<(Seq<ClassView>, int), DecodeError>((cs, end)),
        0 <= pos <= b.len(),
        end <= k <= b.len(),
    ensures
        spec_parse_classes(b.take(k), pos, descs) == Ok::<(Seq<ClassView>, int), DecodeError>(
            (cs, end),
        ),
    decreases descs.len(),
{
    if descs.len() != 0 {
        if let Ok((c, mid)) = spec_parse_class(b, pos, descs[0]) {
            lemma_class_bounds(b, pos, descs[0], c, mid);
            if let Ok((cs2, end2)) = spec_parse_classes(b, mid, descs.skip(1)) {
                lemma_classes_bounds(b, mid, descs.skip(1), cs2, end2);
                lemma_frame_class(b, pos, descs[0], c, mid, k);
                lemma_frame_classes(b, mid, descs.skip(1), cs2, end, k);
            } else {
                assert(false);
            }
        } else {
            assert(false);
        }
    }
}

/// Cutting a parsed class sequence anywhere inside makes the truncated parse
/// fail for want of bytes.
proof fn lemma_trunc_classes(
    b: Seq<u8>,
    pos: int,
    descs: Seq<ClassDescriptionView>,
    cs: Seq<ClassView>,
    end: int,
    k: int,
)
    requires
        spec_parse_classes(b, pos, descs) == Ok::<(Seq<ClassView>, int), DecodeError>((cs, end)),
        0 <= pos <= k < end,
        k <= b.len(),
    ensures
        is_underrun_result(spec_parse_classes(b.take(k), pos, descs)),
    decreases descs.len(),
{
    assert(descs.len() != 0);
    if let Ok((c, mid)) = spec_parse_class(b, pos, descs[0]) {
        lemma_class_bounds(b, pos, descs[0], c, mid);
        if let Ok((cs2, end2)) = spec_parse_classes(b, mid, descs.skip(1)) {
            lemma_classes_bounds(b, mid, descs.skip(1), cs2, end2);
            if k < mid {
                lemma_trunc_class(b, pos, descs[0], c, mid, k);
            } else {
                lemma_frame_class(b, pos, descs[0], c, mid, k);
                lemma_trunc_classes(b, mid, descs.skip(1), cs2, end, k);
            }
        } else {
            assert(false);
        }
    } else {
        assert(false);
    }
}

/// Truncating a decodable buffer anywhere before its end offset makes the
/// decode fail with a buffer underrun — never yield a wrong table.
pub proof fn lemma_truncation_underruns(b: Seq<u8>, t: TableView, end: int, k: int)
    requires
        spec_parse_table_and_end(b) == Ok::<(TableView, int), DecodeError>((t, end)),
        0 <= k < end,
    ensures
        is_underrun_result(spec_parse_table(b.take(k))),
{
    let b2 = b.take(k);
    assert(b.len() >= 16);
    if let Ok((ds, mid)) = spec_parse_descriptions(b, 16, b[8] as nat) {
        lemma_descriptions_shape(b, 16, b[8] as nat, ds, mid);
        if let Ok((cs, end2)) = spec_parse_classes(b, mid, ds) {
            lemma_classes_bounds(b, mid, ds, cs, end2);
            if k < 16 {
                if 8 <= k {
                    assert(b2[4] == b[4] && b2[5] == b[5] && b2[6] == b[6] && b2[7] == b[7]);
                    assert(spec_u32_at(b2, 4) == spec_u32_at(b, 4));
                }
                assert(is_underrun_result(spec_parse_table(b2)));
            } else {
                assert(b2[4] == b[4] && b2[5] == b[5] && b2[6] == b[6] && b2[7] == b[7]);
                assert(spec_u32_at(b2, 4) == spec_u32_at(b, 4));
                assert(b2[8] == b[8]);
                if k < mid {
                    lemma_trunc_descriptions(b, 16, b[8] as nat, ds, mid, k);
                } else {
                    lemma_frame_descriptions(b, 16, b[8] as nat, ds, mid, k);
                    lemma_trunc_classes(b, mid, ds, cs, end, k);
                }
            }
        } else {
            assert(false);
        }
    } else {
        assert(false);
    }
}

/// Corrupting the envelope marker's last byte turns any decodable buffer into
/// a magic mismatch that reports both the expected and the actual value.
pub proof fn lemma_magic_corruption(b: Seq<u8>, c: u8)
    requires
        spec_parse_table(b) is Ok,
        c != b[7],
    ensures
        spec_u32_at(b.update(7, c), 4) != TABLE_MAGIC,
        spec_parse_table(b.update(7, c)) == Err::<TableView, DecodeError>(
            DecodeError::MagicMismatch {
                expected: TABLE_MAGIC,
                actual: spec_u32_at(b.update(7, c), 4),
            },
        ),
{
    let b2 = b.update(7, c);
    assert(b.len() >= 16);
    assert(spec_u32_at(b, 4) == TABLE_MAGIC);
    let x = b[4];
    let y = b[5];
    let z = b[6];
    let w = b[7];
    assert(b2[4] == x && b2[5] == y && b2[6] == z && b2[7] == c);
    assert(w != c ==> (((x as u32) << 24) | ((y as u32) << 16) | ((z as u32) << 8) | (w as u32)) != (
    ((x as u32) << 24) | ((y as u32) << 16) | ((z as u32) << 8) | (c as u32))) by (bit_vector);
    assert(spec_u32_at(b2, 4) != TABLE_MAGIC);
}

} // verus!
