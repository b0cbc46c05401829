//! The symmetric encoder: lays a well-formed table value out in bytes, in
//! exactly the layout the decoder reads. `spec_encode_table` states the
//! layout; the executable encoder is proved to produce it, and `laws` proves
//! that decoding an encoded table yields the table back.

use vstd::prelude::*;

use crate::model::Class;
use crate::model::ClassDescription;
use crate::model::ClassDescriptionView;
use crate::model::ClassKind;
use crate::model::ClassKindView;
use crate::model::ClassView;
use crate::model::GplbElement;
use crate::model::Table;
use crate::model::TableView;
use crate::model::TplbElement;
use crate::model::CLASS_HEADER_LEN;
use crate::model::DESCRIPTION_STRIDE;
use crate::model::GPLB_STRIDE;
use crate::model::TABLE_HEADER_LEN;
use crate::model::TABLE_MAGIC;
use crate::model::TPLB_STRIDE;
use crate::model::class_body_len;
use crate::model::class_kind_len;
use crate::model::class_wf;
use crate::model::gplb_tag;
use crate::model::layout_ok;
use crate::model::tplb_tag;
use crate::model::well_formed;

verus! {

/// `n` zero bytes: reserved regions and gap padding.
pub open spec fn zero_bytes(n: int) -> Seq<u8> {
    Seq::new(n as nat, |i: int| 0u8)
}

/// A u32 as four bytes, most significant first.
pub open spec fn spec_u32_bytes(v: u32) -> Seq<u8> {
    seq![
        ((v >> 24) & 0xff) as u8,
        ((v >> 16) & 0xff) as u8,
        ((v >> 8) & 0xff) as u8,
        (v & 0xff) as u8,
    ]
}

/// A u16 as two bytes, most significant first.
pub open spec fn spec_u16_bytes(v: u16) -> Seq<u8> {
    seq![((v >> 8) & 0xff) as u8, (v & 0xff) as u8]
}

/// A u16 stored in the low half of a 4-byte slot, the upper half reserved.
pub open spec fn spec_u16_field_bytes(v: u16) -> Seq<u8> {
    zero_bytes(2) + spec_u16_bytes(v)
}

/// The fixed 16-byte table header: name, envelope marker, class count, and
/// seven reserved bytes.
pub open spec fn spec_encode_header(t: TableView) -> Seq<u8> {
    t.name + spec_u32_bytes(TABLE_MAGIC) + seq![t.class_count] + zero_bytes(7)
}

/// One 16-byte directory entry.
pub open spec fn spec_encode_description(d: ClassDescriptionView) -> Seq<u8> {
    d.name + spec_u32_bytes(d.address) + spec_u32_bytes(d.len) + zero_bytes(4)
}

/// The packed description directory.
pub open spec fn spec_encode_descriptions(ds: Seq<ClassDescriptionView>) -> Seq<u8>
    decreases ds.len(),
{
    if ds.len() == 0 {
        Seq::<u8>::empty()
    } else {
        spec_encode_description(ds[0]) + spec_encode_descriptions(ds.skip(1))
    }
}

/// One group-listing element: three u16 values each in a 4-byte slot, then a
/// 2-byte reserved trailer.
pub open spec fn spec_encode_gplb_element(e: GplbElement) -> Seq<u8> {
    spec_u16_field_bytes(e.id) + spec_u16_field_bytes(e.association) + spec_u16_field_bytes(
        e.title_id,
    ) + zero_bytes(2)
}

/// A packed group-listing element array.
pub open spec fn spec_encode_gplb_elements(es: Seq<GplbElement>) -> Seq<u8>
    decreases es.len(),
{
    if es.len() == 0 {
        Seq::<u8>::empty()
    } else {
        spec_encode_gplb_element(es[0]) + spec_encode_gplb_elements(es.skip(1))
    }
}

/// One track-listing element: a plain 2-byte u16.
pub open spec fn spec_encode_tplb_element(e: TplbElement) -> Seq<u8> {
    spec_u16_bytes(e.title_id)
}

/// A packed track-listing element array.
pub open spec fn spec_encode_tplb_elements(es: Seq<TplbElement>) -> Seq<u8>
    decreases es.len(),
{
    if es.len() == 0 {
        Seq::<u8>::empty()
    } else {
        spec_encode_tplb_element(es[0]) + spec_encode_tplb_elements(es.skip(1))
    }
}

/// A class's element array, in the layout its tag names.
pub open spec fn spec_encode_class_kind(k: ClassKindView) -> Seq<u8> {
    match k {
        ClassKindView::Gplb(es) => spec_encode_gplb_elements(es),
        ClassKindView::Tplb(es) => spec_encode_tplb_elements(es),
    }
}

/// One class body: tag, element count and element length each in a 4-byte
/// slot, then the element array.
pub open spec fn spec_encode_class_body(c: ClassView) -> Seq<u8> {
    c.name + spec_u16_field_bytes(c.element_count) + spec_u16_field_bytes(c.element_length)
        + spec_encode_class_kind(c.kind)
}

/// The class bodies in description order, each at its declared address, the
/// gaps padded with zero bytes; `pos` is the offset where the encoding
/// starts.
pub open spec fn spec_encode_classes(
    descs: Seq<ClassDescriptionView>,
    classes: Seq<ClassView>,
    pos: int,
) -> Seq<u8>
    decreases classes.len(),
{
    if classes.len() == 0 {
        Seq::<u8>::empty()
    } else {
        zero_bytes(descs[0].address - pos) + spec_encode_class_body(classes[0])
            + spec_encode_classes(
            descs.skip(1),
            classes.skip(1),
            descs[0].address + class_body_len(classes[0]),
        )
    }
}

/// The offset just past the last class body, for bodies laid out from `pos`.
pub open spec fn classes_end(
    descs: Seq<ClassDescriptionView>,
    classes: Seq<ClassView>,
    pos: int,
) -> int
    decreases classes.len(),
{
    if classes.len() == 0 {
        pos
    } else {
        classes_end(
            descs.skip(1),
            classes.skip(1),
            descs[0].address + class_body_len(classes[0]),
        )
    }
}

/// The whole table file: header, description directory, class bodies.
pub open spec fn spec_encode_table(t: TableView) -> Seq<u8> {
    spec_encode_header(t) + spec_encode_descriptions(t.class_descriptions) + spec_encode_classes(
        t.class_descriptions,
        t.classes,
        TABLE_HEADER_LEN as int + (DESCRIPTION_STRIDE as int) * (t.class_count as int),
    )
}

/// The description directory packs one 16-byte entry per description.
pub proof fn lemma_encode_descriptions_len(ds: Seq<ClassDescriptionView>)
    requires
        forall|i: int| 0 <= i < ds.len() ==> (#[trigger] ds[i]).name.len() == 4,
    ensures
        spec_encode_descriptions(ds).len() == (DESCRIPTION_STRIDE as int) * ds.len(),
    decreases ds.len(),
{
    if ds.len() > 0 {
        assert(ds[0].name.len() == 4);
        lemma_encode_descriptions_len(ds.skip(1));
    }
}

/// A group-listing array occupies its stride once per element.
pub proof fn lemma_encode_gplb_elements_len(es: Seq<GplbElement>)
    ensures
        spec_encode_gplb_elements(es).len() == (GPLB_STRIDE as int) * es.len(),
    decreases es.len(),
{
    if es.len() > 0 {
        lemma_encode_gplb_elements_len(es.skip(1));
    }
}

/// A track-listing array occupies its stride once per element.
pub proof fn lemma_encode_tplb_elements_len(es: Seq<TplbElement>)
    ensures
        spec_encode_tplb_elements(es).len() == (TPLB_STRIDE as int) * es.len(),
    decreases es.len(),
{
    if es.len() > 0 {
        lemma_encode_tplb_elements_len(es.skip(1));
    }
}

/// A coherent class body's encoding occupies exactly its declared span.
pub proof fn lemma_encode_class_body_len(c: ClassView)
    requires
        class_wf(c),
    ensures
        spec_encode_class_body(c).len() == class_body_len(c),
{
    match c.kind {
        ClassKindView::Gplb(es) => lemma_encode_gplb_elements_len(es),
        ClassKindView::Tplb(es) => lemma_encode_tplb_elements_len(es),
    }
}

/// Appends a copied byte sequence.
#[verifier::loop_isolation(false)]
fn push_bytes(out: &mut Vec<u8>, v: &Vec<u8>)
    ensures
        final(out)@ == old(out)@ + v@,
{
    let mut j: usize = 0;
    while j < v.len()
        invariant
            j <= v@.len(),
            out@ == old(out)@ + v@.take(j as int),
        decreases v@.len() - j,
    {
        out.push(v[j]);
        j = j + 1;
        proof {
            assert(v@.take(j as int) =~= v@.take(j - 1).push(v@[j - 1]));
            assert(out@ =~= old(out)@ + v@.take(j as int));
        }
    }
    proof {
        assert(v@.take(v@.len() as int) =~= v@);
    }
}

/// Appends `n` zero bytes.
#[verifier::loop_isolation(false)]
fn push_zeros(out: &mut Vec<u8>, n: usize)
    ensures
        final(out)@ == old(out)@ + zero_bytes(n as int),
{
    let mut j: usize = 0;
    while j < n
        invariant
            j <= n,
            out@ == old(out)@ + zero_bytes(j as int),
        decreases n - j,
    {
        out.push(0);
        j = j + 1;
        proof {
            assert(out@ =~= old(out)@ + zero_bytes(j as int));
        }
    }
}

/// Appends a u32, most significant byte first.
fn push_u32(out: &mut Vec<u8>, v: u32)
    ensures
        final(out)@ == old(out)@ + spec_u32_bytes(v),
{
    out.push(((v >> 24) & 0xff) as u8);
    out.push(((v >> 16) & 0xff) as u8);
    out.push(((v >> 8) & 0xff) as u8);
    out.push((v & 0xff) as u8);
    proof {
        assert(out@ =~= old(out)@ + spec_u32_bytes(v));
    }
}

/// Appends a u16, most significant byte first.
fn push_u16(out: &mut Vec<u8>, v: u16)
    ensures
        final(out)@ == old(out)@ + spec_u16_bytes(v),
{
    out.push(((v >> 8) & 0xff) as u8);
    out.push((v & 0xff) as u8);
    proof {
        assert(out@ =~= old(out)@ + spec_u16_bytes(v));
    }
}

/// Appends a u16 in the low half of a 4-byte slot.
fn push_u16_field(out: &mut Vec<u8>, v: u16)
    ensures
        final(out)@ == old(out)@ + spec_u16_field_bytes(v),
{
    out.push(0);
    out.push(0);
    out.push(((v >> 8) & 0xff) as u8);
    out.push((v & 0xff) as u8);
    proof {
        assert(out@ =~= old(out)@ + spec_u16_field_bytes(v));
    }
}

/// Appends one encoded class body.
#[verifier::loop_isolation(false)]
fn encode_class_body(out: &mut Vec<u8>, c: &Class)
    requires
        class_wf(c@),
    ensures
        final(out)@ == old(out)@ + spec_encode_class_body(c@),
{
    proof {
        assert(c.name@.len() == 4);
    }
    push_bytes(out, &c.name);
    push_u16_field(out, c.element_count);
    push_u16_field(out, c.element_length);
    let ghost pre = out@;
    match &c.kind {
        ClassKind::Gplb(es) => {
            let mut j: usize = 0;
            proof {
                assert(es@.skip(0) =~= es@);
            }
            while j < es.len()
                invariant
                    j <= es@.len(),
                    out@ + spec_encode_gplb_elements(es@.skip(j as int)) == pre
                        + spec_encode_gplb_elements(es@),
                decreases es@.len() - j,
            {
                let ghost prevout = out@;
                let e = &es[j];
                push_u16_field(out, e.id);
                push_u16_field(out, e.association);
                push_u16_field(out, e.title_id);
                push_zeros(out, 2);
                j = j + 1;
                proof {
                    assert(out@ =~= prevout + spec_encode_gplb_element(es@[j - 1]));
                    assert(es@.skip(j - 1).skip(1) =~= es@.skip(j as int));
                    assert(es@.skip(j - 1)[0] == es@[j - 1]);
                    assert(out@ + spec_encode_gplb_elements(es@.skip(j as int)) =~= prevout
                        + spec_encode_gplb_elements(es@.skip(j - 1)));
                }
            }
            proof {
                assert(es@.skip(es@.len() as int) =~= Seq::<GplbElement>::empty());
                assert(out@ + spec_encode_gplb_elements(es@.skip(es@.len() as int)) =~= out@);
                assert(out@ =~= old(out)@ + spec_encode_class_body(c@));
            }
        },
        ClassKind::Tplb(es) => {
            let mut j: usize = 0;
            proof {
                assert(es@.skip(0) =~= es@);
            }
            while j < es.len()
                invariant
                    j <= es@.len(),
                    out@ + spec_encode_tplb_elements(es@.skip(j as int)) == pre
                        + spec_encode_tplb_elements(es@),
                decreases es@.len() - j,
            {
                let ghost prevout = out@;
                let e = &es[j];
                push_u16(out, e.title_id);
                j = j + 1;
                proof {
                    assert(es@.skip(j - 1).skip(1) =~= es@.skip(j as int));
                    assert(es@.skip(j - 1)[0] == es@[j - 1]);
                    assert(out@ + spec_encode_tplb_elements(es@.skip(j as int)) =~= prevout
                        + spec_encode_tplb_elements(es@.skip(j - 1)));
                }
            }
            proof {
                assert(es@.skip(es@.len() as int) =~= Seq::<TplbElement>::empty());
                assert(out@ + spec_encode_tplb_elements(es@.skip(es@.len() as int)) =~= out@);
                assert(out@ =~= old(out)@ + spec_encode_class_body(c@));
            }
        },
    }
}

/// Appends one encoded 16-byte directory entry.
fn encode_description(out: &mut Vec<u8>, d: &ClassDescription)
    requires
        d@.name.len() == 4,
    ensures
        final(out)@ == old(out)@ + spec_encode_description(d@),
{
    push_bytes(out, &d.name);
    push_u32(out, d.address);
    push_u32(out, d.len);
    push_zeros(out, 4);
    proof {
        assert(out@ =~= old(out)@ + spec_encode_description(d@));
    }
}

/// Decides executably whether a table value is well formed, so that a caller
/// holding an arbitrary table can test it before asking for an encoding.
#[verifier::loop_isolation(false)]
pub fn is_well_formed(t: &Table) -> (r: bool)
    ensures
        r == well_formed(t@),
{
    let ghost dsv = t@.class_descriptions;
    let ghost csv = t@.classes;
    if t.name.len() != 4 {
        return false;
    }
    let n = t.class_descriptions.len();
    if n != t.class_count as usize || t.classes.len() != t.class_count as usize {
        return false;
    }
    let mut i: usize = 0;
    while i < n
        invariant
            i <= n,
            n == dsv.len(),
            forall|k: int| 0 <= k < i ==> (#[trigger] dsv[k]).name.len() == 4,
        decreases n - i,
    {
        if t.class_descriptions[i].name.len() != 4 {
            proof {
                assert(t.class_descriptions@[i as int]@ == dsv[i as int]);
            }
            return false;
        }
        i = i + 1;
    }

    let mut pos: u64 = (TABLE_HEADER_LEN as u64) + (DESCRIPTION_STRIDE as u64) * (
    t.class_count as u64);
    let mut i: usize = 0;
    proof {
        assert(dsv.skip(0) =~= dsv);
        assert(csv.skip(0) =~= csv);
    }
    while i < n
        invariant
            i <= n,
            n == dsv.len(),
            n == csv.len(),
            n == t.classes@.len(),
            n == t.class_descriptions@.len(),
            forall|k: int| 0 <= k < dsv.len() ==> (#[trigger] dsv[k]).name.len() == 4,
            forall|k: int| 0 <= k < i ==> class_wf(#[trigger] csv[k]),
            pos <= u32::MAX,
            layout_ok(dsv, csv, TABLE_HEADER_LEN as int + (DESCRIPTION_STRIDE as int) * (
            t.class_count as int)) <==> layout_ok(
                dsv.skip(i as int),
                csv.skip(i as int),
                pos as int,
            ),
        decreases n - i,
    {
        proof {
            assert(t.classes@[i as int]@ == csv[i as int]);
            assert(t.class_descriptions@[i as int]@ == dsv[i as int]);
            assert(dsv.skip(i as int)[0] == dsv[i as int]);
            assert(csv.skip(i as int)[0] == csv[i as int]);
            assert(dsv.skip(i as int).skip(1) =~= dsv.skip(i + 1));
            assert(csv.skip(i as int).skip(1) =~= csv.skip(i + 1));
        }
        let c = &t.classes[i];
        let element_total: u64 = match &c.kind {
            ClassKind::Gplb(es) => {
                if !(c.name.len() == 4 && c.name[0] == 0x47 && c.name[1] == 0x50 && c.name[2]
                    == 0x4C && c.name[3] == 0x42) {
                    proof {
                        assert(c.name@ != gplb_tag());
                    }
                    return false;
                }
                proof {
                    assert(c.name@ =~= gplb_tag());
                }
                if es.len() != c.element_count as usize {
                    return false;
                }
                proof {
                    assert(GPLB_STRIDE as u64 == 14u64);
                    assert(es@.len() <= u16::MAX);
                }
                (GPLB_STRIDE as u64) * (c.element_count as u64)
            },
            ClassKind::Tplb(es) => {
                if !(c.name.len() == 4 && c.name[0] == 0x54 && c.name[1] == 0x50 && c.name[2]
                    == 0x4C && c.name[3] == 0x42) {
                    proof {
                        assert(c.name@ != tplb_tag());
                    }
                    return false;
                }
                proof {
                    assert(c.name@ =~= tplb_tag());
                }
                if es.len() != c.element_count as usize {
                    return false;
                }
                proof {
                    assert(TPLB_STRIDE as u64 == 2u64);
                    assert(es@.len() <= u16::MAX);
                }
                (TPLB_STRIDE as u64) * (c.element_count as u64)
            },
        };
        proof {
            assert(class_wf(csv[i as int]));
            assert(element_total == class_kind_len(csv[i as int].kind));
        }
        let addr = t.class_descriptions[i].address as u64;
        if pos > addr {
            return false;
        }
        let body_end = addr + (CLASS_HEADER_LEN as u64) + element_total;
        if body_end > u32::MAX as u64 {
            return false;
        }
        pos = body_end;
        i = i + 1;
    }
    proof {
        assert(dsv.skip(n as int) =~= Seq::<ClassDescriptionView>::empty());
        assert(csv.skip(n as int) =~= Seq::<ClassView>::empty());
    }
    true
}

/// Encodes a well-formed table value into the byte layout the decoder reads:
/// header, packed description directory, and each class body at its declared
/// address, the gaps zero-padded.
#[verifier::loop_isolation(false)]
#[verifier::rlimit(30)]
pub fn encode_table(t: &Table) -> (out: Vec<u8>)
    requires
        well_formed(t@),
    ensures
        out@ == spec_encode_table(t@),
{
    let ghost dsv = t@.class_descriptions;
    let ghost csv = t@.classes;
    let mut out: Vec<u8> = Vec::new();
    push_bytes(&mut out, &t.name);
    push_u32(&mut out, TABLE_MAGIC);
    out.push(t.class_count);
    push_zeros(&mut out, 7);
    proof {
        assert(out@ =~= spec_encode_header(t@));
    }

    let ghost hdr = spec_encode_header(t@);
    let n = t.class_descriptions.len();
    let mut i: usize = 0;
    proof {
        assert(dsv.skip(0) =~= dsv);
        assert(out@ + spec_encode_descriptions(dsv) =~= hdr + spec_encode_descriptions(dsv));
    }
    while i < n
        invariant
            i <= n,
            n == dsv.len(),
            out@ + spec_encode_descriptions(dsv.skip(i as int)) == hdr + spec_encode_descriptions(
                dsv,
            ),
        decreases n - i,
    {
        let ghost prevout = out@;
        proof {
            assert(dsv.skip(i as int)[0] == dsv[i as int]);
            assert(t.class_descriptions@[i as int]@ == dsv[i as int]);
        }
        encode_description(&mut out, &t.class_descriptions[i]);
        i = i + 1;
        proof {
            assert(dsv.skip(i - 1).skip(1) =~= dsv.skip(i as int));
            assert(out@ + spec_encode_descriptions(dsv.skip(i as int)) =~= prevout
                + spec_encode_descriptions(dsv.skip(i - 1)));
        }
    }
    proof {
        assert(dsv.skip(n as int) =~= Seq::<ClassDescriptionView>::empty());
        assert(out@ + spec_encode_descriptions(dsv.skip(n as int)) =~= out@);
        assert(out@ =~= hdr + spec_encode_descriptions(dsv));
        lemma_encode_descriptions_len(dsv);
        assert(out@.len() == TABLE_HEADER_LEN as int + (DESCRIPTION_STRIDE as int) * (
        t.class_count as int));
        assert(csv.skip(0) =~= csv);
        assert(dsv.skip(0) =~= dsv);
        assert((hdr + spec_encode_descriptions(dsv)) + spec_encode_classes(
            dsv,
            csv,
            out@.len() as int,
        ) =~= spec_encode_table(t@));
    }

    let mut i: usize = 0;
    while i < n
        invariant
            i <= n,
            n == dsv.len(),
            n == csv.len(),
            n == t.classes@.len(),
            spec_encode_table(t@) == out@ + spec_encode_classes(
                dsv.skip(i as int),
                csv.skip(i as int),
                out@.len() as int,
            ),
            layout_ok(dsv.skip(i as int), csv.skip(i as int), out@.len() as int),
            forall|k: int| 0 <= k < csv.len() ==> class_wf(#[trigger] csv[k]),
        decreases n - i,
    {
        let ghost startout = out@;
        proof {
            assert(dsv.skip(i as int)[0] == dsv[i as int]);
            assert(csv.skip(i as int)[0] == csv[i as int]);
            assert(t.class_descriptions@[i as int]@ == dsv[i as int]);
            assert(t.classes@[i as int]@ == csv[i as int]);
        }
        let addr = t.class_descriptions[i].address as usize;
        while out.len() < addr
            invariant
                out@.len() <= addr,
                out@ == startout + zero_bytes(out@.len() - startout.len()),
            decreases addr - out@.len(),
        {
            let ghost prevout = out@;
            out.push(0);
            proof {
                assert(out@ =~= startout + zero_bytes(out@.len() - startout.len()));
            }
        }
        proof {
            assert(out@.len() == addr as int);
        }
        let ghost padded = out@;
        encode_class_body(&mut out, &t.classes[i]);
        i = i + 1;
        proof {
            lemma_encode_class_body_len(csv[i - 1]);
            assert(dsv.skip(i - 1).skip(1) =~= dsv.skip(i as int));
            assert(csv.skip(i - 1).skip(1) =~= csv.skip(i as int));
            assert(out@ =~= startout + (zero_bytes(
                dsv[i - 1].address - startout.len(),
            ) + spec_encode_class_body(csv[i - 1])));
            assert(out@ + spec_encode_classes(dsv.skip(i as int), csv.skip(i as int), out@.len() as int)
                =~= startout + spec_encode_classes(
                dsv.skip(i - 1),
                csv.skip(i - 1),
                startout.len() as int,
            ));
        }
    }
    proof {
        assert(dsv.skip(n as int) =~= Seq::<ClassDescriptionView>::empty());
        assert(csv.skip(n as int) =~= Seq::<ClassView>::empty());
        assert(out@ + spec_encode_classes(
            dsv.skip(n as int),
            csv.skip(n as int),
            out@.len() as int,
        ) =~= out@);
    }
    out
}

} // verus!
