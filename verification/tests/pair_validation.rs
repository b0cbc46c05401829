//! Validation tests for the group/track listing consistency model: consistent
//! pairs pass, and each kind of cross-reference damage is found and named.

use omadb::validate_pair;
use omadb::Axis;
use omadb::GplbElement;
use omadb::IndexViolation;
use omadb::TplbElement;

fn group(id: u16, association: u16, title_id: u16) -> GplbElement {
    GplbElement { id, association, title_id }
}

fn tracks(title_ids: &[u16]) -> Vec<TplbElement> {
    title_ids.iter().map(|&title_id| TplbElement { title_id }).collect()
}

/// The group listing of the documented `TREE` scenario: two groups in use,
/// starting at track-listing positions 1 and 3, then one empty group.
fn tree_gplb() -> Vec<GplbElement> {
    vec![group(1, 0x0100, 1), group(2, 0x0100, 3), group(3, 0x0000, 0)]
}

fn tree_tplb() -> Vec<TplbElement> {
    tracks(&[1, 2, 3, 4, 5, 6, 7, 8, 9])
}

#[test]
fn consistent_tree_pair_validates() {
    assert!(validate_pair(Axis::UploadOrder, &tree_gplb(), &tree_tplb()).is_ok());
}

#[test]
fn empty_pair_validates() {
    assert!(validate_pair(Axis::Artist, &vec![], &vec![]).is_ok());
}

#[test]
fn all_unused_groups_validate() {
    let gplb = vec![group(1, 0, 0), group(2, 0, 0)];
    assert!(validate_pair(Axis::Genre, &gplb, &vec![]).is_ok());
}

#[test]
fn out_of_range_reference_is_found() {
    // The third group claims its first track at position 99 of a 9-track
    // listing.
    let gplb = vec![group(1, 0x0100, 1), group(2, 0x0100, 3), group(3, 0x0100, 99)];
    let f = validate_pair(Axis::UploadOrder, &gplb, &tree_tplb()).unwrap_err();
    assert_eq!(f.axis, Axis::UploadOrder);
    assert_eq!(f.detail, IndexViolation::TitleIdOutOfRange { index: 2, title_id: 99 });
}

#[test]
fn zero_reference_of_a_used_group_is_found() {
    // Track-listing positions are 1-based: 0 cannot be a first track.
    let gplb = vec![group(1, 0x0100, 0)];
    let f = validate_pair(Axis::Album, &gplb, &tree_tplb()).unwrap_err();
    assert_eq!(f.detail, IndexViolation::TitleIdOutOfRange { index: 0, title_id: 0 });
}

#[test]
fn duplicate_title_is_found() {
    let tplb = tracks(&[4, 7, 4]);
    let f = validate_pair(Axis::Artist, &tree_gplb(), &tplb).unwrap_err();
    assert_eq!(f.axis, Axis::Artist);
    assert_eq!(f.detail, IndexViolation::DuplicateTitleId { first: 0, second: 2, title_id: 4 });
}

#[test]
fn first_group_must_open_the_listing() {
    let gplb = vec![group(1, 0x0100, 2)];
    let f = validate_pair(Axis::Genre, &gplb, &tracks(&[7, 8])).unwrap_err();
    assert_eq!(f.detail, IndexViolation::GroupOrderViolation { index: 0 });
}

#[test]
fn group_starts_must_increase() {
    let gplb = vec![group(1, 0x0100, 1), group(2, 0x0100, 1)];
    let f = validate_pair(Axis::ArtistAlbum, &gplb, &tracks(&[4, 5])).unwrap_err();
    assert_eq!(f.detail, IndexViolation::GroupOrderViolation { index: 1 });
}

#[test]
fn unused_groups_must_form_the_suffix() {
    let gplb = vec![group(1, 0x0100, 1), group(2, 0x0000, 0), group(3, 0x0100, 2)];
    let f = validate_pair(Axis::UploadOrder, &gplb, &tracks(&[6, 9])).unwrap_err();
    assert_eq!(f.detail, IndexViolation::UsedAfterUnused { index: 2 });
}

#[test]
fn damaging_one_reference_breaks_a_consistent_pair() {
    // Mutating any single in-use group's reference out of range must turn
    // validation from success into an inconsistency finding.
    let tplb = tree_tplb();
    assert!(validate_pair(Axis::UploadOrder, &tree_gplb(), &tplb).is_ok());
    for index in [0usize, 1] {
        let mut gplb = tree_gplb();
        gplb[index].title_id = (tplb.len() + 1) as u16;
        assert!(validate_pair(Axis::UploadOrder, &gplb, &tplb).is_err());
    }
}
