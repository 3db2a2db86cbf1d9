use chunked_render::BoundingBox;
use chunked_render::Command;
use chunked_render::CommandType;
use chunked_render::DisplayList;
use chunked_render::DisplayListError;
use chunked_render::Rgb;

#[test]
fn set_and_get_round_trip() {
    let mut dl = DisplayList::<3>::new();
    let rect = Command::new_rect(BoundingBox::new(1, 2, 3, 4), Rgb::new(9, 8, 7));
    assert_eq!(dl.set(1, rect), Ok(()));
    let got = dl.get(1).unwrap();
    assert_eq!(got.bounds, BoundingBox::new(1, 2, 3, 4));
    assert_eq!(got.flavor, CommandType::Rect(Rgb::new(9, 8, 7)));
    // the write was stamped with the list's current generation
    assert_eq!(got.epoch, dl.generation());
}

#[test]
fn boundary_indices_fail_out_of_range() {
    // assign, mutate and read at exactly `capacity` all fail out-of-range
    let mut dl = DisplayList::<3>::new();
    let rect = Command::new_rect(BoundingBox::new(0, 0, 1, 1), Rgb::new(1, 1, 1));
    assert_eq!(dl.set(3, rect), Err(DisplayListError::IndexOutOfRange));
    assert_eq!(dl.update(3, rect), Err(DisplayListError::IndexOutOfRange));
    assert_eq!(dl.get(3), Err(DisplayListError::IndexOutOfRange));
    // and one past capacity as well
    assert_eq!(dl.set(4, rect), Err(DisplayListError::IndexOutOfRange));
}

#[test]
fn update_guards_committed_flavor() {
    // a fresh slot's committed command is the null kind, so mutating it
    // into a rectangle fails with both kinds and leaves the slot alone
    let mut dl = DisplayList::<2>::new();
    let before = dl.get(0).unwrap();
    let rect = Command::new_rect(BoundingBox::new(0, 0, 4, 4), Rgb::new(1, 2, 3));
    let r = dl.update(0, rect);
    assert_eq!(
        r,
        Err(DisplayListError::UpdateFlavorMismatch(
            CommandType::Null,
            CommandType::Rect(Rgb::new(1, 2, 3)),
        ))
    );
    assert_eq!(dl.get(0).unwrap(), before);
}

#[test]
fn update_accepts_matching_flavor() {
    let mut dl = DisplayList::<2>::new();
    // null over null is the same kind, so it is accepted
    let null_like = dl.get(0).unwrap();
    assert_eq!(dl.update(0, null_like), Ok(()));
}
