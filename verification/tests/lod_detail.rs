use veloren::lod::{clamp_lod_detail, quad_cell, Lod};

#[test]
fn clamp_lod_detail_is_clamped() {
    assert_eq!(clamp_lod_detail(0), 100);
    assert_eq!(clamp_lod_detail(99), 100);
    assert_eq!(clamp_lod_detail(101), 101);
    assert_eq!(clamp_lod_detail(2500), 2500);
    assert_eq!(clamp_lod_detail(3000), 2500);
}

#[test]
fn new_records_an_even_clamped_detail() {
    assert_eq!(Lod::new(101).get_detail(), 100);
    assert_eq!(Lod::new(777).get_detail(), 776);
    assert_eq!(Lod::new(50).get_detail(), 100);
    assert_eq!(Lod::new(2501).get_detail(), 2500);
    assert_eq!(Lod::new(u32::MAX).get_detail(), 2500);
}

#[test]
fn set_detail_makes_target_even_and_clamped() {
    let mut lod = Lod::new(300);
    assert_eq!(lod.get_detail(), 300);
    lod.set_detail(301);
    assert_eq!(lod.get_detail(), 300);
    lod.set_detail(51);
    assert_eq!(lod.get_detail(), 100);
    lod.set_detail(u32::MAX);
    assert_eq!(lod.get_detail(), 2500);
    lod.set_detail(2501);
    assert_eq!(lod.get_detail(), 2500);
    lod.set_detail(777);
    assert_eq!(lod.get_detail(), 776);
}

#[test]
fn maintain_rebuilds_only_on_change() {
    let mut lod = Lod::new(500);
    assert_eq!(lod.maintain(), Some(500));
    assert_eq!(lod.maintain(), None);
    lod.set_detail(501);
    assert_eq!(lod.maintain(), None);
    lod.set_detail(600);
    assert_eq!(lod.maintain(), Some(600));
    assert_eq!(lod.maintain(), None);
}

#[test]
fn quad_cells_around_the_hole() {
    // detail 100: the side is 101 and the middle is at 50
    assert_eq!(quad_cell(0, 0, 100), (50, 50, 1));
    assert_eq!(quad_cell(1, 0, 100), (51, 50, 0));
    assert_eq!(quad_cell(0, 1, 100), (50, 51, 0));
    assert_eq!(quad_cell(1, 1, 100), (51, 51, 1));
    assert_eq!(quad_cell(-1, -1, 100), (49, 49, 1));
    assert_eq!(quad_cell(-50, 50, 100), (0, 100, 0));
}
