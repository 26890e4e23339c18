use communication::motion::{Side, SupportFoot};

#[test]
fn opposite_side_swaps() {
    assert_eq!(Side::Left.opposite(), Side::Right);
    assert_eq!(Side::Right.opposite(), Side::Left);
    assert_eq!(Side::Left.opposite().opposite(), Side::Left);
}

#[test]
fn default_side_is_left() {
    assert_eq!(Side::default(), Side::Left);
}

#[test]
fn default_support_foot_is_unknown() {
    let foot = SupportFoot::default();
    assert_eq!(foot.support_side, None);
    assert!(!foot.changed_this_cycle);
}
