use raytracer::resolution::sort_by_width;
use raytracer::Resolution;

fn res(width: i32, height: i32) -> Resolution {
    Resolution::new(width, height)
}

#[test]
fn new_keeps_both_sides() {
    let r = Resolution::new(1600, 1200);
    assert_eq!(r.width, 1600);
    assert_eq!(r.height, 1200);
    assert_eq!(r, Resolution { width: 1600, height: 1200 });
}

#[test]
fn available_is_the_catalog_in_order() {
    let expected = vec![
        res(400, 300),
        res(480, 270),
        res(800, 600),
        res(960, 540),
        res(1600, 1200),
        res(1920, 1080),
        res(3200, 2400),
        res(3840, 2160),
        res(6400, 4800),
        res(7680, 4320),
    ];
    assert_eq!(Resolution::available(), expected);
}

#[test]
fn available_is_sorted_by_ascending_width() {
    let list = Resolution::available();
    assert_eq!(list.len(), 10);
    for pair in list.windows(2) {
        assert!(pair[0].width <= pair[1].width);
    }
}

#[test]
fn available_is_the_same_on_every_call() {
    assert_eq!(Resolution::available(), Resolution::available());
}

#[test]
fn scaled_by_zero_changes_nothing() {
    assert_eq!(res(1920, 1080).scaled(0), res(1920, 1080));
}

#[test]
fn scaled_up_doubles_for_each_step() {
    assert_eq!(res(1600, 1200).scaled(1), res(3200, 2400));
    assert_eq!(res(1600, 1200).scaled(2), res(6400, 4800));
    assert_eq!(res(3, -5).scaled(4), res(48, -80));
}

#[test]
fn scaled_down_halves_for_each_step() {
    assert_eq!(res(1600, 1200).scaled(-1), res(800, 600));
    assert_eq!(res(1920, 1080).scaled(-2), res(480, 270));
}

#[test]
fn scaled_down_rounds_toward_zero() {
    assert_eq!(res(7, -7).scaled(-1), res(3, -3));
    assert_eq!(res(1, -1).scaled(-1), res(0, 0));
    assert_eq!(res(1081, -1081).scaled(-3), res(135, -135));
}

#[test]
fn scaled_up_stops_at_the_bounds_of_i32() {
    assert_eq!(res(i32::MAX, i32::MIN).scaled(1), res(i32::MAX, i32::MIN));
    assert_eq!(res(1 << 30, -(1 << 30)).scaled(1), res(i32::MAX, i32::MIN));
    assert_eq!(res(1, -1).scaled(31), res(i32::MAX, i32::MIN));
    assert_eq!(res(1, -1).scaled(30), res(1 << 30, -(1 << 30)));
    assert_eq!(res(1, -1).scaled(i32::MAX), res(i32::MAX, i32::MIN));
}

#[test]
fn scaled_keeps_zero_at_any_exponent() {
    assert_eq!(res(0, 0).scaled(i32::MAX), res(0, 0));
    assert_eq!(res(0, 0).scaled(i32::MIN), res(0, 0));
}

#[test]
fn scaled_far_down_leaves_nothing() {
    assert_eq!(res(i32::MAX, i32::MIN).scaled(-31), res(0, -1));
    assert_eq!(res(i32::MAX, i32::MIN).scaled(-32), res(0, 0));
    assert_eq!(res(i32::MAX, i32::MIN).scaled(i32::MIN), res(0, 0));
    assert_eq!(res(i32::MAX, i32::MIN).scaled(-30), res(1, -2));
}

#[test]
fn sort_by_width_orders_and_keeps_every_entry() {
    let mut list = vec![res(30, 1), res(10, 2), res(20, 3), res(10, 4), res(5, 5)];
    sort_by_width(&mut list);
    assert_eq!(list, vec![res(5, 5), res(10, 2), res(10, 4), res(20, 3), res(30, 1)]);
}

#[test]
fn sort_by_width_keeps_the_order_of_equal_widths() {
    let mut list = vec![res(7, 3), res(7, 1), res(7, 2), res(6, 9), res(7, 0)];
    sort_by_width(&mut list);
    assert_eq!(list, vec![res(6, 9), res(7, 3), res(7, 1), res(7, 2), res(7, 0)]);
}

#[test]
fn sort_by_width_leaves_a_sorted_list_alone() {
    let mut list = Resolution::available();
    sort_by_width(&mut list);
    assert_eq!(list, Resolution::available());
    let mut empty: Vec<Resolution> = Vec::new();
    sort_by_width(&mut empty);
    assert!(empty.is_empty());
}

#[test]
fn sort_by_width_reverses_a_descending_list() {
    let mut list = vec![res(4, 0), res(3, 0), res(2, 0), res(1, 0)];
    sort_by_width(&mut list);
    assert_eq!(list, vec![res(1, 0), res(2, 0), res(3, 0), res(4, 0)]);
}

#[test]
fn size_is_given_for_sides_that_are_not_negative() {
    assert_eq!(res(800, 600).size(), Some((800, 600)));
    assert_eq!(res(0, 0).size(), Some((0, 0)));
    assert_eq!(res(-1, 600).size(), None);
    assert_eq!(res(800, -1).size(), None);
}

#[test]
fn label_is_width_x_height() {
    assert_eq!(res(800, 600).label(), "800x600");
    assert_eq!(res(7680, 4320).label(), "7680x4320");
    assert_eq!(res(0, 9).label(), "0x9");
    assert_eq!(res(10, 100).label(), "10x100");
    assert_eq!(res(-12, 5).label(), "-12x5");
    assert_eq!(res(i32::MAX, i32::MIN).label(), "2147483647x-2147483648");
}

#[test]
fn label_agrees_with_the_decimal_form_of_std() {
    for r in Resolution::available() {
        assert_eq!(r.label(), format!("{}x{}", r.width, r.height));
    }
}
