use photo2video::shares::{grade_weights, layer_weights, share_of};
use photo2video::signed::{from_bits, Signed};
use photo2video::single::Single;
use photo2video::smoke::{Region, Shape};

fn num(v: f32) -> Signed {
    from_bits(v.to_bits()).unwrap()
}

fn rect(x0: f32, y0: f32, x1: f32, y1: f32) -> Shape {
    Shape::Rect(Region { x0: num(x0), y0: num(y0), x1: num(x1), y1: num(y1) })
}

#[test]
fn numbers_become_shares() {
    assert_eq!(share_of(num(-0.5)), num(0.0).size);
    assert_eq!(share_of(num(0.375)), num(0.375).size);
    assert_eq!(share_of(num(7.0)), Single::unit());
}

#[test]
fn a_grade_without_shapes_is_for_all() {
    assert!(grade_weights(Vec::new(), 20, 100, false, 8, 6).is_none());
}

#[test]
fn a_grade_is_for_what_its_shapes_pick_out() {
    let left = || vec![rect(0.0, 0.0, 0.5, 1.0)];
    let at = |v: &Vec<Single>, x: usize| v[5 * 40 + x];
    let v = grade_weights(left(), 0, 100, false, 40, 10).unwrap();
    assert_eq!(v.len(), 400);
    assert_eq!((at(&v, 5), at(&v, 35)), (Single::unit(), num(0.0).size));
    let v = grade_weights(left(), 0, 100, true, 40, 10).unwrap();
    assert_eq!((at(&v, 5), at(&v, 35)), (num(0.0).size, Single::unit()));
}

#[test]
fn a_layer_without_usable_shapes_holds_nothing_back() {
    assert!(layer_weights(Vec::new(), 20, 100, false, 8, 6).is_none());
    let dot = vec![rect(0.5, 0.5, 0.5, 0.5)];
    assert!(layer_weights(dot, 20, 100, true, 8, 6).is_none());
    let v = layer_weights(vec![rect(0.0, 0.0, 0.5, 1.0)], 0, 100, true, 40, 10).unwrap();
    assert_eq!((v[5], v[35]), (num(0.0).size, Single::unit()));
}
