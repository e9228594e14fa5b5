use oui::{max, min, Item, Rect, Vec2};

#[test]
fn vec2_zero_and_index() {
    let v = Vec2::zero();
    assert_eq!(v, Vec2 { x: 0, y: 0 });
    let mut w = Vec2 { x: 3, y: -4 };
    assert_eq!(w.index(0), 3);
    assert_eq!(w.index(1), -4);
    *w.index_mut(1) = 9;
    assert_eq!(w, Vec2 { x: 3, y: 9 });
}

#[test]
fn rect_zero_and_index() {
    assert_eq!(Rect::zero(), Rect { x: 0, y: 0, w: 0, h: 0 });
    let mut r = Rect { x: 1, y: 2, w: 3, h: 4 };
    assert_eq!(r.index(0), 1);
    assert_eq!(r.index(1), 2);
    assert_eq!(r.index(2), 3);
    assert_eq!(r.index(3), 4);
    *r.index_mut(2) = 30;
    *r.index_mut(3) = 40;
    assert_eq!(r, Rect { x: 1, y: 2, w: 30, h: 40 });
}

#[test]
fn max_and_min() {
    assert_eq!(max(3, 7), 7);
    assert_eq!(max(-3, -7), -3);
    assert_eq!(max(5, 5), 5);
    assert_eq!(min(3, 7), 3);
    assert_eq!(min(-3, -7), -7);
    assert_eq!(min(5, 5), 5);
}

#[test]
fn item_none_is_invalid() {
    let n = Item::none();
    assert!(!n.valid());
    assert!(n.invalid());
    assert_eq!(n, Item::none());
}

