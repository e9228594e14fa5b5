use oui::{
    Context, EventFlags, EventHandler, Item, ItemState, Rect, Vec2, APPEND, BUTTON0_CAPTURE,
    BUTTON0_DOWN, BUTTON0_HOT_UP, BUTTON0_UP, CENTER, HFILL, LEFT, RIGHT, TOP,
};

/// Counts the events an item receives in its widget.
#[derive(Clone, Copy)]
struct Counter;

impl EventHandler<u32> for Counter {
    fn handle(self, ui: &mut Context<u32, Counter>, item: Item, _event: EventFlags) {
        *ui.get_widget(item) += 1;
    }
}

/// Anchors each new kid to the left of the previous one, like a row.
#[derive(Clone, Copy)]
struct Row;

impl EventHandler<u32> for Row {
    fn handle(self, ui: &mut Context<u32, Row>, parent: Item, event: EventFlags) {
        assert_eq!(event, APPEND);
        let item = ui.last_child(parent);
        let last = ui.prev_sibling(item);
        ui.set_rel_to_left(item, last);
        ui.set_layout(item, LEFT | TOP);
    }
}

fn ctx() -> Context<u32, Counter> {
    Context::create_context()
}

#[test]
fn fresh_context() {
    let mut ui = ctx();
    assert!(ui.root().invalid());
    assert_eq!(ui.get_cursor(), Vec2 { x: 0, y: 0 });
    assert_eq!(ui.get_cursor_start(), Vec2 { x: 0, y: 0 });
    assert_eq!(ui.get_cursor_delta(), Vec2 { x: 0, y: 0 });
    assert_eq!(ui.get_active_rect(), Rect::zero());
    assert!(!ui.get_button(0));
    assert!(!ui.get_last_button(0));
}

#[test]
fn buttons() {
    let mut ui = ctx();
    ui.set_button(0, true);
    ui.set_button(5, true);
    assert!(ui.get_button(0));
    assert!(ui.get_button(5));
    assert!(!ui.get_button(1));
    assert!(ui.button_pressed(0));
    assert!(!ui.button_released(0));
    ui.set_button(0, false);
    assert!(!ui.get_button(0));
    assert!(ui.get_button(5));
    assert!(!ui.button_pressed(0));
    ui.set_button(63, true);
    assert!(ui.get_button(63));
}

#[test]
fn buttons_across_frames() {
    let mut ui = ctx();
    ui.item(0);
    ui.set_button(0, true);
    assert!(ui.button_pressed(0));
    ui.process();
    assert!(ui.get_last_button(0));
    assert!(ui.get_button(0));
    assert!(!ui.button_pressed(0));
    ui.set_button(0, false);
    assert!(ui.button_released(0));
    assert!(!ui.get_button(0));
    ui.process();
    assert!(!ui.button_released(0));
    assert!(!ui.get_last_button(0));
}

#[test]
fn process_on_empty_context_changes_nothing() {
    let mut ui = ctx();
    ui.set_button(0, true);
    ui.set_cursor(3, 4);
    ui.process();
    assert!(ui.button_pressed(0));
    assert!(!ui.get_last_button(0));
    assert_eq!(ui.get_cursor_start(), Vec2 { x: 0, y: 0 });
    assert_eq!(ui.get_cursor_delta(), Vec2 { x: 3, y: 4 });
    assert!(ui.is_hot(Item::none()));
    assert!(ui.is_active(Item::none()));
}

#[test]
fn cursor_deltas() {
    let mut ui = ctx();
    ui.set_cursor(10, -4);
    assert_eq!(ui.get_cursor(), Vec2 { x: 10, y: -4 });
    assert_eq!(ui.get_cursor_delta(), Vec2 { x: 10, y: -4 });
    assert_eq!(ui.get_cursor_start_delta(), Vec2 { x: 10, y: -4 });
    ui.set_cursor(i32::MIN, 0);
    assert_eq!(ui.get_cursor_delta(), Vec2 { x: i32::MIN, y: 0 });
}

#[test]
fn items_and_tree_links() {
    let mut ui = ctx();
    let root = ui.item(0);
    let a = ui.item(0);
    let b = ui.item(0);
    let c = ui.item(0);
    assert_eq!(ui.root(), root);
    assert!(ui.parent(a).invalid());
    assert_eq!(ui.append(root, a), a);
    assert_eq!(ui.append(root, b), b);
    assert_eq!(ui.append(b, c), c);
    assert_eq!(ui.get_child_count(root), 2);
    assert_eq!(ui.first_child(root), a);
    assert_eq!(ui.last_child(root), b);
    assert_eq!(ui.next_sibling(a), b);
    assert!(ui.next_sibling(b).invalid());
    assert_eq!(ui.prev_sibling(b), a);
    assert!(ui.prev_sibling(a).invalid());
    assert_eq!(ui.parent(a), root);
    assert_eq!(ui.parent(c), b);
    assert_eq!(ui.get_child_id(a), 0);
    assert_eq!(ui.get_child_id(b), 1);
    assert_eq!(ui.get_child_id(c), 0);
    assert_eq!(ui.get_child_count(b), 1);
    assert_eq!(ui.first_child(b), c);
    assert!(ui.first_child(c).invalid());
}

#[test]
fn clear_removes_items() {
    let mut ui = ctx();
    let root = ui.item(0);
    let _a = ui.item(0);
    ui.clear();
    assert!(ui.root().invalid());
    let again = ui.item(0);
    assert_eq!(again, root);
}

#[test]
fn append_notifies_parent() {
    let mut ui = ctx();
    let root = ui.item(0);
    let a = ui.item(0);
    ui.set_handler(root, Some(Counter), APPEND);
    ui.append(root, a);
    assert_eq!(*ui.get_widget(root), 1);
    assert_eq!(*ui.get_widget(a), 0);
    ui.set_handler(root, Some(Counter), BUTTON0_DOWN);
    let b = ui.item(0);
    ui.append(root, b);
    assert_eq!(*ui.get_widget(root), 1);
}

#[test]
fn notify_only_for_listed_events() {
    let mut ui = ctx();
    let root = ui.item(0);
    ui.notify_item(root, BUTTON0_DOWN);
    assert_eq!(*ui.get_widget(root), 0);
    ui.set_handler(root, Some(Counter), BUTTON0_DOWN | BUTTON0_UP);
    ui.notify_item(root, BUTTON0_UP);
    ui.notify_item(root, BUTTON0_CAPTURE);
    ui.notify_item(root, BUTTON0_DOWN);
    assert_eq!(*ui.get_widget(root), 2);
    assert!(ui.get_handler(root).is_some());
    assert_eq!(ui.get_handler_flags(root), BUTTON0_DOWN | BUTTON0_UP);
}

#[test]
fn widget_access() {
    let mut ui = ctx();
    let root = ui.item(7);
    assert_eq!(*ui.get_widget(root), 7);
    *ui.get_widget(root) = 11;
    assert_eq!(*ui.get_widget(root), 11);
}

#[test]
fn item_attributes_round_trip() {
    let mut ui = ctx();
    let root = ui.item(0);
    let a = ui.item(0);
    let b = ui.item(0);
    ui.append(root, a);
    ui.append(root, b);
    ui.set_size(a, 30, 40);
    assert_eq!(ui.get_width(a), 30);
    assert_eq!(ui.get_height(a), 40);
    ui.set_size(a, u32::MAX, 0);
    assert_eq!(ui.get_width(a), u32::MAX);
    ui.set_layout(a, HFILL | TOP);
    assert_eq!(ui.get_layout(a), HFILL | TOP);
    ui.set_margins(a, 1, 2, 3, 4);
    assert_eq!(ui.get_margin_left(a), 1);
    assert_eq!(ui.get_margin_top(a), 2);
    assert_eq!(ui.get_margin_right(a), 3);
    assert_eq!(ui.get_margin_down(a), 4);
    ui.set_rel_to_left(b, a);
    ui.set_rel_to_top(b, a);
    ui.set_rel_to_right(a, b);
    ui.set_rel_to_down(a, b);
    assert_eq!(ui.get_rel_to_left(b), a);
    assert_eq!(ui.get_rel_to_top(b), a);
    assert_eq!(ui.get_rel_to_right(a), b);
    assert_eq!(ui.get_rel_to_down(a), b);
    assert!(ui.get_rel_to_left(a).invalid());
    ui.set_rel_to_left(b, Item::none());
    assert!(ui.get_rel_to_left(b).invalid());
    ui.set_tag(a, 42);
    assert_eq!(ui.get_tag(a), 42);
    assert_eq!(ui.get_rect(a), Rect::zero());
}

#[test]
fn item_states() {
    let mut ui = ctx();
    let root = ui.item(0);
    assert_eq!(ui.get_state(root), ItemState::COLD);
    ui.set_frozen(root, true);
    assert_eq!(ui.get_state(root), ItemState::FROZEN);
    ui.set_frozen(root, false);
    assert_eq!(ui.get_state(root), ItemState::COLD);
}

fn scene(flags: u32, size: (u32, u32), margins: (i32, i32, i32, i32)) -> (Context<u32, Counter>, Item, Item) {
    let mut ui = ctx();
    let root = ui.item(0);
    ui.set_size(root, 200, 100);
    let c = ui.item(0);
    ui.set_size(c, size.0, size.1);
    ui.set_layout(c, flags);
    ui.set_margins(c, margins.0, margins.1, margins.2, margins.3);
    ui.append(root, c);
    ui.layout();
    (ui, root, c)
}

#[test]
fn layout_anchored_top_left() {
    let (mut ui, root, c) = scene(LEFT | TOP, (50, 20), (5, 7, 0, 0));
    assert_eq!(ui.get_rect(root), Rect { x: 0, y: 0, w: 200, h: 100 });
    assert_eq!(ui.get_rect(c), Rect { x: 5, y: 7, w: 50, h: 20 });
}

#[test]
fn layout_anchored_bottom_right() {
    let (mut ui, _root, c) = scene(RIGHT | oui::DOWN, (50, 20), (0, 0, 5, 7));
    assert_eq!(ui.get_rect(c), Rect { x: 145, y: 73, w: 50, h: 20 });
}

#[test]
fn layout_fill_horizontally() {
    let (mut ui, _root, c) = scene(HFILL | TOP, (0, 20), (10, 0, 10, 0));
    assert_eq!(ui.get_rect(c), Rect { x: 10, y: 0, w: 180, h: 20 });
}

#[test]
fn layout_fill_keeps_fixed_size() {
    let (mut ui, _root, c) = scene(HFILL | TOP, (50, 20), (10, 0, 10, 0));
    assert_eq!(ui.get_rect(c), Rect { x: 10, y: 0, w: 50, h: 20 });
    assert_eq!(ui.get_width(c), 50);
    assert_eq!(ui.get_height(c), 20);
}

#[test]
fn layout_changes_only_geometry() {
    let (mut ui, root, c) = scene(RIGHT | TOP, (50, 20), (1, 2, 3, 4));
    ui.set_tag(c, 42);
    ui.layout();
    assert_eq!(ui.get_tag(c), 42);
    assert_eq!(ui.get_layout(c), RIGHT | TOP);
    assert_eq!(ui.get_margin_left(c), 1);
    assert_eq!(ui.get_margin_top(c), 2);
    assert_eq!(ui.get_margin_right(c), 3);
    assert_eq!(ui.get_margin_down(c), 4);
    assert_eq!(ui.get_width(c), 50);
    assert_eq!(ui.get_height(c), 20);
    assert_eq!(ui.parent(c), root);
    assert_eq!(ui.first_child(root), c);
    assert_eq!(ui.get_child_count(root), 1);
    assert_eq!(ui.get_rect(c), Rect { x: 147, y: 2, w: 50, h: 20 });
}

#[test]
fn layout_centered() {
    let (mut ui, _root, c) = scene(CENTER, (50, 20), (0, 0, 0, 0));
    assert_eq!(ui.get_rect(c), Rect { x: 75, y: 40, w: 50, h: 20 });
}

#[test]
fn layout_root_grows_to_fit() {
    let mut ui = ctx();
    let root = ui.item(0);
    let c = ui.item(0);
    ui.set_size(c, 50, 20);
    ui.set_layout(c, LEFT | TOP);
    ui.set_margins(c, 5, 7, 0, 0);
    ui.append(root, c);
    ui.layout();
    assert_eq!(ui.get_rect(root), Rect { x: 0, y: 0, w: 55, h: 27 });
    assert_eq!(ui.get_rect(c), Rect { x: 5, y: 7, w: 50, h: 20 });
}

#[test]
fn layout_row_chain() {
    let mut ui = ctx();
    let root = ui.item(0);
    let a = ui.item(0);
    let b = ui.item(0);
    ui.set_size(a, 30, 10);
    ui.set_size(b, 40, 10);
    ui.append(root, a);
    ui.append(root, b);
    ui.set_layout(a, LEFT);
    ui.set_layout(b, LEFT);
    ui.set_rel_to_left(b, a);
    ui.layout();
    assert_eq!(ui.get_rect(root), Rect { x: 0, y: 0, w: 70, h: 10 });
    assert_eq!(ui.get_rect(a), Rect { x: 0, y: 0, w: 30, h: 10 });
    assert_eq!(ui.get_rect(b), Rect { x: 30, y: 0, w: 40, h: 10 });
}

#[test]
fn layout_row_built_by_append_handler() {
    let mut ui: Context<u32, Row> = Context::create_context();
    let root = ui.item(0);
    ui.set_handler(root, Some(Row), APPEND);
    let a = ui.item(0);
    ui.set_size(a, 30, 10);
    ui.append(root, a);
    let b = ui.item(0);
    ui.set_size(b, 40, 10);
    ui.append(root, b);
    assert_eq!(ui.get_rel_to_left(b), a);
    assert_eq!(ui.get_layout(b), LEFT | TOP);
    ui.layout();
    assert_eq!(ui.get_rect(b), Rect { x: 30, y: 0, w: 40, h: 10 });
}

#[test]
fn layout_empty_context() {
    let mut ui = ctx();
    ui.layout();
    ui.process();
    assert!(ui.root().invalid());
}

#[test]
fn hit_testing() {
    let (mut ui, root, c) = scene(LEFT | TOP, (50, 20), (5, 7, 0, 0));
    assert_eq!(ui.find_item(root, 10, 10, 0, 0), c);
    assert_eq!(ui.find_item(root, 100, 50, 0, 0), root);
    assert!(ui.find_item(root, 300, 50, 0, 0).invalid());
    assert!(ui.find_item(root, -1, 50, 0, 0).invalid());
    ui.set_frozen(c, true);
    assert_eq!(ui.find_item(root, 10, 10, 0, 0), root);
    ui.set_frozen(root, true);
    assert!(ui.find_item(root, 10, 10, 0, 0).invalid());
}

#[test]
fn hit_testing_skips_frozen_items() {
    let (mut ui, root, c) = scene(LEFT | TOP, (50, 20), (5, 7, 0, 0));
    ui.set_frozen(c, true);
    assert_eq!(ui.find_item(root, 10, 10, 0, 0), root);
    ui.set_frozen(root, true);
    assert!(ui.find_item(root, 10, 10, 0, 0).invalid());
    ui.set_frozen(root, false);
    ui.set_frozen(c, false);
    assert_eq!(ui.find_item(root, 10, 10, 0, 0), c);
    assert!(ui.find_item(root, 300, 10, 0, 0).invalid());
}

#[test]
fn hover_and_click() {
    let (mut ui, root, c) = scene(LEFT | TOP, (50, 20), (5, 7, 0, 0));
    ui.set_handler(c, Some(Counter), BUTTON0_DOWN | BUTTON0_UP | BUTTON0_HOT_UP);
    ui.set_cursor(10, 10);
    ui.process();
    assert!(ui.is_hot(c));
    assert!(!ui.is_active(c));
    assert_eq!(ui.get_state(c), ItemState::HOT);
    assert_eq!(ui.get_state(root), ItemState::COLD);
    assert_eq!(*ui.get_widget(c), 0);
    // press: the item becomes active and gets BUTTON0_DOWN
    ui.set_button(0, true);
    ui.process();
    assert!(ui.is_active(c));
    assert!(!ui.is_hot(c));
    assert_eq!(ui.get_state(c), ItemState::ACTIVE);
    assert_eq!(*ui.get_widget(c), 1);
    assert_eq!(ui.get_active_rect(), Rect { x: 10, y: 14, w: 50, h: 20 });
    assert_eq!(ui.get_cursor_start(), Vec2 { x: 10, y: 10 });
    // held over the item: it stays hot and active
    ui.process();
    assert!(ui.is_hot(c));
    assert_eq!(*ui.get_widget(c), 1);
    // release over the item: BUTTON0_UP and BUTTON0_HOT_UP
    ui.set_button(0, false);
    ui.process();
    assert!(!ui.is_active(c));
    assert_eq!(*ui.get_widget(c), 3);
}

#[test]
fn capture_and_release_elsewhere() {
    let (mut ui, root, c) = scene(LEFT | TOP, (50, 20), (5, 7, 0, 0));
    ui.set_handler(c, Some(Counter), BUTTON0_CAPTURE | BUTTON0_UP | BUTTON0_HOT_UP);
    ui.set_cursor(10, 10);
    ui.set_button(0, true);
    ui.process();
    assert!(ui.is_active(c));
    assert_eq!(*ui.get_widget(c), 0);
    ui.set_cursor(150, 80);
    assert_eq!(ui.get_cursor_delta(), Vec2 { x: 140, y: 70 });
    assert_eq!(ui.get_cursor_start_delta(), Vec2 { x: 140, y: 70 });
    ui.process();
    assert_eq!(*ui.get_widget(c), 1);
    assert!(!ui.is_hot(c));
    assert!(!ui.is_hot(root));
    ui.set_button(0, false);
    ui.process();
    assert_eq!(*ui.get_widget(c), 2);
    assert!(!ui.is_active(c));
    assert_eq!(ui.get_cursor_delta(), Vec2 { x: 0, y: 0 });
}

#[test]
fn active_state_rules() {
    let (mut ui, _root, c) = scene(LEFT | TOP, (50, 20), (5, 7, 0, 0));
    ui.set_handler(c, Some(Counter), BUTTON0_DOWN);
    ui.set_cursor(10, 10);
    ui.set_button(0, true);
    ui.process();
    assert!(ui.is_active(c));
    assert_eq!(ui.get_state(c), ItemState::COLD);
    ui.set_handler(c, Some(Counter), BUTTON0_CAPTURE);
    assert_eq!(ui.get_state(c), ItemState::ACTIVE);
    ui.set_handler(c, Some(Counter), BUTTON0_HOT_UP);
    assert_eq!(ui.get_state(c), ItemState::COLD);
    ui.process();
    assert!(ui.is_hot(c));
    assert_eq!(ui.get_state(c), ItemState::ACTIVE);
}

#[test]
fn tags_follow_items() {
    let (mut ui, root, c) = scene(LEFT | TOP, (50, 20), (5, 7, 0, 0));
    ui.set_tag(c, 5);
    ui.set_cursor(10, 10);
    ui.process();
    assert!(ui.is_hot(c));
    // the same tag on another item makes that item hot
    ui.set_tag(root, 5);
    assert!(ui.is_hot(root));
    assert!(!ui.is_hot(c));
    // the tag that means "none" never does
    ui.set_tag(c, u64::MAX);
    assert!(ui.is_hot(root));
}

#[test]
fn item_data() {
    let mut ui = ctx();
    let root = ui.item(0);
    let a = ui.item(0);
    assert!(ui.get_data(root).is_empty());
    {
        let d = ui.alloc_data(root, 4);
        assert_eq!(d, &[0u8, 0, 0, 0][..]);
        d.copy_from_slice(&[1, 2, 3, 4]);
    }
    {
        let e = ui.alloc_data(a, 2);
        assert_eq!(e.len(), 2);
        e[0] = 9;
    }
    assert_eq!(ui.get_data(root), &[1u8, 2, 3, 4][..]);
    assert_eq!(ui.get_data(a), &[9u8, 0][..]);
    ui.get_data(root)[3] = 7;
    assert_eq!(ui.get_data(root), &[1u8, 2, 3, 7][..]);
}

#[test]
fn item_data_of_the_largest_size() {
    let mut ui = ctx();
    let root = ui.item(0);
    let d = ui.alloc_data(root, oui::MAX_DATASIZE);
    assert_eq!(d.len(), 4096);
    assert_eq!(ui.get_data(root).len(), 4096);
}

#[test]
fn layout_ready_checks_anchors() {
    let mut ui = ctx();
    let root = ui.item(0);
    let a = ui.item(0);
    let b = ui.item(0);
    ui.append(root, a);
    ui.append(root, b);
    assert!(ui.layout_ready());
    // anchoring to a sibling made later is fine
    ui.set_layout(a, RIGHT);
    ui.set_rel_to_right(a, b);
    assert!(ui.layout_ready());
    // a walk that never ends is not
    ui.set_layout(b, RIGHT);
    ui.set_rel_to_right(b, a);
    assert!(!ui.layout_ready());
    ui.set_layout(b, LEFT);
    ui.set_rel_to_right(b, Item::none());
    ui.set_rel_to_left(b, a);
    ui.set_layout(a, LEFT);
    ui.set_rel_to_right(a, Item::none());
    ui.set_size(a, u32::MAX, 10);
    assert!(!ui.layout_ready());
    ui.set_size(a, 30, 10);
    assert!(ui.layout_ready());
    ui.layout();
    assert_eq!(ui.get_rect(b).x, 30);
}

#[test]
fn second_layout_gives_the_same_rects() {
    let mut ui = ctx();
    let root = ui.item(0);
    let a = ui.item(0);
    let b = ui.item(0);
    ui.append(root, a);
    ui.append(root, b);
    ui.set_layout(a, HFILL);
    ui.set_margins(a, 10, 0, 0, 0);
    ui.set_layout(b, HFILL);
    ui.set_rel_to_left(b, a);
    ui.layout();
    assert_eq!(ui.get_rect(root).w, 10);
    assert_eq!(ui.get_rect(a), Rect { x: 10, y: 0, w: 0, h: 0 });
    assert_eq!(ui.get_rect(b), Rect { x: 0, y: 0, w: 10, h: 0 });
    // the size pass measures stretched items afresh
    ui.layout();
    assert_eq!(ui.get_rect(root).w, 10);
    assert_eq!(ui.get_rect(a), Rect { x: 10, y: 0, w: 0, h: 0 });
    assert_eq!(ui.get_rect(b), Rect { x: 0, y: 0, w: 10, h: 0 });
}
