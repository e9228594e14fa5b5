use vstd::prelude::*;

verus! {

/// An opaque tag that the application gives an item to recognise it across frames.
pub type Tag = u64;

/// Layout anchoring flags of an item.
pub type LayoutFlags = u32;

/// anchor to left item or left side of parent
pub const LEFT: LayoutFlags = 1;

/// anchor to top item or top side of parent
pub const TOP: LayoutFlags = 2;

/// anchor to right item or right side of parent
pub const RIGHT: LayoutFlags = 4;

/// anchor to bottom item or bottom side of parent
pub const DOWN: LayoutFlags = 8;

/// anchor to both left and right item or parent borders
pub const HFILL: LayoutFlags = 5;

/// anchor to both top and bottom item or parent borders
pub const VFILL: LayoutFlags = 10;

/// center horizontally, with left margin as offset
pub const HCENTER: LayoutFlags = 0;

/// center vertically, with top margin as offset
pub const VCENTER: LayoutFlags = 0;

/// center in both directions, with left/top margin as offset
pub const CENTER: LayoutFlags = 0;

/// anchor to all four directions
pub const FILL: LayoutFlags = 15;

/// Event flags of an item's handler.
pub type EventFlags = u32;

/// on button 0 down
pub const BUTTON0_DOWN: EventFlags = 1;

/// on button 0 up; when this event has a handler, `get_state` reports `ACTIVE`
/// as long as button 0 is down
pub const BUTTON0_UP: EventFlags = 2;

/// on button 0 up while the item is hovered; when this event has a handler,
/// `get_state` reports `ACTIVE` while the cursor hovers the item's rectangle
pub const BUTTON0_HOT_UP: EventFlags = 4;

/// item is being captured (button 0 constantly pressed); when this event has a
/// handler, `get_state` reports `ACTIVE` as long as button 0 is down
pub const BUTTON0_CAPTURE: EventFlags = 8;

/// item has received a new child; a container can use it to configure
/// child items as they appear
pub const APPEND: EventFlags = 16;

/// Whether every flag of `other` is set in `flags`.
pub open spec fn has_flags(flags: u32, other: u32) -> bool {
    flags & other == other
}

/// The interaction state of an item.
#[allow(non_camel_case_types)]
#[derive(Clone, Copy, Debug, PartialEq, Eq, Structural)]
pub enum ItemState {
    /// the item is inactive
    COLD,
    /// the item is inactive, but the cursor is hovering over this item
    HOT,
    /// the item is toggled or activated (depends on item kind)
    ACTIVE,
    /// the item is unresponsive
    FROZEN,
}

} // verus!
