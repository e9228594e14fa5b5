//! A layout and event library for immediate-mode user interfaces: a context
//! holds a nested hierarchy of items that are laid out by anchoring flags and
//! respond to a pointing device.

pub mod context;
pub mod flags;
pub mod geom;

pub use context::{Context, ContextModel, EventHandler, Handler, Item, NoHandler, ItemImp, MAX_BUFFERSIZE, MAX_DATASIZE};
pub use flags::{
    EventFlags, ItemState, LayoutFlags, Tag, APPEND, BUTTON0_CAPTURE, BUTTON0_DOWN, BUTTON0_HOT_UP,
    BUTTON0_UP, CENTER, DOWN, FILL, HCENTER, HFILL, LEFT, RIGHT, TOP, VCENTER, VFILL,
};
pub use geom::{max, min, Rect, Vec2};
