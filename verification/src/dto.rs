//! The container tree as the window manager reports it.
use crate::window_state::WindowState;
use vstd::prelude::*;

verus! {

/// Identifier of a live container.
pub type ContainerId = u128;

/// A rectangle on the desktop.
#[derive(Clone, Copy, Debug, PartialEq, Eq, Structural)]
pub struct Rect {
    pub x: i32,
    pub y: i32,
    pub width: i32,
    pub height: i32,
}

impl Rect {
    pub fn from_xy(x: i32, y: i32, width: i32, height: i32) -> (r: Rect)
        ensures
            r == (Rect { x, y, width, height }),
    {
        Rect { x, y, width, height }
    }

    pub fn x(&self) -> (r: i32)
        ensures
            r == self.x,
    {
        self.x
    }

    pub fn y(&self) -> (r: i32)
        ensures
            r == self.y,
    {
        self.y
    }

    pub fn width(&self) -> (r: i32)
        ensures
            r == self.width,
    {
        self.width
    }

    pub fn height(&self) -> (r: i32)
        ensures
            r == self.height,
    {
        self.height
    }
}

/// The axis along which the children of a container are laid out.
#[derive(Clone, Copy, Debug, PartialEq, Eq, Structural)]
pub enum TilingDirection {
    Horizontal,
    Vertical,
}

/// A tiling size, kept as the bit pattern of a single-precision number.
#[derive(Clone, Copy, Debug, PartialEq, Eq, Structural)]
pub struct TilingSize {
    pub bits: u32,
}

impl TilingSize {
    /// The bit pattern of one.
    pub open spec fn one() -> TilingSize {
        TilingSize { bits: 0x3f80_0000 }
    }

    /// The bit pattern of zero.
    pub open spec fn zero() -> TilingSize {
        TilingSize { bits: 0 }
    }

    /// Whether the bits write a number that is not negative: the sign bit is
    /// clear and the value is no NaN.
    pub open spec fn is_non_negative(self) -> bool {
        self.bits <= 0x7f80_0000
    }

    /// The larger of the size and zero; zero for a NaN.
    pub open spec fn at_least_zero(self) -> TilingSize {
        if self.is_non_negative() {
            self
        } else {
            TilingSize::zero()
        }
    }

    /// The size that a node weighs among its siblings: one where none was
    /// recorded, and never below zero.
    pub open spec fn weight_of(size: Option<TilingSize>) -> TilingSize {
        match size {
            Some(s) => s.at_least_zero(),
            None => TilingSize::one(),
        }
    }

    /// The size whose bit pattern is `bits`.
    pub fn from_bits(bits: u32) -> (r: TilingSize)
        ensures
            r == (TilingSize { bits }),
    {
        TilingSize { bits }
    }

    /// The size that a node weighs among its siblings.
    pub fn weight(size: Option<TilingSize>) -> (r: TilingSize)
        ensures
            r == TilingSize::weight_of(size),
            r.is_non_negative(),
    {
        match size {
            Some(s) => {
                if s.bits <= 0x7f80_0000 {
                    s
                } else {
                    TilingSize { bits: 0 }
                }
            },
            None => TilingSize { bits: 0x3f80_0000 },
        }
    }
}

/// A managed window.
#[derive(Debug, PartialEq, Eq)]
pub struct WindowDto {
    pub id: ContainerId,
    pub parent_id: Option<ContainerId>,
    pub has_focus: bool,
    pub tiling_size: Option<TilingSize>,
    pub width: i32,
    pub height: i32,
    pub x: i32,
    pub y: i32,
    pub state: WindowState,
    pub prev_state: Option<WindowState>,
    /// Whether the window is shown, as the window manager writes it.
    pub display_state: String,
    /// The difference to the visible frame, as the window manager writes it.
    pub border_delta: String,
    pub floating_placement: Rect,
    pub handle: isize,
    pub title: String,
    /// Window class, on platforms that have one.
    pub class_name: Option<String>,
    pub process_name: String,
    pub process_path: Option<String>,
    /// What the user is dragging the window for, as the window manager writes
    /// it.
    pub active_drag: Option<String>,
}

/// A container that lays out its children along one axis.
#[derive(Debug, PartialEq, Eq)]
pub struct SplitContainerDto {
    pub id: ContainerId,
    pub parent_id: Option<ContainerId>,
    pub children: Vec<ContainerDto>,
    pub child_focus_order: Vec<ContainerId>,
    pub has_focus: bool,
    pub tiling_size: TilingSize,
    pub width: i32,
    pub height: i32,
    pub x: i32,
    pub y: i32,
    pub tiling_direction: TilingDirection,
}

#[derive(Debug, PartialEq, Eq)]
pub struct WorkspaceDto {
    pub id: ContainerId,
    pub name: String,
    pub display_name: Option<String>,
    pub parent_id: Option<ContainerId>,
    pub children: Vec<ContainerDto>,
    pub child_focus_order: Vec<ContainerId>,
    pub has_focus: bool,
    pub is_displayed: bool,
    pub width: i32,
    pub height: i32,
    pub x: i32,
    pub y: i32,
    pub tiling_direction: TilingDirection,
}

#[derive(Debug, PartialEq, Eq)]
pub struct MonitorDto {
    pub id: ContainerId,
    pub parent_id: Option<ContainerId>,
    pub children: Vec<ContainerDto>,
    pub child_focus_order: Vec<ContainerId>,
    pub has_focus: bool,
    pub width: i32,
    pub height: i32,
    pub x: i32,
    pub y: i32,
    pub dpi: u32,
    /// The bit pattern of the scale factor, a single-precision number.
    pub scale_factor_bits: u32,
    pub handle: Option<isize>,
    pub device_name: String,
    pub device_path: Option<String>,
    pub hardware_id: Option<String>,
    pub working_rect: Rect,
}

#[derive(Debug, PartialEq, Eq)]
pub struct RootContainerDto {
    pub id: ContainerId,
    pub children: Vec<ContainerDto>,
    pub child_focus_order: Vec<ContainerId>,
}

/// A container of any kind.
#[derive(Debug, PartialEq, Eq)]
pub enum ContainerDto {
    Root(RootContainerDto),
    Monitor(MonitorDto),
    Workspace(WorkspaceDto),
    Split(SplitContainerDto),
    Window(WindowDto),
}

} // verus!
