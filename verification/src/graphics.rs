//! Plain data of the graphics layer: the viewport, and the type-level lists
//! vertex layouts are written with.
use vstd::prelude::*;

verus! {

/// A rectangle of the window that drawing goes to.
#[derive(Copy, Clone, Debug, Eq, PartialEq, Hash)]
pub struct ViewportRect {
    pub x: i32,
    pub width: u32,
    pub y: i32,
    pub height: u32,
}

/// A non-empty type-level list: a head and the rest.
pub struct Cons<T, L>(pub T, pub L);

/// The empty type-level list.
pub struct Nil;

/// A value that was compiled, such as a shader stage.
pub struct Compiled<T>(pub T);

} // verus!
