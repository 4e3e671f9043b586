use vstd::prelude::*;
use crate::entity_container::EntityID;

verus! {

/// What the user has selected on screen.
#[derive(Debug, Clone, Copy, PartialEq, Eq)]
pub enum EntitySelection {
    Nothing,
    Cell(EntityID),
    Food(EntityID),
}

/// What lies under a point of the screen.
#[derive(Debug, Clone, Copy, PartialEq, Eq)]
pub enum ScreenItem {
    Nothing,
    Cell(EntityID),
    Food(EntityID),
}

/// Conversion of a value into another representation.
pub trait Transform {
    type Target;

    fn transform(&self) -> Self::Target;
}

/// Two copies of a value: a main one and an alternate one.
pub struct Buffer<T> {
    pub main: T,
    pub alt: T,
}

impl<T> Buffer<T> {
    pub fn main(&self) -> (r: &T)
        ensures
            *r == self.main,
    {
        &self.main
    }

    pub fn main_mut(&mut self) -> (r: &mut T)
        ensures
            *r == old(self).main,
            final(self).main == *final(r),
            final(self).alt == old(self).alt,
    {
        &mut self.main
    }

    pub fn alt(&self) -> (r: &T)
        ensures
            *r == self.alt,
    {
        &self.alt
    }

    pub fn alt_mut(&mut self) -> (r: &mut T)
        ensures
            *r == old(self).alt,
            final(self).alt == *final(r),
            final(self).main == old(self).main,
    {
        &mut self.alt
    }

    pub fn both(&self) -> (r: (&T, &T))
        ensures
            *r.0 == self.main,
            *r.1 == self.alt,
    {
        (&self.main, &self.alt)
    }

    /// The main copy to change, beside the alternate one to read.
    pub fn both_mut(&mut self) -> (r: (&mut T, &T))
        ensures
            *r.0 == old(self).main,
            *r.1 == old(self).alt,
            final(self).main == *final(r.0),
            final(self).alt == old(self).alt,
    {
        (&mut self.main, &self.alt)
    }
}

impl<T: Clone> Buffer<T> {
    /// A buffer whose main copy is a clone of `input` and whose alternate copy is `input`.
    pub fn new(input: T) -> (r: Buffer<T>)
        ensures
            vstd::pervasive::cloned(input, r.main),
            r.alt == input,
    {
        Buffer { main: input.clone(), alt: input }
    }
}

/// An axis-aligned rectangle of pixels: its top-left corner and its size.
#[derive(Debug, Clone, Copy, PartialEq, Eq, Structural)]
pub struct Rect {
    pub x: i32,
    pub y: i32,
    pub width: u32,
    pub height: u32,
}

pub open spec fn span(lo: int, hi: int) -> u32 {
    if hi > lo {
        (hi - lo) as u32
    } else {
        0
    }
}

/// The part of `rect` (placed relative to `section`) that falls inside `section`: the
/// matching source rectangle within `rect`, and the destination rectangle on screen.
pub open spec fn clamp_spec(rect: Rect, section: Rect) -> (Rect, Rect) {
    let lx = rect.x as int;
    let ly = rect.y as int;
    let hx = lx + rect.width;
    let hy = ly + rect.height;
    let shown_lx = if lx > 0 { lx } else { 0 };
    let shown_ly = if ly > 0 { ly } else { 0 };
    let shown_hx = if hx < section.width { hx } else { section.width as int };
    let shown_hy = if hy < section.height { hy } else { section.height as int };
    let src_lx = shown_lx - lx;
    let src_ly = shown_ly - ly;
    let src_hx = shown_hx - hx + rect.width;
    let src_hy = shown_hy - hy + rect.height;
    (
        Rect { x: src_lx as i32, y: src_ly as i32, width: span(src_lx, src_hx), height: span(src_ly, src_hy) },
        Rect {
            x: (shown_lx + section.x) as i32,
            y: (shown_ly + section.y) as i32,
            width: span(shown_lx, shown_hx),
            height: span(shown_ly, shown_hy),
        },
    )
}

/// Bounds under which the clipping arithmetic stays within `i32`.
pub open spec fn clamp_fits(rect: Rect, section: Rect) -> bool {
    &&& rect.width <= i32::MAX
    &&& rect.height <= i32::MAX
    &&& section.width <= i32::MAX
    &&& section.height <= i32::MAX
    &&& rect.x + rect.width <= i32::MAX
    &&& rect.y + rect.height <= i32::MAX
    &&& rect.x > i32::MIN
    &&& rect.y > i32::MIN
    &&& section.x + section.width <= i32::MAX
    &&& section.y + section.height <= i32::MAX
    &&& rect.x + section.x <= i32::MAX
    &&& rect.y + section.y <= i32::MAX
}

pub fn clamp_to_section(rect: &Rect, section: &Rect) -> (r: (Rect, Rect))
    requires
        clamp_fits(*rect, *section),
    ensures
        r == clamp_spec(*rect, *section),
{
    let (lx, ly) = (rect.x, rect.y);
    let (width, height) = (rect.width, rect.height);
    let (hx, hy) = (lx + width as i32, ly + height as i32);
    let (section_lx, section_ly) = (section.x, section.y);
    let (section_width, section_height) = (section.width, section.height);

    let shown_lx = if lx > 0 { lx } else { 0 };
    let shown_ly = if ly > 0 { ly } else { 0 };
    let shown_hx = if hx < section_width as i32 { hx } else { section_width as i32 };
    let shown_hy = if hy < section_height as i32 { hy } else { section_height as i32 };
    let src_lx = shown_lx - lx;
    let src_ly = shown_ly - ly;
    let src_hx = shown_hx - hx + width as i32;
    let src_hy = shown_hy - hy + height as i32;

    let src = Rect {
        x: src_lx,
        y: src_ly,
        width: if src_hx > src_lx { (src_hx - src_lx) as u32 } else { 0 },
        height: if src_hy > src_ly { (src_hy - src_ly) as u32 } else { 0 },
    };
    let dest = Rect {
        x: shown_lx + section_lx,
        y: shown_ly + section_ly,
        width: if shown_hx > shown_lx { (shown_hx - shown_lx) as u32 } else { 0 },
        height: if shown_hy > shown_ly { (shown_hy - shown_ly) as u32 } else { 0 },
    };
    (src, dest)
}

} // verus!
