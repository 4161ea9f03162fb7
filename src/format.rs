use vstd::prelude::*;

verus! {

/// An opaque handle to a cell style.
///
/// The serializer never looks inside a style: it only carries the handle
/// from a layout to the cells written under that layout.
#[derive(Clone, Copy, Debug, PartialEq, Eq, Structural)]
pub struct Format {
    /// The style number this handle refers to.
    pub id: u32,
}

impl Format {
    /// The handle of the style numbered `id`.
    pub fn new(id: u32) -> (r: Format)
        ensures
            r.id == id,
    {
        Format { id }
    }

    /// The style number this handle refers to.
    pub fn style_id(&self) -> (r: u32)
        ensures
            r == self.id,
    {
        self.id
    }
}

impl Default for Format {
    /// The handle of the default style, numbered 0.
    fn default() -> (r: Format)
        ensures
            r.id == 0,
    {
        Format { id: 0 }
    }
}

} // verus!
