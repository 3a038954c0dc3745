//! Window handles and descriptions.
use vstd::prelude::*;
use vstd::string::*;

verus! {

/// An opaque handle to a window owned by the platform layer. Handles are
/// allocated by `Commands::create_windows`.
#[derive(Debug, Clone, Copy, PartialEq, Eq, Structural, PartialOrd, Ord, Hash)]
pub struct WindowId(u64);

impl View for WindowId {
    type V = u64;

    closed spec fn view(&self) -> u64 {
        self.0
    }
}

/// The handle with the raw value `raw`.
pub closed spec fn handle(raw: u64) -> WindowId {
    WindowId(raw)
}

/// Handles and raw values correspond one to one.
pub proof fn lemma_handle(raw: u64, w: WindowId)
    ensures
        handle(raw)@ == raw,
        (handle(raw) == w) == (w@ == raw),
{
}

impl WindowId {
    pub(crate) fn raw(self) -> (r: u64)
        ensures
            r == self@,
    {
        self.0
    }

    pub(crate) fn from_raw(raw: u64) -> (r: WindowId)
        ensures
            r == handle(raw),
    {
        WindowId(raw)
    }
}

/// How a window should be created.
#[derive(Debug, PartialEq, Eq)]
pub struct WindowDesc {
    /// Title shown by the window manager, where one exists.
    pub title: String,
    /// Requested width in logical pixels; the platform may not honour it.
    pub width: u32,
    /// Requested height in logical pixels; the platform may not honour it.
    pub height: u32,
}

impl Clone for WindowDesc {
    fn clone(&self) -> (r: WindowDesc)
        ensures
            r == *self,
    {
        WindowDesc { title: self.title.clone(), width: self.width, height: self.height }
    }
}

/// The title every window gets unless told otherwise.
pub open spec fn default_title() -> Seq<char> {
    "rgine"@
}

impl Default for WindowDesc {
    fn default() -> (r: WindowDesc)
        ensures
            r.title@ == default_title(),
            r.width == 1280,
            r.height == 720,
    {
        WindowDesc { title: String::from_str("rgine"), width: 1280, height: 720 }
    }
}

impl WindowDesc {
    /// A description with the given title and the default size.
    pub fn new(title: &str) -> (r: WindowDesc)
        ensures
            r.title@ == title@,
            r.width == 1280,
            r.height == 720,
    {
        WindowDesc { title: String::from_str(title), width: 1280, height: 720 }
    }

    /// Sets the requested size in logical pixels.
    pub fn with_size(self, width: u32, height: u32) -> (r: WindowDesc)
        ensures
            r.title == self.title,
            r.width == width,
            r.height == height,
    {
        let mut desc = self;
        desc.width = width;
        desc.height = height;
        desc
    }
}

} // verus!
