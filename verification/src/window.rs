//! Window configuration handed to the embedding application's windowing
//! layer.

use vstd::prelude::*;

verus! {

/// How the window is presented.
pub enum WindowMode {
    Windowed,
    Fullscreen,
}

/// The window the embedding application opens: title, inner size in
/// pixels, and presentation mode.
pub struct WindowDescriptor {
    pub title: &'static str,
    pub width: u32,
    pub height: u32,
    pub mode: WindowMode,
}

impl Default for WindowDescriptor {
    /// A windowed 800 by 600 surface with a placeholder title.
    fn default() -> (d: WindowDescriptor)
        ensures
            d.width == 800,
            d.height == 600,
            d.mode is Windowed,
    {
        WindowDescriptor {
            title: "Blank Game",
            width: 800,
            height: 600,
            mode: WindowMode::Windowed,
        }
    }
}

} // verus!
