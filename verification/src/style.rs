//! Semantic colour roles of the built-in light and dark themes.

use vstd::prelude::*;
use crate::widgets::Color;

verus! {

/// Semantic colour roles. Views reference these, not raw colours, so a
/// theme swap recolours the whole app.
#[derive(Debug, Clone, Copy, PartialEq, Eq, Structural)]
pub struct Palette {
    /// Primary brand/action colour.
    pub primary: Color,
    /// Content on top of `primary`.
    pub on_primary: Color,
    /// Secondary accent.
    pub secondary: Color,
    /// App background.
    pub background: Color,
    /// Raised surface (cards, sheets).
    pub surface: Color,
    /// Primary content on surfaces and background.
    pub on_surface: Color,
    /// Muted or secondary content.
    pub on_surface_muted: Color,
    /// Hairline borders and dividers.
    pub border: Color,
    /// Error or destructive.
    pub error: Color,
    /// Success or positive.
    pub success: Color,
    /// Warning or caution.
    pub warning: Color,
}

/// An opaque colour as a value.
pub open spec fn opaque(r: u8, g: u8, b: u8) -> Color {
    Color { r, g, b, a: 255 }
}

impl Palette {
    /// The colour roles of the default light theme.
    pub fn light() -> (p: Palette)
        ensures
            p == (Palette {
                primary: opaque(40, 90, 220),
                on_primary: opaque(255, 255, 255),
                secondary: opaque(90, 100, 120),
                background: opaque(247, 248, 251),
                surface: opaque(255, 255, 255),
                on_surface: opaque(22, 24, 35),
                on_surface_muted: opaque(120, 128, 145),
                border: opaque(224, 227, 235),
                error: opaque(214, 60, 60),
                success: opaque(40, 170, 110),
                warning: opaque(220, 160, 40),
            }),
    {
        Palette {
            primary: Color::rgb(40, 90, 220),
            on_primary: Color::rgb(255, 255, 255),
            secondary: Color::rgb(90, 100, 120),
            background: Color::rgb(247, 248, 251),
            surface: Color::rgb(255, 255, 255),
            on_surface: Color::rgb(22, 24, 35),
            on_surface_muted: Color::rgb(120, 128, 145),
            border: Color::rgb(224, 227, 235),
            error: Color::rgb(214, 60, 60),
            success: Color::rgb(40, 170, 110),
            warning: Color::rgb(220, 160, 40),
        }
    }

    /// The colour roles of the default dark theme.
    pub fn dark() -> (p: Palette)
        ensures
            p == (Palette {
                primary: opaque(96, 140, 255),
                on_primary: opaque(10, 12, 20),
                secondary: opaque(150, 160, 180),
                background: opaque(16, 18, 24),
                surface: opaque(28, 31, 40),
                on_surface: opaque(232, 235, 242),
                on_surface_muted: opaque(140, 148, 165),
                border: opaque(48, 52, 64),
                error: opaque(240, 100, 100),
                success: opaque(70, 200, 140),
                warning: opaque(240, 185, 70),
            }),
    {
        Palette {
            primary: Color::rgb(96, 140, 255),
            on_primary: Color::rgb(10, 12, 20),
            secondary: Color::rgb(150, 160, 180),
            background: Color::rgb(16, 18, 24),
            surface: Color::rgb(28, 31, 40),
            on_surface: Color::rgb(232, 235, 242),
            on_surface_muted: Color::rgb(140, 148, 165),
            border: Color::rgb(48, 52, 64),
            error: Color::rgb(240, 100, 100),
            success: Color::rgb(70, 200, 140),
            warning: Color::rgb(240, 185, 70),
        }
    }
}

} // verus!
