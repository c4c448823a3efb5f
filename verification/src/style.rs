//! The dark theme of the user interface, as tables of plain colors: the
//! appearance of containers, buttons, scrollables, text inputs and of the
//! application for each style.

use vstd::prelude::*;

verus! {

/// The main background.
pub const BACKGROUND_MAIN: u32 = 0x1e1e1e;

/// The background of the side bar.
pub const BACKGROUND_SIDEBAR: u32 = 0x252526;

/// The color of borders.
pub const BORDER_COLOR: u32 = 0x333333;

/// The accent color.
pub const ACCENT: u32 = 0x007acc;

/// The color of ordinary text.
pub const TEXT_NORMAL: u32 = 0xcccccc;

/// The color of bright text.
pub const TEXT_BRIGHT: u32 = 0xffffff;

/// The background of headers.
pub const HEADER_BG: u32 = 0x2d2d2d;

/// A color: red, green and blue as `0xRRGGBB`, and the opacity in percent.
#[derive(Debug, Clone, Copy, PartialEq, Eq, Structural)]
pub struct Rgba {
    pub rgb: u32,
    pub alpha_percent: u8,
}

/// The opaque color `0xRRGGBB`.
pub open spec fn opaque(rgb: u32) -> Rgba {
    Rgba { rgb, alpha_percent: 100 }
}

/// The fully transparent color.
pub open spec fn transparent() -> Rgba {
    Rgba { rgb: 0, alpha_percent: 0 }
}

/// The opaque color `0xRRGGBB`.
pub fn opaque_color(rgb: u32) -> (c: Rgba)
    ensures
        c == opaque(rgb),
{
    Rgba { rgb, alpha_percent: 100 }
}

/// The fully transparent color.
pub fn transparent_color() -> (c: Rgba)
    ensures
        c == transparent(),
{
    Rgba { rgb: 0, alpha_percent: 0 }
}

/// A border: its color, width and corner radius in pixels.
#[derive(Debug, Clone, Copy, PartialEq, Eq, Structural)]
pub struct BorderLook {
    pub color: Rgba,
    pub width: u8,
    pub radius: u8,
}

/// The border that is not drawn: transparent, no width, square corners.
pub open spec fn no_border() -> BorderLook {
    BorderLook { color: transparent(), width: 0, radius: 0 }
}

/// A border with the given color, width and radius.
pub open spec fn border(color: Rgba, width: u8, radius: u8) -> BorderLook {
    BorderLook { color, width, radius }
}

fn make_border(color: Rgba, width: u8, radius: u8) -> (b: BorderLook)
    ensures
        b == border(color, width, radius),
{
    BorderLook { color, width, radius }
}

/// The appearance of a container.
#[derive(Debug, Clone, Copy, PartialEq, Eq, Structural)]
pub struct ContainerLook {
    pub text_color: Option<Rgba>,
    pub background: Option<Rgba>,
    pub border: BorderLook,
}

/// The appearance of a button.
#[derive(Debug, Clone, Copy, PartialEq, Eq, Structural)]
pub struct ButtonLook {
    pub background: Option<Rgba>,
    pub text_color: Rgba,
    pub border: BorderLook,
}

/// The appearance of a scrollable: its scroll bar and the scroller on it.
#[derive(Debug, Clone, Copy, PartialEq, Eq, Structural)]
pub struct ScrollableLook {
    pub scrollbar_background: Option<Rgba>,
    pub scrollbar_border: BorderLook,
    pub scroller_color: Rgba,
    pub scroller_border: BorderLook,
}

/// The appearance of a text input.
#[derive(Debug, Clone, Copy, PartialEq, Eq, Structural)]
pub struct TextInputLook {
    pub background: Rgba,
    pub border: BorderLook,
    pub icon_color: Rgba,
}

/// The appearance of the application window.
#[derive(Debug, Clone, Copy, PartialEq, Eq, Structural)]
pub struct ApplicationLook {
    pub background_color: Rgba,
    pub text_color: Rgba,
}

/// The styles of a container.
#[derive(Debug, Clone, Copy, PartialEq, Eq, Structural)]
pub enum Container {
    Main,
    Sidebar,
    Header,
    Box,
    Overlay,
}

impl Default for Container {
    fn default() -> (c: Self)
        ensures
            c == Container::Main,
    {
        Container::Main
    }
}

/// The styles of a button.
#[derive(Debug, Clone, Copy, PartialEq, Eq, Structural)]
pub enum Button {
    Primary,
    Secondary,
    /// A button without background at rest (a "ghost" button).
    Plain,
    ListItem { selected: bool },
}

impl Default for Button {
    fn default() -> (b: Self)
        ensures
            b == Button::Primary,
    {
        Button::Primary
    }
}

/// The dark theme.
#[derive(Debug, Clone, Copy, Default)]
pub struct PremiumDark;

/// The appearance of a container of the given style.
pub open spec fn container_look(style: Container) -> ContainerLook {
    match style {
        Container::Main => ContainerLook {
            text_color: Some(opaque(TEXT_NORMAL)),
            background: Some(opaque(BACKGROUND_MAIN)),
            border: no_border(),
        },
        Container::Sidebar => ContainerLook {
            text_color: Some(opaque(TEXT_NORMAL)),
            background: Some(opaque(BACKGROUND_SIDEBAR)),
            border: border(opaque(BORDER_COLOR), 1, 0),
        },
        Container::Header => ContainerLook {
            text_color: Some(opaque(TEXT_BRIGHT)),
            background: Some(opaque(HEADER_BG)),
            border: border(opaque(BORDER_COLOR), 1, 0),
        },
        Container::Box => ContainerLook {
            text_color: Some(opaque(TEXT_NORMAL)),
            background: Some(opaque(0x2a2d2e)),
            border: border(opaque(BORDER_COLOR), 1, 2),
        },
        Container::Overlay => ContainerLook {
            text_color: None,
            background: Some(Rgba { rgb: 0, alpha_percent: 70 }),
            border: no_border(),
        },
    }
}

/// The appearance of a button of the given style at rest.
pub open spec fn button_active_look(style: Button) -> ButtonLook {
    match style {
        Button::Primary => ButtonLook {
            background: Some(opaque(ACCENT)),
            text_color: opaque(TEXT_BRIGHT),
            border: border(transparent(), 0, 2),
        },
        Button::Secondary => ButtonLook {
            background: Some(opaque(0x3a3d41)),
            text_color: opaque(TEXT_NORMAL),
            border: border(transparent(), 0, 2),
        },
        Button::Plain => ButtonLook {
            background: None,
            text_color: opaque(TEXT_NORMAL),
            border: no_border(),
        },
        Button::ListItem { selected } => ButtonLook {
            background: if selected {
                Some(opaque(0x37373d))
            } else {
                None
            },
            text_color: if selected {
                opaque(TEXT_BRIGHT)
            } else {
                opaque(TEXT_NORMAL)
            },
            border: if selected {
                border(opaque(ACCENT), 1, 0)
            } else {
                border(transparent(), 0, 0)
            },
        },
    }
}

/// The appearance of a button of the given style under the pointer: that at
/// rest with a lighter background (and bright text, for list items and
/// plain buttons).
pub open spec fn button_hovered_look(style: Button) -> ButtonLook {
    let active = button_active_look(style);
    match style {
        Button::Primary => ButtonLook { background: Some(opaque(0x1c97ea)), ..active },
        Button::ListItem { .. } => ButtonLook {
            background: Some(opaque(0x2a2d2e)),
            text_color: opaque(TEXT_BRIGHT),
            ..active
        },
        Button::Plain => ButtonLook {
            background: Some(opaque(0x3a3d41)),
            text_color: opaque(TEXT_BRIGHT),
            ..active
        },
        _ => ButtonLook { background: Some(opaque(0x45494e)), ..active },
    }
}

/// The appearance of a scrollable at rest.
pub open spec fn scrollable_active_look() -> ScrollableLook {
    ScrollableLook {
        scrollbar_background: Some(opaque(BACKGROUND_MAIN)),
        scrollbar_border: no_border(),
        scroller_color: opaque(0x4f4f4f),
        scroller_border: no_border(),
    }
}

/// The appearance of a scrollable under the pointer: a lighter scroller.
pub open spec fn scrollable_hovered_look() -> ScrollableLook {
    ScrollableLook { scroller_color: opaque(0x6f6f6f), ..scrollable_active_look() }
}

/// The appearance of a text input at rest.
pub open spec fn text_input_active_look() -> TextInputLook {
    TextInputLook {
        background: opaque(0x3c3c3c),
        border: border(opaque(BORDER_COLOR), 1, 2),
        icon_color: opaque(TEXT_NORMAL),
    }
}

/// The appearance of a focused text input: an accent border.
pub open spec fn text_input_focused_look() -> TextInputLook {
    let active = text_input_active_look();
    TextInputLook { border: BorderLook { color: opaque(ACCENT), ..active.border }, ..active }
}

/// The appearance of a disabled text input: darker and dimmer.
pub open spec fn text_input_disabled_look() -> TextInputLook {
    let active = text_input_active_look();
    TextInputLook {
        background: opaque(0x2d2d2d),
        border: BorderLook { color: opaque(0x444444), ..active.border },
        icon_color: opaque(0x555555),
    }
}

impl PremiumDark {
    /// The appearance of the application window.
    pub fn application_appearance(&self) -> (a: ApplicationLook)
        ensures
            a == (ApplicationLook {
                background_color: opaque(BACKGROUND_MAIN),
                text_color: opaque(TEXT_NORMAL),
            }),
    {
        ApplicationLook {
            background_color: opaque_color(BACKGROUND_MAIN),
            text_color: opaque_color(TEXT_NORMAL),
        }
    }

    /// The appearance of a container of the given style.
    pub fn container_appearance(&self, style: Container) -> (a: ContainerLook)
        ensures
            a == container_look(style),
    {
        match style {
            Container::Main => ContainerLook {
                text_color: Some(opaque_color(TEXT_NORMAL)),
                background: Some(opaque_color(BACKGROUND_MAIN)),
                border: make_border(transparent_color(), 0, 0),
            },
            Container::Sidebar => ContainerLook {
                text_color: Some(opaque_color(TEXT_NORMAL)),
                background: Some(opaque_color(BACKGROUND_SIDEBAR)),
                border: make_border(opaque_color(BORDER_COLOR), 1, 0),
            },
            Container::Header => ContainerLook {
                text_color: Some(opaque_color(TEXT_BRIGHT)),
                background: Some(opaque_color(HEADER_BG)),
                border: make_border(opaque_color(BORDER_COLOR), 1, 0),
            },
            Container::Box => ContainerLook {
                text_color: Some(opaque_color(TEXT_NORMAL)),
                background: Some(opaque_color(0x2a2d2e)),
                border: make_border(opaque_color(BORDER_COLOR), 1, 2),
            },
            Container::Overlay => ContainerLook {
                text_color: None,
                background: Some(Rgba { rgb: 0, alpha_percent: 70 }),
                border: make_border(transparent_color(), 0, 0),
            },
        }
    }

    /// The appearance of a button of the given style at rest.
    pub fn button_active(&self, style: Button) -> (a: ButtonLook)
        ensures
            a == button_active_look(style),
    {
        match style {
            Button::Primary => ButtonLook {
                background: Some(opaque_color(ACCENT)),
                text_color: opaque_color(TEXT_BRIGHT),
                border: make_border(transparent_color(), 0, 2),
            },
            Button::Secondary => ButtonLook {
                background: Some(opaque_color(0x3a3d41)),
                text_color: opaque_color(TEXT_NORMAL),
                border: make_border(transparent_color(), 0, 2),
            },
            Button::Plain => ButtonLook {
                background: None,
                text_color: opaque_color(TEXT_NORMAL),
                border: make_border(transparent_color(), 0, 0),
            },
            Button::ListItem { selected } => ButtonLook {
                background: if selected {
                    Some(opaque_color(0x37373d))
                } else {
                    None
                },
                text_color: if selected {
                    opaque_color(TEXT_BRIGHT)
                } else {
                    opaque_color(TEXT_NORMAL)
                },
                border: make_border(
                    if selected {
                        opaque_color(ACCENT)
                    } else {
                        transparent_color()
                    },
                    if selected {
                        1
                    } else {
                        0
                    },
                    0,
                ),
            },
        }
    }

    /// The appearance of a button of the given style under the pointer.
    pub fn button_hovered(&self, style: Button) -> (a: ButtonLook)
        ensures
            a == button_hovered_look(style),
    {
        let active = self.button_active(style);
        match style {
            Button::Primary => ButtonLook { background: Some(opaque_color(0x1c97ea)), ..active },
            Button::ListItem { .. } => ButtonLook {
                background: Some(opaque_color(0x2a2d2e)),
                text_color: opaque_color(TEXT_BRIGHT),
                ..active
            },
            Button::Plain => ButtonLook {
                background: Some(opaque_color(0x3a3d41)),
                text_color: opaque_color(TEXT_BRIGHT),
                ..active
            },
            _ => ButtonLook { background: Some(opaque_color(0x45494e)), ..active },
        }
    }

    /// The appearance of a scrollable at rest.
    pub fn scrollable_active(&self) -> (a: ScrollableLook)
        ensures
            a == scrollable_active_look(),
    {
        ScrollableLook {
            scrollbar_background: Some(opaque_color(BACKGROUND_MAIN)),
            scrollbar_border: make_border(transparent_color(), 0, 0),
            scroller_color: opaque_color(0x4f4f4f),
            scroller_border: make_border(transparent_color(), 0, 0),
        }
    }

    /// The appearance of a scrollable under the pointer, whether or not the
    /// pointer is over the scroll bar.
    pub fn scrollable_hovered(&self, is_mouse_over_scrollbar: bool) -> (a: ScrollableLook)
        ensures
            a == scrollable_hovered_look(),
    {
        let active = self.scrollable_active();
        ScrollableLook { scroller_color: opaque_color(0x6f6f6f), ..active }
    }

    /// The appearance of a text input at rest.
    pub fn text_input_active(&self) -> (a: TextInputLook)
        ensures
            a == text_input_active_look(),
    {
        TextInputLook {
            background: opaque_color(0x3c3c3c),
            border: make_border(opaque_color(BORDER_COLOR), 1, 2),
            icon_color: opaque_color(TEXT_NORMAL),
        }
    }

    /// The appearance of a focused text input.
    pub fn text_input_focused(&self) -> (a: TextInputLook)
        ensures
            a == text_input_focused_look(),
    {
        let active = self.text_input_active();
        TextInputLook { border: BorderLook { color: opaque_color(ACCENT), ..active.border }, ..active }
    }

    /// The appearance of a disabled text input.
    pub fn text_input_disabled(&self) -> (a: TextInputLook)
        ensures
            a == text_input_disabled_look(),
    {
        let active = self.text_input_active();
        TextInputLook {
            background: opaque_color(0x2d2d2d),
            border: BorderLook { color: opaque_color(0x444444), ..active.border },
            icon_color: opaque_color(0x555555),
        }
    }

    /// The color of the placeholder of a text input.
    pub fn placeholder_color(&self) -> (c: Rgba)
        ensures
            c == opaque(0x888888),
    {
        opaque_color(0x888888)
    }

    /// The color of the value of a text input.
    pub fn value_color(&self) -> (c: Rgba)
        ensures
            c == opaque(TEXT_BRIGHT),
    {
        opaque_color(TEXT_BRIGHT)
    }

    /// The color of the value of a disabled text input.
    pub fn disabled_color(&self) -> (c: Rgba)
        ensures
            c == opaque(0x666666),
    {
        opaque_color(0x666666)
    }

    /// The color of selected text in a text input.
    pub fn selection_color(&self) -> (c: Rgba)
        ensures
            c == opaque(0x264f78),
    {
        opaque_color(0x264f78)
    }
}

/// A button under the pointer keeps the border it has at rest.
pub proof fn lemma_button_hover_keeps_border(style: Button)
    ensures
        button_hovered_look(style).border == button_active_look(style).border,
{
}

/// A button under the pointer always has a background, and a list item or
/// a plain button bright text.
pub proof fn lemma_button_hover_background(style: Button)
    ensures
        button_hovered_look(style).background is Some,
        (style is ListItem || style is Plain) ==> button_hovered_look(style).text_color == opaque(
            TEXT_BRIGHT,
        ),
        !(style is ListItem || style is Plain) ==> button_hovered_look(style).text_color
            == button_active_look(style).text_color,
{
}

/// A focused or disabled text input keeps the width and radius of the
/// border it has at rest; only colors change.
pub proof fn lemma_text_input_border_shape()
    ensures
        text_input_focused_look().border.width == text_input_active_look().border.width,
        text_input_focused_look().border.radius == text_input_active_look().border.radius,
        text_input_disabled_look().border.width == text_input_active_look().border.width,
        text_input_disabled_look().border.radius == text_input_active_look().border.radius,
        text_input_focused_look().background == text_input_active_look().background,
        text_input_focused_look().icon_color == text_input_active_look().icon_color,
{
}

/// A scrollable under the pointer differs from one at rest in the color of
/// its scroller only.
pub proof fn lemma_scrollable_hover_scroller_only()
    ensures
        scrollable_hovered_look().scrollbar_background
            == scrollable_active_look().scrollbar_background,
        scrollable_hovered_look().scrollbar_border == scrollable_active_look().scrollbar_border,
        scrollable_hovered_look().scroller_border == scrollable_active_look().scroller_border,
        scrollable_hovered_look().scroller_color != scrollable_active_look().scroller_color,
{
}

} // verus!
