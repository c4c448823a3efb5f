use p4y::style::{
    BorderLook, Button, Container, PremiumDark, Rgba, ACCENT, BACKGROUND_MAIN, BORDER_COLOR,
    TEXT_BRIGHT, TEXT_NORMAL,
};

fn opaque(rgb: u32) -> Rgba {
    Rgba { rgb, alpha_percent: 100 }
}

#[test]
fn container_styles() {
    let t = PremiumDark;
    let main = t.container_appearance(Container::default());
    assert_eq!(main.background, Some(opaque(BACKGROUND_MAIN)));
    assert_eq!(main.text_color, Some(opaque(TEXT_NORMAL)));
    assert_eq!(main.border.width, 0);
    let boxed = t.container_appearance(Container::Box);
    assert_eq!(boxed.border, BorderLook { color: opaque(BORDER_COLOR), width: 1, radius: 2 });
    assert_eq!(boxed.background, Some(opaque(0x2a2d2e)));
    let overlay = t.container_appearance(Container::Overlay);
    assert_eq!(overlay.background, Some(Rgba { rgb: 0, alpha_percent: 70 }));
    assert_eq!(overlay.text_color, None);
}

#[test]
fn button_styles() {
    let t = PremiumDark;
    for style in [
        Button::Primary,
        Button::Secondary,
        Button::Plain,
        Button::ListItem { selected: true },
        Button::ListItem { selected: false },
    ] {
        assert_eq!(t.button_hovered(style).border, t.button_active(style).border);
        assert!(t.button_hovered(style).background.is_some());
    }
    let selected = t.button_active(Button::ListItem { selected: true });
    assert_eq!(selected.background, Some(opaque(0x37373d)));
    assert_eq!(selected.text_color, opaque(TEXT_BRIGHT));
    assert_eq!(selected.border, BorderLook { color: opaque(ACCENT), width: 1, radius: 0 });
    let idle = t.button_active(Button::ListItem { selected: false });
    assert_eq!(idle.background, None);
    assert_eq!(idle.border.color.alpha_percent, 0);
    assert_eq!(t.button_hovered(Button::Primary).background, Some(opaque(0x1c97ea)));
    assert_eq!(t.button_hovered(Button::Secondary).background, Some(opaque(0x45494e)));
    assert_eq!(t.button_hovered(Button::Secondary).text_color, opaque(TEXT_NORMAL));
    assert_eq!(t.button_hovered(Button::Plain).text_color, opaque(TEXT_BRIGHT));
    assert!(matches!(Button::default(), Button::Primary));
}

#[test]
fn text_input_and_scrollable_styles() {
    let t = PremiumDark;
    let active = t.text_input_active();
    let focused = t.text_input_focused();
    let disabled = t.text_input_disabled();
    assert_eq!(focused.border.color, opaque(ACCENT));
    assert_eq!(focused.border.width, active.border.width);
    assert_eq!(disabled.border.radius, 2);
    assert_eq!(disabled.background, opaque(0x2d2d2d));
    assert_eq!(t.placeholder_color(), opaque(0x888888));
    assert_eq!(t.value_color(), opaque(TEXT_BRIGHT));
    assert_eq!(t.disabled_color(), opaque(0x666666));
    assert_eq!(t.selection_color(), opaque(0x264f78));
    assert_eq!(t.scrollable_active().scroller_color, opaque(0x4f4f4f));
    assert_eq!(t.scrollable_hovered(true).scroller_color, opaque(0x6f6f6f));
    assert_eq!(t.scrollable_hovered(false).scrollbar_background, Some(opaque(BACKGROUND_MAIN)));
    let app = t.application_appearance();
    assert_eq!(app.background_color, opaque(BACKGROUND_MAIN));
    assert_eq!(app.text_color, opaque(TEXT_NORMAL));
}
