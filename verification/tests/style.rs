use egui::Color32;
use helix_egui::style::{
    convert_color, paint, resolve_style, Color, Modifier, Rgb, RunPaint, StyleSpec, BOLD, ITALIC,
    REVERSED,
};

fn style(fg: Option<Color>, bg: Option<Color>, bits: Option<u16>) -> StyleSpec {
    StyleSpec { fg, bg, modifiers: bits.map(|bits| Modifier { bits }) }
}

fn same_as_egui(color: Color, expected: Color32) {
    let rgb = convert_color(color).unwrap();
    assert_eq!(Color32::from_rgb(rgb.r, rgb.g, rgb.b), expected, "{:?}", color);
}

#[test]
fn patch_overrides_only_what_the_inner_style_defines() {
    let outer = style(Some(Color::Red), Some(Color::Black), Some(BOLD));
    let inner = style(Some(Color::Green), None, None);
    assert_eq!(outer.patch(inner), style(Some(Color::Green), Some(Color::Black), Some(BOLD)));
    let inner = style(None, Some(Color::Blue), None);
    assert_eq!(outer.patch(inner), style(Some(Color::Red), Some(Color::Blue), Some(BOLD)));
    let inner = style(None, None, Some(ITALIC));
    assert_eq!(outer.patch(inner), style(Some(Color::Red), Some(Color::Black), Some(ITALIC)));
}

#[test]
fn patch_with_the_empty_style_changes_nothing() {
    let outer = style(Some(Color::Rgb(1, 2, 3)), None, Some(REVERSED));
    assert_eq!(outer.patch(StyleSpec::empty()), outer);
    assert_eq!(StyleSpec::empty().patch(outer), outer);
}

#[test]
fn patching_twice_is_patching_once() {
    let outer = style(Some(Color::Red), None, Some(BOLD));
    let inner = style(None, Some(Color::Cyan), Some(ITALIC | REVERSED));
    assert_eq!(outer.patch(inner).patch(inner), outer.patch(inner));
}

#[test]
fn patch_is_associative() {
    let a = style(Some(Color::Red), Some(Color::Black), None);
    let b = style(None, Some(Color::Blue), Some(BOLD));
    let c = style(Some(Color::White), None, None);
    assert_eq!(a.patch(b).patch(c), a.patch(b.patch(c)));
}

#[test]
fn resolve_style_folds_from_the_outermost_scope_inward() {
    let styles = vec![
        style(Some(Color::Red), None, None),
        style(Some(Color::Green), Some(Color::Gray), None),
        style(None, None, Some(BOLD)),
    ];
    let base = style(Some(Color::White), None, None);
    assert_eq!(resolve_style(base, &styles, &vec![]), base);
    assert_eq!(
        resolve_style(base, &styles, &vec![0, 1]),
        style(Some(Color::Green), Some(Color::Gray), None)
    );
    assert_eq!(
        resolve_style(base, &styles, &vec![1, 0, 2]),
        style(Some(Color::Red), Some(Color::Gray), Some(BOLD))
    );
}

#[test]
fn resolve_style_with_the_same_scope_twice_in_a_row() {
    let styles = vec![
        style(Some(Color::Red), None, Some(ITALIC)),
        style(None, Some(Color::Blue), None),
    ];
    let base = style(Some(Color::White), Some(Color::Black), None);
    assert_eq!(
        resolve_style(base, &styles, &vec![1, 0, 0]),
        resolve_style(base, &styles, &vec![1, 0])
    );
}

#[test]
fn unknown_scope_leaves_the_style_as_it_is() {
    let styles = vec![style(Some(Color::Red), None, None)];
    let base = style(Some(Color::White), None, None);
    assert_eq!(resolve_style(base, &styles, &vec![5]), base);
    assert_eq!(resolve_style(base, &styles, &vec![0, 1]), style(Some(Color::Red), None, None));
}

#[test]
fn modifier_contains_checks_all_flags() {
    let m = Modifier { bits: BOLD | REVERSED };
    assert!(m.contains(BOLD));
    assert!(m.contains(REVERSED));
    assert!(m.contains(BOLD | REVERSED));
    assert!(!m.contains(ITALIC));
    assert!(!m.contains(BOLD | ITALIC));
    assert!(m.contains(0));
}

#[test]
fn is_reversed_reads_the_modifier() {
    assert!(style(None, None, Some(REVERSED | BOLD)).is_reversed());
    assert!(!style(None, None, Some(BOLD)).is_reversed());
    assert!(!style(None, None, None).is_reversed());
}

#[test]
fn named_colors_have_the_values_of_the_toolkit() {
    same_as_egui(Color::Black, Color32::BLACK);
    same_as_egui(Color::Red, Color32::RED);
    same_as_egui(Color::Green, Color32::GREEN);
    same_as_egui(Color::Yellow, Color32::YELLOW);
    same_as_egui(Color::Blue, Color32::BLUE);
    same_as_egui(Color::Gray, Color32::GRAY);
    same_as_egui(Color::LightRed, Color32::LIGHT_RED);
    same_as_egui(Color::LightGreen, Color32::LIGHT_GREEN);
    same_as_egui(Color::LightYellow, Color32::LIGHT_YELLOW);
    same_as_egui(Color::LightBlue, Color32::LIGHT_BLUE);
    same_as_egui(Color::LightGray, Color32::LIGHT_GRAY);
    same_as_egui(Color::White, Color32::WHITE);
}

#[test]
fn mixed_colors_have_their_fixed_values() {
    assert_eq!(convert_color(Color::Magenta), Some(Rgb { r: 255, g: 0, b: 255 }));
    assert_eq!(convert_color(Color::Cyan), Some(Rgb { r: 0, g: 255, b: 255 }));
    assert_eq!(convert_color(Color::LightMagenta), Some(Rgb { r: 255, g: 128, b: 255 }));
    assert_eq!(convert_color(Color::LightCyan), Some(Rgb { r: 128, g: 255, b: 255 }));
}

#[test]
fn explicit_color_keeps_its_components() {
    assert_eq!(convert_color(Color::Rgb(1, 20, 255)), Some(Rgb { r: 1, g: 20, b: 255 }));
}

#[test]
fn reset_and_indexed_have_no_fixed_value() {
    assert_eq!(convert_color(Color::Reset), None);
    assert_eq!(convert_color(Color::Indexed(0)), None);
    assert_eq!(convert_color(Color::Indexed(200)), None);
}

#[test]
fn plain_run_is_painted_white_without_fill() {
    let white = Rgb { r: 255, g: 255, b: 255 };
    assert_eq!(
        paint(&StyleSpec::empty()),
        Some(RunPaint { text: white, reversed: None, background: None })
    );
    assert_eq!(
        paint(&style(None, None, Some(REVERSED))),
        Some(RunPaint { text: white, reversed: None, background: None })
    );
}

#[test]
fn run_is_painted_in_its_colours() {
    let red = Rgb { r: 255, g: 0, b: 0 };
    let blue = Rgb { r: 0, g: 0, b: 255 };
    assert_eq!(
        paint(&style(Some(Color::Red), Some(Color::Blue), None)),
        Some(RunPaint { text: red, reversed: None, background: Some(blue) })
    );
    assert_eq!(
        paint(&style(Some(Color::Red), None, Some(REVERSED | BOLD))),
        Some(RunPaint { text: red, reversed: Some(red), background: None })
    );
    assert_eq!(
        paint(&style(Some(Color::Red), Some(Color::Blue), Some(REVERSED))),
        Some(RunPaint { text: red, reversed: Some(red), background: Some(blue) })
    );
}

#[test]
fn run_with_a_colour_without_fixed_value_is_not_painted() {
    assert_eq!(paint(&style(Some(Color::Reset), None, None)), None);
    assert_eq!(paint(&style(Some(Color::Red), Some(Color::Indexed(3)), None)), None);
    assert_eq!(paint(&style(Some(Color::Indexed(3)), Some(Color::Reset), Some(REVERSED))), None);
}
