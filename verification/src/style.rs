//! Styles: colours, modifier flags, and the patch that folds the styles of
//! nested scopes into the style of a run.

use vstd::prelude::*;

verus! {

/// A colour as a theme names it.
#[derive(Clone, Copy, Debug, PartialEq, Eq)]
pub enum Color {
    Reset,
    Black,
    Red,
    Green,
    Yellow,
    Blue,
    Magenta,
    Cyan,
    Gray,
    LightRed,
    LightGreen,
    LightYellow,
    LightBlue,
    LightMagenta,
    LightCyan,
    LightGray,
    White,
    Rgb(u8, u8, u8),
    Indexed(u8),
}

/// A colour as the painter takes it: red, green and blue.
#[derive(Clone, Copy, Debug, PartialEq, Eq)]
pub struct Rgb {
    pub r: u8,
    pub g: u8,
    pub b: u8,
}

/// A set of text modifiers, one bit each.
#[derive(Clone, Copy, Debug, PartialEq, Eq)]
pub struct Modifier {
    pub bits: u16,
}

pub const BOLD: u16 = 0x0001;

pub const DIM: u16 = 0x0002;

pub const ITALIC: u16 = 0x0004;

pub const UNDERLINED: u16 = 0x0008;

pub const SLOW_BLINK: u16 = 0x0010;

pub const RAPID_BLINK: u16 = 0x0020;

pub const REVERSED: u16 = 0x0040;

pub const HIDDEN: u16 = 0x0080;

pub const CROSSED_OUT: u16 = 0x0100;

impl Modifier {
    /// True when every flag of `flags` is in the set.
    pub open spec fn contains_spec(self, flags: u16) -> bool {
        self.bits & flags == flags
    }

    /// Tells whether every flag of `flags` is in the set.
    pub fn contains(&self, flags: u16) -> (r: bool)
        ensures
            r == self.contains_spec(flags),
    {
        self.bits & flags == flags
    }
}

/// What a scope says of a run's look. A field that is `None` leaves the
/// matter to the enclosing scope.
#[derive(Clone, Copy, Debug, PartialEq, Eq)]
pub struct StyleSpec {
    pub fg: Option<Color>,
    pub bg: Option<Color>,
    pub modifiers: Option<Modifier>,
}

/// `inner` where it holds a value, else `outer`.
pub open spec fn or_else<T>(inner: Option<T>, outer: Option<T>) -> Option<T> {
    if inner is Some {
        inner
    } else {
        outer
    }
}

impl StyleSpec {
    /// The style that defines nothing.
    pub open spec fn empty_spec() -> StyleSpec {
        StyleSpec { fg: None, bg: None, modifiers: None }
    }

    /// The style that defines nothing.
    pub fn empty() -> (s: StyleSpec)
        ensures
            s == StyleSpec::empty_spec(),
    {
        StyleSpec { fg: None, bg: None, modifiers: None }
    }

    /// `self` with each field that `inner` defines taken from `inner`.
    pub open spec fn patch_spec(self, inner: StyleSpec) -> StyleSpec {
        StyleSpec {
            fg: or_else(inner.fg, self.fg),
            bg: or_else(inner.bg, self.bg),
            modifiers: or_else(inner.modifiers, self.modifiers),
        }
    }

    /// Lays `inner` over `self`: foreground, background and modifiers are
    /// each taken from `inner` where it defines them and kept otherwise.
    pub fn patch(self, inner: StyleSpec) -> (s: StyleSpec)
        ensures
            s == self.patch_spec(inner),
    {
        StyleSpec {
            fg: if inner.fg.is_some() {
                inner.fg
            } else {
                self.fg
            },
            bg: if inner.bg.is_some() {
                inner.bg
            } else {
                self.bg
            },
            modifiers: if inner.modifiers.is_some() {
                inner.modifiers
            } else {
                self.modifiers
            },
        }
    }

    /// True when the style asks for reversed video.
    pub open spec fn is_reversed_spec(self) -> bool {
        self.modifiers matches Some(m) && m.contains_spec(REVERSED)
    }

    /// Tells whether the style asks for reversed video.
    pub fn is_reversed(&self) -> (r: bool)
        ensures
            r == self.is_reversed_spec(),
    {
        match self.modifiers {
            Some(m) => m.contains(REVERSED),
            None => false,
        }
    }
}

/// The style that a theme gives to `scope`: its entry in the theme's table,
/// or the empty style for a scope that the theme does not know.
pub open spec fn scope_style(styles: Seq<StyleSpec>, scope: int) -> StyleSpec {
    if 0 <= scope < styles.len() {
        styles[scope]
    } else {
        StyleSpec::empty_spec()
    }
}

/// The style of a run inside the scopes of `stack`, outermost first: `base`
/// patched with the style of each scope in turn.
pub open spec fn resolve_style_spec(
    base: StyleSpec,
    styles: Seq<StyleSpec>,
    stack: Seq<usize>,
) -> StyleSpec
    decreases stack.len(),
{
    if stack.len() == 0 {
        base
    } else {
        resolve_style_spec(base, styles, stack.drop_last()).patch_spec(
            scope_style(styles, stack.last() as int),
        )
    }
}

/// Folds the styles of the open scopes over the base style, outermost
/// scope first.
pub fn resolve_style(base: StyleSpec, styles: &Vec<StyleSpec>, stack: &Vec<usize>) -> (s: StyleSpec)
    ensures
        s == resolve_style_spec(base, styles@, stack@),
{
    let mut acc: StyleSpec = base;
    let mut i: usize = 0;
    proof {
        assert(stack@.take(0) =~= Seq::<usize>::empty());
    }
    while i < stack.len()
        invariant
            i <= stack@.len(),
            acc == resolve_style_spec(base, styles@, stack@.take(i as int)),
        decreases stack@.len() - i,
    {
        let scope: usize = stack[i];
        let inner: StyleSpec = if scope < styles.len() {
            styles[scope]
        } else {
            StyleSpec::empty()
        };
        acc = acc.patch(inner);
        proof {
            let next = stack@.take(i + 1);
            assert(next.drop_last() =~= stack@.take(i as int));
            assert(next.last() == scope);
        }
        i = i + 1;
    }
    proof {
        assert(stack@.take(stack@.len() as int) =~= stack@);
    }
    acc
}

/// Patching twice with the same style gives what patching once gives.
pub proof fn lemma_patch_idempotent(acc: StyleSpec, inner: StyleSpec)
    ensures
        acc.patch_spec(inner).patch_spec(inner) == acc.patch_spec(inner),
{
}

/// Patching is associative: two styles may be merged before they are laid
/// over a third.
pub proof fn lemma_patch_associative(a: StyleSpec, b: StyleSpec, c: StyleSpec)
    ensures
        a.patch_spec(b).patch_spec(c) == a.patch_spec(b.patch_spec(c)),
{
}

/// Patching with the empty style changes nothing.
pub proof fn lemma_patch_empty(a: StyleSpec)
    ensures
        a.patch_spec(StyleSpec::empty_spec()) == a,
{
}

/// A scope that is opened twice in direct succession styles a run as the
/// scope opened once does.
pub proof fn lemma_fold_same_scope_twice(
    base: StyleSpec,
    styles: Seq<StyleSpec>,
    stack: Seq<usize>,
    scope: usize,
)
    ensures
        resolve_style_spec(base, styles, stack.push(scope).push(scope)) == resolve_style_spec(
            base,
            styles,
            stack.push(scope),
        ),
{
    let once = stack.push(scope);
    let twice = once.push(scope);
    assert(twice.drop_last() =~= once);
    assert(once.drop_last() =~= stack);
    lemma_patch_idempotent(
        resolve_style_spec(base, styles, stack),
        scope_style(styles, scope as int),
    );
}

/// The red, green and blue of a named or explicit colour; `None` for the
/// two colours that have no fixed value, the terminal's default and an
/// entry of its palette.
pub open spec fn color_rgb(color: Color) -> Option<Rgb> {
    match color {
        Color::Reset => None,
        Color::Black => Some(Rgb { r: 0, g: 0, b: 0 }),
        Color::Red => Some(Rgb { r: 255, g: 0, b: 0 }),
        Color::Green => Some(Rgb { r: 0, g: 255, b: 0 }),
        Color::Yellow => Some(Rgb { r: 255, g: 255, b: 0 }),
        Color::Blue => Some(Rgb { r: 0, g: 0, b: 255 }),
        Color::Magenta => Some(Rgb { r: 255, g: 0, b: 255 }),
        Color::Cyan => Some(Rgb { r: 0, g: 255, b: 255 }),
        Color::Gray => Some(Rgb { r: 160, g: 160, b: 160 }),
        Color::LightRed => Some(Rgb { r: 255, g: 128, b: 128 }),
        Color::LightGreen => Some(Rgb { r: 0x90, g: 0xEE, b: 0x90 }),
        Color::LightYellow => Some(Rgb { r: 255, g: 255, b: 0xE0 }),
        Color::LightBlue => Some(Rgb { r: 0xAD, g: 0xD8, b: 0xE6 }),
        Color::LightMagenta => Some(Rgb { r: 255, g: 128, b: 255 }),
        Color::LightCyan => Some(Rgb { r: 128, g: 255, b: 255 }),
        Color::LightGray => Some(Rgb { r: 220, g: 220, b: 220 }),
        Color::White => Some(Rgb { r: 255, g: 255, b: 255 }),
        Color::Rgb(r, g, b) => Some(Rgb { r, g, b }),
        Color::Indexed(_) => None,
    }
}

/// Converts a theme colour to the red, green and blue that the painter
/// takes.
pub fn convert_color(color: Color) -> (rgb: Option<Rgb>)
    ensures
        rgb == color_rgb(color),
{
    match color {
        Color::Reset => None,
        Color::Black => Some(Rgb { r: 0, g: 0, b: 0 }),
        Color::Red => Some(Rgb { r: 255, g: 0, b: 0 }),
        Color::Green => Some(Rgb { r: 0, g: 255, b: 0 }),
        Color::Yellow => Some(Rgb { r: 255, g: 255, b: 0 }),
        Color::Blue => Some(Rgb { r: 0, g: 0, b: 255 }),
        Color::Magenta => Some(Rgb { r: 255, g: 0, b: 255 }),
        Color::Cyan => Some(Rgb { r: 0, g: 255, b: 255 }),
        Color::Gray => Some(Rgb { r: 160, g: 160, b: 160 }),
        Color::LightRed => Some(Rgb { r: 255, g: 128, b: 128 }),
        Color::LightGreen => Some(Rgb { r: 0x90, g: 0xEE, b: 0x90 }),
        Color::LightYellow => Some(Rgb { r: 255, g: 255, b: 0xE0 }),
        Color::LightBlue => Some(Rgb { r: 0xAD, g: 0xD8, b: 0xE6 }),
        Color::LightMagenta => Some(Rgb { r: 255, g: 128, b: 255 }),
        Color::LightCyan => Some(Rgb { r: 128, g: 255, b: 255 }),
        Color::LightGray => Some(Rgb { r: 220, g: 220, b: 220 }),
        Color::White => Some(Rgb { r: 255, g: 255, b: 255 }),
        Color::Rgb(r, g, b) => Some(Rgb { r, g, b }),
        Color::Indexed(_) => None,
    }
}

/// How a run is painted: the colour of its glyphs, the colour that fills
/// its cells for reversed video, and the colour of its background, which is
/// laid over the former.
#[derive(Clone, Copy, Debug, PartialEq, Eq)]
pub struct RunPaint {
    pub text: Rgb,
    pub reversed: Option<Rgb>,
    pub background: Option<Rgb>,
}

/// The colour in which text without a foreground is painted.
pub open spec fn default_text_rgb() -> Rgb {
    Rgb { r: 255, g: 255, b: 255 }
}

/// True when `color` is a colour that has no fixed value.
pub open spec fn unpaintable(color: Option<Color>) -> bool {
    color matches Some(c) && color_rgb(c) is None
}

/// The fixed value of `color`, where it has one.
pub open spec fn painted(color: Option<Color>) -> Option<Rgb> {
    match color {
        Some(c) => color_rgb(c),
        None => None,
    }
}

/// How a run of `style` is painted; `None` where its foreground or its
/// background is a colour that has no fixed value. The glyphs take the
/// foreground, or white where there is none. Reversed video fills the cells
/// with the foreground, a background with the background.
pub open spec fn paint_spec(style: StyleSpec) -> Option<RunPaint> {
    if unpaintable(style.fg) || unpaintable(style.bg) {
        None
    } else {
        Some(
            RunPaint {
                text: match painted(style.fg) {
                    Some(rgb) => rgb,
                    None => default_text_rgb(),
                },
                reversed: if style.is_reversed_spec() {
                    painted(style.fg)
                } else {
                    None
                },
                background: painted(style.bg),
            },
        )
    }
}

/// Decides how a run of `style` is painted.
pub fn paint(style: &StyleSpec) -> (p: Option<RunPaint>)
    ensures
        p == paint_spec(*style),
{
    let fg: Option<Rgb> = match style.fg {
        Some(color) => match convert_color(color) {
            Some(rgb) => Some(rgb),
            None => {
                return None;
            },
        },
        None => None,
    };
    let bg: Option<Rgb> = match style.bg {
        Some(color) => match convert_color(color) {
            Some(rgb) => Some(rgb),
            None => {
                return None;
            },
        },
        None => None,
    };
    let text: Rgb = match fg {
        Some(rgb) => rgb,
        None => Rgb { r: 255, g: 255, b: 255 },
    };
    let reversed: Option<Rgb> = if style.is_reversed() {
        fg
    } else {
        None
    };
    Some(RunPaint { text, reversed, background: bg })
}

} // verus!
