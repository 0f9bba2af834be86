//! User settings, as kept in the app-data `settings.json`: their defaults and
//! the normalisation every value goes through before it is stored or used.

use vstd::prelude::*;

use crate::text::{chars_of, lemma_trim, string_from_chars, trim, trim_chars};

verus! {

/// Smallest editor font size, in px.
pub const FONT_SIZE_MIN: u32 = 8;

/// Largest editor font size, in px.
pub const FONT_SIZE_MAX: u32 = 32;

/// Longest editor font family name kept, in characters.
pub const FONT_FAMILY_MAX_CHARS: usize = 64;

/// What closing the window does.
#[derive(Clone, Copy, Debug, PartialEq, Eq, Structural)]
pub enum CloseBehavior {
    /// Hide into the system tray (the default).
    Tray,
    /// Quit the application.
    Quit,
}

impl Default for CloseBehavior {
    fn default() -> (r: Self)
        ensures
            r == CloseBehavior::Tray,
    {
        CloseBehavior::Tray
    }
}

/// Colour theme of the whole application.
#[derive(Clone, Copy, Debug, PartialEq, Eq, Structural)]
pub enum AppTheme {
    /// Dark (the default).
    Dark,
    /// Light.
    Light,
}

impl Default for AppTheme {
    fn default() -> (r: Self)
        ensures
            r == AppTheme::Dark,
    {
        AppTheme::Dark
    }
}

/// Interface language.
#[derive(Clone, Copy, Debug, PartialEq, Eq, Structural)]
pub enum Language {
    /// Chinese in the compact window, the editor's English in the large one
    /// (the default).
    Zh,
    /// English throughout.
    En,
}

impl Default for Language {
    fn default() -> (r: Self)
        ensures
            r == Language::Zh,
    {
        Language::Zh
    }
}

impl AppTheme {
    /// The native window's background colour (RGBA): the theme's canvas, so
    /// resizing never shows a flash of another colour.
    pub fn background(self) -> (r: [u8; 4])
        ensures
            r@ == (match self {
                AppTheme::Dark => seq![30u8, 31u8, 34u8, 255u8],
                AppTheme::Light => seq![255u8, 255u8, 255u8, 255u8],
            }),
    {
        let r = match self {
            AppTheme::Dark => [30u8, 31u8, 34u8, 255u8],
            AppTheme::Light => [255u8, 255u8, 255u8, 255u8],
        };
        proof {
            assert(r@ =~= (match self {
                AppTheme::Dark => seq![30u8, 31u8, 34u8, 255u8],
                AppTheme::Light => seq![255u8, 255u8, 255u8, 255u8],
            }));
        }
        r
    }
}

impl Language {
    /// The tray menu's texts: show the window, quit.
    pub fn tray_labels(self) -> (r: (&'static str, &'static str))
        ensures
            match self {
                Language::Zh => r.0@ == "显示窗口"@ && r.1@ == "退出"@,
                Language::En => r.0@ == "Show Window"@ && r.1@ == "Quit"@,
            },
    {
        match self {
            Language::Zh => ("显示窗口", "退出"),
            Language::En => ("Show Window", "Quit"),
        }
    }

    /// The text of the menu item that opens the settings.
    pub fn settings_label(self) -> (r: &'static str)
        ensures
            r@ == (match self {
                Language::Zh => "设置…"@,
                Language::En => "Settings…"@,
            }),
    {
        match self {
            Language::Zh => "设置…",
            Language::En => "Settings…",
        }
    }
}

/// A window size in logical pixels.
#[derive(Clone, Copy, Debug, PartialEq, Eq, Structural)]
pub struct WinSize {
    pub width: u32,
    pub height: u32,
}

/// `size` grown, dimension by dimension, to at least `min`.
pub open spec fn clamp_min_spec(size: WinSize, min: WinSize) -> WinSize {
    WinSize {
        width: if size.width < min.width {
            min.width
        } else {
            size.width
        },
        height: if size.height < min.height {
            min.height
        } else {
            size.height
        },
    }
}

impl WinSize {
    /// This size grown, dimension by dimension, to at least `min`.
    pub fn clamp_min(self, min: WinSize) -> (r: WinSize)
        ensures
            r == clamp_min_spec(self, min),
    {
        WinSize {
            width: if self.width < min.width {
                min.width
            } else {
                self.width
            },
            height: if self.height < min.height {
                min.height
            } else {
                self.height
            },
        }
    }
}

/// Smallest size of the compact window.
pub fn compact_min() -> (r: WinSize)
    ensures
        r == (WinSize { width: 380, height: 520 }),
{
    WinSize { width: 380, height: 520 }
}

/// Size of the compact window until the user resizes it.
pub fn compact_default() -> (r: WinSize)
    ensures
        r == (WinSize { width: 420, height: 640 }),
{
    WinSize { width: 420, height: 640 }
}

/// Smallest size of the large window.
pub fn large_min() -> (r: WinSize)
    ensures
        r == (WinSize { width: 960, height: 640 }),
{
    WinSize { width: 960, height: 640 }
}

/// Size of the large window until the user resizes it.
pub fn large_default() -> (r: WinSize)
    ensures
        r == (WinSize { width: 1280, height: 800 }),
{
    WinSize { width: 1280, height: 800 }
}

/// User settings. Every field has a default, so a file written by another
/// version reads back without losing what it holds.
#[derive(Clone, Debug, PartialEq, Eq)]
pub struct Settings {
    /// Editor font size in px, within `FONT_SIZE_MIN..=FONT_SIZE_MAX`.
    pub editor_font_size: u32,
    /// Editor monospace font family; empty for the embedded JetBrains Mono.
    pub editor_font_family: String,
    /// What closing the window does.
    pub close_behavior: CloseBehavior,
    /// Whether word emphasis is on by default in the merge panes.
    pub highlight_words: bool,
    /// Colour theme.
    pub theme: AppTheme,
    /// Interface language.
    pub language: Language,
    /// Remembered size of the compact window, if the user resized it.
    pub compact_size: Option<WinSize>,
    /// Remembered size of the large window, if the user resized it.
    pub large_size: Option<WinSize>,
}

impl Default for Settings {
    fn default() -> (s: Self)
        ensures
            s.editor_font_size == 12,
            s.editor_font_family@ == Seq::<char>::empty(),
            s.close_behavior == CloseBehavior::Tray,
            s.highlight_words,
            s.theme == AppTheme::Dark,
            s.language == Language::Zh,
            s.compact_size is None,
            s.large_size is None,
    {
        Settings {
            editor_font_size: 12,
            editor_font_family: String::new(),
            close_behavior: CloseBehavior::Tray,
            highlight_words: true,
            theme: AppTheme::Dark,
            language: Language::Zh,
            compact_size: None,
            large_size: None,
        }
    }
}

/// `n` clamped into `FONT_SIZE_MIN..=FONT_SIZE_MAX`.
pub open spec fn clamp_font_size(n: u32) -> u32 {
    if n < FONT_SIZE_MIN {
        FONT_SIZE_MIN
    } else if n > FONT_SIZE_MAX {
        FONT_SIZE_MAX
    } else {
        n
    }
}

/// Characters that would break the CSS value a font family ends up in.
pub open spec fn breaks_css(c: char) -> bool {
    c == ';' || c == '"' || c == '\'' || c == '{' || c == '}' || c == '\\'
}

/// The characters of `s` that do not break CSS, in order.
pub open spec fn css_safe(s: Seq<char>) -> Seq<char>
    decreases s.len(),
{
    if s.len() == 0 {
        Seq::empty()
    } else {
        let p = css_safe(s.drop_last());
        if breaks_css(s.last()) {
            p
        } else {
            p.push(s.last())
        }
    }
}

/// At most the first `n` elements of `s`.
pub open spec fn first_n(s: Seq<char>, n: int) -> Seq<char> {
    if s.len() <= n {
        s
    } else {
        s.take(n)
    }
}

/// A font family name made safe: characters that break CSS dropped, cut to
/// `FONT_FAMILY_MAX_CHARS` characters, white space trimmed off both ends.
pub open spec fn clean_family(s: Seq<char>) -> Seq<char> {
    trim(first_n(css_safe(s), FONT_FAMILY_MAX_CHARS as int))
}

/// A remembered window size grown to the window's smallest size.
pub open spec fn clamp_size(size: Option<WinSize>, min: WinSize) -> Option<WinSize> {
    match size {
        Some(z) => Some(clamp_min_spec(z, min)),
        None => None,
    }
}

fn breaks_css_char(c: char) -> (r: bool)
    ensures
        r == breaks_css(c),
{
    c == ';' || c == '"' || c == '\'' || c == '{' || c == '}' || c == '\\'
}

/// Makes a font family name safe (see `clean_family`).
pub fn clean_font_family(s: &str) -> (r: String)
    ensures
        r@ == clean_family(s@),
{
    let chars = chars_of(s);
    let mut kept: Vec<char> = Vec::new();
    let mut i: usize = 0;
    while i < chars.len()
        invariant
            i <= chars.len(),
            chars@ == s@,
            kept@ == first_n(css_safe(chars@.take(i as int)), FONT_FAMILY_MAX_CHARS as int),
        decreases chars.len() - i,
    {
        let c = chars[i];
        proof {
            assert(chars@.take(i + 1).drop_last() =~= chars@.take(i as int));
            assert(chars@.take(i + 1).last() == c);
        }
        if !breaks_css_char(c) && kept.len() < FONT_FAMILY_MAX_CHARS {
            kept.push(c);
        }
        i = i + 1;
        proof {
            let p = css_safe(chars@.take(i - 1));
            if !breaks_css(c) && p.len() >= FONT_FAMILY_MAX_CHARS {
                assert(p.push(c).take(FONT_FAMILY_MAX_CHARS as int) =~= p.take(FONT_FAMILY_MAX_CHARS as int));
            }
            if !breaks_css(c) && p.len() < FONT_FAMILY_MAX_CHARS {
                assert(kept@ =~= p.push(c));
            }
        }
    }
    proof {
        assert(chars@.take(chars@.len() as int) =~= chars@);
    }
    let trimmed = trim_chars(&kept);
    string_from_chars(&trimmed)
}

impl Settings {
    /// These settings with every value made valid: the font size clamped to
    /// `FONT_SIZE_MIN..=FONT_SIZE_MAX`, the font family cleaned (see
    /// `clean_family`), remembered window sizes grown to each window's
    /// smallest size; everything else kept.
    pub fn normalized(self) -> (r: Self)
        ensures
            r.editor_font_size == clamp_font_size(self.editor_font_size),
            r.editor_font_family@ == clean_family(self.editor_font_family@),
            r.close_behavior == self.close_behavior,
            r.highlight_words == self.highlight_words,
            r.theme == self.theme,
            r.language == self.language,
            r.compact_size == clamp_size(self.compact_size, WinSize { width: 380, height: 520 }),
            r.large_size == clamp_size(self.large_size, WinSize { width: 960, height: 640 }),
            self.compact_size is None <==> r.compact_size is None,
            self.large_size is None <==> r.large_size is None,
    {
        let size = if self.editor_font_size < FONT_SIZE_MIN {
            FONT_SIZE_MIN
        } else if self.editor_font_size > FONT_SIZE_MAX {
            FONT_SIZE_MAX
        } else {
            self.editor_font_size
        };
        let family = clean_font_family(self.editor_font_family.as_str());
        let compact_size = match self.compact_size {
            Some(z) => Some(z.clamp_min(compact_min())),
            None => None,
        };
        let large_size = match self.large_size {
            Some(z) => Some(z.clamp_min(large_min())),
            None => None,
        };
        Settings {
            editor_font_size: size,
            editor_font_family: family,
            close_behavior: self.close_behavior,
            highlight_words: self.highlight_words,
            theme: self.theme,
            language: self.language,
            compact_size,
            large_size,
        }
    }

    /// These settings with the remembered window sizes of `current`: the
    /// sizes belong to the shell, which records them as the user resizes
    /// the window, so a stale copy from the front end never overwrites them.
    pub fn with_window_sizes_of(self, current: &Settings) -> (r: Self)
        ensures
            r.editor_font_size == self.editor_font_size,
            r.editor_font_family@ == self.editor_font_family@,
            r.close_behavior == self.close_behavior,
            r.highlight_words == self.highlight_words,
            r.theme == self.theme,
            r.language == self.language,
            r.compact_size == current.compact_size,
            r.large_size == current.large_size,
    {
        Settings { compact_size: current.compact_size, large_size: current.large_size, ..self }
    }

    /// Whether closing the window hides it into the tray.
    pub fn close_to_tray(&self) -> (r: bool)
        ensures
            r == (self.close_behavior == CloseBehavior::Tray),
    {
        match self.close_behavior {
            CloseBehavior::Tray => true,
            CloseBehavior::Quit => false,
        }
    }
}


/// A remembered window size is only ever grown to the window's smallest
/// size: an absent size stays absent (the window then opens at its default
/// size), a present one keeps each dimension that is already large enough
/// and takes the smallest size's value for one that is not, and a size that
/// is large enough in both dimensions is kept as it is.
pub proof fn law_window_size_kept(window: Option<WinSize>, min: WinSize)
    ensures
        window is None ==> clamp_size(window, min) is None,
        window matches Some(z) ==> clamp_size(window, min) matches Some(r) && r.width == (if z.width >= min.width {
            z.width
        } else {
            min.width
        }) && r.height == (if z.height >= min.height {
            z.height
        } else {
            min.height
        }),
        window matches Some(z) ==> (z.width >= min.width && z.height >= min.height ==> clamp_size(window, min)
            == window),
{
}

proof fn lemma_css_safe(s: Seq<char>)
    ensures
        css_safe(s).len() <= s.len(),
        forall|i: int| 0 <= i < css_safe(s).len() ==> !breaks_css(#[trigger] css_safe(s)[i]),
        (forall|i: int| 0 <= i < s.len() ==> !breaks_css(#[trigger] s[i])) ==> css_safe(s) == s,
    decreases s.len(),
{
    if s.len() > 0 {
        let p = s.drop_last();
        lemma_css_safe(p);
        if forall|i: int| 0 <= i < s.len() ==> !breaks_css(#[trigger] s[i]) {
            assert forall|i: int| 0 <= i < p.len() implies !breaks_css(#[trigger] p[i]) by {
                assert(p[i] == s[i]);
            }
            assert(!breaks_css(s[s.len() - 1]));
            assert(p.push(s.last()) =~= s);
        }
    }
}

/// Normalising is stable and gives valid values: the font size lies in
/// `FONT_SIZE_MIN..=FONT_SIZE_MAX`; the font family has at most
/// `FONT_FAMILY_MAX_CHARS` characters, none that breaks CSS, and no white
/// space at either end; window sizes are at least their minimum; and
/// normalising a normalised value changes nothing.
pub proof fn law_normalized_stable(size: u32, family: Seq<char>, window: Option<WinSize>, min: WinSize)
    ensures
        FONT_SIZE_MIN <= clamp_font_size(size) <= FONT_SIZE_MAX,
        clamp_font_size(clamp_font_size(size)) == clamp_font_size(size),
        clean_family(family).len() <= FONT_FAMILY_MAX_CHARS,
        forall|i: int| 0 <= i < clean_family(family).len() ==> !breaks_css(#[trigger] clean_family(family)[i]),
        trim(clean_family(family)) == clean_family(family),
        clean_family(clean_family(family)) == clean_family(family),
        clamp_size(window, min) matches Some(z) ==> z.width >= min.width && z.height >= min.height,
        clamp_size(clamp_size(window, min), min) == clamp_size(window, min),
{
    let safe = css_safe(family);
    lemma_css_safe(family);
    let cut = first_n(safe, FONT_FAMILY_MAX_CHARS as int);
    let c = clean_family(family);
    let r = lemma_trim(cut);
    assert forall|i: int| 0 <= i < c.len() implies !breaks_css(#[trigger] c[i]) by {
        assert(c[i] == cut[r.0 + i]);
        assert(cut[r.0 + i] == safe[r.0 + i]);
    }
    lemma_css_safe(c);
    assert(css_safe(c) == c);
    assert(first_n(c, FONT_FAMILY_MAX_CHARS as int) == c);
}

} // verus!
