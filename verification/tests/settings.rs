use git_pincer_desktop::settings::{
    compact_default, compact_min, large_default, large_min, AppTheme, CloseBehavior, Language, Settings,
    WinSize, FONT_FAMILY_MAX_CHARS, FONT_SIZE_MAX, FONT_SIZE_MIN,
};

#[test]
fn normalized_clamps_font_size_and_sanitizes_family() {
    let low = Settings {
        editor_font_size: 4,
        ..Settings::default()
    };
    assert_eq!(low.normalized().editor_font_size, 8);
    let high = Settings {
        editor_font_size: 99,
        ..Settings::default()
    };
    assert_eq!(high.normalized().editor_font_size, 32);
    let dirty = Settings {
        editor_font_family: "  \"Fira; Code\"{}  ".into(),
        ..Settings::default()
    };
    assert_eq!(dirty.normalized().editor_font_family, "Fira Code");
}

#[test]
fn defaults_match_the_documented_values() {
    let s = Settings::default();
    assert_eq!(s.editor_font_size, 12);
    assert_eq!(s.editor_font_family, "");
    assert_eq!(s.close_behavior, CloseBehavior::Tray);
    assert!(s.highlight_words);
    assert_eq!(s.theme, AppTheme::Dark);
    assert_eq!(s.language, Language::Zh);
    assert_eq!(s.compact_size, None);
    assert_eq!(s.large_size, None);
    assert!(s.close_to_tray());
    assert_eq!(CloseBehavior::default(), CloseBehavior::Tray);
    assert_eq!(AppTheme::default(), AppTheme::Dark);
    assert_eq!(Language::default(), Language::Zh);
}

#[test]
fn font_size_bounds_are_kept() {
    for (given, want) in [(0, 8), (7, 8), (8, 8), (20, 20), (32, 32), (33, 32), (u32::MAX, 32)] {
        let s = Settings { editor_font_size: given, ..Settings::default() };
        assert_eq!(s.normalized().editor_font_size, want);
    }
    assert_eq!((FONT_SIZE_MIN, FONT_SIZE_MAX), (8, 32));
}

#[test]
fn family_is_cut_to_its_limit_before_trimming() {
    let long = format!("{}{}", "a".repeat(70), "  ");
    let s = Settings { editor_font_family: long, ..Settings::default() };
    assert_eq!(s.normalized().editor_font_family, "a".repeat(FONT_FAMILY_MAX_CHARS));
    // Characters dropped for CSS do not count toward the limit.
    let braces = format!("{}{}", "{}".repeat(40), "Mono");
    let s = Settings { editor_font_family: braces, ..Settings::default() };
    assert_eq!(s.normalized().editor_font_family, "Mono");
    // Unicode white space is trimmed too.
    let s = Settings { editor_font_family: "\u{3000}Maple Mono\u{a0}\t".into(), ..Settings::default() };
    assert_eq!(s.normalized().editor_font_family, "Maple Mono");
    let s = Settings { editor_font_family: "a\\b'c".into(), ..Settings::default() };
    assert_eq!(s.normalized().editor_font_family, "abc");
}

#[test]
fn normalizing_twice_changes_nothing() {
    let s = Settings {
        editor_font_size: 3,
        editor_font_family: " ;Fira {Code} ".into(),
        close_behavior: CloseBehavior::Quit,
        highlight_words: false,
        theme: AppTheme::Light,
        language: Language::En,
        compact_size: Some(WinSize { width: 100, height: 900 }),
        large_size: Some(WinSize { width: 2000, height: 10 }),
    };
    let once = s.normalized();
    assert_eq!(once.clone().normalized(), once);
    assert_eq!(once.close_behavior, CloseBehavior::Quit);
    assert!(!once.close_to_tray());
    assert_eq!(once.theme, AppTheme::Light);
    assert_eq!(once.language, Language::En);
    assert!(!once.highlight_words);
}

#[test]
fn remembered_sizes_grow_to_the_minimum() {
    let s = Settings {
        compact_size: Some(WinSize { width: 100, height: 900 }),
        large_size: Some(WinSize { width: 2000, height: 10 }),
        ..Settings::default()
    };
    let n = s.normalized();
    assert_eq!(n.compact_size, Some(WinSize { width: 380, height: 900 }));
    assert_eq!(n.large_size, Some(WinSize { width: 2000, height: 640 }));
    assert_eq!(WinSize { width: 1, height: 1 }.clamp_min(compact_min()), compact_min());
    assert_eq!(compact_default(), WinSize { width: 420, height: 640 });
    assert_eq!(large_min(), WinSize { width: 960, height: 640 });
    assert_eq!(large_default(), WinSize { width: 1280, height: 800 });
}

#[test]
fn shell_texts_and_colours() {
    assert_eq!(Language::Zh.tray_labels(), ("显示窗口", "退出"));
    assert_eq!(Language::En.tray_labels(), ("Show Window", "Quit"));
    assert_eq!(Language::Zh.settings_label(), "设置…");
    assert_eq!(Language::En.settings_label(), "Settings…");
    assert_eq!(AppTheme::Dark.background(), [30, 31, 34, 255]);
    assert_eq!(AppTheme::Light.background(), [255, 255, 255, 255]);
}
