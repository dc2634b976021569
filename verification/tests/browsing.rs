use ttf_rasterizer::browser::{
    prompt_answer, prompt_line, Action, Browser, Key, BROWSER_HELP, PREVIEW_SAMPLE_TEXT,
};
use ttf_rasterizer::catalog::{CatalogError, FontEntry};
use ttf_rasterizer::frame::Span;
use ttf_rasterizer::profile::RasterProfile;
use ttf_rasterizer::search::{search_page_step, FontSearch, SearchStep, SEARCH_HELP};

fn entry(family: &str, variant: &str) -> FontEntry {
    FontEntry {
        family: family.to_string(),
        variant: variant.to_string(),
        ttf_url: "u".to_string(),
        license: "OFL".to_string(),
    }
}

fn catalog() -> Vec<FontEntry> {
    vec![entry("JetBrains Mono", "regular"), entry("Space Mono", "bold"), entry("Lato", "regular")]
}

fn seen(frame: &[Span]) -> Vec<(u16, u16, String, bool)> {
    frame.iter().map(|s| (s.x, s.y, s.content.clone(), s.bold)).collect()
}

fn span(x: u16, y: u16, content: &str, bold: bool) -> (u16, u16, String, bool) {
    (x, y, content.to_string(), bold)
}

#[test]
fn browser_starts_with_the_first_font() {
    let browser = Browser::new(&catalog()).ok().unwrap();
    assert_eq!((browser.selected, browser.preview_size, browser.catalog_total), (0, 22, 3));
    assert_eq!(browser.sample_text, "SHELL QUEST\nmade by pawel potepa");
    assert_eq!(browser.sample_text, PREVIEW_SAMPLE_TEXT);
    assert_eq!(browser.profile, RasterProfile::Classic);
    let error = Browser::new(&[]).err().unwrap();
    assert!(matches!(error, CatalogError::Empty));
    assert_eq!(error.message(), "catalog is empty");
}

#[test]
fn keys_move_within_the_list() {
    let mut b = Browser::new(&catalog()).ok().unwrap();
    b.on_key(Key::Up);
    assert_eq!(b.selected, 0);
    b.on_key(Key::Down);
    b.on_key(Key::Char('j'));
    b.on_key(Key::Char('j'));
    assert_eq!(b.selected, 2);
    b.on_key(Key::Char('k'));
    assert_eq!(b.selected, 1);
}

#[test]
fn sizes_stay_within_their_limits() {
    let mut b = Browser::new(&catalog()).ok().unwrap();
    b.on_key(Key::Char('+'));
    assert_eq!((b.preview_size, b.message.as_str()), (24, "preview size: 24px"));
    b.on_key(Key::Char('_'));
    assert_eq!(b.preview_size, 22);
    for _ in 0..40 {
        b.on_key(Key::Char('='));
    }
    assert_eq!((b.preview_size, b.message.as_str()), (80, "preview size: 80px"));
    for _ in 0..40 {
        b.on_key(Key::Char('-'));
    }
    assert_eq!((b.preview_size, b.message.as_str()), (8, "preview size: 8px"));
}

#[test]
fn profiles_go_round_in_the_browser() {
    let mut b = Browser::new(&catalog()).ok().unwrap();
    b.on_key(Key::Char('['));
    assert_eq!((b.profile, b.message.as_str()), (RasterProfile::Inverted, "profile: inverted"));
    b.on_key(Key::Char(']'));
    assert_eq!((b.profile, b.message.as_str()), (RasterProfile::Classic, "profile: classic"));
}

#[test]
fn keys_ask_for_actions() {
    let mut b = Browser::new(&catalog()).ok().unwrap();
    assert!(matches!(b.on_key(Key::Char('q')), Action::Quit));
    assert!(matches!(b.on_key(Key::Esc), Action::Quit));
    assert!(matches!(b.on_key(Key::Char('t')), Action::AskSampleText));
    assert!(matches!(b.on_key(Key::Char('s')), Action::SearchLocal));
    assert!(matches!(b.on_key(Key::Char('S')), Action::SearchOnline));
    assert!(matches!(b.on_key(Key::Char('x')), Action::Stay));
    assert!(matches!(b.on_key(Key::Other), Action::Stay));
    assert_eq!(b.message, "");
    b.sample_text = "hi".to_string();
    match b.on_key(Key::Char('C')) {
        Action::Copy(command) => assert_eq!(
            command,
            "cargo run -p ttf-rasterizer -- generate --font 'JetBrains Mono' --text 'hi' \
             --profile classic --size 22 --output \
             'mods/base/assets/fonts/jetbrains-mono-regular-classic.txt'"
        ),
        other => panic!("{:?}", other),
    }
    assert_eq!(b.message, "copied generate command to clipboard");
}

#[test]
fn previews_are_made_once() {
    let mut b = Browser::new(&catalog()).ok().unwrap();
    assert!(b.needs_preview());
    b.on_preview(Ok("ART".to_string()));
    assert!(!b.needs_preview());
    assert_eq!(b.message, "loaded JetBrains Mono @ 22px (classic)");
    assert_eq!(
        b.preview_cache
            .get("JetBrains Mono::regular|22.0|classic|SHELL QUEST\nmade by pawel potepa"),
        Some(&"ART".to_string())
    );
    b.on_key(Key::Down);
    assert!(b.needs_preview());
    b.on_preview(Err("no network".to_string()));
    assert!(!b.needs_preview());
    assert_eq!(b.message, "Space Mono (no network)");
    b.on_key(Key::Up);
    assert!(!b.needs_preview());
    b.on_key(Key::Char('r'));
    assert_eq!(b.message, "reloading preview");
    assert!(b.needs_preview());
}

#[test]
fn previews_of_other_fonts_stay() {
    let mut b = Browser::new(&catalog()).ok().unwrap();
    b.on_preview(Ok("first".to_string()));
    b.on_key(Key::Down);
    assert!(b.needs_preview());
    b.on_preview(Ok("second".to_string()));
    b.on_key(Key::Up);
    assert!(!b.needs_preview());
    assert!(seen(&b.draw(80, 24)).contains(&span(40, 3, "first", false)));
}

#[test]
fn changes_drop_the_previews() {
    for change in ['+', '-', '[', ']', 'r'] {
        let mut b = Browser::new(&catalog()).ok().unwrap();
        b.on_preview(Ok("ART".to_string()));
        b.on_key(Key::Char(change));
        assert!(b.needs_preview());
    }
    let mut b = Browser::new(&catalog()).ok().unwrap();
    b.on_preview(Ok("ART".to_string()));
    b.on_prompt(None);
    assert_eq!(b.message, "kept previous preview text");
    assert!(!b.needs_preview());
    b.on_prompt(Some("new".to_string()));
    assert_eq!((b.message.as_str(), b.sample_text.as_str()), ("updated preview text", "new"));
    assert!(b.needs_preview());
}

#[test]
fn searches_end_in_the_browser() {
    let mut b = Browser::new(&catalog()).ok().unwrap();
    b.on_search(None, false);
    assert_eq!(b.message, "search cancelled");
    b.on_search(None, true);
    assert_eq!(b.message, "online search cancelled");
    b.on_online_failure("offline");
    assert_eq!(b.message, "online fonts unavailable: offline");
    b.on_search(Some(entry("LATO", "Regular")), false);
    assert_eq!((b.selected, b.fonts.len(), b.message.as_str()), (2, 3, "selected LATO"));
    b.on_search(Some(entry("Roboto", "regular")), true);
    assert_eq!((b.selected, b.fonts.len(), b.message.as_str()), (3, 4, "added Roboto"));
}

#[test]
fn prompt_asks_with_the_first_line() {
    assert_eq!(
        prompt_line("SHELL QUEST\nmade by"),
        "Preview text (single line, blank keeps current) [SHELL QUEST]: "
    );
    assert_eq!(prompt_answer("  new text \n"), Some("new text".to_string()));
    assert_eq!(prompt_answer(" \t\n"), None);
}

#[test]
fn browser_screen() {
    let mut b = Browser::new(&catalog()).ok().unwrap();
    b.on_key(Key::Down);
    b.on_preview(Ok("0123456789abcdefghijklmnopqrstuvwxyz\ntwo\nthree".to_string()));
    assert_eq!(
        seen(&b.draw(30, 8)),
        vec![
            span(0, 0, "TTF Rasterizer Browser", true),
            span(0, 1, BROWSER_HELP, false),
            span(0, 2, "fonts: 3/3   size: 22px   profile: classic   sample: SHELL QUEST", false),
            span(0, 4, "  JetBrain", false),
            span(0, 5, "> Space Mo", false),
            span(12, 0, "Space Mono", true),
            span(12, 1, "variant: bold  license: OFL", false),
            span(12, 2, "preview:", false),
            span(12, 3, "0123456789abcdefgh", false),
            span(12, 4, "two", false),
            span(12, 5, "three", false),
            span(0, 7, "loaded Space Mono @ 22px (clas", false),
        ]
    );
}

#[test]
fn browser_screen_without_room() {
    let b = Browser::new(&catalog()).ok().unwrap();
    let frame = b.draw(0, 0);
    assert_eq!(frame.len(), 6);
    assert_eq!(frame[3].x, 2);
    let frame = b.draw(200, 5);
    assert_eq!(frame.len(), 7);
    assert_eq!((frame[6].x, frame[6].y, frame[6].content.as_str()), (40, 3, "loading preview..."));
}

#[test]
fn page_steps() {
    assert_eq!(search_page_step(None), 10);
    for h in 0..=u16::MAX {
        assert_eq!(search_page_step(Some(h)), h.saturating_sub(6).max(1) as usize);
    }
}

#[test]
fn search_by_typing() {
    let fonts = catalog();
    let mut s = FontSearch::new();
    for c in "mono".chars() {
        let found = s.refresh(&fonts);
        assert!(matches!(s.on_key(&fonts, &found, Key::Char(c), 3), SearchStep::Stay));
    }
    assert_eq!(s.query, "mono");
    let found = s.refresh(&fonts);
    assert_eq!(found, vec![0, 1]);
    s.on_key(&fonts, &found, Key::PageDown, 10);
    assert_eq!(s.selected, 1);
    match s.on_key(&fonts, &found, Key::Enter, 3) {
        SearchStep::Choose(e) => assert_eq!(e.family, "Space Mono"),
        other => panic!("{:?}", other),
    }
    s.on_key(&fonts, &found, Key::PageUp, 10);
    assert_eq!(s.selected, 0);
    s.on_key(&fonts, &found, Key::Char('j'), 3);
    assert_eq!((s.selected, s.query.as_str()), (1, "mono"));
    s.on_key(&fonts, &found, Key::Char('k'), 3);
    s.on_key(&fonts, &found, Key::Up, 3);
    assert_eq!(s.selected, 0);
    s.on_key(&fonts, &found, Key::Backspace, 3);
    assert_eq!(s.query, "mon");
    s.on_key(&fonts, &found, Key::Char('\u{7}'), 3);
    assert_eq!(s.query, "mon");
    assert!(matches!(s.on_key(&fonts, &found, Key::Esc, 3), SearchStep::Cancel));
}

#[test]
fn search_without_results() {
    let fonts = catalog();
    let mut s = FontSearch::new();
    s.selected = 2;
    s.query = "zzz".to_string();
    let found = s.refresh(&fonts);
    assert!(found.is_empty());
    assert_eq!(s.selected, 0);
    assert!(matches!(s.on_key(&fonts, &found, Key::Enter, 3), SearchStep::Stay));
    s.on_key(&fonts, &found, Key::Down, 3);
    assert_eq!(s.selected, 0);
    assert_eq!(
        seen(&s.draw("Local font search", &fonts, &found, 20)),
        vec![
            span(0, 0, "Local font search", true),
            span(0, 1, SEARCH_HELP, false),
            span(0, 2, "query: zzz", false),
            span(0, 4, "No results", false),
        ]
    );
}

#[test]
fn search_screen() {
    let fonts = catalog();
    let mut s = FontSearch::new();
    let found = s.refresh(&fonts);
    s.on_key(&fonts, &found, Key::Down, 3);
    assert_eq!(
        seen(&s.draw("T", &fonts, &found, 6)),
        vec![
            span(0, 0, "T", true),
            span(0, 1, SEARCH_HELP, false),
            span(0, 2, "query: ", false),
            span(0, 4, "  JetBrains Mono [regular] (OFL)", false),
            span(0, 5, "> Space Mono [bold] (OFL)", false),
        ]
    );
}

#[test]
fn search_screen_of_chosen_places() {
    let catalog = catalog();
    let mut search = FontSearch::new();
    search.selected = 1;
    let rows = seen(&search.draw("T", &catalog, &vec![], 24));
    assert_eq!(rows[3..], [span(0, 4, "No results", false)]);
    let rows = seen(&search.draw("T", &catalog, &vec![2, 0, 2, 0], 24));
    assert_eq!(
        rows[3..],
        [
            span(0, 4, "  Lato [regular] (OFL)", false),
            span(0, 5, "> JetBrains Mono [regular] (OFL)", false),
            span(0, 6, "  Lato [regular] (OFL)", false),
            span(0, 7, "> JetBrains Mono [regular] (OFL)", false),
        ]
    );
}
