use ttf_rasterizer::api_key::{
    continue_key_search, find_key_in_file, has_lone_quote, missing_key_message, parse_export_var,
    start_key_search, KeySearch, KeyStep, FALLBACK_KEY_NAME, KEY_NAME,
};

#[test]
fn parses_exported_key_lines() {
    assert_eq!(
        parse_export_var(
            "export GOOGLE_FONTS_API_KEY=\"abc123\"",
            "GOOGLE_FONTS_API_KEY"
        ),
        Some("abc123".to_string())
    );
    assert_eq!(
        parse_export_var(
            "SHELL_QUEST_GOOGLE_FONTS_API_KEY=zzz",
            "SHELL_QUEST_GOOGLE_FONTS_API_KEY"
        ),
        Some("zzz".to_string())
    );
    assert_eq!(
        parse_export_var("# export GOOGLE_FONTS_API_KEY=none", "GOOGLE_FONTS_API_KEY"),
        None
    );
}

#[test]
fn assignments_in_many_forms() {
    let some = |s: &str| Some(s.to_string());
    assert_eq!(parse_export_var("  K = v  ", "K"), some("v"));
    assert_eq!(parse_export_var("export   K= ' a b ' ", "K"), some("a b"));
    assert_eq!(parse_export_var("K=a=b", "K"), some("a=b"));
    assert_eq!(parse_export_var("K=\"a'", "K"), some("\"a'"));
    assert_eq!(parse_export_var("K=\"\"", "K"), None);
    assert_eq!(parse_export_var("K=' '", "K"), None);
    assert_eq!(parse_export_var("K=", "K"), None);
    assert_eq!(parse_export_var("K", "K"), None);
    assert_eq!(parse_export_var("", "K"), None);
    assert_eq!(parse_export_var("   # K=v", "K"), None);
    assert_eq!(parse_export_var("L=v", "K"), None);
    assert_eq!(parse_export_var("exportK=v", "K"), None);
    assert_eq!(parse_export_var("=v", ""), some("v"));
}

#[test]
fn written_values_are_read_back() {
    for value in ["abc", "a b", "x#y", "ü", "a=b"] {
        for start in ["", "export ", "  export "] {
            for quote in ["", "\"", "'"] {
                let line = format!("{}{}={}{}{}", start, KEY_NAME, quote, value, quote);
                assert!(!has_lone_quote(&line, KEY_NAME));
                assert_eq!(parse_export_var(&line, KEY_NAME), Some(value.to_string()));
                assert_eq!(parse_export_var(&line, FALLBACK_KEY_NAME), None);
            }
        }
    }
}

#[test]
fn lone_quotes_are_seen() {
    assert!(has_lone_quote("K=\"", "K"));
    assert!(has_lone_quote(" export K = ' ", "K"));
    assert!(!has_lone_quote("K=\"\"", "K"));
    assert!(!has_lone_quote("L=\"", "K"));
    assert!(!has_lone_quote("# K=\"", "K"));
}

#[test]
fn first_line_with_the_key_counts() {
    let raw = "# keys\n\nexport OTHER=1\nSHELL_QUEST_GOOGLE_FONTS_API_KEY=two\r\nGOOGLE_FONTS_API_KEY=one\n";
    assert!(matches!(find_key_in_file(raw), KeySearch::Found(key) if key == "two"));
    assert!(matches!(find_key_in_file("GOOGLE_FONTS_API_KEY=\nX=1"), KeySearch::Missing));
    assert!(matches!(find_key_in_file(""), KeySearch::Missing));
    assert!(matches!(find_key_in_file("GOOGLE_FONTS_API_KEY='\n"), KeySearch::LoneQuote));
    assert!(matches!(
        find_key_in_file("GOOGLE_FONTS_API_KEY=k\nGOOGLE_FONTS_API_KEY='"),
        KeySearch::Found(key) if key == "k"
    ));
}

#[test]
fn search_goes_from_variables_to_files() {
    let vars = |a: Option<&str>, b: Option<&str>| vec![a.map(String::from), b.map(String::from)];
    assert!(matches!(
        start_key_search(&vars(Some(" one "), Some("two")), 2),
        KeyStep::Done(KeySearch::Found(key)) if key == "one"
    ));
    assert!(matches!(
        start_key_search(&vars(Some("  "), Some("two")), 2),
        KeyStep::Done(KeySearch::Found(key)) if key == "two"
    ));
    assert!(matches!(start_key_search(&vars(None, None), 2), KeyStep::Read(0)));
    assert!(matches!(start_key_search(&vars(None, None), 0), KeyStep::Done(KeySearch::Missing)));
    assert!(matches!(continue_key_search(0, 2, &None), KeyStep::Read(1)));
    assert!(matches!(
        continue_key_search(0, 2, &Some("GOOGLE_FONTS_API_KEY=k".to_string())),
        KeyStep::Done(KeySearch::Found(key)) if key == "k"
    ));
    assert!(matches!(
        continue_key_search(1, 2, &Some("nothing".to_string())),
        KeyStep::Done(KeySearch::Missing)
    ));
    assert!(matches!(
        continue_key_search(0, 2, &Some("GOOGLE_FONTS_API_KEY=\"".to_string())),
        KeyStep::Done(KeySearch::LoneQuote)
    ));
}

#[test]
fn missing_key_is_explained() {
    assert_eq!(
        missing_key_message(),
        "GOOGLE_FONTS_API_KEY not available. Set env var or add it to ~/.config/shell-quest/env.sh"
    );
}

#[test]
fn exported_names_of_any_kind_are_read_back() {
    for name in ["", "#x", "export y", "a b"] {
        let line = format!("export {name}='v w'");
        assert_eq!(parse_export_var(&line, name), Some("v w".to_string()));
        let line = format!("export {name}=v w");
        assert_eq!(parse_export_var(&line, name), Some("v w".to_string()));
    }
    assert_eq!(parse_export_var("='v'", ""), Some("v".to_string()));
    assert_eq!(parse_export_var("#x='v'", "#x"), None);
    assert_eq!(parse_export_var("export y='v'", "export y"), None);
}
