use ttf_rasterizer::catalog::{
    ensure_online_catalog_loaded, filter_fonts, find_font, font_details, font_id, load_catalog,
    resolve_font_source, same_font, select_or_add_font, CatalogError, CatalogFile, FontEntry,
    FontSource, FontSourceError,
};
use ttf_rasterizer::online::{
    catalog_request_url, online_fonts, GoogleWebfontItem, GoogleWebfontsResponse,
};
use ttf_rasterizer::paths::{plan_font_fetch, FontFetch};
use ttf_rasterizer::text_map::TextMap;

fn entry(family: &str, variant: &str) -> FontEntry {
    FontEntry {
        family: family.to_string(),
        variant: variant.to_string(),
        ttf_url: format!("https://fonts/{}", family),
        license: "OFL".to_string(),
    }
}

fn item(family: &str, variants: &[&str], files: &[(&str, &str)], license: &str) -> GoogleWebfontItem {
    let mut table = TextMap::new();
    for (variant, url) in files {
        table.insert(variant.to_string(), url.to_string());
    }
    GoogleWebfontItem {
        family: family.to_string(),
        variants: variants.iter().map(|v| v.to_string()).collect(),
        files: table,
        license: license.to_string(),
    }
}

#[test]
fn filters_fonts_case_insensitively() {
    let catalog = vec![
        FontEntry {
            family: "JetBrains Mono".to_string(),
            variant: "regular".to_string(),
            ttf_url: "u1".to_string(),
            license: "OFL".to_string(),
        },
        FontEntry {
            family: "Space Mono".to_string(),
            variant: "bold".to_string(),
            ttf_url: "u2".to_string(),
            license: "OFL".to_string(),
        },
    ];

    assert_eq!(filter_fonts(&catalog, "jet"), vec![0]);
    assert_eq!(filter_fonts(&catalog, "BOLD"), vec![1]);
    assert_eq!(filter_fonts(&catalog, ""), vec![0, 1]);
}

#[test]
fn filter_ignores_white_space_around_the_query() {
    let catalog = vec![entry("JetBrains Mono", "regular"), entry("Space Mono", "bold")];
    assert_eq!(filter_fonts(&catalog, "  \t"), vec![0, 1]);
    assert_eq!(filter_fonts(&catalog, " mono "), vec![0, 1]);
    assert_eq!(filter_fonts(&catalog, " SpAcE m "), vec![1]);
    assert_eq!(filter_fonts(&catalog, "serif"), Vec::<usize>::new());
    assert_eq!(filter_fonts(&[], ""), Vec::<usize>::new());
}

#[test]
fn same_font_ignores_case() {
    let a = entry("Space Mono", "bold");
    let b = entry("SPACE mono", "Bold");
    let c = entry("Space Mono", "regular");
    assert!(same_font(&a, &a) && same_font(&a, &b) && same_font(&b, &a));
    assert!(!same_font(&a, &c));
    assert_eq!(font_id(&a), "Space Mono::bold");
    assert_eq!(font_details(&a), "[bold] (OFL)");
}

#[test]
fn find_font_takes_the_first_of_a_family() {
    let fonts = vec![entry("A", "x"), entry("B", "y"), entry("b", "z")];
    assert_eq!(find_font(&fonts, "b").unwrap().variant, "y");
    assert_eq!(find_font(&fonts, "a").unwrap().variant, "x");
    assert!(find_font(&fonts, "c").is_none());
}

#[test]
fn font_source_is_exactly_one() {
    let fonts = vec![entry("A", "x")];
    match resolve_font_source(&fonts, Some("a"), false) {
        Ok(FontSource::Catalog(found)) => assert_eq!(found.family, "A"),
        _ => panic!("the catalog has this font"),
    }
    assert!(matches!(resolve_font_source(&fonts, None, true), Ok(FontSource::File)));
    let missing = resolve_font_source(&fonts, Some("zz"), false).err().unwrap();
    assert!(matches!(missing, FontSourceError::NotFound { .. }));
    assert_eq!(missing.message(), "font 'zz' not found in catalog");
    for (family, file) in [(Some("a"), true), (None, false)] {
        let error = resolve_font_source(&fonts, family, file).err().unwrap();
        assert!(matches!(error, FontSourceError::NotExactlyOne));
        assert_eq!(error.message(), "provide exactly one font source");
    }
}

#[test]
fn fonts_are_fetched_once() {
    let root = vec!["/c".to_string()];
    match plan_font_fetch(&entry("Space Mono", "bold"), root.clone(), true) {
        FontFetch::Cached { file } => assert_eq!(file, vec!["/c", "fonts", "space-mono-bold.ttf"]),
        other => panic!("{:?}", other),
    }
    match plan_font_fetch(&entry("Space Mono", "bold"), root, false) {
        FontFetch::Download { url, directory, file } => {
            assert_eq!(url, "https://fonts/Space Mono");
            assert_eq!(directory, vec!["/c", "fonts"]);
            assert_eq!(file, vec!["/c", "fonts", "space-mono-bold.ttf"]);
        }
        other => panic!("{:?}", other),
    }
}

#[test]
fn choosing_selects_or_adds() {
    let mut fonts = vec![entry("A", "x"), entry("B", "y")];
    let mut selected = 0;
    let mut message = String::new();
    let mut cache = TextMap::new();
    cache.insert("k".to_string(), "v".to_string());
    select_or_add_font(&entry("b", "Y"), &mut fonts, &mut selected, &mut message, &mut cache);
    assert_eq!((fonts.len(), selected, message.as_str()), (2, 1, "selected b"));
    assert!(!cache.contains_key("k"));
    cache.insert("k".to_string(), "v".to_string());
    select_or_add_font(&entry("C", "z"), &mut fonts, &mut selected, &mut message, &mut cache);
    assert_eq!((fonts.len(), selected, message.as_str()), (3, 2, "added C"));
    assert_eq!(fonts[2].ttf_url, "https://fonts/C");
    assert!(!cache.contains_key("k"));
    select_or_add_font(&entry("c", "Z"), &mut fonts, &mut selected, &mut message, &mut cache);
    assert_eq!((fonts.len(), selected, message.as_str()), (3, 2, "selected c"));
}

#[test]
fn bundled_catalog_must_not_be_empty() {
    let kept = load_catalog(CatalogFile { fonts: vec![entry("A", "x")] }).unwrap();
    assert_eq!(kept.fonts.len(), 1);
    let error = load_catalog(CatalogFile { fonts: Vec::new() }).unwrap_err();
    assert!(matches!(error, CatalogError::BundledEmpty));
    assert_eq!(error.message(), "bundled catalog is empty");
}

#[test]
fn online_catalog_is_loaded_once() {
    let mut cache = None;
    let error = ensure_online_catalog_loaded(&mut cache, Err("offline".to_string())).unwrap_err();
    assert!(matches!(error, CatalogError::Unavailable { .. }));
    assert_eq!(error.message(), "offline");
    assert!(cache.is_none());
    let error = ensure_online_catalog_loaded(&mut cache, Ok(Vec::new())).unwrap_err();
    assert_eq!(error.message(), "online catalog is empty");
    assert!(cache.is_none());
    let fonts = ensure_online_catalog_loaded(&mut cache, Ok(vec![entry("A", "x")])).unwrap();
    assert_eq!(fonts.len(), 1);
    let fonts = ensure_online_catalog_loaded(&mut cache, Err("offline".to_string())).unwrap();
    assert_eq!(fonts[0].family, "A");
    assert_eq!(cache.unwrap().len(), 1);
}

#[test]
fn online_fonts_are_chosen_and_sorted() {
    let response = GoogleWebfontsResponse {
        items: vec![
            item("Zeta", &["700", "regular"], &[("regular", "http://z/r"), ("700", "http://z/7")], ""),
            item("alpha", &["300", "700"], &[("300", "https://a/3")], "OFL"),
            item("Beta", &[], &[("regular", "http://b/http://")], "  "),
            item("ZETA", &["regular"], &[("regular", "http://other")], "MIT"),
            item("Gone", &["500"], &[("regular", "http://gone")], "MIT"),
            item("Beta", &["italic"], &[("italic", "ftp://b")], " MIT "),
        ],
    };
    let fonts = online_fonts(&response);
    let seen: Vec<(&str, &str, &str, &str)> = fonts
        .iter()
        .map(|f| (f.family.as_str(), f.variant.as_str(), f.ttf_url.as_str(), f.license.as_str()))
        .collect();
    assert_eq!(
        seen,
        vec![
            ("Beta", "italic", "ftp://b", " MIT "),
            ("Beta", "regular", "https://b/http://", "Unknown"),
            ("Zeta", "regular", "https://z/r", "Unknown"),
            ("alpha", "300", "https://a/3", "OFL"),
        ]
    );
    assert!(online_fonts(&GoogleWebfontsResponse { items: Vec::new() }).is_empty());
}

#[test]
fn online_order_is_that_of_strings() {
    let names = ["b", "a", "B", "é", "ab", "z", "A", "aa", "\u{10000}", "\u{ffff}"];
    let response = GoogleWebfontsResponse {
        items: names.iter().map(|n| item(n, &["regular"], &[("regular", "u")], "x")).collect(),
    };
    let families: Vec<String> = online_fonts(&response).into_iter().map(|f| f.family).collect();
    let mut wanted: Vec<String> = vec!["b", "a", "é", "ab", "z", "aa", "\u{10000}", "\u{ffff}"]
        .into_iter()
        .map(|s| s.to_string())
        .collect();
    wanted.sort();
    assert_eq!(families, wanted);
}

#[test]
fn request_url_carries_the_key() {
    assert_eq!(
        catalog_request_url("abc"),
        "https://www.googleapis.com/webfonts/v1/webfonts?sort=popularity&key=abc"
    );
}
