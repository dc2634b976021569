use ttf_rasterizer::frame::{list_window, loading_frame, single_line_sample, truncate_to_width};
use ttf_rasterizer::text::{
    contains_text, decimal, is_control, is_text_before, is_white_space, join_texts, lines_of,
    lower_text, replace_first, same_ignoring_case, same_text, trim_text,
};
use ttf_rasterizer::text_map::TextMap;

#[test]
fn truncate_keeps_char_boundaries() {
    assert_eq!(truncate_to_width("abcdef", 3), "abc");
    assert_eq!(truncate_to_width("abc", 10), "abc");
}

#[test]
fn truncate_counts_characters() {
    assert_eq!(truncate_to_width("äöüß", 2), "äö");
    assert_eq!(truncate_to_width("äöüß", 4), "äöüß");
    assert_eq!(truncate_to_width("abc", 0), "");
    assert_eq!(truncate_to_width(truncate_to_width("abcdef", 4), 4), "abcd");
}

#[test]
fn samples_are_the_first_line() {
    assert_eq!(single_line_sample("SHELL QUEST\nmade by", 36), "SHELL QUEST");
    assert_eq!(single_line_sample("SHELL QUEST", 5), "SHELL");
    assert_eq!(single_line_sample("", 5), "");
    assert_eq!(single_line_sample("\nnext", 5), "");
    assert_eq!(single_line_sample("one\r\ntwo", 10), "one");
}

#[test]
fn character_classes_are_those_of_unicode() {
    for p in 0..=0x10ffffu32 {
        if let Some(c) = char::from_u32(p) {
            assert_eq!(is_white_space(c), c.is_whitespace(), "{:x}", p);
            assert_eq!(is_control(c), c.is_control(), "{:x}", p);
        }
    }
}

#[test]
fn trimming_and_small_letters() {
    for text in ["", "  ", " a b ", "\t\u{a0}X\u{3000}", "É À z", "\u{200b}q"] {
        assert_eq!(trim_text(text), text.trim());
        assert_eq!(lower_text(text), text.to_ascii_lowercase());
        assert_eq!(trim_text(&trim_text(text)), trim_text(text));
        assert_eq!(trim_text(&lower_text(text)), lower_text(&trim_text(text)));
        assert_eq!(lower_text(&lower_text(text)), lower_text(text));
    }
}

#[test]
fn lines_are_those_of_std() {
    for text in [
        "", "\n", "a", "a\n", "a\nb", "a\n\nb\n", "\r\n", "a\r\nb\r", "a\r\r\nb", "\r", "\n\r\n",
        "x\ry\nz",
    ] {
        assert_eq!(lines_of(text), text.lines().map(|l| l.to_string()).collect::<Vec<_>>());
    }
}

#[test]
fn texts_are_compared_like_strings() {
    let all = ["", "a", "A", "ab", "b", "é", "z\u{10ffff}", "\u{ffff}", "\u{10000}", "a\0"];
    for a in all {
        for b in all {
            assert_eq!(is_text_before(a, b), a < b);
            assert_eq!(same_text(a, b), a == b);
            assert_eq!(same_ignoring_case(a, b), a.eq_ignore_ascii_case(b));
            assert_eq!(contains_text(a, b), a.contains(b));
        }
    }
}

#[test]
fn first_occurrence_is_replaced() {
    assert_eq!(replace_first("http://a/http://b", "http://", "https://"), "https://a/http://b");
    assert_eq!(replace_first("https://a", "http://", "https://"), "https://a");
    assert_eq!(replace_first("x http://a", "http://", "https://"), "x https://a");
    assert_eq!(replace_first("", "http://", "https://"), "");
}

#[test]
fn numbers_and_joins() {
    for n in [0usize, 7, 10, 22, 99, 100, 65535, usize::MAX] {
        assert_eq!(decimal(n), n.to_string());
    }
    let parts = vec!["a".to_string(), String::new(), "b".to_string()];
    assert_eq!(join_texts(&parts, ", "), "a, , b");
    assert_eq!(join_texts(&Vec::new(), ", "), "");
}

#[test]
fn window_shows_the_selected_row() {
    assert_eq!(list_window(0, 5, 20), (0, 5));
    assert_eq!(list_window(10, 5, 20), (8, 13));
    assert_eq!(list_window(19, 5, 20), (15, 20));
    assert_eq!(list_window(2, 5, 3), (0, 3));
    assert_eq!(list_window(2, 0, 3), (2, 2));
    for total in 1..12usize {
        for selected in 0..total {
            for height in 1..14usize {
                let (start, end) = list_window(selected, height, total);
                assert!(start <= selected && selected < end && end <= total);
                assert_eq!(end - start, height.min(total));
            }
        }
    }
}

#[test]
fn loading_screen() {
    let frame = loading_frame("busy");
    let seen: Vec<(u16, u16, &str, bool)> =
        frame.iter().map(|s| (s.x, s.y, s.content.as_str(), s.bold)).collect();
    assert_eq!(
        seen,
        vec![
            (0, 0, "TTF Rasterizer Browser", true),
            (0, 2, "busy", false),
            (0, 3, "please wait...", false)
        ]
    );
}

#[test]
fn map_gives_back_what_was_put_in() {
    let mut map = TextMap::new();
    assert!(!map.contains_key("a"));
    map.insert("a".to_string(), "1".to_string());
    map.insert("b".to_string(), "2".to_string());
    map.insert("a".to_string(), "3".to_string());
    assert_eq!(map.get("a"), Some(&"3".to_string()));
    assert_eq!(map.get("b"), Some(&"2".to_string()));
    assert_eq!(map.get("c"), None);
    map.clear();
    assert!(!map.contains_key("a"));
}

#[test]
fn joined_lines_are_read_back() {
    for parts in [vec!["a"], vec!["", "", "x"], vec!["one ", "", "two\r three"]] {
        let parts: Vec<String> = parts.iter().map(|p| p.to_string()).collect();
        assert_eq!(lines_of(&join_texts(&parts, "\n")), parts);
    }
}
