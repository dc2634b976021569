use ttf_rasterizer::catalog::FontEntry;
use ttf_rasterizer::paths::{cache_file_path, cache_root, google_fonts_env_file_candidates};
use ttf_rasterizer::profile::RasterProfile;
use ttf_rasterizer::shell::{build_generate_command, osc52_sequence, shell_quote, slugify};

fn entry(family: &str, variant: &str) -> FontEntry {
    FontEntry {
        family: family.to_string(),
        variant: variant.to_string(),
        ttf_url: "u".to_string(),
        license: "OFL".to_string(),
    }
}

#[test]
fn slugify_makes_safe_names() {
    assert_eq!(slugify("JetBrains Mono"), "jetbrains-mono");
    assert_eq!(slugify("Noto+Sans"), "noto-sans");
}

#[test]
fn slugify_joins_runs_and_cuts_ends() {
    assert_eq!(slugify("  --A  b__C--  "), "a-b-c");
    assert_eq!(slugify("///"), "");
    assert_eq!(slugify(""), "");
    assert_eq!(slugify("Łódź 7"), "d-7");
}

#[test]
fn slug_of_a_slug_is_the_slug() {
    for text in ["JetBrains Mono", "  x  ", "A--B", "Übung", ""] {
        let once = slugify(text);
        assert_eq!(slugify(&once), once);
        assert_eq!(slugify(&text.to_ascii_lowercase()), once);
        assert!(once.chars().all(|c| c.is_ascii_lowercase() || c.is_ascii_digit() || c == '-'));
        assert!(!once.starts_with('-') && !once.ends_with('-') && !once.contains("--"));
    }
}

#[test]
fn slugs_are_runs_with_dashes() {
    for text in ["JetBrains Mono", "  --A  b__C--  ", "Łódź 7", "x", "..", ""] {
        let runs: Vec<String> = text
            .split(|c: char| !c.is_ascii_alphanumeric())
            .filter(|run| !run.is_empty())
            .map(|run| run.to_ascii_lowercase())
            .collect();
        assert_eq!(slugify(text), runs.join("-"));
    }
}

#[test]
fn shell_quote_escapes_single_quotes() {
    assert_eq!(shell_quote("a'b"), "'a'\"'\"'b'");
}

#[test]
fn shell_quote_of_plain_and_empty_texts() {
    assert_eq!(shell_quote(""), "''");
    assert_eq!(shell_quote("SHELL QUEST"), "'SHELL QUEST'");
    assert_eq!(shell_quote("$HOME `x` \\"), "'$HOME `x` \\'");
    assert_eq!(shell_quote("'"), "''\"'\"''");
}

#[test]
fn builds_generate_command_with_quoted_fields() {
    let entry = FontEntry {
        family: "JetBrains Mono".to_string(),
        variant: "regular".to_string(),
        ttf_url: "u".to_string(),
        license: "OFL".to_string(),
    };
    let command = build_generate_command(&entry, "SHELL QUEST", 24, RasterProfile::Dense);
    assert!(command.contains("--font 'JetBrains Mono'"));
    assert!(command.contains("--text 'SHELL QUEST'"));
    assert!(command.contains("--profile dense"));
}

#[test]
fn generate_command_in_full() {
    assert_eq!(
        build_generate_command(&entry("O'Font", "700 Italic"), "it's\nme", 8, RasterProfile::Binary),
        "cargo run -p ttf-rasterizer -- generate --font 'O'\"'\"'Font' --text 'it'\"'\"'s\nme' \
         --profile binary --size 8 --output 'mods/base/assets/fonts/o-font-700-italic-binary.txt'"
    );
}

#[test]
fn clipboard_sequence_holds_base64() {
    assert_eq!(osc52_sequence("hello"), "\x1b]52;c;aGVsbG8=\x07");
    assert_eq!(osc52_sequence("hell"), "\x1b]52;c;aGVsbA==\x07");
    assert_eq!(osc52_sequence("hel"), "\x1b]52;c;aGVs\x07");
    assert_eq!(osc52_sequence(""), "\x1b]52;c;\x07");
    assert_eq!(osc52_sequence("ÿ?~"), "\x1b]52;c;w78/fg==\x07");
}

#[test]
fn clipboard_sequence_ends_once() {
    let sequence = osc52_sequence("one\x07two\x1b");
    assert_eq!(sequence.matches('\x07').count(), 1);
    assert!(sequence.ends_with('\x07'));
    assert_eq!(sequence.matches('\x1b').count(), 1);
}

#[test]
fn clipboard_tells_texts_apart() {
    let texts = ["", "a", "ab", "abc", "abd", "ab\0", "é", "e\u{301}"];
    for a in texts {
        for b in texts {
            assert_eq!(osc52_sequence(a) == osc52_sequence(b), a == b);
        }
    }
}

#[test]
fn cache_root_follows_the_environment() {
    let some = |s: &str| Some(s.to_string());
    assert_eq!(cache_root(some("/c"), some("/x"), some("/h")), vec!["/c"]);
    assert_eq!(cache_root(None, some("/x"), some("/h")), vec!["/x", "shell-quest", "ttf-rasterizer"]);
    assert_eq!(
        cache_root(None, None, some("/h")),
        vec!["/h", ".cache", "shell-quest", "ttf-rasterizer"]
    );
    assert_eq!(cache_root(None, None, None), vec![".cache", "shell-quest", "ttf-rasterizer"]);
}

#[test]
fn cache_file_lies_below_the_root() {
    let root = vec!["/c".to_string()];
    assert_eq!(
        cache_file_path(&entry("../JetBrains Mono", "Regular"), root.clone()),
        vec!["/c", "fonts", "jetbrains-mono-regular.ttf"]
    );
    assert_eq!(
        cache_file_path(&entry("SPACE MONO", "BOLD"), root.clone()),
        cache_file_path(&entry("Space Mono", "bold"), root)
    );
}

#[test]
fn key_files_in_order() {
    assert_eq!(
        google_fonts_env_file_candidates(Some("/x".to_string()), Some("/h".to_string())),
        vec![
            vec!["/x".to_string(), "shell-quest".to_string(), "env.sh".to_string()],
            vec![
                "/h".to_string(),
                ".config".to_string(),
                "shell-quest".to_string(),
                "env.sh".to_string()
            ],
        ]
    );
    assert!(google_fonts_env_file_candidates(None, None).is_empty());
    assert_eq!(google_fonts_env_file_candidates(None, Some("/h".to_string())).len(), 1);
}
