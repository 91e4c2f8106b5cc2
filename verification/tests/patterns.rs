use package_usage::matcher::uses_package;
use regex::Regex;

fn patterns_for(name: &str) -> (Regex, Regex) {
    let escaped = regex::escape(name);
    let import = Regex::new(&format!("import .+ from (\"|'){}(\"|')", escaped)).unwrap();
    let require = Regex::new(&format!("require\\((\"|'){}(\"|')\\)", escaped)).unwrap();
    (import, require)
}

fn by_patterns(patterns: &(Regex, Regex), contents: &str) -> bool {
    patterns.0.is_match(contents) || patterns.1.is_match(contents)
}

fn next(seed: &mut u64) -> usize {
    *seed = seed
        .wrapping_mul(6364136223846793005)
        .wrapping_add(1442695040888963407);
    (*seed >> 33) as usize
}

const NAMES: [&str; 8] = ["a", "ab", "react", "a.b", "a+", "", "é", "x\"y"];

const PIECES: [&str; 28] = [
    "import ", " from ", "require(", ")", "\"", "'", "\n", " ", "a", "b", "ab", "react", "a.b",
    "axb", "a+", "aa", "é", "x\"y", "import", "from", "require", "(", "x", "\r", " from \"",
    "require('", "\")", "import x",
];

#[test]
fn scan_agrees_with_the_patterns_on_many_texts() {
    let mut seed: u64 = 2024;
    let mut used = 0;
    let mut unused = 0;
    for name in NAMES {
        let patterns = patterns_for(name);
        let quoted = [
            format!("\"{}\"", name),
            format!("'{}'", name),
            format!("\"{}", name),
            format!("{}'", name),
            format!("{}\")", name),
            format!("('{}", name),
            name.to_string(),
        ];
        for _ in 0..5000 {
            let length = next(&mut seed) % 10;
            let mut text = String::new();
            for _ in 0..length {
                let choice = next(&mut seed) % (PIECES.len() + 3 * quoted.len());
                if choice < PIECES.len() {
                    text.push_str(PIECES[choice]);
                } else {
                    text.push_str(&quoted[(choice - PIECES.len()) % quoted.len()]);
                }
            }
            let expected = by_patterns(&patterns, &text);
            assert_eq!(uses_package(&text, name), expected, "text {:?}, name {:?}", text, name);
            if expected {
                used += 1;
            } else {
                unused += 1;
            }
        }
    }
    assert!(used > 100, "{} texts with a use", used);
    assert!(unused > 100, "{} texts without a use", unused);
}

#[test]
fn scan_agrees_with_the_patterns_on_statements() {
    let mut seed: u64 = 7;
    let mut used = 0;
    let mut unused = 0;
    for name in NAMES {
        let patterns = patterns_for(name);
        for _ in 0..600 {
            let other = NAMES[next(&mut seed) % NAMES.len()];
            let open = if next(&mut seed) % 2 == 0 { "\"" } else { "'" };
            let close = if next(&mut seed) % 3 == 0 { "'" } else { "\"" };
            let binding = PIECES[next(&mut seed) % PIECES.len()];
            let before = PIECES[next(&mut seed) % PIECES.len()];
            let after = PIECES[next(&mut seed) % PIECES.len()];
            let import =
                format!("{}import {} from {}{}{}{}", before, binding, open, other, close, after);
            let require = format!("{}require({}{}{}){}", before, open, other, close, after);
            for text in [import, require] {
                let expected = by_patterns(&patterns, &text);
                assert_eq!(uses_package(&text, name), expected, "{:?} {:?}", text, name);
                if expected {
                    used += 1;
                } else {
                    unused += 1;
                }
            }
        }
    }
    assert!(used > 50, "{} texts with a use", used);
    assert!(unused > 50, "{} texts without a use", unused);
}

#[test]
fn scan_agrees_with_the_patterns_on_the_named_cases() {
    let cases = [
        ("import React from \"react\"", "react"),
        ("const x = require('react')", "react"),
        ("require(\"foo-bar\")", "foo"),
        ("import  from \"react\"", "react"),
        ("import x\n from \"react\"", "react"),
        ("import x\r from \"react\"", "react"),
        ("import x from \"react'", "react"),
        ("require( \"react\" )", "react"),
        ("require(\"axb\")", "a.b"),
        ("import \u{2028} from 'a'", "a"),
        ("import \u{85} from 'a'", "a"),
    ];
    for (text, name) in cases {
        let patterns = patterns_for(name);
        assert_eq!(uses_package(text, name), by_patterns(&patterns, text), "{:?} {:?}", text, name);
    }
}
