//! Text functions, held against those of the standard library.
use cargo_notch::order::{insert_in_order, Keyed};
use cargo_notch::package::Package;
use cargo_notch::release::UpdatedCrate;
use cargo_notch::text;
use cargo_notch::version::Version;

const TEXTS: [&str; 10] = [
    "",
    " ",
    "a",
    "  a b\t\n",
    "/a//b/",
    "a.b.c",
    "\u{a0}é\u{3000}",
    "aaa",
    "x.git.git",
    "+1,+2",
];

#[test]
fn trimming_agrees() {
    for s in TEXTS {
        assert_eq!(text::trim(s), s.trim());
        assert_eq!(text::trim_leading(s, '/'), s.trim_start_matches('/'));
        assert_eq!(text::trim_trailing(s, '/'), s.trim_end_matches('/'));
        assert_eq!(text::trim_suffixes(s, ".git"), s.trim_end_matches(".git"));
        assert_eq!(text::trim_suffixes(s, "a"), s.trim_end_matches("a"));
    }
}

#[test]
fn splitting_agrees() {
    for s in TEXTS {
        for c in ['a', '.', '/', ' ', ',', 'é'] {
            assert_eq!(text::split(s, c), s.split(c).collect::<Vec<_>>());
            assert_eq!(text::split_once(s, c), s.split_once(c));
            assert_eq!(text::find(s, c), s.chars().position(|d| d == c));
            assert_eq!(text::strip_last(s, c), s.strip_suffix(c));
        }
        for prefix in ["", "a", "  ", "/a", "aaaa"] {
            assert_eq!(text::starts_with(s, prefix), s.starts_with(prefix));
            assert_eq!(text::strip_prefix(s, prefix), s.strip_prefix(prefix));
        }
    }
}

#[test]
fn replacing_agrees() {
    for s in TEXTS {
        for from in ["a", "aa", "/", ".git", "é"] {
            for to in ["", "a", "--"] {
                assert_eq!(text::replace(s, from, to), s.replace(from, to));
                assert_eq!(text::replace_once(s, from, to), s.replacen(from, to, 1));
            }
        }
    }
}

#[test]
fn joining_is_undone_by_splitting() {
    let parts = vec!["a".to_string(), String::new(), "b".to_string()];
    assert_eq!(text::join(&parts, ","), "a,,b");
    assert_eq!(text::split("a,,b", ','), vec!["a", "", "b"]);
    assert_eq!(text::join(&Vec::new(), ","), "");
}

#[test]
fn numbers_and_characters_agree() {
    for n in [0, 7, 10, 99, 12_345, u64::MAX] {
        assert_eq!(text::decimal_of(n), n.to_string());
    }
    for c in ['a', 'Z', '0', '_', 'é', ' ', '\u{2003}', '\u{200b}', '\n'] {
        assert_eq!(text::whitespace(c), c.is_whitespace());
        assert_eq!(text::alphanumeric(c), c.is_ascii_alphanumeric());
    }
}

#[test]
fn the_order_of_texts_agrees() {
    for a in TEXTS {
        for b in TEXTS {
            assert_eq!(text::less(a, b), a < b, "{a:?} {b:?}");
            assert_eq!(text::same(a, b), a == b);
        }
    }
}

#[test]
fn characters_make_up_a_text() {
    let chars = text::chars_of("aéb");
    assert_eq!(chars, vec!['a', 'é', 'b']);
    assert_eq!(text::string_of(&chars, 1, 3), "éb");
}

#[test]
fn items_are_inserted_in_the_order_of_their_keys() {
    let update = |name: &str| UpdatedCrate {
        package: Package::new(
            name.to_string(),
            name.to_string(),
            Version::new(1, 0, 0),
            format!("{name}/Cargo.toml"),
        ),
        new_version: Version::new(1, 0, 1),
        commits: Vec::new(),
    };
    let mut items = Vec::new();
    for name in ["m", "z", "a", "m"] {
        insert_in_order(&mut items, update(name));
    }
    let names: Vec<&str> = items.iter().map(|i| i.key_text()).collect();
    assert_eq!(names, vec!["a", "m", "m", "z"]);
}
