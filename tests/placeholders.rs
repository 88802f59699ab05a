use std::collections::VecDeque;

use template_fill::extract::{extract_contents, find_placeholders, remove_duplicates};
use template_fill::replacements::Replacements;
use template_fill::substitute::replace_parts;

fn strings(items: &[&str]) -> Vec<String> {
    items.iter().map(|s| s.to_string()).collect()
}

fn map_of(pairs: &[(&str, &str)]) -> Replacements {
    let mut m = Replacements::new();
    for (k, v) in pairs {
        m.insert(k, v.to_string());
    }
    m
}

#[test]
fn test_find_masked_inputs() {
    assert_eq!(
        find_placeholders("Hello {{world}}, {{world}}"),
        ["world".to_string()]
    );
    assert_eq!(
        find_placeholders("{{a}} b {{a}} c {{b}}"),
        ["a".to_string(), "b".to_string()]
    );
    assert_eq!(find_placeholders(""), Vec::<String>::new());
}

#[test]
fn extract_of_empty_text_is_empty() {
    assert!(find_placeholders("").is_empty());
    assert!(extract_contents("").is_empty());
}

#[test]
fn extract_keeps_first_occurrence_order_without_duplicates() {
    let r = find_placeholders("{{b}} {{a}} {{b}} {{c}} {{a}}");
    assert_eq!(r, strings(&["b", "a", "c"]));
    for i in 0..r.len() {
        for j in (i + 1)..r.len() {
            assert_ne!(r[i], r[j]);
        }
    }
}

#[test]
fn extract_trims_enclosing_spaces() {
    assert_eq!(find_placeholders("{{  name  }}"), strings(&["name"]));
    assert_eq!(find_placeholders("{{ a b }} {{a b}}"), strings(&["a b"]));
}

#[test]
fn extract_whitespace_only_marker_gives_empty_name() {
    assert_eq!(find_placeholders("{{ }}"), strings(&[""]));
}

#[test]
fn extract_ignores_empty_and_unmatched_markers() {
    assert!(find_placeholders("{{}}").is_empty());
    assert!(find_placeholders("{{a").is_empty());
    assert!(find_placeholders("{{a}").is_empty());
    assert!(find_placeholders("{a}} {{ {x}}").is_empty());
    assert_eq!(find_placeholders("{{a {{b}}"), strings(&["b"]));
    assert_eq!(find_placeholders("{{{x}}}"), strings(&["x"]));
}

#[test]
fn extract_contents_keeps_repetitions() {
    let c = extract_contents("{{a}} b {{a}} c {{ b }}");
    assert_eq!(Vec::from(c), strings(&["a", "a", "b"]));
}

#[test]
fn remove_duplicates_keeps_first_occurrences() {
    let input: VecDeque<String> = strings(&["x", "y", "x", "z", "y"]).into_iter().collect();
    assert_eq!(remove_duplicates(input), strings(&["x", "y", "z"]));
    assert!(remove_duplicates(VecDeque::new()).is_empty());
}

#[test]
fn substitution_is_marker_exact() {
    let m = map_of(&[("x", "1"), ("xx", "2")]);
    assert_eq!(replace_parts("{{x}} {{xx}}", &m), "1 2");
}

#[test]
fn substitution_does_not_rescan_values() {
    let first = replace_parts("{{x}}", &map_of(&[("x", "{{y}}")]));
    assert_eq!(first, "{{y}}");
    let chained = replace_parts("{{x}}", &map_of(&[("x", "{{y}}"), ("y", "2")]));
    assert_eq!(chained, "{{y}}");
    let second = replace_parts(&first, &map_of(&[("y", "2")]));
    assert_eq!(second, "2");
}

#[test]
fn substitution_replaces_every_occurrence() {
    let m = map_of(&[("world", "Earth")]);
    assert_eq!(replace_parts("Hello {{world}}, {{world}}!", &m), "Hello Earth, Earth!");
}

#[test]
fn substitution_leaves_unknown_and_padded_markers() {
    let m = map_of(&[("a", "1")]);
    assert_eq!(replace_parts("{{a}} {{b}} {{ a }}", &m), "1 {{b}} {{ a }}");
}

#[test]
fn substitution_of_text_without_markers_is_identity() {
    let m = map_of(&[("a", "1")]);
    assert_eq!(replace_parts("", &m), "");
    assert_eq!(replace_parts("plain {text} here }}", &m), "plain {text} here }}");
}

#[test]
fn substitution_handles_adjacent_braces_and_empty_names() {
    let m = map_of(&[("a", "1"), ("", "E")]);
    assert_eq!(replace_parts("{{{a}}}", &m), "{1}");
    assert_eq!(replace_parts("{{}}x{{a}}", &m), "Ex1");
}

#[test]
fn substitution_handles_multibyte_text() {
    let m = map_of(&[("ñame", "wört")]);
    assert_eq!(replace_parts("é {{ñame}} ü", &m), "é wört ü");
}

#[test]
fn substituted_text_has_no_known_placeholders_left() {
    let text = "Dear {{name}}, your order {{id}} ships to {{name}}.";
    let names = find_placeholders(text);
    let m = map_of(&[("name", "Ann"), ("id", "42")]);
    let out = replace_parts(text, &m);
    assert_eq!(out, "Dear Ann, your order 42 ships to Ann.");
    let after = find_placeholders(&out);
    for n in &names {
        assert!(!after.contains(n));
        assert!(!out.contains(&format!("{{{{{}}}}}", n)));
    }
}

#[test]
fn replacements_later_insert_overrides() {
    let mut m = Replacements::new();
    assert!(m.get("a").is_none());
    m.insert("a", "1".to_string());
    m.insert("b", "2".to_string());
    m.insert("a", "3".to_string());
    assert_eq!(m.get("a").map(|s| s.as_str()), Some("3"));
    assert_eq!(m.get("b").map(|s| s.as_str()), Some("2"));
    assert!(m.get("c").is_none());
    assert_eq!(replace_parts("{{a}}{{b}}", &m), "32");
}

#[test]
fn stray_braces_do_not_hold_back_resolution() {
    let text = "{x} {{a}} }} {b}";
    let m = map_of(&[("a", "1")]);
    let out = replace_parts(text, &m);
    assert_eq!(out, "{x} 1 }} {b}");
    assert!(find_placeholders(&out).is_empty());
    assert!(!out.contains("{{a}}"));
}
