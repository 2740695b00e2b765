use downlint::parser::ast::decode_node;
use downlint::parser::cst::EncodedNode;
use downlint::resolution::path::{has_scheme, path_without_extension, resolve_explicit_path, split_anchor};
use downlint::resolution::Slug;
use downlint::utils::text::{ByteRange, LineMap};

#[test]
fn schemes_need_a_name_and_a_rest() {
    assert!(has_scheme("https://example.com"));
    assert!(has_scheme("mailto:a@b.c"));
    assert!(has_scheme("a:b"));
    assert!(!has_scheme("c:"));
    assert!(!has_scheme(":x"));
    assert!(!has_scheme("no scheme: here"));
    assert!(!has_scheme("abc"));
}

#[test]
fn anchors_split_at_the_first_hash() {
    assert_eq!(split_anchor("doc#sec#x"), ("doc".to_string(), Some("sec#x".to_string())));
    assert_eq!(split_anchor("#top"), ("".to_string(), Some("top".to_string())));
    assert_eq!(split_anchor("doc"), ("doc".to_string(), None));
}

#[test]
fn extensions_are_dropped() {
    assert_eq!(path_without_extension("notes/a.md"), "notes/a");
    assert_eq!(path_without_extension("a.b.md"), "a.b");
    assert_eq!(path_without_extension("dir\\x.md"), "dir/x");
    assert_eq!(path_without_extension("README"), "README");
    assert_eq!(path_without_extension(".hidden"), ".hidden");
}

#[test]
fn explicit_paths_are_rooted_or_relative() {
    assert_eq!(resolve_explicit_path("/root", "/root/notes", "/a/b.md"), "/root/a/b.md");
    assert_eq!(resolve_explicit_path("/root", "/root/notes", "//x"), "/root/x");
    assert_eq!(resolve_explicit_path("/root", "/root/notes", "../c.md"), "/root/notes/../c.md");
}

#[test]
fn slug_helpers() {
    assert!(Slug::is_substring("Markdown", "DOWN"));
    assert!(Slug::is_substring("abc", ""));
    assert!(!Slug::is_substring("abc", "abd"));
    assert!(Slug::is_subsequence("markdown", "mn"));
    assert!(!Slug::is_subsequence("md", "mn"));
    assert!(Slug::is_subsequence("markdown", "mar"));
    assert!(Slug::is_subsequence("x", ""));
    let base = Slug::from_heading_text("Intro");
    assert_eq!(Slug::with_suffix(&base, 2).as_str(), "intro-2");
}

#[test]
fn line_maps_record_starts_and_ends() {
    let map = LineMap::new("a\r\nb\nc");
    assert_eq!(map.line_count(), 3);
    assert_eq!(map.line_start(1), Some(3));
    assert_eq!(map.line_end(1), Some(4));
    assert_eq!(map.line_start(3), None);
    assert_eq!(map.line_range(2), Some(ByteRange { start: 5, end: 6 }));
    assert_eq!(map.line_for_offset(2), 0);
    assert_eq!(map.line_for_offset(3), 1);
    assert_eq!(map.line_for_offset(6), 2);
    let trailing = LineMap::new("a\n");
    assert_eq!(trailing.line_count(), 2);
    assert_eq!(trailing.line_range(1), Some(ByteRange { start: 2, end: 2 }));
}

#[test]
fn decoded_node_text() {
    let node = EncodedNode { raw: "a%20b".to_string(), decoded: "a b".to_string(), range: ByteRange { start: 0, end: 5 } };
    assert_eq!(decode_node(&node), "a b");
}

#[test]
fn line_map_has_one_line_more_than_breaks() {
    let text = "a\r\nb\rc\n\nd";
    let map = LineMap::new(text);
    assert_eq!(map.line_count(), 5);
    assert_eq!(map.line_start(0), Some(0));
    assert_eq!(map.line_end(0), Some(1));
    assert_eq!(map.line_start(1), Some(3));
    assert_eq!(map.line_end(1), Some(4));
    assert_eq!(map.line_start(2), Some(5));
    assert_eq!(map.line_end(2), Some(6));
    assert_eq!(map.line_start(3), Some(7));
    assert_eq!(map.line_end(3), Some(7));
    assert_eq!(map.line_start(4), Some(8));
    assert_eq!(map.line_end(4), Some(text.len()));
    assert_eq!(map.line_start(5), None);
    assert_eq!(map.line_end(5), None);
}
