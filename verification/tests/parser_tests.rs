use downlint::parser::cst::CstElement;
use downlint::parser::scanner::scan_document;
use downlint::parser::symbols::{normalize_label, split_dest, Def, Ref, SymKind};
use downlint::parser::{parse_document, ParseOptions};

#[test]
fn parses_heading_and_reference_symbols() {
    let structure = parse_document("# Title\n[[doc]]\n[ref]: a.md", ParseOptions::default());
    assert_eq!(structure.index.headings.len(), 1);
    assert_eq!(structure.index.wiki_links.len(), 1);
    assert_eq!(structure.index.link_defs.len(), 1);
}

#[test]
fn scans_basic_wikilink_and_tag() {
    let mut next = 1;
    let output = scan_document("# Title\n[[doc#head|Name]] #rust", &mut next);
    assert!(output.elements.iter().any(|element| matches!(element, CstElement::WL(_))));
    assert!(output.elements.iter().any(|element| matches!(element, CstElement::T(_))));
}

#[test]
fn wikilink_parts_and_ranges() {
    let mut next = 7;
    let output = scan_document("x [[doc#head|Name]]", &mut next);
    assert_eq!(next, 8);
    match &output.elements[0] {
        CstElement::WL(node) => {
            assert_eq!(node.id, 7);
            assert_eq!(node.text, "[[doc#head|Name]]");
            assert_eq!(node.range.start, 2);
            assert_eq!(node.range.end, 19);
            assert_eq!(node.data.doc.as_ref().unwrap().raw, "doc");
            assert_eq!(node.data.heading.as_ref().unwrap().raw, "head");
            assert_eq!(node.data.title.as_ref().unwrap().raw, "Name");
            assert!(!node.data.is_embed);
        }
        _ => panic!("expected a wiki-link"),
    }
}

#[test]
fn links_in_fences_and_front_matter_are_masked() {
    let text = "---\ntitle: [[no]]\n---\n```\n[[no]] #no\n```\n[[yes]]";
    let mut next = 1;
    let output = scan_document(text, &mut next);
    assert_eq!(output.masks.len(), 2);
    assert!(output.frontmatter.is_some());
    assert_eq!(output.elements.len(), 1);
    match &output.elements[0] {
        CstElement::WL(node) => assert_eq!(node.text, "[[yes]]"),
        _ => panic!("expected the unmasked wiki-link"),
    }
}

#[test]
fn elements_are_ordered_by_start_with_ids_by_pass() {
    // The definition is numbered first, the link next, then the tag, whatever the order.
    let text = "#tag [x](y.md)\n[d]: u.md";
    let mut next = 1;
    let output = scan_document(text, &mut next);
    assert_eq!(output.elements.len(), 3);
    let ids: Vec<u32> = output
        .elements
        .iter()
        .map(|e| match e {
            CstElement::T(n) => n.id,
            CstElement::ML(n) => n.id,
            CstElement::MLD(n) => n.id,
            _ => 0,
        })
        .collect();
    assert_eq!(ids, vec![3, 2, 1]);
    assert_eq!(next, 4);
}

#[test]
fn inline_link_destination_and_anchor() {
    let structure = parse_document("[a](<b.md#c> \"t\")", ParseOptions::default());
    match &structure.symbols[1].kind {
        SymKind::Ref(Ref::Inline { target, anchor, is_image }) => {
            assert_eq!(target, "b.md");
            assert_eq!(anchor.as_deref(), Some("c"));
            assert!(!is_image);
        }
        other => panic!("unexpected symbol {other:?}"),
    }
}

#[test]
fn repeated_headings_get_suffixes() {
    let structure = parse_document("# A\n## A\n## A\n", ParseOptions::default());
    let slugs: Vec<String> = structure.index.headings.iter().map(|h| h.slug.as_str().to_string()).collect();
    assert_eq!(slugs, vec!["a".to_string(), "a-1".to_string(), "a-2".to_string()]);
    assert_eq!(structure.index.titles.len(), 1);
    assert_eq!(structure.index.headings_by_slug.len(), 3);
    match &structure.symbols[1].kind {
        SymKind::Def(Def::Title(t)) => assert_eq!(t, "A"),
        other => panic!("unexpected symbol {other:?}"),
    }
}

#[test]
fn headings_inside_fences_are_ignored() {
    let structure = parse_document("```\n# no\n```\n# yes\n", ParseOptions::default());
    assert_eq!(structure.index.headings.len(), 1);
    assert_eq!(structure.index.headings[0].title.text, "yes");
}

#[test]
fn decoding_of_components() {
    let mut next = 1;
    let output = scan_document("[[a%20b\\|c]]", &mut next);
    match &output.elements[0] {
        CstElement::WL(node) => {
            assert_eq!(node.data.doc.as_ref().unwrap().decoded, "a b|c");
            assert!(node.data.title.is_none());
        }
        _ => panic!("expected a wiki-link"),
    }
}

#[test]
fn label_normalisation() {
    assert_eq!(normalize_label("  Foo   BAR\tbaz "), "foo bar baz");
    assert_eq!(normalize_label("  Foo \t BAR\n baz "), "foo bar baz");
    assert_eq!(normalize_label("ÄB"), "äb");
    assert_eq!(normalize_label("Ｆｏｏ ﬁ"), "foo fi");
    assert_eq!(normalize_label(" \t "), "");
    assert_eq!(split_dest("a.md#b#c"), ("a.md".to_string(), Some("b#c".to_string())));
    assert_eq!(split_dest("a.md"), ("a.md".to_string(), None));
    assert_eq!(split_dest(r"a\#b#c"), (r"a\#b".to_string(), Some("c".to_string())));
    assert_eq!(split_dest(r"a\#b"), (r"a\#b".to_string(), None));
    assert_eq!(split_dest(r"a\\#b"), (r"a\\".to_string(), Some("b".to_string())));
}

#[test]
fn tags_need_a_tag_character_and_no_heading() {
    let structure = parse_document("# Heading\nfoo#bar #ok-1/x # not", ParseOptions::default());
    assert_eq!(structure.index.tags.len(), 1);
    assert_eq!(structure.index.tags[0].name.text, "#ok-1/x");
}

#[test]
fn link_definitions_in_code_or_front_matter_are_not_reported() {
    let text = "---\n[fm]: a.md\n---\n```\n[code]: b.md\n```\n[real]: c.md\n";
    let mut next = 1;
    let output = scan_document(text, &mut next);
    let defs: Vec<_> = output.elements.iter().filter(|e| matches!(e, CstElement::MLD(_))).collect();
    assert_eq!(defs.len(), 1);
    let structure = parse_document(text, ParseOptions::default());
    assert_eq!(structure.index.link_defs.len(), 1);
}
