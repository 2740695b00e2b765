use downlint::config::Config;
use downlint::diagnostics::{check_diagnostics, DiagnosticCode, DiagnosticConfig};
use downlint::parser::symbols::Ref;
use downlint::parser::{parse_document, ParseOptions};
use downlint::resolution::matching::{is_attachment_candidate_path, is_explicit_path};
use downlint::resolution::prefix::PrefixIndex;
use downlint::resolution::{resolve_links, ConnectionGraph, ResolveDestinationKind, ResolveDocument, ResolveInput, Slug};
use std::path::PathBuf;
use tempfile::TempDir;

fn document(root: &str, rel: &str, content: &str) -> ResolveDocument {
    let path = format!("{root}/{rel}");
    ResolveDocument { path, rel_path: rel.to_string(), structure: parse_document(content, ParseOptions::default()) }
}

fn prefix_index_for(docs: &[ResolveDocument]) -> PrefixIndex {
    PrefixIndex::from_entries(docs.iter().map(|d| (d.stem(), d.path.clone())).collect())
}

fn resolve_graph_with_config(root: &str, docs: Vec<ResolveDocument>, config: Config) -> ConnectionGraph {
    let prefix_index = prefix_index_for(&docs);
    resolve_links(ResolveInput {
        root: root.to_string(),
        documents: docs,
        extra_documents: vec![],
        extra_folder_roots: vec![],
        config,
        single_file: false,
        prefix_index,
    })
}

fn resolve_graph(root: &str, docs: Vec<ResolveDocument>) -> ConnectionGraph {
    resolve_graph_with_config(root, docs, Config::default())
}

fn config_with_obsidian_prefix(enabled: bool) -> Config {
    let mut cfg = Config::default();
    cfg.wiki.obsidian_prefix = enabled;
    cfg
}

fn temp_root() -> (TempDir, String) {
    let temp = TempDir::new().unwrap();
    let root = temp.path().to_string_lossy().into_owned();
    (temp, root)
}

#[test]
fn explicit_path_md_extension() {
    assert!(is_explicit_path("file.md"));
    assert!(is_explicit_path("./file.md"));
    assert!(is_explicit_path("../sibling/file.md"));
}

#[test]
fn explicit_path_no_dot_is_not_explicit() {
    assert!(!is_explicit_path("guide"));
    assert!(!is_explicit_path("20260723-v2-neb-step1-result"));
}

#[test]
fn explicit_path_internal_dot_is_not_explicit() {
    assert!(!is_explicit_path("20260723-v2.5b-trust-region"));
    assert!(!is_explicit_path("note.v2.5b-draft"));
    assert!(!is_explicit_path("foo.bar-baz"));
    assert!(!is_explicit_path("foo.bar_baz"));
}

#[test]
fn explicit_path_separators_are_explicit() {
    assert!(is_explicit_path("sub/file"));
    assert!(is_explicit_path("sub/file.md"));
    assert!(is_explicit_path("a\\b"));
    assert!(is_explicit_path("/abs/path"));
}

#[test]
fn explicit_path_edge_cases() {
    assert!(!is_explicit_path("foo."));
    assert!(!is_explicit_path(".gitignore"));
    assert!(!is_explicit_path("."));
}

#[test]
fn attachment_candidates() {
    assert!(is_attachment_candidate_path("data.xlsx"));
    assert!(is_attachment_candidate_path("v2.5b-x"));
    assert!(!is_attachment_candidate_path("guide"));
    assert!(!is_attachment_candidate_path(".hidden"));
}

#[test]
fn empty_index_returns_empty() {
    let idx = PrefixIndex::default();
    assert!(idx.matches("anything").is_empty());
    assert_eq!(idx.len(), 0);
}

#[test]
fn index_counts_each_prefix_key_once() {
    let idx = PrefixIndex::from_entries(vec![("abc".to_string(), "a.md".to_string())]);
    assert_eq!(idx.len(), 3);
    let idx = PrefixIndex::from_entries(vec![
        ("abc".to_string(), "a.md".to_string()),
        ("abd".to_string(), "b.md".to_string()),
    ]);
    assert_eq!(idx.len(), 4);
}

#[test]
fn unique_prefix_resolves() {
    let idx = PrefixIndex::from_entries(vec![(
        "20260801-topic-a-sub-x".to_string(),
        "a/20260801-topic-a-sub-x.md".to_string(),
    )]);
    assert_eq!(idx.matches("20260801-topic-a").len(), 1);
    assert_eq!(idx.matches("20260801").len(), 1);
    assert_eq!(idx.matches("20260801-topic-a-sub-x").len(), 1);
}

#[test]
fn ambiguous_prefix_resolves_to_multiple() {
    let idx = PrefixIndex::from_entries(vec![
        ("20260801-topic-a-sub-x".to_string(), "sub-x.md".to_string()),
        ("20260801-topic-a-sub-y".to_string(), "sub-y.md".to_string()),
    ]);
    assert_eq!(idx.matches("20260801-topic-a").len(), 2);
}

#[test]
fn no_partial_match_returns_empty() {
    let idx = PrefixIndex::from_entries(vec![("20260801-topic-a-sub-x".to_string(), "a.md".to_string())]);
    assert!(idx.matches("zzz").is_empty());
}

#[test]
fn empty_target_does_not_match_anything() {
    let idx = PrefixIndex::from_entries(vec![("abc".to_string(), "a.md".to_string())]);
    assert!(idx.matches("").is_empty());
}

#[test]
fn matching_is_case_insensitive() {
    let idx = PrefixIndex::from_entries(vec![("20260801-TOPIC-A".to_string(), "a.md".to_string())]);
    assert_eq!(idx.matches("20260801-topic-a").len(), 1);
    assert_eq!(idx.matches("20260801-TOPIC-A").len(), 1);
    assert_eq!(idx.matches("20260801-TOPIC").len(), 1);
}

#[test]
fn leading_prefix_only_does_not_match_suffix() {
    let idx = PrefixIndex::from_entries(vec![("xyz-topic".to_string(), "a.md".to_string())]);
    assert!(idx.matches("topic").is_empty());
    assert_eq!(idx.matches("xyz").len(), 1);
}

#[test]
fn cap_does_not_apply_to_index_itself() {
    let entries: Vec<(String, String)> = (0..10).map(|i| (format!("prefix-{i}"), format!("p/{i}.md"))).collect();
    let idx = PrefixIndex::from_entries(entries);
    assert_eq!(idx.matches("prefix").len(), 10);
}

#[test]
fn slug_preserves_cjk_and_strips_punctuation() {
    assert_eq!(Slug::from_heading_text("What's Up?").as_str(), "whats-up");
    assert_eq!(Slug::from_heading_text("中文 标题").as_str(), "中文-标题");
}

#[test]
fn slug_generation_with_swedish_chars() {
    assert_eq!(Slug::from_heading_text("Jon Sjöstrand").as_str(), "jon-sjöstrand");
    assert_eq!(Slug::from_heading_text("Jon Männik").as_str(), "jon-männik");
    assert_eq!(Slug::from_heading_text("Kontaktinformation").as_str(), "kontaktinformation");
    assert_eq!(Slug::from_heading_text("Åke Åkerlund").as_str(), "åke-åkerlund");
}

#[test]
fn missing_explicit_file_like_targets_emit_broken_link_diagnostics() {
    let (_temp, root) = temp_root();
    let doc = document(&root, "notes/test.md", "[relative](./missing.docx)\n[basename](missing.csv)\n");
    let graph = resolve_graph(&root, vec![doc]);
    let diagnostics = check_diagnostics(&graph, &DiagnosticConfig::default());
    let broken = diagnostics.iter().filter(|d| d.code == DiagnosticCode::DNL002).collect::<Vec<_>>();
    assert_eq!(broken.len(), 2, "expected broken-link diagnostics for missing attachment paths");
    let messages = broken.iter().map(|d| d.message.as_str()).collect::<Vec<_>>();
    assert!(messages.iter().any(|m| m.contains("./missing.docx")));
    assert!(messages.iter().any(|m| m.contains("missing.csv")));
}

#[test]
fn explicit_markdown_document_paths_resolve_as_documents_and_headings() {
    let (_temp, root) = temp_root();
    let test_doc = document(&root, "notes/test.md", "[doc](./guide.md)\n[section](./guide.md#overview)\n");
    let guide_doc = document(&root, "notes/guide.md", "# Guide\n\n## Overview\n");
    let guide_path = guide_doc.path.clone();
    let graph = resolve_graph(&root, vec![test_doc, guide_doc]);
    let diagnostics = check_diagnostics(&graph, &DiagnosticConfig::default());
    assert!(
        diagnostics.iter().all(|d| d.code != DiagnosticCode::DNL002),
        "expected explicit markdown paths to resolve cleanly, got: {diagnostics:?}"
    );
    let doc_ref = graph
        .resolved_references
        .iter()
        .find(|r| matches!(&r.reference, Ref::Inline { target, anchor: None, .. } if target == "./guide.md"))
        .expect("expected resolved document reference");
    assert_eq!(doc_ref.destinations.len(), 1);
    assert!(matches!(doc_ref.destinations[0].kind, ResolveDestinationKind::Document));
    assert_eq!(PathBuf::from(&doc_ref.destinations[0].path), PathBuf::from(&guide_path));
    let section_ref = graph
        .resolved_references
        .iter()
        .find(|r| {
            matches!(&r.reference, Ref::Inline { target, anchor: Some(anchor), .. } if target == "./guide.md" && anchor == "overview")
        })
        .expect("expected resolved heading reference");
    assert_eq!(section_ref.destinations.len(), 1);
    assert!(matches!(section_ref.destinations[0].kind, ResolveDestinationKind::Heading));
    assert_eq!(PathBuf::from(&section_ref.destinations[0].path), PathBuf::from(&guide_path));
}

#[test]
fn folder_link_to_missing_directory_is_broken() {
    let (_temp, root) = temp_root();
    let doc = document(&root, "docs/index.md", "[Missing Case](../cases/20250999-missing/)");
    let graph = resolve_graph(&root, vec![doc]);
    let diagnostics = check_diagnostics(&graph, &DiagnosticConfig::default());
    let broken: Vec<_> = diagnostics.iter().filter(|d| d.code == DiagnosticCode::DNL002).collect();
    assert_eq!(broken.len(), 1, "folder link to missing directory should be broken");
}

#[test]
fn obsidian_prefix_unique_resolves() {
    let (_temp, root) = temp_root();
    let target = document(&root, "notes/20260801-topic-a-sub-x.md", "# 20260801 topic a sub x\n");
    let index = document(&root, "notes/index.md", "[[20260801-topic-a]]\n");
    let graph = resolve_graph_with_config(&root, vec![target, index], config_with_obsidian_prefix(true));
    assert_eq!(graph.resolved_references.len(), 1);
    assert!(
        graph.resolved_references[0].destinations.iter().any(|d| d.path.ends_with("20260801-topic-a-sub-x.md")),
        "expected resolution to the prefix-matched file"
    );
    assert!(graph.ambiguous_references.is_empty());
}

#[test]
fn obsidian_prefix_ambiguous_dnl001() {
    let (_temp, root) = temp_root();
    let target_x = document(&root, "notes/20260801-topic-a-sub-x.md", "# x\n");
    let target_y = document(&root, "notes/20260801-topic-a-sub-y.md", "# y\n");
    let index = document(&root, "notes/index.md", "[[20260801-topic-a]]\n");
    let graph = resolve_graph_with_config(&root, vec![target_x, target_y, index], config_with_obsidian_prefix(true));
    assert_eq!(graph.ambiguous_references.len(), 1);
    assert_eq!(graph.ambiguous_references[0].target, "20260801-topic-a");
    assert!(graph.resolved_references.is_empty());
}

#[test]
fn obsidian_prefix_off_no_hint_no_match() {
    let (_temp, root) = temp_root();
    let other = document(&root, "notes/abc.md", "# abc\n");
    let index = document(&root, "notes/index.md", "[[xyz]]\n");
    let graph = resolve_graph_with_config(&root, vec![other, index], config_with_obsidian_prefix(false));
    assert_eq!(graph.unresolved_references.len(), 1);
    let payload = graph.unresolved_references[0].hint_payload.as_ref();
    assert!(payload.is_none() || payload.unwrap().is_empty(), "no partial matches → no hint payload");
}

#[test]
fn obsidian_prefix_off_with_hint() {
    let (_temp, root) = temp_root();
    let target = document(&root, "notes/20260801-topic-a-sub-x.md", "# x\n");
    let index = document(&root, "notes/index.md", "[[20260801-topic-a]]\n");
    let graph = resolve_graph_with_config(&root, vec![target, index], config_with_obsidian_prefix(false));
    assert_eq!(graph.unresolved_references.len(), 1);
    let payload = graph.unresolved_references[0].hint_payload.as_ref().expect("hint payload expected");
    assert_eq!(payload.len(), 1);
    let diagnostics = check_diagnostics(&graph, &DiagnosticConfig::default());
    let dnl002: Vec<_> = diagnostics.iter().filter(|d| d.code == DiagnosticCode::DNL002).collect();
    assert_eq!(dnl002.len(), 1);
    assert!(
        dnl002[0].message.contains("Hint: enable 'wiki.obsidian_prefix'"),
        "expected hint in DNL002 message, got: {}",
        dnl002[0].message
    );
    assert!(
        dnl002[0].message.contains("20260801-topic-a-sub-x.md"),
        "expected candidate filename in hint, got: {}",
        dnl002[0].message
    );
}

#[test]
fn obsidian_prefix_hint_caps_at_five() {
    let (_temp, root) = temp_root();
    let mut docs: Vec<ResolveDocument> = Vec::new();
    for i in 0..6 {
        docs.push(document(&root, &format!("notes/20260801-topic-{i:02}.md"), "# file\n"));
    }
    docs.push(document(&root, "notes/index.md", "[[20260801-topic]]\n"));
    let graph = resolve_graph_with_config(&root, docs, config_with_obsidian_prefix(false));
    let payload = graph.unresolved_references[0].hint_payload.as_ref().expect("hint payload");
    assert_eq!(payload.len(), 6);
    let diagnostics = check_diagnostics(&graph, &DiagnosticConfig::default());
    let dnl002 = diagnostics.iter().find(|d| d.code == DiagnosticCode::DNL002).unwrap();
    assert!(dnl002.message.contains("(+1 more)"));
}

#[test]
fn obsidian_prefix_target_with_internal_dot_resolves() {
    let (_temp, root) = temp_root();
    let target = document(&root, "notes/20260723-v2.5b-trust-region.md", "# 20260723 v2.5b trust region\n");
    let index = document(
        &root,
        "notes/INDEX.md",
        "| 20260723 | result | trust region restart | [[20260723-v2.5b-trust-region]] |\n",
    );
    let graph = resolve_graph_with_config(&root, vec![target, index], config_with_obsidian_prefix(true));
    assert_eq!(
        graph.resolved_references.len(),
        1,
        "expected exactly one resolved reference, got unresolved={}, ambiguous={}",
        graph.unresolved_references.len(),
        graph.ambiguous_references.len(),
    );
    assert!(
        graph.resolved_references[0].destinations.iter().any(|d| d.path.ends_with("20260723-v2.5b-trust-region.md")),
        "expected the resolved destination to be 20260723-v2.5b-trust-region.md, got: {:?}",
        graph.resolved_references[0].destinations
    );
    assert!(graph.unresolved_references.is_empty(), "expected no unresolved references, got: {:?}", graph.unresolved_references);
    assert!(graph.ambiguous_references.is_empty());
}

#[test]
fn obsidian_prefix_target_with_internal_dot_prefix_resolves() {
    let (_temp, root) = temp_root();
    let target = document(&root, "notes/20260723-v2.5b-trust-region.md", "# x\n");
    let index = document(&root, "notes/INDEX.md", "[[20260723-v2.5b-]]\n");
    let graph = resolve_graph_with_config(&root, vec![target, index], config_with_obsidian_prefix(true));
    assert_eq!(graph.resolved_references.len(), 1);
    assert!(
        graph.resolved_references[0].destinations.iter().any(|d| d.path.ends_with("20260723-v2.5b-trust-region.md")),
        "expected the resolved destination to be 20260723-v2.5b-trust-region.md, got: {:?}",
        graph.resolved_references[0].destinations
    );
    assert!(graph.unresolved_references.is_empty());
    assert!(graph.ambiguous_references.is_empty());
}

#[test]
fn explicit_md_target_still_treated_as_explicit() {
    let (_temp, root) = temp_root();
    let target = document(&root, "notes/20260801-topic-a.md", "# a\n");
    let index = document(&root, "notes/INDEX.md", "[[20260801-topic-a.md]]\n");
    let graph = resolve_graph_with_config(&root, vec![target, index], config_with_obsidian_prefix(true));
    assert_eq!(graph.resolved_references.len(), 1, "expected the explicit .md target to resolve via the path matcher");
    assert!(graph.unresolved_references.is_empty());
    assert!(graph.ambiguous_references.is_empty());
}

#[test]
fn obsidian_prefix_alias_form_resolves() {
    let (_temp, root) = temp_root();
    let target = document(&root, "notes/20260801-topic-a-sub-x.md", "# x\n");
    let index = document(&root, "notes/index.md", "[[20260801-topic-a|Title]]\n");
    let graph = resolve_graph_with_config(&root, vec![target, index], config_with_obsidian_prefix(true));
    assert_eq!(graph.resolved_references.len(), 1);
}

#[test]
fn obsidian_prefix_embed_form_resolves() {
    let (_temp, root) = temp_root();
    let target = document(&root, "notes/20260801-topic-a-sub-x.md", "# x\n");
    let index = document(&root, "notes/index.md", "![[20260801-topic-a]]\n");
    let graph = resolve_graph_with_config(&root, vec![target, index], config_with_obsidian_prefix(true));
    assert_eq!(graph.resolved_references.len(), 1);
    match &graph.resolved_references[0].reference {
        Ref::Wiki { is_embed, .. } => assert!(*is_embed, "embed form must preserve is_embed"),
        other => panic!("expected Ref::Wiki, got {:?}", other),
    }
}

#[test]
fn obsidian_prefix_heading_anchor() {
    let (_temp, root) = temp_root();
    let target = document(&root, "notes/20260801-topic-a-sub-x.md", "## Section\nbody\n");
    let index = document(&root, "notes/index.md", "[[20260801-topic-a#Section]]\n");
    let graph = resolve_graph_with_config(&root, vec![target, index], config_with_obsidian_prefix(true));
    assert_eq!(graph.resolved_references.len(), 1);
    assert!(
        matches!(graph.resolved_references[0].destinations[0].kind, ResolveDestinationKind::Heading),
        "expected heading destination"
    );
}

#[test]
fn obsidian_prefix_explicit_path_wins() {
    let (_temp, root) = temp_root();
    let target = document(&root, "notes/20260801-topic-a-sub-x.md", "# x\n");
    let index = document(&root, "notes/index.md", "[[notes/20260801]]\n");
    let graph = resolve_graph_with_config(&root, vec![target, index], config_with_obsidian_prefix(true));
    assert_eq!(graph.unresolved_references.len(), 1);
}

#[test]
fn obsidian_prefix_case_insensitive() {
    let (_temp, root) = temp_root();
    let target = document(&root, "notes/20260801-TOPIC-A-sub-x.md", "# x\n");
    let index = document(&root, "notes/index.md", "[[20260801-topic-a]]\n");
    let graph = resolve_graph_with_config(&root, vec![target, index], config_with_obsidian_prefix(true));
    assert_eq!(graph.resolved_references.len(), 1);
}

#[test]
fn obsidian_prefix_does_not_match_suffix_only() {
    let (_temp, root) = temp_root();
    let target = document(&root, "notes/xyz-topic.md", "# x\n");
    let index = document(&root, "notes/index.md", "[[topic]]\n");
    let graph = resolve_graph_with_config(&root, vec![target, index], config_with_obsidian_prefix(true));
    assert!(graph.resolved_references.is_empty(), "suffix-only match must NOT resolve");
    assert_eq!(graph.unresolved_references.len(), 1);
}

#[test]
fn obsidian_prefix_single_file_mode() {
    let (_temp, root) = temp_root();
    let target = document(&root, "notes/20260801-topic-a-sub-x.md", "# x\n");
    let index = document(&root, "notes/index.md", "[[20260801-topic-a]]\n");
    let prefix_index = prefix_index_for(&[target.clone(), index.clone()]);
    let input = ResolveInput {
        root: root.clone(),
        documents: vec![target, index],
        extra_documents: vec![],
        config: config_with_obsidian_prefix(true),
        extra_folder_roots: vec![],
        single_file: true,
        prefix_index,
    };
    let graph = resolve_links(input);
    assert_eq!(graph.resolved_references.len(), 1);
}

#[test]
fn every_reference_lands_in_one_list() {
    let (_temp, root) = temp_root();
    let a = document(&root, "a.md", "# A\n## Part\n[[b]] [[nope]] [[#Part]] [x][lbl] [y] [z](b.md)\n[lbl]: b.md\n");
    let b = document(&root, "b.md", "# B\n");
    let graph = resolve_graph(&root, vec![a, b]);
    // Shortcut links are not reported; every other reference is reported once.
    assert_eq!(graph.resolved_references.len(), 4);
    assert_eq!(graph.unresolved_references.len(), 1);
    assert_eq!(graph.ambiguous_references.len(), 0);
    assert!(graph.resolved_references.iter().all(|r| !r.destinations.is_empty()));
    assert_eq!(graph.unresolved_references[0].target, "nope");
}

#[test]
fn same_title_in_two_documents_is_ambiguous() {
    let (_temp, root) = temp_root();
    let a = document(&root, "a/one.md", "# Same\n");
    let b = document(&root, "b/two.md", "# Same\n");
    let c = document(&root, "c.md", "[[Same]]\n");
    let graph = resolve_graph(&root, vec![a, b, c]);
    assert_eq!(graph.ambiguous_references.len(), 1);
    assert_eq!(graph.ambiguous_references[0].destinations.len(), 2);
    let diagnostics = check_diagnostics(&graph, &DiagnosticConfig::default());
    let dnl001: Vec<_> = diagnostics.iter().filter(|d| d.code == DiagnosticCode::DNL001).collect();
    assert_eq!(dnl001.len(), 1);
    assert_eq!(dnl001[0].related.len(), 2);
    assert_eq!(dnl001[0].message, "Ambiguous link: 'Same' resolves to multiple destinations");
}

#[test]
fn document_for_path_finds_same_location() {
    let (_temp, root) = temp_root();
    let a = document(&root, "notes/a.md", "# A\n");
    let graph = resolve_graph(&root, vec![a]);
    let found = graph.document_for_path(&format!("{root}/notes/./a.md"));
    assert!(found.is_some());
    assert!(graph.document_for_path(&format!("{root}/notes/b.md")).is_none());
}

#[test]
fn slug_applies_compatibility_normalisation() {
    assert_eq!(Slug::from_heading_text("Ｆｕｌｌ Ｗｉｄｔｈ").as_str(), "full-width");
    assert_eq!(Slug::from_heading_text("ﬁle  Names!").as_str(), "file--names");
    assert_eq!(Slug::from_heading_text("a  b").as_str(), "a--b");
    assert_eq!(Slug::from_heading_text("  Hello World \t").as_str(), "hello-world");
    assert_eq!(Slug::from_heading_text("Hello !").as_str(), "hello");
    assert_eq!(Slug::from_heading_text("Hello ?").as_str(), "hello");
    assert_eq!(Slug::from_heading_text("🚀 Launch").as_str(), "launch");
    assert_eq!(Slug::from_heading_text("   Title  ").as_str(), "title");
    assert_eq!(Slug::from_heading_text("Take ½ cup").as_str(), "take-12-cup");
}

#[test]
fn extensionless_inline_link_matches_by_stem_and_title() {
    let root = "/r";
    let a = document(root, "notes/a.md", "[see intro](intro)\n[by title](Intro)\n");
    let intro = document(root, "notes/intro.md", "# Intro\n");
    let graph = resolve_graph(root, vec![a, intro]);
    assert_eq!(graph.unresolved_references.len(), 0);
    assert_eq!(graph.resolved_references.len(), 2);
    for r in &graph.resolved_references {
        assert_eq!(r.destinations.len(), 1);
        assert_eq!(r.destinations[0].path, "/r/notes/intro.md");
    }
}
