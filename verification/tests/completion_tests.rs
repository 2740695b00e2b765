use downlint::completion::{complete_at, detect_prefix, CompletionParams, PromptKind};
use downlint::config::{Config, WikiCompletionStyle};
use downlint::parser::{parse_document, ParseOptions};
use downlint::resolution::prefix::PrefixIndex;
use downlint::resolution::{resolve_links, ConnectionGraph, ResolveDocument, ResolveInput};

fn document(rel: &str, content: &str) -> ResolveDocument {
    ResolveDocument {
        path: format!("/ws/{rel}"),
        rel_path: rel.to_string(),
        structure: parse_document(content, ParseOptions::default()),
    }
}

fn graph(docs: Vec<ResolveDocument>) -> ConnectionGraph {
    let prefix_index = PrefixIndex::from_entries(docs.iter().map(|d| (d.stem(), d.path.clone())).collect());
    resolve_links(ResolveInput {
        root: "/ws".to_string(),
        documents: docs,
        extra_documents: vec![],
        extra_folder_roots: vec![],
        config: Config::default(),
        single_file: false,
        prefix_index,
    })
}

fn params(path: &str, text: &str, graph: ConnectionGraph, style: WikiCompletionStyle) -> CompletionParams {
    CompletionParams {
        path: path.to_string(),
        source_text: text.to_string(),
        cursor_offset: text.len(),
        graph,
        style,
        max_candidates: 50,
    }
}

#[test]
fn prompt_for_wiki_document() {
    let p = detect_prefix("see [[foo", 9);
    assert_eq!(p.kind, PromptKind::WikiDoc);
    assert_eq!(p.value, "foo");
    assert_eq!((p.range.start, p.range.end), (6, 9));
}

#[test]
fn prompt_for_wiki_heading() {
    let p = detect_prefix("x [[#intro", 10);
    assert_eq!(p.kind, PromptKind::WikiHeading);
    assert_eq!(p.value, "intro");
    assert_eq!((p.range.start, p.range.end), (5, 10));
}

#[test]
fn prompt_for_tag_and_after_a_letter() {
    let p = detect_prefix("text #ru", 8);
    assert_eq!(p.kind, PromptKind::Tag);
    assert_eq!(p.value, "#ru");
    assert_eq!((p.range.start, p.range.end), (5, 8));
    let q = detect_prefix("a#b", 3);
    assert_eq!(q.kind, PromptKind::Empty);
    assert_eq!(q.value, "");
    assert_eq!((q.range.start, q.range.end), (3, 3));
}

#[test]
fn prompt_cursor_is_clamped_and_counts_bytes() {
    let p = detect_prefix("é [[ab", 100);
    assert_eq!(p.kind, PromptKind::WikiDoc);
    assert_eq!(p.value, "ab");
    assert_eq!((p.range.start, p.range.end), (5, 7));
    let q = detect_prefix("[[a]] é", 4);
    assert_eq!(q.kind, PromptKind::WikiDoc);
    assert_eq!(q.value, "a]");
}

#[test]
fn document_candidates_in_each_style() {
    let docs = || vec![document("a.md", "# Alpha\n"), document("sub/b.md", "# Beta note\n"), document("c.md", "# Gamma\n")];
    let items = complete_at(params("/ws/a.md", "go [[be", graph(docs()), WikiCompletionStyle::TitleSlug));
    assert_eq!(items.len(), 1);
    assert_eq!(items[0].label, "Beta note");
    assert_eq!(items[0].detail.as_deref(), Some("sub/b.md"));
    assert_eq!(items[0].insert_text, "beta-note");
    assert_eq!((items[0].replace_range.start, items[0].replace_range.end), (5, 7));
    let stems = complete_at(params("/ws/a.md", "[[", graph(docs()), WikiCompletionStyle::FileStem));
    let texts: Vec<&str> = stems.iter().map(|i| i.insert_text.as_str()).collect();
    assert_eq!(texts, vec!["b", "c"]);
    let paths = complete_at(params("/ws/a.md", "[[be", graph(docs()), WikiCompletionStyle::FilePathStem));
    assert_eq!(paths[0].insert_text, "sub/b");
    let titles = complete_at(params("/ws/a.md", "[[BE", graph(docs()), WikiCompletionStyle::Title));
    assert_eq!(titles[0].insert_text, "Beta note");
}

#[test]
fn document_candidates_need_a_known_source_and_respect_the_limit() {
    let docs = vec![document("a.md", "# Alpha\n"), document("b.md", "# Beta\n"), document("c.md", "# Gamma\n")];
    let g = graph(docs);
    assert!(complete_at(params("/ws/missing.md", "[[", g.clone(), WikiCompletionStyle::TitleSlug)).is_empty());
    let mut p = params("/ws/a.md", "[[", g, WikiCompletionStyle::TitleSlug);
    p.max_candidates = 1;
    let items = complete_at(p);
    assert_eq!(items.len(), 1);
    assert_eq!(items[0].label, "Beta");
}

#[test]
fn heading_candidates_of_the_source_document() {
    let docs = vec![document("a.md", "# Title\n## Intro\n## Setup\n")];
    let items = complete_at(params("/ws/a.md", "[[#in", graph(docs), WikiCompletionStyle::TitleSlug));
    assert_eq!(items.len(), 1);
    assert_eq!(items[0].label, "intro");
    assert_eq!(items[0].insert_text, "intro");
    assert_eq!(items[0].detail.as_deref(), Some("a.md"));
}

#[test]
fn tag_candidates_are_counted_and_sorted() {
    let docs = vec![document("a.md", "text #rust #go #rust\n"), document("b.md", "more #zig #rust\n")];
    let items = complete_at(params("/ws/a.md", "#", graph(docs), WikiCompletionStyle::TitleSlug));
    let seen: Vec<(&str, &str)> =
        items.iter().map(|i| (i.label.as_str(), i.detail.as_deref().unwrap())).collect();
    assert_eq!(seen, vec![("#go", "1 refs"), ("#rust", "2 refs"), ("#rust", "1 refs"), ("#zig", "1 refs")]);
    assert_eq!(items[1].insert_text, "#rust");
}

#[test]
fn no_prompt_no_candidates() {
    let docs = vec![document("a.md", "# Alpha\n")];
    assert!(complete_at(params("/ws/a.md", "plain text", graph(docs), WikiCompletionStyle::TitleSlug)).is_empty());
}
