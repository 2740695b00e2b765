use downlint::config::Config;
use downlint::diagnostics::{Diagnostic, DiagnosticCode, DiagnosticSeverity};
use downlint::lsp::{
    classify_header, content_length_line, initialize_root, definition_targets, exit_code, group_by_path, hover_symbol,
    keep_documented, parse_usize, reference_sources, route, HeaderLine, RequestAction,
};
use downlint::parser::{parse_document, ParseOptions};
use downlint::resolution::prefix::PrefixIndex;
use downlint::resolution::{resolve_links, ConnectionGraph, ResolveDocument, ResolveInput};
use downlint::utils::path::{parse_file_uri, uri_for_path};
use downlint::utils::text::ByteRange;

fn document(rel: &str, content: &str) -> ResolveDocument {
    ResolveDocument {
        path: format!("/ws/{rel}"),
        rel_path: rel.to_string(),
        structure: parse_document(content, ParseOptions::default()),
    }
}

fn graph(docs: Vec<ResolveDocument>) -> ConnectionGraph {
    let prefix_index = PrefixIndex::from_entries(docs.iter().map(|d| (d.stem(), d.path.clone())).collect());
    resolve_links(ResolveInput {
        root: "/ws".to_string(),
        documents: docs,
        extra_documents: vec![],
        extra_folder_roots: vec![],
        config: Config::default(),
        single_file: false,
        prefix_index,
    })
}

fn diagnostic(path: &str, start: usize) -> Diagnostic {
    Diagnostic {
        path: path.to_string(),
        range: ByteRange { start, end: start + 1 },
        severity: DiagnosticSeverity::Warning,
        code: DiagnosticCode::DNL002,
        message: format!("at {start}"),
        related: vec![],
    }
}

#[test]
fn parse_usize_like_str_parse() {
    assert_eq!(parse_usize("42"), Some(42));
    assert_eq!(parse_usize("+7"), Some(7));
    assert_eq!(parse_usize("007"), Some(7));
    assert_eq!(parse_usize(""), None);
    assert_eq!(parse_usize("+"), None);
    assert_eq!(parse_usize("-1"), None);
    assert_eq!(parse_usize(" 5"), None);
    assert_eq!(parse_usize("12a"), None);
    assert_eq!(parse_usize("99999999999999999999999999"), None);
    assert_eq!(parse_usize(&usize::MAX.to_string()), Some(usize::MAX));
}

#[test]
fn header_lines() {
    assert_eq!(classify_header("\r\n"), HeaderLine::End);
    assert_eq!(classify_header("Content-Length: 123\r\n"), HeaderLine::Length(Some(123)));
    assert_eq!(classify_header("Content-Length:77"), HeaderLine::Length(Some(77)));
    assert_eq!(classify_header("Content-Length: abc\r\n"), HeaderLine::Length(None));
    assert_eq!(classify_header("Content-Type: text\r\n"), HeaderLine::Other);
    assert_eq!(classify_header("\n"), HeaderLine::Other);
}

#[test]
fn length_line_reads_back() {
    let line = content_length_line(57);
    assert_eq!(line, "Content-Length: 57\r\n");
    assert_eq!(classify_header(&line), HeaderLine::Length(Some(57)));
    assert_eq!(classify_header(&content_length_line(0)), HeaderLine::Length(Some(0)));
}

#[test]
fn routing_before_and_after_initialize() {
    assert_eq!(route(false, "textDocument/hover", true), RequestAction::NotInitialized);
    assert_eq!(route(false, "textDocument/didOpen", false), RequestAction::Ignore);
    assert_eq!(route(false, "initialize", true), RequestAction::Initialize);
    assert_eq!(route(false, "exit", false), RequestAction::Exit);
    assert_eq!(route(true, "textDocument/completion", true), RequestAction::Completion);
    assert_eq!(route(true, "textDocument/documentSymbol", true), RequestAction::DocumentSymbol);
    assert_eq!(route(true, "workspace/unknown", true), RequestAction::MethodNotFound);
    assert_eq!(route(true, "workspace/unknown", false), RequestAction::Ignore);
    assert_eq!(exit_code(true), 0);
    assert_eq!(exit_code(false), 1);
}

#[test]
fn hover_definition_and_references() {
    let g = graph(vec![document("a.md", "# A\nsee [[b]]\n"), document("b.md", "# B\n")]);
    let (doc, sym) = hover_symbol(&g, "/ws/a.md", 10).unwrap();
    assert_eq!(doc, 0);
    assert!(g.documents[doc].structure.symbols[sym].full_range.contains(10));
    assert!(hover_symbol(&g, "/ws/zzz.md", 10).is_none());
    let targets = definition_targets(&g, "/ws/a.md", 10);
    assert_eq!(targets.len(), 1);
    let (r, d, t) = targets[0];
    assert_eq!(g.resolved_references[r].destinations[d].path, "/ws/b.md");
    assert_eq!(t, 1);
    assert!(definition_targets(&g, "/ws/a.md", 0).len() <= 1);
}

#[test]
fn references_to_a_heading() {
    let g = graph(vec![document("a.md", "# A
[[b#intro]]
"), document("b.md", "# B
## Intro
")]);
    let refs = reference_sources(&g, "/ws/b.md", 7);
    assert_eq!(refs.len(), 1);
    assert_eq!(g.resolved_references[refs[0]].source_path, "/ws/a.md");
    assert!(reference_sources(&g, "/ws/b.md", 100).is_empty());
}

#[test]
fn grouping_by_document() {
    let ds = vec![diagnostic("/ws/a.md", 1), diagnostic("/ws/b.md", 2), diagnostic("/ws/./a.md", 3)];
    let groups = group_by_path(&ds);
    assert_eq!(groups.len(), 2);
    assert_eq!(groups[0].0, "/ws/a.md");
    assert_eq!(groups[0].1.len(), 2);
    assert_eq!(groups[0].1[1].message, "at 3");
    assert_eq!(groups[1].0, "/ws/b.md");
    let g = graph(vec![document("a.md", "# A\n")]);
    let kept = keep_documented(&g, &ds);
    assert_eq!(kept.len(), 2);
}

#[test]
fn file_uris() {
    assert_eq!(uri_for_path("/tmp/a b.md").as_deref(), Some("file:///tmp/a%20b.md"));
    assert!(uri_for_path("relative.md").is_none());
    assert_eq!(parse_file_uri("file:///tmp/x.md").as_deref(), Some("/tmp/x.md"));
    assert!(parse_file_uri("not a uri").is_none());
}

#[test]
fn initialize_root_precedence() {
    let folder = Some("file:///ws/a".to_string());
    let root_uri = Some("file:///ws/b".to_string());
    let root_path = Some("/ws/c".to_string());
    assert_eq!(initialize_root(folder.clone(), root_uri.clone(), root_path.clone()).as_deref(), Some("/ws/a"));
    assert_eq!(initialize_root(None, root_uri.clone(), root_path.clone()).as_deref(), Some("/ws/b"));
    assert_eq!(initialize_root(Some("bad uri".to_string()), None, root_path.clone()).as_deref(), Some("/ws/c"));
    assert_eq!(initialize_root(None, None, None), None);
}
