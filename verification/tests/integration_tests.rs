use downlint::config::Config;
use downlint::diagnostics::{check_diagnostics, DiagnosticCode, DiagnosticConfig};
use downlint::parser::{parse_document, ParseOptions};
use downlint::resolution::prefix::PrefixIndex;
use downlint::resolution::{resolve_links, ConnectionGraph, ResolveDestinationKind, ResolveDocument, ResolveInput};
use std::io::Write;
use tempfile::{Builder, TempDir};

fn document(root: &str, rel: &str, content: &str) -> ResolveDocument {
    ResolveDocument {
        path: format!("{root}/{rel}"),
        rel_path: rel.to_string(),
        structure: parse_document(content, ParseOptions::default()),
    }
}

fn input(root: &str, documents: Vec<ResolveDocument>, extra: Vec<ResolveDocument>, extra_roots: Vec<String>, config: Config) -> ResolveInput {
    ResolveInput {
        root: root.to_string(),
        documents,
        extra_documents: extra,
        extra_folder_roots: extra_roots,
        config,
        single_file: false,
        prefix_index: PrefixIndex::empty(),
    }
}

fn resolve_graph(root: &str, docs: Vec<ResolveDocument>) -> ConnectionGraph {
    let prefix_index = PrefixIndex::from_entries(docs.iter().map(|d| (d.stem(), d.path.clone())).collect());
    let mut inp = input(root, docs, vec![], vec![], Config::default());
    inp.prefix_index = prefix_index;
    resolve_links(inp)
}

fn broken_count(graph: &ConnectionGraph) -> usize {
    check_diagnostics(graph, &DiagnosticConfig::default())
        .iter()
        .filter(|d| d.code == DiagnosticCode::DNL002)
        .count()
}

/// A directory with exactly the given name inside `parent`.
fn make_dir(parent: &std::path::Path, name: &str) -> TempDir {
    Builder::new().prefix(name).rand_bytes(0).tempdir_in(parent).unwrap()
}

fn temp_root() -> (TempDir, String) {
    let temp = TempDir::new().unwrap();
    let root = temp.path().to_string_lossy().into_owned();
    (temp, root)
}

#[test]
fn wiki_link_with_non_ascii_title_resolves_correctly() {
    let root = "/tmp/downlint-root";
    let docs = vec![
        document(root, "notes/jon-sjostrand.md", "# Jon Sjöstrand\n\nSome content about Jon.\n"),
        document(root, "notes/reference.md", "[[Jon Sjöstrand]]\n"),
    ];
    let graph = resolve_links(input(root, docs, vec![], vec![], Config::default()));
    assert_eq!(broken_count(&graph), 0, "Expected wiki link [[Jon Sjöstrand]] to resolve");
}

#[test]
fn wiki_link_with_non_ascii_heading_anchor_resolves_correctly() {
    let root = "/tmp/downlint-root";
    let docs = vec![
        document(
            root,
            "notes/jon-sjostrand.md",
            "# Jon Sjöstrand\n\n## Kontaktinformation\n\nEmail: jon@example.com\n",
        ),
        document(root, "notes/reference.md", "[[Jon Sjöstrand#Kontaktinformation]]\n"),
    ];
    let graph = resolve_links(input(root, docs, vec![], vec![], Config::default()));
    assert_eq!(broken_count(&graph), 0);
}

#[test]
fn wiki_link_with_mojibake_does_not_match_correct_title() {
    let root = "/tmp/downlint-root";
    let docs = vec![
        document(root, "notes/tommy.md", "# Tommy Sjöstrand\n\nSome content.\n"),
        document(root, "notes/reference.md", "[[Tommy SjÃ¶strand]]\n"),
    ];
    let graph = resolve_links(input(root, docs, vec![], vec![], Config::default()));
    assert_eq!(broken_count(&graph), 1, "Expected 1 broken link for mojibake mismatch (slugs don't match)");
}

#[test]
fn wiki_link_explicit_path_resolves_in_extra_folders() {
    let root = "/tmp/downlint-base/root";
    let ext_root = "/tmp/downlint-base/ext_project";
    let source = document(root, "notes/reference.md", "[[/people/john-doe|Some Name]]\n");
    let target = document(ext_root, "people/john-doe.md", "# John Doe\n\nBio content.\n");
    let graph = resolve_links(input(root, vec![source], vec![target], vec![ext_root.to_string()], Config::default()));
    assert_eq!(broken_count(&graph), 0);
    assert_eq!(graph.resolved_references.len(), 1);
    assert_eq!(graph.resolved_references[0].destinations.len(), 1);
    assert_eq!(graph.resolved_references[0].destinations[0].path, format!("{ext_root}/people/john-doe.md"));
}

#[test]
fn wiki_link_with_slash_in_target_resolves_via_title_slug_in_extra_folders() {
    let root = "/tmp/downlint-base/root";
    let ext_root = "/tmp/downlint-base/ext_project";
    let source = document(root, "notes/reference.md", "[[Mateusz Know-How transfer (DevOps/ADP)]]\n");
    let target = document(ext_root, "notes/kt-session.md", "# Mateusz Know-How transfer (DevOps/ADP)\n\nBio content.\n");
    let graph = resolve_links(input(root, vec![source], vec![target], vec![ext_root.to_string()], Config::default()));
    assert_eq!(broken_count(&graph), 0);
    assert_eq!(graph.resolved_references.len(), 1);
    assert_eq!(graph.resolved_references[0].destinations.len(), 1);
    assert_eq!(graph.resolved_references[0].destinations[0].path, format!("{ext_root}/notes/kt-session.md"));
}

#[test]
fn inline_link_with_non_ascii_filename_resolves_correctly() {
    let root = "/tmp/downlint-root";
    let docs = vec![
        document(root, "notes/Jon-Männik.md", "# Jon Männik\n\nSome content.\n"),
        document(root, "notes/reference.md", "[Jon Männik](<Jon-Männik.md>)\n"),
    ];
    let graph = resolve_links(input(root, docs, vec![], vec![], Config::default()));
    assert_eq!(broken_count(&graph), 0);
}

#[test]
fn folder_link_to_existing_directory_resolves() {
    let (temp, root) = temp_root();
    let cases = make_dir(temp.path(), "cases");
    let audit = make_dir(cases.path(), "20250911-audit");
    let mut readme = Builder::new().prefix("README").suffix(".md").rand_bytes(0).tempfile_in(audit.path()).unwrap();
    readme.write_all(b"# Audit").unwrap();
    let _docs = make_dir(temp.path(), "docs");
    let doc = document(&root, "docs/index.md", "[Case Audit](../cases/20250911-audit/)");
    let graph = resolve_graph(&root, vec![doc]);
    assert_eq!(broken_count(&graph), 0, "folder link to existing directory should not produce broken link diagnostic");
    assert_eq!(graph.resolved_references.len(), 1);
    assert!(matches!(graph.resolved_references[0].destinations[0].kind, ResolveDestinationKind::Directory));
}

#[test]
fn folder_link_to_file_not_directory_is_broken() {
    let (temp, root) = temp_root();
    let mut file = Builder::new().prefix("cases").rand_bytes(0).tempfile_in(temp.path()).unwrap();
    file.write_all(b"some content").unwrap();
    let _docs = make_dir(temp.path(), "docs");
    let doc = document(&root, "docs/index.md", "[Cases](../cases/)");
    let graph = resolve_graph(&root, vec![doc]);
    assert_eq!(broken_count(&graph), 1, "folder link to a file should be broken");
}

#[test]
fn wiki_link_to_folder_resolves() {
    let (temp, root) = temp_root();
    let cases = make_dir(temp.path(), "cases");
    let _audit = make_dir(cases.path(), "audit");
    let doc = document(&root, "docs/index.md", "[[/cases/audit/]]");
    let graph = resolve_graph(&root, vec![doc]);
    assert_eq!(broken_count(&graph), 0, "wiki link to existing folder should resolve");
}

#[test]
fn folder_link_with_anchor_is_unresolved() {
    let (temp, root) = temp_root();
    let cases = make_dir(temp.path(), "cases");
    let _audit = make_dir(cases.path(), "audit");
    let _docs = make_dir(temp.path(), "docs");
    let doc = document(&root, "docs/index.md", "[Case Audit](../cases/audit/#summary)");
    let graph = resolve_graph(&root, vec![doc]);
    assert_eq!(broken_count(&graph), 1, "folder link with anchor should be unresolved");
}

#[test]
fn folder_link_in_extra_folder_resolves() {
    let (temp, root) = temp_root();
    let extra = make_dir(temp.path(), "extra");
    let shared = make_dir(extra.path(), "shared");
    let _templates = make_dir(shared.path(), "templates");
    let extra_root = extra.path().to_string_lossy().into_owned();
    let doc = document(&root, "docs/index.md", "[Templates](/shared/templates/)");
    let graph = resolve_links(input(&root, vec![doc], vec![], vec![extra_root], Config::default()));
    assert_eq!(broken_count(&graph), 0, "folder link to directory in extra folder should resolve");
}

#[test]
fn non_folder_link_to_directory_name_unchanged() {
    let (temp, root) = temp_root();
    let _cases = make_dir(temp.path(), "cases");
    let _docs = make_dir(temp.path(), "docs");
    let doc = document(&root, "docs/index.md", "[Cases](../cases)");
    let graph = resolve_graph(&root, vec![doc]);
    let directories = graph
        .resolved_references
        .iter()
        .flat_map(|r| r.destinations.iter())
        .filter(|d| matches!(d.kind, ResolveDestinationKind::Directory))
        .count();
    assert_eq!(directories, 0, "link without trailing slash should NOT resolve as a directory");
}

#[test]
fn obsidian_prefix_does_not_resolve_folder_link() {
    let (temp, root) = temp_root();
    let cases = make_dir(temp.path(), "cases");
    let _audit = make_dir(cases.path(), "audit");
    let target = document(&root, "cases-audit.md", "# decoy\n");
    let index = document(&root, "docs/index.md", "[[/cases/audit/]]");
    let docs = vec![target, index];
    let prefix_index = PrefixIndex::from_entries(docs.iter().map(|d| (d.stem(), d.path.clone())).collect());
    let mut config = Config::default();
    config.wiki.obsidian_prefix = true;
    let mut inp = input(&root, docs, vec![], vec![], config);
    inp.prefix_index = prefix_index;
    let graph = resolve_links(inp);
    assert_eq!(graph.resolved_references.len(), 1, "folder-link must resolve to the folder, not to a prefix-matched file");
    assert!(graph.unresolved_references.is_empty(), "folder-link must not be reported as unresolved");
    assert_eq!(broken_count(&graph), 0, "folder-link must not emit DNL002");
}
