use downlint::utils::workspace::{infer_root, root_walk};

#[test]
fn infer_root_prefers_target_parent_without_markers() {
    let path = "/tmp/demo/doc.md";
    assert_eq!(infer_root(path).0, "/tmp/demo");
}

#[test]
fn root_walk_climbs_to_the_file_system_root() {
    assert_eq!(root_walk("/tmp/demo"), vec!["/tmp/demo".to_string(), "/tmp".to_string(), "/".to_string()]);
    assert_eq!(root_walk("notes/a"), vec!["notes/a".to_string(), "notes".to_string(), "".to_string()]);
}

#[test]
fn invalid_ignore_pattern_excludes_nothing() {
    let mut config = Config::default();
    config.core.ignore = vec!["a[".to_string()];
    assert!(keep_document("/r/a[.md", "a[.md", &config));
}

use downlint::config::Config;
use downlint::utils::text::Text;
use downlint::utils::workspace::{
    document_order, extra_folder_path, keep_document, mode_for, DocumentSource,
    WorkspaceDocument, WorkspaceMode,
};

#[test]
fn documents_are_kept_by_extension_and_ignore_patterns() {
    let mut config = Config::default();
    assert!(keep_document("/r/a.md", "a.md", &config));
    assert!(keep_document("/r/b.markdown", "b.markdown", &config));
    assert!(!keep_document("/r/c.txt", "c.txt", &config));
    assert!(!keep_document("/r/noext", "noext", &config));
    config.core.ignore = vec!["drafts/**".to_string(), "!drafts/published/**".to_string()];
    assert!(!keep_document("/r/drafts/x.md", "drafts/x.md", &config));
    assert!(keep_document("/r/notes/x.md", "notes/x.md", &config));
    assert!(keep_document("/r/drafts/published/final.md", "drafts/published/final.md", &config));
}

fn doc(rel: &str) -> WorkspaceDocument {
    WorkspaceDocument {
        path: format!("/r/{rel}"),
        rel_path: rel.to_string(),
        text: Text::new(""),
        source: DocumentSource::Disk,
    }
}

#[test]
fn documents_sort_by_path_components() {
    let docs = vec![doc("b.md"), doc("a-c.md"), doc("a/z.md"), doc("a.md")];
    assert_eq!(document_order(&docs), vec![2, 1, 3, 0]);
}

#[test]
fn extra_folders_resolve_home_and_root() {
    assert_eq!(extra_folder_path("/root", "~/notes", Some("/home/u")), "/home/u/notes");
    assert_eq!(extra_folder_path("/root", "~/notes", None), "/notes");
    assert_eq!(extra_folder_path("/root", "shared", None), "/root/shared");
    assert_eq!(extra_folder_path("/root", "/abs/x", None), "/abs/x");
}

#[test]
fn single_file_mode() {
    assert_eq!(mode_for(true, false), WorkspaceMode::SingleFile);
    assert_eq!(mode_for(false, true), WorkspaceMode::SingleFile);
    assert_eq!(mode_for(false, false), WorkspaceMode::MultiFile);
}
