use downlint::cli::{CheckOptions, OutputFormat, check_workspace, code_name, fix_changes, fix_paths, line_and_column, severity_name, text_line};
use downlint::config::Config;
use downlint::diagnostics::{Diagnostic, DiagnosticCode, DiagnosticSeverity};
use downlint::utils::text::{ByteRange, Text, TextEditChange};
use downlint::utils::workspace::{DiscoveredFolder, DocumentSource, Workspace, WorkspaceDocument, WorkspaceMode};

fn workspace(docs: &[(&str, &str)]) -> Workspace {
    Workspace {
        folder: DiscoveredFolder {
            root: "/ws".to_string(),
            config_path: None,
            documents: docs
                .iter()
                .map(|(rel, text)| WorkspaceDocument {
                    path: format!("/ws/{rel}"),
                    rel_path: rel.to_string(),
                    text: Text::new(text),
                    source: DocumentSource::Disk,
                })
                .collect(),
            extra_folders: vec![],
        },
        mode: WorkspaceMode::MultiFile,
        config: Config::default(),
    }
}

fn diagnostic(path: &str, start: usize, end: usize, code: DiagnosticCode) -> Diagnostic {
    Diagnostic {
        path: path.to_string(),
        range: ByteRange { start, end },
        severity: DiagnosticSeverity::Warning,
        code,
        message: "something".to_string(),
        related: vec![],
    }
}

#[test]
fn names_of_severities_and_codes() {
    assert_eq!(severity_name(DiagnosticSeverity::Info), "info");
    assert_eq!(severity_name(DiagnosticSeverity::Warning), "warning");
    assert_eq!(severity_name(DiagnosticSeverity::Error), "error");
    assert_eq!(code_name(DiagnosticCode::DNL001), "DNL001");
    assert_eq!(code_name(DiagnosticCode::DNL003), "DNL003");
}

#[test]
fn line_and_column_count_from_one() {
    let ws = workspace(&[("a.md", "first\nsecond line\n")]);
    assert_eq!(line_and_column(&ws, &diagnostic("/ws/a.md", 9, 10, DiagnosticCode::DNL002)), "2:4");
    assert_eq!(line_and_column(&ws, &diagnostic("/ws/./a.md", 0, 1, DiagnosticCode::DNL002)), "1:1");
    assert_eq!(line_and_column(&ws, &diagnostic("/ws/other.md", 9, 10, DiagnosticCode::DNL002)), "1:1");
}

#[test]
fn text_line_is_relative_to_the_root() {
    let ws = workspace(&[("notes/a.md", "abc\n[[x]]\n")]);
    let line = text_line(&ws, &diagnostic("/ws/notes/a.md", 4, 9, DiagnosticCode::DNL002));
    assert_eq!(line, "notes/a.md:2:1: warning: something [DNL002]");
    let outside = text_line(&ws, &diagnostic("/elsewhere/b.md", 0, 1, DiagnosticCode::DNL001));
    assert_eq!(outside, "/elsewhere/b.md:1:1: warning: something [DNL001]");
}

#[test]
fn check_workspace_finds_broken_links() {
    let ws = workspace(&[("a.md", "# A\n[[missing]]\n[[b]]\n"), ("b.md", "# B\n")]);
    let diagnostics = check_workspace(&ws, vec![], DiagnosticSeverity::Info);
    assert_eq!(diagnostics.len(), 1);
    assert_eq!(diagnostics[0].code, DiagnosticCode::DNL002);
    assert_eq!(diagnostics[0].severity, DiagnosticSeverity::Error);
    let none = check_workspace(&ws, vec![], DiagnosticSeverity::Error);
    assert_eq!(none.len(), 1);
}

#[test]
fn fixes_replace_non_breaking_spaces() {
    let ds = vec![
        diagnostic("/ws/a.md", 1, 3, DiagnosticCode::DNL003),
        diagnostic("/ws/b.md", 0, 1, DiagnosticCode::DNL002),
        diagnostic("/ws/./a.md", 6, 8, DiagnosticCode::DNL003),
    ];
    assert_eq!(fix_paths(&ds), vec!["/ws/a.md".to_string()]);
    let changes = fix_changes(&ds, "/ws/a.md");
    assert_eq!(changes.len(), 2);
    assert_eq!(changes[0].replacement, " ");
    let text = Text::new("#\u{a0}x #\u{a0}y");
    let fixed = TextEditChange::try_apply_all(&text, &changes).unwrap();
    assert_eq!(fixed.as_str(), "# x # y");
    let bad = vec![TextEditChange { range: ByteRange { start: 2, end: 3 }, replacement: " ".to_string() }];
    assert!(TextEditChange::try_apply_all(&text, &bad).is_none());
}

#[test]
fn check_options_pick_their_input() {
    let mut options = CheckOptions {
        root: None,
        format: OutputFormat::Text,
        min_severity: DiagnosticSeverity::Warning,
        color: "auto".to_string(),
        verbose: 2,
        fix: false,
        watch: false,
        stdin: false,
        quiet: false,
        path: None,
    };
    assert!(!options.reads_stdin());
    assert_eq!(options.target(), ".");
    options.path = Some("-".to_string());
    assert!(options.reads_stdin());
    options.path = Some("notes".to_string());
    assert!(!options.reads_stdin());
    assert_eq!(options.target(), "notes");
    options.stdin = true;
    assert!(options.reads_stdin());
}
