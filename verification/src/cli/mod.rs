use crate::diagnostics::{
    check_diagnostics, check_spec, diag_views, Diagnostic, DiagnosticCode, DiagnosticConfig,
    DiagnosticSeverity,
};
use crate::resolution::path::{path_eq, same_path, spec_strip_prefix, strip_prefix_chars};
use crate::resolution::slug::{push_decimal_u64, spec_decimal};
use crate::resolution::{input_of, resolve_links, resolves, workspace_ok, ResolveDocument, ResolveInput};
use crate::resolution::conn::ConnectionGraph;
use crate::utils::strs::{chars_of, push_char, string_of};
use crate::utils::text::{spec_to_lsp, ByteRange, PositionEncoding, TextEditChange};
use crate::utils::workspace::{Workspace, WorkspaceDocument};
use vstd::prelude::*;

verus! {

/// How the check command prints its findings.
#[derive(Clone, Copy, Debug, PartialEq, Eq, Structural)]
pub enum OutputFormat {
    Text,
    Json,
}

/// The options of the check command.
#[derive(Clone, Debug)]
pub struct CheckOptions {
    pub root: Option<String>,
    pub format: OutputFormat,
    pub min_severity: DiagnosticSeverity,
    pub color: String,
    pub verbose: u8,
    pub fix: bool,
    pub watch: bool,
    pub stdin: bool,
    pub quiet: bool,
    pub path: Option<String>,
}

impl CheckOptions {
    /// The document comes from standard input: when asked, or when the path is `-`.
    pub fn reads_stdin(&self) -> (b: bool)
        ensures
            b == (self.stdin || (self.path matches Some(p) && p@ == seq!['-'])),
    {
        if self.stdin {
            return true;
        }
        match &self.path {
            Some(p) => {
                let c = chars_of(p.as_str());
                let r = c.len() == 1 && c[0] == '-';
                assert(r == (c@ =~= seq!['-']));
                r
            },
            None => false,
        }
    }

    /// The path to check: the one given, or `.`.
    pub fn target(&self) -> (r: String)
        ensures
            r@ == match self.path {
                Some(p) => p@,
                None => seq!['.'],
            },
    {
        match &self.path {
            Some(p) => p.clone(),
            None => {
                let mut r = String::new();
                push_char(&mut r, '.');
                r
            },
        }
    }
}

pub open spec fn spec_severity_name(s: DiagnosticSeverity) -> Seq<char> {
    match s {
        DiagnosticSeverity::Info => seq!['i', 'n', 'f', 'o'],
        DiagnosticSeverity::Warning => seq!['w', 'a', 'r', 'n', 'i', 'n', 'g'],
        DiagnosticSeverity::Error => seq!['e', 'r', 'r', 'o', 'r'],
    }
}

/// The lower-case name of a severity.
pub fn severity_name(severity: DiagnosticSeverity) -> (r: &'static str)
    ensures
        r@ == spec_severity_name(severity),
{
    match severity {
        DiagnosticSeverity::Info => {
            proof {
                reveal_strlit("info");
            }
            "info"
        },
        DiagnosticSeverity::Warning => {
            proof {
                reveal_strlit("warning");
            }
            "warning"
        },
        DiagnosticSeverity::Error => {
            proof {
                reveal_strlit("error");
            }
            "error"
        },
    }
}

pub open spec fn spec_code_name(c: DiagnosticCode) -> Seq<char> {
    match c {
        DiagnosticCode::DNL001 => seq!['D', 'N', 'L', '0', '0', '1'],
        DiagnosticCode::DNL002 => seq!['D', 'N', 'L', '0', '0', '2'],
        DiagnosticCode::DNL003 => seq!['D', 'N', 'L', '0', '0', '3'],
    }
}

/// The name of a diagnostic code.
pub fn code_name(code: DiagnosticCode) -> (r: &'static str)
    ensures
        r@ == spec_code_name(code),
{
    match code {
        DiagnosticCode::DNL001 => {
            proof {
                reveal_strlit("DNL001");
            }
            "DNL001"
        },
        DiagnosticCode::DNL002 => {
            proof {
                reveal_strlit("DNL002");
            }
            "DNL002"
        },
        DiagnosticCode::DNL003 => {
            proof {
                reveal_strlit("DNL003");
            }
            "DNL003"
        },
    }
}

/// The index of the first workspace document whose path names the same location as
/// `path`.
pub open spec fn ws_doc_index(docs: Seq<WorkspaceDocument>, path: Seq<char>) -> Option<int> {
    if exists|i: int|
        0 <= i < docs.len() && path_eq(docs[i].path@, path) && forall|j: int|
            0 <= j < i ==> !path_eq(#[trigger] docs[j].path@, path) {
        Some(
            choose|i: int|
                0 <= i < docs.len() && path_eq(docs[i].path@, path) && forall|j: int|
                    0 <= j < i ==> !path_eq(#[trigger] docs[j].path@, path),
        )
    } else {
        None
    }
}

fn find_ws_doc(docs: &Vec<WorkspaceDocument>, path: &str) -> (r: Option<usize>)
    ensures
        match r {
            Some(i) => ws_doc_index(docs@, path@) == Some(i as int),
            None => ws_doc_index(docs@, path@) is None,
        },
{
    let mut i: usize = 0;
    while i < docs.len()
        invariant
            i <= docs@.len(),
            forall|j: int| 0 <= j < i ==> !path_eq(#[trigger] docs@[j].path@, path@),
        decreases docs@.len() - i,
    {
        if same_path(docs[i].path.as_str(), path) {
            proof {
                let c = choose|c: int|
                    0 <= c < docs@.len() && path_eq(docs@[c].path@, path@) && forall|j: int|
                        0 <= j < c ==> !path_eq(#[trigger] docs@[j].path@, path@);
                assert(0 <= c < docs@.len() && path_eq(docs@[c].path@, path@));
                if c < i {
                    assert(!path_eq(docs@[c].path@, path@));
                } else if c > i {
                    assert(!path_eq(docs@[i as int].path@, path@));
                }
            }
            return Some(i);
        }
        i += 1;
    }
    None
}

/// Every document text of the workspace is well formed.
pub open spec fn docs_wf(w: Workspace) -> bool {
    forall|i: int| 0 <= i < w.folder.documents@.len() ==> (#[trigger] w.folder.documents@[i]).text.wf()
}

/// `line:column`, both counted from one, of the start of a diagnostic in its document,
/// columns counting bytes; `1:1` when the document or the position cannot be found.
pub open spec fn spec_line_and_column(w: Workspace, d: Diagnostic) -> Seq<char> {
    match ws_doc_index(w.folder.documents@, d.path@) {
        Some(i) => {
            let t = w.folder.documents@[i].text;
            match spec_to_lsp(t@, t.map().starts(), d.range.start, PositionEncoding::Utf8) {
                Ok(p) => spec_decimal((p.line + 1) as nat) + seq![':'] + spec_decimal((p.character + 1) as nat),
                Err(_) => seq!['1', ':', '1'],
            }
        },
        None => seq!['1', ':', '1'],
    }
}

pub fn line_and_column(workspace: &Workspace, diagnostic: &Diagnostic) -> (r: String)
    requires
        docs_wf(*workspace),
    ensures
        r@ == spec_line_and_column(*workspace, *diagnostic),
{
    let docs = &workspace.folder.documents;
    if let Some(i) = find_ws_doc(docs, diagnostic.path.as_str()) {
        assert(docs@[i as int].text.wf());
        if let Ok(position) = docs[i].text.to_lsp_position(diagnostic.range.start, PositionEncoding::Utf8) {
            let mut out = String::new();
            push_decimal_u64(&mut out, (position.line as u64) + 1);
            push_char(&mut out, ':');
            push_decimal_u64(&mut out, (position.character as u64) + 1);
            return out;
        }
    }
    let mut out = String::new();
    push_char(&mut out, '1');
    push_char(&mut out, ':');
    push_char(&mut out, '1');
    out
}

/// The path as the text report shows it: relative to `root` when it lies within it.
pub open spec fn spec_display_path(path: Seq<char>, root: Seq<char>) -> Seq<char> {
    match spec_strip_prefix(path, root) {
        Some(r) => r,
        None => path,
    }
}

/// One line of the text report: `path:line:column: severity: message [code]`.
pub open spec fn spec_text_line(w: Workspace, d: Diagnostic) -> Seq<char> {
    spec_display_path(d.path@, w.folder.root@) + seq![':'] + spec_line_and_column(w, d) + seq![':', ' ']
        + spec_severity_name(d.severity) + seq![':', ' '] + d.message@ + seq![' ', '['] + spec_code_name(d.code)
        + seq![']']
}

pub fn text_line(workspace: &Workspace, diagnostic: &Diagnostic) -> (r: String)
    requires
        docs_wf(*workspace),
    ensures
        r@ == spec_text_line(*workspace, *diagnostic),
{
    let path = chars_of(diagnostic.path.as_str());
    let root = chars_of(workspace.folder.root.as_str());
    let mut out = match strip_prefix_chars(&path, &root) {
        Some(rel) => string_of(&rel),
        None => string_of(&path),
    };
    push_char(&mut out, ':');
    let lc = line_and_column(workspace, diagnostic);
    out.append(lc.as_str());
    push_char(&mut out, ':');
    push_char(&mut out, ' ');
    out.append(severity_name(diagnostic.severity));
    push_char(&mut out, ':');
    push_char(&mut out, ' ');
    out.append(diagnostic.message.as_str());
    push_char(&mut out, ' ');
    push_char(&mut out, '[');
    out.append(code_name(diagnostic.code));
    push_char(&mut out, ']');
    out
}

/// Resolves a workspace, with the documents of its extra folders, and checks it: the
/// diagnostics at least as severe as `min_severity` of some resolution of it.
pub fn check_workspace(
    workspace: &Workspace,
    extra_documents: Vec<ResolveDocument>,
    min_severity: DiagnosticSeverity,
) -> (r: Vec<Diagnostic>)
    requires
        workspace_ok(*workspace),
    ensures
        exists|input: ResolveInput, g: ConnectionGraph|
            input_of(input, *workspace, extra_documents@) && resolves(input, g) && diag_views(r@)
                == check_spec(g, DiagnosticConfig { min_severity }),
{
    let input = ResolveInput::from_workspace(workspace, extra_documents);
    let ghost inp = input;
    let graph = resolve_links(input);
    proof {
        assert forall|i: int| 0 <= i < graph.documents@.len() implies (#[trigger] graph.documents@[i]).structure.text.wf() by {
            assert(graph.documents@[i].structure == inp.documents@[i].structure);
        }
    }
    let config = DiagnosticConfig { min_severity };
    let r = check_diagnostics(&graph, &config);
    proof {
        assert(input_of(inp, *workspace, extra_documents@) && resolves(inp, graph));
    }
    r
}

/// Whether a diagnostic reports a non-breaking space, which `--fix` replaces.
pub open spec fn is_fixable(d: Diagnostic) -> bool {
    d.code == DiagnosticCode::DNL003
}

/// The replacements that `--fix` makes in the document at `path`: each fixable
/// diagnostic of that document, in order, puts a plain space in place of its range.
pub open spec fn fix_changes_spec(ds: Seq<Diagnostic>, path: Seq<char>) -> Seq<(ByteRange, Seq<char>)>
    decreases ds.len(),
{
    if ds.len() == 0 {
        Seq::empty()
    } else {
        let rest = fix_changes_spec(ds.drop_last(), path);
        let d = ds.last();
        if is_fixable(d) && path_eq(d.path@, path) {
            rest.push((d.range, seq![' ']))
        } else {
            rest
        }
    }
}

pub open spec fn change_views(cs: Seq<TextEditChange>) -> Seq<(ByteRange, Seq<char>)> {
    cs.map_values(|c: TextEditChange| (c.range, c.replacement@))
}

/// The replacements that `--fix` makes in the document at `path`.
pub fn fix_changes(diagnostics: &Vec<Diagnostic>, path: &str) -> (r: Vec<TextEditChange>)
    ensures
        change_views(r@) == fix_changes_spec(diagnostics@, path@),
{
    let mut out: Vec<TextEditChange> = Vec::new();
    let mut i: usize = 0;
    assert(change_views(out@) =~= fix_changes_spec(diagnostics@.take(0), path@));
    while i < diagnostics.len()
        invariant
            i <= diagnostics@.len(),
            change_views(out@) == fix_changes_spec(diagnostics@.take(i as int), path@),
        decreases diagnostics@.len() - i,
    {
        assert(diagnostics@.take(i + 1).drop_last() =~= diagnostics@.take(i as int));
        let d = &diagnostics[i];
        if d.code == DiagnosticCode::DNL003 && same_path(d.path.as_str(), path) {
            let mut space = String::new();
            push_char(&mut space, ' ');
            let c = TextEditChange { range: d.range, replacement: space };
            out.push(c);
            assert(change_views(out@) =~= change_views(out@.drop_last()).push((c.range, c.replacement@)));
        }
        i += 1;
    }
    assert(diagnostics@.take(diagnostics@.len() as int) =~= diagnostics@);
    out
}

/// The documents that `--fix` rewrites: the path of each fixable diagnostic, once, in
/// the order of first appearance.
pub open spec fn fix_paths_spec(ds: Seq<Diagnostic>) -> Seq<Seq<char>>
    decreases ds.len(),
{
    if ds.len() == 0 {
        Seq::empty()
    } else {
        let rest = fix_paths_spec(ds.drop_last());
        let d = ds.last();
        if is_fixable(d) && !(exists|k: int| 0 <= k < rest.len() && path_eq(#[trigger] rest[k], d.path@)) {
            rest.push(d.path@)
        } else {
            rest
        }
    }
}

/// The documents that `--fix` rewrites.
pub fn fix_paths(diagnostics: &Vec<Diagnostic>) -> (r: Vec<String>)
    ensures
        r@.map_values(|s: String| s@) == fix_paths_spec(diagnostics@),
{
    let mut out: Vec<String> = Vec::new();
    let mut i: usize = 0;
    assert(out@.map_values(|s: String| s@) =~= fix_paths_spec(diagnostics@.take(0)));
    while i < diagnostics.len()
        invariant
            i <= diagnostics@.len(),
            out@.map_values(|s: String| s@) == fix_paths_spec(diagnostics@.take(i as int)),
        decreases diagnostics@.len() - i,
    {
        assert(diagnostics@.take(i + 1).drop_last() =~= diagnostics@.take(i as int));
        let ghost ov = out@.map_values(|s: String| s@);
        let d = &diagnostics[i];
        if d.code == DiagnosticCode::DNL003 {
            let mut seen = false;
            let mut j: usize = 0;
            while j < out.len()
                invariant
                    j <= out@.len(),
                    ov == out@.map_values(|s: String| s@),
                    seen == exists|k: int| 0 <= k < j && path_eq(#[trigger] ov[k], d.path@),
                decreases out@.len() - j,
            {
                assert(ov[j as int] == out@[j as int]@);
                if same_path(out[j].as_str(), d.path.as_str()) {
                    seen = true;
                }
                j += 1;
            }
            if !seen {
                out.push(d.path.clone());
                assert(out@.map_values(|s: String| s@) =~= ov.push(d.path@));
            }
        }
        i += 1;
    }
    assert(diagnostics@.take(diagnostics@.len() as int) =~= diagnostics@);
    out
}

} // verus!
