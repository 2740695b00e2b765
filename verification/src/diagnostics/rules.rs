use crate::diagnostics::{
    diag_view, diag_views, spec_severity_for_ref, severity_for_ref, DiagView, Diagnostic,
    DiagnosticCode, DiagnosticSeverity, RelatedInformation, related_view,
};
use crate::parser::blocks::{content_end, lemma_content_end, line_content_end, next_line, next_line_start};
use crate::parser::headings::hash_run_end;
use crate::parser::scanner::{br, byte_offsets};
use crate::parser::symbols::Ref;
use crate::resolution::conn::{AmbiguousReference, UnresolvedReference};
use crate::resolution::path::{file_name_chars, spec_file_name};
use crate::resolution::prefix::strings_view;
use crate::resolution::slug::{push_decimal, spec_decimal};
use crate::utils::strs::{chars_of, str_byte_len, string_of};
use crate::utils::text::ByteRange;
use vstd::prelude::*;

verus! {

pub open spec fn range_of(name: Option<ByteRange>, full: ByteRange) -> ByteRange {
    match name {
        Some(r) => r,
        None => full,
    }
}

/// How a hint names a candidate: by its file name, or by its whole path when it has none.
pub open spec fn display_name(p: Seq<char>) -> Seq<char> {
    match spec_file_name(p) {
        Some(n) => n,
        None => p,
    }
}

pub open spec fn join_names(ps: Seq<Seq<char>>) -> Seq<char>
    decreases ps.len(),
{
    if ps.len() == 0 {
        Seq::empty()
    } else if ps.len() == 1 {
        display_name(ps[0])
    } else {
        join_names(ps.drop_last()) + ", "@ + display_name(ps.last())
    }
}

/// The hint that names up to five prefix candidates, and how many more there are.
pub open spec fn hint_text(ps: Seq<Seq<char>>) -> Seq<char> {
    let shown = if ps.len() > 5 {
        5
    } else {
        ps.len() as int
    };
    let more = if ps.len() > 5 {
        " (+"@ + spec_decimal((ps.len() - 5) as nat) + " more)"@
    } else {
        Seq::empty()
    };
    "\nHint: enable 'wiki.obsidian_prefix' to match partial filenames (candidates: "@ + join_names(ps.take(shown))
        + more + ")"@
}

pub open spec fn broken_message(u: UnresolvedReference) -> Seq<char> {
    "Broken link: '"@ + u.target@ + "' could not be resolved"@ + (if u.reference is Wiki && u.hint_payload is Some
        && u.hint_payload.unwrap()@.len() > 0 {
        hint_text(strings_view(u.hint_payload.unwrap()@))
    } else {
        Seq::empty()
    })
}

/// The broken-link diagnostic of an unresolved reference; none for a shortcut link.
pub open spec fn broken_spec(u: UnresolvedReference) -> Option<DiagView> {
    if u.reference is Shortcut {
        None
    } else {
        Some(
            (
                u.source_path@,
                range_of(u.name_range, u.full_range),
                spec_severity_for_ref(u.reference),
                DiagnosticCode::DNL002,
                broken_message(u),
                Seq::empty(),
            ),
        )
    }
}

pub open spec fn ambiguous_spec(a: AmbiguousReference) -> DiagView {
    (
        a.source_path@,
        range_of(a.name_range, a.full_range),
        spec_severity_for_ref(a.reference),
        DiagnosticCode::DNL001,
        "Ambiguous link: '"@ + a.target@ + "' resolves to multiple destinations"@,
        a.destinations@.map_values(|d: crate::resolution::conn::ResolvedDestination| (d.path@, d.path@)),
    )
}

fn display_name_of(p: &String) -> (r: String)
    ensures
        r@ == display_name(p@),
{
    match file_name_chars(&chars_of(p.as_str())) {
        Some(n) => string_of(&n),
        None => p.clone(),
    }
}

/// Reports an unresolved reference as a broken link, with a hint naming the prefix
/// candidates of a wiki-link; a shortcut link is not reported.
pub fn broken_link(reference: &UnresolvedReference) -> (r: Option<Diagnostic>)
    ensures
        match r {
            Some(d) => broken_spec(*reference) == Some(diag_view(d)),
            None => broken_spec(*reference) is None,
        },
{
    if let Ref::Shortcut { .. } = reference.reference {
        return None;
    }
    let mut message = String::from_str("Broken link: '");
    message.append(reference.target.as_str());
    message.append("' could not be resolved");
    let is_wiki = match reference.reference {
        Ref::Wiki { .. } => true,
        _ => false,
    };
    if is_wiki {
        if let Some(payload) = &reference.hint_payload {
            if payload.len() > 0 {
                let ghost ps = strings_view(payload@);
                let total = payload.len();
                let shown = if total > 5 {
                    5
                } else {
                    total
                };
                message.append("\nHint: enable 'wiki.obsidian_prefix' to match partial filenames (candidates: ");
                let ghost before = message@;
                let mut names = String::new();
                let mut k: usize = 0;
                while k < shown
                    invariant
                        k <= shown <= payload@.len(),
                        ps == strings_view(payload@),
                        names@ == join_names(ps.take(k as int)),
                    decreases shown - k,
                {
                    assert(ps.take(k + 1).drop_last() =~= ps.take(k as int));
                    if k > 0 {
                        names.append(", ");
                    }
                    let n = display_name_of(&payload[k]);
                    names.append(n.as_str());
                    proof {
                        if k == 0 {
                            assert(names@ =~= join_names(ps.take(1)));
                        }
                    }
                    k += 1;
                }
                message.append(names.as_str());
                if total > 5 {
                    message.append(" (+");
                    push_decimal(&mut message, total - 5);
                    message.append(" more)");
                }
                message.append(")");
                proof {
                    assert(message@ =~= broken_message(*reference));
                }
            }
        }
    }
    let range = match reference.name_range {
        Some(r) => r,
        None => reference.full_range,
    };
    let d = Diagnostic {
        path: reference.source_path.clone(),
        range,
        severity: severity_for_ref(&reference.reference),
        code: DiagnosticCode::DNL002,
        message,
        related: Vec::new(),
    };
    assert(diag_view(d).5 =~= Seq::<(Seq<char>, Seq<char>)>::empty());
    Some(d)
}

/// Reports an ambiguous reference, relating each of its destinations.
pub fn ambiguous_link(reference: &AmbiguousReference) -> (d: Diagnostic)
    ensures
        diag_view(d) == ambiguous_spec(*reference),
{
    let mut message = String::from_str("Ambiguous link: '");
    message.append(reference.target.as_str());
    message.append("' resolves to multiple destinations");
    let ghost want = reference.destinations@.map_values(|d: crate::resolution::conn::ResolvedDestination| (d.path@, d.path@));
    let mut related: Vec<RelatedInformation> = Vec::new();
    let mut i: usize = 0;
    while i < reference.destinations.len()
        invariant
            i <= reference.destinations@.len(),
            want == reference.destinations@.map_values(|d: crate::resolution::conn::ResolvedDestination| (d.path@, d.path@)),
            related@.map_values(|r: RelatedInformation| related_view(r)) == want.take(i as int),
        decreases reference.destinations@.len() - i,
    {
        let ghost before = related@;
        let p = &reference.destinations[i].path;
        related.push(RelatedInformation { path: p.clone(), message: p.clone() });
        assert(related@.map_values(|r: RelatedInformation| related_view(r)) =~= before.map_values(
            |r: RelatedInformation| related_view(r),
        ).push(want[i as int]));
        assert(want.take(i + 1) =~= want.take(i as int).push(want[i as int]));
        i += 1;
    }
    assert(want.take(i as int) =~= want);
    let range = match reference.name_range {
        Some(r) => r,
        None => reference.full_range,
    };
    Diagnostic {
        path: reference.source_path.clone(),
        range,
        severity: severity_for_ref(&reference.reference),
        code: DiagnosticCode::DNL001,
        message,
        related,
    }
}

/// Indices of the non-breaking spaces that directly follow the run of `#` opening a
/// line, from line start `i` on.
pub open spec fn nbsp_from(s: Seq<char>, i: int) -> Seq<int>
    decreases s.len() - i,
{
    if i < 0 || i >= s.len() {
        Seq::empty()
    } else {
        proof {
            lemma_content_end(s, i);
        }
        let ce = content_end(s, i);
        let h = hash_run_end(s, i, ce) - i;
        if h > 0 && i + h < ce && s[i + h] == '\u{a0}' {
            seq![i + h] + nbsp_from(s, next_line(s, i))
        } else {
            nbsp_from(s, next_line(s, i))
        }
    }
}

pub open spec fn nbsp_diag(path: Seq<char>, s: Seq<char>, p: int) -> DiagView {
    (
        path,
        br(s, p, p + 1),
        DiagnosticSeverity::Warning,
        DiagnosticCode::DNL003,
        "Non-breaking whitespace after heading marker"@,
        Seq::empty(),
    )
}

pub open spec fn nbsp_spec(path: Seq<char>, s: Seq<char>) -> Seq<DiagView> {
    nbsp_from(s, 0).map_values(|p: int| nbsp_diag(path, s, p))
}

fn hash_count(s: &[char], t: usize, ce: usize) -> (r: usize)
    requires
        t <= ce <= s@.len(),
    ensures
        r == hash_run_end(s@, t as int, ce as int),
        t <= r <= ce,
{
    let mut j: usize = t;
    while j < ce && s[j] == '#'
        invariant
            t <= j <= ce <= s@.len(),
            hash_run_end(s@, t as int, ce as int) == hash_run_end(s@, j as int, ce as int),
        decreases ce - j,
    {
        j += 1;
    }
    j
}

/// Reports each non-breaking space that directly follows the `#` opening a line.
pub fn non_breaking_space(path: &str, input: &str) -> (r: Vec<Diagnostic>)
    ensures
        diag_views(r@) == nbsp_spec(path@, input@),
{
    let n = str_byte_len(input);
    let chars = chars_of(input);
    let s = chars.as_slice();
    let offs = byte_offsets(s);
    let ghost all = nbsp_from(s@, 0);
    let mut out: Vec<Diagnostic> = Vec::new();
    let ghost mut done: Seq<int> = Seq::empty();
    let mut i: usize = 0;
    while i < s.len()
        invariant
            i <= s@.len(),
            s@ == input@,
            offs@.len() == s@.len() + 1,
            forall|q: int| 0 <= q <= s@.len() ==> offs@[q] == crate::utils::strs::bpos(s@, q),
            all == nbsp_from(s@, 0),
            all == done + nbsp_from(s@, i as int),
            diag_views(out@) == done.map_values(|p: int| nbsp_diag(path@, s@, p)),
        decreases s@.len() - i,
    {
        let ce = line_content_end(s, i);
        let nl = next_line_start(s, i);
        let he = hash_count(s, i, ce);
        if he > i && he < ce && s[he] == '\u{a0}' {
            let ghost before = out@;
            let msg = String::from_str("Non-breaking whitespace after heading marker");
            let d = Diagnostic {
                path: String::from_str(path),
                range: ByteRange::new(offs[he], offs[he + 1]),
                severity: DiagnosticSeverity::Warning,
                code: DiagnosticCode::DNL003,
                message: msg,
                related: Vec::new(),
            };
            out.push(d);
            proof {
                assert(diag_view(d).5 =~= Seq::<(Seq<char>, Seq<char>)>::empty());
                assert(diag_views(out@) =~= diag_views(before).push(nbsp_diag(path@, s@, he as int)));
                assert(done.push(he as int).map_values(|p: int| nbsp_diag(path@, s@, p)) =~= done.map_values(
                    |p: int| nbsp_diag(path@, s@, p),
                ).push(nbsp_diag(path@, s@, he as int)));
                assert(done.push(he as int) + nbsp_from(s@, nl as int) =~= done + nbsp_from(s@, i as int));
                done = done.push(he as int);
            }
        }
        i = nl;
    }
    proof {
        assert(done + nbsp_from(s@, i as int) =~= done);
    }
    out
}

} // verus!
