pub mod manager;
pub mod rules;

use crate::diagnostics::rules::{ambiguous_link, broken_link, non_breaking_space, ambiguous_spec, broken_spec, nbsp_spec, range_of};
use crate::parser::symbols::Ref;
use crate::resolution::conn::{AmbiguousReference, ConnectionGraph, UnresolvedReference};
use crate::utils::text::ByteRange;
use vstd::prelude::*;

verus! {

/// How serious a diagnostic is, from least to most.
#[derive(Clone, Copy, Debug, PartialEq, Eq, Structural, PartialOrd, Ord, Hash)]
pub enum DiagnosticSeverity {
    Info,
    Warning,
    Error,
}

impl DiagnosticSeverity {
    pub open spec fn spec_rank(self) -> u8 {
        match self {
            DiagnosticSeverity::Info => 0,
            DiagnosticSeverity::Warning => 1,
            DiagnosticSeverity::Error => 2,
        }
    }

    /// The place of the severity in the order Info, Warning, Error.
    pub fn rank(self) -> (r: u8)
        ensures
            r == self.spec_rank(),
    {
        match self {
            DiagnosticSeverity::Info => 0,
            DiagnosticSeverity::Warning => 1,
            DiagnosticSeverity::Error => 2,
        }
    }

    /// Whether this severity is at least `other`.
    pub fn at_least(self, other: DiagnosticSeverity) -> (b: bool)
        ensures
            b == (self.spec_rank() >= other.spec_rank()),
    {
        self.rank() >= other.rank()
    }
}

#[derive(Clone, Copy, Debug, PartialEq, Eq, Structural, Hash)]
pub enum DiagnosticCode {
    DNL001,
    DNL002,
    DNL003,
}

#[derive(Clone, Debug)]
pub struct RelatedInformation {
    pub path: String,
    pub message: String,
}

#[derive(Clone, Debug)]
pub struct Diagnostic {
    pub path: String,
    pub range: ByteRange,
    pub severity: DiagnosticSeverity,
    pub code: DiagnosticCode,
    pub message: String,
    pub related: Vec<RelatedInformation>,
}

/// A diagnostic as plain values: path, range, severity, code, message, and the path and
/// message of each piece of related information.
pub type DiagView = (Seq<char>, ByteRange, DiagnosticSeverity, DiagnosticCode, Seq<char>, Seq<(Seq<char>, Seq<char>)>);

pub open spec fn related_view(r: RelatedInformation) -> (Seq<char>, Seq<char>) {
    (r.path@, r.message@)
}

pub open spec fn diag_view(d: Diagnostic) -> DiagView {
    (d.path@, d.range, d.severity, d.code, d.message@, d.related@.map_values(|r: RelatedInformation| related_view(r)))
}

pub open spec fn diag_views(v: Seq<Diagnostic>) -> Seq<DiagView> {
    v.map_values(|d: Diagnostic| diag_view(d))
}

#[derive(Clone, Copy, Debug, PartialEq, Eq, Structural)]
pub struct DiagnosticConfig {
    pub min_severity: DiagnosticSeverity,
}

impl Default for DiagnosticConfig {
    fn default() -> (r: Self)
        ensures
            r.min_severity == DiagnosticSeverity::Warning,
    {
        DiagnosticConfig { min_severity: DiagnosticSeverity::Warning }
    }
}

pub open spec fn spec_severity_for_ref(r: Ref) -> DiagnosticSeverity {
    match r {
        Ref::Wiki { .. } => DiagnosticSeverity::Error,
        Ref::Inline { .. } => DiagnosticSeverity::Warning,
        Ref::Full { .. } => DiagnosticSeverity::Warning,
        Ref::Collapsed { .. } => DiagnosticSeverity::Warning,
        Ref::Shortcut { .. } => DiagnosticSeverity::Info,
    }
}

/// The severity of a problem with a reference: an error for wiki-links, a warning for
/// inline and reference links, information for shortcut links.
pub fn severity_for_ref(reference: &Ref) -> (s: DiagnosticSeverity)
    ensures
        s == spec_severity_for_ref(*reference),
{
    match reference {
        Ref::Wiki { .. } => DiagnosticSeverity::Error,
        Ref::Inline { .. } => DiagnosticSeverity::Warning,
        Ref::Full { .. } => DiagnosticSeverity::Warning,
        Ref::Collapsed { .. } => DiagnosticSeverity::Warning,
        Ref::Shortcut { .. } => DiagnosticSeverity::Info,
    }
}

pub open spec fn broken_all(us: Seq<UnresolvedReference>) -> Seq<DiagView>
    decreases us.len(),
{
    if us.len() == 0 {
        Seq::empty()
    } else {
        match broken_spec(us.last()) {
            Some(d) => broken_all(us.drop_last()).push(d),
            None => broken_all(us.drop_last()),
        }
    }
}

/// The number of references in `us` that are not shortcut links.
pub open spec fn non_shortcut_count(us: Seq<UnresolvedReference>) -> nat
    decreases us.len(),
{
    if us.len() == 0 {
        0
    } else {
        non_shortcut_count(us.drop_last()) + if us.last().reference is Shortcut {
            0nat
        } else {
            1nat
        }
    }
}

/// Every unresolved reference other than a shortcut link (a full `[text][label]` or
/// collapsed reference link, a wiki-link, an inline link) yields exactly one broken-link
/// diagnostic: there are as many diagnostics as such references, each is a DNL002, and
/// each such reference has one at its document and range.
pub proof fn lemma_broken_links_reported(us: Seq<UnresolvedReference>)
    ensures
        broken_all(us).len() == non_shortcut_count(us),
        forall|k: int| 0 <= k < broken_all(us).len() ==> (#[trigger] broken_all(us)[k]).3 == DiagnosticCode::DNL002,
        forall|i: int|
            0 <= i < us.len() && !((#[trigger] us[i]).reference is Shortcut) ==> exists|k: int|
                0 <= k < broken_all(us).len() && (#[trigger] broken_all(us)[k]).3 == DiagnosticCode::DNL002
                    && broken_all(us)[k].0 == us[i].source_path@ && broken_all(us)[k].1 == range_of(
                    us[i].name_range,
                    us[i].full_range,
                ),
    decreases us.len(),
{
    if us.len() > 0 {
        let prev = us.drop_last();
        lemma_broken_links_reported(prev);
        let b = broken_all(us);
        let bp = broken_all(prev);
        let u = us.last();
        assert forall|k: int| 0 <= k < b.len() implies (#[trigger] b[k]).3 == DiagnosticCode::DNL002 by {
            if k < bp.len() {
                assert(b[k] == bp[k]);
            }
        }
        assert forall|i: int| 0 <= i < us.len() && !((#[trigger] us[i]).reference is Shortcut) implies exists|k: int|
            0 <= k < b.len() && (#[trigger] b[k]).3 == DiagnosticCode::DNL002 && b[k].0 == us[i].source_path@
                && b[k].1 == range_of(us[i].name_range, us[i].full_range) by {
            if i < prev.len() {
                assert(prev[i] == us[i]);
                let k = choose|k: int|
                    0 <= k < bp.len() && (#[trigger] bp[k]).3 == DiagnosticCode::DNL002 && bp[k].0 == prev[i].source_path@
                        && bp[k].1 == range_of(prev[i].name_range, prev[i].full_range);
                assert(b[k] == bp[k]);
            } else {
                assert(b[bp.len() as int] == broken_spec(u).unwrap());
            }
        }
    }
}

pub open spec fn ambiguous_all(a: Seq<AmbiguousReference>) -> Seq<DiagView> {
    a.map_values(|r: AmbiguousReference| ambiguous_spec(r))
}

pub open spec fn nbsp_all(g: ConnectionGraph, n: int) -> Seq<DiagView>
    decreases n,
{
    if n <= 0 {
        Seq::empty()
    } else {
        nbsp_all(g, n - 1) + nbsp_spec(g.documents@[n - 1].path@, g.documents@[n - 1].structure.text@)
    }
}

pub open spec fn keep_at_least(ds: Seq<DiagView>, min: DiagnosticSeverity) -> Seq<DiagView>
    decreases ds.len(),
{
    if ds.len() == 0 {
        Seq::empty()
    } else if ds.last().2.spec_rank() >= min.spec_rank() {
        keep_at_least(ds.drop_last(), min).push(ds.last())
    } else {
        keep_at_least(ds.drop_last(), min)
    }
}

/// Everything reported for a graph: broken links, then ambiguous links, then
/// non-breaking spaces after heading markers, keeping those at least as severe as the
/// configured minimum.
pub open spec fn check_spec(g: ConnectionGraph, cfg: DiagnosticConfig) -> Seq<DiagView> {
    keep_at_least(
        broken_all(g.unresolved_references@) + ambiguous_all(g.ambiguous_references@) + nbsp_all(g, g.documents@.len() as int),
        cfg.min_severity,
    )
}

proof fn lemma_keep_twice(ds: Seq<DiagView>, a: DiagnosticSeverity, b: DiagnosticSeverity)
    requires
        a.spec_rank() <= b.spec_rank(),
    ensures
        keep_at_least(keep_at_least(ds, a), b) == keep_at_least(ds, b),
    decreases ds.len(),
{
    if ds.len() > 0 {
        lemma_keep_twice(ds.drop_last(), a, b);
        let inner = keep_at_least(ds.drop_last(), a);
        if ds.last().2.spec_rank() >= a.spec_rank() {
            assert(inner.push(ds.last()).drop_last() =~= inner);
        }
    }
}

proof fn lemma_keep_subset(ds: Seq<DiagView>, min: DiagnosticSeverity)
    ensures
        forall|d: DiagView| #[trigger] keep_at_least(ds, min).contains(d) ==> ds.contains(d),
        keep_at_least(ds, min).len() <= ds.len(),
    decreases ds.len(),
{
    if ds.len() > 0 {
        lemma_keep_subset(ds.drop_last(), min);
        let k = keep_at_least(ds, min);
        assert forall|d: DiagView| #[trigger] k.contains(d) implies ds.contains(d) by {
            let prev = keep_at_least(ds.drop_last(), min);
            let j = choose|j: int| 0 <= j < k.len() && k[j] == d;
            if j < prev.len() {
                assert(k[j] == prev[j]);
                assert(prev.contains(d));
                let m = choose|m: int| 0 <= m < ds.drop_last().len() && ds.drop_last()[m] == d;
                assert(ds[m] == d);
            } else {
                assert(d == ds.last());
                assert(ds[ds.len() - 1] == d);
            }
        }
    }
}

/// The minimum severity only filters: checking with a higher minimum gives what checking
/// with a lower one gives, less the diagnostics below the higher minimum, and no
/// diagnostic changes; so lowering the minimum never removes a diagnostic.
pub proof fn lemma_min_severity_filters(g: ConnectionGraph, low: DiagnosticConfig, high: DiagnosticConfig)
    requires
        low.min_severity.spec_rank() <= high.min_severity.spec_rank(),
    ensures
        check_spec(g, high) == keep_at_least(check_spec(g, low), high.min_severity),
        forall|d: DiagView| #[trigger] check_spec(g, high).contains(d) ==> check_spec(g, low).contains(d),
        check_spec(g, high).len() <= check_spec(g, low).len(),
{
    let all = broken_all(g.unresolved_references@) + ambiguous_all(g.ambiguous_references@) + nbsp_all(g, g.documents@.len() as int);
    lemma_keep_twice(all, low.min_severity, high.min_severity);
    lemma_keep_subset(check_spec(g, low), high.min_severity);
}

/// The texts of the graph's documents are well formed.
pub open spec fn texts_wf(g: ConnectionGraph) -> bool {
    forall|i: int| 0 <= i < g.documents@.len() ==> (#[trigger] g.documents@[i]).structure.text.wf()
}

/// Checks a graph for broken links, ambiguous links and non-breaking spaces after
/// heading markers, keeping what is at least as severe as `config` asks.
pub fn check_diagnostics(graph: &ConnectionGraph, config: &DiagnosticConfig) -> (r: Vec<Diagnostic>)
    requires
        texts_wf(*graph),
    ensures
        diag_views(r@) == check_spec(*graph, *config),
        forall|k: int| 0 <= k < r@.len() ==> (#[trigger] r@[k]).severity.spec_rank() >= config.min_severity.spec_rank(),
{
    let mut all: Vec<Diagnostic> = Vec::new();
    let mut i: usize = 0;
    while i < graph.unresolved_references.len()
        invariant
            i <= graph.unresolved_references@.len(),
            diag_views(all@) == broken_all(graph.unresolved_references@.take(i as int)),
        decreases graph.unresolved_references@.len() - i,
    {
        let ghost before = all@;
        assert(graph.unresolved_references@.take(i + 1).drop_last() =~= graph.unresolved_references@.take(i as int));
        match broken_link(&graph.unresolved_references[i]) {
            Some(d) => {
                all.push(d);
                assert(diag_views(all@) =~= diag_views(before).push(diag_view(d)));
            },
            None => {},
        }
        i += 1;
    }
    assert(graph.unresolved_references@.take(i as int) =~= graph.unresolved_references@);
    let ghost broken = diag_views(all@);
    let mut i: usize = 0;
    while i < graph.ambiguous_references.len()
        invariant
            i <= graph.ambiguous_references@.len(),
            diag_views(all@) == broken + ambiguous_all(graph.ambiguous_references@.take(i as int)),
        decreases graph.ambiguous_references@.len() - i,
    {
        let ghost before = all@;
        let d = ambiguous_link(&graph.ambiguous_references[i]);
        all.push(d);
        assert(diag_views(all@) =~= diag_views(before).push(diag_view(d)));
        assert(ambiguous_all(graph.ambiguous_references@.take(i + 1)) =~= ambiguous_all(graph.ambiguous_references@.take(i as int)).push(ambiguous_spec(graph.ambiguous_references@[i as int])));
        i += 1;
    }
    assert(graph.ambiguous_references@.take(i as int) =~= graph.ambiguous_references@);
    let ghost links = diag_views(all@);
    let mut i: usize = 0;
    while i < graph.documents.len()
        invariant
            i <= graph.documents@.len(),
            texts_wf(*graph),
            diag_views(all@) == links + nbsp_all(*graph, i as int),
        decreases graph.documents@.len() - i,
    {
        let doc = &graph.documents[i];
        assert(doc.structure.text.wf());
        let more = non_breaking_space(doc.path.as_str(), doc.structure.text.as_str());
        let mut k: usize = 0;
        let ghost start = diag_views(all@);
        while k < more.len()
            invariant
                k <= more@.len(),
                diag_views(all@) == start + diag_views(more@.take(k as int)),
            decreases more@.len() - k,
        {
            let ghost before = all@;
            let d = more[k].clone_diag();
            all.push(d);
            assert(diag_views(all@) =~= diag_views(before).push(diag_view(more@[k as int])));
            assert(diag_views(more@.take(k + 1)) =~= diag_views(more@.take(k as int)).push(diag_view(more@[k as int])));
            k += 1;
        }
        assert(more@.take(k as int) =~= more@);
        i += 1;
    }
    let ghost everything = diag_views(all@);
    let mut out: Vec<Diagnostic> = Vec::new();
    let mut k: usize = 0;
    while k < all.len()
        invariant
            k <= all@.len(),
            everything == diag_views(all@),
            diag_views(out@) == keep_at_least(everything.take(k as int), config.min_severity),
            forall|q: int| 0 <= q < out@.len() ==> (#[trigger] out@[q]).severity.spec_rank() >= config.min_severity.spec_rank(),
        decreases all@.len() - k,
    {
        assert(everything.take(k + 1).drop_last() =~= everything.take(k as int));
        if all[k].severity.at_least(config.min_severity) {
            let ghost before = out@;
            let d = all[k].clone_diag();
            out.push(d);
            assert(diag_views(out@) =~= diag_views(before).push(diag_view(d)));
        }
        k += 1;
    }
    assert(everything.take(k as int) =~= everything);
    out
}

impl Diagnostic {
    /// An equal copy.
    pub fn clone_diag(&self) -> (r: Self)
        ensures
            diag_view(r) == diag_view(*self),
    {
        let mut related: Vec<RelatedInformation> = Vec::new();
        let mut i: usize = 0;
        while i < self.related.len()
            invariant
                i <= self.related@.len(),
                related@.map_values(|r: RelatedInformation| related_view(r)) == self.related@.take(i as int).map_values(
                    |r: RelatedInformation| related_view(r),
                ),
            decreases self.related@.len() - i,
        {
            let ghost before = related@;
            related.push(RelatedInformation { path: self.related[i].path.clone(), message: self.related[i].message.clone() });
            assert(related@.map_values(|r: RelatedInformation| related_view(r)) =~= before.map_values(
                |r: RelatedInformation| related_view(r),
            ).push(related_view(self.related@[i as int])));
            assert(self.related@.take(i + 1).map_values(|r: RelatedInformation| related_view(r)) =~= self.related@.take(
                i as int,
            ).map_values(|r: RelatedInformation| related_view(r)).push(related_view(self.related@[i as int])));
            i += 1;
        }
        assert(self.related@.take(i as int) =~= self.related@);
        Diagnostic {
            path: self.path.clone(),
            range: self.range,
            severity: self.severity,
            code: self.code,
            message: self.message.clone(),
            related,
        }
    }
}

} // verus!
