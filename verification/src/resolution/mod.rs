pub mod conn;
pub mod matching;
pub mod path;
pub mod prefix;
pub mod refs;
pub mod slug;

pub use conn::{ConnectionGraph, DestinationKind as ResolveDestinationKind, ResolvedDestination as ResolveDestination};
pub use slug::Slug;

use crate::config::{config_same, copy_strings, Config};
use crate::parser::{parse_document, parsed, ParseOptions};
use crate::resolution::prefix::entries_view;
use crate::utils::workspace::{Workspace, WorkspaceMode};
use crate::parser::symbols::{Def, LinkLabel, Ref, SymKind, SymbolOccurrence};
use crate::parser::Structure;
use crate::resolution::conn::{
    def_pairs, dv, dvs, heading_pairs, lookup_key, rdoc_spec, rdoc_specs, tag_pairs, AmbiguousReference,
    DestView, DestinationKind, DocSpec, Pairs, ResolvedDestination, ResolvedDocument, ResolvedReference,
    UnresolvedReference,
};
use crate::resolution::refs::{opt_strings, outcome_view, ref_log_ok, ref_spec, resolve_ref, Env, FsAnswer, Outcome, OutcomeView};
use crate::utils::text::ByteRange;
use crate::resolution::path::{file_stem_chars, spec_file_stem};
use crate::resolution::prefix::{lemma_indexes_agree, strings_view, PrefixIndex};
use crate::resolution::slug::spec_slug;
use crate::utils::strs::{chars_of, string_of};
use vstd::prelude::*;

verus! {

/// A document to resolve: where it lies and what it holds.
#[derive(Clone, Debug)]
pub struct ResolveDocument {
    pub path: String,
    pub rel_path: String,
    pub structure: Structure,
}

/// The file stem of a path, or nothing when it has none.
pub open spec fn spec_stem(p: Seq<char>) -> Seq<char> {
    match spec_file_stem(p) {
        Some(s) => s,
        None => Seq::empty(),
    }
}

pub fn stem_of(p: &str) -> (r: String)
    ensures
        r@ == spec_stem(p@),
{
    match file_stem_chars(&chars_of(p)) {
        Some(s) => string_of(&s),
        None => String::new(),
    }
}

impl ResolveDocument {
    /// File stem: the file name without its extension; empty when the path has no file
    /// name.
    pub fn stem(&self) -> (r: String)
        ensures
            r@ == spec_stem(self.path@),
    {
        stem_of(self.path.as_str())
    }
}

/// What resolution works on: the workspace root, its documents, the documents of extra
/// folders and those folders, the configuration, whether a single file is checked, and a
/// prefix index over the file stems of all documents.
#[derive(Clone, Debug)]
pub struct ResolveInput {
    pub root: String,
    pub documents: Vec<ResolveDocument>,
    pub extra_documents: Vec<ResolveDocument>,
    pub extra_folder_roots: Vec<String>,
    pub config: Config,
    pub single_file: bool,
    pub prefix_index: PrefixIndex,
}

/// The destinations that the symbols of a document at `path` define under heading slugs.
pub open spec fn heading_pairs_of(path: Seq<char>, syms: Seq<SymbolOccurrence>) -> Pairs
    decreases syms.len(),
{
    if syms.len() == 0 {
        Seq::empty()
    } else {
        let prev = heading_pairs_of(path, syms.drop_last());
        let s = syms.last();
        match s.kind {
            SymKind::Def(Def::Title(name)) => prev.push(
                (spec_slug(name@), (path, DestinationKind::Heading, name@, s.name_range)),
            ),
            SymKind::Def(Def::Header(_, slug)) => prev.push(
                (slug@, (path, DestinationKind::Heading, slug@, s.name_range)),
            ),
            _ => prev,
        }
    }
}

/// The destinations that the symbols define under link labels.
pub open spec fn def_pairs_of(path: Seq<char>, syms: Seq<SymbolOccurrence>) -> Pairs
    decreases syms.len(),
{
    if syms.len() == 0 {
        Seq::empty()
    } else {
        let prev = def_pairs_of(path, syms.drop_last());
        let s = syms.last();
        match s.kind {
            SymKind::Def(Def::LinkDef(label)) => prev.push(
                (label.0@, (path, DestinationKind::LinkDefinition, label.0@, s.name_range)),
            ),
            _ => prev,
        }
    }
}

/// The destinations that the symbols define under tag names.
pub open spec fn tag_pairs_of(path: Seq<char>, syms: Seq<SymbolOccurrence>) -> Pairs
    decreases syms.len(),
{
    if syms.len() == 0 {
        Seq::empty()
    } else {
        let prev = tag_pairs_of(path, syms.drop_last());
        let s = syms.last();
        match s.kind {
            SymKind::Tag(t) => prev.push((t.name@, (path, DestinationKind::Tag, t.name@, s.name_range))),
            _ => prev,
        }
    }
}

/// The title of a document: its first title heading, or else its file stem.
pub open spec fn title_of(d: ResolveDocument) -> Seq<char> {
    if d.structure.index.titles@.len() > 0 {
        d.structure.index.titles@[0].title.text@
    } else {
        spec_stem(d.path@)
    }
}

/// What indexing a document yields, as plain values.
pub open spec fn input_doc_spec(d: ResolveDocument) -> DocSpec {
    DocSpec {
        path: d.path@,
        rel_path: d.rel_path@,
        file_stem: spec_stem(d.path@),
        title_text: title_of(d),
        title_slug: spec_slug(title_of(d)),
        headings: heading_pairs_of(d.path@, d.structure.symbols@),
        tags: tag_pairs_of(d.path@, d.structure.symbols@),
        defs: def_pairs_of(d.path@, d.structure.symbols@),
        symbols: d.structure.symbols@,
    }
}

pub open spec fn input_doc_specs(v: Seq<ResolveDocument>) -> Seq<DocSpec> {
    v.map_values(|d: ResolveDocument| input_doc_spec(d))
}

/// Files each destination that a symbol defines under its key.
fn index_document(doc: ResolveDocument) -> (r: ResolvedDocument)
    ensures
        rdoc_spec(r) == input_doc_spec(doc),
        r.structure == doc.structure,
{
    let file_stem = stem_of(doc.path.as_str());
    let title_text = if doc.structure.index.titles.len() > 0 {
        doc.structure.index.titles[0].title.text.clone()
    } else {
        file_stem.clone()
    };
    let title_slug = Slug::from_heading_text(title_text.as_str());
    let ghost path = doc.path@;
    let ghost syms = doc.structure.symbols@;
    let mut link_defs: Vec<(LinkLabel, ResolvedDestination)> = Vec::new();
    let mut headings: Vec<(Slug, ResolvedDestination)> = Vec::new();
    let mut tags: Vec<(String, ResolvedDestination)> = Vec::new();
    let mut i: usize = 0;
    while i < doc.structure.symbols.len()
        invariant
            i <= syms.len(),
            syms == doc.structure.symbols@,
            path == doc.path@,
            headings@.map_values(|p: (Slug, ResolvedDestination)| (p.0@, dv(p.1))) == heading_pairs_of(path, syms.take(i as int)),
            tags@.map_values(|p: (String, ResolvedDestination)| (p.0@, dv(p.1))) == tag_pairs_of(path, syms.take(i as int)),
            link_defs@.map_values(|p: (LinkLabel, ResolvedDestination)| (p.0@, dv(p.1))) == def_pairs_of(path, syms.take(i as int)),
        decreases syms.len() - i,
    {
        let ghost hv = headings@;
        let ghost tv = tags@;
        let ghost lv = link_defs@;
        assert(syms.take(i + 1).drop_last() =~= syms.take(i as int));
        assert(syms.take(i + 1).last() == syms[i as int]);
        let symbol = &doc.structure.symbols[i];
        match &symbol.kind {
            SymKind::Def(Def::Title(name)) => {
                let slug = Slug::from_heading_text(name.as_str());
                headings.push(
                    (
                        slug,
                        ResolvedDestination {
                            path: doc.path.clone(),
                            kind: DestinationKind::Heading,
                            name: name.clone(),
                            range: symbol.name_range,
                        },
                    ),
                );
                assert(headings@.map_values(|p: (Slug, ResolvedDestination)| (p.0@, dv(p.1))) =~= hv.map_values(
                    |p: (Slug, ResolvedDestination)| (p.0@, dv(p.1)),
                ).push((spec_slug(name@), (path, DestinationKind::Heading, name@, symbol.name_range))));
            },
            SymKind::Def(Def::Header(_, slug)) => {
                let name = String::from_str(slug.as_str());
                headings.push(
                    (
                        slug.duplicate(),
                        ResolvedDestination {
                            path: doc.path.clone(),
                            kind: DestinationKind::Heading,
                            name,
                            range: symbol.name_range,
                        },
                    ),
                );
                assert(headings@.map_values(|p: (Slug, ResolvedDestination)| (p.0@, dv(p.1))) =~= hv.map_values(
                    |p: (Slug, ResolvedDestination)| (p.0@, dv(p.1)),
                ).push((slug@, (path, DestinationKind::Heading, slug@, symbol.name_range))));
            },
            SymKind::Def(Def::LinkDef(label)) => {
                link_defs.push(
                    (
                        LinkLabel(label.0.clone()),
                        ResolvedDestination {
                            path: doc.path.clone(),
                            kind: DestinationKind::LinkDefinition,
                            name: label.0.clone(),
                            range: symbol.name_range,
                        },
                    ),
                );
                assert(link_defs@.map_values(|p: (LinkLabel, ResolvedDestination)| (p.0@, dv(p.1))) =~= lv.map_values(
                    |p: (LinkLabel, ResolvedDestination)| (p.0@, dv(p.1)),
                ).push((label.0@, (path, DestinationKind::LinkDefinition, label.0@, symbol.name_range))));
            },
            SymKind::Tag(tag) => {
                tags.push(
                    (
                        tag.name.clone(),
                        ResolvedDestination {
                            path: doc.path.clone(),
                            kind: DestinationKind::Tag,
                            name: tag.name.clone(),
                            range: symbol.name_range,
                        },
                    ),
                );
                assert(tags@.map_values(|p: (String, ResolvedDestination)| (p.0@, dv(p.1))) =~= tv.map_values(
                    |p: (String, ResolvedDestination)| (p.0@, dv(p.1)),
                ).push((tag.name@, (path, DestinationKind::Tag, tag.name@, symbol.name_range))));
            },
            _ => {},
        }
        i += 1;
    }
    assert(syms.take(i as int) =~= syms);
    let r = ResolvedDocument {
        path: doc.path,
        rel_path: doc.rel_path,
        structure: doc.structure,
        title_slug,
        title_text,
        file_stem,
        link_defs,
        headings,
        tags,
    };
    assert(rdoc_spec(r) =~= input_doc_spec(doc));
    r
}

/// Indexes each document, in order.
fn index_all(docs: Vec<ResolveDocument>) -> (r: Vec<ResolvedDocument>)
    ensures
        rdoc_specs(r@) == input_doc_specs(docs@),
        r@.len() == docs@.len(),
        forall|k: int| 0 <= k < r@.len() ==> (#[trigger] r@[k]).structure == docs@[k].structure,
{
    let ghost all = docs@;
    assert(all.len() == docs.len());
    let mut docs = docs;
    let mut out: Vec<ResolvedDocument> = Vec::new();
    let mut k: usize = 0;
    while docs.len() > 0
        invariant
            k <= all.len(),
            all.len() <= usize::MAX,
            all.len() == docs@.len() + k,
            docs@ == all.skip(k as int),
            rdoc_specs(out@) == input_doc_specs(all.take(k as int)),
            out@.len() == k,
            forall|q: int| 0 <= q < k ==> (#[trigger] out@[q]).structure == all[q].structure,
        decreases docs@.len(),
    {
        let ghost before = out@;
        let d = docs.remove(0);
        assert(d == all[k as int]);
        let rd = index_document(d);
        out.push(rd);
        assert(rdoc_specs(out@) =~= rdoc_specs(before).push(rdoc_spec(rd)));
        assert(input_doc_specs(all.take(k + 1)) =~= input_doc_specs(all.take(k as int)).push(input_doc_spec(all[k as int])));
        assert(docs@ =~= all.skip(k + 1));
        k += 1;
    }
    assert(all.take(k as int) =~= all);
    out
}

/// A reported reference: its document's path, its occurrence id, its ranges and the
/// reference itself.
pub type RefKey = (Seq<char>, u32, ByteRange, Option<ByteRange>, Ref);

pub open spec fn ref_of(k: SymKind) -> Ref {
    match k {
        SymKind::Ref(r) => r,
        _ => vstd::pervasive::arbitrary(),
    }
}

pub open spec fn ref_key(doc: DocSpec, sym: SymbolOccurrence) -> RefKey {
    (doc.path, sym.id, sym.full_range, sym.name_range, ref_of(sym.kind))
}

/// The outcomes of the first symbols of `doc`, one for each answer, leaving out what is
/// not reported.
pub open spec fn doc_reports(env: Env, primary: Seq<DocSpec>, extra: Seq<DocSpec>, doc: DocSpec, ans: Seq<FsAnswer>) -> Seq<(RefKey, OutcomeView)>
    decreases ans.len(),
{
    if ans.len() == 0 {
        Seq::empty()
    } else {
        let prev = doc_reports(env, primary, extra, doc, ans.drop_last());
        let sym = doc.symbols[ans.len() - 1];
        let o = ref_spec(env, primary, extra, doc, sym, ans.last());
        if o is Skip {
            prev
        } else {
            prev.push((ref_key(doc, sym), o))
        }
    }
}

/// The outcomes of the references of the first documents, one answer list per document.
pub open spec fn all_reports(env: Env, primary: Seq<DocSpec>, extra: Seq<DocSpec>, answers: Seq<Seq<FsAnswer>>) -> Seq<(RefKey, OutcomeView)>
    decreases answers.len(),
{
    if answers.len() == 0 {
        Seq::empty()
    } else {
        all_reports(env, primary, extra, answers.drop_last()) + doc_reports(
            env,
            primary,
            extra,
            primary[answers.len() - 1],
            answers.last(),
        )
    }
}

pub open spec fn resolved_of(reps: Seq<(RefKey, OutcomeView)>) -> Seq<(RefKey, Seq<DestView>)>
    decreases reps.len(),
{
    if reps.len() == 0 {
        Seq::empty()
    } else {
        match reps.last().1 {
            OutcomeView::Resolved(d) => resolved_of(reps.drop_last()).push((reps.last().0, d)),
            _ => resolved_of(reps.drop_last()),
        }
    }
}

pub open spec fn unresolved_of(reps: Seq<(RefKey, OutcomeView)>) -> Seq<(RefKey, Seq<char>, Option<Seq<Seq<char>>>)>
    decreases reps.len(),
{
    if reps.len() == 0 {
        Seq::empty()
    } else {
        match reps.last().1 {
            OutcomeView::Unresolved(t, h) => unresolved_of(reps.drop_last()).push((reps.last().0, t, h)),
            _ => unresolved_of(reps.drop_last()),
        }
    }
}

pub open spec fn ambiguous_of(reps: Seq<(RefKey, OutcomeView)>) -> Seq<(RefKey, Seq<char>, Seq<DestView>)>
    decreases reps.len(),
{
    if reps.len() == 0 {
        Seq::empty()
    } else {
        match reps.last().1 {
            OutcomeView::Ambiguous(t, d) => ambiguous_of(reps.drop_last()).push((reps.last().0, t, d)),
            _ => ambiguous_of(reps.drop_last()),
        }
    }
}

pub open spec fn res_view(r: ResolvedReference) -> (RefKey, Seq<DestView>) {
    ((r.source_path@, r.occurrence_id, r.full_range, r.name_range, r.reference), dvs(r.destinations@))
}

pub open spec fn unres_view(u: UnresolvedReference) -> (RefKey, Seq<char>, Option<Seq<Seq<char>>>) {
    ((u.source_path@, u.occurrence_id, u.full_range, u.name_range, u.reference), u.target@, opt_strings(u.hint_payload))
}

pub open spec fn amb_view(a: AmbiguousReference) -> (RefKey, Seq<char>, Seq<DestView>) {
    ((a.source_path@, a.occurrence_id, a.full_range, a.name_range, a.reference), a.target@, dvs(a.destinations@))
}

pub open spec fn env_of(input: ResolveInput) -> Env {
    Env {
        root: input.root,
        extra_roots: input.extra_folder_roots,
        obsidian_prefix: input.config.wiki.obsidian_prefix,
        single_file: input.single_file,
        index: input.prefix_index,
    }
}

/// The three lists of `g` are what the outcomes `reps` give, in order.
pub open spec fn lists_match(g: ConnectionGraph, reps: Seq<(RefKey, OutcomeView)>) -> bool {
    &&& g.resolved_references@.map_values(|r: ResolvedReference| res_view(r)) == resolved_of(reps)
    &&& g.unresolved_references@.map_values(|u: UnresolvedReference| unres_view(u)) == unresolved_of(reps)
    &&& g.ambiguous_references@.map_values(|a: AmbiguousReference| amb_view(a)) == ambiguous_of(reps)
}

/// Each answer records what resolving its symbol asked the file system and was told.
pub open spec fn answers_logged(env: Env, primary: Seq<DocSpec>, extra: Seq<DocSpec>, answers: Seq<Seq<FsAnswer>>) -> bool {
    forall|i: int, k: int|
        0 <= i < answers.len() && 0 <= k < answers[i].len() ==> ref_log_ok(
            env,
            primary,
            extra,
            primary[i],
            primary[i].symbols[k],
            #[trigger] answers[i][k],
        )
}

/// Each answer list covers the symbols of its document.
pub open spec fn answers_fit(primary: Seq<DocSpec>, answers: Seq<Seq<FsAnswer>>) -> bool {
    &&& answers.len() == primary.len()
    &&& forall|i: int| 0 <= i < answers.len() ==> (#[trigger] answers[i]).len() == primary[i].symbols.len()
}

pub proof fn lemma_outcome_sizes(env: Env, primary: Seq<DocSpec>, extra: Seq<DocSpec>, doc: DocSpec, sym: SymbolOccurrence, ans: FsAnswer)
    ensures
        ref_spec(env, primary, extra, doc, sym, ans) matches OutcomeView::Resolved(d) ==> d.len() >= 1,
        ref_spec(env, primary, extra, doc, sym, ans) matches OutcomeView::Ambiguous(_, d) ==> d.len() >= 2,
{
}

/// No report is a skip.
pub open spec fn reports_reported(reps: Seq<(RefKey, OutcomeView)>) -> bool {
    forall|k: int| 0 <= k < reps.len() ==> !(#[trigger] reps[k].1 is Skip)
}

proof fn lemma_doc_reports_reported(env: Env, primary: Seq<DocSpec>, extra: Seq<DocSpec>, doc: DocSpec, ans: Seq<FsAnswer>)
    ensures
        reports_reported(doc_reports(env, primary, extra, doc, ans)),
    decreases ans.len(),
{
    if ans.len() > 0 {
        lemma_doc_reports_reported(env, primary, extra, doc, ans.drop_last());
    }
}

proof fn lemma_all_reports_reported(env: Env, primary: Seq<DocSpec>, extra: Seq<DocSpec>, answers: Seq<Seq<FsAnswer>>)
    ensures
        reports_reported(all_reports(env, primary, extra, answers)),
    decreases answers.len(),
{
    if answers.len() > 0 {
        lemma_all_reports_reported(env, primary, extra, answers.drop_last());
        lemma_doc_reports_reported(env, primary, extra, primary[answers.len() - 1], answers.last());
        let a = all_reports(env, primary, extra, answers.drop_last());
        let b = doc_reports(env, primary, extra, primary[answers.len() - 1], answers.last());
        assert forall|k: int| 0 <= k < (a + b).len() implies !(#[trigger] (a + b)[k].1 is Skip) by {
            if k < a.len() {
                assert((a + b)[k] == a[k]);
            } else {
                assert((a + b)[k] == b[k - a.len()]);
            }
        }
    }
}

/// Each report falls in exactly one of the three lists.
pub proof fn lemma_reports_partition(reps: Seq<(RefKey, OutcomeView)>)
    requires
        reports_reported(reps),
    ensures
        resolved_of(reps).len() + unresolved_of(reps).len() + ambiguous_of(reps).len() == reps.len(),
    decreases reps.len(),
{
    if reps.len() > 0 {
        let prev = reps.drop_last();
        assert forall|k: int| 0 <= k < prev.len() implies !(#[trigger] prev[k].1 is Skip) by {
            assert(prev[k] == reps[k]);
        }
        lemma_reports_partition(prev);
        assert(!(reps[reps.len() - 1].1 is Skip));
    }
}

/// Every reference that resolution reports lands in exactly one of the graph's three
/// lists: for some answers of the file system, the lists hold as many references
/// together as there are reports.
pub proof fn lemma_graph_partition(input: ResolveInput, g: ConnectionGraph)
    requires
        resolves(input, g),
    ensures
        exists|answers: Seq<Seq<FsAnswer>>|
            answers_fit(input_doc_specs(input.documents@), answers) && lists_match(
                g,
                all_reports(env_of(input), input_doc_specs(input.documents@), input_doc_specs(input.extra_documents@), answers),
            ) && g.resolved_references@.len() + g.unresolved_references@.len() + g.ambiguous_references@.len()
                == all_reports(env_of(input), input_doc_specs(input.documents@), input_doc_specs(input.extra_documents@), answers).len(),
{
    let answers = choose|answers: Seq<Seq<FsAnswer>>|
        answers_fit(input_doc_specs(input.documents@), answers) && lists_match(
            g,
            all_reports(env_of(input), input_doc_specs(input.documents@), input_doc_specs(input.extra_documents@), answers),
        );
    let reps = all_reports(env_of(input), input_doc_specs(input.documents@), input_doc_specs(input.extra_documents@), answers);
    lemma_all_reports_reported(env_of(input), input_doc_specs(input.documents@), input_doc_specs(input.extra_documents@), answers);
    lemma_reports_partition(reps);
    assert(g.resolved_references@.map_values(|r: ResolvedReference| res_view(r)).len() == g.resolved_references@.len());
    assert(g.unresolved_references@.map_values(|u: UnresolvedReference| unres_view(u)).len() == g.unresolved_references@.len());
    assert(g.ambiguous_references@.map_values(|a: AmbiguousReference| amb_view(a)).len() == g.ambiguous_references@.len());
}

/// The three lists of reported references under construction.
struct Reports {
    resolved: Vec<ResolvedReference>,
    unresolved: Vec<UnresolvedReference>,
    ambiguous: Vec<AmbiguousReference>,
}

/// The lists hold what `reps` gives, resolved references with a destination and
/// ambiguous ones with two or more.
spec fn reports_ok(r: Reports, reps: Seq<(RefKey, OutcomeView)>) -> bool {
    &&& r.resolved@.map_values(|x: ResolvedReference| res_view(x)) == resolved_of(reps)
    &&& r.unresolved@.map_values(|u: UnresolvedReference| unres_view(u)) == unresolved_of(reps)
    &&& r.ambiguous@.map_values(|a: AmbiguousReference| amb_view(a)) == ambiguous_of(reps)
    &&& forall|k: int| 0 <= k < r.resolved@.len() ==> (#[trigger] r.resolved@[k]).destinations@.len() >= 1
    &&& forall|k: int| 0 <= k < r.ambiguous@.len() ==> (#[trigger] r.ambiguous@[k]).destinations@.len() >= 2
}

/// Files the outcome of `sym` in the list it belongs to.
fn record(
    reports: &mut Reports,
    o: Outcome,
    doc: &ResolvedDocument,
    sym: &SymbolOccurrence,
    Ghost(reps): Ghost<Seq<(RefKey, OutcomeView)>>,
    Ghost(dspec): Ghost<DocSpec>,
)
    requires
        reports_ok(*old(reports), reps),
        dspec == rdoc_spec(*doc),
        !(outcome_view(o) is Skip) ==> sym.kind is Ref,
        outcome_view(o) matches OutcomeView::Resolved(d) ==> d.len() >= 1,
        outcome_view(o) matches OutcomeView::Ambiguous(_, d) ==> d.len() >= 2,
    ensures
        reports_ok(
            *final(reports),
            if outcome_view(o) is Skip {
                reps
            } else {
                reps.push((ref_key(dspec, *sym), outcome_view(o)))
            },
        ),
{
    let ghost ov = outcome_view(o);
    let ghost reps2 = reps.push((ref_key(dspec, *sym), ov));
    assert(reps2.drop_last() =~= reps);
    let ghost rv = reports.resolved@;
    let ghost uv = reports.unresolved@;
    let ghost av = reports.ambiguous@;
    match o {
        Outcome::Skip => {},
        Outcome::Resolved(d) => {
            let reference = match &sym.kind {
                SymKind::Ref(r) => r.duplicate(),
                _ => Ref::Shortcut { label: LinkLabel(String::new()) },
            };
            reports.resolved.push(ResolvedReference {
                source_path: doc.path.clone(),
                occurrence_id: sym.id,
                full_range: sym.full_range,
                name_range: sym.name_range,
                reference,
                destinations: d,
            });
            assert(reports.resolved@.map_values(|x: ResolvedReference| res_view(x)) =~= rv.map_values(
                |x: ResolvedReference| res_view(x),
            ).push(res_view(reports.resolved@.last())));
        },
        Outcome::Unresolved(t, h) => {
            let reference = match &sym.kind {
                SymKind::Ref(r) => r.duplicate(),
                _ => Ref::Shortcut { label: LinkLabel(String::new()) },
            };
            reports.unresolved.push(UnresolvedReference {
                source_path: doc.path.clone(),
                occurrence_id: sym.id,
                full_range: sym.full_range,
                name_range: sym.name_range,
                reference,
                target: t,
                hint_payload: h,
            });
            assert(reports.unresolved@.map_values(|u: UnresolvedReference| unres_view(u)) =~= uv.map_values(
                |u: UnresolvedReference| unres_view(u),
            ).push(unres_view(reports.unresolved@.last())));
        },
        Outcome::Ambiguous(t, d) => {
            let reference = match &sym.kind {
                SymKind::Ref(r) => r.duplicate(),
                _ => Ref::Shortcut { label: LinkLabel(String::new()) },
            };
            reports.ambiguous.push(AmbiguousReference {
                source_path: doc.path.clone(),
                occurrence_id: sym.id,
                full_range: sym.full_range,
                name_range: sym.name_range,
                reference,
                target: t,
                destinations: d,
            });
            assert(reports.ambiguous@.map_values(|a: AmbiguousReference| amb_view(a)) =~= av.map_values(
                |a: AmbiguousReference| amb_view(a),
            ).push(amb_view(reports.ambiguous@.last())));
        },
    }
}

/// Resolves the references of one document, filing each outcome.
fn resolve_document(
    env: &Env,
    primary: &Vec<ResolvedDocument>,
    extra: &Vec<ResolvedDocument>,
    i: usize,
    reports: &mut Reports,
    Ghost(base): Ghost<Seq<(RefKey, OutcomeView)>>,
) -> (ans: Ghost<Seq<FsAnswer>>)
    requires
        i < primary@.len(),
        env.index.inv(),
        reports_ok(*old(reports), base),
    ensures
        ans@.len() == primary@[i as int].structure.symbols@.len(),
        forall|k: int|
            0 <= k < ans@.len() ==> ref_log_ok(
                *env,
                rdoc_specs(primary@),
                rdoc_specs(extra@),
                rdoc_spec(primary@[i as int]),
                rdoc_spec(primary@[i as int]).symbols[k],
                #[trigger] ans@[k],
            ),
        reports_ok(
            *final(reports),
            base + doc_reports(*env, rdoc_specs(primary@), rdoc_specs(extra@), rdoc_spec(primary@[i as int]), ans@),
        ),
{
    let doc = &primary[i];
    let ghost e = *env;
    let ghost pspec = rdoc_specs(primary@);
    let ghost xspec = rdoc_specs(extra@);
    let ghost dspec = rdoc_spec(*doc);
    let ghost mut doc_ans: Seq<FsAnswer> = Seq::empty();
    assert(base + doc_reports(e, pspec, xspec, dspec, doc_ans) =~= base);
    let mut j: usize = 0;
    while j < doc.structure.symbols.len()
        invariant
            j <= doc.structure.symbols@.len(),
            e == *env,
            env.index.inv(),
            pspec == rdoc_specs(primary@),
            xspec == rdoc_specs(extra@),
            dspec == rdoc_spec(*doc),
            doc_ans.len() == j,
            forall|k: int| 0 <= k < j ==> ref_log_ok(e, pspec, xspec, dspec, dspec.symbols[k], #[trigger] doc_ans[k]),
            reports_ok(*reports, base + doc_reports(e, pspec, xspec, dspec, doc_ans)),
        decreases doc.structure.symbols@.len() - j,
    {
        let sym = &doc.structure.symbols[j];
        let (o, g) = resolve_ref(env, primary.as_slice(), extra.as_slice(), doc, sym);
        let ghost new_ans = doc_ans.push(g@);
        proof {
            lemma_outcome_sizes(e, pspec, xspec, dspec, *sym, g@);
            assert(new_ans.drop_last() =~= doc_ans);
            assert(dspec.symbols[new_ans.len() - 1] == *sym);
        }
        let ghost prev = base + doc_reports(e, pspec, xspec, dspec, doc_ans);
        record(reports, o, doc, sym, Ghost(prev), Ghost(dspec));
        proof {
            if outcome_view(o) is Skip {
                assert(base + doc_reports(e, pspec, xspec, dspec, new_ans) == prev);
            } else {
                assert(base + doc_reports(e, pspec, xspec, dspec, new_ans) =~= prev.push((ref_key(dspec, *sym), outcome_view(o))));
            }
            doc_ans = new_ans;
        }
        j += 1;
    }
    Ghost(doc_ans)
}

/// `g` is what resolving `input` gives: its documents are those of the input, indexed,
/// and each reference that is reported lands in exactly one of the three lists, in
/// document order, with what the file system answered deciding folder links and
/// attachments; each answer records the paths asked about (the folder candidates in turn,
/// the resolved attachment path) and what came back.
pub open spec fn resolves(input: ResolveInput, g: ConnectionGraph) -> bool {
    &&& rdoc_specs(g.documents@) == input_doc_specs(input.documents@)
    &&& g.documents@.len() == input.documents@.len()
    &&& forall|k: int| 0 <= k < g.documents@.len() ==> (#[trigger] g.documents@[k]).structure == input.documents@[k].structure
    &&& exists|answers: Seq<Seq<FsAnswer>>|
        answers_fit(input_doc_specs(input.documents@), answers) && answers_logged(
            env_of(input),
            input_doc_specs(input.documents@),
            input_doc_specs(input.extra_documents@),
            answers,
        ) && lists_match(
            g,
            all_reports(env_of(input), input_doc_specs(input.documents@), input_doc_specs(input.extra_documents@), answers),
        )
    &&& forall|k: int| 0 <= k < g.resolved_references@.len() ==> (#[trigger] g.resolved_references@[k]).destinations@.len() >= 1
    &&& forall|k: int| 0 <= k < g.ambiguous_references@.len() ==> (#[trigger] g.ambiguous_references@[k]).destinations@.len() >= 2
}

/// Resolves every reference of the documents.
pub fn resolve_links(input: ResolveInput) -> (g: ConnectionGraph)
    requires
        input.prefix_index.inv(),
    ensures
        resolves(input, g),
{
    let ghost e = env_of(input);
    let ghost pspec = input_doc_specs(input.documents@);
    let ghost xspec = input_doc_specs(input.extra_documents@);
    let ghost in_docs = input.documents@;
    let ResolveInput { root, documents, extra_documents, extra_folder_roots, config, single_file, prefix_index } = input;
    let primary = index_all(documents);
    let extra = index_all(extra_documents);
    let env = Env { root, extra_roots: extra_folder_roots, obsidian_prefix: config.wiki.obsidian_prefix, single_file, index: prefix_index };
    assert(env == e);
    let mut reports = Reports { resolved: Vec::new(), unresolved: Vec::new(), ambiguous: Vec::new() };
    let ghost mut answers: Seq<Seq<FsAnswer>> = Seq::empty();
    proof {
        assert(reports.resolved@.map_values(|x: ResolvedReference| res_view(x)) =~= resolved_of(Seq::empty()));
        assert(reports.unresolved@.map_values(|u: UnresolvedReference| unres_view(u)) =~= unresolved_of(Seq::empty()));
        assert(reports.ambiguous@.map_values(|a: AmbiguousReference| amb_view(a)) =~= ambiguous_of(Seq::empty()));
    }
    let mut i: usize = 0;
    while i < primary.len()
        invariant
            i <= primary@.len(),
            env == e,
            env.index.inv(),
            rdoc_specs(primary@) == pspec,
            rdoc_specs(extra@) == xspec,
            primary@.len() == in_docs.len(),
            forall|k: int| 0 <= k < primary@.len() ==> (#[trigger] primary@[k]).structure == in_docs[k].structure,
            answers.len() == i,
            forall|q: int| 0 <= q < i ==> (#[trigger] answers[q]).len() == pspec[q].symbols.len(),
            answers_logged(e, pspec, xspec, answers),
            reports_ok(reports, all_reports(e, pspec, xspec, answers)),
        decreases primary@.len() - i,
    {
        let ghost base = all_reports(e, pspec, xspec, answers);
        let a = resolve_document(&env, &primary, &extra, i, &mut reports, Ghost(base));
        proof {
            assert(pspec[i as int] == rdoc_spec(primary@[i as int]));
            let new_answers = answers.push(a@);
            assert(new_answers.drop_last() =~= answers);
            assert forall|q: int, k: int| 0 <= q < new_answers.len() && 0 <= k < new_answers[q].len() implies ref_log_ok(
                e,
                pspec,
                xspec,
                pspec[q],
                pspec[q].symbols[k],
                #[trigger] new_answers[q][k],
            ) by {
                if q < i {
                    assert(new_answers[q] == answers[q]);
                }
            }
            assert(all_reports(e, pspec, xspec, new_answers) == base + doc_reports(e, pspec, xspec, pspec[i as int], a@));
            answers = new_answers;
        }
        i += 1;
    }
    let g = ConnectionGraph {
        documents: primary,
        resolved_references: reports.resolved,
        unresolved_references: reports.unresolved,
        ambiguous_references: reports.ambiguous,
    };
    assert(answers_fit(pspec, answers));
    assert(answers_logged(e, pspec, xspec, answers));
    assert(lists_match(g, all_reports(e, pspec, xspec, answers)));
    g
}

/// The stem and path of each document, in order.
pub open spec fn stem_entries(docs: Seq<ResolveDocument>) -> Seq<(Seq<char>, Seq<char>)> {
    docs.map_values(|d: ResolveDocument| (spec_stem(d.path@), d.path@))
}

pub open spec fn parse_options_of(c: Config) -> ParseOptions {
    ParseOptions { title_from_heading: c.core.title_from_heading, heading_ids: c.core.heading_ids.enable }
}

/// Every document of the workspace has a well-formed text of a size that parsing can
/// number.
pub open spec fn workspace_ok(w: Workspace) -> bool {
    forall|i: int|
        0 <= i < w.folder.documents@.len() ==> (#[trigger] w.folder.documents@[i]).text.wf() && 4
            * w.folder.documents@[i].text@.len() + 2 <= u32::MAX
}

fn push_entries(entries: &mut Vec<(String, String)>, docs: &Vec<ResolveDocument>)
    ensures
        entries_view(final(entries)@) == entries_view(old(entries)@) + stem_entries(docs@),
{
    let ghost start = entries_view(entries@);
    let mut i: usize = 0;
    while i < docs.len()
        invariant
            i <= docs@.len(),
            entries_view(entries@) == start + stem_entries(docs@.take(i as int)),
        decreases docs@.len() - i,
    {
        let ghost before = entries@;
        entries.push((docs[i].stem(), docs[i].path.clone()));
        assert(entries_view(entries@) =~= entries_view(before).push((spec_stem(docs@[i as int].path@), docs@[i as int].path@)));
        assert(stem_entries(docs@.take(i + 1)) =~= stem_entries(docs@.take(i as int)).push((spec_stem(docs@[i as int].path@), docs@[i as int].path@)));
        i += 1;
    }
    assert(docs@.take(i as int) =~= docs@);
}

/// `r` is the input for resolving workspace `w` with the extra documents `extra`.
pub open spec fn input_of(r: ResolveInput, w: Workspace, extra: Seq<ResolveDocument>) -> bool {
    &&& r.root@ == w.folder.root@
    &&& r.documents@.len() == w.folder.documents@.len()
    &&& forall|k: int|
        0 <= k < r.documents@.len() ==> {
            let d = #[trigger] r.documents@[k];
            let wd = w.folder.documents@[k];
            &&& d.path@ == wd.path@
            &&& d.rel_path@ == wd.rel_path@
            &&& parsed(d.structure, wd.text@, parse_options_of(w.config))
        }
    &&& r.extra_documents@ == extra
    &&& strings_view(r.extra_folder_roots@) == strings_view(w.folder.extra_folders@)
    &&& config_same(r.config, w.config)
    &&& r.single_file == (w.mode == WorkspaceMode::SingleFile)
    &&& r.prefix_index.indexes(stem_entries(r.documents@) + stem_entries(extra))
}

/// The prefix index of a workspace's input is the index of the stems of its documents
/// followed by those of the extra documents: any index built from those entries (such as
/// `PrefixIndex::from_entries` on them) stores the same paths under every key and has as
/// many keys.
pub proof fn lemma_input_index(r: ResolveInput, w: Workspace, extra: Seq<ResolveDocument>, other: PrefixIndex)
    requires
        input_of(r, w, extra),
        other.indexes(stem_entries(r.documents@) + stem_entries(extra)),
    ensures
        forall|key: Seq<char>| #[trigger] r.prefix_index.lookup(key) == other.lookup(key),
        r.prefix_index.key_list().len() == other.key_list().len(),
{
    lemma_indexes_agree(r.prefix_index, other, stem_entries(r.documents@) + stem_entries(extra));
}

impl ResolveInput {
    /// The input for resolving a workspace: each of its documents parsed with the
    /// workspace's heading settings, the documents of its extra folders as given, and a
    /// prefix index over the file stems of both, in that order.
    pub fn from_workspace(workspace: &Workspace, extra_documents: Vec<ResolveDocument>) -> (r: ResolveInput)
        requires
            workspace_ok(*workspace),
        ensures
            input_of(r, *workspace, extra_documents@),
    {
        let options = ParseOptions {
            title_from_heading: workspace.config.core.title_from_heading,
            heading_ids: workspace.config.core.heading_ids.enable,
        };
        let mut documents: Vec<ResolveDocument> = Vec::new();
        let mut i: usize = 0;
        while i < workspace.folder.documents.len()
            invariant
                i <= workspace.folder.documents@.len(),
                workspace_ok(*workspace),
                options == parse_options_of(workspace.config),
                documents@.len() == i,
                forall|k: int|
                    0 <= k < i ==> {
                        let d = #[trigger] documents@[k];
                        let w = workspace.folder.documents@[k];
                        &&& d.path@ == w.path@
                        &&& d.rel_path@ == w.rel_path@
                        &&& parsed(d.structure, w.text@, options)
                    },
            decreases workspace.folder.documents@.len() - i,
        {
            let doc = &workspace.folder.documents[i];
            assert(doc.text.wf());
            let structure = parse_document(doc.text.as_str(), options);
            documents.push(ResolveDocument { path: doc.path.clone(), rel_path: doc.rel_path.clone(), structure });
            i += 1;
        }
        let mut entries: Vec<(String, String)> = Vec::new();
        assert(entries_view(entries@) =~= Seq::<(Seq<char>, Seq<char>)>::empty());
        push_entries(&mut entries, &documents);
        push_entries(&mut entries, &extra_documents);
        assert(Seq::<(Seq<char>, Seq<char>)>::empty() + stem_entries(documents@) + stem_entries(extra_documents@)
            =~= stem_entries(documents@) + stem_entries(extra_documents@));
        let prefix_index = PrefixIndex::from_entries(entries);
        ResolveInput {
            root: workspace.folder.root.clone(),
            documents,
            extra_documents,
            extra_folder_roots: copy_strings(&workspace.folder.extra_folders),
            config: workspace.config.duplicate(),
            single_file: workspace.mode == WorkspaceMode::SingleFile,
            prefix_index,
        }
    }
}

} // verus!
