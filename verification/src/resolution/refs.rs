use crate::parser::symbols::{opt_text, Ref, SymKind, SymbolOccurrence};
use crate::resolution::conn::{
    dv, dvs, duplicate_dests, lookup_key, rdoc_spec, rdoc_specs, DestView, DestinationKind,
    DocSpec, ResolvedDestination, ResolvedDocument,
};
use crate::resolution::matching::{
    doc_matches_spec, find_doc_matches, is_attachment_candidate_path, is_explicit_path,
    source_dir, source_dir_of, spec_is_attachment_candidate, spec_is_explicit,
};
use crate::resolution::path::{
    find_or_len, has_scheme, index_or_len, is_folder_link_target, join_path, path_eq,
    resolve_explicit_path, same_path, spec_file_name, spec_has_scheme,
    spec_is_folder_link_target, spec_join, spec_resolve_explicit, spec_split_anchor, split_anchor,
    trim_leading_slashes, trim_leading_slashes_chars, file_name_chars, slice_vec,
};
use crate::resolution::prefix::{strings_view, PrefixIndex};
use crate::resolution::slug::{spec_slug, Slug};
use crate::utils::workspace::{exists_at, is_directory};
use crate::utils::strs::{ascii_lower_seq, ascii_lower_vec, chars_eq, chars_of, push_char, string_of};
use vstd::prelude::*;

verus! {

/// What resolution needs besides the documents: the root, the extra folders, whether
/// prefix matching of wiki-links is on, whether a single file is checked, and the prefix
/// index over file stems.
pub struct Env {
    pub root: String,
    pub extra_roots: Vec<String>,
    pub obsidian_prefix: bool,
    pub single_file: bool,
    pub index: PrefixIndex,
}

/// The outcome of resolving one reference, as plain values.
pub enum OutcomeView {
    Resolved(Seq<DestView>),
    Unresolved(Seq<char>, Option<Seq<Seq<char>>>),
    Ambiguous(Seq<char>, Seq<DestView>),
    Skip,
}

/// The outcome of resolving one reference: its destinations; its target and the
/// candidates of a hint; its target and its candidates; or nothing to report.
pub enum Outcome {
    Resolved(Vec<ResolvedDestination>),
    Unresolved(String, Option<Vec<String>>),
    Ambiguous(String, Vec<ResolvedDestination>),
    Skip,
}

pub open spec fn opt_strings(o: Option<Vec<String>>) -> Option<Seq<Seq<char>>> {
    match o {
        Some(v) => Some(strings_view(v@)),
        None => None,
    }
}

pub open spec fn outcome_view(o: Outcome) -> OutcomeView {
    match o {
        Outcome::Resolved(d) => OutcomeView::Resolved(dvs(d@)),
        Outcome::Unresolved(t, h) => OutcomeView::Unresolved(t@, opt_strings(h)),
        Outcome::Ambiguous(t, d) => OutcomeView::Ambiguous(t@, dvs(d@)),
        Outcome::Skip => OutcomeView::Skip,
    }
}

/// What the file system answered while one reference was resolved: which folder
/// candidate was found to be a directory, whether an attachment path exists, and every
/// path asked about, in order, with the answer it got.
pub struct FsAnswer {
    pub folder: Option<int>,
    pub attachment: bool,
    pub probes: Seq<(Seq<char>, bool)>,
}

/// The directory probes of a folder link: each candidate in turn, up to the first that is
/// a directory, or all of them when none is.
pub open spec fn folder_probes(cands: Seq<Seq<char>>, found: Option<int>) -> Seq<(Seq<char>, bool)> {
    let n = match found {
        Some(k) => k + 1,
        None => cands.len() as int,
    };
    Seq::new(n as nat, |j: int| (cands[j], found == Some(j)))
}

/// The folder found is one of the candidates, and the probes are those of the search.
pub open spec fn folder_log_ok(cands: Seq<Seq<char>>, found: Option<int>, probes: Seq<(Seq<char>, bool)>) -> bool {
    &&& found matches Some(k) ==> 0 <= k < cands.len()
    &&& probes == folder_probes(cands, found)
}

/// The probe of the last step: when nothing matched and the target could name an
/// attachment, the resolved path was asked about once and `attach` is its answer;
/// otherwise nothing was asked.
pub open spec fn attach_log_ok(
    env: Env,
    doc: DocSpec,
    target: Seq<char>,
    dests: Seq<DestView>,
    attach: bool,
    probes: Seq<(Seq<char>, bool)>,
) -> bool {
    if dests.len() == 0 && spec_is_attachment_candidate(target) {
        probes == seq![(spec_resolve_explicit(env.root@, source_dir(doc.path, env.root@), target), attach)]
    } else {
        probes.len() == 0 && !attach
    }
}

/// The paths whose stem starts with `target`, ignoring ASCII case; none when it is empty.
pub open spec fn prefix_spec(index: PrefixIndex, target: Seq<char>) -> Seq<Seq<char>> {
    if target.len() == 0 {
        Seq::empty()
    } else {
        index.lookup(ascii_lower_seq(target))
    }
}

/// The prefix candidates for a hint, when there are any.
pub open spec fn hint_spec(index: PrefixIndex, target: Seq<char>) -> Option<Seq<Seq<char>>> {
    if prefix_spec(index, target).len() == 0 {
        None
    } else {
        Some(prefix_spec(index, target))
    }
}

fn copy_strings(v: &[String]) -> (r: Vec<String>)
    ensures
        strings_view(r@) == strings_view(v@),
{
    let mut r: Vec<String> = Vec::new();
    let mut i: usize = 0;
    while i < v.len()
        invariant
            i <= v@.len(),
            strings_view(r@) == strings_view(v@.take(i as int)),
        decreases v@.len() - i,
    {
        let ghost old_r = r@;
        r.push(v[i].clone());
        assert(strings_view(r@) =~= strings_view(old_r).push(v@[i as int]@));
        assert(strings_view(v@.take(i + 1)) =~= strings_view(v@.take(i as int)).push(v@[i as int]@));
        i += 1;
    }
    assert(v@.take(i as int) =~= v@);
    r
}

fn hint_payload_for(index: &PrefixIndex, target: &str) -> (r: Option<Vec<String>>)
    requires
        index.inv(),
    ensures
        opt_strings(r) == hint_spec(*index, target@),
{
    let candidates = index.matches(target);
    if candidates.len() == 0 {
        None
    } else {
        Some(copy_strings(candidates))
    }
}

/// The headings of `doc` whose slug is that of `anchor`, or else its tags named `anchor`
/// in ASCII lower case.
pub open spec fn anchor_spec(doc: DocSpec, anchor: Seq<char>) -> Option<Seq<DestView>> {
    match lookup_key(doc.headings, spec_slug(anchor)) {
        Some(h) => Some(h),
        None => lookup_key(doc.tags, ascii_lower_seq(anchor)),
    }
}

pub open spec fn opt_dvs(o: Option<Vec<ResolvedDestination>>) -> Option<Seq<DestView>> {
    match o {
        Some(v) => Some(dvs(v@)),
        None => None,
    }
}

fn anchor_lookup(doc: &ResolvedDocument, anchor: &str) -> (r: Option<Vec<ResolvedDestination>>)
    ensures
        opt_dvs(r) == anchor_spec(rdoc_spec(*doc), anchor@),
{
    let slug = Slug::from_heading_text(anchor);
    match doc.headings_for(slug.as_str()) {
        Some(v) => Some(v),
        None => {
            let lower = string_of(&ascii_lower_vec(&chars_of(anchor)));
            doc.tags_for(lower.as_str())
        },
    }
}

/// `s` without its trailing `/` characters.
pub open spec fn trim_trailing_slashes(s: Seq<char>) -> Seq<char>
    decreases s.len(),
{
    if s.len() > 0 && s.last() == '/' {
        trim_trailing_slashes(s.drop_last())
    } else {
        s
    }
}

/// The directory a folder link names: the target before any anchor, less trailing `/`.
pub open spec fn folder_dir(target: Seq<char>) -> Seq<char> {
    trim_trailing_slashes(spec_split_anchor(target).0)
}

pub open spec fn first_component(rel: Seq<char>) -> Seq<char> {
    rel.take(index_or_len(rel, '/'))
}

pub open spec fn after_first(rel: Seq<char>) -> Seq<char> {
    if index_or_len(rel, '/') < rel.len() {
        rel.skip(index_or_len(rel, '/') + 1)
    } else {
        Seq::empty()
    }
}

/// The candidates within one extra folder: `rel` joined to it, then, when the first
/// component of `rel` is the folder's own name, the rest of `rel` joined to it.
pub open spec fn root_candidates(rel: Seq<char>, er: Seq<char>) -> Seq<Seq<char>> {
    if spec_file_name(er) == Some(first_component(rel)) {
        seq![spec_join(er, rel), spec_join(er, after_first(rel))]
    } else {
        seq![spec_join(er, rel)]
    }
}

pub open spec fn extra_candidates(rel: Seq<char>, ers: Seq<Seq<char>>) -> Seq<Seq<char>>
    decreases ers.len(),
{
    if ers.len() == 0 {
        Seq::empty()
    } else {
        extra_candidates(rel, ers.drop_last()) + root_candidates(rel, ers.last())
    }
}

/// The directories a folder link may name, in the order they are tried: the target
/// resolved as a path, then, for a target from the root, its place in each extra folder.
pub open spec fn folder_candidates(source_path: Seq<char>, target: Seq<char>, root: Seq<char>, ers: Seq<Seq<char>>) -> Seq<Seq<char>> {
    let td = folder_dir(target);
    let first = seq![spec_resolve_explicit(root, source_dir(source_path, root), td)];
    if td.len() > 0 && td[0] == '/' {
        first + extra_candidates(trim_leading_slashes(td), ers)
    } else {
        first
    }
}

/// The destination of a folder link, given which candidate, if any, is a directory.
pub open spec fn folder_spec(cands: Seq<Seq<char>>, td: Seq<char>, found: Option<int>) -> Option<DestView> {
    match found {
        Some(k) => if 0 <= k < cands.len() {
            Some((cands[k], DestinationKind::Directory, td, None))
        } else {
            None
        },
        None => None,
    }
}

fn trim_trailing_slashes_chars(s: &[char]) -> (r: Vec<char>)
    ensures
        r@ == trim_trailing_slashes(s@),
{
    let mut j: usize = s.len();
    assert(s@.take(j as int) =~= s@);
    while j > 0 && s[j - 1] == '/'
        invariant
            j <= s@.len(),
            trim_trailing_slashes(s@) == trim_trailing_slashes(s@.take(j as int)),
        decreases j,
    {
        assert(s@.take(j as int).drop_last() =~= s@.take(j - 1));
        j -= 1;
    }
    slice_vec(s, 0, j)
}

fn push_all(out: &mut Vec<String>, v: Vec<String>)
    ensures
        strings_view(final(out)@) == strings_view(old(out)@) + strings_view(v@),
{
    let ghost start = strings_view(out@);
    let mut i: usize = 0;
    while i < v.len()
        invariant
            i <= v@.len(),
            strings_view(out@) == start + strings_view(v@.take(i as int)),
        decreases v@.len() - i,
    {
        let ghost old_out = out@;
        out.push(v[i].clone());
        assert(strings_view(out@) =~= strings_view(old_out).push(v@[i as int]@));
        assert(strings_view(v@.take(i + 1)) =~= strings_view(v@.take(i as int)).push(v@[i as int]@));
        assert(strings_view(out@) =~= start + strings_view(v@.take(i + 1)));
        i += 1;
    }
    assert(v@.take(i as int) =~= v@);
}

/// The candidate directories of a folder link, in order.
fn folder_candidate_list(source_path: &str, target: &str, root: &str, extra_roots: &[String]) -> (r: Vec<String>)
    ensures
        strings_view(r@) == folder_candidates(source_path@, target@, root@, strings_view(extra_roots@)),
{
    let (path_part, _anchor) = split_anchor(target);
    let td = string_of(&trim_trailing_slashes_chars(&chars_of(path_part.as_str())));
    let sd = source_dir_of(source_path, root);
    let mut out: Vec<String> = Vec::new();
    out.push(resolve_explicit_path(root, sd.as_str(), td.as_str()));
    let ghost first = strings_view(out@);
    let tdc = chars_of(td.as_str());
    if tdc.len() > 0 && tdc[0] == '/' {
        let rel_chars = trim_leading_slashes_chars(&tdc);
        let rel = string_of(&rel_chars);
        let p = find_or_len(&rel_chars, '/');
        let first_comp = slice_vec(&rel_chars, 0, p);
        let rest = if p < rel_chars.len() {
            string_of(&slice_vec(&rel_chars, p + 1, rel_chars.len()))
        } else {
            String::new()
        };
        proof {
            assert(first_comp@ == first_component(rel@));
            assert(rest@ =~= after_first(rel@));
        }
        let ghost ers = strings_view(extra_roots@);
        let mut k: usize = 0;
        while k < extra_roots.len()
            invariant
                k <= extra_roots@.len(),
                ers == strings_view(extra_roots@),
                rel@ == trim_leading_slashes(folder_dir(target@)),
                first_comp@ == first_component(rel@),
                rest@ == after_first(rel@),
                strings_view(out@) == first + extra_candidates(rel@, ers.take(k as int)),
            decreases extra_roots@.len() - k,
        {
            let er = extra_roots[k].as_str();
            let mut cands: Vec<String> = Vec::new();
            cands.push(join_path(er, rel.as_str()));
            let same = match file_name_chars(&chars_of(er)) {
                Some(name) => chars_eq(&name, &first_comp),
                None => false,
            };
            if same {
                cands.push(join_path(er, rest.as_str()));
            }
            proof {
                assert(ers.take(k + 1).drop_last() =~= ers.take(k as int));
                assert(ers.take(k + 1).last() == er@);
                assert(strings_view(cands@) =~= root_candidates(rel@, er@));
            }
            push_all(&mut out, cands);
            proof {
                assert(first + extra_candidates(rel@, ers.take(k as int)) + root_candidates(rel@, er@) =~= first
                    + extra_candidates(rel@, ers.take(k + 1)));
            }
            k += 1;
        }
        assert(ers.take(k as int) =~= ers);
    }
    out
}

/// Resolves a folder link against the file system: the first candidate that is a
/// directory, if any, and which one it was.
fn resolve_folder_link(source_path: &str, target: &str, root: &str, extra_roots: &[String]) -> (r: (
    Option<ResolvedDestination>,
    Ghost<Option<int>>,
    Ghost<Seq<(Seq<char>, bool)>>,
))
    ensures
        opt_dv(r.0) == folder_spec(
            folder_candidates(source_path@, target@, root@, strings_view(extra_roots@)),
            folder_dir(target@),
            r.1@,
        ),
        folder_log_ok(folder_candidates(source_path@, target@, root@, strings_view(extra_roots@)), r.1@, r.2@),
{
    let cands = folder_candidate_list(source_path, target, root, extra_roots);
    let ghost cv = strings_view(cands@);
    let (path_part, _anchor) = split_anchor(target);
    let td = string_of(&trim_trailing_slashes_chars(&chars_of(path_part.as_str())));
    let ghost mut log: Seq<(Seq<char>, bool)> = Seq::empty();
    let mut k: usize = 0;
    while k < cands.len()
        invariant
            k <= cands@.len(),
            cv == strings_view(cands@),
            cv == folder_candidates(source_path@, target@, root@, strings_view(extra_roots@)),
            td@ == folder_dir(target@),
            log.len() == k,
            forall|j: int| 0 <= j < k ==> #[trigger] log[j] == (cv[j], false),
        decreases cands@.len() - k,
    {
        let is_dir = is_directory(cands[k].as_str());
        proof {
            assert(cv[k as int] == cands@[k as int]@);
            log = log.push((cands@[k as int]@, is_dir));
        }
        if is_dir {
            let d = ResolvedDestination { path: cands[k].clone(), kind: DestinationKind::Directory, name: td, range: None };
            assert(log =~= folder_probes(cv, Some(k as int)));
            return (Some(d), Ghost(Some(k as int)), Ghost(log));
        }
        k += 1;
    }
    assert(log =~= folder_probes(cv, None));
    (None, Ghost(None), Ghost(log))
}

pub open spec fn opt_dv(o: Option<ResolvedDestination>) -> Option<DestView> {
    match o {
        Some(d) => Some(dv(d)),
        None => None,
    }
}

/// Index of the first document from `i` on whose path names `p`.
pub open spec fn first_with_path(docs: Seq<DocSpec>, p: Seq<char>, i: int) -> Option<int>
    decreases docs.len() - i,
{
    if i < 0 || i >= docs.len() {
        None
    } else if path_eq(docs[i].path, p) {
        Some(i)
    } else {
        first_with_path(docs, p, i + 1)
    }
}

pub proof fn lemma_first_with_path(docs: Seq<DocSpec>, p: Seq<char>, i: int)
    requires
        0 <= i,
    ensures
        first_with_path(docs, p, i) matches Some(k) ==> i <= k < docs.len(),
    decreases docs.len() - i,
{
    if i < docs.len() && !path_eq(docs[i].path, p) {
        lemma_first_with_path(docs, p, i + 1);
    }
}

/// The last step of resolving a target: an attachment when nothing else matched and the
/// target names an existing file; then several destinations make the reference
/// ambiguous; an anchor on the one document found is looked up among its headings and
/// tags; no destination leaves the reference unresolved, except for a non-empty target
/// in a single-file check; otherwise the reference resolves.
pub open spec fn finalize_spec(
    env: Env,
    primary: Seq<DocSpec>,
    doc: DocSpec,
    target: Seq<char>,
    anchor: Option<Seq<char>>,
    dests: Seq<DestView>,
    attach: bool,
) -> OutcomeView {
    let d2 = if dests.len() == 0 && spec_is_attachment_candidate(target) && attach {
        seq![(
            spec_resolve_explicit(env.root@, source_dir(doc.path, env.root@), target),
            DestinationKind::Attachment,
            target,
            None::<crate::utils::text::ByteRange>,
        )]
    } else {
        dests
    };
    if d2.len() > 1 {
        OutcomeView::Ambiguous(target, d2)
    } else if anchor is Some && d2.len() == 1 && d2[0].1 == DestinationKind::Document && first_with_path(
        primary,
        d2[0].0,
        0,
    ) is Some {
        let td = primary[first_with_path(primary, d2[0].0, 0).unwrap()];
        match anchor_spec(td, anchor.unwrap()) {
            Some(h) => OutcomeView::Resolved(h),
            None => OutcomeView::Unresolved(target.push('#') + anchor.unwrap(), hint_spec(env.index, target)),
        }
    } else if d2.len() == 0 {
        if env.single_file && target.len() > 0 {
            OutcomeView::Skip
        } else {
            OutcomeView::Unresolved(target, hint_spec(env.index, target))
        }
    } else {
        OutcomeView::Resolved(d2)
    }
}

fn find_doc_by_path(docs: &[ResolvedDocument], p: &str) -> (r: Option<usize>)
    ensures
        match r {
            Some(k) => first_with_path(rdoc_specs(docs@), p@, 0) == Some(k as int) && k < docs@.len(),
            None => first_with_path(rdoc_specs(docs@), p@, 0) is None,
        },
{
    let ghost ds = rdoc_specs(docs@);
    let mut i: usize = 0;
    while i < docs.len()
        invariant
            i <= docs@.len(),
            ds == rdoc_specs(docs@),
            first_with_path(ds, p@, 0) == first_with_path(ds, p@, i as int),
        decreases docs@.len() - i,
    {
        assert(ds[i as int] == rdoc_spec(docs@[i as int]));
        if same_path(docs[i].path.as_str(), p) {
            return Some(i);
        }
        i += 1;
    }
    None
}

fn finalize_doc_or_attachment(
    env: &Env,
    primary: &[ResolvedDocument],
    doc: &ResolvedDocument,
    target: &str,
    anchor: &Option<String>,
    dests: Vec<ResolvedDestination>,
) -> (r: (Outcome, Ghost<bool>, Ghost<Seq<(Seq<char>, bool)>>))
    requires
        env.index.inv(),
    ensures
        outcome_view(r.0) == finalize_spec(*env, rdoc_specs(primary@), rdoc_spec(*doc), target@, opt_text(*anchor), dvs(dests@), r.1@),
        attach_log_ok(*env, rdoc_spec(*doc), target@, dvs(dests@), r.1@, r.2@),
{
    let ghost d0 = dvs(dests@);
    let mut dests = dests;
    let mut attach = false;
    let ghost mut log: Seq<(Seq<char>, bool)> = Seq::empty();
    if dests.len() == 0 && is_attachment_candidate_path(target) {
        let sd = source_dir_of(doc.path.as_str(), env.root.as_str());
        let path = resolve_explicit_path(env.root.as_str(), sd.as_str(), target);
        let exists = exists_at(path.as_str());
        proof {
            log = seq![(path@, exists)];
        }
        if exists {
            attach = true;
            dests.push(ResolvedDestination { path, kind: DestinationKind::Attachment, name: String::from_str(target), range: None });
            assert(dvs(dests@) =~= seq![dv(dests@[0])]);
        }
    }
    if dests.len() > 1 {
        return (Outcome::Ambiguous(String::from_str(target), dests), Ghost(attach), Ghost(log));
    }
    if let Some(a) = anchor {
        if dests.len() == 1 && dests[0].kind == DestinationKind::Document {
            match find_doc_by_path(primary, dests[0].path.as_str()) {
                Some(k) => {
                    proof {
                        assert(rdoc_specs(primary@)[k as int] == rdoc_spec(primary@[k as int]));
                    }
                    return match anchor_lookup(&primary[k], a.as_str()) {
                        Some(h) => (Outcome::Resolved(h), Ghost(attach), Ghost(log)),
                        None => {
                            let mut t = String::from_str(target);
                            push_char(&mut t, '#');
                            t.append(a.as_str());
                            (Outcome::Unresolved(t, hint_payload_for(&env.index, target)), Ghost(attach), Ghost(log))
                        },
                    };
                },
                None => {},
            }
        }
    }
    if dests.len() == 0 {
        if env.single_file && chars_of(target).len() > 0 {
            return (Outcome::Skip, Ghost(attach), Ghost(log));
        }
        return (Outcome::Unresolved(String::from_str(target), hint_payload_for(&env.index, target)), Ghost(attach), Ghost(log));
    }
    (Outcome::Resolved(dests), Ghost(attach), Ghost(log))
}

/// A folder link: invalid with an anchor; otherwise resolved to the directory found, or
/// unresolved.
pub open spec fn folder_link_spec(env: Env, doc: DocSpec, target: Seq<char>, anchor: Option<Seq<char>>, found: Option<int>) -> OutcomeView {
    if anchor is Some {
        OutcomeView::Unresolved(target, None)
    } else {
        match folder_spec(folder_candidates(doc.path, target, env.root@, strings_view(env.extra_roots@)), folder_dir(target), found) {
            Some(d) => OutcomeView::Resolved(seq![d]),
            None => OutcomeView::Unresolved(target, None),
        }
    }
}

pub open spec fn prefix_dest(p: Seq<char>) -> DestView {
    (p, DestinationKind::Document, Seq::empty(), None)
}

/// Resolving a wiki-link: a bare heading is looked up in the linking document; a folder
/// link is looked up on disk; several matching documents make it ambiguous; without a
/// match among the documents, the extra folders are searched; without any match, and
/// with prefix matching on, a non-explicit target is matched by file-stem prefix; then
/// the last step follows.
pub open spec fn wiki_spec(
    env: Env,
    primary: Seq<DocSpec>,
    extra: Seq<DocSpec>,
    doc: DocSpec,
    target: Seq<char>,
    heading: Option<Seq<char>>,
    ans: FsAnswer,
) -> OutcomeView {
    if target.len() == 0 && heading is Some {
        match anchor_spec(doc, heading.unwrap()) {
            Some(d) => OutcomeView::Resolved(d),
            None => OutcomeView::Unresolved(heading.unwrap(), hint_spec(env.index, heading.unwrap())),
        }
    } else if spec_is_folder_link_target(target) {
        folder_link_spec(env, doc, target, heading, ans.folder)
    } else {
        let explicit = spec_is_explicit(target);
        let pm = doc_matches_spec(primary, doc.path, env.root@, target, explicit, Seq::empty());
        if pm.len() > 1 {
            OutcomeView::Ambiguous(target, pm)
        } else {
            let dests = if pm.len() == 0 {
                doc_matches_spec(extra, doc.path, env.root@, target, explicit, strings_view(env.extra_roots@))
            } else {
                pm
            };
            let pc = prefix_spec(env.index, target);
            if dests.len() == 0 && env.obsidian_prefix && !explicit && target.len() > 0 && pc.len() == 1 {
                finalize_spec(env, primary, doc, target, heading, seq![prefix_dest(pc[0])], ans.attachment)
            } else if dests.len() == 0 && env.obsidian_prefix && !explicit && target.len() > 0 && pc.len() > 1 {
                OutcomeView::Ambiguous(target, pc.map_values(|p: Seq<char>| prefix_dest(p)))
            } else {
                finalize_spec(env, primary, doc, target, heading, dests, ans.attachment)
            }
        }
    }
}

/// Resolving an inline link: one with a URL scheme is not reported; a bare anchor is
/// looked up in the linking document; a folder link is looked up on disk; otherwise the
/// target is matched among the documents (an explicit path by its path only, any other
/// target also by stem, slug and title), then the last step follows.
pub open spec fn inline_spec(
    env: Env,
    primary: Seq<DocSpec>,
    doc: DocSpec,
    target: Seq<char>,
    anchor: Option<Seq<char>>,
    ans: FsAnswer,
) -> OutcomeView {
    if spec_has_scheme(target) {
        OutcomeView::Skip
    } else if target.len() == 0 && anchor is Some {
        match anchor_spec(doc, anchor.unwrap()) {
            Some(d) => OutcomeView::Resolved(d),
            None => OutcomeView::Unresolved(anchor.unwrap(), None),
        }
    } else if spec_is_folder_link_target(target) {
        folder_link_spec(env, doc, target, anchor, ans.folder)
    } else {
        finalize_spec(
            env,
            primary,
            doc,
            target,
            anchor,
            doc_matches_spec(primary, doc.path, env.root@, target, spec_is_explicit(target), Seq::empty()),
            ans.attachment,
        )
    }
}

/// Resolving a full or collapsed reference link by the link definitions of its document.
pub open spec fn label_spec(doc: DocSpec, label: Seq<char>) -> OutcomeView {
    match lookup_key(doc.defs, label) {
        Some(d) => OutcomeView::Resolved(d),
        None => OutcomeView::Unresolved(label, None),
    }
}

/// The outcome of the symbol `sym` of `doc`: references are resolved by their kind;
/// shortcut links and other symbols are not reported.
pub open spec fn ref_spec(env: Env, primary: Seq<DocSpec>, extra: Seq<DocSpec>, doc: DocSpec, sym: SymbolOccurrence, ans: FsAnswer) -> OutcomeView {
    match sym.kind {
        SymKind::Ref(r) => match r {
            Ref::Wiki { target, heading, .. } => wiki_spec(env, primary, extra, doc, target@, opt_text(heading), ans),
            Ref::Inline { target, anchor, .. } => inline_spec(env, primary, doc, target@, opt_text(anchor), ans),
            Ref::Full { label, .. } => label_spec(doc, label.0@),
            Ref::Collapsed { label } => label_spec(doc, label.0@),
            Ref::Shortcut { .. } => OutcomeView::Skip,
        },
        _ => OutcomeView::Skip,
    }
}

fn resolve_folder(env: &Env, doc: &ResolvedDocument, target: &str, anchor: &Option<String>) -> (r: (Outcome, Ghost<FsAnswer>))
    ensures
        outcome_view(r.0) == folder_link_spec(*env, rdoc_spec(*doc), target@, opt_text(*anchor), r.1@.folder),
        folder_link_log_ok(*env, rdoc_spec(*doc), target@, opt_text(*anchor), r.1@),
{
    if anchor.is_some() {
        return (Outcome::Unresolved(String::from_str(target), None), Ghost(FsAnswer { folder: None, attachment: false, probes: Seq::empty() }));
    }
    let (found, g, log) = resolve_folder_link(doc.path.as_str(), target, env.root.as_str(), env.extra_roots.as_slice());
    let ghost ans = FsAnswer { folder: g@, attachment: false, probes: log@ };
    match found {
        Some(d) => {
            let mut v: Vec<ResolvedDestination> = Vec::new();
            v.push(d);
            assert(dvs(v@) =~= seq![dv(v@[0])]);
            (Outcome::Resolved(v), Ghost(ans))
        },
        None => (Outcome::Unresolved(String::from_str(target), None), Ghost(ans)),
    }
}

/// The probes of a folder link: none with an anchor, else those of the folder search.
pub open spec fn folder_link_log_ok(env: Env, doc: DocSpec, target: Seq<char>, anchor: Option<Seq<char>>, ans: FsAnswer) -> bool {
    if anchor is Some {
        ans.probes.len() == 0 && ans.folder is None
    } else {
        folder_log_ok(folder_candidates(doc.path, target, env.root@, strings_view(env.extra_roots@)), ans.folder, ans.probes)
    }
}

/// What resolving a wiki-link asked the file system, following the branches of
/// `wiki_spec`: the folder search for a folder link, the attachment probe of the last
/// step, or nothing.
pub open spec fn wiki_log_ok(
    env: Env,
    primary: Seq<DocSpec>,
    extra: Seq<DocSpec>,
    doc: DocSpec,
    target: Seq<char>,
    heading: Option<Seq<char>>,
    ans: FsAnswer,
) -> bool {
    if target.len() == 0 && heading is Some {
        ans.probes.len() == 0
    } else if spec_is_folder_link_target(target) {
        folder_link_log_ok(env, doc, target, heading, ans)
    } else {
        let explicit = spec_is_explicit(target);
        let pm = doc_matches_spec(primary, doc.path, env.root@, target, explicit, Seq::empty());
        if pm.len() > 1 {
            ans.probes.len() == 0
        } else {
            let dests = if pm.len() == 0 {
                doc_matches_spec(extra, doc.path, env.root@, target, explicit, strings_view(env.extra_roots@))
            } else {
                pm
            };
            let pc = prefix_spec(env.index, target);
            if dests.len() == 0 && env.obsidian_prefix && !explicit && target.len() > 0 && pc.len() == 1 {
                attach_log_ok(env, doc, target, seq![prefix_dest(pc[0])], ans.attachment, ans.probes)
            } else if dests.len() == 0 && env.obsidian_prefix && !explicit && target.len() > 0 && pc.len() > 1 {
                ans.probes.len() == 0
            } else {
                attach_log_ok(env, doc, target, dests, ans.attachment, ans.probes)
            }
        }
    }
}

/// What resolving an inline link asked the file system, following the branches of
/// `inline_spec`.
pub open spec fn inline_log_ok(
    env: Env,
    primary: Seq<DocSpec>,
    doc: DocSpec,
    target: Seq<char>,
    anchor: Option<Seq<char>>,
    ans: FsAnswer,
) -> bool {
    if spec_has_scheme(target) || (target.len() == 0 && anchor is Some) {
        ans.probes.len() == 0
    } else if spec_is_folder_link_target(target) {
        folder_link_log_ok(env, doc, target, anchor, ans)
    } else {
        attach_log_ok(
            env,
            doc,
            target,
            doc_matches_spec(primary, doc.path, env.root@, target, spec_is_explicit(target), Seq::empty()),
            ans.attachment,
            ans.probes,
        )
    }
}

/// What resolving the symbol `sym` asked the file system: only wiki and inline links ask
/// anything.
pub open spec fn ref_log_ok(env: Env, primary: Seq<DocSpec>, extra: Seq<DocSpec>, doc: DocSpec, sym: SymbolOccurrence, ans: FsAnswer) -> bool {
    match sym.kind {
        SymKind::Ref(r) => match r {
            Ref::Wiki { target, heading, .. } => wiki_log_ok(env, primary, extra, doc, target@, opt_text(heading), ans),
            Ref::Inline { target, anchor, .. } => inline_log_ok(env, primary, doc, target@, opt_text(anchor), ans),
            _ => ans.probes.len() == 0,
        },
        _ => ans.probes.len() == 0,
    }
}

fn prefix_dests(paths: &[String]) -> (r: Vec<ResolvedDestination>)
    ensures
        dvs(r@) == strings_view(paths@).map_values(|p: Seq<char>| prefix_dest(p)),
{
    let mut r: Vec<ResolvedDestination> = Vec::new();
    let mut i: usize = 0;
    while i < paths.len()
        invariant
            i <= paths@.len(),
            dvs(r@) == strings_view(paths@.take(i as int)).map_values(|p: Seq<char>| prefix_dest(p)),
        decreases paths@.len() - i,
    {
        let ghost old_r = r@;
        r.push(ResolvedDestination { path: paths[i].clone(), kind: DestinationKind::Document, name: String::new(), range: None });
        assert(dvs(r@) =~= dvs(old_r).push(prefix_dest(paths@[i as int]@)));
        assert(strings_view(paths@.take(i + 1)).map_values(|p: Seq<char>| prefix_dest(p)) =~= strings_view(
            paths@.take(i as int),
        ).map_values(|p: Seq<char>| prefix_dest(p)).push(prefix_dest(paths@[i as int]@)));
        i += 1;
    }
    assert(paths@.take(i as int) =~= paths@);
    r
}

fn resolve_wiki_ref(
    env: &Env,
    primary: &[ResolvedDocument],
    extra: &[ResolvedDocument],
    doc: &ResolvedDocument,
    target: &str,
    heading: &Option<String>,
) -> (r: (Outcome, Ghost<FsAnswer>))
    requires
        env.index.inv(),
    ensures
        outcome_view(r.0) == wiki_spec(*env, rdoc_specs(primary@), rdoc_specs(extra@), rdoc_spec(*doc), target@, opt_text(*heading), r.1@),
        wiki_log_ok(*env, rdoc_specs(primary@), rdoc_specs(extra@), rdoc_spec(*doc), target@, opt_text(*heading), r.1@),
{
    let empty_target = chars_of(target).len() == 0;
    if empty_target {
        if let Some(a) = heading {
            let o = match anchor_lookup(doc, a.as_str()) {
                Some(d) => Outcome::Resolved(d),
                None => Outcome::Unresolved(a.clone(), hint_payload_for(&env.index, a.as_str())),
            };
            return (o, Ghost(FsAnswer { folder: None, attachment: false, probes: Seq::empty() }));
        }
    }
    if is_folder_link_target(target) {
        return resolve_folder(env, doc, target, heading);
    }
    let explicit = is_explicit_path(target);
    let no_roots: Vec<String> = Vec::new();
    assert(strings_view(no_roots@) =~= Seq::<Seq<char>>::empty());
    let pm = find_doc_matches(primary, doc.path.as_str(), env.root.as_str(), target, explicit, no_roots.as_slice());
    if pm.len() > 1 {
        return (Outcome::Ambiguous(String::from_str(target), pm), Ghost(FsAnswer { folder: None, attachment: false, probes: Seq::empty() }));
    }
    let dests = if pm.len() == 0 {
        find_doc_matches(extra, doc.path.as_str(), env.root.as_str(), target, explicit, env.extra_roots.as_slice())
    } else {
        pm
    };
    if dests.len() == 0 && env.obsidian_prefix && !explicit && !empty_target {
        let pc = env.index.matches(target);
        if pc.len() == 1 {
            let mut one: Vec<ResolvedDestination> = Vec::new();
            one.push(ResolvedDestination { path: pc[0].clone(), kind: DestinationKind::Document, name: String::new(), range: None });
            assert(dvs(one@) =~= seq![prefix_dest(strings_view(pc@)[0])]);
            let (o, g, log) = finalize_doc_or_attachment(env, primary, doc, target, heading, one);
            return (o, Ghost(FsAnswer { folder: None, attachment: g@, probes: log@ }));
        }
        if pc.len() > 1 {
            let ds = prefix_dests(pc);
            return (Outcome::Ambiguous(String::from_str(target), ds), Ghost(FsAnswer { folder: None, attachment: false, probes: Seq::empty() }));
        }
    }
    let (o, g, log) = finalize_doc_or_attachment(env, primary, doc, target, heading, dests);
    (o, Ghost(FsAnswer { folder: None, attachment: g@, probes: log@ }))
}

fn resolve_inline_ref(
    env: &Env,
    primary: &[ResolvedDocument],
    doc: &ResolvedDocument,
    target: &str,
    anchor: &Option<String>,
) -> (r: (Outcome, Ghost<FsAnswer>))
    requires
        env.index.inv(),
    ensures
        outcome_view(r.0) == inline_spec(*env, rdoc_specs(primary@), rdoc_spec(*doc), target@, opt_text(*anchor), r.1@),
        inline_log_ok(*env, rdoc_specs(primary@), rdoc_spec(*doc), target@, opt_text(*anchor), r.1@),
{
    if has_scheme(target) {
        return (Outcome::Skip, Ghost(FsAnswer { folder: None, attachment: false, probes: Seq::empty() }));
    }
    if chars_of(target).len() == 0 {
        if let Some(a) = anchor {
            let o = match anchor_lookup(doc, a.as_str()) {
                Some(d) => Outcome::Resolved(d),
                None => Outcome::Unresolved(a.clone(), None),
            };
            return (o, Ghost(FsAnswer { folder: None, attachment: false, probes: Seq::empty() }));
        }
    }
    if is_folder_link_target(target) {
        return resolve_folder(env, doc, target, anchor);
    }
    let no_roots: Vec<String> = Vec::new();
    assert(strings_view(no_roots@) =~= Seq::<Seq<char>>::empty());
    let explicit = is_explicit_path(target);
    let dests = find_doc_matches(primary, doc.path.as_str(), env.root.as_str(), target, explicit, no_roots.as_slice());
    let (o, g, log) = finalize_doc_or_attachment(env, primary, doc, target, anchor, dests);
    (o, Ghost(FsAnswer { folder: None, attachment: g@, probes: log@ }))
}

/// Resolves the symbol `sym` of `doc`, reporting what the file system answered.
pub fn resolve_ref(
    env: &Env,
    primary: &[ResolvedDocument],
    extra: &[ResolvedDocument],
    doc: &ResolvedDocument,
    sym: &SymbolOccurrence,
) -> (r: (Outcome, Ghost<FsAnswer>))
    requires
        env.index.inv(),
    ensures
        outcome_view(r.0) == ref_spec(*env, rdoc_specs(primary@), rdoc_specs(extra@), rdoc_spec(*doc), *sym, r.1@),
        ref_log_ok(*env, rdoc_specs(primary@), rdoc_specs(extra@), rdoc_spec(*doc), *sym, r.1@),
{
    let none = Ghost(FsAnswer { folder: None, attachment: false, probes: Seq::empty() });
    match &sym.kind {
        SymKind::Ref(reference) => match reference {
            Ref::Wiki { target, heading, .. } => resolve_wiki_ref(env, primary, extra, doc, target.as_str(), heading),
            Ref::Inline { target, anchor, .. } => resolve_inline_ref(env, primary, doc, target.as_str(), anchor),
            Ref::Full { label, .. } => {
                let o = match doc.link_defs_for(label.0.as_str()) {
                    Some(d) => Outcome::Resolved(d),
                    None => Outcome::Unresolved(label.0.clone(), None),
                };
                (o, none)
            },
            Ref::Collapsed { label } => {
                let o = match doc.link_defs_for(label.0.as_str()) {
                    Some(d) => Outcome::Resolved(d),
                    None => Outcome::Unresolved(label.0.clone(), None),
                };
                (o, none)
            },
            Ref::Shortcut { .. } => (Outcome::Skip, none),
        },
        _ => (Outcome::Skip, none),
    }
}

} // verus!
