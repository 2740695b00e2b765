use crate::resolution::conn::{dv, dvs, rdoc_spec, rdoc_specs, DestView, DestinationKind, DocSpec, ResolvedDestination, ResolvedDocument};
use crate::resolution::path::{
    backslash_to_slash, path_eq, path_without_extension, resolve_explicit_path, same_path,
    spec_parent, spec_path_without_extension, spec_resolve_explicit, spec_strip_prefix,
    parent_chars, strip_prefix_chars,
};
use crate::resolution::slug::{spec_slug, Slug};
use crate::utils::strs::{
    ascii_lower_seq, ascii_lower_vec, chars_eq, chars_of, contains_char, is_ascii_alnum, is_prefix,
    spec_is_ascii_alnum, starts_with, string_of, str_eq,
};
use vstd::prelude::*;

verus! {

/// Index of the last `.` in `s[..j]`.
pub open spec fn last_dot_before(s: Seq<char>, j: int) -> Option<int>
    decreases j,
{
    if j <= 0 {
        None
    } else if s[j - 1] == '.' {
        Some(j - 1)
    } else {
        last_dot_before(s, j - 1)
    }
}

pub open spec fn last_dot(s: Seq<char>) -> Option<int> {
    last_dot_before(s, s.len() as int)
}

proof fn lemma_last_dot(s: Seq<char>, j: int)
    requires
        0 <= j <= s.len(),
    ensures
        last_dot_before(s, j) matches Some(i) ==> 0 <= i < j && s[i] == '.',
    decreases j,
{
    if j > 0 && s[j - 1] != '.' {
        lemma_last_dot(s, j - 1);
    }
}

fn find_last_dot(s: &[char]) -> (r: Option<usize>)
    ensures
        match r {
            Some(i) => last_dot(s@) == Some(i as int) && i < s@.len(),
            None => last_dot(s@) is None,
        },
{
    let mut j: usize = s.len();
    while j > 0 && s[j - 1] != '.'
        invariant
            j <= s@.len(),
            last_dot(s@) == last_dot_before(s@, j as int),
        decreases j,
    {
        j -= 1;
    }
    if j == 0 {
        None
    } else {
        Some(j - 1)
    }
}

/// The target starts with `/`, `./` or `../`, or holds `/` or `\`.
pub open spec fn path_like(t: Seq<char>) -> bool {
    ||| is_prefix(seq!['/'], t)
    ||| is_prefix(seq!['.', '/'], t)
    ||| is_prefix(seq!['.', '.', '/'], t)
    ||| t.contains('/')
    ||| t.contains('\\')
}

/// After its last `.`, the target has an extension of ASCII letters and digits, with a
/// non-empty base before it that does not end in `-` or `_`.
pub open spec fn has_real_extension(t: Seq<char>) -> bool {
    match last_dot(t) {
        Some(i) => {
            let base = t.take(i);
            let ext = t.skip(i + 1);
            &&& base.len() > 0
            &&& ext.len() > 0
            &&& forall|k: int| 0 <= k < ext.len() ==> spec_is_ascii_alnum(#[trigger] ext[k])
            &&& base.last() != '-' && base.last() != '_'
            &&& ext[0] != '-' && ext[0] != '_'
        },
        None => false,
    }
}

/// After its last `.`, the target has a non-empty base and a non-empty remainder.
pub open spec fn has_dotted_name(t: Seq<char>) -> bool {
    match last_dot(t) {
        Some(i) => i > 0 && i + 1 < t.len(),
        None => false,
    }
}

pub open spec fn spec_is_explicit(t: Seq<char>) -> bool {
    path_like(t) || has_real_extension(t)
}

pub open spec fn spec_is_attachment_candidate(t: Seq<char>) -> bool {
    path_like(t) || has_dotted_name(t)
}

fn is_path_like(t: &Vec<char>) -> (b: bool)
    ensures
        b == path_like(t@),
{
    let slash: Vec<char> = vec!['/'];
    let dot_slash: Vec<char> = vec!['.', '/'];
    let dot_dot_slash: Vec<char> = vec!['.', '.', '/'];
    assert(slash@ =~= seq!['/']);
    assert(dot_slash@ =~= seq!['.', '/']);
    assert(dot_dot_slash@ =~= seq!['.', '.', '/']);
    starts_with(t, &slash) || starts_with(t, &dot_slash) || starts_with(t, &dot_dot_slash) || contains_char(t, '/')
        || contains_char(t, '\\')
}

/// Whether a link target names a path explicitly: it is path-like, or ends in an
/// extension of ASCII letters and digits after a base that does not end in `-` or `_`.
pub fn is_explicit_path(target: &str) -> (b: bool)
    ensures
        b == spec_is_explicit(target@),
{
    let t = chars_of(target);
    if is_path_like(&t) {
        return true;
    }
    match find_last_dot(&t) {
        None => false,
        Some(i) => {
            let n = t.len();
            if i == 0 || i + 1 >= n {
                return false;
            }
            let ghost ext = t@.skip(i + 1);
            let mut k: usize = i + 1;
            while k < n
                invariant
                    i + 1 <= k <= n == t@.len(),
                    0 < i,
                    t@ == target@,
                    last_dot(t@) == Some(i as int),
                    !path_like(t@),
                    ext == t@.skip(i + 1),
                    forall|j: int| 0 <= j < k - (i + 1) ==> spec_is_ascii_alnum(#[trigger] ext[j]),
                decreases n - k,
            {
                if !is_ascii_alnum(t[k]) {
                    assert(ext[k - (i + 1)] == t@[k as int]);
                    return false;
                }
                assert(ext[k - (i + 1)] == t@[k as int]);
                k += 1;
            }
            let b = t[i - 1] != '-' && t[i - 1] != '_' && t[i + 1] != '-' && t[i + 1] != '_';
            proof {
                assert(t@.take(i as int).last() == t@[i - 1]);
                assert(ext[0] == t@[i + 1]);
            }
            b
        },
    }
}

/// Whether a link target could name an attachment: it is path-like, or has a dot with
/// something on both sides of the last one.
pub fn is_attachment_candidate_path(target: &str) -> (b: bool)
    ensures
        b == spec_is_attachment_candidate(target@),
{
    let t = chars_of(target);
    if is_path_like(&t) {
        return true;
    }
    match find_last_dot(&t) {
        None => false,
        Some(i) => i > 0 && i + 1 < t.len(),
    }
}

pub open spec fn unwrap_or_seq(o: Option<Seq<char>>, d: Seq<char>) -> Seq<char> {
    match o {
        Some(x) => x,
        None => d,
    }
}

/// The directory of the linking document, or the root when its path has none.
pub open spec fn source_dir(source_path: Seq<char>, root: Seq<char>) -> Seq<char> {
    unwrap_or_seq(spec_parent(source_path), root)
}

pub fn source_dir_of(source_path: &str, root: &str) -> (r: String)
    ensures
        r@ == source_dir(source_path@, root@),
{
    match parent_chars(&chars_of(source_path)) {
        Some(p) => string_of(&p),
        None => string_of(&chars_of(root)),
    }
}

pub open spec fn eq_ignore_case(a: Seq<char>, b: Seq<char>) -> bool {
    ascii_lower_seq(a) == ascii_lower_seq(b)
}

fn eq_ignore_case_exec(a: &str, b: &str) -> (r: bool)
    ensures
        r == eq_ignore_case(a@, b@),
{
    chars_eq(&ascii_lower_vec(&chars_of(a)), &ascii_lower_vec(&chars_of(b)))
}

/// The document is what `target`, resolved within the extra root `er`, names.
pub open spec fn extra_root_match(doc: DocSpec, target: Seq<char>, er: Seq<char>) -> bool {
    let resolved = spec_resolve_explicit(er, er, target);
    let rel = unwrap_or_seq(spec_strip_prefix(resolved, er), resolved);
    path_eq(doc.path, resolved) || spec_path_without_extension(doc.rel_path) == spec_path_without_extension(rel)
}

/// Whether `doc` is a match for `target` linked from `source_path`: by path for explicit
/// targets (and, when searching extra folders, also by title slug), otherwise by file
/// stem, title slug, path without extension or path, ignoring ASCII case.
pub open spec fn doc_matches(
    doc: DocSpec,
    source_path: Seq<char>,
    root: Seq<char>,
    target: Seq<char>,
    explicit_only: bool,
    extra_roots: Seq<Seq<char>>,
) -> bool {
    let rel_no_ext = spec_path_without_extension(doc.rel_path);
    if explicit_only || spec_is_explicit(target) {
        let ep = spec_resolve_explicit(root, source_dir(source_path, root), target);
        let path_matches = path_eq(doc.path, ep) || rel_no_ext == spec_path_without_extension(ep)
            || exists|k: int| 0 <= k < extra_roots.len() && extra_root_match(doc, target, #[trigger] extra_roots[k]);
        path_matches || (extra_roots.len() > 0 && doc.title_slug == spec_slug(target))
    } else {
        ||| eq_ignore_case(doc.file_stem, target)
        ||| doc.title_slug == spec_slug(target)
        ||| eq_ignore_case(rel_no_ext, target)
        ||| eq_ignore_case(backslash_to_slash(doc.rel_path), target)
    }
}

/// The destination a matching document gives.
pub open spec fn doc_dest(doc: DocSpec) -> DestView {
    (doc.path, DestinationKind::Document, doc.title_text, None)
}

pub open spec fn has_path(ds: Seq<DestView>, p: Seq<char>) -> bool {
    exists|j: int| 0 <= j < ds.len() && path_eq(#[trigger] ds[j].0, p)
}

/// The matches among the first `n` documents, each path once, in order.
pub open spec fn matches_upto(
    docs: Seq<DocSpec>,
    n: int,
    source_path: Seq<char>,
    root: Seq<char>,
    target: Seq<char>,
    explicit_only: bool,
    extra_roots: Seq<Seq<char>>,
) -> Seq<DestView>
    decreases n,
{
    if n <= 0 {
        Seq::empty()
    } else {
        let prev = matches_upto(docs, n - 1, source_path, root, target, explicit_only, extra_roots);
        let d = docs[n - 1];
        if doc_matches(d, source_path, root, target, explicit_only, extra_roots) && !has_path(prev, d.path) {
            prev.push(doc_dest(d))
        } else {
            prev
        }
    }
}

pub open spec fn doc_matches_spec(
    docs: Seq<DocSpec>,
    source_path: Seq<char>,
    root: Seq<char>,
    target: Seq<char>,
    explicit_only: bool,
    extra_roots: Seq<Seq<char>>,
) -> Seq<DestView> {
    matches_upto(docs, docs.len() as int, source_path, root, target, explicit_only, extra_roots)
}

proof fn lemma_matches_upto_has(
    docs: Seq<DocSpec>,
    n: int,
    source_path: Seq<char>,
    root: Seq<char>,
    target: Seq<char>,
    explicit_only: bool,
    extra_roots: Seq<Seq<char>>,
    i: int,
)
    requires
        0 <= i < n <= docs.len(),
        doc_matches(docs[i], source_path, root, target, explicit_only, extra_roots),
    ensures
        has_path(matches_upto(docs, n, source_path, root, target, explicit_only, extra_roots), docs[i].path),
    decreases n,
{
    let prev = matches_upto(docs, n - 1, source_path, root, target, explicit_only, extra_roots);
    let cur = matches_upto(docs, n, source_path, root, target, explicit_only, extra_roots);
    let d = docs[n - 1];
    if i < n - 1 {
        lemma_matches_upto_has(docs, n - 1, source_path, root, target, explicit_only, extra_roots, i);
        let j = choose|j: int| 0 <= j < prev.len() && path_eq(#[trigger] prev[j].0, docs[i].path);
        if doc_matches(d, source_path, root, target, explicit_only, extra_roots) && !has_path(prev, d.path) {
            assert(cur[j] == prev[j]);
        }
        assert(path_eq(cur[j].0, docs[i].path));
    } else {
        if has_path(prev, d.path) {
            let j = choose|j: int| 0 <= j < prev.len() && path_eq(#[trigger] prev[j].0, d.path);
            assert(cur[j] == prev[j]);
        } else {
            assert(cur[prev.len() as int] == doc_dest(d));
            assert(path_eq(cur[prev.len() as int].0, d.path));
        }
    }
}

/// A target that is not an explicit path matches every document whose file stem equals
/// it ignoring ASCII case (`README.md` for `readme`): each such document is among the
/// target's matches.
pub proof fn lemma_stem_matches(
    docs: Seq<DocSpec>,
    source_path: Seq<char>,
    root: Seq<char>,
    target: Seq<char>,
    extra_roots: Seq<Seq<char>>,
    i: int,
)
    requires
        0 <= i < docs.len(),
        !spec_is_explicit(target),
        ascii_lower_seq(docs[i].file_stem) == ascii_lower_seq(target),
    ensures
        has_path(doc_matches_spec(docs, source_path, root, target, false, extra_roots), docs[i].path),
{
    lemma_matches_upto_has(docs, docs.len() as int, source_path, root, target, false, extra_roots, i);
}

fn matches_extra_root(doc: &ResolvedDocument, target: &str, er: &str) -> (b: bool)
    ensures
        b == extra_root_match(rdoc_spec(*doc), target@, er@),
{
    let resolved = resolve_explicit_path(er, er, target);
    let rel = match strip_prefix_chars(&chars_of(resolved.as_str()), &chars_of(er)) {
        Some(r) => string_of(&r),
        None => resolved.clone(),
    };
    same_path(doc.path.as_str(), resolved.as_str()) || str_eq(
        path_without_extension(doc.rel_path.as_str()).as_str(),
        path_without_extension(rel.as_str()).as_str(),
    )
}

fn matches_doc(
    doc: &ResolvedDocument,
    source_path: &str,
    root: &str,
    target: &str,
    explicit_only: bool,
    extra_roots: &[String],
    target_slug: &Slug,
) -> (b: bool)
    requires
        target_slug@ == spec_slug(target@),
    ensures
        b == doc_matches(rdoc_spec(*doc), source_path@, root@, target@, explicit_only, extra_roots@.map_values(|s: String| s@)),
{
    let ghost ers = extra_roots@.map_values(|s: String| s@);
    let rel_no_ext = path_without_extension(doc.rel_path.as_str());
    if explicit_only || is_explicit_path(target) {
        let sd = source_dir_of(source_path, root);
        let ep = resolve_explicit_path(root, sd.as_str(), target);
        if same_path(doc.path.as_str(), ep.as_str()) || str_eq(rel_no_ext.as_str(), path_without_extension(ep.as_str()).as_str()) {
            return true;
        }
        let mut k: usize = 0;
        while k < extra_roots.len()
            invariant
                k <= extra_roots@.len(),
                explicit_only || spec_is_explicit(target@),
                ers == extra_roots@.map_values(|s: String| s@),
                forall|j: int| 0 <= j < k ==> !extra_root_match(rdoc_spec(*doc), target@, #[trigger] ers[j]),
            decreases extra_roots@.len() - k,
        {
            if matches_extra_root(doc, target, extra_roots[k].as_str()) {
                assert(extra_root_match(rdoc_spec(*doc), target@, ers[k as int]));
                return true;
            }
            k += 1;
        }
        extra_roots.len() > 0 && doc.title_slug.same_as(target_slug)
    } else {
        let fixed = crate::resolution::path::backslash_to_slash_str(doc.rel_path.as_str());
        eq_ignore_case_exec(doc.file_stem.as_str(), target) || doc.title_slug.same_as(target_slug)
            || eq_ignore_case_exec(rel_no_ext.as_str(), target) || eq_ignore_case_exec(fixed.as_str(), target)
    }
}

/// The documents that `target`, linked from `source_path`, may name, each path once, in
/// document order.
pub fn find_doc_matches(
    docs: &[ResolvedDocument],
    source_path: &str,
    root: &str,
    target: &str,
    explicit_only: bool,
    extra_roots: &[String],
) -> (r: Vec<ResolvedDestination>)
    ensures
        dvs(r@) == doc_matches_spec(rdoc_specs(docs@), source_path@, root@, target@, explicit_only, extra_roots@.map_values(|s: String| s@)),
{
    let ghost ers = extra_roots@.map_values(|s: String| s@);
    let target_slug = Slug::from_heading_text(target);
    let mut out: Vec<ResolvedDestination> = Vec::new();
    let mut i: usize = 0;
    while i < docs.len()
        invariant
            i <= docs@.len(),
            rdoc_specs(docs@).len() == docs@.len(),
            forall|q: int| 0 <= q < docs@.len() ==> #[trigger] rdoc_specs(docs@)[q] == rdoc_spec(docs@[q]),
            target_slug@ == spec_slug(target@),
            ers == extra_roots@.map_values(|s: String| s@),
            dvs(out@) == matches_upto(rdoc_specs(docs@), i as int, source_path@, root@, target@, explicit_only, ers),
        decreases docs@.len() - i,
    {
        let doc = &docs[i];
        if matches_doc(doc, source_path, root, target, explicit_only, extra_roots, &target_slug) {
            let mut seen = false;
            let mut j: usize = 0;
            while j < out.len()
                invariant
                    j <= out@.len(),
                    !seen ==> forall|q: int| 0 <= q < j ==> !path_eq(#[trigger] dvs(out@)[q].0, doc.path@),
                    seen ==> has_path(dvs(out@), doc.path@),
                decreases out@.len() - j,
            {
                if !seen && same_path(out[j].path.as_str(), doc.path.as_str()) {
                    assert(path_eq(dvs(out@)[j as int].0, doc.path@));
                    seen = true;
                }
                j += 1;
            }
            if !seen {
                let ghost old_out = out@;
                out.push(ResolvedDestination {
                    path: doc.path.clone(),
                    kind: DestinationKind::Document,
                    name: doc.title_text.clone(),
                    range: None,
                });
                assert(dvs(out@) =~= dvs(old_out).push(doc_dest(rdoc_spec(*doc))));
            }
        }
        i += 1;
    }
    out
}

} // verus!
