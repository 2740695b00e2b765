use crate::config::WikiCompletionStyle;
use crate::resolution::conn::{
    doc_index, heading_pairs, tag_pairs, with_key, ConnectionGraph, Pairs, ResolvedDestination,
    ResolvedDocument,
};
use crate::resolution::path::{extension_chars, same_path, spec_extension, path_eq};
use crate::resolution::slug::{is_subseq, push_decimal, spec_decimal, Slug};
use crate::utils::strs::{
    ascii_lower_seq, ends_with, is_suffix, lemma_lex_asym, lemma_lex_le_trans, lex_lt, push_char, str_eq, str_lt, string_of,
    bpos, char_width8, chars_of, is_ascii_alnum, lemma_bpos_mono, lemma_bpos_step, occurs_at,
    occurs_at_exec, spec_is_ascii_alnum, str_byte_len, string_of_range, utf8_len,
};
use crate::utils::text::{char_index_of_byte, is_boundary, ByteRange};
use vstd::prelude::*;

verus! {

/// What the text before the cursor asks to complete.
#[derive(Clone, Copy, Debug, PartialEq, Eq, Structural)]
pub enum PromptKind {
    Empty,
    WikiDoc,
    WikiHeading,
    Tag,
}

/// The prompt before the cursor: its kind, the text typed so far and the byte range
/// that a chosen candidate replaces.
#[derive(Clone, Debug)]
pub struct Prompt {
    pub kind: PromptKind,
    pub value: String,
    pub range: ByteRange,
}

/// The last index at which `p` occurs in `s`.
#[verifier::opaque]
pub open spec fn last_occ(s: Seq<char>, p: Seq<char>) -> Option<int> {
    if exists|i: int| occurs_at(s, p, i) && forall|j: int| i < j ==> !occurs_at(s, p, j) {
        Some(choose|i: int| occurs_at(s, p, i) && forall|j: int| i < j ==> !occurs_at(s, p, j))
    } else {
        None
    }
}

/// The character index at which the cursor stands: the end of the text when the
/// cursor lies at or past it.
#[verifier::opaque]
pub open spec fn cursor_index(s: Seq<char>, cursor: int) -> int {
    if cursor >= utf8_len(s) {
        s.len() as int
    } else {
        choose|i: int| 0 <= i <= s.len() && #[trigger] bpos(s, i) == cursor
    }
}

pub open spec fn brange(start: int, end: int) -> ByteRange {
    ByteRange { start: start as usize, end: end as usize }
}

/// The prompt before the cursor. The last `[[#` opens a heading prompt; failing that,
/// the last `[[` opens a document prompt; failing that, the last `#` opens a tag prompt
/// when it starts the text or follows a character that is no ASCII letter or digit.
pub open spec fn spec_prompt(s: Seq<char>, cursor: int) -> (PromptKind, Seq<char>, ByteRange) {
    let k = cursor_index(s, cursor);
    let o = bpos(s, k) as int;
    let p = s.take(k);
    match last_occ(p, seq!['[', '[', '#']) {
        Some(i) => (PromptKind::WikiHeading, p.skip(i + 3), brange(bpos(s, i) + 3int, o)),
        None => match last_occ(p, seq!['[', '[']) {
            Some(i) => (PromptKind::WikiDoc, p.skip(i + 2), brange(bpos(s, i) + 2int, o)),
            None => match last_occ(p, seq!['#']) {
                Some(i) => if i == 0 || !spec_is_ascii_alnum(p[i - 1]) {
                    (PromptKind::Tag, p.skip(i), brange(bpos(s, i) as int, o))
                } else {
                    (PromptKind::Empty, Seq::empty(), brange(o, o))
                },
                None => (PromptKind::Empty, Seq::empty(), brange(o, o)),
            },
        },
    }
}

/// Whether a cursor may stand at byte `cursor` of `s`: at or past the end, or between
/// two characters.
pub open spec fn cursor_ok(s: Seq<char>, cursor: int) -> bool {
    cursor >= utf8_len(s) || is_boundary(s, cursor)
}

/// Occurrences within the first `k` characters are those that end by index `k`.
proof fn lemma_occurs_take(s: Seq<char>, p: Seq<char>, k: int, i: int)
    requires
        0 <= k <= s.len(),
    ensures
        occurs_at(s.take(k), p, i) == (occurs_at(s, p, i) && i + p.len() <= k),
{
    if 0 <= i && i + p.len() <= k {
        assert(s.take(k).subrange(i, i + p.len()) =~= s.subrange(i, i + p.len()));
    }
}

/// The last occurrence of `pat` within the first `k` characters of `s`.
fn rfind_before(s: &[char], k: usize, pat: &[char]) -> (r: Option<usize>)
    requires
        k <= s@.len(),
    ensures
        match r {
            Some(i) => last_occ(s@.take(k as int), pat@) == Some(i as int),
            None => last_occ(s@.take(k as int), pat@) is None,
        },
{
    let ghost p = s@.take(k as int);
    reveal(last_occ);
    if pat.len() > k {
        assert forall|t: int| !occurs_at(p, pat@, t) by {
            lemma_occurs_take(s@, pat@, k as int, t);
        }
        return None;
    }
    let mut j: usize = k - pat.len();
    assert forall|t: int| j < t implies !occurs_at(p, pat@, t) by {
        lemma_occurs_take(s@, pat@, k as int, t);
    }
    loop
        invariant
            j + pat@.len() <= k <= s@.len(),
            p == s@.take(k as int),
            forall|t: int| j < t ==> !occurs_at(p, pat@, t),
        decreases j,
    {
        let hit = occurs_at_exec(s, pat, j);
        proof {
            lemma_occurs_take(s@, pat@, k as int, j as int);
        }
        if hit {
            proof {
                reveal(last_occ);
                let c = choose|i: int| occurs_at(p, pat@, i) && forall|t: int| i < t ==> !occurs_at(p, pat@, t);
                assert(occurs_at(p, pat@, c) && forall|t: int| c < t ==> !occurs_at(p, pat@, t));
                if c < j {
                    assert(!occurs_at(p, pat@, j as int));
                }
                assert(c == j);
            }
            return Some(j);
        }
        if j == 0 {
            reveal(last_occ);
            assert forall|t: int| !occurs_at(p, pat@, t) by {
                if t == 0 {
                    assert(!occurs_at(p, pat@, j as int));
                }
            }
            return None;
        }
        j -= 1;
    }
}

/// The byte offset of character index `i`.
fn byte_pos(s: &[char], i: usize, total: usize) -> (b: usize)
    requires
        i <= s@.len(),
        total == utf8_len(s@),
    ensures
        b == bpos(s@, i as int),
{
    let mut k: usize = 0;
    let mut b: usize = 0;
    proof {
        assert(s@.take(s@.len() as int) =~= s@);
        assert(s@.take(0) =~= Seq::<char>::empty());
    }
    while k < i
        invariant
            k <= i <= s@.len(),
            total == utf8_len(s@),
            b == bpos(s@, k as int),
            s@.take(s@.len() as int) == s@,
        decreases i - k,
    {
        proof {
            lemma_bpos_step(s@, k as int);
            lemma_bpos_mono(s@, k + 1, s@.len() as int);
        }
        b = b + char_width8(s[k]);
        k += 1;
    }
    b
}

/// The prompt of the given kind whose text runs from character `from` to character `k`.
fn make_prompt(s: &[char], from: usize, k: usize, total: usize, kind: PromptKind) -> (r: Prompt)
    requires
        from <= k <= s@.len(),
        total == utf8_len(s@),
    ensures
        r.kind == kind,
        r.value@ == s@.subrange(from as int, k as int),
        r.range == brange(bpos(s@, from as int) as int, bpos(s@, k as int) as int),
{
    let start = byte_pos(s, from, total);
    let end = byte_pos(s, k, total);
    Prompt { kind, value: string_of_range(s, from, k), range: ByteRange::new(start, end) }
}

/// The character index at which a cursor allowed by `cursor_ok` stands.
fn cursor_char(s: &[char], total: usize, cursor_offset: usize) -> (k: usize)
    requires
        total == utf8_len(s@),
        cursor_ok(s@, cursor_offset as int),
    ensures
        k as int == cursor_index(s@, cursor_offset as int),
        k <= s@.len(),
{
    let ghost sv = s@;
    reveal(cursor_index);
    if cursor_offset >= total {
        s.len()
    } else {
        match char_index_of_byte(s, cursor_offset) {
            Some(i) => {
                proof {
                    let c = cursor_index(sv, cursor_offset as int);
                    assert(0 <= c <= sv.len() && bpos(sv, c) == cursor_offset);
                    if c < i {
                        lemma_bpos_mono(sv, c + 1, i as int);
                        lemma_bpos_step(sv, c);
                    } else if c > i {
                        lemma_bpos_mono(sv, i + 1, c);
                        lemma_bpos_step(sv, i as int);
                    }
                }
                i
            },
            None => {
                proof {
                    assert(false);
                }
                0
            },
        }
    }
}

/// What a found last occurrence tells of the text.
proof fn lemma_found(s: Seq<char>, k: int, pat: Seq<char>, i: int)
    requires
        0 <= k <= s.len(),
        last_occ(s.take(k), pat) == Some(i),
    ensures
        0 <= i,
        i + pat.len() <= k,
        forall|j: int| 0 <= j < pat.len() ==> s[i + j] == pat[j],
        s.take(k).skip(i + pat.len()) == s.subrange(i + pat.len(), k),
{
    reveal(last_occ);
    assert(occurs_at(s.take(k), pat, i));
    lemma_occurs_take(s, pat, k, i);
    assert(occurs_at(s, pat, i));
    assert(s.subrange(i, i + pat.len()) =~= pat);
    assert forall|j: int| 0 <= j < pat.len() implies s[i + j] == pat[j] by {
        assert(s.subrange(i, i + pat.len())[j] == s[i + j]);
    }
    assert(s.take(k).skip(i + pat.len()) =~= s.subrange(i + pat.len(), k));
}

/// Characters below 0x80 take one byte each.
proof fn lemma_ascii_run(s: Seq<char>, i: int, n: int)
    requires
        0 <= i,
        0 <= n,
        i + n <= s.len(),
        forall|j: int| i <= j < i + n ==> (#[trigger] s[j] as u32) < 0x80,
    ensures
        bpos(s, i + n) == bpos(s, i) + n,
    decreases n,
{
    if n > 0 {
        lemma_ascii_run(s, i, n - 1);
        lemma_bpos_step(s, i + n - 1);
        assert((s[i + n - 1] as u32) < 0x80);
    }
}

/// Classifies the text before the cursor.
pub fn detect_prefix(input: &str, cursor_offset: usize) -> (r: Prompt)
    requires
        cursor_ok(input@, cursor_offset as int),
    ensures
        (r.kind, r.value@, r.range) == spec_prompt(input@, cursor_offset as int),
{
    let s = chars_of(input);
    let total = str_byte_len(input);
    let ghost sv = s@;
    let k = cursor_char(&s, total, cursor_offset);
    let heading_pat = vec!['[', '[', '#'];
    assert(heading_pat@ =~= seq!['[', '[', '#']);
    if let Some(i) = rfind_before(&s, k, &heading_pat) {
        proof {
            lemma_found(sv, k as int, heading_pat@, i as int);
            assert(sv[i + 0] == '[' && sv[i + 1] == '[' && sv[i + 2] == '#');
            lemma_ascii_run(sv, i as int, 3);
        }
        return make_prompt(&s, i + 3, k, total, PromptKind::WikiHeading);
    }
    let doc_pat = vec!['[', '['];
    assert(doc_pat@ =~= seq!['[', '[']);
    if let Some(i) = rfind_before(&s, k, &doc_pat) {
        proof {
            lemma_found(sv, k as int, doc_pat@, i as int);
            assert(sv[i + 0] == '[' && sv[i + 1] == '[');
            lemma_ascii_run(sv, i as int, 2);
        }
        return make_prompt(&s, i + 2, k, total, PromptKind::WikiDoc);
    }
    let tag_pat = vec!['#'];
    assert(tag_pat@ =~= seq!['#']);
    if let Some(i) = rfind_before(&s, k, &tag_pat) {
        proof {
            lemma_found(sv, k as int, tag_pat@, i as int);
        }
        if i == 0 || !is_ascii_alnum(s[i - 1]) {
            return make_prompt(&s, i, k, total, PromptKind::Tag);
        }
    }
    let r = make_prompt(&s, k, k, total, PromptKind::Empty);
    assert(r.value@ =~= Seq::<char>::empty());
    r
}

/// What a completion request needs: the document being edited, its text and the
/// cursor's byte offset in it, the resolved workspace, the wiki-link insertion style
/// and the most candidates to offer.
#[derive(Clone, Debug)]
pub struct CompletionParams {
    pub path: String,
    pub source_text: String,
    pub cursor_offset: usize,
    pub graph: ConnectionGraph,
    pub style: WikiCompletionStyle,
    pub max_candidates: usize,
}

/// A completion candidate: what the list shows, a detail line, the byte range that
/// choosing it replaces, and the text it inserts.
#[derive(Clone, Debug)]
pub struct CompletionItem {
    pub label: String,
    pub detail: Option<String>,
    pub replace_range: ByteRange,
    pub insert_text: String,
}

/// A candidate as plain values: label, detail, replaced range and inserted text.
pub type ItemView = (Seq<char>, Option<Seq<char>>, ByteRange, Seq<char>);

pub open spec fn opt_view(o: Option<String>) -> Option<Seq<char>> {
    match o {
        Some(s) => Some(s@),
        None => None,
    }
}

pub open spec fn item_view(i: CompletionItem) -> ItemView {
    (i.label@, opt_view(i.detail), i.replace_range, i.insert_text@)
}

pub open spec fn item_views(v: Seq<CompletionItem>) -> Seq<ItemView> {
    v.map_values(|i: CompletionItem| item_view(i))
}

/// Case-insensitive (for ASCII letters) subsequence match of `needle` in `hay`.
pub open spec fn fuzzy(hay: Seq<char>, needle: Seq<char>) -> bool {
    is_subseq(ascii_lower_seq(needle), ascii_lower_seq(hay))
}

/// The first `n` candidates, or all of them when there are fewer.
pub open spec fn cap(s: Seq<ItemView>, n: int) -> Seq<ItemView> {
    if n < s.len() {
        s.take(n)
    } else {
        s
    }
}

/// A path less the `.` and extension that end its file name.
pub open spec fn spec_strip_extension(p: Seq<char>) -> Seq<char> {
    match spec_extension(p) {
        Some(e) => if is_suffix(seq!['.'] + e, p) {
            p.take(p.len() - (e.len() + 1))
        } else {
            p
        },
        None => p,
    }
}

/// What a document candidate inserts in the given style.
pub open spec fn insert_text_for(d: ResolvedDocument, style: WikiCompletionStyle) -> Seq<char> {
    match style {
        WikiCompletionStyle::TitleSlug => d.title_slug@,
        WikiCompletionStyle::Title => d.title_text@,
        WikiCompletionStyle::FileStem => d.file_stem@,
        WikiCompletionStyle::FilePathStem => spec_strip_extension(d.rel_path@),
    }
}

/// Whether a document is offered for `needle` from the document at `src`: it is another
/// document, and `needle` matches its title slug or its file stem.
pub open spec fn doc_offered(d: ResolvedDocument, src: Seq<char>, needle: Seq<char>) -> bool {
    !path_eq(d.path@, src) && (fuzzy(d.title_slug@, needle) || fuzzy(d.file_stem@, needle))
}

/// Document candidates, in document order.
pub open spec fn doc_candidates(
    docs: Seq<ResolvedDocument>,
    src: Seq<char>,
    needle: Seq<char>,
    range: ByteRange,
    style: WikiCompletionStyle,
) -> Seq<ItemView>
    decreases docs.len(),
{
    if docs.len() == 0 {
        Seq::empty()
    } else {
        let rest = doc_candidates(docs.drop_last(), src, needle, range, style);
        let d = docs.last();
        if doc_offered(d, src, needle) {
            rest.push((d.title_text@, Some(d.rel_path@), range, insert_text_for(d, style)))
        } else {
            rest
        }
    }
}

/// Document completion offers every other document whose file stem holds the typed text
/// as a subsequence, ignoring ASCII case, whatever its title: a candidate for it (labelled
/// with its relative path) is among the document candidates.
pub proof fn lemma_stem_offered(
    docs: Seq<ResolvedDocument>,
    src: Seq<char>,
    needle: Seq<char>,
    range: ByteRange,
    style: WikiCompletionStyle,
    i: int,
)
    requires
        0 <= i < docs.len(),
        !path_eq(docs[i].path@, src),
        is_subseq(ascii_lower_seq(needle), ascii_lower_seq(docs[i].file_stem@)),
    ensures
        exists|k: int|
            0 <= k < doc_candidates(docs, src, needle, range, style).len() && (#[trigger] doc_candidates(
                docs,
                src,
                needle,
                range,
                style,
            )[k]).1 == Some(docs[i].rel_path@),
    decreases docs.len(),
{
    let c = doc_candidates(docs, src, needle, range, style);
    let rest = doc_candidates(docs.drop_last(), src, needle, range, style);
    if i == docs.len() - 1 {
        assert(c[rest.len() as int].1 == Some(docs[i].rel_path@));
    } else {
        assert(docs.drop_last()[i] == docs[i]);
        lemma_stem_offered(docs.drop_last(), src, needle, range, style, i);
        let k = choose|k: int| 0 <= k < rest.len() && (#[trigger] rest[k]).1 == Some(docs[i].rel_path@);
        assert(c[k] == rest[k]);
    }
}

/// Heading candidates of a document whose relative path is `rel`, in document order.
pub open spec fn heading_candidates(hs: Pairs, rel: Seq<char>, needle: Seq<char>, range: ByteRange) -> Seq<ItemView>
    decreases hs.len(),
{
    if hs.len() == 0 {
        Seq::empty()
    } else {
        let rest = heading_candidates(hs.drop_last(), rel, needle, range);
        let h = hs.last();
        if fuzzy(h.0, needle) {
            rest.push((h.1.2, Some(rel), range, h.0))
        } else {
            rest
        }
    }
}

/// The distinct keys of `p`, in the order of their first occurrence.
pub open spec fn keys_of(p: Pairs) -> Seq<Seq<char>>
    decreases p.len(),
{
    if p.len() == 0 {
        Seq::empty()
    } else {
        let ks = keys_of(p.drop_last());
        if ks.contains(p.last().0) {
            ks
        } else {
            ks.push(p.last().0)
        }
    }
}

/// The detail of a tag candidate: how many destinations the tag has, then ` refs`.
pub open spec fn refs_detail(n: nat) -> Seq<char> {
    spec_decimal(n) + seq![' ', 'r', 'e', 'f', 's']
}

/// Tag candidates for the keys `ks` of one document's tags `p`.
pub open spec fn key_candidates(ks: Seq<Seq<char>>, p: Pairs, needle: Seq<char>, range: ByteRange) -> Seq<ItemView>
    decreases ks.len(),
{
    if ks.len() == 0 {
        Seq::empty()
    } else {
        let rest = key_candidates(ks.drop_last(), p, needle, range);
        let k = ks.last();
        if fuzzy(k, needle) {
            rest.push((k, Some(refs_detail(with_key(p, k).len())), range, k))
        } else {
            rest
        }
    }
}

/// Tag candidates of all documents: per document, each distinct tag once, in document
/// order.
pub open spec fn tag_candidates(docs: Seq<ResolvedDocument>, needle: Seq<char>, range: ByteRange) -> Seq<ItemView>
    decreases docs.len(),
{
    if docs.len() == 0 {
        Seq::empty()
    } else {
        let d = docs.last();
        tag_candidates(docs.drop_last(), needle, range) + key_candidates(keys_of(tag_pairs(d)), tag_pairs(d), needle, range)
    }
}

/// Inserts `x` into `s` after every candidate whose label is not greater than its own.
pub open spec fn insert_by_label(s: Seq<ItemView>, x: ItemView) -> Seq<ItemView>
    decreases s.len(),
{
    if s.len() == 0 {
        seq![x]
    } else if lex_lt(x.0, s.last().0) {
        insert_by_label(s.drop_last(), x).push(s.last())
    } else {
        s.push(x)
    }
}

/// The candidates sorted by label, candidates with equal labels keeping their order.
pub open spec fn sort_by_label(s: Seq<ItemView>) -> Seq<ItemView>
    decreases s.len(),
{
    if s.len() == 0 {
        Seq::empty()
    } else {
        insert_by_label(sort_by_label(s.drop_last()), s.last())
    }
}

/// The candidates offered at the cursor.
pub open spec fn spec_complete(p: CompletionParams) -> Seq<ItemView> {
    let prompt = spec_prompt(p.source_text@, p.cursor_offset as int);
    let docs = p.graph.documents@;
    let n = p.max_candidates as int;
    match prompt.0 {
        PromptKind::WikiDoc => match doc_index(docs, p.path@) {
            Some(i) => cap(doc_candidates(docs, docs[i].path@, prompt.1, prompt.2, p.style), n),
            None => Seq::empty(),
        },
        PromptKind::WikiHeading => match doc_index(docs, p.path@) {
            Some(i) => cap(heading_candidates(heading_pairs(docs[i]), docs[i].rel_path@, prompt.1, prompt.2), n),
            None => Seq::empty(),
        },
        PromptKind::Tag => cap(sort_by_label(tag_candidates(docs, prompt.1, prompt.2)), n),
        PromptKind::Empty => Seq::empty(),
    }
}

/// The path less the `.` and extension that end its file name.
fn strip_extension(p: &str) -> (r: String)
    ensures
        r@ == spec_strip_extension(p@),
{
    let s = chars_of(p);
    match extension_chars(&s) {
        Some(e) => {
            let mut suffix: Vec<char> = Vec::new();
            suffix.push('.');
            let mut k: usize = 0;
            while k < e.len()
                invariant
                    k <= e@.len(),
                    suffix@ =~= seq!['.'] + e@.take(k as int),
                decreases e@.len() - k,
            {
                suffix.push(e[k]);
                assert(e@.take(k + 1) =~= e@.take(k as int).push(e@[k as int]));
                k += 1;
            }
            assert(e@.take(e@.len() as int) =~= e@);
            if ends_with(&s, &suffix) {
                string_of_range(&s, 0, s.len() - suffix.len())
            } else {
                string_of(&s)
            }
        },
        None => string_of(&s),
    }
}

/// What a document candidate inserts in the given style.
fn insert_text_of(d: &ResolvedDocument, style: WikiCompletionStyle) -> (r: String)
    ensures
        r@ == insert_text_for(*d, style),
{
    match style {
        WikiCompletionStyle::TitleSlug => d.title_slug.text(),
        WikiCompletionStyle::Title => d.title_text.clone(),
        WikiCompletionStyle::FileStem => d.file_stem.clone(),
        WikiCompletionStyle::FilePathStem => strip_extension(d.rel_path.as_str()),
    }
}

/// Other documents whose title slug or file stem matches `needle`.
fn complete_docs(params: &CompletionParams, needle: &str, range: ByteRange) -> (r: Vec<CompletionItem>)
    ensures
        item_views(r@) == match doc_index(params.graph.documents@, params.path@) {
            Some(i) => cap(
                doc_candidates(params.graph.documents@, params.graph.documents@[i].path@, needle@, range, params.style),
                params.max_candidates as int,
            ),
            None => Seq::empty(),
        },
{
    let source_doc = match params.graph.document_for_path(params.path.as_str()) {
        Some(d) => d,
        None => {
            assert(item_views(Seq::<CompletionItem>::empty()) =~= Seq::<ItemView>::empty());
            return Vec::new();
        },
    };
    let docs = &params.graph.documents;
    let ghost dv = docs@;
    let mut items: Vec<CompletionItem> = Vec::new();
    let mut i: usize = 0;
    assert(item_views(items@) =~= doc_candidates(dv.take(0), source_doc.path@, needle@, range, params.style));
    while i < docs.len()
        invariant
            i <= dv.len(),
            dv == docs@,
            item_views(items@) =~= doc_candidates(dv.take(i as int), source_doc.path@, needle@, range, params.style),
        decreases dv.len() - i,
    {
        let doc = &docs[i];
        assert(dv.take(i + 1).drop_last() =~= dv.take(i as int));
        let keep = !same_path(doc.path.as_str(), source_doc.path.as_str()) && (Slug::is_subsequence(
            doc.title_slug.as_str(),
            needle,
        ) || Slug::is_subsequence(doc.file_stem.as_str(), needle));
        if keep {
            let item = CompletionItem {
                label: doc.title_text.clone(),
                detail: Some(doc.rel_path.clone()),
                replace_range: range,
                insert_text: insert_text_of(doc, params.style),
            };
            items.push(item);
            assert(item_views(items@) =~= item_views(items@.drop_last()).push(item_view(item)));
        }
        i += 1;
    }
    assert(dv.take(dv.len() as int) =~= dv);
    let ghost full = items@;
    items.truncate(params.max_candidates);
    proof {
        if (params.max_candidates as int) < full.len() {
            assert(item_views(items@) =~= item_views(full).take(params.max_candidates as int));
        }
    }
    items
}

/// Headings of the document being edited whose slug matches `needle`.
fn complete_headings(params: &CompletionParams, needle: &str, range: ByteRange) -> (r: Vec<CompletionItem>)
    ensures
        item_views(r@) == match doc_index(params.graph.documents@, params.path@) {
            Some(i) => cap(
                heading_candidates(
                    heading_pairs(params.graph.documents@[i]),
                    params.graph.documents@[i].rel_path@,
                    needle@,
                    range,
                ),
                params.max_candidates as int,
            ),
            None => Seq::empty(),
        },
{
    let source_doc = match params.graph.document_for_path(params.path.as_str()) {
        Some(d) => d,
        None => {
            assert(item_views(Seq::<CompletionItem>::empty()) =~= Seq::<ItemView>::empty());
            return Vec::new();
        },
    };
    let hs = &source_doc.headings;
    let ghost hp = heading_pairs(*source_doc);
    let mut items: Vec<CompletionItem> = Vec::new();
    let mut i: usize = 0;
    assert(item_views(items@) =~= heading_candidates(hp.take(0), source_doc.rel_path@, needle@, range));
    while i < hs.len()
        invariant
            i <= hs@.len(),
            hp == heading_pairs(*source_doc),
            hp.len() == hs@.len(),
            hs == &source_doc.headings,
            item_views(items@) =~= heading_candidates(hp.take(i as int), source_doc.rel_path@, needle@, range),
        decreases hs@.len() - i,
    {
        assert(hp.take(i + 1).drop_last() =~= hp.take(i as int));
        assert(hp[i as int] == (hs@[i as int].0@, crate::resolution::conn::dv(hs@[i as int].1)));
        if Slug::is_subsequence(hs[i].0.as_str(), needle) {
            let item = CompletionItem {
                label: hs[i].1.name.clone(),
                detail: Some(source_doc.rel_path.clone()),
                replace_range: range,
                insert_text: hs[i].0.text(),
            };
            items.push(item);
            assert(item_views(items@) =~= item_views(items@.drop_last()).push(item_view(item)));
        }
        i += 1;
    }
    assert(hp.take(hp.len() as int) =~= hp);
    let ghost full = items@;
    items.truncate(params.max_candidates);
    proof {
        if (params.max_candidates as int) < full.len() {
            assert(item_views(items@) =~= item_views(full).take(params.max_candidates as int));
        }
    }
    items
}

impl CompletionItem {
    /// An equal copy.
    pub fn duplicate(&self) -> (r: Self)
        ensures
            item_view(r) == item_view(*self),
    {
        CompletionItem {
            label: self.label.clone(),
            detail: match &self.detail {
                Some(d) => Some(d.clone()),
                None => None,
            },
            replace_range: self.replace_range,
            insert_text: self.insert_text.clone(),
        }
    }
}

/// The distinct tag names of a document, in the order of their first occurrence.
fn tag_keys(d: &ResolvedDocument) -> (r: Vec<String>)
    ensures
        r@.map_values(|s: String| s@) == keys_of(tag_pairs(*d)),
{
    let ghost tp = tag_pairs(*d);
    let mut keys: Vec<String> = Vec::new();
    let mut i: usize = 0;
    assert(keys@.map_values(|s: String| s@) =~= keys_of(tp.take(0)));
    while i < d.tags.len()
        invariant
            i <= d.tags@.len(),
            tp == tag_pairs(*d),
            tp.len() == d.tags@.len(),
            keys@.map_values(|s: String| s@) == keys_of(tp.take(i as int)),
        decreases d.tags@.len() - i,
    {
        let ghost ks = keys@.map_values(|s: String| s@);
        assert(tp.take(i + 1).drop_last() =~= tp.take(i as int));
        assert(tp[i as int].0 == d.tags@[i as int].0@);
        let name = &d.tags[i].0;
        let mut seen = false;
        let mut j: usize = 0;
        while j < keys.len()
            invariant
                j <= keys@.len(),
                ks == keys@.map_values(|s: String| s@),
                seen == exists|t: int| 0 <= t < j && ks[t] == name@,
            decreases keys@.len() - j,
        {
            assert(ks[j as int] == keys@[j as int]@);
            if str_eq(keys[j].as_str(), name.as_str()) {
                seen = true;
            }
            j += 1;
        }
        if seen {
            assert(ks.contains(name@));
        } else {
            assert(!ks.contains(name@));
            keys.push(name.clone());
            assert(keys@.map_values(|s: String| s@) =~= ks.push(name@));
        }
        i += 1;
    }
    assert(tp.take(tp.len() as int) =~= tp);
    keys
}

/// How many tag destinations of a document are filed under `key`.
fn count_key(d: &ResolvedDocument, key: &str) -> (n: usize)
    ensures
        n == with_key(tag_pairs(*d), key@).len(),
{
    let ghost tp = tag_pairs(*d);
    let mut n: usize = 0;
    let mut i: usize = 0;
    while i < d.tags.len()
        invariant
            i <= d.tags@.len(),
            tp == tag_pairs(*d),
            tp.len() == d.tags@.len(),
            n <= i,
            n == with_key(tp.take(i as int), key@).len(),
        decreases d.tags@.len() - i,
    {
        assert(tp.take(i + 1).drop_last() =~= tp.take(i as int));
        assert(tp[i as int].0 == d.tags@[i as int].0@);
        if str_eq(d.tags[i].0.as_str(), key) {
            n += 1;
        }
        i += 1;
    }
    assert(tp.take(tp.len() as int) =~= tp);
    n
}

/// The tag candidates of one document.
fn doc_tag_items(d: &ResolvedDocument, needle: &str, range: ByteRange) -> (r: Vec<CompletionItem>)
    ensures
        item_views(r@) == key_candidates(keys_of(tag_pairs(*d)), tag_pairs(*d), needle@, range),
{
    let keys = tag_keys(d);
    let ghost ks = keys_of(tag_pairs(*d));
    let mut items: Vec<CompletionItem> = Vec::new();
    let mut i: usize = 0;
    assert(item_views(items@) =~= key_candidates(ks.take(0), tag_pairs(*d), needle@, range));
    while i < keys.len()
        invariant
            i <= keys@.len(),
            ks == keys@.map_values(|s: String| s@),
            item_views(items@) == key_candidates(ks.take(i as int), tag_pairs(*d), needle@, range),
        decreases keys@.len() - i,
    {
        assert(ks.take(i + 1).drop_last() =~= ks.take(i as int));
        assert(ks[i as int] == keys@[i as int]@);
        if Slug::is_subsequence(keys[i].as_str(), needle) {
            let count = count_key(d, keys[i].as_str());
            let mut detail = String::new();
            push_decimal(&mut detail, count);
            push_char(&mut detail, ' ');
            push_char(&mut detail, 'r');
            push_char(&mut detail, 'e');
            push_char(&mut detail, 'f');
            push_char(&mut detail, 's');
            assert(detail@ =~= refs_detail(count as nat));
            let item = CompletionItem {
                label: keys[i].clone(),
                detail: Some(detail),
                replace_range: range,
                insert_text: keys[i].clone(),
            };
            items.push(item);
            assert(item_views(items@) =~= item_views(items@.drop_last()).push(item_view(item)));
        }
        i += 1;
    }
    assert(ks.take(ks.len() as int) =~= ks);
    items
}

/// Inserts `x` into `out` after every candidate whose label is not greater than its own.
fn insert_item(out: &mut Vec<CompletionItem>, x: CompletionItem)
    ensures
        item_views(final(out)@) == insert_by_label(item_views(old(out)@), item_view(x)),
{
    let ghost os = item_views(out@);
    let ghost xv = item_view(x);
    let mut j: usize = out.len();
    assert(os.take(j as int) =~= os && os.skip(j as int) =~= Seq::<ItemView>::empty());
    while j > 0 && str_lt(x.label.as_str(), out[j - 1].label.as_str())
        invariant
            j <= out@.len(),
            os == item_views(out@),
            xv == item_view(x),
            insert_by_label(os, xv) == insert_by_label(os.take(j as int), xv) + os.skip(j as int),
        decreases j,
    {
        proof {
            let tj = os.take(j as int);
            assert(tj.drop_last() =~= os.take(j - 1));
            assert(tj.last() == os[j - 1]);
            assert(insert_by_label(tj, xv) == insert_by_label(os.take(j - 1), xv).push(os[j - 1]));
            assert(insert_by_label(os.take(j - 1), xv).push(os[j - 1]) + os.skip(j as int)
                =~= insert_by_label(os.take(j - 1), xv) + os.skip(j - 1));
        }
        j -= 1;
    }
    proof {
        if j > 0 {
            let tj = os.take(j as int);
            assert(tj.last() == os[j - 1]);
            assert(insert_by_label(tj, xv) == tj.push(xv));
        } else {
            assert(insert_by_label(os.take(0), xv) == seq![xv]);
        }
    }
    out.insert(j, x);
    assert(item_views(out@) =~= os.take(j as int).push(xv) + os.skip(j as int));
}

/// The candidates sorted by label, candidates with equal labels keeping their order.
fn sort_items(v: &Vec<CompletionItem>) -> (r: Vec<CompletionItem>)
    ensures
        item_views(r@) == sort_by_label(item_views(v@)),
{
    let ghost vs = item_views(v@);
    let mut out: Vec<CompletionItem> = Vec::new();
    let mut i: usize = 0;
    assert(item_views(out@) =~= sort_by_label(vs.take(0)));
    while i < v.len()
        invariant
            i <= v@.len(),
            vs == item_views(v@),
            item_views(out@) == sort_by_label(vs.take(i as int)),
        decreases v@.len() - i,
    {
        assert(vs.take(i + 1).drop_last() =~= vs.take(i as int));
        assert(vs.take(i + 1).last() == item_view(v@[i as int]));
        insert_item(&mut out, v[i].duplicate());
        i += 1;
    }
    assert(vs.take(vs.len() as int) =~= vs);
    out
}

/// Tags of all documents that match `needle`, sorted by name.
fn complete_tags(params: &CompletionParams, needle: &str, range: ByteRange) -> (r: Vec<CompletionItem>)
    ensures
        item_views(r@) == cap(
            sort_by_label(tag_candidates(params.graph.documents@, needle@, range)),
            params.max_candidates as int,
        ),
{
    let docs = &params.graph.documents;
    let ghost dv = docs@;
    let mut items: Vec<CompletionItem> = Vec::new();
    let mut i: usize = 0;
    assert(item_views(items@) =~= tag_candidates(dv.take(0), needle@, range));
    while i < docs.len()
        invariant
            i <= dv.len(),
            dv == docs@,
            item_views(items@) == tag_candidates(dv.take(i as int), needle@, range),
        decreases dv.len() - i,
    {
        assert(dv.take(i + 1).drop_last() =~= dv.take(i as int));
        let mut more = doc_tag_items(&docs[i], needle, range);
        let ghost before = items@;
        let ghost added = more@;
        items.append(&mut more);
        assert(item_views(items@) =~= item_views(before) + item_views(added)) by {
            assert(items@ =~= before + added);
        }
        i += 1;
    }
    assert(dv.take(dv.len() as int) =~= dv);
    let mut sorted = sort_items(&items);
    let ghost full = sorted@;
    sorted.truncate(params.max_candidates);
    proof {
        if (params.max_candidates as int) < full.len() {
            assert(item_views(sorted@) =~= item_views(full).take(params.max_candidates as int));
        }
    }
    sorted
}

/// The completion candidates at the cursor: documents after `[[`, headings of the
/// document being edited after `[[#`, tags after `#`, and nothing elsewhere.
pub fn complete_at(params: CompletionParams) -> (r: Vec<CompletionItem>)
    requires
        cursor_ok(params.source_text@, params.cursor_offset as int),
    ensures
        item_views(r@) == spec_complete(params),
{
    let prompt = detect_prefix(params.source_text.as_str(), params.cursor_offset);
    match prompt.kind {
        PromptKind::WikiDoc => complete_docs(&params, prompt.value.as_str(), prompt.range),
        PromptKind::WikiHeading => complete_headings(&params, prompt.value.as_str(), prompt.range),
        PromptKind::Tag => complete_tags(&params, prompt.value.as_str(), prompt.range),
        PromptKind::Empty => {
            assert(item_views(Seq::<CompletionItem>::empty()) =~= Seq::<ItemView>::empty());
            Vec::new()
        },
    }
}

/// No candidate sorts after a later one.
pub open spec fn sorted_by_label(s: Seq<ItemView>) -> bool {
    forall|i: int, j: int| 0 <= i < j < s.len() ==> !lex_lt(#[trigger] s[j].0, #[trigger] s[i].0)
}

proof fn lemma_insert_by_label(s: Seq<ItemView>, x: ItemView)
    requires
        sorted_by_label(s),
    ensures
        sorted_by_label(insert_by_label(s, x)),
        insert_by_label(s, x).to_multiset() == s.to_multiset().insert(x),
    decreases s.len(),
{
    broadcast use vstd::seq_lib::group_to_multiset_ensures;
    if s.len() == 0 {
        assert(seq![x] =~= Seq::<ItemView>::empty().push(x));
    } else if lex_lt(x.0, s.last().0) {
        let t = s.drop_last();
        let l = s.last();
        assert(sorted_by_label(t)) by {
            assert forall|i: int, j: int| 0 <= i < j < t.len() implies !lex_lt(#[trigger] t[j].0, #[trigger] t[i].0) by {
                assert(t[i] == s[i] && t[j] == s[j]);
            }
        }
        lemma_insert_by_label(t, x);
        let u = insert_by_label(t, x);
        lemma_lex_asym(x.0, l.0);
        assert forall|k: int| 0 <= k < u.len() implies !lex_lt(l.0, #[trigger] u[k].0) by {
            assert(u.to_multiset().count(u[k]) > 0);
            assert(u.contains(u[k]));
            if u[k] != x {
                assert(t.to_multiset().count(u[k]) > 0);
                assert(t.contains(u[k]));
                let q = choose|q: int| 0 <= q < t.len() && t[q] == u[k];
                assert(s[q] == t[q]);
                assert(s[s.len() - 1] == l);
            }
        }
        assert forall|i: int, j: int| 0 <= i < j < u.push(l).len() implies !lex_lt(#[trigger] u.push(l)[j].0, #[trigger] u.push(l)[i].0) by {
            if j == u.len() {
                assert(u.push(l)[i] == u[i]);
            } else {
                assert(u.push(l)[i] == u[i] && u.push(l)[j] == u[j]);
            }
        }
        assert(s =~= t.push(l));
    } else {
        let l = s.last();
        assert forall|i: int, j: int| 0 <= i < j < s.push(x).len() implies !lex_lt(#[trigger] s.push(x)[j].0, #[trigger] s.push(x)[i].0) by {
            if j == s.len() {
                assert(s.push(x)[i] == s[i]);
                if i < s.len() - 1 {
                    assert(!lex_lt(s[s.len() - 1].0, s[i].0));
                }
                lemma_lex_le_trans(s[i].0, l.0, x.0);
            } else {
                assert(s.push(x)[i] == s[i] && s.push(x)[j] == s[j]);
            }
        }
    }
}

/// Sorting by label yields the same candidates, each label no greater than the next.
pub proof fn lemma_sort_by_label(s: Seq<ItemView>)
    ensures
        sorted_by_label(sort_by_label(s)),
        sort_by_label(s).to_multiset() == s.to_multiset(),
    decreases s.len(),
{
    broadcast use vstd::seq_lib::group_to_multiset_ensures;
    if s.len() > 0 {
        lemma_sort_by_label(s.drop_last());
        lemma_insert_by_label(sort_by_label(s.drop_last()), s.last());
        assert(s =~= s.drop_last().push(s.last()));
    }
}

} // verus!
