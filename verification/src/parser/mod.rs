pub mod ast;
pub mod blocks;
pub mod cst;
pub mod headings;
pub mod scanner;
pub mod symbols;
pub mod tags;

use crate::parser::ast::{Ast, AstElement};
use crate::parser::blocks::{content_end, frontmatter_end};
use crate::parser::cst::{duplicate_text, Cst, CstElement, Heading, MdLink, MdLinkDef, Tag, TextNode, WikiLink};
use crate::parser::headings::{heading_el_ok, heading_lines, parse_headings};
use crate::parser::scanner::{
    br, byte_offsets, doc_items, item_ok, lemma_item_range, lemma_merge_len, merge_items, merge_runs,
    scan_document, text_node_ok, ScanItem, ScanKind,
};
use crate::parser::symbols::{build_symbols, sym_ok, SymbolOccurrence, SymKind, Def};
use crate::resolution::slug::Slug;
use crate::utils::strs::{chars_of, str_byte_len};
use crate::utils::text::{ByteRange, Text};
use std::collections::HashMap;
use vstd::prelude::*;

verus! {

/// How headings are read.
#[derive(Clone, Copy, Debug, PartialEq, Eq, Structural)]
pub struct ParseOptions {
    /// A level-one heading is the document's title.
    pub title_from_heading: bool,
    /// Repeated heading slugs get a numeric suffix.
    pub heading_ids: bool,
}

impl Default for ParseOptions {
    fn default() -> (r: Self)
        ensures
            r.title_from_heading,
            r.heading_ids,
    {
        ParseOptions { title_from_heading: true, heading_ids: true }
    }
}

/// What a document holds, grouped by kind, in document order.
#[derive(Clone, Debug, Default)]
pub struct Index {
    pub titles: Vec<Heading>,
    pub headings: Vec<Heading>,
    /// Each distinct slug, in order of first appearance, with the headings that carry it.
    pub headings_by_slug: Vec<(Slug, Vec<Heading>)>,
    pub wiki_links: Vec<WikiLink>,
    pub md_links: Vec<MdLink>,
    pub link_defs: Vec<MdLinkDef>,
    pub tags: Vec<Tag>,
    pub yaml_front_matter: Option<TextNode>,
}

/// A parsed document.
#[derive(Clone, Debug)]
pub struct Structure {
    pub cst: Cst,
    pub ast: Ast,
    pub symbols: Vec<SymbolOccurrence>,
    pub index: Index,
    pub text: Text,
}

/// The AST elements of the CST elements, in order; front matter has none.
pub open spec fn ast_of(els: Seq<CstElement>) -> Seq<AstElement>
    decreases els.len(),
{
    if els.len() == 0 {
        Seq::empty()
    } else {
        let rest = ast_of(els.drop_last());
        match els.last() {
            CstElement::H(n) => rest.push(AstElement::H(n.data)),
            CstElement::WL(n) => rest.push(AstElement::WL(n.data)),
            CstElement::ML(n) => rest.push(AstElement::ML(n.data)),
            CstElement::MLD(n) => rest.push(AstElement::MLD(n.data)),
            CstElement::T(n) => rest.push(AstElement::T(n.data)),
            CstElement::Yml(_) => rest,
        }
    }
}

pub proof fn lemma_ast_of_len(els: Seq<CstElement>)
    ensures
        ast_of(els).len() <= els.len(),
    decreases els.len(),
{
    if els.len() > 0 {
        lemma_ast_of_len(els.drop_last());
    }
}

fn build_ast(elements: &Vec<CstElement>) -> (r: Ast)
    ensures
        r.elements@ == ast_of(elements@),
{
    let mut ast: Vec<AstElement> = Vec::new();
    let mut i: usize = 0;
    while i < elements.len()
        invariant
            i <= elements@.len(),
            ast@ == ast_of(elements@.take(i as int)),
        decreases elements@.len() - i,
    {
        assert(elements@.take(i + 1).drop_last() =~= elements@.take(i as int));
        match &elements[i] {
            CstElement::H(node) => ast.push(AstElement::H(node.data.duplicate())),
            CstElement::WL(node) => ast.push(AstElement::WL(node.data.duplicate())),
            CstElement::ML(node) => ast.push(AstElement::ML(node.data.duplicate())),
            CstElement::MLD(node) => ast.push(AstElement::MLD(node.data.duplicate())),
            CstElement::T(node) => ast.push(AstElement::T(node.data.duplicate())),
            CstElement::Yml(_) => {},
        }
        i += 1;
    }
    assert(elements@.take(i as int) =~= elements@);
    Ast { elements: ast }
}

pub open spec fn headings_of(a: Seq<AstElement>) -> Seq<Heading>
    decreases a.len(),
{
    if a.len() == 0 {
        Seq::empty()
    } else {
        match a.last() {
            AstElement::H(h) => headings_of(a.drop_last()).push(h),
            _ => headings_of(a.drop_last()),
        }
    }
}

pub open spec fn wiki_links_of(a: Seq<AstElement>) -> Seq<WikiLink>
    decreases a.len(),
{
    if a.len() == 0 {
        Seq::empty()
    } else {
        match a.last() {
            AstElement::WL(w) => wiki_links_of(a.drop_last()).push(w),
            _ => wiki_links_of(a.drop_last()),
        }
    }
}

pub open spec fn md_links_of(a: Seq<AstElement>) -> Seq<MdLink>
    decreases a.len(),
{
    if a.len() == 0 {
        Seq::empty()
    } else {
        match a.last() {
            AstElement::ML(m) => md_links_of(a.drop_last()).push(m),
            _ => md_links_of(a.drop_last()),
        }
    }
}

pub open spec fn link_defs_of(a: Seq<AstElement>) -> Seq<MdLinkDef>
    decreases a.len(),
{
    if a.len() == 0 {
        Seq::empty()
    } else {
        match a.last() {
            AstElement::MLD(d) => link_defs_of(a.drop_last()).push(d),
            _ => link_defs_of(a.drop_last()),
        }
    }
}

pub open spec fn tags_of(a: Seq<AstElement>) -> Seq<Tag>
    decreases a.len(),
{
    if a.len() == 0 {
        Seq::empty()
    } else {
        match a.last() {
            AstElement::T(t) => tags_of(a.drop_last()).push(t),
            _ => tags_of(a.drop_last()),
        }
    }
}

/// The headings that are titles.
pub open spec fn titles_of(hs: Seq<Heading>) -> Seq<Heading>
    decreases hs.len(),
{
    if hs.len() == 0 {
        Seq::empty()
    } else if hs.last().is_title {
        titles_of(hs.drop_last()).push(hs.last())
    } else {
        titles_of(hs.drop_last())
    }
}

/// The headings whose slug is `key`.
pub open spec fn with_slug(hs: Seq<Heading>, key: Seq<char>) -> Seq<Heading>
    decreases hs.len(),
{
    if hs.len() == 0 {
        Seq::empty()
    } else if hs.last().slug@ == key {
        with_slug(hs.drop_last(), key).push(hs.last())
    } else {
        with_slug(hs.drop_last(), key)
    }
}

/// The distinct slugs of the headings, in order of first appearance.
pub open spec fn slug_keys(hs: Seq<Heading>) -> Seq<Seq<char>>
    decreases hs.len(),
{
    if hs.len() == 0 {
        Seq::empty()
    } else if slug_keys(hs.drop_last()).contains(hs.last().slug@) {
        slug_keys(hs.drop_last())
    } else {
        slug_keys(hs.drop_last()).push(hs.last().slug@)
    }
}

pub open spec fn group_keys(g: Seq<(Slug, Vec<Heading>)>) -> Seq<Seq<char>> {
    Seq::new(g.len(), |k: int| g[k].0@)
}

/// `index` groups the elements of `a` by kind, in order, with `fm` as front matter.
pub open spec fn index_ok(index: Index, a: Seq<AstElement>, fm: Option<TextNode>) -> bool {
    let hs = headings_of(a);
    &&& index.headings@ == hs
    &&& index.titles@ == titles_of(hs)
    &&& group_keys(index.headings_by_slug@) == slug_keys(hs)
    &&& forall|k: int|
        0 <= k < index.headings_by_slug@.len() ==> (#[trigger] index.headings_by_slug@[k]).1@ == with_slug(
            hs,
            index.headings_by_slug@[k].0@,
        )
    &&& index.wiki_links@ == wiki_links_of(a)
    &&& index.md_links@ == md_links_of(a)
    &&& index.link_defs@ == link_defs_of(a)
    &&& index.tags@ == tags_of(a)
    &&& index.yaml_front_matter == fm
}

/// Adds `h` to the group of its slug, opening a new group for a new slug.
fn add_to_groups(groups: &mut Vec<(Slug, Vec<Heading>)>, h: &Heading, Ghost(hs): Ghost<Seq<Heading>>)
    requires
        group_keys(old(groups)@) == slug_keys(hs),
        forall|k: int| 0 <= k < old(groups)@.len() ==> (#[trigger] old(groups)@[k]).1@ == with_slug(hs, old(groups)@[k].0@),
    ensures
        group_keys(final(groups)@) == slug_keys(hs.push(*h)),
        forall|k: int|
            0 <= k < final(groups)@.len() ==> (#[trigger] final(groups)@[k]).1@ == with_slug(
                hs.push(*h),
                final(groups)@[k].0@,
            ),
{
    let ghost hs2 = hs.push(*h);
    assert(hs2.drop_last() =~= hs);
    let mut k: usize = 0;
    while k < groups.len()
        invariant
            k <= groups@.len(),
            hs2 == hs.push(*h),
            groups@ == old(groups)@,
            group_keys(groups@) == slug_keys(hs),
            forall|j: int| 0 <= j < groups@.len() ==> (#[trigger] groups@[j]).1@ == with_slug(hs, groups@[j].0@),
            forall|j: int| 0 <= j < k ==> groups@[j].0@ != h.slug@,
        decreases groups@.len() - k,
    {
        if groups[k].0.same_as(&h.slug) {
            let ghost before = groups@;
            let (key, mut g) = groups.remove(k);
            let ghost gk = g@;
            g.push(h.duplicate());
            groups.insert(k, (key, g));
            proof {
                assert(hs2.drop_last() =~= hs);
                assert(hs2.last() == *h);
                assert(before[k as int].0@ == h.slug@);
                assert(group_keys(before)[k as int] == h.slug@);
                assert(slug_keys(hs).contains(h.slug@));
                assert(slug_keys(hs2) == slug_keys(hs));
                assert(group_keys(groups@) =~= group_keys(before));
                assert forall|j: int| 0 <= j < groups@.len() implies (#[trigger] groups@[j]).1@ == with_slug(hs2, groups@[j].0@) by {
                    if j != k {
                        assert(groups@[j] == before[j]);
                        assert(before[j].0@ != h.slug@) by {
                            if before[j].0@ == h.slug@ {
                                assert(group_keys(before)[j] == group_keys(before)[k as int]);
                                if j < k {
                                    lemma_keys_distinct(hs, j, k as int);
                                } else {
                                    lemma_keys_distinct(hs, k as int, j);
                                }
                            }
                        }
                        assert(with_slug(hs2, before[j].0@) == with_slug(hs, before[j].0@));
                    } else {
                        assert(gk == before[k as int].1@);
                        assert(groups@[j].0@ == h.slug@);
                        assert(with_slug(hs2, h.slug@) == with_slug(hs, h.slug@).push(*h));
                        assert(groups@[j].1@ =~= gk.push(*h));
                    }
                }
            }
            return;
        }
        k += 1;
    }
    let ghost before = groups@;
    groups.push((h.slug.duplicate(), vec![h.duplicate()]));
    proof {
        assert(hs2.drop_last() =~= hs);
        assert(hs2.last() == *h);
        assert(!slug_keys(hs).contains(h.slug@)) by {
            if slug_keys(hs).contains(h.slug@) {
                let j = choose|j: int| 0 <= j < slug_keys(hs).len() && slug_keys(hs)[j] == h.slug@;
                assert(group_keys(before)[j] == h.slug@);
            }
        }
        assert(group_keys(groups@) =~= group_keys(before).push(h.slug@));
        lemma_with_slug_absent(hs, h.slug@);
        assert forall|j: int| 0 <= j < groups@.len() implies (#[trigger] groups@[j]).1@ == with_slug(hs2, groups@[j].0@) by {
            if j < before.len() {
                assert(groups@[j] == before[j]);
                assert(before[j].0@ != h.slug@);
            } else {
                assert(groups@[j].1@ =~= seq![*h]);
                assert(with_slug(hs, h.slug@) =~= Seq::<Heading>::empty());
            }
        }
    }
}

proof fn lemma_keys_distinct(hs: Seq<Heading>, i: int, j: int)
    requires
        0 <= i < j < slug_keys(hs).len(),
    ensures
        slug_keys(hs)[i] != slug_keys(hs)[j],
    decreases hs.len(),
{
    let prev = slug_keys(hs.drop_last());
    if !prev.contains(hs.last().slug@) && j == prev.len() {
        assert(prev[i] == slug_keys(hs)[i]);
    } else {
        lemma_keys_distinct(hs.drop_last(), i, j);
    }
}

proof fn lemma_with_slug_absent(hs: Seq<Heading>, key: Seq<char>)
    requires
        !slug_keys(hs).contains(key),
    ensures
        with_slug(hs, key) == Seq::<Heading>::empty(),
    decreases hs.len(),
{
    if hs.len() > 0 {
        let prev = slug_keys(hs.drop_last());
        if prev.contains(key) {
            let j = choose|j: int| 0 <= j < prev.len() && prev[j] == key;
            if prev.contains(hs.last().slug@) {
                assert(slug_keys(hs)[j] == key);
            } else {
                assert(slug_keys(hs)[j] == key);
            }
        }
        if !prev.contains(hs.last().slug@) {
            assert(slug_keys(hs)[prev.len() as int] == hs.last().slug@);
        }
        lemma_with_slug_absent(hs.drop_last(), key);
    }
}

proof fn lemma_index_step(a: Seq<AstElement>, i: int)
    requires
        0 <= i < a.len(),
    ensures
        headings_of(a.take(i + 1)) == (match a[i] {
            AstElement::H(h) => headings_of(a.take(i)).push(h),
            _ => headings_of(a.take(i)),
        }),
        wiki_links_of(a.take(i + 1)) == (match a[i] {
            AstElement::WL(w) => wiki_links_of(a.take(i)).push(w),
            _ => wiki_links_of(a.take(i)),
        }),
        md_links_of(a.take(i + 1)) == (match a[i] {
            AstElement::ML(m) => md_links_of(a.take(i)).push(m),
            _ => md_links_of(a.take(i)),
        }),
        link_defs_of(a.take(i + 1)) == (match a[i] {
            AstElement::MLD(d) => link_defs_of(a.take(i)).push(d),
            _ => link_defs_of(a.take(i)),
        }),
        tags_of(a.take(i + 1)) == (match a[i] {
            AstElement::T(g) => tags_of(a.take(i)).push(g),
            _ => tags_of(a.take(i)),
        }),
{
    assert(a.take(i + 1).drop_last() =~= a.take(i));
    assert(a.take(i + 1).last() == a[i]);
}

proof fn lemma_titles_push(hs: Seq<Heading>, h: Heading)
    ensures
        titles_of(hs.push(h)) == (if h.is_title {
            titles_of(hs).push(h)
        } else {
            titles_of(hs)
        }),
{
    assert(hs.push(h).drop_last() =~= hs);
}

fn build_index(ast: &Ast, frontmatter: Option<TextNode>) -> (r: Index)
    ensures
        index_ok(r, ast.elements@, frontmatter),
{
    let ghost a = ast.elements@;
    let mut index = Index {
        titles: Vec::new(),
        headings: Vec::new(),
        headings_by_slug: Vec::new(),
        wiki_links: Vec::new(),
        md_links: Vec::new(),
        link_defs: Vec::new(),
        tags: Vec::new(),
        yaml_front_matter: frontmatter,
    };
    let mut i: usize = 0;
    proof {
        assert(a.take(0) =~= Seq::<AstElement>::empty());
        assert(group_keys(index.headings_by_slug@) =~= Seq::<Seq<char>>::empty());
    }
    while i < ast.elements.len()
        invariant
            a == ast.elements@,
            i <= a.len(),
            index_ok(index, a.take(i as int), frontmatter),
        decreases a.len() - i,
    {
        let ghost pre = a.take(i as int);
        proof {
            lemma_index_step(a, i as int);
        }
        match &ast.elements[i] {
            AstElement::H(heading) => {
                proof {
                    lemma_titles_push(headings_of(pre), *heading);
                }
                if heading.is_title {
                    index.titles.push(heading.duplicate());
                }
                add_to_groups(&mut index.headings_by_slug, heading, Ghost(headings_of(pre)));
                index.headings.push(heading.duplicate());
            },
            AstElement::WL(link) => index.wiki_links.push(link.duplicate()),
            AstElement::ML(link) => index.md_links.push(link.duplicate()),
            AstElement::MLD(def) => index.link_defs.push(def.duplicate()),
            AstElement::T(tag) => index.tags.push(tag.duplicate()),
        }
        i += 1;
    }
    assert(a.take(i as int) =~= a);
    index
}

/// The headings of `s` as parse items, numbered from 1.
pub open spec fn heading_items(s: Seq<char>) -> Seq<ScanItem> {
    let hl = heading_lines(s);
    Seq::new(
        hl.len(),
        |k: int| ScanItem { kind: ScanKind::Heading, line: k, a: hl[k], b: content_end(s, hl[k]), id: 1 + k },
    )
}

/// The front matter of `s` as a parse item, if it has one.
pub open spec fn front_items(s: Seq<char>) -> Seq<ScanItem> {
    match frontmatter_end(s) {
        Some(e) => seq![ScanItem { kind: ScanKind::Front, line: 0, a: 0, b: e, id: 0 }],
        None => Seq::empty(),
    }
}

/// Every element of a document: its headings, its front matter and what the scanner
/// finds, ordered by start.
pub open spec fn parse_items(s: Seq<char>) -> Seq<ScanItem> {
    merge_items(
        s,
        merge_items(s, heading_items(s), front_items(s)),
        doc_items(s, 1 + heading_lines(s).len() as int),
    )
}

/// `el` is the element that the parse item `it` describes.
pub open spec fn parse_el_ok(s: Seq<char>, opts: ParseOptions, el: CstElement, it: ScanItem) -> bool {
    match it.kind {
        ScanKind::Heading => {
            &&& 0 <= it.line < heading_lines(s).len()
            &&& it.a == heading_lines(s)[it.line]
            &&& it.b == content_end(s, it.a)
            &&& heading_el_ok(s, opts, el, it.line, it.id)
        },
        ScanKind::Front => {
            &&& it.a == 0
            &&& el matches CstElement::Yml(t)
            &&& text_node_ok(s, t, 0, it.b)
        },
        _ => item_ok(s, el, it),
    }
}

/// `r` is the parse of `input` under `options`: the text, its elements ordered by start,
/// their AST, the document's symbols and its index.
pub open spec fn parsed(r: Structure, input: Seq<char>, options: ParseOptions) -> bool {
    &&& r.text@ == input
    &&& r.text.wf()
    &&& r.cst.elements@.len() == parse_items(input).len()
    &&& forall|k: int|
        0 <= k < r.cst.elements@.len() ==> parse_el_ok(input, options, #[trigger] r.cst.elements@[k], parse_items(input)[k])
    &&& r.cst.child_map@ == Map::<usize, Vec<usize>>::empty()
    &&& r.ast.elements@ == ast_of(r.cst.elements@)
    &&& r.symbols@.len() == r.ast.elements@.len() + 1
    &&& r.symbols@[0].id == 0
    &&& r.symbols@[0].kind == SymKind::Def(Def::Doc)
    &&& r.symbols@[0].full_range == (ByteRange { start: 0, end: 0 })
    &&& r.symbols@[0].name_range is None
    &&& r.symbols@[0].ast_idx is None
    &&& forall|k: int| 0 <= k < r.ast.elements@.len() ==> sym_ok(r.ast.elements@[k], k, #[trigger] r.symbols@[k + 1])
    &&& match frontmatter_end(input) {
        Some(e) => r.index.yaml_front_matter matches Some(t) && text_node_ok(input, t, 0, e),
        None => r.index.yaml_front_matter is None,
    }
    &&& index_ok(r.index, r.ast.elements@, r.index.yaml_front_matter)
}

/// Parses a document into its elements, AST, symbols and index.
pub fn parse_document(input: &str, options: ParseOptions) -> (r: Structure)
    requires
        4 * input@.len() + 2 <= u32::MAX,
    ensures
        parsed(r, input@, options),
{
    let text = Text::new(input);
    let ghost s = input@;
    let n = str_byte_len(input);
    let chars = chars_of(input);
    let offs = byte_offsets(chars.as_slice());
    let mut next_id: u32 = 1;
    let headings = parse_headings(chars.as_slice(), &offs, &options, &mut next_id);
    let nh = next_id;
    let scanned = scan_document(input, &mut next_id);
    let mut front: Vec<CstElement> = Vec::new();
    match &scanned.frontmatter {
        Some(fm) => front.push(CstElement::Yml(fm.duplicate())),
        None => {},
    }
    let ghost ok = |el: CstElement, it: ScanItem| parse_el_ok(s, options, el, it);
    proof {
        assert forall|el: CstElement, it: ScanItem| #[trigger] ok(el, it) implies el.spec_range() == br(s, it.a, it.b) by {
            if it.kind != ScanKind::Heading && it.kind != ScanKind::Front {
                lemma_item_range(s, el, it);
            }
        }
        assert forall|k: int| 0 <= k < headings@.len() implies ok(#[trigger] headings@[k], heading_items(s)[k]) by {
            assert(heading_el_ok(s, options, headings@[k], k, 1 + k));
        }
        assert forall|k: int| 0 <= k < front@.len() implies ok(#[trigger] front@[k], front_items(s)[k]) by {}
        assert forall|k: int| 0 <= k < scanned.elements@.len() implies ok(
            #[trigger] scanned.elements@[k],
            doc_items(s, nh as int)[k],
        ) by {
            assert(item_ok(s, scanned.elements@[k], doc_items(s, nh as int)[k]));
            let it = doc_items(s, nh as int)[k];
            lemma_item_kind(s, nh as int, k);
        }
    }
    let first = merge_runs(headings, front, Ghost(s), Ghost(ok), Ghost(heading_items(s)), Ghost(front_items(s)));
    let elements = merge_runs(
        first,
        scanned.elements,
        Ghost(s),
        Ghost(ok),
        Ghost(merge_items(s, heading_items(s), front_items(s))),
        Ghost(doc_items(s, nh as int)),
    );
    let ast = build_ast(&elements);
    proof {
        lemma_ast_of_len(elements@);
        lemma_merge_len(s, heading_items(s), front_items(s));
        lemma_merge_len(s, merge_items(s, heading_items(s), front_items(s)), doc_items(s, nh as int));
    }
    let symbols = build_symbols(&ast);
    let index = build_index(&ast, duplicate_text(&scanned.frontmatter));
    Structure { cst: Cst { elements, child_map: HashMap::new() }, ast, symbols, index, text }
}

proof fn lemma_item_kind(s: Seq<char>, id0: int, k: int)
    requires
        0 <= k < doc_items(s, id0).len(),
    ensures
        doc_items(s, id0)[k].kind != ScanKind::Heading,
        doc_items(s, id0)[k].kind != ScanKind::Front,
{
    let masks = crate::parser::blocks::spans_as_ranges(s, crate::parser::blocks::mask_spans(s));
    let d = crate::parser::scanner::def_items(s, id0);
    let l = crate::parser::scanner::link_items(s, masks, crate::parser::scanner::item_ranges(s, d), id0 + d.len());
    let t = crate::parser::scanner::tag_items(
        s,
        masks,
        crate::parser::scanner::item_ranges(s, d) + crate::parser::scanner::item_ranges(s, l),
        id0 + d.len() + l.len(),
    );
    lemma_merge_kinds(s, d, l);
    lemma_merge_kinds(s, merge_items(s, d, l), t);
}

proof fn lemma_merge_kinds(s: Seq<char>, x: Seq<ScanItem>, y: Seq<ScanItem>)
    requires
        forall|k: int| 0 <= k < x.len() ==> (#[trigger] x[k]).kind != ScanKind::Heading && x[k].kind != ScanKind::Front,
        forall|k: int| 0 <= k < y.len() ==> (#[trigger] y[k]).kind != ScanKind::Heading && y[k].kind != ScanKind::Front,
    ensures
        forall|k: int|
            0 <= k < merge_items(s, x, y).len() ==> (#[trigger] merge_items(s, x, y)[k]).kind != ScanKind::Heading
                && merge_items(s, x, y)[k].kind != ScanKind::Front,
    decreases x.len() + y.len(),
{
    if x.len() > 0 && y.len() > 0 {
        if br(s, x[0].a, x[0].b).start <= br(s, y[0].a, y[0].b).start {
            lemma_merge_kinds(s, x.drop_first(), y);
            assert forall|k: int| 0 <= k < merge_items(s, x, y).len() implies (#[trigger] merge_items(s, x, y)[k]).kind
                != ScanKind::Heading && merge_items(s, x, y)[k].kind != ScanKind::Front by {
                if k > 0 {
                    assert(merge_items(s, x, y)[k] == merge_items(s, x.drop_first(), y)[k - 1]);
                }
            }
        } else {
            lemma_merge_kinds(s, x, y.drop_first());
            assert forall|k: int| 0 <= k < merge_items(s, x, y).len() implies (#[trigger] merge_items(s, x, y)[k]).kind
                != ScanKind::Heading && merge_items(s, x, y)[k].kind != ScanKind::Front by {
                if k > 0 {
                    assert(merge_items(s, x, y)[k] == merge_items(s, x, y.drop_first())[k - 1]);
                }
            }
        }
    }
}

} // verus!
