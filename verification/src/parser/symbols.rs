use crate::parser::ast::{Ast, AstElement, AstIdx};
use crate::parser::cst::{EncodedNode, Heading, MdLink, MdLinkDef, OccurrenceId, Tag, WikiLink};
use crate::resolution::path::{spec_split_anchor, split_anchor};
use crate::resolution::slug::{lowercase_chars, lowered, nfkc_chars, spec_nfkc, Slug};
use crate::utils::strs::{ascii_lower_seq, ascii_lower_vec, chars_of, is_ws, spec_is_ws, string_of};
use crate::utils::text::ByteRange;
use vstd::prelude::*;

verus! {

/// A normalised reference label.
#[derive(Clone, Debug, PartialEq, Eq, Hash)]
pub struct LinkLabel(pub String);

/// A symbol found in a document: what it defines or refers to, and where.
#[derive(Clone, Debug, PartialEq, Eq)]
pub struct SymbolOccurrence {
    pub id: OccurrenceId,
    pub kind: SymKind,
    pub full_range: ByteRange,
    pub name_range: Option<ByteRange>,
    pub ast_idx: Option<AstIdx>,
}

#[derive(Clone, Debug, PartialEq, Eq)]
pub enum SymKind {
    Def(Def),
    Ref(Ref),
    Tag(TagSym),
}

#[derive(Clone, Debug, PartialEq, Eq)]
pub enum Def {
    Doc,
    Title(String),
    Header(u8, Slug),
    LinkDef(LinkLabel),
}

#[derive(Clone, Debug, PartialEq, Eq)]
pub enum Ref {
    Wiki { target: String, heading: Option<String>, is_embed: bool },
    Inline { target: String, anchor: Option<String>, is_image: bool },
    Full { text: String, label: LinkLabel },
    Collapsed { label: LinkLabel },
    Shortcut { label: LinkLabel },
}

#[derive(Clone, Debug, PartialEq, Eq)]
pub struct TagSym {
    pub name: String,
}

impl Ref {
    /// An equal copy.
    pub fn duplicate(&self) -> (r: Self)
        ensures
            r == *self,
    {
        match self {
            Ref::Wiki { target, heading, is_embed } => Ref::Wiki {
                target: target.clone(),
                heading: crate::parser::cst::duplicate_string(heading),
                is_embed: *is_embed,
            },
            Ref::Inline { target, anchor, is_image } => Ref::Inline {
                target: target.clone(),
                anchor: crate::parser::cst::duplicate_string(anchor),
                is_image: *is_image,
            },
            Ref::Full { text, label } => Ref::Full { text: text.clone(), label: LinkLabel(label.0.clone()) },
            Ref::Collapsed { label } => Ref::Collapsed { label: LinkLabel(label.0.clone()) },
            Ref::Shortcut { label } => Ref::Shortcut { label: LinkLabel(label.0.clone()) },
        }
    }
}

/// One step of label normalisation: the text so far, and whether a space is owed before
/// the next word.
pub open spec fn label_step(acc: (Seq<char>, bool), c: char) -> (Seq<char>, bool) {
    if spec_is_ws(c) {
        (acc.0, acc.0.len() > 0)
    } else {
        (
            (if acc.1 {
                acc.0.push(' ')
            } else {
                acc.0
            }).push(c),
            false,
        )
    }
}

pub open spec fn label_fold(s: Seq<char>) -> (Seq<char>, bool)
    decreases s.len(),
{
    if s.len() == 0 {
        (Seq::empty(), false)
    } else {
        label_step(label_fold(s.drop_last()), s.last())
    }
}

/// A label's words, after NFKC normalisation and Unicode lower-casing, split at white
/// space and joined by single spaces.
pub open spec fn spec_normalize_label(s: Seq<char>) -> Seq<char> {
    label_fold(lowered(spec_nfkc(s))).0
}

/// Normalises a reference label: NFKC-normalised, lower-cased, its words joined by single
/// spaces.
pub fn normalize_label(input: &str) -> (r: String)
    ensures
        r@ == spec_normalize_label(input@),
{
    let norm = nfkc_chars(input);
    let ghost n = norm@;
    let mut out: Vec<char> = Vec::new();
    let mut pending = false;
    let mut i: usize = 0;
    assert(n.take(0) =~= Seq::<char>::empty());
    while i < norm.len()
        invariant
            n == norm@,
            n == spec_nfkc(input@),
            i <= n.len(),
            (out@, pending) == label_fold(lowered(n.take(i as int))),
        decreases n.len() - i,
    {
        let low = lowercase_chars(norm[i]);
        let ghost base = lowered(n.take(i as int));
        assert(n.take(i + 1).drop_last() =~= n.take(i as int));
        assert(lowered(n.take(i + 1)) == base + low@);
        let mut k: usize = 0;
        assert(base + low@.take(0) =~= base);
        while k < low.len()
            invariant
                k <= low@.len(),
                (out@, pending) == label_fold(base + low@.take(k as int)),
            decreases low@.len() - k,
        {
            let c = low[k];
            assert((base + low@.take(k + 1)).drop_last() =~= base + low@.take(k as int));
            assert((base + low@.take(k + 1)).last() == c);
            if is_ws(c) {
                pending = out.len() > 0;
            } else {
                if pending {
                    out.push(' ');
                }
                out.push(c);
                pending = false;
            }
            k += 1;
        }
        assert(low@.take(low@.len() as int) =~= low@);
        i += 1;
    }
    assert(n.take(n.len() as int) =~= n);
    string_of(&out)
}

/// Splits a destination at its first unescaped `#` into target and anchor.
pub fn split_dest(dest: &str) -> (r: (String, Option<String>))
    ensures
        r.0@ == spec_split_anchor(dest@).0,
        match r.1 {
            Some(a) => spec_split_anchor(dest@).1 == Some(a@),
            None => spec_split_anchor(dest@).1 is None,
        },
{
    split_anchor(dest)
}

pub open spec fn opt_text(o: Option<String>) -> Option<Seq<char>> {
    match o {
        Some(t) => Some(t@),
        None => None,
    }
}

pub open spec fn decoded_of(o: Option<EncodedNode>) -> Option<Seq<char>> {
    match o {
        Some(e) => Some(e.decoded@),
        None => None,
    }
}

pub open spec fn first_range(a: Option<ByteRange>, b: Option<ByteRange>, c: Option<ByteRange>) -> ByteRange {
    match (a, b, c) {
        (Some(r), _, _) => r,
        (None, Some(r), _) => r,
        (None, None, Some(r)) => r,
        _ => ByteRange { start: 0, end: 0 },
    }
}

pub open spec fn or_range(a: Option<ByteRange>, b: Option<ByteRange>) -> Option<ByteRange> {
    match a {
        Some(r) => Some(r),
        None => b,
    }
}

/// `kind` names the label `text`, normalised.
pub open spec fn label_is(l: LinkLabel, text: Seq<char>) -> bool {
    l.0@ == spec_normalize_label(text)
}

/// The symbol of the markdown link `m`.
pub open spec fn md_sym_ok(m: MdLink, sym: SymbolOccurrence) -> bool {
    match m {
        MdLink::Inline { dest, anchor_range, is_image, .. } => {
            &&& sym.kind matches SymKind::Ref(Ref::Inline { target, anchor, is_image: im })
            &&& target@ == spec_split_anchor(dest.text@).0
            &&& opt_text(anchor) == spec_split_anchor(dest.text@).1
            &&& im == is_image
            &&& sym.full_range == dest.range
            &&& sym.name_range == or_range(anchor_range, Some(dest.range))
        },
        MdLink::Full { text, label } => {
            &&& sym.kind matches SymKind::Ref(Ref::Full { text: t, label: l })
            &&& t@ == text.text@
            &&& label_is(l, label.text@)
            &&& sym.full_range == label.range
            &&& sym.name_range == Some(label.range)
        },
        MdLink::Collapsed { label } => {
            &&& sym.kind matches SymKind::Ref(Ref::Collapsed { label: l })
            &&& label_is(l, label.text@)
            &&& sym.full_range == label.range
            &&& sym.name_range == Some(label.range)
        },
        MdLink::Shortcut { label } => {
            &&& sym.kind matches SymKind::Ref(Ref::Shortcut { label: l })
            &&& label_is(l, label.text@)
            &&& sym.full_range == label.range
            &&& sym.name_range == Some(label.range)
        },
    }
}

/// `sym` is the symbol of the AST element `el` at index `idx`.
pub open spec fn sym_ok(el: AstElement, idx: int, sym: SymbolOccurrence) -> bool {
    &&& sym.id == idx + 1
    &&& sym.ast_idx == Some(idx as usize)
    &&& match el {
        AstElement::H(h) => {
            &&& sym.full_range == h.scope
            &&& sym.name_range == Some(h.title.range)
            &&& if h.is_title {
                sym.kind matches SymKind::Def(Def::Title(t)) && t@ == h.title.text@
            } else {
                sym.kind matches SymKind::Def(Def::Header(l, sl)) && l == h.level && sl@ == h.slug@
            }
        },
        AstElement::WL(w) => {
            &&& sym.kind matches SymKind::Ref(Ref::Wiki { target, heading, is_embed })
            &&& target@ == (match w.doc {
                Some(d) => d.decoded@,
                None => Seq::empty(),
            })
            &&& opt_text(heading) == decoded_of(w.heading)
            &&& is_embed == w.is_embed
            &&& sym.full_range == first_range(w.doc_range, w.heading_range, w.title_range)
            &&& sym.name_range == or_range(w.doc_range, w.heading_range)
        },
        AstElement::ML(m) => md_sym_ok(m, sym),
        AstElement::MLD(d) => {
            &&& sym.kind matches SymKind::Def(Def::LinkDef(l))
            &&& label_is(l, d.label.text@)
            &&& sym.full_range == d.label.range
            &&& sym.name_range == Some(d.label.range)
        },
        AstElement::T(t) => {
            &&& sym.kind matches SymKind::Tag(TagSym { name })
            &&& name@ == ascii_lower_seq(t.name.text@)
            &&& sym.full_range == t.name.range
            &&& sym.name_range == Some(t.name.range)
        },
    }
}

fn decoded_text(o: &Option<EncodedNode>) -> (r: Option<String>)
    ensures
        opt_text(r) == decoded_of(*o),
{
    match o {
        Some(e) => Some(e.decoded.clone()),
        None => None,
    }
}

fn build_heading_symbol(heading: &Heading, idx: usize) -> (r: SymbolOccurrence)
    requires
        idx < u32::MAX,
    ensures
        sym_ok(AstElement::H(*heading), idx as int, r),
{
    let kind = if heading.is_title {
        SymKind::Def(Def::Title(heading.title.text.clone()))
    } else {
        SymKind::Def(Def::Header(heading.level, heading.slug.duplicate()))
    };
    SymbolOccurrence {
        id: idx as OccurrenceId + 1,
        kind,
        full_range: heading.scope,
        name_range: Some(heading.title.range),
        ast_idx: Some(idx),
    }
}

fn build_wiki_symbol(link: &WikiLink, idx: usize) -> (r: SymbolOccurrence)
    requires
        idx < u32::MAX,
    ensures
        sym_ok(AstElement::WL(*link), idx as int, r),
{
    let target = match &link.doc {
        Some(d) => d.decoded.clone(),
        None => String::new(),
    };
    let full_range = match (link.doc_range, link.heading_range, link.title_range) {
        (Some(range), _, _) => range,
        (None, Some(range), _) => range,
        (None, None, Some(range)) => range,
        _ => ByteRange::new(0, 0),
    };
    let name_range = match link.doc_range {
        Some(r) => Some(r),
        None => link.heading_range,
    };
    SymbolOccurrence {
        id: idx as OccurrenceId + 1,
        kind: SymKind::Ref(Ref::Wiki { target, heading: decoded_text(&link.heading), is_embed: link.is_embed }),
        full_range,
        name_range,
        ast_idx: Some(idx),
    }
}

fn build_md_symbol(link: &MdLink, idx: usize) -> (r: SymbolOccurrence)
    requires
        idx < u32::MAX,
    ensures
        sym_ok(AstElement::ML(*link), idx as int, r),
{
    let (kind, full_range, name_range) = match link {
        MdLink::Inline { dest, anchor_range, is_image, .. } => {
            let (target, anchor) = split_dest(dest.text.as_str());
            let name = match anchor_range {
                Some(r) => Some(*r),
                None => Some(dest.range),
            };
            (SymKind::Ref(Ref::Inline { target, anchor, is_image: *is_image }), dest.range, name)
        },
        MdLink::Full { text, label } => (
            SymKind::Ref(Ref::Full { text: text.text.clone(), label: LinkLabel(normalize_label(label.text.as_str())) }),
            label.range,
            Some(label.range),
        ),
        MdLink::Collapsed { label } => (
            SymKind::Ref(Ref::Collapsed { label: LinkLabel(normalize_label(label.text.as_str())) }),
            label.range,
            Some(label.range),
        ),
        MdLink::Shortcut { label } => (
            SymKind::Ref(Ref::Shortcut { label: LinkLabel(normalize_label(label.text.as_str())) }),
            label.range,
            Some(label.range),
        ),
    };
    SymbolOccurrence { id: idx as OccurrenceId + 1, kind, full_range, name_range, ast_idx: Some(idx) }
}

fn build_def_symbol(def: &MdLinkDef, idx: usize) -> (r: SymbolOccurrence)
    requires
        idx < u32::MAX,
    ensures
        sym_ok(AstElement::MLD(*def), idx as int, r),
{
    SymbolOccurrence {
        id: idx as OccurrenceId + 1,
        kind: SymKind::Def(Def::LinkDef(LinkLabel(normalize_label(def.label.text.as_str())))),
        full_range: def.label.range,
        name_range: Some(def.label.range),
        ast_idx: Some(idx),
    }
}

fn build_tag_symbol(tag: &Tag, idx: usize) -> (r: SymbolOccurrence)
    requires
        idx < u32::MAX,
    ensures
        sym_ok(AstElement::T(*tag), idx as int, r),
{
    let lowered = ascii_lower_vec(&chars_of(tag.name.text.as_str()));
    SymbolOccurrence {
        id: idx as OccurrenceId + 1,
        kind: SymKind::Tag(TagSym { name: string_of(&lowered) }),
        full_range: tag.name.range,
        name_range: Some(tag.name.range),
        ast_idx: Some(idx),
    }
}

/// The symbols of a document: the document itself, then one per AST element, in order.
pub fn build_symbols(ast: &Ast) -> (r: Vec<SymbolOccurrence>)
    requires
        ast.elements@.len() < u32::MAX,
    ensures
        r@.len() == ast.elements@.len() + 1,
        r@[0].id == 0,
        r@[0].kind == SymKind::Def(Def::Doc),
        r@[0].full_range == (ByteRange { start: 0, end: 0 }),
        r@[0].name_range is None,
        r@[0].ast_idx is None,
        forall|k: int| 0 <= k < ast.elements@.len() ==> sym_ok(ast.elements@[k], k, #[trigger] r@[k + 1]),
{
    let mut symbols: Vec<SymbolOccurrence> = Vec::new();
    symbols.push(
        SymbolOccurrence {
            id: 0,
            kind: SymKind::Def(Def::Doc),
            full_range: ByteRange::new(0, 0),
            name_range: None,
            ast_idx: None,
        },
    );
    let mut idx: usize = 0;
    while idx < ast.elements.len()
        invariant
            idx <= ast.elements@.len() < u32::MAX,
            symbols@.len() == idx + 1,
            symbols@[0].id == 0,
            symbols@[0].kind == SymKind::Def(Def::Doc),
            symbols@[0].full_range == (ByteRange { start: 0, end: 0 }),
            symbols@[0].name_range is None,
            symbols@[0].ast_idx is None,
            forall|k: int| 0 <= k < idx ==> sym_ok(ast.elements@[k], k, #[trigger] symbols@[k + 1]),
        decreases ast.elements@.len() - idx,
    {
        let sym = match &ast.elements[idx] {
            AstElement::H(h) => build_heading_symbol(h, idx),
            AstElement::WL(w) => build_wiki_symbol(w, idx),
            AstElement::ML(m) => build_md_symbol(m, idx),
            AstElement::MLD(d) => build_def_symbol(d, idx),
            AstElement::T(t) => build_tag_symbol(t, idx),
        };
        symbols.push(sym);
        idx += 1;
    }
    symbols
}

} // verus!
