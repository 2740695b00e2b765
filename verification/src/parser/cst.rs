use crate::resolution::slug::Slug;
use crate::utils::text::{char_idx, is_boundary, ByteRange};
use std::collections::HashMap;
use vstd::prelude::*;

verus! {

pub type OccurrenceId = u32;

pub type ElementIdx = usize;

/// `text` is what `s` holds between the byte offsets of `r`.
pub open spec fn spans(s: Seq<char>, text: Seq<char>, r: ByteRange) -> bool {
    &&& is_boundary(s, r.start as int)
    &&& is_boundary(s, r.end as int)
    &&& r.start <= r.end
    &&& text == s.subrange(char_idx(s, r.start as int), char_idx(s, r.end as int))
}

#[derive(Clone, Debug, PartialEq, Eq)]
pub struct Node<T> {
    pub id: OccurrenceId,
    pub text: String,
    pub range: ByteRange,
    pub data: T,
}

#[derive(Clone, Debug, PartialEq, Eq)]
pub struct TextNode {
    pub text: String,
    pub range: ByteRange,
}

#[derive(Clone, Debug, PartialEq, Eq)]
pub struct EncodedNode {
    pub raw: String,
    pub decoded: String,
    pub range: ByteRange,
}

#[derive(Clone, Debug, PartialEq, Eq)]
pub struct Heading {
    pub level: u8,
    pub is_title: bool,
    pub title: TextNode,
    pub slug: Slug,
    pub disambiguation: Option<String>,
    pub scope: ByteRange,
}

#[derive(Clone, Debug, PartialEq, Eq)]
pub struct WikiLink {
    pub doc: Option<EncodedNode>,
    pub heading: Option<EncodedNode>,
    pub title: Option<EncodedNode>,
    pub is_embed: bool,
    pub doc_range: Option<ByteRange>,
    pub heading_range: Option<ByteRange>,
    pub title_range: Option<ByteRange>,
}

#[derive(Clone, Debug, PartialEq, Eq)]
pub enum MdLink {
    Inline {
        text: TextNode,
        dest: TextNode,
        title: Option<TextNode>,
        anchor_range: Option<ByteRange>,
        is_image: bool,
    },
    Full { text: TextNode, label: TextNode },
    Collapsed { label: TextNode },
    Shortcut { label: TextNode },
}

#[derive(Clone, Debug, PartialEq, Eq)]
pub struct MdLinkDef {
    pub label: TextNode,
    pub url: EncodedNode,
    pub title: Option<TextNode>,
}

#[derive(Clone, Debug, PartialEq, Eq)]
pub struct Tag {
    pub name: TextNode,
}

#[derive(Clone, Debug, PartialEq, Eq)]
pub enum CstElement {
    H(Node<Heading>),
    WL(Node<WikiLink>),
    ML(Node<MdLink>),
    MLD(Node<MdLinkDef>),
    T(Node<Tag>),
    Yml(TextNode),
}

impl CstElement {
    /// The byte range an element covers.
    pub open spec fn spec_range(&self) -> ByteRange {
        match self {
            CstElement::H(n) => n.range,
            CstElement::WL(n) => n.range,
            CstElement::ML(n) => n.range,
            CstElement::MLD(n) => n.range,
            CstElement::T(n) => n.range,
            CstElement::Yml(n) => n.range,
        }
    }

    pub fn range(&self) -> (r: ByteRange)
        ensures
            r == self.spec_range(),
    {
        match self {
            CstElement::H(n) => n.range,
            CstElement::WL(n) => n.range,
            CstElement::ML(n) => n.range,
            CstElement::MLD(n) => n.range,
            CstElement::T(n) => n.range,
            CstElement::Yml(n) => n.range,
        }
    }
}

#[derive(Clone, Debug)]
pub struct Cst {
    pub elements: Vec<CstElement>,
    pub child_map: HashMap<ElementIdx, Vec<ElementIdx>>,
}

impl TextNode {
    /// An equal copy.
    pub fn duplicate(&self) -> (r: Self)
        ensures
            r == *self,
    {
        TextNode { text: self.text.clone(), range: self.range }
    }
}

impl EncodedNode {
    /// An equal copy.
    pub fn duplicate(&self) -> (r: Self)
        ensures
            r == *self,
    {
        EncodedNode { raw: self.raw.clone(), decoded: self.decoded.clone(), range: self.range }
    }
}

/// An equal copy of an optional encoded node.
pub fn duplicate_encoded(o: &Option<EncodedNode>) -> (r: Option<EncodedNode>)
    ensures
        r == *o,
{
    match o {
        Some(e) => Some(e.duplicate()),
        None => None,
    }
}

/// An equal copy of an optional text node.
pub fn duplicate_text(o: &Option<TextNode>) -> (r: Option<TextNode>)
    ensures
        r == *o,
{
    match o {
        Some(t) => Some(t.duplicate()),
        None => None,
    }
}

/// An equal copy of an optional string.
pub fn duplicate_string(o: &Option<String>) -> (r: Option<String>)
    ensures
        r == *o,
{
    match o {
        Some(t) => Some(t.clone()),
        None => None,
    }
}

impl Heading {
    /// An equal copy.
    pub fn duplicate(&self) -> (r: Self)
        ensures
            r == *self,
    {
        Heading {
            level: self.level,
            is_title: self.is_title,
            title: self.title.duplicate(),
            slug: self.slug.duplicate(),
            disambiguation: duplicate_string(&self.disambiguation),
            scope: self.scope,
        }
    }
}

impl WikiLink {
    /// An equal copy.
    pub fn duplicate(&self) -> (r: Self)
        ensures
            r == *self,
    {
        WikiLink {
            doc: duplicate_encoded(&self.doc),
            heading: duplicate_encoded(&self.heading),
            title: duplicate_encoded(&self.title),
            is_embed: self.is_embed,
            doc_range: self.doc_range,
            heading_range: self.heading_range,
            title_range: self.title_range,
        }
    }
}

impl MdLink {
    /// An equal copy.
    pub fn duplicate(&self) -> (r: Self)
        ensures
            r == *self,
    {
        match self {
            MdLink::Inline { text, dest, title, anchor_range, is_image } => MdLink::Inline {
                text: text.duplicate(),
                dest: dest.duplicate(),
                title: duplicate_text(title),
                anchor_range: *anchor_range,
                is_image: *is_image,
            },
            MdLink::Full { text, label } => MdLink::Full { text: text.duplicate(), label: label.duplicate() },
            MdLink::Collapsed { label } => MdLink::Collapsed { label: label.duplicate() },
            MdLink::Shortcut { label } => MdLink::Shortcut { label: label.duplicate() },
        }
    }
}

impl MdLinkDef {
    /// An equal copy.
    pub fn duplicate(&self) -> (r: Self)
        ensures
            r == *self,
    {
        MdLinkDef { label: self.label.duplicate(), url: self.url.duplicate(), title: duplicate_text(&self.title) }
    }
}

impl Tag {
    /// An equal copy.
    pub fn duplicate(&self) -> (r: Self)
        ensures
            r == *self,
    {
        Tag { name: self.name.duplicate() }
    }
}

} // verus!
