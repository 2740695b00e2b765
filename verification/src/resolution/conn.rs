use crate::parser::symbols::{LinkLabel, Ref, SymbolOccurrence};
use crate::parser::Structure;
use crate::resolution::path::{path_eq, same_path};
use crate::resolution::slug::Slug;
use crate::utils::strs::str_eq;
use crate::utils::text::ByteRange;
use vstd::prelude::*;

verus! {

/// What a reference leads to.
#[derive(Clone, Copy, Debug, PartialEq, Eq, Structural)]
pub enum DestinationKind {
    Document,
    Heading,
    LinkDefinition,
    Tag,
    Attachment,
    Directory,
}

#[derive(Clone, Debug)]
pub struct ResolvedDestination {
    pub path: String,
    pub kind: DestinationKind,
    pub name: String,
    pub range: Option<ByteRange>,
}

/// A destination as plain values: path, kind, name and range.
pub type DestView = (Seq<char>, DestinationKind, Seq<char>, Option<ByteRange>);

pub open spec fn dv(d: ResolvedDestination) -> DestView {
    (d.path@, d.kind, d.name@, d.range)
}

pub open spec fn dvs(v: Seq<ResolvedDestination>) -> Seq<DestView> {
    v.map_values(|d: ResolvedDestination| dv(d))
}

impl ResolvedDestination {
    pub fn duplicate(&self) -> (r: Self)
        ensures
            dv(r) == dv(*self),
    {
        ResolvedDestination { path: self.path.clone(), kind: self.kind, name: self.name.clone(), range: self.range }
    }
}

/// An equal copy of a list of destinations.
pub fn duplicate_dests(v: &Vec<ResolvedDestination>) -> (r: Vec<ResolvedDestination>)
    ensures
        dvs(r@) == dvs(v@),
{
    let mut r: Vec<ResolvedDestination> = Vec::new();
    let mut i: usize = 0;
    while i < v.len()
        invariant
            i <= v@.len(),
            dvs(r@) == dvs(v@.take(i as int)),
        decreases v@.len() - i,
    {
        let ghost old_r = r@;
        let d = v[i].duplicate();
        r.push(d);
        assert(dvs(r@) =~= dvs(old_r).push(dv(v@[i as int])));
        assert(dvs(v@.take(i + 1)) =~= dvs(v@.take(i as int)).push(dv(v@[i as int])));
        i += 1;
    }
    assert(v@.take(i as int) =~= v@);
    r
}

#[derive(Clone, Debug)]
pub struct ResolvedReference {
    pub source_path: String,
    pub occurrence_id: u32,
    pub full_range: ByteRange,
    pub name_range: Option<ByteRange>,
    pub reference: Ref,
    pub destinations: Vec<ResolvedDestination>,
}

#[derive(Clone, Debug)]
pub struct UnresolvedReference {
    pub source_path: String,
    pub occurrence_id: u32,
    pub full_range: ByteRange,
    pub name_range: Option<ByteRange>,
    pub reference: Ref,
    pub target: String,
    /// Paths of the documents whose file stem starts with the target, when there are any.
    pub hint_payload: Option<Vec<String>>,
}

#[derive(Clone, Debug)]
pub struct AmbiguousReference {
    pub source_path: String,
    pub occurrence_id: u32,
    pub full_range: ByteRange,
    pub name_range: Option<ByteRange>,
    pub reference: Ref,
    pub target: String,
    pub destinations: Vec<ResolvedDestination>,
}

/// A document with what it defines: its title and file stem, and the destinations of its
/// link definitions, headings and tags, each under its key, in document order.
#[derive(Clone, Debug)]
pub struct ResolvedDocument {
    pub path: String,
    pub rel_path: String,
    pub structure: Structure,
    pub title_slug: Slug,
    pub title_text: String,
    pub file_stem: String,
    pub link_defs: Vec<(LinkLabel, ResolvedDestination)>,
    pub headings: Vec<(Slug, ResolvedDestination)>,
    pub tags: Vec<(String, ResolvedDestination)>,
}

/// Key and destination pairs as plain values.
pub type Pairs = Seq<(Seq<char>, DestView)>;

pub open spec fn heading_pairs(d: ResolvedDocument) -> Pairs {
    d.headings@.map_values(|p: (Slug, ResolvedDestination)| (p.0@, dv(p.1)))
}

pub open spec fn tag_pairs(d: ResolvedDocument) -> Pairs {
    d.tags@.map_values(|p: (String, ResolvedDestination)| (p.0@, dv(p.1)))
}

pub open spec fn def_pairs(d: ResolvedDocument) -> Pairs {
    d.link_defs@.map_values(|p: (LinkLabel, ResolvedDestination)| (p.0@, dv(p.1)))
}

/// A document as plain values: its paths, file stem, title and title slug, the
/// destinations of its headings, tags and link definitions by key, and its symbols.
pub struct DocSpec {
    pub path: Seq<char>,
    pub rel_path: Seq<char>,
    pub file_stem: Seq<char>,
    pub title_text: Seq<char>,
    pub title_slug: Seq<char>,
    pub headings: Pairs,
    pub tags: Pairs,
    pub defs: Pairs,
    pub symbols: Seq<SymbolOccurrence>,
}

pub open spec fn rdoc_spec(d: ResolvedDocument) -> DocSpec {
    DocSpec {
        path: d.path@,
        rel_path: d.rel_path@,
        file_stem: d.file_stem@,
        title_text: d.title_text@,
        title_slug: d.title_slug@,
        headings: heading_pairs(d),
        tags: tag_pairs(d),
        defs: def_pairs(d),
        symbols: d.structure.symbols@,
    }
}

pub open spec fn rdoc_specs(v: Seq<ResolvedDocument>) -> Seq<DocSpec> {
    v.map_values(|d: ResolvedDocument| rdoc_spec(d))
}

/// The destinations filed under `key`, in order.
pub open spec fn with_key(pairs: Pairs, key: Seq<char>) -> Seq<DestView>
    decreases pairs.len(),
{
    if pairs.len() == 0 {
        Seq::empty()
    } else if pairs.last().0 == key {
        with_key(pairs.drop_last(), key).push(pairs.last().1)
    } else {
        with_key(pairs.drop_last(), key)
    }
}

/// The destinations filed under `key`, or `None` when there are none.
pub open spec fn lookup_key(pairs: Pairs, key: Seq<char>) -> Option<Seq<DestView>> {
    if with_key(pairs, key).len() > 0 {
        Some(with_key(pairs, key))
    } else {
        None
    }
}

/// Collects the destinations of `v` filed under `key`.
fn collect_under<K>(v: &Vec<(K, ResolvedDestination)>, key: &str) -> (r: Option<Vec<ResolvedDestination>>)
    where K: View<V = Seq<char>> + KeyText,
    ensures
        match r {
            Some(d) => lookup_key(v@.map_values(|p: (K, ResolvedDestination)| (p.0@, dv(p.1))), key@) == Some(dvs(d@)),
            None => lookup_key(v@.map_values(|p: (K, ResolvedDestination)| (p.0@, dv(p.1))), key@) is None,
        },
{
    let ghost pv = v@.map_values(|p: (K, ResolvedDestination)| (p.0@, dv(p.1)));
    let mut out: Vec<ResolvedDestination> = Vec::new();
    let mut i: usize = 0;
    while i < v.len()
        invariant
            i <= v@.len(),
            pv == v@.map_values(|p: (K, ResolvedDestination)| (p.0@, dv(p.1))),
            dvs(out@) == with_key(pv.take(i as int), key@),
        decreases v@.len() - i,
    {
        assert(pv.take(i + 1).drop_last() =~= pv.take(i as int));
        if v[i].0.text_eq(key) {
            out.push(v[i].1.duplicate());
            assert(dvs(out@) =~= dvs(out@.drop_last()).push(dv(v@[i as int].1)));
        }
        i += 1;
    }
    assert(pv.take(i as int) =~= pv);
    if out.len() > 0 {
        Some(out)
    } else {
        None
    }
}

impl ResolvedDocument {
    /// The destinations of the headings with slug `slug`, if any.
    pub fn headings_for(&self, slug: &str) -> (r: Option<Vec<ResolvedDestination>>)
        ensures
            match r {
                Some(d) => lookup_key(heading_pairs(*self), slug@) == Some(dvs(d@)),
                None => lookup_key(heading_pairs(*self), slug@) is None,
            },
    {
        collect_under(&self.headings, slug)
    }

    /// The destinations of the tags named `name`, if any.
    pub fn tags_for(&self, name: &str) -> (r: Option<Vec<ResolvedDestination>>)
        ensures
            match r {
                Some(d) => lookup_key(tag_pairs(*self), name@) == Some(dvs(d@)),
                None => lookup_key(tag_pairs(*self), name@) is None,
            },
    {
        collect_under(&self.tags, name)
    }

    /// The destinations of the link definitions with label `label`, if any.
    pub fn link_defs_for(&self, label: &str) -> (r: Option<Vec<ResolvedDestination>>)
        ensures
            match r {
                Some(d) => lookup_key(def_pairs(*self), label@) == Some(dvs(d@)),
                None => lookup_key(def_pairs(*self), label@) is None,
            },
    {
        collect_under(&self.link_defs, label)
    }
}

/// Keys compared by their text.
pub trait KeyText: View<V = Seq<char>> {
    fn text_eq(&self, other: &str) -> (b: bool)
        ensures
            b == (self@ == other@);
}

impl KeyText for Slug {
    fn text_eq(&self, other: &str) -> (b: bool) {
        str_eq(self.as_str(), other)
    }
}

impl KeyText for String {
    fn text_eq(&self, other: &str) -> (b: bool) {
        str_eq(self.as_str(), other)
    }
}

impl View for LinkLabel {
    type V = Seq<char>;

    open spec fn view(&self) -> Seq<char> {
        self.0@
    }
}

impl KeyText for LinkLabel {
    fn text_eq(&self, other: &str) -> (b: bool) {
        str_eq(self.0.as_str(), other)
    }
}

/// The resolved view of a workspace: its documents and its references by outcome.
#[derive(Clone, Debug)]
pub struct ConnectionGraph {
    pub documents: Vec<ResolvedDocument>,
    pub resolved_references: Vec<ResolvedReference>,
    pub unresolved_references: Vec<UnresolvedReference>,
    pub ambiguous_references: Vec<AmbiguousReference>,
}

/// The index of the first document whose path names the same location as `path`.
pub open spec fn doc_index(docs: Seq<ResolvedDocument>, path: Seq<char>) -> Option<int> {
    if exists|i: int|
        0 <= i < docs.len() && path_eq(docs[i].path@, path) && forall|j: int|
            0 <= j < i ==> !path_eq(#[trigger] docs[j].path@, path) {
        Some(
            choose|i: int|
                0 <= i < docs.len() && path_eq(docs[i].path@, path) && forall|j: int|
                    0 <= j < i ==> !path_eq(#[trigger] docs[j].path@, path),
        )
    } else {
        None
    }
}

impl ConnectionGraph {
    /// The first document whose path names the same location as `path`.
    pub fn document_for_path(&self, path: &str) -> (r: Option<&ResolvedDocument>)
        ensures
            match r {
                Some(d) => doc_index(self.documents@, path@) matches Some(i) && self.documents@[i] == *d,
                None => doc_index(self.documents@, path@) is None,
            },
    {
        let ghost docs = self.documents@;
        let mut i: usize = 0;
        while i < self.documents.len()
            invariant
                i <= self.documents@.len(),
                docs == self.documents@,
                forall|j: int| 0 <= j < i ==> !path_eq(#[trigger] self.documents@[j].path@, path@),
            decreases self.documents@.len() - i,
        {
            if same_path(self.documents[i].path.as_str(), path) {
                proof {
                    let c = choose|c: int|
                        0 <= c < docs.len() && path_eq(docs[c].path@, path@) && forall|j: int|
                            0 <= j < c ==> !path_eq(#[trigger] docs[j].path@, path@);
                    assert(0 <= c < docs.len() && path_eq(docs[c].path@, path@));
                    if c < i {
                        assert(!path_eq(docs[c].path@, path@));
                    } else if c > i {
                        assert(!path_eq(docs[i as int].path@, path@));
                    }
                }
                return Some(&self.documents[i]);
            }
            i += 1;
        }
        None
    }
}

} // verus!
