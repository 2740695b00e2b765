use crate::parser::cst::{EncodedNode, Heading, MdLink, MdLinkDef, Tag, WikiLink};
use vstd::prelude::*;

verus! {

pub type AstIdx = usize;

#[derive(Clone, Debug, PartialEq, Eq)]
pub enum AstElement {
    H(Heading),
    WL(WikiLink),
    ML(MdLink),
    MLD(MdLinkDef),
    T(Tag),
}

#[derive(Clone, Debug, Default, PartialEq, Eq)]
pub struct Ast {
    pub elements: Vec<AstElement>,
}

/// The decoded text of an encoded node.
pub fn decode_node(node: &EncodedNode) -> (r: String)
    ensures
        r@ == node.decoded@,
{
    node.decoded.clone()
}

} // verus!
