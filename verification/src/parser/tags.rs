use crate::parser::cst::{CstElement, Node, OccurrenceId, Tag, TextNode};
use crate::parser::scanner::{br, item_ok, offs_ok, tag_item, tag_items, text_node_ok};
use crate::utils::strs::{bpos, is_ascii_alnum, spec_is_ascii_alnum, string_of_range, ws_prefix_len, skip_ws};
use crate::utils::text::ByteRange;
use vstd::prelude::*;

verus! {

pub open spec fn spec_is_tag_char(c: char) -> bool {
    spec_is_ascii_alnum(c) || c == '_' || c == '-'
}

pub fn is_tag_char(c: char) -> (b: bool)
    ensures
        b == spec_is_tag_char(c),
{
    is_ascii_alnum(c) || c == '_' || c == '-'
}

/// Some range of `rs` holds the byte offset `off`.
pub open spec fn in_ranges(rs: Seq<ByteRange>, off: int) -> bool {
    exists|k: int| 0 <= k < rs.len() && (#[trigger] rs[k]).start <= off < rs[k].end
}

pub fn any_contains(rs: &[ByteRange], off: usize) -> (b: bool)
    ensures
        b == in_ranges(rs@, off as int),
{
    let mut k: usize = 0;
    while k < rs.len()
        invariant
            k <= rs@.len(),
            forall|j: int| 0 <= j < k ==> !((#[trigger] rs@[j]).start <= off < rs@[j].end),
        decreases rs@.len() - k,
    {
        if rs[k].contains(off) {
            assert(rs@[k as int].start <= off < rs@[k as int].end);
            return true;
        }
        k += 1;
    }
    false
}

/// Start of the line holding index `i`, lines being split at `\n` alone.
pub open spec fn line_start_before(s: Seq<char>, i: int) -> int
    decreases i,
{
    if i <= 0 {
        0
    } else if s[i - 1] == '\n' {
        i
    } else {
        line_start_before(s, i - 1)
    }
}

/// A `# ` at `i` that only white space precedes on its line opens a heading.
pub open spec fn heading_open(s: Seq<char>, i: int) -> bool {
    let ls = line_start_before(s, i);
    &&& ws_prefix_len(s.subrange(ls, i)) == i - ls
    &&& i + 1 < s.len()
    &&& s[i] == '#'
    &&& s[i + 1] == ' '
}

proof fn lemma_line_start_before(s: Seq<char>, i: int)
    requires
        0 <= i <= s.len(),
    ensures
        0 <= line_start_before(s, i) <= i,
    decreases i,
{
    if i > 0 && s[i - 1] != '\n' {
        lemma_line_start_before(s, i - 1);
    }
}

fn is_heading_open(s: &[char], i: usize) -> (b: bool)
    requires
        i <= s@.len(),
    ensures
        b == heading_open(s@, i as int),
{
    let mut ls: usize = i;
    while ls > 0 && s[ls - 1] != '\n'
        invariant
            ls <= i <= s@.len(),
            line_start_before(s@, i as int) == line_start_before(s@, ls as int),
        decreases ls,
    {
        ls -= 1;
    }
    let t = skip_ws(s, ls, i);
    t == i && s.len() - i > 1 && s[i] == '#' && s[i + 1] == ' '
}

/// End of the run of tag characters and `/` that starts at `j`.
pub open spec fn tag_end(s: Seq<char>, j: int) -> int
    decreases s.len() - j,
{
    if j < 0 || j >= s.len() {
        s.len() as int
    } else if spec_is_tag_char(s[j]) || s[j] == '/' {
        tag_end(s, j + 1)
    } else {
        j
    }
}

pub proof fn lemma_tag_end(s: Seq<char>, j: int)
    requires
        0 <= j <= s.len(),
    ensures
        j <= tag_end(s, j) <= s.len(),
    decreases s.len() - j,
{
    if j < s.len() && (spec_is_tag_char(s[j]) || s[j] == '/') {
        lemma_tag_end(s, j + 1);
    }
}

/// A tag starts at `i`: a `#` outside the masked and link ranges, not opening a heading,
/// not preceded by a tag character, and followed by at least one tag character or `/`.
pub open spec fn tag_starts(s: Seq<char>, masks: Seq<ByteRange>, links: Seq<ByteRange>, i: int) -> bool {
    &&& 0 <= i < s.len()
    &&& s[i] == '#'
    &&& !in_ranges(masks, bpos(s, i) as int)
    &&& !in_ranges(links, bpos(s, i) as int)
    &&& !heading_open(s, i)
    &&& (i == 0 || !spec_is_tag_char(s[i - 1]))
    &&& tag_end(s, i + 1) > i + 1
}

/// The tags found scanning from `i`, each as its character range.
pub open spec fn tags_from(s: Seq<char>, masks: Seq<ByteRange>, links: Seq<ByteRange>, i: int) -> Seq<(int, int)>
    decreases s.len() - i,
{
    if i < 0 || i >= s.len() {
        Seq::empty()
    } else {
        proof {
            lemma_tag_end(s, i + 1);
        }
        if tag_starts(s, masks, links, i) {
            seq![(i, tag_end(s, i + 1))] + tags_from(s, masks, links, tag_end(s, i + 1))
        } else {
            tags_from(s, masks, links, i + 1)
        }
    }
}

/// `node` is the tag spanning `s[a..b]`.
pub open spec fn tag_node_ok(s: Seq<char>, node: Node<Tag>, a: int, b: int, id: int) -> bool {
    &&& node.id == id
    &&& node.text@ == s.subrange(a, b)
    &&& node.range == br(s, a, b)
    &&& text_node_ok(s, node.data.name, a, b)
}

/// Finds the tags outside `masks` and `link_ranges`, numbering them from `first_id`.
pub fn scan_tags(s: &[char], offs: &Vec<usize>, masks: &[ByteRange], link_ranges: &[ByteRange], first_id: OccurrenceId) -> (r: Vec<CstElement>)
    requires
        offs_ok(s@, offs@),
        first_id + s@.len() <= u32::MAX,
    ensures
        r@.len() == tag_items(s@, masks@, link_ranges@, first_id as int).len(),
        r@.len() <= s@.len(),
        forall|k: int|
            0 <= k < r@.len() ==> item_ok(s@, #[trigger] r@[k], tag_items(s@, masks@, link_ranges@, first_id as int)[k]),
{
    let ghost all = tags_from(s@, masks@, link_ranges@, 0);
    let mut out: Vec<CstElement> = Vec::new();
    let ghost mut done: Seq<(int, int)> = Seq::empty();
    let mut idx: usize = 0;
    while idx < s.len()
        invariant
            idx <= s@.len(),
            offs_ok(s@, offs@),
            first_id + s@.len() <= u32::MAX,
            all == tags_from(s@, masks@, link_ranges@, 0),
            out@.len() == done.len(),
            done.len() <= idx,
            all == done + tags_from(s@, masks@, link_ranges@, idx as int),
            forall|k: int| 0 <= k < out@.len() ==> item_ok(s@, #[trigger] out@[k], tag_item(done[k], first_id + k)),
        decreases s@.len() - idx,
    {
        proof {
            lemma_tag_end(s@, idx + 1);
        }
        let ok = s[idx] == '#' && !any_contains(masks, offs[idx]) && !any_contains(link_ranges, offs[idx])
            && !is_heading_open(s, idx) && (idx == 0 || !is_tag_char(s[idx - 1]));
        if !ok {
            idx += 1;
            continue;
        }
        let mut end: usize = idx + 1;
        while end < s.len() && (is_tag_char(s[end]) || s[end] == '/')
            invariant
                idx < end <= s@.len(),
                tag_end(s@, idx + 1) == tag_end(s@, end as int),
            decreases s@.len() - end,
        {
            end += 1;
        }
        proof {
            lemma_tag_end(s@, end as int);
        }
        if end == idx + 1 {
            idx += 1;
            continue;
        }
        let id: OccurrenceId = first_id + out.len() as u32;
        out.push(
            CstElement::T(
                Node {
                    id,
                    text: string_of_range(s, idx, end),
                    range: ByteRange::new(offs[idx], offs[end]),
                    data: Tag { name: TextNode { text: string_of_range(s, idx, end), range: ByteRange::new(offs[idx], offs[end]) } },
                },
            ),
        );
        proof {
            assert(done.push((idx as int, end as int)) + tags_from(s@, masks@, link_ranges@, end as int)
                =~= done + tags_from(s@, masks@, link_ranges@, idx as int));
            done = done.push((idx as int, end as int));
        }
        idx = end;
    }
    proof {
        assert(done + tags_from(s@, masks@, link_ranges@, idx as int) =~= done);
    }
    out
}

} // verus!
