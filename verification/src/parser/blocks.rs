use crate::parser::cst::{CstElement, EncodedNode, MdLinkDef, Node, OccurrenceId, TextNode};
use crate::parser::scanner::{
    br, decode_component, first_occ_from, first_occurrence, first_ws_from, lemma_first_occ_exists,
    offs_ok, spec_decode, text_node_ok, trim_bounds, trim_range, first_ws, def_item, def_items,
    item_ok,
};
use crate::parser::tags::{any_contains, in_ranges};
use crate::utils::strs::{bpos, occurs_at, skip_ws, string_of_range, ws_prefix_len};
use crate::utils::text::ByteRange;
use vstd::prelude::*;

verus! {

/// End of the line whose content starts at `i`: the first `\n` or `\r` at or after `i`,
/// or the end of `s`.
pub open spec fn content_end(s: Seq<char>, i: int) -> int
    decreases s.len() - i,
{
    if i < 0 || i >= s.len() {
        s.len() as int
    } else if s[i] == '\n' || s[i] == '\r' {
        i
    } else {
        content_end(s, i + 1)
    }
}

/// Start of the line after the one starting at `i`; a line ends with one `\n` or `\r`.
pub open spec fn next_line(s: Seq<char>, i: int) -> int {
    let e = content_end(s, i);
    if e < s.len() {
        e + 1
    } else {
        s.len() as int
    }
}

pub proof fn lemma_content_end(s: Seq<char>, i: int)
    requires
        0 <= i <= s.len(),
    ensures
        i <= content_end(s, i) <= s.len(),
        i < s.len() ==> i < next_line(s, i) <= s.len(),
        forall|j: int| i <= j < content_end(s, i) ==> s[j] != '\n' && s[j] != '\r',
        content_end(s, i) < s.len() ==> (s[content_end(s, i)] == '\n' || s[content_end(s, i)]
            == '\r'),
    decreases s.len() - i,
{
    if i < s.len() && !(s[i] == '\n' || s[i] == '\r') {
        lemma_content_end(s, i + 1);
    }
}

/// Finds the end of the line content that starts at `i`.
pub fn line_content_end(s: &[char], i: usize) -> (r: usize)
    requires
        i <= s@.len(),
    ensures
        r == content_end(s@, i as int),
        i <= r <= s@.len(),
{
    let mut j: usize = i;
    while j < s.len() && s[j] != '\n' && s[j] != '\r'
        invariant
            i <= j <= s@.len(),
            content_end(s@, i as int) == content_end(s@, j as int),
        decreases s@.len() - j,
    {
        j += 1;
    }
    j
}

pub fn next_line_start(s: &[char], i: usize) -> (r: usize)
    requires
        i < s@.len(),
    ensures
        r == next_line(s@, i as int),
        i < r <= s@.len(),
{
    let e = line_content_end(s, i);
    if e < s.len() {
        e + 1
    } else {
        s.len()
    }
}

/// The line content `s[ls..ce]` reads `---` once surrounding white space is dropped.
pub open spec fn is_rule_line(s: Seq<char>, ls: int, ce: int) -> bool {
    let (a, b) = trim_bounds(s, ls, ce);
    s.subrange(a, b) == seq!['-', '-', '-']
}

fn rule_line(s: &[char], ls: usize, ce: usize) -> (b: bool)
    requires
        ls <= ce <= s@.len(),
    ensures
        b == is_rule_line(s@, ls as int, ce as int),
{
    let (a, e) = trim_range(s, ls, ce);
    if e - a != 3 {
        proof {
            assert(s@.subrange(a as int, e as int).len() != 3);
        }
        return false;
    }
    let r = s[a] == '-' && s[a + 1] == '-' && s[a + 2] == '-';
    proof {
        if r {
            assert(s@.subrange(a as int, e as int) =~= seq!['-', '-', '-']);
        } else {
            assert(s@.subrange(a as int, e as int) != seq!['-', '-', '-']) by {
                if s@.subrange(a as int, e as int) == seq!['-', '-', '-'] {
                    assert(s@.subrange(a as int, e as int)[0] == '-');
                    assert(s@.subrange(a as int, e as int)[1] == '-');
                    assert(s@.subrange(a as int, e as int)[2] == '-');
                }
            }
        }
    }
    r
}

/// The end (past its line terminator) of the first `---` line at or after line start `i`.
pub open spec fn closing_rule_from(s: Seq<char>, i: int) -> Option<int>
    decreases s.len() - i,
{
    if i < 0 || i >= s.len() {
        None
    } else {
        proof {
            lemma_content_end(s, i);
        }
        if is_rule_line(s, i, content_end(s, i)) {
            Some(next_line(s, i))
        } else {
            closing_rule_from(s, next_line(s, i))
        }
    }
}

/// Where a front matter block that opens the text ends, if the text has one: its first
/// line and a later line both read `---`.
pub open spec fn frontmatter_end(s: Seq<char>) -> Option<int> {
    if s.len() > 0 && is_rule_line(s, 0, content_end(s, 0)) {
        closing_rule_from(s, next_line(s, 0))
    } else {
        None
    }
}

/// The line that runs from `ls` to `nl` opens (or closes) a fence of `c`: after its
/// leading white space come three `c`.
pub open spec fn fence_at(s: Seq<char>, ls: int, nl: int, c: char) -> bool {
    let t = ls + ws_prefix_len(s.subrange(ls, nl));
    t + 3 <= nl && s[t] == c && s[t + 1] == c && s[t + 2] == c
}

pub open spec fn fence_char(backtick: bool) -> char {
    if backtick {
        '`'
    } else {
        '~'
    }
}

/// Character ranges of the closed fenced code blocks from line start `i` on, given the
/// fence open there (its start and kind), if any.
pub open spec fn fences_from(s: Seq<char>, i: int, open: Option<(int, bool)>) -> Seq<(int, int)>
    decreases s.len() - i,
{
    if i < 0 || i >= s.len() {
        Seq::empty()
    } else {
        proof {
            lemma_content_end(s, i);
        }
        let nl = next_line(s, i);
        match open {
            None => if fence_at(s, i, nl, '`') {
                fences_from(s, nl, Some((i, true)))
            } else if fence_at(s, i, nl, '~') {
                fences_from(s, nl, Some((i, false)))
            } else {
                fences_from(s, nl, None)
            },
            Some((fs, bt)) => if fence_at(s, i, nl, fence_char(bt)) {
                seq![(fs, nl)] + fences_from(s, nl, None)
            } else {
                fences_from(s, nl, open)
            },
        }
    }
}

/// Character ranges masked from link and tag scanning: the front matter, then the fenced
/// code blocks after it.
pub open spec fn mask_spans(s: Seq<char>) -> Seq<(int, int)> {
    match frontmatter_end(s) {
        Some(e) => seq![(0, e)] + fences_from(s, e, None),
        None => fences_from(s, 0, None),
    }
}

pub open spec fn spans_as_ranges(s: Seq<char>, sp: Seq<(int, int)>) -> Seq<ByteRange> {
    Seq::new(sp.len(), |k: int| br(s, sp[k].0, sp[k].1))
}

fn fence_line(s: &[char], ls: usize, nl: usize, c: char) -> (b: bool)
    requires
        ls <= nl <= s@.len(),
    ensures
        b == fence_at(s@, ls as int, nl as int, c),
{
    let t = skip_ws(s, ls, nl);
    nl - t >= 3 && s[t] == c && s[t + 1] == c && s[t + 2] == c
}

fn closing_rule(s: &[char], from: usize) -> (r: Option<usize>)
    requires
        from <= s@.len(),
    ensures
        match r {
            Some(e) => closing_rule_from(s@, from as int) == Some(e as int) && e <= s@.len(),
            None => closing_rule_from(s@, from as int) is None,
        },
{
    let mut i: usize = from;
    while i < s.len()
        invariant
            from <= i <= s@.len(),
            closing_rule_from(s@, from as int) == closing_rule_from(s@, i as int),
        decreases s@.len() - i,
    {
        let ce = line_content_end(s, i);
        let nl = next_line_start(s, i);
        if rule_line(s, i, ce) {
            return Some(nl);
        }
        i = nl;
    }
    None
}

/// Locates the front matter block, if the text opens with one.
pub fn find_frontmatter(s: &[char]) -> (r: Option<usize>)
    ensures
        match r {
            Some(e) => frontmatter_end(s@) == Some(e as int) && e <= s@.len(),
            None => frontmatter_end(s@) is None,
        },
{
    if s.len() == 0 {
        return None;
    }
    let ce = line_content_end(s, 0);
    if !rule_line(s, 0, ce) {
        return None;
    }
    let nl = next_line_start(s, 0);
    closing_rule(s, nl)
}

/// Collects the closed fenced code blocks from line start `from` on.
fn fence_spans(s: &[char], from: usize) -> (r: (Vec<usize>, Vec<usize>))
    requires
        from <= s@.len(),
    ensures
        r.0@.len() == r.1@.len(),
        r.0@.len() == fences_from(s@, from as int, None).len(),
        forall|k: int|
            0 <= k < r.0@.len() ==> (r.0@[k] as int, r.1@[k] as int) == #[trigger] fences_from(
                s@,
                from as int,
                None,
            )[k] && r.0@[k] <= r.1@[k] <= s@.len(),
{
    let mut starts: Vec<usize> = Vec::new();
    let mut ends: Vec<usize> = Vec::new();
    let mut open: Option<(usize, bool)> = None;
    let mut i: usize = from;
    let ghost mut done: Seq<(int, int)> = Seq::empty();
    while i < s.len()
        invariant
            from <= i <= s@.len(),
            starts@.len() == done.len(),
            ends@.len() == done.len(),
            forall|k: int|
                #![trigger starts@[k]]
                #![trigger ends@[k]]
                #![trigger done[k]]
                0 <= k < done.len() ==> (starts@[k] as int, ends@[k] as int) == done[k]
                    && starts@[k] <= ends@[k] <= s@.len(),
            match open {
                Some((fs, _)) => from <= fs < i,
                None => true,
            },
            fences_from(s@, from as int, None) == done + fences_from(
                s@,
                i as int,
                match open {
                    Some((fs, bt)) => Some((fs as int, bt)),
                    None => None,
                },
            ),
        decreases s@.len() - i,
    {
        let nl = next_line_start(s, i);
        let ghost gopen: Option<(int, bool)> = match open {
            Some((fs, bt)) => Some((fs as int, bt)),
            None => None,
        };
        match open {
            None => {
                if fence_line(s, i, nl, '`') {
                    open = Some((i, true));
                } else if fence_line(s, i, nl, '~') {
                    open = Some((i, false));
                }
            },
            Some((fs, bt)) => {
                let c = if bt {
                    '`'
                } else {
                    '~'
                };
                if fence_line(s, i, nl, c) {
                    let ghost old_starts = starts@;
                    let ghost old_ends = ends@;
                    let ghost old_done = done;
                    starts.push(fs);
                    ends.push(nl);
                    proof {
                        assert(fences_from(s@, i as int, gopen) == seq![(fs as int, nl as int)]
                            + fences_from(s@, nl as int, None));
                        assert(done.push((fs as int, nl as int)) + fences_from(s@, nl as int, None)
                            =~= done + (seq![(fs as int, nl as int)] + fences_from(s@, nl as int, None)));
                        done = done.push((fs as int, nl as int));
                        assert forall|k: int| 0 <= k < done.len() implies (starts@[k] as int, ends@[k] as int)
                            == done[k] && starts@[k] <= ends@[k] <= s@.len() by {
                            if k == done.len() - 1 {
                                assert(starts@[k] == fs && ends@[k] == nl);
                            } else {
                                assert(old_done[k] == done[k]);
                                assert(old_starts[k] == starts@[k]);
                                assert(old_ends[k] == ends@[k]);
                            }
                        }
                    }
                    open = None;
                }
            },
        }
        i = nl;
    }
    proof {
        assert(done + fences_from(s@, i as int, match open {
            Some((fs, bt)) => Some((fs as int, bt)),
            None => None,
        }) =~= done);
    }
    (starts, ends)
}

/// The masked ranges of the text and its front matter, if any.
pub fn build_masks(s: &[char], offs: &Vec<usize>) -> (r: (Vec<ByteRange>, Option<TextNode>))
    requires
        offs_ok(s@, offs@),
    ensures
        r.0@ == spans_as_ranges(s@, mask_spans(s@)),
        match frontmatter_end(s@) {
            Some(e) => r.1 matches Some(t) && text_node_ok(s@, t, 0, e),
            None => r.1 is None,
        },
{
    let mut masks: Vec<ByteRange> = Vec::new();
    let fm = find_frontmatter(s);
    let mut frontmatter: Option<TextNode> = None;
    let mut from: usize = 0;
    let ghost mut prefix: Seq<(int, int)> = Seq::empty();
    match fm {
        Some(e) => {
            masks.push(ByteRange::new(offs[0], offs[e]));
            frontmatter = Some(TextNode { text: string_of_range(s, 0, e), range: ByteRange::new(offs[0], offs[e]) });
            from = e;
            proof {
                prefix = seq![(0int, e as int)];
            }
        },
        None => {},
    }
    let (starts, ends) = fence_spans(s, from);
    let ghost fences = fences_from(s@, from as int, None);
    let mut k: usize = 0;
    while k < starts.len()
        invariant
            starts@.len() == ends@.len(),
            starts@.len() == fences.len(),
            k <= starts@.len(),
            offs_ok(s@, offs@),
            forall|j: int|
                0 <= j < starts@.len() ==> (starts@[j] as int, ends@[j] as int) == #[trigger] fences[j]
                    && starts@[j] <= ends@[j] <= s@.len(),
            masks@ == spans_as_ranges(s@, prefix + fences.take(k as int)),
        decreases starts@.len() - k,
    {
        let ghost before = prefix + fences.take(k as int);
        assert(fences[k as int] == (starts@[k as int] as int, ends@[k as int] as int));
        masks.push(ByteRange::new(offs[starts[k]], offs[ends[k]]));
        proof {
            assert(prefix + fences.take(k + 1) =~= before.push(fences[k as int]));
            assert(masks@ =~= spans_as_ranges(s@, prefix + fences.take(k + 1)));
        }
        k += 1;
    }
    proof {
        assert(fences.take(k as int) =~= fences);
        assert(prefix + fences =~= mask_spans(s@));
    }
    (masks, frontmatter)
}

/// The parts of a reference definition `[label]: url` on the line `s[ls..ce]`: the `[`,
/// the end of the label, the url's bounds and where the url is first found on the line.
pub open spec fn def_parts(s: Seq<char>, ls: int, ce: int) -> Option<(int, int, int, int, int)> {
    let t = ls + ws_prefix_len(s.subrange(ls, ce));
    if t < ce && s[t] == '[' {
        match first_occ_from(s.subrange(t + 1, ce), seq![']', ':'], 0) {
            None => None,
            Some(k) => {
                let rest = t + 1 + k + 2;
                let r0 = rest + ws_prefix_len(s.subrange(rest, ce));
                let ue = first_ws_from(s, r0, ce);
                if k > 0 && ue > r0 {
                    match first_occ_from(s.subrange(ls, ce), s.subrange(r0, ue), 0) {
                        Some(p) => Some((t, t + 1 + k, r0, ue, ls + p)),
                        None => Some((t, t + 1 + k, r0, ue, ls)),
                    }
                } else {
                    None
                }
            },
        }
    } else {
        None
    }
}

/// `node` is the reference definition on the line `s[ls..ce]`.
pub open spec fn def_node_ok(s: Seq<char>, node: Node<MdLinkDef>, ls: int, ce: int, id: int) -> bool {
    match def_parts(s, ls, ce) {
        None => false,
        Some((t, lend, r0, ue, up)) => {
            &&& node.id == id
            &&& node.text@ == s.subrange(ls, ce)
            &&& node.range == br(s, t, ce)
            &&& text_node_ok(s, node.data.label, t + 1, lend)
            &&& node.data.url.raw@ == s.subrange(r0, ue)
            &&& node.data.url.decoded@ == spec_decode(s.subrange(r0, ue))
            &&& node.data.url.range == br(s, up, up + (ue - r0))
            &&& node.data.title is None
        },
    }
}

/// Whether the line from `ls` holds a reference definition that starts outside the masked
/// ranges (front matter and fenced code).
pub open spec fn def_unmasked(s: Seq<char>, masks: Seq<ByteRange>, ls: int) -> bool {
    match def_parts(s, ls, content_end(s, ls)) {
        Some(p) => !in_ranges(masks, bpos(s, p.0) as int),
        None => false,
    }
}

/// Line starts of the reference definitions from line start `i` on, leaving out those
/// that start inside a masked range.
pub open spec fn def_lines_from(s: Seq<char>, masks: Seq<ByteRange>, i: int) -> Seq<int>
    decreases s.len() - i,
{
    if i < 0 || i >= s.len() {
        Seq::empty()
    } else {
        proof {
            lemma_content_end(s, i);
        }
        if def_unmasked(s, masks, i) {
            seq![i] + def_lines_from(s, masks, next_line(s, i))
        } else {
            def_lines_from(s, masks, next_line(s, i))
        }
    }
}

/// Recognises a reference definition on the line `s[ls..ce]`.
fn def_on_line(s: &[char], offs: &Vec<usize>, ls: usize, ce: usize, id: OccurrenceId) -> (r: Option<Node<MdLinkDef>>)
    requires
        ls <= ce <= s@.len(),
        offs_ok(s@, offs@),
    ensures
        r is Some <==> def_parts(s@, ls as int, ce as int) is Some,
        r matches Some(node) ==> def_node_ok(s@, node, ls as int, ce as int, id as int),
{
    let t = skip_ws(s, ls, ce);
    if t >= ce || s[t] != '[' {
        return None;
    }
    let after = crate::resolution::path::slice_vec(s, t + 1, ce);
    let marker: Vec<char> = vec![']', ':'];
    proof {
        assert(marker@ =~= seq![']', ':']);
    }
    let k = first_occurrence(&after, &marker)?;
    let rest = t + 1 + k + 2;
    let r0 = skip_ws(s, rest, ce);
    let ue = first_ws(s, r0, ce);
    if k == 0 || ue <= r0 {
        return None;
    }
    let line = crate::resolution::path::slice_vec(s, ls, ce);
    let url = crate::resolution::path::slice_vec(s, r0, ue);
    let up = match first_occurrence(&line, &url) {
        Some(p) => ls + p,
        None => ls,
    };
    proof {
        if up + (ue - r0) > ce {
            assert(first_occ_from(line@, url@, 0) is None);
            assert(occurs_at(line@, url@, r0 - ls)) by {
                assert(line@.subrange(r0 - ls, r0 - ls + url@.len()) =~= url@);
            }
            lemma_first_occ_exists(line@, url@, 0, r0 - ls);
        }
    }
    let ul = ue - r0;
    Some(
        Node {
            id,
            text: string_of_range(s, ls, ce),
            range: ByteRange::new(offs[t], offs[ce]),
            data: MdLinkDef {
                label: TextNode { text: string_of_range(s, t + 1, t + 1 + k), range: ByteRange::new(offs[t + 1], offs[t + 1 + k]) },
                url: EncodedNode {
                    raw: string_of_range(s, r0, ue),
                    decoded: decode_component(&url),
                    range: ByteRange::new(offs[up], offs[up + ul]),
                },
                title: None,
            },
        },
    )
}

/// Recognises the reference definitions, one per line at most, numbering them from
/// `first_id`.
pub fn scan_link_definitions(s: &[char], offs: &Vec<usize>, masks: &[ByteRange], first_id: OccurrenceId) -> (r: Vec<CstElement>)
    requires
        offs_ok(s@, offs@),
        masks@ == spans_as_ranges(s@, mask_spans(s@)),
        first_id + s@.len() <= u32::MAX,
    ensures
        r@.len() == def_items(s@, first_id as int).len(),
        r@.len() <= s@.len(),
        forall|k: int| 0 <= k < r@.len() ==> item_ok(s@, #[trigger] r@[k], def_items(s@, first_id as int)[k]),
{
    let mut out: Vec<CstElement> = Vec::new();
    let mut i: usize = 0;
    let ghost mut done: Seq<int> = Seq::empty();
    while i < s.len()
        invariant
            i <= s@.len(),
            offs_ok(s@, offs@),
            masks@ == spans_as_ranges(s@, mask_spans(s@)),
            first_id + s@.len() <= u32::MAX,
            out@.len() == done.len(),
            done.len() <= i,
            def_lines_from(s@, masks@, 0) == done + def_lines_from(s@, masks@, i as int),
            forall|k: int|
                0 <= k < out@.len() ==> item_ok(
                    s@,
                    #[trigger] out@[k],
                    def_item(s@, done[k], first_id + k),
                ),
        decreases s@.len() - i,
    {
        let ce = line_content_end(s, i);
        let nl = next_line_start(s, i);
        let id: OccurrenceId = first_id + out.len() as u32;
        match def_on_line(s, offs, i, ce, id) {
            Some(node) => {
                let ghost t = def_parts(s@, i as int, ce as int).unwrap().0;
                assert(i <= t < ce);
                assert(node.range.start == offs@[t] && offs@[t] == bpos(s@, t));
                if !any_contains(masks, node.range.start) {
                    out.push(CstElement::MLD(node));
                    proof {
                        assert(done.push(i as int) + def_lines_from(s@, masks@, nl as int) =~= done
                            + def_lines_from(s@, masks@, i as int));
                        done = done.push(i as int);
                    }
                }
            },
            None => {},
        }
        i = nl;
    }
    proof {
        assert(done + def_lines_from(s@, masks@, i as int) =~= done);
    }
    out
}

} // verus!
