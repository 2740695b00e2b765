use crate::parser::blocks::{content_end, fence_char, lemma_content_end, line_content_end, next_line, next_line_start};
use crate::parser::cst::{CstElement, Heading, Node, OccurrenceId, TextNode};
use crate::parser::ParseOptions;
use crate::parser::scanner::{
    br, first_occ_from, first_occurrence, lemma_first_occ_exists, offs_ok, trim_bounds, trim_range,
};
use crate::resolution::prefix::strings_view;
use crate::resolution::slug::{push_decimal, spec_decimal, spec_slug, Slug};
use crate::utils::strs::{occurs_at, skip_ws, string_of_range, ws_prefix_len};
use crate::utils::text::ByteRange;
use vstd::prelude::*;

verus! {

/// The line content `s[ls..ce]`, past its leading white space, starts with three `c`.
pub open spec fn content_fence(s: Seq<char>, ls: int, ce: int, c: char) -> bool {
    let t = ls + ws_prefix_len(s.subrange(ls, ce));
    t + 3 <= ce && s[t] == c && s[t + 1] == c && s[t + 2] == c
}

fn is_content_fence(s: &[char], ls: usize, ce: usize, c: char) -> (b: bool)
    requires
        ls <= ce <= s@.len(),
    ensures
        b == content_fence(s@, ls as int, ce as int, c),
{
    let t = skip_ws(s, ls, ce);
    ce - t >= 3 && s[t] == c && s[t + 1] == c && s[t + 2] == c
}

/// End of the run of `#` that starts at `t`, within `ce`.
pub open spec fn hash_run_end(s: Seq<char>, t: int, ce: int) -> int
    decreases ce - t,
{
    if t >= ce || s[t] != '#' {
        t
    } else {
        hash_run_end(s, t + 1, ce)
    }
}

/// End of `s[a..b]` without its trailing `#`.
pub open spec fn hash_back(s: Seq<char>, a: int, b: int) -> int
    decreases b - a,
{
    if b <= a || s[b - 1] != '#' {
        b
    } else {
        hash_back(s, a, b - 1)
    }
}

/// The heading on the line content `s[ls..ce]`: its level and the bounds of its title,
/// which drops surrounding white space and a closing run of `#`.
pub open spec fn heading_parts(s: Seq<char>, ls: int, ce: int) -> Option<(int, int, int)> {
    let t = ls + ws_prefix_len(s.subrange(ls, ce));
    let he = hash_run_end(s, t, ce);
    let h = he - t;
    if 1 <= h <= 6 && he < ce && (s[he] == ' ' || s[he] == '\u{a0}') {
        let (a1, b1) = trim_bounds(s, he + 1, ce);
        let b2 = hash_back(s, a1, b1);
        let (a3, b3) = trim_bounds(s, a1, b2);
        Some((h, a3, b3))
    } else {
        None
    }
}

/// Line starts of the headings from line start `i` on, outside fenced code blocks; `fence`
/// is the kind of the fence open at `i`, if one is.
pub open spec fn heading_lines_from(s: Seq<char>, i: int, fence: Option<bool>) -> Seq<int>
    decreases s.len() - i,
{
    if i < 0 || i >= s.len() {
        Seq::empty()
    } else {
        proof {
            lemma_content_end(s, i);
        }
        let ce = content_end(s, i);
        let nl = next_line(s, i);
        if content_fence(s, i, ce, '`') || content_fence(s, i, ce, '~') {
            match fence {
                Some(bt) => if content_fence(s, i, ce, fence_char(bt)) {
                    heading_lines_from(s, nl, None)
                } else {
                    heading_lines_from(s, nl, fence)
                },
                None => heading_lines_from(s, nl, Some(content_fence(s, i, ce, '`'))),
            }
        } else if fence is Some {
            heading_lines_from(s, nl, fence)
        } else if heading_parts(s, i, ce) is Some {
            seq![i] + heading_lines_from(s, nl, None)
        } else {
            heading_lines_from(s, nl, None)
        }
    }
}

pub open spec fn heading_lines(s: Seq<char>) -> Seq<int> {
    heading_lines_from(s, 0, None)
}

/// The title text of the heading on the line starting at `ls`.
pub open spec fn heading_title(s: Seq<char>, ls: int) -> Seq<char> {
    let (h, a, b) = heading_parts(s, ls, content_end(s, ls)).unwrap();
    s.subrange(a, b)
}

/// Where the title is first found on its line.
pub open spec fn title_start(s: Seq<char>, ls: int) -> int {
    match first_occ_from(s.subrange(ls, content_end(s, ls)), heading_title(s, ls), 0) {
        Some(p) => ls + p,
        None => ls,
    }
}

/// How many times `x` occurs in `xs`.
pub open spec fn count_of(xs: Seq<Seq<char>>, x: Seq<char>) -> nat
    decreases xs.len(),
{
    if xs.len() == 0 {
        0
    } else {
        count_of(xs.drop_last(), x) + if xs.last() == x {
            1nat
        } else {
            0nat
        }
    }
}

/// The slugs of the headings' titles before any suffix.
pub open spec fn base_slugs(s: Seq<char>) -> Seq<Seq<char>> {
    let hl = heading_lines(s);
    Seq::new(hl.len(), |k: int| spec_slug(heading_title(s, hl[k])))
}

/// How many earlier headings share the base slug of heading `k`.
pub open spec fn slug_counter(s: Seq<char>, k: int) -> nat {
    count_of(base_slugs(s).take(k), base_slugs(s)[k])
}

/// `node` is heading `k` of `s`, numbered `id`.
pub open spec fn heading_node_ok(s: Seq<char>, opts: ParseOptions, node: Node<Heading>, k: int, id: int) -> bool {
    let ls = heading_lines(s)[k];
    let ce = content_end(s, ls);
    let (h, a, b) = heading_parts(s, ls, ce).unwrap();
    let ts = title_start(s, ls);
    let n = slug_counter(s, k);
    let base = spec_slug(s.subrange(a, b));
    let suffixed = opts.heading_ids && n > 0;
    &&& node.id == id
    &&& node.text@ == s.subrange(ls, ce)
    &&& node.range == br(s, ls, ce)
    &&& node.data.level == h
    &&& node.data.is_title == (opts.title_from_heading && h == 1)
    &&& node.data.title.text@ == s.subrange(a, b)
    &&& node.data.title.range == br(s, ts, ts + (b - a))
    &&& node.data.slug@ == (if suffixed {
        base.push('-') + spec_decimal(n)
    } else {
        base
    })
    &&& (if suffixed {
        node.data.disambiguation matches Some(d) && d@ == spec_decimal(n)
    } else {
        node.data.disambiguation is None
    })
    &&& node.data.scope == br(s, ls, ce)
}

/// `el` is heading `k` of `s`, numbered `id`.
pub open spec fn heading_el_ok(s: Seq<char>, opts: ParseOptions, el: CstElement, k: int, id: int) -> bool {
    el matches CstElement::H(node) && heading_node_ok(s, opts, node, k, id)
}

fn hash_run(s: &[char], t: usize, ce: usize) -> (r: usize)
    requires
        t <= ce <= s@.len(),
    ensures
        r == hash_run_end(s@, t as int, ce as int),
        t <= r <= ce,
{
    let mut j: usize = t;
    while j < ce && s[j] == '#'
        invariant
            t <= j <= ce <= s@.len(),
            hash_run_end(s@, t as int, ce as int) == hash_run_end(s@, j as int, ce as int),
        decreases ce - j,
    {
        j += 1;
    }
    j
}

fn hash_trim_back(s: &[char], a: usize, b: usize) -> (r: usize)
    requires
        a <= b <= s@.len(),
    ensures
        r == hash_back(s@, a as int, b as int),
        a <= r <= b,
{
    let mut j: usize = b;
    while j > a && s[j - 1] == '#'
        invariant
            a <= j <= b <= s@.len(),
            hash_back(s@, a as int, b as int) == hash_back(s@, a as int, j as int),
        decreases j - a,
    {
        j -= 1;
    }
    j
}

fn parts_of_heading(s: &[char], ls: usize, ce: usize) -> (r: Option<(usize, usize, usize)>)
    requires
        ls <= ce <= s@.len(),
    ensures
        match r {
            Some((h, a, b)) => heading_parts(s@, ls as int, ce as int) == Some((h as int, a as int, b as int))
                && 1 <= h <= 6 && ls <= a <= b <= ce,
            None => heading_parts(s@, ls as int, ce as int) is None,
        },
{
    let t = skip_ws(s, ls, ce);
    let he = hash_run(s, t, ce);
    let h = he - t;
    if !(1 <= h && h <= 6 && he < ce && (s[he] == ' ' || s[he] == '\u{a0}')) {
        return None;
    }
    let (a1, b1) = trim_range(s, he + 1, ce);
    let b2 = hash_trim_back(s, a1, b1);
    let (a3, b3) = trim_range(s, a1, b2);
    Some((h, a3, b3))
}

/// Counts the entries of `seen` equal to `x`.
fn count_equal(seen: &Vec<String>, x: &String) -> (n: usize)
    ensures
        n == count_of(strings_view(seen@), x@),
{
    let ghost vs = strings_view(seen@);
    let mut n: usize = 0;
    let mut k: usize = 0;
    while k < seen.len()
        invariant
            k <= seen@.len(),
            vs == strings_view(seen@),
            n == count_of(vs.take(k as int), x@),
            n <= k,
        decreases seen@.len() - k,
    {
        assert(vs.take(k + 1).drop_last() =~= vs.take(k as int));
        if seen[k] == *x {
            n += 1;
        }
        k += 1;
    }
    assert(vs.take(k as int) =~= vs);
    n
}

/// The headings of the text outside fenced code blocks, numbered from `next_id` on.
pub fn parse_headings(s: &[char], offs: &Vec<usize>, options: &ParseOptions, next_id: &mut OccurrenceId) -> (r: Vec<CstElement>)
    requires
        offs_ok(s@, offs@),
        *old(next_id) + s@.len() <= u32::MAX,
    ensures
        r@.len() == heading_lines(s@).len(),
        r@.len() <= s@.len(),
        *final(next_id) == *old(next_id) + r@.len(),
        forall|k: int|
            0 <= k < r@.len() ==> heading_el_ok(s@, *options, #[trigger] r@[k], k, *old(next_id) + k),
{
    let ghost hl = heading_lines(s@);
    let ghost id0 = *next_id;
    let mut out: Vec<CstElement> = Vec::new();
    let mut seen: Vec<String> = Vec::new();
    let mut fence: Option<bool> = None;
    let mut i: usize = 0;
    let ghost mut done: Seq<int> = Seq::empty();
    while i < s.len()
        invariant
            i <= s@.len(),
            offs_ok(s@, offs@),
            id0 + s@.len() <= u32::MAX,
            hl == heading_lines(s@),
            out@.len() == done.len(),
            seen@.len() == done.len(),
            done.len() <= i,
            *next_id == id0 + out@.len(),
            hl == done + heading_lines_from(s@, i as int, fence),
            forall|k: int| 0 <= k < done.len() ==> (#[trigger] seen@[k])@ == spec_slug(heading_title(s@, done[k])),
            forall|k: int|
                0 <= k < out@.len() ==> heading_el_ok(s@, *options, #[trigger] out@[k], k, id0 + k),
        decreases s@.len() - i,
    {
        let ce = line_content_end(s, i);
        let nl = next_line_start(s, i);
        let bt = is_content_fence(s, i, ce, '`');
        let tl = is_content_fence(s, i, ce, '~');
        if bt || tl {
            match fence {
                Some(b) => {
                    let c = if b {
                        '`'
                    } else {
                        '~'
                    };
                    if is_content_fence(s, i, ce, c) {
                        fence = None;
                    }
                },
                None => {
                    fence = Some(bt);
                },
            }
            i = nl;
            continue;
        }
        if fence.is_some() {
            i = nl;
            continue;
        }
        match parts_of_heading(s, i, ce) {
            None => {},
            Some((h, a, b)) => {
                let title = string_of_range(s, a, b);
                let line = crate::resolution::path::slice_vec(s, i, ce);
                let tv = crate::resolution::path::slice_vec(s, a, b);
                let ts = match first_occurrence(&line, &tv) {
                    Some(p) => i + p,
                    None => i,
                };
                proof {
                    if ts + (b - a) > ce {
                        assert(first_occ_from(line@, tv@, 0) is None);
                        assert(occurs_at(line@, tv@, a - i)) by {
                            assert(line@.subrange(a - i, a - i + tv@.len()) =~= tv@);
                        }
                        lemma_first_occ_exists(line@, tv@, 0, a - i);
                    }
                }
                let base = Slug::from_heading_text(title.as_str());
                let base_str = String::from_str(base.as_str());
                let counter = count_equal(&seen, &base_str);
                let ghost k = done.len() as int;
                proof {
                    assert(hl == done.push(i as int) + heading_lines_from(s@, nl as int, None)) by {
                        assert(done + (seq![i as int] + heading_lines_from(s@, nl as int, None)) =~= done.push(i as int) + heading_lines_from(s@, nl as int, None));
                    }
                    assert(hl[k] == i);
                    assert(base_slugs(s@).take(k) =~= strings_view(seen@)) by {
                        assert forall|j: int| 0 <= j < k implies base_slugs(s@)[j] == (#[trigger] strings_view(seen@)[j]) by {
                            assert(hl[j] == done[j]);
                            assert(seen@[j]@ == spec_slug(heading_title(s@, done[j])));
                        }
                    }
                }
                let suffixed = options.heading_ids && counter > 0;
                let slug = if suffixed {
                    Slug::with_suffix(&base, counter)
                } else {
                    base
                };
                let disambiguation = if suffixed {
                    let mut d = String::new();
                    push_decimal(&mut d, counter);
                    Some(d)
                } else {
                    None
                };
                let heading = Heading {
                    level: h as u8,
                    is_title: options.title_from_heading && h == 1,
                    title: TextNode { text: title, range: ByteRange::new(offs[ts], offs[ts + (b - a)]) },
                    slug,
                    disambiguation,
                    scope: ByteRange::new(offs[i], offs[ce]),
                };
                let id = *next_id;
                out.push(CstElement::H(Node { id, text: string_of_range(s, i, ce), range: ByteRange::new(offs[i], offs[ce]), data: heading }));
                *next_id = *next_id + 1;
                seen.push(base_str);
                proof {
                    done = done.push(i as int);
                }
                i = nl;
                continue;
            },
        }
        i = nl;
    }
    proof {
        assert(done + heading_lines_from(s@, i as int, fence) =~= done);
    }
    out
}

} // verus!
