use crate::parser::cst::{
    spans, CstElement, EncodedNode, MdLink, MdLinkDef, Node, OccurrenceId, Tag, TextNode, WikiLink,
};
use crate::utils::strs::{
    bpos, char_width8, is_ws, lemma_bpos_mono, lemma_ws_prefix_bound, lemma_ws_suffix_bound,
    skip_ws, skip_ws_back, ws_prefix_len, ws_suffix_len, lemma_bpos_step, occurs_at, occurs_at_exec,
    spec_is_ws, string_of, string_of_range, utf8_len, chars_of, str_byte_len,
};
use crate::utils::text::{char_idx, is_boundary, lemma_char_idx, ByteRange};
use crate::parser::blocks::{
    build_masks, content_end, def_lines_from, def_node_ok, def_parts, frontmatter_end, mask_spans,
    scan_link_definitions, spans_as_ranges,
};
use crate::parser::tags::{any_contains, in_ranges, scan_tags, tag_node_ok, tags_from};
use vstd::prelude::*;

verus! {

/// Byte offset of every character index `0..=s.len()`.
pub fn byte_offsets(s: &[char]) -> (r: Vec<usize>)
    requires
        utf8_len(s@) <= usize::MAX,
    ensures
        r@.len() == s@.len() + 1,
        forall|i: int| 0 <= i <= s@.len() ==> r@[i] == bpos(s@, i),
{
    let mut r: Vec<usize> = Vec::new();
    r.push(0);
    let mut pos: usize = 0;
    let mut i: usize = 0;
    proof {
        assert(s@.take(0) =~= Seq::<char>::empty());
        assert(s@.take(s@.len() as int) =~= s@);
    }
    while i < s.len()
        invariant
            i <= s@.len(),
            r@.len() == i + 1,
            pos == bpos(s@, i as int),
            bpos(s@, s@.len() as int) <= usize::MAX,
            forall|k: int| 0 <= k <= i ==> r@[k] == bpos(s@, k),
        decreases s@.len() - i,
    {
        proof {
            lemma_bpos_step(s@, i as int);
            lemma_bpos_mono(s@, i + 1, s@.len() as int);
        }
        pos = pos + char_width8(s[i]);
        r.push(pos);
        i += 1;
    }
    r
}

/// The byte range between character indices `a` and `b` of `s`.
pub open spec fn br(s: Seq<char>, a: int, b: int) -> ByteRange {
    ByteRange { start: bpos(s, a) as usize, end: bpos(s, b) as usize }
}

/// Offsets table agreeing with `s`.
pub open spec fn offs_ok(s: Seq<char>, offs: Seq<usize>) -> bool {
    &&& offs.len() == s.len() + 1
    &&& forall|i: int| 0 <= i <= s.len() ==> offs[i] == bpos(s, i)
}

/// Whether the character at `i` follows an unescaped backslash, reading from `start`.
pub open spec fn escaped_at(s: Seq<char>, start: int, i: int) -> bool
    decreases i - start,
{
    if i <= start {
        false
    } else {
        s[i - 1] == '\\' && !escaped_at(s, start, i - 1)
    }
}

/// `c` stands unescaped at `i`, reading from `start`.
pub open spec fn unescaped_hit(s: Seq<char>, start: int, i: int, c: char) -> bool {
    start <= i < s.len() && s[i] == c && !escaped_at(s, start, i)
}

/// The first unescaped `c` at index `i` or later and before `end`, reading from `start`.
pub open spec fn unescaped_from(s: Seq<char>, start: int, i: int, end: int, c: char) -> Option<int>
    decreases end - i,
{
    if i >= end {
        None
    } else if unescaped_hit(s, start, i, c) {
        Some(i)
    } else {
        unescaped_from(s, start, i + 1, end, c)
    }
}

/// The first unescaped `c` at or after `start` and before `end`.
#[verifier::opaque]
pub open spec fn first_unescaped(s: Seq<char>, start: int, end: int, c: char) -> Option<int> {
    unescaped_from(s, start, start, end, c)
}

proof fn lemma_unescaped_from(s: Seq<char>, start: int, i: int, end: int, c: char)
    ensures
        match unescaped_from(s, start, i, end, c) {
            Some(k) => i <= k < end && unescaped_hit(s, start, k, c) && forall|j: int|
                i <= j < k ==> !#[trigger] unescaped_hit(s, start, j, c),
            None => forall|j: int| i <= j < end ==> !#[trigger] unescaped_hit(s, start, j, c),
        },
    decreases end - i,
{
    if i < end {
        lemma_unescaped_from(s, start, i + 1, end, c);
    }
}

/// What the first unescaped `c` is: an unescaped `c` in range with none before it, or,
/// when there is none, no unescaped `c` in range at all.
pub proof fn lemma_first_unescaped(s: Seq<char>, start: int, end: int, c: char)
    ensures
        match first_unescaped(s, start, end, c) {
            Some(k) => start <= k < end && unescaped_hit(s, start, k, c) && forall|j: int|
                start <= j < k ==> !#[trigger] unescaped_hit(s, start, j, c),
            None => forall|j: int| start <= j < end ==> !#[trigger] unescaped_hit(s, start, j, c),
        },
{
    reveal(first_unescaped);
    lemma_unescaped_from(s, start, start, end, c);
}

/// Finds the first unescaped `needle` in `s[start..end]`.
pub fn find_unescaped_in(s: &[char], start: usize, end: usize, needle: char) -> (r: Option<usize>)
    requires
        start <= end <= s@.len(),
        needle != '\\',
    ensures
        match r {
            Some(i) => first_unescaped(s@, start as int, end as int, needle) == Some(i as int)
                && start <= i < end,
            None => first_unescaped(s@, start as int, end as int, needle) is None,
        },
{
    reveal(first_unescaped);
    let mut escaped = false;
    let mut i: usize = start;
    while i < end
        invariant
            start <= i <= end <= s@.len(),
            needle != '\\',
            escaped == escaped_at(s@, start as int, i as int),
            unescaped_from(s@, start as int, start as int, end as int, needle) == unescaped_from(
                s@,
                start as int,
                i as int,
                end as int,
                needle,
            ),
        decreases end - i,
    {
        let ch = s[i];
        assert(escaped_at(s@, start as int, i + 1) == (s@[i as int] == '\\' && !escaped_at(
            s@,
            start as int,
            i as int,
        )));
        if escaped {
            escaped = false;
        } else if ch == '\\' {
            escaped = true;
        } else if ch == needle {
            proof {
                reveal(first_unescaped);
            }
            return Some(i);
        }
        i += 1;
    }
    proof {
        reveal(first_unescaped);
    }
    None
}

pub fn find_unescaped(s: &[char], start: usize, needle: char) -> (r: Option<usize>)
    requires
        start <= s@.len(),
        needle != '\\',
    ensures
        match r {
            Some(i) => first_unescaped(s@, start as int, s@.len() as int, needle) == Some(i as int)
                && start <= i < s@.len(),
            None => first_unescaped(s@, start as int, s@.len() as int, needle) is None,
        },
{
    find_unescaped_in(s, start, s.len(), needle)
}

pub open spec fn spec_is_hex(c: char) -> bool {
    ('0' <= c && c <= '9') || ('a' <= c && c <= 'f') || ('A' <= c && c <= 'F')
}

pub open spec fn hex_val(c: char) -> nat {
    if '0' <= c && c <= '9' {
        (c as nat - '0' as nat) as nat
    } else if 'a' <= c && c <= 'f' {
        (c as nat - 'a' as nat + 10) as nat
    } else {
        (c as nat - 'A' as nat + 10) as nat
    }
}

fn hex_digit(c: char) -> (r: Option<u8>)
    ensures
        r is Some <==> spec_is_hex(c),
        r matches Some(v) ==> v == hex_val(c) && v < 16,
{
    if '0' <= c && c <= '9' {
        Some(((c as u32) - ('0' as u32)) as u8)
    } else if 'a' <= c && c <= 'f' {
        Some(((c as u32) - ('a' as u32) + 10) as u8)
    } else if 'A' <= c && c <= 'F' {
        Some(((c as u32) - ('A' as u32) + 10) as u8)
    } else {
        None
    }
}

/// Decoding of `%XX` escapes (to the character with that code) and of backslash escapes,
/// from index `i` on.
pub open spec fn decode_from(s: Seq<char>, i: int) -> Seq<char>
    decreases s.len() - i,
{
    if i < 0 || i >= s.len() {
        Seq::empty()
    } else if s[i] == '%' && i + 2 < s.len() && spec_is_hex(s[i + 1]) && spec_is_hex(s[i + 2]) {
        seq![((hex_val(s[i + 1]) * 16 + hex_val(s[i + 2])) as u8) as char] + decode_from(s, i + 3)
    } else if s[i] == '\\' && i + 1 < s.len() {
        seq![s[i + 1]] + decode_from(s, i + 2)
    } else {
        seq![s[i]] + decode_from(s, i + 1)
    }
}

pub open spec fn spec_decode(s: Seq<char>) -> Seq<char> {
    decode_from(s, 0)
}

/// Decodes `%XX` and backslash escapes of a link component.
pub fn decode_component(input: &[char]) -> (r: String)
    ensures
        r@ == spec_decode(input@),
{
    let mut out = String::new();
    let mut idx: usize = 0;
    while idx < input.len()
        invariant
            idx <= input@.len(),
            spec_decode(input@) == out@ + decode_from(input@, idx as int),
        decreases input@.len() - idx,
    {
        let ghost before = out@;
        if input[idx] == '%' && input.len() - idx > 2 {
            match (hex_digit(input[idx + 1]), hex_digit(input[idx + 2])) {
                (Some(hi), Some(lo)) => {
                    let value: u8 = hi * 16 + lo;
                    crate::utils::strs::push_char(&mut out, value as char);
                    assert(before + decode_from(input@, idx as int) == out@ + decode_from(
                        input@,
                        idx + 3,
                    ));
                    idx += 3;
                    continue ;
                },
                _ => {},
            }
        }
        if input[idx] == '\\' && input.len() - idx > 1 {
            crate::utils::strs::push_char(&mut out, input[idx + 1]);
            assert(before + decode_from(input@, idx as int) == out@ + decode_from(
                input@,
                idx + 2,
            ));
            idx += 2;
            continue ;
        }
        crate::utils::strs::push_char(&mut out, input[idx]);
        assert(before + decode_from(input@, idx as int) == out@ + decode_from(input@, idx + 1));
        idx += 1;
    }
    assert(out@ + decode_from(input@, idx as int) =~= out@);
    out
}

/// `e` holds the text of `s[a..b]`, raw and decoded.
pub open spec fn enc_ok(s: Seq<char>, e: EncodedNode, a: int, b: int) -> bool {
    &&& e.range == br(s, a, b)
    &&& e.raw@ == s.subrange(a, b)
    &&& e.decoded@ == spec_decode(s.subrange(a, b))
}

/// `o` holds `s[a..b]` when that is not empty, and nothing otherwise.
pub open spec fn opt_enc_ok(s: Seq<char>, o: Option<EncodedNode>, a: int, b: int) -> bool {
    if a < b {
        o matches Some(e) && enc_ok(s, e, a, b)
    } else {
        o is None
    }
}

pub open spec fn opt_range_ok(s: Seq<char>, o: Option<ByteRange>, a: int, b: int) -> bool {
    if a < b {
        o == Some(br(s, a, b))
    } else {
        o is None
    }
}

/// A wiki-link opening at `start`: whether it is an embed (`![[`) and where its content
/// begins; `[[` opens a plain link.
pub open spec fn wiki_open(s: Seq<char>, start: int) -> Option<(bool, int)> {
    if 0 <= start && start + 2 < s.len() && s[start] == '!' && s[start + 1] == '[' && s[start
        + 2] == '[' {
        Some((true, start + 3))
    } else if 0 <= start && start + 1 < s.len() && s[start] == '[' && s[start + 1] == '[' {
        Some((false, start + 2))
    } else {
        None
    }
}

/// The first `]]` at or after `i`, skipping the character after each backslash.
pub open spec fn wiki_close(s: Seq<char>, i: int) -> Option<int>
    decreases s.len() - i,
{
    if i < 0 || i + 1 >= s.len() {
        None
    } else if s[i] == '\\' {
        wiki_close(s, i + 2)
    } else if s[i] == ']' && s[i + 1] == ']' {
        Some(i)
    } else {
        wiki_close(s, i + 1)
    }
}

/// Splits `s[a..b]` at its first unescaped `c` into the part before and the part after;
/// without one, the whole range and an empty range at `b`.
pub open spec fn split_at_unescaped(s: Seq<char>, a: int, b: int, c: char) -> (int, int, int, int) {
    match first_unescaped(s, a, b, c) {
        Some(p) => (a, p, p + 1, b),
        None => (a, b, b, b),
    }
}

/// `node` is the wiki-link of `s` that opens at `start` and closes at `cl`.
pub open spec fn wiki_node_ok(s: Seq<char>, node: Node<WikiLink>, start: int, cl: int, id: OccurrenceId) -> bool {
    let (emb, cs) = wiki_open(s, start).unwrap();
    let t = split_at_unescaped(s, cs, cl, '|');
    let h = split_at_unescaped(s, t.0, t.1, '#');
    &&& node.id == id
    &&& node.text@ == s.subrange(start, cl + 2)
    &&& node.range == br(s, start, cl + 2)
    &&& node.data.is_embed == emb
    &&& opt_enc_ok(s, node.data.doc, h.0, h.1)
    &&& opt_enc_ok(s, node.data.heading, h.2, h.3)
    &&& opt_enc_ok(s, node.data.title, t.2, t.3)
    &&& opt_range_ok(s, node.data.doc_range, h.0, h.1)
    &&& opt_range_ok(s, node.data.heading_range, h.2, h.3)
    &&& opt_range_ok(s, node.data.title_range, t.2, t.3)
}

/// Splits `s[a..b]` at its first unescaped `c`.
pub fn split_unescaped(s: &[char], a: usize, b: usize, c: char) -> (r: (usize, usize, usize, usize))
    requires
        a <= b <= s@.len(),
        c != '\\',
    ensures
        r == (r.0, r.1, r.2, r.3),
        (r.0 as int, r.1 as int, r.2 as int, r.3 as int) == split_at_unescaped(s@, a as int, b as int, c),
        r.0 <= r.1 <= r.2 <= r.3 == b,
{
    match find_unescaped_in(s, a, b, c) {
        Some(p) => (a, p, p + 1, b),
        None => (a, b, b, b),
    }
}

fn opt_encoded(s: &[char], offs: &Vec<usize>, a: usize, b: usize) -> (r: Option<EncodedNode>)
    requires
        a <= b <= s@.len(),
        offs_ok(s@, offs@),
    ensures
        opt_enc_ok(s@, r, a as int, b as int),
{
    if a < b {
        let raw_chars = crate::resolution::path::slice_vec(s, a, b);
        Some(
            EncodedNode {
                raw: string_of_range(s, a, b),
                decoded: decode_component(&raw_chars),
                range: ByteRange::new(offs[a], offs[b]),
            },
        )
    } else {
        None
    }
}

fn opt_range(s: &[char], offs: &Vec<usize>, a: usize, b: usize) -> (r: Option<ByteRange>)
    requires
        a <= b <= s@.len(),
        offs_ok(s@, offs@),
    ensures
        opt_range_ok(s@, r, a as int, b as int),
{
    if a < b {
        Some(ByteRange::new(offs[a], offs[b]))
    } else {
        None
    }
}

/// Scans for the wiki-link closing `]]` from `i` on.
fn find_wiki_close(s: &[char], i: usize) -> (r: Option<usize>)
    requires
        i <= s@.len() + 1,
    ensures
        match r {
            Some(c) => wiki_close(s@, i as int) == Some(c as int) && c + 1 < s@.len() && i <= c,
            None => wiki_close(s@, i as int) is None,
        },
{
    let mut idx: usize = i;
    while idx < s.len() && s.len() - idx > 1
        invariant
            i <= idx <= s@.len() + 1,
            wiki_close(s@, i as int) == wiki_close(s@, idx as int),
        decreases s@.len() + 2 - idx,
    {
        if s[idx] == '\\' {
            idx += 2;
            continue ;
        }
        if s[idx] == ']' && s[idx + 1] == ']' {
            return Some(idx);
        }
        idx += 1;
    }
    None
}

/// Recognises a wiki-link (`[[...]]`, or an embed `![[...]]`) that opens at `start`;
/// gives it with the index just past its closing brackets.
pub fn try_scan_wikilink(s: &[char], offs: &Vec<usize>, start: usize, next_id: &mut OccurrenceId) -> (r: Option<(CstElement, usize)>)
    requires
        start <= s@.len(),
        offs_ok(s@, offs@),
        *old(next_id) < u32::MAX,
    ensures
        r is Some <==> (wiki_open(s@, start as int) is Some && wiki_close(
            s@,
            wiki_open(s@, start as int).unwrap().1,
        ) is Some),
        r is Some ==> *final(next_id) == *old(next_id) + 1,
        r is None ==> *final(next_id) == *old(next_id),
        r matches Some((el, end)) ==> {
            let cl = wiki_close(s@, wiki_open(s@, start as int).unwrap().1).unwrap();
            &&& end == cl + 2
            &&& el matches CstElement::WL(node) && wiki_node_ok(s@, node, start as int, cl, *old(next_id))
        },
{
    let n = s.len();
    let (is_embed, content_start): (bool, usize) = if n - start > 2 && s[start] == '!' && s[start
        + 1] == '[' && s[start + 2] == '[' {
        (true, start + 3)
    } else if n - start > 1 && s[start] == '[' && s[start + 1] == '[' {
        (false, start + 2)
    } else {
        return None;
    };
    let close = find_wiki_close(s, content_start)?;
    let (t0, t1, t2, t3) = split_unescaped(s, content_start, close, '|');
    let (h0, h1, h2, h3) = split_unescaped(s, t0, t1, '#');
    let doc = opt_encoded(s, offs, h0, h1);
    let heading = opt_encoded(s, offs, h2, h3);
    let title = opt_encoded(s, offs, t2, t3);
    let doc_range = opt_range(s, offs, h0, h1);
    let heading_range = opt_range(s, offs, h2, h3);
    let title_range = opt_range(s, offs, t2, t3);
    let id = *next_id;
    *next_id = *next_id + 1;
    let node = Node {
        id,
        text: string_of_range(s, start, close + 2),
        range: ByteRange::new(offs[start], offs[close + 2]),
        data: WikiLink { doc, heading, title, is_embed, doc_range, heading_range, title_range },
    };
    Some((CstElement::WL(node), close + 2))
}

/// Bounds of `s[a..b]` with white space trimmed from both ends; `(b, b)` when only
/// white space remains.
pub open spec fn trim_bounds(s: Seq<char>, a: int, b: int) -> (int, int) {
    let r = s.subrange(a, b);
    let p = ws_prefix_len(r);
    if p == r.len() {
        (b, b)
    } else {
        (a + p, b - ws_suffix_len(r))
    }
}

pub fn trim_range(s: &[char], a: usize, b: usize) -> (r: (usize, usize))
    requires
        a <= b <= s@.len(),
    ensures
        (r.0 as int, r.1 as int) == trim_bounds(s@, a as int, b as int),
        a <= r.0 <= r.1 <= b,
{
    let x = skip_ws(s, a, b);
    if x == b {
        return (b, b);
    }
    let y = skip_ws_back(s, a, b);
    proof {
        let r = s@.subrange(a as int, b as int);
        lemma_ws_prefix_bound(r);
        lemma_ws_suffix_bound(r);
        let p = ws_prefix_len(r);
        let q = ws_suffix_len(r);
        assert(!spec_is_ws(r[p as int]));
        if p + q > r.len() {
            assert(r.len() - q <= p < r.len());
            assert(spec_is_ws(r[p as int]));
        }
    }
    (x, y)
}

/// First index in `[i, b)` holding white space, or `b`.
pub open spec fn first_ws_from(s: Seq<char>, i: int, b: int) -> int
    decreases b - i,
{
    if i >= b {
        b
    } else if spec_is_ws(s[i]) {
        i
    } else {
        first_ws_from(s, i + 1, b)
    }
}

pub fn first_ws(s: &[char], a: usize, b: usize) -> (r: usize)
    requires
        a <= b <= s@.len(),
    ensures
        r == first_ws_from(s@, a as int, b as int),
        a <= r <= b,
{
    let mut i: usize = a;
    while i < b && !is_ws(s[i])
        invariant
            a <= i <= b <= s@.len(),
            first_ws_from(s@, a as int, b as int) == first_ws_from(s@, i as int, b as int),
        decreases b - i,
    {
        i += 1;
    }
    i
}

pub open spec fn is_angle(c: char) -> bool {
    c == '<' || c == '>'
}

/// Bounds of `s[a..b]` without leading and trailing `<` and `>`.
pub open spec fn angle_bounds(s: Seq<char>, a: int, b: int) -> (int, int) {
    let p = angle_from(s, a, b);
    if p == b {
        (b, b)
    } else {
        (p, angle_back(s, p, b))
    }
}

/// First index in `[i, b)` that holds no angle bracket, or `b`.
pub open spec fn angle_from(s: Seq<char>, i: int, b: int) -> int
    decreases b - i,
{
    if i >= b {
        b
    } else if is_angle(s[i]) {
        angle_from(s, i + 1, b)
    } else {
        i
    }
}

/// End of `s[a..j]` less its trailing angle brackets.
pub open spec fn angle_back(s: Seq<char>, a: int, j: int) -> int
    decreases j - a,
{
    if j <= a {
        a
    } else if is_angle(s[j - 1]) {
        angle_back(s, a, j - 1)
    } else {
        j
    }
}

fn angle_trim(s: &[char], a: usize, b: usize) -> (r: (usize, usize))
    requires
        a <= b <= s@.len(),
    ensures
        (r.0 as int, r.1 as int) == angle_bounds(s@, a as int, b as int),
        a <= r.0 <= r.1 <= b,
{
    let mut i: usize = a;
    while i < b && (s[i] == '<' || s[i] == '>')
        invariant
            a <= i <= b <= s@.len(),
            angle_from(s@, a as int, b as int) == angle_from(s@, i as int, b as int),
        decreases b - i,
    {
        i += 1;
    }
    if i == b {
        return (b, b);
    }
    let mut j: usize = b;
    while j > i && (s[j - 1] == '<' || s[j - 1] == '>')
        invariant
            i <= j <= b <= s@.len(),
            angle_back(s@, i as int, b as int) == angle_back(s@, i as int, j as int),
        decreases j - i,
    {
        j -= 1;
    }
    (i, j)
}

/// First index `k >= i` at which `pat` occurs in `hay`.
pub open spec fn first_occ_from(hay: Seq<char>, pat: Seq<char>, i: int) -> Option<int>
    decreases hay.len() - i,
{
    if i < 0 || i + pat.len() > hay.len() {
        None
    } else if occurs_at(hay, pat, i) {
        Some(i)
    } else {
        first_occ_from(hay, pat, i + 1)
    }
}

pub fn first_occurrence(hay: &[char], pat: &[char]) -> (r: Option<usize>)
    ensures
        match r {
            Some(k) => first_occ_from(hay@, pat@, 0) == Some(k as int) && k + pat@.len() <= hay@.len(),
            None => first_occ_from(hay@, pat@, 0) is None,
        },
{
    if pat.len() > hay.len() {
        return None;
    }
    let mut i: usize = 0;
    while i <= hay.len() - pat.len()
        invariant
            pat.len() <= hay.len(),
            first_occ_from(hay@, pat@, 0) == first_occ_from(hay@, pat@, i as int),
        decreases hay.len() - i,
    {
        if occurs_at_exec(hay, pat, i) {
            return Some(i);
        }
        if i == hay.len() - pat.len() {
            assert(first_occ_from(hay@, pat@, i + 1) is None);
            return None;
        }
        i += 1;
    }
    None
}

/// Where an inline destination begins: the first occurrence of the token in the text
/// between the parentheses, or that text's start.
pub open spec fn dest_start(s: Seq<char>, region_a: int, region_b: int, ta: int, tb: int) -> int {
    match first_occ_from(s.subrange(region_a, region_b), s.subrange(ta, tb), 0) {
        Some(k) => region_a + k,
        None => region_a,
    }
}

/// The parts of an inline link whose label ends at `le` and destination at `de`: the
/// token of the destination and where it was found, or `None` for an empty destination.
pub open spec fn inline_parts(s: Seq<char>, le: int, de: int) -> Option<(int, int, int)> {
    let tr = trim_bounds(s, le + 2, de);
    if tr.0 >= tr.1 {
        None
    } else {
        let w = first_ws_from(s, tr.0, tr.1);
        let tok = angle_bounds(s, tr.0, w);
        Some((tok.0, tok.1, dest_start(s, le + 2, de, tok.0, tok.1)))
    }
}

/// Where a markdown link opening at `start` has its `[`, and whether it is an image.
pub open spec fn md_open(s: Seq<char>, start: int) -> Option<(bool, int)> {
    let img = 0 <= start && start + 1 < s.len() && s[start] == '!' && s[start + 1] == '[';
    let bs = if img {
        start + 1
    } else {
        start
    };
    if 0 <= bs < s.len() && s[bs] == '[' {
        Some((img, bs))
    } else {
        None
    }
}

pub open spec fn text_node_ok(s: Seq<char>, t: TextNode, a: int, b: int) -> bool {
    t.text@ == s.subrange(a, b) && t.range == br(s, a, b)
}

/// The inline link (`[text](dest)`) whose label ends at `le`, as `data` and `end` describe it.
pub open spec fn inline_ok(s: Seq<char>, bs: int, le: int, img: bool, data: MdLink, end: int) -> bool {
    match first_unescaped(s, le + 2, s.len() as int, ')') {
        None => false,
        Some(de) => match inline_parts(s, le, de) {
            None => false,
            Some((ta, tb, ds)) => {
                let tok = s.subrange(ta, tb);
                let dl = tb - ta;
                &&& end == de + 1
                &&& data matches MdLink::Inline { text, dest, title, anchor_range, is_image }
                &&& text_node_ok(s, text, bs + 1, le)
                &&& dest.text@ == tok
                &&& dest.range == br(s, ds, ds + dl)
                &&& title is None
                &&& is_image == img
                &&& anchor_range == (if tok.contains('#') {
                    Some(br(s, ds + crate::resolution::path::index_or_len(tok, '#') + 1, ds + dl))
                } else {
                    None
                })
            },
        },
    }
}

pub open spec fn inline_at(s: Seq<char>, le: int) -> bool {
    match first_unescaped(s, le + 2, s.len() as int, ')') {
        None => false,
        Some(de) => inline_parts(s, le, de) is Some,
    }
}

/// The full (`[text][label]`) or collapsed (`[label][]`) reference link whose first label
/// ends at `le`, as `data` and `end` describe it.
pub open spec fn reference_ok(s: Seq<char>, bs: int, le: int, data: MdLink, end: int) -> bool {
    match first_unescaped(s, le + 2, s.len() as int, ']') {
        None => false,
        Some(se) => {
            &&& end == se + 1
            &&& if se == le + 2 {
                data matches MdLink::Collapsed { label } && text_node_ok(s, label, bs + 1, le)
            } else {
                data matches MdLink::Full { text, label } && text_node_ok(s, text, bs + 1, le)
                    && text_node_ok(s, label, le + 2, se)
            }
        },
    }
}

pub open spec fn shortcut_at(s: Seq<char>, bs: int, le: int) -> bool {
    !s.subrange(bs + 1, le).contains('\n') && !s.subrange(bs + 1, le).contains('\r')
}

/// The markdown link that opens at `start`, with the index just past it, as `node`
/// and `end` describe it.
pub open spec fn md_link_ok(s: Seq<char>, start: int, node: Node<MdLink>, end: int, id: OccurrenceId) -> bool {
    match md_open(s, start) {
        None => false,
        Some((img, bs)) => match first_unescaped(s, bs + 1, s.len() as int, ']') {
            None => false,
            Some(le) => {
                &&& le + 1 < s.len()
                &&& node.id == id
                &&& node.text@ == s.subrange(start, end)
                &&& node.range == br(s, start, end)
                &&& if s[le + 1] == '(' {
                    inline_ok(s, bs, le, img, node.data, end)
                } else if s[le + 1] == '[' {
                    reference_ok(s, bs, le, node.data, end)
                } else {
                    &&& shortcut_at(s, bs, le)
                    &&& end == le + 1
                    &&& node.data matches MdLink::Shortcut { label }
                    &&& text_node_ok(s, label, bs + 1, le)
                }
            },
        },
    }
}

/// Index just past the markdown link that opens at `start`.
pub open spec fn md_end(s: Seq<char>, start: int) -> int {
    let (img, bs) = md_open(s, start).unwrap();
    let le = first_unescaped(s, bs + 1, s.len() as int, ']').unwrap();
    if s[le + 1] == '(' {
        first_unescaped(s, le + 2, s.len() as int, ')').unwrap() + 1
    } else if s[le + 1] == '[' {
        first_unescaped(s, le + 2, s.len() as int, ']').unwrap() + 1
    } else {
        le + 1
    }
}

/// A markdown link is recognised at `start`.
pub open spec fn md_link_at(s: Seq<char>, start: int) -> bool {
    match md_open(s, start) {
        None => false,
        Some((img, bs)) => match first_unescaped(s, bs + 1, s.len() as int, ']') {
            None => false,
            Some(le) => le + 1 < s.len() && if s[le + 1] == '(' {
                inline_at(s, le)
            } else if s[le + 1] == '[' {
                first_unescaped(s, le + 2, s.len() as int, ']') is Some
            } else {
                shortcut_at(s, bs, le)
            },
        },
    }
}

fn text_node(s: &[char], offs: &Vec<usize>, a: usize, b: usize) -> (t: TextNode)
    requires
        a <= b <= s@.len(),
        offs_ok(s@, offs@),
    ensures
        text_node_ok(s@, t, a as int, b as int),
{
    TextNode { text: string_of_range(s, a, b), range: ByteRange::new(offs[a], offs[b]) }
}

/// The destination token of an inline link whose label ends at `le` and whose
/// destination text ends at `de`.
fn inline_token(s: &[char], le: usize, de: usize) -> (r: Option<(usize, usize, usize)>)
    requires
        le + 2 <= de <= s@.len(),
    ensures
        r matches Some((ta, tb, ds)) ==> inline_parts(s@, le as int, de as int) == Some((ta as int, tb as int, ds as int))
            && le + 2 <= ta <= tb <= de && le + 2 <= ds && ds + (tb - ta) <= de,
        r is None ==> inline_parts(s@, le as int, de as int) is None,
{
    let (da, db) = trim_range(s, le + 2, de);
    if da >= db {
        return None;
    }
    let w = first_ws(s, da, db);
    let (ta, tb) = angle_trim(s, da, w);
    let region = crate::resolution::path::slice_vec(s, le + 2, de);
    let tok = crate::resolution::path::slice_vec(s, ta, tb);
    let ds = match first_occurrence(&region, &tok) {
        Some(k) => le + 2 + k,
        None => le + 2,
    };
    proof {
        if ds + (tb - ta) > de {
            assert(first_occ_from(region@, tok@, 0) is None);
            assert(occurs_at(region@, tok@, ta - (le + 2))) by {
                assert(region@.subrange(ta - (le + 2), ta - (le + 2) + tok@.len()) =~= tok@);
            }
            lemma_first_occ_exists(region@, tok@, 0, ta - (le + 2));
        }
    }
    Some((ta, tb, ds))
}

/// The inline link whose label spans `s[bs + 1..le]`, `s[le + 1]` being `(`.
fn scan_inline(s: &[char], offs: &Vec<usize>, bs: usize, le: usize, img: bool) -> (r: Option<(MdLink, usize)>)
    requires
        bs < le,
        le + 1 < s.len(),
        offs_ok(s@, offs@),
    ensures
        r is Some <==> inline_at(s@, le as int),
        r matches Some((d, end)) ==> inline_ok(s@, bs as int, le as int, img, d, end as int) && le < end <= s@.len(),
{
    let dest_end = find_unescaped(s, le + 2, ')')?;
    let (ta, tb, ds) = inline_token(s, le, dest_end)?;
    let dl = tb - ta;
    let tok = crate::resolution::path::slice_vec(s, ta, tb);
    let anchor_range = match crate::utils::strs::find_char(&tok, '#') {
        Some(a) => {
            proof {
                crate::resolution::path::lemma_index_or_len_pub(tok@, '#', a as int);
            }
            Some(ByteRange::new(offs[ds + a + 1], offs[ds + dl]))
        },
        None => None,
    };
    let data = MdLink::Inline {
        text: text_node(s, offs, bs + 1, le),
        dest: TextNode { text: string_of(&tok), range: ByteRange::new(offs[ds], offs[ds + dl]) },
        title: None,
        anchor_range,
        is_image: img,
    };
    Some((data, dest_end + 1))
}

/// The full or collapsed reference link whose first label spans `s[bs + 1..le]`,
/// `s[le + 1]` being `[`.
fn scan_reference(s: &[char], offs: &Vec<usize>, bs: usize, le: usize) -> (r: Option<(MdLink, usize)>)
    requires
        bs < le,
        le + 1 < s.len(),
        offs_ok(s@, offs@),
    ensures
        r is Some <==> first_unescaped(s@, le + 2, s@.len() as int, ']') is Some,
        r matches Some((d, end)) ==> reference_ok(s@, bs as int, le as int, d, end as int) && le < end <= s@.len(),
{
    let second_end = find_unescaped(s, le + 2, ']')?;
    let data = if second_end == le + 2 {
        MdLink::Collapsed { label: text_node(s, offs, bs + 1, le) }
    } else {
        MdLink::Full { text: text_node(s, offs, bs + 1, le), label: text_node(s, offs, le + 2, second_end) }
    };
    Some((data, second_end + 1))
}

/// Recognises a markdown link (inline, full, collapsed or shortcut, or an inline image)
/// that opens at `start`; gives it with the index just past it.
pub fn try_scan_markdown_link(s: &[char], offs: &Vec<usize>, start: usize, next_id: &mut OccurrenceId) -> (r: Option<(CstElement, usize)>)
    requires
        start <= s@.len(),
        offs_ok(s@, offs@),
        *old(next_id) < u32::MAX,
    ensures
        r is Some <==> md_link_at(s@, start as int),
        r is Some ==> *final(next_id) == *old(next_id) + 1,
        r is None ==> *final(next_id) == *old(next_id),
        r matches Some((el, end)) ==> el matches CstElement::ML(node) && md_link_ok(s@, start as int, node, end as int, *old(next_id)) && start < end <= s@.len(),
        r matches Some((el, end)) ==> end == md_end(s@, start as int),
{
    let n = s.len();
    let is_image = n - start > 1 && s[start] == '!' && s[start + 1] == '[';
    let bracket_start = if is_image {
        start + 1
    } else {
        start
    };
    if bracket_start >= n || s[bracket_start] != '[' {
        return None;
    }
    let label_end = find_unescaped(s, bracket_start + 1, ']')?;
    if label_end + 1 >= n {
        return None;
    }
    let next = s[label_end + 1];
    let (data, end) = if next == '(' {
        scan_inline(s, offs, bracket_start, label_end, is_image)?
    } else if next == '[' {
        scan_reference(s, offs, bracket_start, label_end)?
    } else {
        let label = crate::resolution::path::slice_vec(s, bracket_start + 1, label_end);
        if crate::utils::strs::contains_char(&label, '\n') || crate::utils::strs::contains_char(&label, '\r') {
            return None;
        }
        (MdLink::Shortcut { label: text_node(s, offs, bracket_start + 1, label_end) }, label_end + 1)
    };
    let id = *next_id;
    *next_id = *next_id + 1;
    let node = Node { id, text: string_of_range(s, start, end), range: ByteRange::new(offs[start], offs[end]), data };
    Some((CstElement::ML(node), end))
}

pub proof fn lemma_first_occ_exists(hay: Seq<char>, pat: Seq<char>, i: int, k: int)
    requires
        0 <= i <= k,
        occurs_at(hay, pat, k),
    ensures
        first_occ_from(hay, pat, i) is Some,
        first_occ_from(hay, pat, i) matches Some(j) ==> i <= j <= k && occurs_at(hay, pat, j),
    decreases k - i,
{
    if i < k && !occurs_at(hay, pat, i) {
        lemma_first_occ_exists(hay, pat, i + 1, k);
    }
}


pub proof fn lemma_first_unescaped_bounds(s: Seq<char>, start: int, end: int, c: char)
    ensures
        first_unescaped(s, start, end, c) matches Some(p) ==> start <= p < end && p < s.len(),
    decreases end - start,
{
    reveal(first_unescaped);
    lemma_unescaped_from_bounds(s, start, start, end, c);
}

proof fn lemma_unescaped_from_bounds(s: Seq<char>, start: int, i: int, end: int, c: char)
    ensures
        unescaped_from(s, start, i, end, c) matches Some(p) ==> i <= p < end && p < s.len(),
    decreases end - i,
{
    if i < end && !unescaped_hit(s, start, i, c) {
        lemma_unescaped_from_bounds(s, start, i + 1, end, c);
    }
}

pub proof fn lemma_wiki_close_bounds(s: Seq<char>, i: int)
    ensures
        wiki_close(s, i) matches Some(c) ==> i <= c && c + 1 < s.len(),
    decreases s.len() - i,
{
    if i >= 0 && i + 1 < s.len() {
        if s[i] == '\\' {
            lemma_wiki_close_bounds(s, i + 2);
        } else if !(s[i] == ']' && s[i + 1] == ']') {
            lemma_wiki_close_bounds(s, i + 1);
        }
    }
}

/// The link recognised at `i`, if any: whether it is a wiki-link, and the index just past it.
pub open spec fn link_step(s: Seq<char>, i: int) -> Option<(bool, int)> {
    if wiki_open(s, i) is Some && wiki_close(s, wiki_open(s, i).unwrap().1) is Some {
        Some((true, wiki_close(s, wiki_open(s, i).unwrap().1).unwrap() + 2))
    } else if md_link_at(s, i) {
        Some((false, md_end(s, i)))
    } else {
        None
    }
}

pub proof fn lemma_link_step(s: Seq<char>, i: int)
    requires
        0 <= i < s.len(),
    ensures
        link_step(s, i) matches Some((w, e)) ==> i < e <= s.len(),
{
    if wiki_open(s, i) is Some {
        lemma_wiki_close_bounds(s, wiki_open(s, i).unwrap().1);
    }
    if md_open(s, i) is Some {
        let (img, bs) = md_open(s, i).unwrap();
        lemma_first_unescaped_bounds(s, bs + 1, s.len() as int, ']');
        if first_unescaped(s, bs + 1, s.len() as int, ']') is Some {
            let le = first_unescaped(s, bs + 1, s.len() as int, ']').unwrap();
            lemma_first_unescaped_bounds(s, le + 2, s.len() as int, ')');
            lemma_first_unescaped_bounds(s, le + 2, s.len() as int, ']');
        }
    }
}

/// The links found scanning from `i`, skipping the offsets inside `masks` and `defs`:
/// whether each is a wiki-link, where it starts and the index just past it.
pub open spec fn links_from(s: Seq<char>, masks: Seq<ByteRange>, defs: Seq<ByteRange>, i: int) -> Seq<(bool, int, int)>
    decreases s.len() - i,
{
    if i < 0 || i >= s.len() {
        Seq::empty()
    } else if in_ranges(masks, bpos(s, i) as int) || in_ranges(defs, bpos(s, i) as int) {
        links_from(s, masks, defs, i + 1)
    } else {
        proof {
            lemma_link_step(s, i);
        }
        match link_step(s, i) {
            Some((w, e)) => seq![(w, i, e)] + links_from(s, masks, defs, e),
            None => links_from(s, masks, defs, i + 1),
        }
    }
}

/// The kind of an element found by the scanner.
#[derive(Clone, Copy, PartialEq, Eq, Structural)]
pub enum ScanKind {
    Def,
    Wiki,
    Md,
    Tag,
    Heading,
    Front,
}

/// What the parser finds: its kind, the start of its line (for a definition) or its
/// ordinal (for a heading), its character range and its occurrence id.
pub struct ScanItem {
    pub kind: ScanKind,
    pub line: int,
    pub a: int,
    pub b: int,
    pub id: int,
}

/// `el` is the element that `it` describes.
pub open spec fn item_ok(s: Seq<char>, el: CstElement, it: ScanItem) -> bool {
    match it.kind {
        ScanKind::Def => el matches CstElement::MLD(n) && def_node_ok(s, n, it.line, it.b, it.id)
            && it.a == def_parts(s, it.line, it.b).unwrap().0,
        ScanKind::Wiki => el matches CstElement::WL(n) && n.id == it.id && wiki_node_ok(
            s,
            n,
            it.a,
            it.b - 2,
            n.id,
        ),
        ScanKind::Md => el matches CstElement::ML(n) && n.id == it.id && md_link_ok(s, it.a, n, it.b, n.id),
        ScanKind::Tag => el matches CstElement::T(n) && tag_node_ok(s, n, it.a, it.b, it.id),
        _ => false,
    }
}

/// The reference definition on the line starting at `ls`.
pub open spec fn def_item(s: Seq<char>, ls: int, id: int) -> ScanItem {
    ScanItem {
        kind: ScanKind::Def,
        line: ls,
        a: def_parts(s, ls, content_end(s, ls)).unwrap().0,
        b: content_end(s, ls),
        id,
    }
}

pub open spec fn def_items(s: Seq<char>, id0: int) -> Seq<ScanItem> {
    let dl = def_lines_from(s, spans_as_ranges(s, mask_spans(s)), 0);
    Seq::new(dl.len(), |k: int| def_item(s, dl[k], id0 + k))
}

pub open spec fn link_item(l: (bool, int, int), id: int) -> ScanItem {
    ScanItem {
        kind: if l.0 {
            ScanKind::Wiki
        } else {
            ScanKind::Md
        },
        line: 0,
        a: l.1,
        b: l.2,
        id,
    }
}

pub open spec fn link_items(s: Seq<char>, masks: Seq<ByteRange>, defs: Seq<ByteRange>, id0: int) -> Seq<ScanItem> {
    let l = links_from(s, masks, defs, 0);
    Seq::new(l.len(), |k: int| link_item(l[k], id0 + k))
}

pub open spec fn tag_item(t: (int, int), id: int) -> ScanItem {
    ScanItem { kind: ScanKind::Tag, line: 0, a: t.0, b: t.1, id }
}

pub open spec fn tag_items(s: Seq<char>, masks: Seq<ByteRange>, links: Seq<ByteRange>, id0: int) -> Seq<ScanItem> {
    let t = tags_from(s, masks, links, 0);
    Seq::new(t.len(), |k: int| tag_item(t[k], id0 + k))
}

pub open spec fn item_ranges(s: Seq<char>, items: Seq<ScanItem>) -> Seq<ByteRange> {
    Seq::new(items.len(), |k: int| br(s, items[k].a, items[k].b))
}

/// Stable merge of two runs of items by the byte offset where each starts.
pub open spec fn merge_items(s: Seq<char>, x: Seq<ScanItem>, y: Seq<ScanItem>) -> Seq<ScanItem>
    decreases x.len() + y.len(),
{
    if x.len() == 0 {
        y
    } else if y.len() == 0 {
        x
    } else if br(s, x[0].a, x[0].b).start <= br(s, y[0].a, y[0].b).start {
        seq![x[0]] + merge_items(s, x.drop_first(), y)
    } else {
        seq![y[0]] + merge_items(s, x, y.drop_first())
    }
}

pub proof fn lemma_item_range(s: Seq<char>, el: CstElement, it: ScanItem)
    requires
        item_ok(s, el, it),
    ensures
        el.spec_range() == br(s, it.a, it.b),
{
}

/// Everything the scanner finds in `s`, ordered by start: reference definitions on lines
/// outside the masks first, numbered from `id0`, then links outside the masks and
/// definitions, then tags outside the masks, definitions and links.
pub open spec fn doc_items(s: Seq<char>, id0: int) -> Seq<ScanItem> {
    let masks = spans_as_ranges(s, mask_spans(s));
    let d = def_items(s, id0);
    let l = link_items(s, masks, item_ranges(s, d), id0 + d.len());
    let t = tag_items(s, masks, item_ranges(s, d) + item_ranges(s, l), id0 + d.len() + l.len());
    merge_items(s, merge_items(s, d, l), t)
}

/// Merges two runs of elements, each ordered by start, keeping the order of equal starts.
pub fn merge_runs(
    a0: Vec<CstElement>,
    b0: Vec<CstElement>,
    Ghost(s): Ghost<Seq<char>>,
    Ghost(ok): Ghost<spec_fn(CstElement, ScanItem) -> bool>,
    Ghost(ai): Ghost<Seq<ScanItem>>,
    Ghost(bi): Ghost<Seq<ScanItem>>,
) -> (r: Vec<CstElement>)
    requires
        forall|el: CstElement, it: ScanItem| #[trigger] ok(el, it) ==> el.spec_range() == br(s, it.a, it.b),
        a0@.len() == ai.len(),
        b0@.len() == bi.len(),
        forall|k: int| 0 <= k < a0@.len() ==> ok(#[trigger] a0@[k], ai[k]),
        forall|k: int| 0 <= k < b0@.len() ==> ok(#[trigger] b0@[k], bi[k]),
    ensures
        r@.len() == merge_items(s, ai, bi).len(),
        forall|k: int| 0 <= k < r@.len() ==> ok(#[trigger] r@[k], merge_items(s, ai, bi)[k]),
{
    let mut a = a0;
    let mut b = b0;
    let mut out: Vec<CstElement> = Vec::new();
    let ghost mut xa = ai;
    let ghost mut xb = bi;
    let ghost mut done: Seq<ScanItem> = Seq::empty();
    while a.len() > 0 || b.len() > 0
        invariant
            forall|el: CstElement, it: ScanItem| #[trigger] ok(el, it) ==> el.spec_range() == br(s, it.a, it.b),
            a@.len() == xa.len(),
            b@.len() == xb.len(),
            forall|k: int| 0 <= k < a@.len() ==> ok(#[trigger] a@[k], xa[k]),
            forall|k: int| 0 <= k < b@.len() ==> ok(#[trigger] b@[k], xb[k]),
            out@.len() == done.len(),
            forall|k: int| 0 <= k < out@.len() ==> ok(#[trigger] out@[k], done[k]),
            merge_items(s, ai, bi) == done + merge_items(s, xa, xb),
        decreases a@.len() + b@.len(),
    {
        proof {
            if a@.len() > 0 {
                assert(ok(a@[0], xa[0]));
            }
            if b@.len() > 0 {
                assert(ok(b@[0], xb[0]));
            }
        }
        let take_a = b.len() == 0 || (a.len() > 0 && a[0].range().start <= b[0].range().start);
        if take_a {
            let ghost first = xa[0];
            let ghost prev_a = a@;
            let el = a.remove(0);
            out.push(el);
            proof {
                if xb.len() == 0 {
                    assert(merge_items(s, xa, xb) == xa);
                    assert(xa =~= seq![first] + xa.drop_first());
                    assert(merge_items(s, xa.drop_first(), xb) == xa.drop_first());
                } else {
                    assert(merge_items(s, xa, xb) == seq![first] + merge_items(s, xa.drop_first(), xb));
                }
                assert(done.push(first) + merge_items(s, xa.drop_first(), xb) =~= done + merge_items(s, xa, xb));
                done = done.push(first);
                xa = xa.drop_first();
                assert forall|k: int| 0 <= k < a@.len() implies ok(#[trigger] a@[k], xa[k]) by {
                    assert(a@[k] == prev_a[k + 1]);
                }
            }
        } else {
            let ghost first = xb[0];
            let ghost prev_b = b@;
            let el = b.remove(0);
            out.push(el);
            proof {
                if xa.len() == 0 {
                    assert(merge_items(s, xa, xb) == xb);
                    assert(xb =~= seq![first] + xb.drop_first());
                    assert(merge_items(s, xa, xb.drop_first()) == xb.drop_first());
                } else {
                    assert(merge_items(s, xa, xb) == seq![first] + merge_items(s, xa, xb.drop_first()));
                }
                assert(done.push(first) + merge_items(s, xa, xb.drop_first()) =~= done + merge_items(s, xa, xb));
                done = done.push(first);
                xb = xb.drop_first();
                assert forall|k: int| 0 <= k < b@.len() implies ok(#[trigger] b@[k], xb[k]) by {
                    assert(b@[k] == prev_b[k + 1]);
                }
            }
        }
    }
    proof {
        assert(done + merge_items(s, xa, xb) =~= done);
    }
    out
}

/// Finds the links outside `masks` and `defs`, numbering them from `first_id`.
fn scan_links(s: &[char], offs: &Vec<usize>, masks: &[ByteRange], defs: &[ByteRange], first_id: OccurrenceId) -> (r: Vec<CstElement>)
    requires
        offs_ok(s@, offs@),
        first_id + s@.len() <= u32::MAX,
    ensures
        r@.len() == link_items(s@, masks@, defs@, first_id as int).len(),
        r@.len() <= s@.len(),
        forall|k: int| 0 <= k < r@.len() ==> item_ok(s@, #[trigger] r@[k], link_items(s@, masks@, defs@, first_id as int)[k]),
{
    let mut out: Vec<CstElement> = Vec::new();
    let ghost mut done: Seq<(bool, int, int)> = Seq::empty();
    let mut idx: usize = 0;
    while idx < s.len()
        invariant
            idx <= s@.len(),
            offs_ok(s@, offs@),
            first_id + s@.len() <= u32::MAX,
            out@.len() == done.len(),
            done.len() <= idx,
            links_from(s@, masks@, defs@, 0) == done + links_from(s@, masks@, defs@, idx as int),
            forall|k: int| 0 <= k < out@.len() ==> item_ok(s@, #[trigger] out@[k], link_item(done[k], first_id + k)),
        decreases s@.len() - idx,
    {
        if any_contains(masks, offs[idx]) || any_contains(defs, offs[idx]) {
            idx += 1;
            continue;
        }
        proof {
            lemma_link_step(s@, idx as int);
        }
        let mut id: OccurrenceId = first_id + out.len() as u32;
        let ghost id0 = id;
        match try_scan_wikilink(s, offs, idx, &mut id) {
            Some((el, end)) => {
                out.push(el);
                proof {
                    assert(done.push((true, idx as int, end as int)) + links_from(s@, masks@, defs@, end as int)
                        =~= done + links_from(s@, masks@, defs@, idx as int));
                    done = done.push((true, idx as int, end as int));
                }
                idx = end;
                continue;
            },
            None => {},
        }
        match try_scan_markdown_link(s, offs, idx, &mut id) {
            Some((el, end)) => {
                out.push(el);
                proof {
                    assert(done.push((false, idx as int, end as int)) + links_from(s@, masks@, defs@, end as int)
                        =~= done + links_from(s@, masks@, defs@, idx as int));
                    done = done.push((false, idx as int, end as int));
                }
                idx = end;
            },
            None => {
                idx += 1;
            },
        }
    }
    proof {
        assert(done + links_from(s@, masks@, defs@, idx as int) =~= done);
    }
    out
}

/// The byte ranges of `els`, in order.
fn ranges_of(els: &Vec<CstElement>) -> (r: Vec<ByteRange>)
    ensures
        r@ == Seq::new(els@.len(), |k: int| els@[k].spec_range()),
{
    let mut r: Vec<ByteRange> = Vec::new();
    let mut k: usize = 0;
    while k < els.len()
        invariant
            k <= els@.len(),
            r@ == Seq::new(k as nat, |j: int| els@[j].spec_range()),
        decreases els@.len() - k,
    {
        r.push(els[k].range());
        assert(r@ =~= Seq::new((k + 1) as nat, |j: int| els@[j].spec_range()));
        k += 1;
    }
    r
}

/// What scanning a document yields: its elements ordered by start, the masked ranges and
/// the front matter.
#[derive(Clone, Debug)]
pub struct ScanOutput {
    pub elements: Vec<CstElement>,
    pub masks: Vec<ByteRange>,
    pub frontmatter: Option<TextNode>,
}

/// Scans a document for reference definitions, links and tags, numbering them from
/// `next_id` on, and ordering them by where they start.
pub fn scan_document(input: &str, next_id: &mut OccurrenceId) -> (r: ScanOutput)
    requires
        *old(next_id) + 3 * input@.len() <= u32::MAX,
    ensures
        r.masks@ == spans_as_ranges(input@, mask_spans(input@)),
        match frontmatter_end(input@) {
            Some(e) => r.frontmatter matches Some(t) && text_node_ok(input@, t, 0, e),
            None => r.frontmatter is None,
        },
        r.elements@.len() == doc_items(input@, *old(next_id) as int).len(),
        forall|k: int|
            0 <= k < r.elements@.len() ==> item_ok(
                input@,
                #[trigger] r.elements@[k],
                doc_items(input@, *old(next_id) as int)[k],
            ),
        *final(next_id) == *old(next_id) + doc_items(input@, *old(next_id) as int).len(),
        doc_items(input@, *old(next_id) as int).len() <= 3 * input@.len(),
{
    let n = str_byte_len(input);
    let chars = chars_of(input);
    let s = chars.as_slice();
    let offs = byte_offsets(s);
    let ghost gs = input@;
    let (masks, frontmatter) = build_masks(s, &offs);
    let id0 = *next_id;
    let defs = scan_link_definitions(s, &offs, masks.as_slice(), id0);
    let def_ranges = ranges_of(&defs);
    let ghost d = def_items(gs, id0 as int);
    proof {
        assert forall|k: int| 0 <= k < d.len() implies def_ranges@[k] == #[trigger] item_ranges(gs, d)[k] by {
            assert(item_ok(gs, defs@[k], d[k]));
            lemma_item_range(gs, defs@[k], d[k]);
        }
        assert(def_ranges@ =~= item_ranges(gs, d));
    }
    let nd = defs.len() as u32;
    let links = scan_links(s, &offs, masks.as_slice(), def_ranges.as_slice(), id0 + nd);
    let link_ranges = ranges_of(&links);
    let ghost l = link_items(gs, masks@, def_ranges@, id0 + nd);
    proof {
        assert forall|k: int| 0 <= k < l.len() implies link_ranges@[k] == #[trigger] item_ranges(gs, l)[k] by {
            assert(item_ok(gs, links@[k], l[k]));
            lemma_item_range(gs, links@[k], l[k]);
        }
        assert(link_ranges@ =~= item_ranges(gs, l));
    }
    let mut occupied: Vec<ByteRange> = Vec::new();
    let mut k: usize = 0;
    while k < def_ranges.len()
        invariant
            k <= def_ranges@.len(),
            occupied@ == def_ranges@.take(k as int),
        decreases def_ranges@.len() - k,
    {
        occupied.push(def_ranges[k]);
        assert(occupied@ =~= def_ranges@.take(k + 1));
        k += 1;
    }
    let mut k: usize = 0;
    while k < link_ranges.len()
        invariant
            k <= link_ranges@.len(),
            occupied@ == def_ranges@ + link_ranges@.take(k as int),
        decreases link_ranges@.len() - k,
    {
        occupied.push(link_ranges[k]);
        assert(occupied@ =~= def_ranges@ + link_ranges@.take(k + 1));
        k += 1;
    }
    proof {
        assert(link_ranges@.take(link_ranges@.len() as int) =~= link_ranges@);
        assert(def_ranges@.take(def_ranges@.len() as int) =~= def_ranges@);
    }
    let nl = links.len() as u32;
    let tags = scan_tags(s, &offs, masks.as_slice(), occupied.as_slice(), id0 + nd + nl);
    let nt = tags.len() as u32;
    let ghost ok = |el: CstElement, it: ScanItem| item_ok(gs, el, it);
    proof {
        assert forall|el: CstElement, it: ScanItem| #[trigger] ok(el, it) implies el.spec_range() == br(gs, it.a, it.b) by {
            lemma_item_range(gs, el, it);
        }
    }
    let first = merge_runs(defs, links, Ghost(gs), Ghost(ok), Ghost(d), Ghost(l));
    let ghost tg = tag_items(gs, masks@, occupied@, id0 + nd + nl);
    let elements = merge_runs(first, tags, Ghost(gs), Ghost(ok), Ghost(merge_items(gs, d, l)), Ghost(tg));
    *next_id = id0 + nd + nl + nt;
    proof {
        assert(elements@.len() == merge_items(gs, merge_items(gs, d, l), tg).len());
        lemma_merge_len(gs, d, l);
        lemma_merge_len(gs, merge_items(gs, d, l), tg);
    }
    ScanOutput { elements, masks, frontmatter }
}

pub proof fn lemma_merge_len(s: Seq<char>, x: Seq<ScanItem>, y: Seq<ScanItem>)
    ensures
        merge_items(s, x, y).len() == x.len() + y.len(),
    decreases x.len() + y.len(),
{
    if x.len() > 0 && y.len() > 0 {
        if br(s, x[0].a, x[0].b).start <= br(s, y[0].a, y[0].b).start {
            lemma_merge_len(s, x.drop_first(), y);
        } else {
            lemma_merge_len(s, x, y.drop_first());
        }
    }
}

/// The item starts outside the masked ranges.
pub open spec fn item_unmasked(s: Seq<char>, masks: Seq<ByteRange>, it: ScanItem) -> bool {
    !in_ranges(masks, bpos(s, it.a) as int)
}

proof fn lemma_def_lines_unmasked(s: Seq<char>, masks: Seq<ByteRange>, i: int)
    ensures
        forall|k: int|
            0 <= k < def_lines_from(s, masks, i).len() ==> crate::parser::blocks::def_unmasked(
                s,
                masks,
                #[trigger] def_lines_from(s, masks, i)[k],
            ),
    decreases s.len() - i,
{
    if 0 <= i < s.len() {
        crate::parser::blocks::lemma_content_end(s, i);
        let nl = crate::parser::blocks::next_line(s, i);
        lemma_def_lines_unmasked(s, masks, nl);
        let d = def_lines_from(s, masks, i);
        if crate::parser::blocks::def_unmasked(s, masks, i) {
            assert(d == seq![i] + def_lines_from(s, masks, nl));
            assert forall|k: int| 0 <= k < d.len() implies crate::parser::blocks::def_unmasked(s, masks, #[trigger] d[k]) by {
                if k > 0 {
                    assert(d[k] == def_lines_from(s, masks, nl)[k - 1]);
                }
            }
        } else {
            assert(d == def_lines_from(s, masks, nl));
            assert forall|k: int| 0 <= k < d.len() implies crate::parser::blocks::def_unmasked(s, masks, #[trigger] d[k]) by {
                assert(d[k] == def_lines_from(s, masks, nl)[k]);
            }
        }
    }
}

proof fn lemma_links_unmasked(s: Seq<char>, masks: Seq<ByteRange>, defs: Seq<ByteRange>, i: int)
    ensures
        forall|k: int|
            0 <= k < links_from(s, masks, defs, i).len() ==> !in_ranges(
                masks,
                bpos(s, (#[trigger] links_from(s, masks, defs, i)[k]).1) as int,
            ),
    decreases s.len() - i,
{
    if 0 <= i < s.len() {
        let l = links_from(s, masks, defs, i);
        if in_ranges(masks, bpos(s, i) as int) || in_ranges(defs, bpos(s, i) as int) {
            lemma_links_unmasked(s, masks, defs, i + 1);
            assert(l == links_from(s, masks, defs, i + 1));
            assert forall|k: int| 0 <= k < l.len() implies !in_ranges(masks, bpos(s, (#[trigger] l[k]).1) as int) by {
                assert(l[k] == links_from(s, masks, defs, i + 1)[k]);
            }
        } else {
            lemma_link_step(s, i);
            match link_step(s, i) {
                Some((w, e)) => {
                    lemma_links_unmasked(s, masks, defs, e);
                    assert(l == seq![(w, i, e)] + links_from(s, masks, defs, e));
                    assert forall|k: int| 0 <= k < l.len() implies !in_ranges(masks, bpos(s, (#[trigger] l[k]).1) as int) by {
                        if k > 0 {
                            assert(l[k] == links_from(s, masks, defs, e)[k - 1]);
                        }
                    }
                },
                None => {
                    lemma_links_unmasked(s, masks, defs, i + 1);
                    assert(l == links_from(s, masks, defs, i + 1));
                    assert forall|k: int| 0 <= k < l.len() implies !in_ranges(masks, bpos(s, (#[trigger] l[k]).1) as int) by {
                        assert(l[k] == links_from(s, masks, defs, i + 1)[k]);
                    }
                },
            }
        }
    }
}

proof fn lemma_tags_unmasked(s: Seq<char>, masks: Seq<ByteRange>, links: Seq<ByteRange>, i: int)
    ensures
        forall|k: int|
            0 <= k < tags_from(s, masks, links, i).len() ==> !in_ranges(
                masks,
                bpos(s, (#[trigger] tags_from(s, masks, links, i)[k]).0) as int,
            ),
    decreases s.len() - i,
{
    if 0 <= i < s.len() {
        crate::parser::tags::lemma_tag_end(s, i + 1);
        let e = crate::parser::tags::tag_end(s, i + 1);
        if crate::parser::tags::tag_starts(s, masks, links, i) {
            lemma_tags_unmasked(s, masks, links, e);
            let t = tags_from(s, masks, links, i);
            assert(t == seq![(i, e)] + tags_from(s, masks, links, e));
            assert forall|k: int| 0 <= k < t.len() implies !in_ranges(masks, bpos(s, (#[trigger] t[k]).0) as int) by {
                if k > 0 {
                    assert(t[k] == tags_from(s, masks, links, e)[k - 1]);
                }
            }
        } else {
            lemma_tags_unmasked(s, masks, links, i + 1);
            let t = tags_from(s, masks, links, i);
            assert(t == tags_from(s, masks, links, i + 1));
            assert forall|k: int| 0 <= k < t.len() implies !in_ranges(masks, bpos(s, (#[trigger] t[k]).0) as int) by {
                assert(t[k] == tags_from(s, masks, links, i + 1)[k]);
            }
        }
    }
}

proof fn lemma_merge_unmasked(s: Seq<char>, masks: Seq<ByteRange>, x: Seq<ScanItem>, y: Seq<ScanItem>)
    requires
        forall|k: int| 0 <= k < x.len() ==> item_unmasked(s, masks, #[trigger] x[k]),
        forall|k: int| 0 <= k < y.len() ==> item_unmasked(s, masks, #[trigger] y[k]),
    ensures
        forall|k: int| 0 <= k < merge_items(s, x, y).len() ==> item_unmasked(s, masks, #[trigger] merge_items(s, x, y)[k]),
    decreases x.len() + y.len(),
{
    if x.len() > 0 && y.len() > 0 {
        let m = merge_items(s, x, y);
        if br(s, x[0].a, x[0].b).start <= br(s, y[0].a, y[0].b).start {
            lemma_merge_unmasked(s, masks, x.drop_first(), y);
            assert forall|k: int| 0 <= k < m.len() implies item_unmasked(s, masks, #[trigger] m[k]) by {
                if k > 0 {
                    assert(m[k] == merge_items(s, x.drop_first(), y)[k - 1]);
                }
            }
        } else {
            lemma_merge_unmasked(s, masks, x, y.drop_first());
            assert forall|k: int| 0 <= k < m.len() implies item_unmasked(s, masks, #[trigger] m[k]) by {
                if k > 0 {
                    assert(m[k] == merge_items(s, x, y.drop_first())[k - 1]);
                }
            }
        }
    }
}

/// Nothing the scanner reports starts inside the front matter or a fenced code block: no
/// reference definition, link or tag of `doc_items` starts in a masked range.
pub proof fn lemma_items_unmasked(s: Seq<char>, id0: int)
    ensures
        forall|k: int|
            0 <= k < doc_items(s, id0).len() ==> item_unmasked(
                s,
                spans_as_ranges(s, mask_spans(s)),
                #[trigger] doc_items(s, id0)[k],
            ),
{
    let masks = spans_as_ranges(s, mask_spans(s));
    let d = def_items(s, id0);
    let l = link_items(s, masks, item_ranges(s, d), id0 + d.len());
    let t = tag_items(s, masks, item_ranges(s, d) + item_ranges(s, l), id0 + d.len() + l.len());
    lemma_def_lines_unmasked(s, masks, 0);
    lemma_links_unmasked(s, masks, item_ranges(s, d), 0);
    lemma_tags_unmasked(s, masks, item_ranges(s, d) + item_ranges(s, l), 0);
    assert forall|k: int| 0 <= k < d.len() implies item_unmasked(s, masks, #[trigger] d[k]) by {
        let dl = def_lines_from(s, masks, 0);
        assert(crate::parser::blocks::def_unmasked(s, masks, dl[k]));
    }
    assert forall|k: int| 0 <= k < l.len() implies item_unmasked(s, masks, #[trigger] l[k]) by {
        let lf = links_from(s, masks, item_ranges(s, d), 0);
        assert(l[k].a == lf[k].1);
    }
    assert forall|k: int| 0 <= k < t.len() implies item_unmasked(s, masks, #[trigger] t[k]) by {
        let tf = tags_from(s, masks, item_ranges(s, d) + item_ranges(s, l), 0);
        assert(t[k].a == tf[k].0);
    }
    lemma_merge_unmasked(s, masks, d, l);
    lemma_merge_unmasked(s, masks, merge_items(s, d, l), t);
}

proof fn lemma_merge_from(s: Seq<char>, x: Seq<ScanItem>, y: Seq<ScanItem>)
    ensures
        forall|k: int|
            0 <= k < merge_items(s, x, y).len() ==> x.contains(#[trigger] merge_items(s, x, y)[k]) || y.contains(
                merge_items(s, x, y)[k],
            ),
    decreases x.len() + y.len(),
{
    lemma_merge_len(s, x, y);
    if x.len() > 0 && y.len() > 0 {
        let m = merge_items(s, x, y);
        if br(s, x[0].a, x[0].b).start <= br(s, y[0].a, y[0].b).start {
            let r = merge_items(s, x.drop_first(), y);
            lemma_merge_from(s, x.drop_first(), y);
            assert forall|k: int| 0 <= k < m.len() implies x.contains(#[trigger] m[k]) || y.contains(m[k]) by {
                if k == 0 {
                    assert(m[0] == x[0]);
                } else {
                    assert(m[k] == r[k - 1]);
                    if x.drop_first().contains(r[k - 1]) {
                        let j = choose|j: int| 0 <= j < x.drop_first().len() && x.drop_first()[j] == r[k - 1];
                        assert(x[j + 1] == m[k]);
                    }
                }
            }
        } else {
            let r = merge_items(s, x, y.drop_first());
            lemma_merge_from(s, x, y.drop_first());
            assert forall|k: int| 0 <= k < m.len() implies x.contains(#[trigger] m[k]) || y.contains(m[k]) by {
                if k == 0 {
                    assert(m[0] == y[0]);
                } else {
                    assert(m[k] == r[k - 1]);
                    if y.drop_first().contains(r[k - 1]) {
                        let j = choose|j: int| 0 <= j < y.drop_first().len() && y.drop_first()[j] == r[k - 1];
                        assert(y[j + 1] == m[k]);
                    }
                }
            }
        }
    } else if x.len() == 0 {
        assert forall|k: int| 0 <= k < merge_items(s, x, y).len() implies x.contains(#[trigger] merge_items(s, x, y)[k])
            || y.contains(merge_items(s, x, y)[k]) by {
            assert(merge_items(s, x, y)[k] == y[k]);
        }
    } else {
        assert forall|k: int| 0 <= k < merge_items(s, x, y).len() implies x.contains(#[trigger] merge_items(s, x, y)[k])
            || y.contains(merge_items(s, x, y)[k]) by {
            assert(merge_items(s, x, y)[k] == x[k]);
        }
    }
}

/// A character that may continue a tag: an ASCII letter or digit, `_`, `-` or `/`.
pub open spec fn continues_tag(c: char) -> bool {
    ||| ('a' <= c && c <= 'z')
    ||| ('A' <= c && c <= 'Z')
    ||| ('0' <= c && c <= '9')
    ||| c == '_'
    ||| c == '-'
    ||| c == '/'
}

proof fn lemma_tag_end_run(s: Seq<char>, j: int)
    requires
        0 <= j <= s.len(),
    ensures
        j <= crate::parser::tags::tag_end(s, j) <= s.len(),
        forall|q: int| j <= q < crate::parser::tags::tag_end(s, j) ==> continues_tag(#[trigger] s[q]),
        crate::parser::tags::tag_end(s, j) == s.len() || !continues_tag(s[crate::parser::tags::tag_end(s, j)]),
    decreases s.len() - j,
{
    if j < s.len() && (crate::parser::tags::spec_is_tag_char(s[j]) || s[j] == '/') {
        lemma_tag_end_run(s, j + 1);
    }
}

proof fn lemma_tags_shape(s: Seq<char>, masks: Seq<ByteRange>, links: Seq<ByteRange>, i: int)
    ensures
        forall|k: int|
            0 <= k < tags_from(s, masks, links, i).len() ==> {
                let t = #[trigger] tags_from(s, masks, links, i)[k];
                &&& 0 <= t.0 < s.len()
                &&& s[t.0] == '#'
                &&& t.1 == crate::parser::tags::tag_end(s, t.0 + 1)
                &&& t.1 > t.0 + 1
            },
    decreases s.len() - i,
{
    if 0 <= i < s.len() {
        crate::parser::tags::lemma_tag_end(s, i + 1);
        let e = crate::parser::tags::tag_end(s, i + 1);
        let t = tags_from(s, masks, links, i);
        if crate::parser::tags::tag_starts(s, masks, links, i) {
            lemma_tags_shape(s, masks, links, e);
            assert(t == seq![(i, e)] + tags_from(s, masks, links, e));
            assert forall|k: int| 0 <= k < t.len() implies {
                let tk = #[trigger] t[k];
                &&& 0 <= tk.0 < s.len()
                &&& s[tk.0] == '#'
                &&& tk.1 == crate::parser::tags::tag_end(s, tk.0 + 1)
                &&& tk.1 > tk.0 + 1
            } by {
                if k > 0 {
                    assert(t[k] == tags_from(s, masks, links, e)[k - 1]);
                }
            }
        } else {
            lemma_tags_shape(s, masks, links, i + 1);
            assert(t == tags_from(s, masks, links, i + 1));
            assert forall|k: int| 0 <= k < t.len() implies {
                let tk = #[trigger] t[k];
                &&& 0 <= tk.0 < s.len()
                &&& s[tk.0] == '#'
                &&& tk.1 == crate::parser::tags::tag_end(s, tk.0 + 1)
                &&& tk.1 > tk.0 + 1
            } by {
                assert(t[k] == tags_from(s, masks, links, i + 1)[k]);
            }
        }
    }
}

/// Every tag the scanner reports is a `#` followed by the longest run of ASCII letters,
/// digits, `_`, `-` and `/` after it: the run is not empty, and the character after the
/// tag (if any) cannot continue it. So `#my_tag` is one tag, `#my_tag`, never `#my`.
pub proof fn lemma_tags_whole(s: Seq<char>, id0: int)
    ensures
        forall|k: int|
            0 <= k < doc_items(s, id0).len() && (#[trigger] doc_items(s, id0)[k]).kind == ScanKind::Tag ==> {
                let it = doc_items(s, id0)[k];
                &&& 0 <= it.a && it.a + 1 < it.b <= s.len()
                &&& s[it.a] == '#'
                &&& forall|q: int| it.a < q < it.b ==> continues_tag(#[trigger] s[q])
                &&& (it.b == s.len() || !continues_tag(s[it.b]))
            },
{
    let masks = spans_as_ranges(s, mask_spans(s));
    let d = def_items(s, id0);
    let l = link_items(s, masks, item_ranges(s, d), id0 + d.len());
    let occ = item_ranges(s, d) + item_ranges(s, l);
    let t = tag_items(s, masks, occ, id0 + d.len() + l.len());
    let tf = tags_from(s, masks, occ, 0);
    lemma_tags_shape(s, masks, occ, 0);
    lemma_merge_from(s, d, l);
    lemma_merge_from(s, merge_items(s, d, l), t);
    let m = doc_items(s, id0);
    assert forall|k: int| 0 <= k < m.len() && (#[trigger] m[k]).kind == ScanKind::Tag implies {
        let it = m[k];
        &&& 0 <= it.a && it.a + 1 < it.b <= s.len()
        &&& s[it.a] == '#'
        &&& forall|q: int| it.a < q < it.b ==> continues_tag(#[trigger] s[q])
        &&& (it.b == s.len() || !continues_tag(s[it.b]))
    } by {
        let it = m[k];
        if merge_items(s, d, l).contains(it) {
            let j = choose|j: int| 0 <= j < merge_items(s, d, l).len() && merge_items(s, d, l)[j] == it;
            assert(d.contains(it) || l.contains(it));
            if d.contains(it) {
                let q = choose|q: int| 0 <= q < d.len() && d[q] == it;
                assert(d[q].kind == ScanKind::Def);
            } else {
                let q = choose|q: int| 0 <= q < l.len() && l[q] == it;
                assert(l[q].kind != ScanKind::Tag);
            }
        }
        assert(t.contains(it));
        let j = choose|j: int| 0 <= j < t.len() && t[j] == it;
        assert(it.a == tf[j].0 && it.b == tf[j].1);
        lemma_tag_end_run(s, it.a + 1);
    }
}

} // verus!
