//! Operations on `/`-separated paths held as strings. Repeated separators and `.`
//! components carry no meaning; a leading `/` makes a path absolute.
use crate::utils::strs::{chars_of, find_char, is_suffix, ends_with, string_of};
use crate::parser::scanner::{find_unescaped, first_unescaped, lemma_first_unescaped, unescaped_hit};
use vstd::prelude::*;

verus! {

/// Characters allowed in a URI scheme.
pub open spec fn spec_is_scheme_char(c: char) -> bool {
    ('a' <= c && c <= 'z') || ('A' <= c && c <= 'Z') || ('0' <= c && c <= '9') || c == '+' || c
        == '-' || c == '.'
}

pub fn is_scheme_char(ch: char) -> (b: bool)
    ensures
        b == spec_is_scheme_char(ch),
{
    ('a' <= ch && ch <= 'z') || ('A' <= ch && ch <= 'Z') || ('0' <= ch && ch <= '9') || ch == '+'
        || ch == '-' || ch == '.'
}

/// Index of the first `c` in `s`, or the length of `s` when there is none.
pub open spec fn index_or_len(s: Seq<char>, c: char) -> int {
    if s.contains(c) {
        choose|i: int| 0 <= i < s.len() && s[i] == c && forall|j: int| 0 <= j < i ==> s[j] != c
    } else {
        s.len() as int
    }
}

/// The target has a URI scheme: a non-empty run of scheme characters before the first
/// `:`, with something after that `:`.
pub open spec fn spec_has_scheme(s: Seq<char>) -> bool {
    let p = index_or_len(s, ':');
    p > 0 && (forall|i: int| 0 <= i < p ==> spec_is_scheme_char(s[i])) && s.len() > p + 1
}

proof fn lemma_index_or_len(s: Seq<char>, c: char, i: int)
    requires
        0 <= i <= s.len(),
        i < s.len() ==> s[i] == c,
        forall|j: int| 0 <= j < i ==> s[j] != c,
    ensures
        index_or_len(s, c) == i,
{
    if i < s.len() {
        assert(s.contains(c));
        let k = index_or_len(s, c);
        assert(0 <= k < s.len() && s[k] == c && forall|j: int| 0 <= j < k ==> s[j] != c);
        if k < i {
            assert(s[k] != c);
        } else if k > i {
            assert(s[i] != c);
        }
    } else {
        if s.contains(c) {
            let k = choose|k: int| 0 <= k < s.len() && s[k] == c;
            assert(s[k] != c);
        }
    }
}

pub proof fn lemma_index_or_len_pub(s: Seq<char>, c: char, i: int)
    requires
        0 <= i <= s.len(),
        i < s.len() ==> s[i] == c,
        forall|j: int| 0 <= j < i ==> s[j] != c,
    ensures
        index_or_len(s, c) == i,
{
    lemma_index_or_len(s, c, i);
}

/// The position of the first `c` in `s`, or its length.
pub fn find_or_len(s: &[char], c: char) -> (r: usize)
    ensures
        r == index_or_len(s@, c),
        r <= s@.len(),
{
    let r = match find_char(s, c) {
        Some(i) => i,
        None => s.len(),
    };
    proof {
        lemma_index_or_len(s@, c, r as int);
    }
    r
}

pub fn has_scheme(input: &str) -> (b: bool)
    ensures
        b == spec_has_scheme(input@),
{
    let s = chars_of(input);
    let p = find_or_len(&s, ':');
    if p == 0 {
        return false;
    }
    let mut i: usize = 0;
    while i < p
        invariant
            s@ == input@,
            p == index_or_len(s@, ':'),
            p <= s@.len(),
            i <= p,
            forall|j: int| 0 <= j < i ==> spec_is_scheme_char(s@[j]),
        decreases p - i,
    {
        if !is_scheme_char(s[i]) {
            return false;
        }
        i += 1;
    }
    s.len() - p > 1
}

/// Splits at the first unescaped `#` into the part before it and the anchor after it.
pub open spec fn spec_split_anchor(s: Seq<char>) -> (Seq<char>, Option<Seq<char>>) {
    match first_unescaped(s, 0, s.len() as int, '#') {
        Some(i) => (s.take(i), Some(s.skip(i + 1))),
        None => (s, None),
    }
}

pub fn split_anchor_chars(s: &[char]) -> (r: (Vec<char>, Option<Vec<char>>))
    ensures
        r.0@ == spec_split_anchor(s@).0,
        match r.1 {
            Some(a) => spec_split_anchor(s@).1 == Some(a@),
            None => spec_split_anchor(s@).1 is None,
        },
{
    match find_unescaped(s, 0, '#') {
        Some(i) => (slice_vec(s, 0, i), Some(slice_vec(s, i + 1, s.len()))),
        None => (slice_vec(s, 0, s.len()), None),
    }
}

pub fn split_anchor(input: &str) -> (r: (String, Option<String>))
    ensures
        r.0@ == spec_split_anchor(input@).0,
        match r.1 {
            Some(a) => spec_split_anchor(input@).1 == Some(a@),
            None => spec_split_anchor(input@).1 is None,
        },
{
    let (p, a) = split_anchor_chars(&chars_of(input));
    let a = match a {
        Some(a) => Some(string_of(&a)),
        None => None,
    };
    (string_of(&p), a)
}

/// `v[from..to]` as a vector.
pub fn slice_vec(v: &[char], from: usize, to: usize) -> (r: Vec<char>)
    requires
        from <= to <= v.len(),
    ensures
        r@ == v@.subrange(from as int, to as int),
{
    let mut r: Vec<char> = Vec::new();
    let mut i: usize = from;
    while i < to
        invariant
            from <= i <= to <= v.len(),
            r@ == v@.subrange(from as int, i as int),
        decreases to - i,
    {
        r.push(v[i]);
        assert(v@.subrange(from as int, i as int).push(v@[i as int]) =~= v@.subrange(
            from as int,
            i + 1,
        ));
        i += 1;
    }
    r
}

/// A component that carries meaning: neither empty nor `.`.
pub open spec fn seg_keep(seg: Seq<char>) -> bool {
    seg.len() > 0 && seg != seq!['.']
}

/// Components completed so far and the component being read.
pub open spec fn split_fold(p: Seq<char>) -> (Seq<Seq<char>>, Seq<char>)
    decreases p.len(),
{
    if p.len() == 0 {
        (Seq::empty(), Seq::empty())
    } else {
        let prev = split_fold(p.drop_last());
        if p.last() == '/' {
            (
                if seg_keep(prev.1) {
                    prev.0.push(prev.1)
                } else {
                    prev.0
                },
                Seq::empty(),
            )
        } else {
            (prev.0, prev.1.push(p.last()))
        }
    }
}

/// The meaningful components of a path, in order.
pub open spec fn segments(p: Seq<char>) -> Seq<Seq<char>> {
    let f = split_fold(p);
    if seg_keep(f.1) {
        f.0.push(f.1)
    } else {
        f.0
    }
}

pub open spec fn is_abs(p: Seq<char>) -> bool {
    p.len() > 0 && p[0] == '/'
}

/// Two paths name the same location: both absolute or both relative, with the same
/// components.
pub open spec fn path_eq(a: Seq<char>, b: Seq<char>) -> bool {
    is_abs(a) == is_abs(b) && segments(a) == segments(b)
}

/// Components joined by `/`, behind a `/` when absolute.
pub open spec fn join_segs(abs: bool, segs: Seq<Seq<char>>) -> Seq<char>
    decreases segs.len(),
{
    if segs.len() == 0 {
        if abs {
            seq!['/']
        } else {
            Seq::empty()
        }
    } else if segs.len() == 1 {
        (if abs {
            seq!['/']
        } else {
            Seq::<char>::empty()
        }) + segs[0]
    } else {
        join_segs(abs, segs.drop_last()).push('/') + segs.last()
    }
}

/// The components of a path, and whether it is absolute.
pub fn path_segments(p: &[char]) -> (r: (bool, Vec<Vec<char>>))
    ensures
        r.0 == is_abs(p@),
        r.1@.map_values(|v: Vec<char>| v@) == segments(p@),
{
    let mut done: Vec<Vec<char>> = Vec::new();
    let mut cur: Vec<char> = Vec::new();
    let mut i: usize = 0;
    assert(p@.take(0) =~= Seq::<char>::empty());
    assert(done@.map_values(|v: Vec<char>| v@) =~= Seq::<Seq<char>>::empty());
    while i < p.len()
        invariant
            i <= p@.len(),
            (done@.map_values(|v: Vec<char>| v@), cur@) == split_fold(p@.take(i as int)),
        decreases p@.len() - i,
    {
        let c = p[i];
        assert(p@.take(i + 1).drop_last() =~= p@.take(i as int));
        if c == '/' {
            if keep_seg(&cur) {
                let ghost before = done@;
                done.push(cur);
                assert(done@.map_values(|v: Vec<char>| v@) =~= before.map_values(
                    |v: Vec<char>| v@,
                ).push(split_fold(p@.take(i as int)).1));
            }
            cur = Vec::new();
            assert(cur@ =~= Seq::<char>::empty());
        } else {
            cur.push(c);
        }
        i += 1;
    }
    assert(p@.take(p@.len() as int) =~= p@);
    if keep_seg(&cur) {
        let ghost before = done@;
        let ghost cv = cur@;
        done.push(cur);
        assert(done@.map_values(|v: Vec<char>| v@) =~= before.map_values(|v: Vec<char>| v@).push(
            cv,
        ));
    }
    let abs = p.len() > 0 && p[0] == '/';
    (abs, done)
}

fn keep_seg(seg: &Vec<char>) -> (b: bool)
    ensures
        b == seg_keep(seg@),
{
    if seg.len() == 0 {
        false
    } else if seg.len() == 1 && seg[0] == '.' {
        assert(seg@ =~= seq!['.']);
        false
    } else {
        if seg.len() == 1 {
            assert(seg@ != seq!['.']) by {
                assert(seq!['.'][0] == '.');
            }
        } else {
            assert(seg@.len() != seq!['.'].len());
        }
        true
    }
}

fn segs_eq(a: &Vec<Vec<char>>, b: &Vec<Vec<char>>) -> (r: bool)
    ensures
        r == (a@.map_values(|v: Vec<char>| v@) == b@.map_values(|v: Vec<char>| v@)),
{
    let ghost av = a@.map_values(|v: Vec<char>| v@);
    let ghost bv = b@.map_values(|v: Vec<char>| v@);
    if a.len() != b.len() {
        assert(av.len() != bv.len());
        return false;
    }
    let mut i: usize = 0;
    while i < a.len()
        invariant
            i <= a.len() == b.len(),
            av == a@.map_values(|v: Vec<char>| v@),
            bv == b@.map_values(|v: Vec<char>| v@),
            forall|j: int| 0 <= j < i ==> av[j] == bv[j],
        decreases a.len() - i,
    {
        if !crate::utils::strs::chars_eq(&a[i], &b[i]) {
            assert(av[i as int] != bv[i as int]);
            return false;
        }
        i += 1;
    }
    assert(av =~= bv);
    true
}

/// Whether two paths name the same location.
pub fn same_path(a: &str, b: &str) -> (r: bool)
    ensures
        r == path_eq(a@, b@),
{
    let (aa, sa) = path_segments(&chars_of(a));
    let (ab, sb) = path_segments(&chars_of(b));
    aa == ab && segs_eq(&sa, &sb)
}

/// The path from its components.
pub fn join_segments(abs: bool, segs: &[Vec<char>]) -> (r: Vec<char>)
    ensures
        r@ == join_segs(abs, segs@.map_values(|v: Vec<char>| v@)),
{
    let ghost sv = segs@.map_values(|v: Vec<char>| v@);
    let mut r: Vec<char> = Vec::new();
    if abs {
        r.push('/');
    }
    let ghost lead = r@;
    let mut i: usize = 0;
    while i < segs.len()
        invariant
            i <= segs.len(),
            sv == segs@.map_values(|v: Vec<char>| v@),
            lead == (if abs { seq!['/'] } else { Seq::<char>::empty() }),
            i == 0 ==> r@ == lead,
            i > 0 ==> r@ == join_segs(abs, sv.take(i as int)),
        decreases segs.len() - i,
    {
        let ghost before = r@;
        if i > 0 {
            r.push('/');
        }
        let seg = &segs[i];
        let mut k: usize = 0;
        let ghost mid = r@;
        while k < seg.len()
            invariant
                k <= seg@.len(),
                r@ == mid + seg@.take(k as int),
            decreases seg@.len() - k,
        {
            r.push(seg[k]);
            assert(seg@.take(k as int).push(seg@[k as int]) =~= seg@.take(k + 1));
            assert((mid + seg@.take(k as int)).push(seg@[k as int]) =~= mid + seg@.take(k + 1));
            k += 1;
        }
        assert(seg@.take(seg@.len() as int) =~= seg@);
        proof {
            let t = sv.take(i + 1);
            assert(t.drop_last() =~= sv.take(i as int));
            assert(t.last() == seg@);
            if i == 0 {
                assert(t.len() == 1);
                assert(t[0] == seg@);
            }
        }
        i += 1;
    }
    assert(sv.take(segs.len() as int) =~= sv);
    proof {
        if segs.len() == 0 {
            assert(sv.len() == 0);
        }
    }
    r
}

/// `base` joined with `rel`: `rel` itself when absolute, otherwise `rel` after `base`
/// with one `/` between them.
pub open spec fn spec_join(base: Seq<char>, rel: Seq<char>) -> Seq<char> {
    if is_abs(rel) {
        rel
    } else if base.len() == 0 {
        rel
    } else if base.last() == '/' {
        base + rel
    } else {
        base.push('/') + rel
    }
}

pub fn join_chars(base: &[char], rel: &[char]) -> (r: Vec<char>)
    ensures
        r@ == spec_join(base@, rel@),
{
    if (rel.len() > 0 && rel[0] == '/') || base.len() == 0 {
        return slice_vec(rel, 0, rel.len());
    }
    let mut r = slice_vec(base, 0, base.len());
    if base[base.len() - 1] != '/' {
        r.push('/');
    }
    let ghost mid = r@;
    let mut k: usize = 0;
    while k < rel.len()
        invariant
            k <= rel@.len(),
            r@ == mid + rel@.take(k as int),
        decreases rel@.len() - k,
    {
        r.push(rel[k]);
        assert(rel@.take(k as int).push(rel@[k as int]) =~= rel@.take(k + 1));
        assert((mid + rel@.take(k as int)).push(rel@[k as int]) =~= mid + rel@.take(k + 1));
        k += 1;
    }
    assert(rel@.take(rel@.len() as int) =~= rel@);
    r
}

pub fn join_path(base: &str, rel: &str) -> (r: String)
    ensures
        r@ == spec_join(base@, rel@),
{
    string_of(&join_chars(&chars_of(base), &chars_of(rel)))
}

/// `s` without its leading `/` characters.
pub open spec fn trim_leading_slashes(s: Seq<char>) -> Seq<char>
    decreases s.len(),
{
    if s.len() > 0 && s[0] == '/' {
        trim_leading_slashes(s.drop_first())
    } else {
        s
    }
}

pub fn trim_leading_slashes_chars(s: &[char]) -> (r: Vec<char>)
    ensures
        r@ == trim_leading_slashes(s@),
{
    let mut i: usize = 0;
    assert(s@.skip(0) =~= s@);
    while i < s.len() && s[i] == '/'
        invariant
            i <= s@.len(),
            trim_leading_slashes(s@) == trim_leading_slashes(s@.skip(i as int)),
        decreases s@.len() - i,
    {
        assert(s@.skip(i as int).drop_first() =~= s@.skip(i + 1));
        i += 1;
    }
    assert(s@.skip(i as int) =~= s@.subrange(i as int, s@.len() as int));
    slice_vec(s, i, s.len())
}

/// The path a link target names: from the root when it starts with `/`, otherwise from
/// the directory of the linking document.
pub open spec fn spec_resolve_explicit(root: Seq<char>, source_dir: Seq<char>, target: Seq<
    char,
>) -> Seq<char> {
    if target.len() > 0 && target[0] == '/' {
        spec_join(root, trim_leading_slashes(target))
    } else {
        spec_join(source_dir, target)
    }
}

pub fn resolve_explicit_path(root: &str, source_dir: &str, target: &str) -> (r: String)
    ensures
        r@ == spec_resolve_explicit(root@, source_dir@, target@),
{
    let t = chars_of(target);
    if t.len() > 0 && t[0] == '/' {
        let trimmed = trim_leading_slashes_chars(&t);
        proof {
            lemma_trim_not_abs(t@);
        }
        string_of(&join_chars(&chars_of(root), &trimmed))
    } else {
        string_of(&join_chars(&chars_of(source_dir), &t))
    }
}

proof fn lemma_trim_not_abs(s: Seq<char>)
    ensures
        !is_abs(trim_leading_slashes(s)),
    decreases s.len(),
{
    if s.len() > 0 && s[0] == '/' {
        lemma_trim_not_abs(s.drop_first());
    }
}

/// The last component of a path, unless there is none or it is `..`.
pub open spec fn spec_file_name(p: Seq<char>) -> Option<Seq<char>> {
    let s = segments(p);
    if s.len() == 0 || s.last() == seq!['.', '.'] {
        None
    } else {
        Some(s.last())
    }
}

/// Index of the last `.` in a file name, when it is not its first character.
pub open spec fn ext_dot(name: Seq<char>) -> Option<int> {
    if exists|i: int| 0 < i < name.len() && name[i] == '.' {
        Some(
            choose|i: int|
                0 < i < name.len() && name[i] == '.' && forall|j: int|
                    i < j < name.len() ==> name[j] != '.',
        )
    } else {
        None
    }
}

/// The extension of a path: what follows the last `.` of its file name.
pub open spec fn spec_extension(p: Seq<char>) -> Option<Seq<char>> {
    match spec_file_name(p) {
        Some(name) => match ext_dot(name) {
            Some(i) => Some(name.skip(i + 1)),
            None => None,
        },
        None => None,
    }
}

/// The file name of a path without its extension.
pub open spec fn spec_file_stem(p: Seq<char>) -> Option<Seq<char>> {
    match spec_file_name(p) {
        Some(name) => match ext_dot(name) {
            Some(i) => Some(name.take(i)),
            None => Some(name),
        },
        None => None,
    }
}

/// The path without its last component.
pub open spec fn spec_parent(p: Seq<char>) -> Option<Seq<char>> {
    let s = segments(p);
    if s.len() == 0 {
        None
    } else {
        Some(join_segs(is_abs(p), s.drop_last()))
    }
}

/// The rest of `p` after the components of `base`, when `p` lies within `base`.
pub open spec fn spec_strip_prefix(p: Seq<char>, base: Seq<char>) -> Option<Seq<char>> {
    let sp = segments(p);
    let sb = segments(base);
    if is_abs(p) == is_abs(base) && sb.len() <= sp.len() && sp.take(sb.len() as int) == sb {
        Some(join_segs(false, sp.skip(sb.len() as int)))
    } else {
        None
    }
}

fn last_dot(name: &[char]) -> (r: Option<usize>)
    ensures
        match r {
            Some(i) => ext_dot(name@) == Some(i as int) && 0 < i < name@.len(),
            None => ext_dot(name@) is None,
        },
{
    let mut i: usize = name.len();
    while i > 1
        invariant
            i <= name@.len(),
            forall|j: int| i <= j < name@.len() ==> name@[j] != '.',
        decreases i,
    {
        if name[i - 1] == '.' {
            proof {
                let k = (i - 1) as int;
                assert(0 < k < name@.len() && name@[k] == '.');
                let c = choose|c: int|
                    0 < c < name@.len() && name@[c] == '.' && forall|j: int|
                        c < j < name@.len() ==> name@[j] != '.';
                if c < k {
                    assert(name@[k] != '.');
                } else if c > k {
                    assert(name@[c] != '.');
                }
            }
            return Some(i - 1);
        }
        i -= 1;
    }
    proof {
        if exists|k: int| 0 < k < name@.len() && name@[k] == '.' {
            let k = choose|k: int| 0 < k < name@.len() && name@[k] == '.';
            assert(name@[k] != '.');
        }
    }
    None
}

pub fn file_name_chars(p: &[char]) -> (r: Option<Vec<char>>)
    ensures
        match r {
            Some(n) => spec_file_name(p@) == Some(n@),
            None => spec_file_name(p@) is None,
        },
{
    let (_abs, segs) = path_segments(p);
    let ghost sv = segs@.map_values(|v: Vec<char>| v@);
    if segs.len() == 0 {
        return None;
    }
    let last = &segs[segs.len() - 1];
    assert(sv.last() == last@);
    if last.len() == 2 && last[0] == '.' && last[1] == '.' {
        assert(last@ =~= seq!['.', '.']);
        return None;
    }
    assert(last@ != seq!['.', '.']) by {
        if last@.len() == 2 {
            assert(seq!['.', '.'][0] == '.' && seq!['.', '.'][1] == '.');
        }
    }
    Some(slice_vec(last, 0, last.len()))
}

pub fn file_stem_chars(p: &[char]) -> (r: Option<Vec<char>>)
    ensures
        match r {
            Some(n) => spec_file_stem(p@) == Some(n@),
            None => spec_file_stem(p@) is None,
        },
{
    let name = file_name_chars(p)?;
    match last_dot(&name) {
        Some(i) => Some(slice_vec(&name, 0, i)),
        None => Some(name),
    }
}

pub fn extension_chars(p: &[char]) -> (r: Option<Vec<char>>)
    ensures
        match r {
            Some(n) => spec_extension(p@) == Some(n@),
            None => spec_extension(p@) is None,
        },
{
    let name = file_name_chars(p)?;
    match last_dot(&name) {
        Some(i) => {
            assert(i < name.len());
            Some(slice_vec(&name, i + 1, name.len()))
        },
        None => None,
    }
}

pub fn parent_chars(p: &[char]) -> (r: Option<Vec<char>>)
    ensures
        match r {
            Some(n) => spec_parent(p@) == Some(n@),
            None => spec_parent(p@) is None,
        },
{
    let (abs, segs) = path_segments(p);
    if segs.len() == 0 {
        return None;
    }
    let ghost sv = segs@.map_values(|v: Vec<char>| v@);
    let prefix = vstd::slice::slice_subrange(segs.as_slice(), 0, segs.len() - 1);
    proof {
        assert(prefix@.map_values(|v: Vec<char>| v@) =~= sv.drop_last());
    }
    Some(join_segments(abs, prefix))
}

pub fn strip_prefix_chars(p: &[char], base: &[char]) -> (r: Option<Vec<char>>)
    ensures
        match r {
            Some(n) => spec_strip_prefix(p@, base@) == Some(n@),
            None => spec_strip_prefix(p@, base@) is None,
        },
{
    let (ap, sp) = path_segments(p);
    let (ab, sb) = path_segments(base);
    let ghost spv = sp@.map_values(|v: Vec<char>| v@);
    let ghost sbv = sb@.map_values(|v: Vec<char>| v@);
    if ap != ab || sb.len() > sp.len() {
        return None;
    }
    let mut i: usize = 0;
    while i < sb.len()
        invariant
            i <= sb.len() <= sp.len(),
            spv == sp@.map_values(|v: Vec<char>| v@),
            sbv == sb@.map_values(|v: Vec<char>| v@),
            spv == segments(p@),
            sbv == segments(base@),
            is_abs(p@) == is_abs(base@),
            forall|j: int| 0 <= j < i ==> spv[j] == sbv[j],
        decreases sb.len() - i,
    {
        assert(spv[i as int] == sp@[i as int]@);
        assert(sbv[i as int] == sb@[i as int]@);
        if !crate::utils::strs::chars_eq(&sp[i], &sb[i]) {
            assert(spv.take(sbv.len() as int)[i as int] != sbv[i as int]);
            assert(spv.take(sbv.len() as int) != sbv);
            assert(segments(p@) == spv);
            assert(segments(base@) == sbv);
            return None;
        }
        i += 1;
    }
    assert(spv.take(sbv.len() as int) =~= sbv);
    let rest = vstd::slice::slice_subrange(sp.as_slice(), sb.len(), sp.len());
    assert(rest@.map_values(|v: Vec<char>| v@) =~= spv.skip(sbv.len() as int));
    Some(join_segments(false, rest))
}

/// The string of a path with every `\` turned into `/`, less a trailing `.` and the
/// extension of the path (an absent extension counting as empty).
pub open spec fn spec_path_without_extension(p: Seq<char>) -> Seq<char> {
    let v = backslash_to_slash(p);
    let suffix = match spec_extension(p) {
        Some(e) => seq!['.'] + e,
        None => seq!['.'],
    };
    if is_suffix(suffix, v) {
        v.take(v.len() - suffix.len())
    } else {
        v
    }
}

pub open spec fn backslash_to_slash(p: Seq<char>) -> Seq<char> {
    p.map_values(|c: char| if c == '\\' { '/' } else { c })
}

/// The path with every `\\` turned into `/`.
pub fn backslash_to_slash_str(p: &str) -> (r: String)
    ensures
        r@ == backslash_to_slash(p@),
{
    let s = chars_of(p);
    let mut v: Vec<char> = Vec::new();
    let mut i: usize = 0;
    while i < s.len()
        invariant
            i <= s@.len(),
            v@ =~= backslash_to_slash(s@.take(i as int)),
        decreases s@.len() - i,
    {
        v.push(if s[i] == '\\' { '/' } else { s[i] });
        assert(backslash_to_slash(s@.take(i + 1)) =~= backslash_to_slash(s@.take(i as int)).push(
            if s@[i as int] == '\\' { '/' } else { s@[i as int] },
        ));
        i += 1;
    }
    assert(s@.take(s@.len() as int) =~= s@);
    string_of(&v)
}

pub fn path_without_extension_chars(p: &[char]) -> (r: Vec<char>)
    ensures
        r@ == spec_path_without_extension(p@),
{
    let mut v: Vec<char> = Vec::new();
    let mut i: usize = 0;
    while i < p.len()
        invariant
            i <= p@.len(),
            v@ =~= backslash_to_slash(p@.take(i as int)),
        decreases p@.len() - i,
    {
        v.push(if p[i] == '\\' { '/' } else { p[i] });
        assert(backslash_to_slash(p@.take(i + 1)) =~= backslash_to_slash(p@.take(i as int)).push(
            if p@[i as int] == '\\' { '/' } else { p@[i as int] },
        ));
        i += 1;
    }
    assert(p@.take(p@.len() as int) =~= p@);
    let mut suffix: Vec<char> = Vec::new();
    suffix.push('.');
    match extension_chars(p) {
        Some(e) => {
            let mut k: usize = 0;
            while k < e.len()
                invariant
                    k <= e@.len(),
                    suffix@ =~= seq!['.'] + e@.take(k as int),
                decreases e@.len() - k,
            {
                suffix.push(e[k]);
                assert(e@.take(k + 1) =~= e@.take(k as int).push(e@[k as int]));
                k += 1;
            }
            assert(e@.take(e@.len() as int) =~= e@);
        },
        None => {
            assert(suffix@ =~= seq!['.']);
        },
    }
    if ends_with(&v, &suffix) {
        slice_vec(&v, 0, v.len() - suffix.len())
    } else {
        v
    }
}

pub fn path_without_extension(path: &str) -> (r: String)
    ensures
        r@ == spec_path_without_extension(path@),
{
    string_of(&path_without_extension_chars(&chars_of(path)))
}

/// A link target ending in `/` names a folder.
pub open spec fn spec_is_folder_link_target(t: Seq<char>) -> bool {
    t.len() > 0 && t.last() == '/'
}

pub fn is_folder_link_target(target: &str) -> (b: bool)
    ensures
        b == spec_is_folder_link_target(target@),
{
    let t = chars_of(target);
    t.len() > 0 && t[t.len() - 1] == '/'
}

/// Splitting off the anchor loses nothing: the part before the first unescaped `#`, the
/// `#` and the anchor make up the input again, and with no unescaped `#` the input comes
/// back whole.
pub proof fn lemma_split_anchor_round_trip(s: Seq<char>)
    ensures
        match spec_split_anchor(s) {
            (p, Some(a)) => p + seq!['#'] + a == s && unescaped_hit(s, 0, p.len() as int, '#')
                && forall|j: int| 0 <= j < p.len() ==> !#[trigger] unescaped_hit(s, 0, j, '#'),
            (p, None) => p == s && forall|j: int| 0 <= j < s.len() ==> !#[trigger] unescaped_hit(s, 0, j, '#'),
        },
{
    lemma_first_unescaped(s, 0, s.len() as int, '#');
    if let Some(i) = first_unescaped(s, 0, s.len() as int, '#') {
        assert(s.take(i) + seq!['#'] + s.skip(i + 1) =~= s);
    }
}

} // verus!
