use crate::utils::strs::{
    ascii_lower_seq, ascii_lower_vec, chars_of, is_prefix, is_ws, occurs_at, occurs_at_exec,
    push_char, spec_is_ws, string_of,
};
use unicode_normalization::UnicodeNormalization;
use vstd::prelude::*;

verus! {

/// The NFKC normal form of a character sequence (Unicode compatibility composition).
pub uninterp spec fn spec_nfkc(s: Seq<char>) -> Seq<char>;

/// The characters that `char::to_lowercase` maps a character to.
pub uninterp spec fn spec_to_lowercase(c: char) -> Seq<char>;

/// Whether a character is alphabetic or numeric in the sense of `char::is_alphanumeric`.
pub uninterp spec fn spec_is_alphanumeric(c: char) -> bool;

/// Whether a character is numeric in the sense of `char::is_numeric`.
pub uninterp spec fn spec_is_numeric(c: char) -> bool;

/// Trusted: `unicode_normalization::UnicodeNormalization::nfkc` on a `str`, collected.
/// The contract only names the result: it is a function of the input characters.
#[verifier::external_body]
pub(crate) fn nfkc_chars(s: &str) -> (r: Vec<char>)
    ensures
        r@ == spec_nfkc(s@),
{
    s.nfkc().collect()
}

/// Trusted: `char::to_lowercase`, collected. The contract names the result.
#[verifier::external_body]
pub(crate) fn lowercase_chars(c: char) -> (r: Vec<char>)
    ensures
        r@ == spec_to_lowercase(c),
{
    c.to_lowercase().collect()
}

/// Trusted: `char::is_alphanumeric`. The contract names the result.
#[verifier::external_body]
fn is_alphanumeric(c: char) -> (b: bool)
    ensures
        b == spec_is_alphanumeric(c),
{
    c.is_alphanumeric()
}

/// Trusted: `char::is_numeric`. The contract names the result.
#[verifier::external_body]
fn is_numeric(c: char) -> (b: bool)
    ensures
        b == spec_is_numeric(c),
{
    c.is_numeric()
}

/// A heading identifier, as GitHub derives it from heading text.
#[derive(Clone, Debug, Default, PartialEq, Eq, Hash, PartialOrd, Ord)]
pub struct Slug(String);

impl View for Slug {
    type V = Seq<char>;

    closed spec fn view(&self) -> Seq<char> {
        self.0@
    }
}

/// The concatenation of the lower-case mappings of each character of `s`.
pub open spec fn lowered(s: Seq<char>) -> Seq<char>
    decreases s.len(),
{
    if s.len() == 0 {
        Seq::empty()
    } else {
        lowered(s.drop_last()) + spec_to_lowercase(s.last())
    }
}

pub open spec fn spec_non_ascii_letter_or_number(c: char) -> bool {
    (c as u32) >= 0x80 && (spec_is_alphanumeric(c) || spec_is_numeric(c))
}

/// Characters that a slug keeps as they are.
pub open spec fn slug_keeps(c: char) -> bool {
    spec_is_alphanumeric(c) || spec_non_ascii_letter_or_number(c) || c == '-' || c == '_'
}

/// One step of slug building: a kept character is added; a white-space character adds
/// one `-`, but only once something has been added; anything else is dropped.
pub open spec fn slug_step(acc: Seq<char>, c: char) -> Seq<char> {
    if slug_keeps(c) {
        acc.push(c)
    } else if spec_is_ws(c) && acc.len() > 0 {
        acc.push('-')
    } else {
        acc
    }
}

pub open spec fn slug_fold(s: Seq<char>) -> Seq<char>
    decreases s.len(),
{
    if s.len() == 0 {
        Seq::empty()
    } else {
        slug_step(slug_fold(s.drop_last()), s.last())
    }
}

/// `s` without its trailing dashes.
pub open spec fn trim_dashes(s: Seq<char>) -> Seq<char>
    decreases s.len(),
{
    if s.len() > 0 && s.last() == '-' {
        trim_dashes(s.drop_last())
    } else {
        s
    }
}

/// The slug of a heading text: NFKC-normalised, lower-cased, keeping letters, numbers,
/// `-` and `_`, turning each white-space character after the first kept one into one
/// `-` (runs are not collapsed), dropping everything else, and dropping trailing dashes.
pub open spec fn spec_slug(input: Seq<char>) -> Seq<char> {
    trim_dashes(slug_fold(lowered(spec_nfkc(input))))
}

/// Decimal digits of `n`.
pub open spec fn spec_decimal(n: nat) -> Seq<char>
    decreases n,
{
    if n < 10 {
        seq![digit_char(n)]
    } else {
        spec_decimal(n / 10).push(digit_char(n % 10))
    }
}

pub open spec fn digit_char(d: nat) -> char {
    if d == 0 {
        '0'
    } else if d == 1 {
        '1'
    } else if d == 2 {
        '2'
    } else if d == 3 {
        '3'
    } else if d == 4 {
        '4'
    } else if d == 5 {
        '5'
    } else if d == 6 {
        '6'
    } else if d == 7 {
        '7'
    } else if d == 8 {
        '8'
    } else {
        '9'
    }
}

fn digit(d: usize) -> (c: char)
    requires
        d < 10,
    ensures
        c == digit_char(d as nat),
{
    if d == 0 {
        '0'
    } else if d == 1 {
        '1'
    } else if d == 2 {
        '2'
    } else if d == 3 {
        '3'
    } else if d == 4 {
        '4'
    } else if d == 5 {
        '5'
    } else if d == 6 {
        '6'
    } else if d == 7 {
        '7'
    } else if d == 8 {
        '8'
    } else {
        '9'
    }
}

/// Appends the decimal digits of `n` to `out`.
pub fn push_decimal(out: &mut String, n: usize)
    ensures
        final(out)@ == old(out)@ + spec_decimal(n as nat),
    decreases n,
{
    if n < 10 {
        push_char(out, digit(n));
        assert(spec_decimal(n as nat) =~= seq![digit_char(n as nat)]);
    } else {
        push_decimal(out, n / 10);
        push_char(out, digit(n % 10));
        assert(spec_decimal(n as nat) == spec_decimal((n / 10) as nat).push(
            digit_char((n % 10) as nat),
        ));
        assert(old(out)@ + spec_decimal((n / 10) as nat).push(digit_char((n % 10) as nat))
            =~= (old(out)@ + spec_decimal((n / 10) as nat)).push(digit_char((n % 10) as nat)));
    }
}

/// Appends the decimal digits of a 64-bit `n` to `out`.
pub fn push_decimal_u64(out: &mut String, n: u64)
    ensures
        final(out)@ == old(out)@ + spec_decimal(n as nat),
    decreases n,
{
    if n < 10 {
        push_char(out, digit(n as usize));
        assert(spec_decimal(n as nat) =~= seq![digit_char(n as nat)]);
    } else {
        push_decimal_u64(out, n / 10);
        push_char(out, digit((n % 10) as usize));
        assert(spec_decimal(n as nat) == spec_decimal((n / 10) as nat).push(
            digit_char((n % 10) as nat),
        ));
        assert(old(out)@ + spec_decimal((n / 10) as nat).push(digit_char((n % 10) as nat))
            =~= (old(out)@ + spec_decimal((n / 10) as nat)).push(digit_char((n % 10) as nat)));
    }
}

/// Whether `needle` is a subsequence of `hay`.
pub open spec fn is_subseq(needle: Seq<char>, hay: Seq<char>) -> bool
    decreases hay.len(),
{
    if needle.len() == 0 {
        true
    } else if hay.len() == 0 {
        false
    } else if hay[0] == needle[0] {
        is_subseq(needle.drop_first(), hay.drop_first())
    } else {
        is_subseq(needle, hay.drop_first())
    }
}

impl Slug {
    pub fn from_heading_text(input: &str) -> (r: Self)
        ensures
            r@ == spec_slug(input@),
    {
        let norm = nfkc_chars(input);
        let ghost n = norm@;
        let mut out: Vec<char> = Vec::new();
        let mut i: usize = 0;
        assert(n.take(0) =~= Seq::<char>::empty());
        while i < norm.len()
            invariant
                n == norm@,
                n == spec_nfkc(input@),
                i <= n.len(),
                out@ == slug_fold(lowered(n.take(i as int))),
            decreases n.len() - i,
        {
            let low = lowercase_chars(norm[i]);
            let ghost base = lowered(n.take(i as int));
            assert(n.take(i + 1).drop_last() =~= n.take(i as int));
            assert(lowered(n.take(i + 1)) == base + low@);
            let mut k: usize = 0;
            assert(base + low@.take(0) =~= base);
            while k < low.len()
                invariant
                    k <= low@.len(),
                    out@ == slug_fold(base + low@.take(k as int)),
                decreases low@.len() - k,
            {
                let ch = low[k];
                assert((base + low@.take(k + 1)).drop_last() =~= base + low@.take(k as int));
                assert((base + low@.take(k + 1)).last() == ch);
                if is_alphanumeric(ch) || Self::is_non_ascii_letter_or_number(ch) || ch == '-'
                    || ch == '_' {
                    out.push(ch);
                } else if is_ws(ch) && out.len() > 0 {
                    out.push('-');
                }
                k += 1;
            }
            assert(low@.take(low@.len() as int) =~= low@);
            i += 1;
        }
        assert(n.take(n.len() as int) =~= n);
        let ghost folded = out@;
        while out.len() > 0 && out[out.len() - 1] == '-'
            invariant
                trim_dashes(folded) == trim_dashes(out@),
            decreases out.len(),
        {
            out.pop();
        }
        Slug(string_of(&out))
    }

    fn is_non_ascii_letter_or_number(ch: char) -> (b: bool)
        ensures
            b == spec_non_ascii_letter_or_number(ch),
    {
        (ch as u32) >= 0x80 && (is_alphanumeric(ch) || is_numeric(ch))
    }

    /// `base` followed by `-` and the decimal digits of `suffix`.
    pub fn with_suffix(base: &Self, suffix: usize) -> (r: Self)
        ensures
            r@ == base@.push('-') + spec_decimal(suffix as nat),
    {
        let mut s = base.0.clone();
        push_char(&mut s, '-');
        push_decimal(&mut s, suffix);
        Slug(s)
    }

    pub fn as_str(&self) -> (s: &str)
        ensures
            s@ == self@,
    {
        self.0.as_str()
    }

    /// The slug's text as an owned string.
    pub fn text(&self) -> (r: String)
        ensures
            r@ == self@,
    {
        self.0.clone()
    }

    /// An equal copy.
    pub fn duplicate(&self) -> (r: Self)
        ensures
            r == *self,
    {
        Slug(self.0.clone())
    }

    /// Whether two slugs are the same.
    pub fn same_as(&self, other: &Self) -> (b: bool)
        ensures
            b == (self@ == other@),
    {
        self.0 == other.0
    }

    /// A slug holding exactly the given text.
    pub fn from_string(value: String) -> (r: Self)
        ensures
            r@ == value@,
    {
        Slug(value)
    }

    /// Whether `needle` is a subsequence of `haystack`, comparing ASCII letters without
    /// regard to case.
    pub fn is_subsequence(haystack: &str, needle: &str) -> (b: bool)
        ensures
            b == is_subseq(ascii_lower_seq(needle@), ascii_lower_seq(haystack@)),
    {
        let h = ascii_lower_vec(&chars_of(haystack));
        let n = ascii_lower_vec(&chars_of(needle));
        let ghost hv = h@;
        let ghost nv = n@;
        assert(hv == ascii_lower_seq(haystack@));
        assert(nv == ascii_lower_seq(needle@));
        if n.len() == 0 {
            return true;
        }
        let mut j: usize = 0;
        let mut i: usize = 0;
        assert(hv.skip(0) =~= hv);
        assert(nv.skip(0) =~= nv);
        while i < h.len()
            invariant
                hv == h@,
                nv == n@,
                hv == ascii_lower_seq(haystack@),
                nv == ascii_lower_seq(needle@),
                n.len() == nv.len(),
                i <= hv.len(),
                j < nv.len(),
                is_subseq(nv, hv) == is_subseq(nv.skip(j as int), hv.skip(i as int)),
            decreases hv.len() - i,
        {
            let ghost ns = nv.skip(j as int);
            let ghost hs = hv.skip(i as int);
            assert(hs.drop_first() =~= hv.skip(i + 1));
            assert(ns.drop_first() =~= nv.skip(j + 1));
            assert(hs[0] == hv[i as int]);
            assert(ns[0] == nv[j as int]);
            assert(ns.len() > 0 && hs.len() > 0);
            if h[i] == n[j] {
                assert(is_subseq(ns, hs) == is_subseq(ns.drop_first(), hs.drop_first()));
                j += 1;
                if j == n.len() {
                    assert(nv.skip(j as int).len() == 0);
                    assert(is_subseq(nv.skip(j as int), hv.skip(i + 1)));
                    return true;
                }
            } else {
                assert(is_subseq(ns, hs) == is_subseq(ns, hs.drop_first()));
            }
            i += 1;
        }
        assert(hv.skip(i as int).len() == 0);
        assert(nv.skip(j as int).len() > 0);
        false
    }

    /// Whether `needle` occurs in `haystack`, comparing ASCII letters without regard to case.
    pub fn is_substring(haystack: &str, needle: &str) -> (b: bool)
        ensures
            b == exists|i: int|
                occurs_at(ascii_lower_seq(haystack@), ascii_lower_seq(needle@), i),
    {
        let h = ascii_lower_vec(&chars_of(haystack));
        let n = ascii_lower_vec(&chars_of(needle));
        assert(h@ == ascii_lower_seq(haystack@));
        assert(n@ == ascii_lower_seq(needle@));
        if n.len() > h.len() {
            assert forall|k: int| !occurs_at(h@, n@, k) by {}
            return false;
        }
        let mut i: usize = 0;
        while i <= h.len() - n.len()
            invariant
                n.len() <= h.len(),
                h@ == ascii_lower_seq(haystack@),
                n@ == ascii_lower_seq(needle@),
                forall|k: int| 0 <= k < i ==> !occurs_at(h@, n@, k),
            decreases h.len() - i,
        {
            if occurs_at_exec(&h, &n, i) {
                assert(occurs_at(h@, n@, i as int));
                return true;
            }
            if i == h.len() - n.len() {
                proof {
                    assert forall|k: int| !occurs_at(h@, n@, k) by {
                        if 0 <= k <= i {
                        }
                    }
                }
                return false;
            }
            i += 1;
        }
        proof {
            assert forall|k: int| !occurs_at(h@, n@, k) by {
                if 0 <= k < i {
                }
            }
        }
        false
    }
}

/// A slug holds only letters and numbers (in the sense of `char::is_alphanumeric`, or a
/// non-ASCII numeric character), `-` and `_`: punctuation such as `.`, and white space,
/// never appears in it. It never ends in a dash, and it starts with a character it keeps.
pub proof fn lemma_slug_shape(input: Seq<char>)
    ensures
        spec_slug(input).len() > 0 ==> spec_slug(input).last() != '-',
        forall|i: int|
            0 <= i < spec_slug(input).len() ==> {
                let c = #[trigger] spec_slug(input)[i];
                ||| spec_is_alphanumeric(c)
                ||| ((c as u32) >= 0x80 && spec_is_numeric(c))
                ||| c == '-'
                ||| c == '_'
            },
        spec_slug(input).len() > 0 ==> slug_keeps(spec_slug(input)[0]),
{
    let f = slug_fold(lowered(spec_nfkc(input)));
    lemma_fold_chars(lowered(spec_nfkc(input)));
    lemma_trim_dashes(f);
    if spec_slug(input).len() > 0 {
        assert(spec_slug(input)[0] == f[0]);
    }
}

proof fn lemma_fold_chars(s: Seq<char>)
    ensures
        forall|i: int|
            0 <= i < slug_fold(s).len() ==> slug_keeps(#[trigger] slug_fold(s)[i])
                || slug_fold(s)[i] == '-',
        slug_fold(s).len() > 0 ==> slug_keeps(slug_fold(s)[0]),
    decreases s.len(),
{
    if s.len() > 0 {
        lemma_fold_chars(s.drop_last());
        let p = slug_fold(s.drop_last());
        let f = slug_fold(s);
        assert(f == slug_step(p, s.last()));
        assert forall|i: int| 0 <= i < f.len() implies slug_keeps(#[trigger] f[i]) || f[i] == '-' by {
            if i < p.len() {
                assert(f[i] == p[i]);
            }
        }
        if p.len() > 0 && f.len() > 0 {
            assert(f[0] == p[0]);
        }
    }
}

proof fn lemma_trim_dashes(s: Seq<char>)
    ensures
        trim_dashes(s).len() <= s.len(),
        trim_dashes(s) =~= s.take(trim_dashes(s).len() as int),
        trim_dashes(s).len() > 0 ==> trim_dashes(s).last() != '-',
    decreases s.len(),
{
    if s.len() > 0 && s.last() == '-' {
        lemma_trim_dashes(s.drop_last());
    }
}

} // verus!
