use crate::utils::strs::{ascii_lower_seq, ascii_lower_vec, chars_eq, chars_of, is_prefix};
use vstd::prelude::*;

verus! {

/// Whether the stem of entry `e` starts, ignoring ASCII case, with the non-empty `key`.
pub open spec fn hit(e: (Seq<char>, Seq<char>), key: Seq<char>) -> bool {
    key.len() > 0 && is_prefix(key, ascii_lower_seq(e.0))
}

/// The paths, in entry order, of the entries whose stem starts with `key`.
pub open spec fn prefix_hits(entries: Seq<(Seq<char>, Seq<char>)>, key: Seq<char>) -> Seq<
    Seq<char>,
>
    decreases entries.len(),
{
    if entries.len() == 0 {
        Seq::empty()
    } else if hit(entries.last(), key) {
        prefix_hits(entries.drop_last(), key).push(entries.last().1)
    } else {
        prefix_hits(entries.drop_last(), key)
    }
}

/// Every entry is found under each non-empty leading prefix of its lower-cased stem.
pub proof fn lemma_prefix_finds_entry(entries: Seq<(Seq<char>, Seq<char>)>, k: int, n: int)
    requires
        0 <= k < entries.len(),
        0 < n <= entries[k].0.len(),
    ensures
        prefix_hits(entries, ascii_lower_seq(entries[k].0).take(n)).contains(entries[k].1),
    decreases entries.len(),
{
    let key = ascii_lower_seq(entries[k].0).take(n);
    if k == entries.len() - 1 {
        assert(hit(entries.last(), key));
        let r = prefix_hits(entries, key);
        assert(r.last() == entries[k].1);
    } else {
        let prev = entries.drop_last();
        assert(prev[k] == entries[k]);
        lemma_prefix_finds_entry(prev, k, n);
        let p = prefix_hits(prev, key);
        let j = choose|j: int| 0 <= j < p.len() && p[j] == entries[k].1;
        if hit(entries.last(), key) {
            assert(p.push(entries.last().1)[j] == entries[k].1);
        }
    }
}

pub open spec fn strings_view(v: Seq<String>) -> Seq<Seq<char>> {
    v.map_values(|s: String| s@)
}

pub open spec fn entries_view(v: Seq<(String, String)>) -> Seq<(Seq<char>, Seq<char>)> {
    v.map_values(|e: (String, String)| (e.0@, e.1@))
}

/// Case-insensitive prefix index over file stems: every non-empty leading prefix of a
/// lower-cased stem is a key, mapped to the paths of the stems it begins, in the order
/// they were added.
#[derive(Clone, Debug)]
pub struct PrefixIndex {
    keys: Vec<Vec<char>>,
    values: Vec<Vec<String>>,
}

impl PrefixIndex {
    /// Keys and value lists pair up, and no key occurs twice.
    pub closed spec fn inv(&self) -> bool {
        &&& self.keys@.len() == self.values@.len()
        &&& forall|a: int, b: int|
            0 <= a < b < self.keys@.len() ==> self.keys@[a]@ != self.keys@[b]@
    }

    /// The keys of the index.
    pub closed spec fn key_list(&self) -> Seq<Seq<char>> {
        self.keys@.map_values(|k: Vec<char>| k@)
    }

    /// The paths stored under `key` (empty when `key` is no key).
    pub closed spec fn lookup(&self, key: Seq<char>) -> Seq<Seq<char>> {
        if exists|i: int| 0 <= i < self.keys@.len() && #[trigger] self.keys@[i]@ == key {
            strings_view(
                self.values@[choose|i: int|
                    0 <= i < self.keys@.len() && #[trigger] self.keys@[i]@ == key]@,
            )
        } else {
            Seq::empty()
        }
    }

    /// The index describes exactly the given entries: its keys are the prefixes with hits,
    /// each once.
    pub open spec fn indexes(&self, entries: Seq<(Seq<char>, Seq<char>)>) -> bool {
        &&& self.inv()
        &&& self.key_list().no_duplicates()
        &&& forall|key: Seq<char>| #[trigger] self.lookup(key) == prefix_hits(entries, key)
        &&& forall|key: Seq<char>|
            #[trigger] self.key_list().contains(key) <==> prefix_hits(entries, key).len() > 0
    }

    pub fn empty() -> (r: Self)
        ensures
            r.indexes(Seq::empty()),
    {
        let r = PrefixIndex { keys: Vec::new(), values: Vec::new() };
        assert(r.key_list() =~= Seq::<Seq<char>>::empty());
        r
    }

    /// Builds the index from `(stem, path)` pairs.
    pub fn from_entries(entries: Vec<(String, String)>) -> (r: Self)
        ensures
            r.indexes(entries_view(entries@)),
    {
        let mut index = Self::empty();
        let mut i: usize = 0;
        while i < entries.len()
            invariant
                i <= entries.len(),
                index.indexes(entries_view(entries@.take(i as int))),
            decreases entries.len() - i,
        {
            let ghost before = entries_view(entries@.take(i as int));
            index.insert(&entries[i].0, &entries[i].1);
            proof {
                let after = entries_view(entries@.take(i + 1));
                assert(after.drop_last() =~= before);
                assert(after.last() == (entries@[i as int].0@, entries@[i as int].1@));
                assert(after =~= before.push((entries@[i as int].0@, entries@[i as int].1@)));
            }
            i += 1;
        }
        assert(entries@.take(entries.len() as int) =~= entries@);
        index
    }

    proof fn lemma_lookup_at(&self, i: int)
        requires
            0 <= i < self.keys@.len(),
            self.inv(),
        ensures
            self.lookup(self.keys@[i]@) == strings_view(self.values@[i]@),
    {
        let key = self.keys@[i]@;
        let j = choose|j: int| 0 <= j < self.keys@.len() && #[trigger] self.keys@[j]@ == key;
        assert(self.keys@[i]@ == key);
        if j != i {
            if j < i {
                assert(self.keys@[j]@ != self.keys@[i]@);
            } else {
                assert(self.keys@[i]@ != self.keys@[j]@);
            }
        }
    }

    fn find_key(&self, key: &[char]) -> (r: Option<usize>)
        ensures
            match r {
                Some(i) => i < self.keys@.len() && self.keys@[i as int]@ == key@,
                None => forall|i: int| 0 <= i < self.keys@.len() ==> self.keys@[i]@ != key@,
            },
    {
        let mut i: usize = 0;
        while i < self.keys.len()
            invariant
                i <= self.keys@.len(),
                forall|j: int| 0 <= j < i ==> self.keys@[j]@ != key@,
            decreases self.keys@.len() - i,
        {
            if chars_eq(&self.keys[i], key) {
                return Some(i);
            }
            i += 1;
        }
        None
    }

    /// Adds `path` under every non-empty leading prefix of the lower-cased `stem`.
    fn insert(&mut self, stem: &String, path: &String)
        requires
            old(self).inv(),
        ensures
            forall|e: Seq<(Seq<char>, Seq<char>)>| #[trigger] old(self).indexes(e) ==> final(self).indexes(
                e.push((stem@, path@)),
            ),
    {
        let lower = ascii_lower_vec(&chars_of(stem.as_str()));
        let ghost lw = lower@;
        let ghost old_self = *self;
        let mut l: usize = 0;
        while l < lower.len()
            invariant
                lw == lower@,
                lw == ascii_lower_seq(stem@),
                l <= lw.len(),
                self.keys@.len() == self.values@.len(),
                forall|a: int, b: int|
                    0 <= a < b < self.keys@.len() ==> self.keys@[a]@ != self.keys@[b]@,
                forall|key: Seq<char>| #[trigger]
                    self.lookup(key) == if key.len() > 0 && key.len() <= l && is_prefix(key, lw) {
                        old_self.lookup(key).push(path@)
                    } else {
                        old_self.lookup(key)
                    },
                forall|key: Seq<char>| #[trigger]
                    self.key_list().contains(key) <==> (old_self.key_list().contains(key) || (
                    key.len() > 0 && key.len() <= l && is_prefix(key, lw))),
            decreases lw.len() - l,
        {
            let key: Vec<char> = prefix_vec(&lower, l + 1);
            let ghost k = key@;
            let ghost prev = *self;
            match self.find_key(&key) {
                Some(idx) => {
                    proof {
                        prev.lemma_lookup_at(idx as int);
                    }
                    let ghost old_vals = self.values@[idx as int]@;
                    self.values[idx].push(path.clone());
                    proof {
                        assert(self.values@[idx as int]@ == old_vals.push(*path));
                        assert(strings_view(old_vals.push(*path)) =~= strings_view(old_vals).push(
                            path@,
                        ));
                        assert(self.values@ =~= prev.values@.update(idx as int, self.values@[idx as int]));
                        assert forall|key2: Seq<char>| #[trigger] self.lookup(key2) == if key2
                            == k {
                            prev.lookup(key2).push(path@)
                        } else {
                            prev.lookup(key2)
                        } by {
                            self.lemma_lookup_eq(prev, key2, idx as int, path@);
                        }
                        assert(self.key_list() =~= prev.key_list());
                        assert(self.key_list()[idx as int] == k);
                        assert forall|key2: Seq<char>| #[trigger] self.key_list().contains(key2)
                            <==> (prev.key_list().contains(key2) || key2 == k) by {}
                    }
                },
                None => {
                    let mut vals: Vec<String> = Vec::new();
                    vals.push(path.clone());
                    self.keys.push(key);
                    self.values.push(vals);
                    proof {
                        assert(self.keys@.drop_last() =~= prev.keys@);
                        assert(self.values@.drop_last() =~= prev.values@);
                        assert(strings_view(self.values@.last()@) =~= seq![path@]);
                        assert forall|key2: Seq<char>| #[trigger] self.lookup(key2) == if key2
                            == k {
                            prev.lookup(key2).push(path@)
                        } else {
                            prev.lookup(key2)
                        } by {
                            self.lemma_lookup_new(prev, key2, path@);
                        }
                        assert(self.key_list() =~= prev.key_list().push(k));
                        assert(self.key_list()[self.key_list().len() - 1] == k);
                        assert forall|key2: Seq<char>| #[trigger] self.key_list().contains(key2)
                            <==> (prev.key_list().contains(key2) || key2 == k) by {
                            if prev.key_list().contains(key2) {
                                let w = choose|w: int| 0 <= w < prev.key_list().len() && prev.key_list()[w] == key2;
                                assert(self.key_list()[w] == key2);
                            }
                            if self.key_list().contains(key2) && key2 != k {
                                let w = choose|w: int| 0 <= w < self.key_list().len() && self.key_list()[w] == key2;
                                assert(prev.key_list()[w] == key2);
                            }
                        }
                    }
                },
            }
            proof {
                assert forall|key2: Seq<char>| #[trigger]
                    self.key_list().contains(key2) <==> (old_self.key_list().contains(key2) || (
                    key2.len() > 0 && key2.len() <= l + 1 && is_prefix(key2, lw))) by {
                    if key2.len() == l + 1 && is_prefix(key2, lw) {
                        assert(key2 =~= k);
                    }
                    if key2 == k {
                        assert(self.key_list().contains(k));
                    }
                }
                assert forall|key2: Seq<char>| #[trigger]
                    self.lookup(key2) == if key2.len() > 0 && key2.len() <= l + 1 && is_prefix(
                        key2,
                        lw,
                    ) {
                        old_self.lookup(key2).push(path@)
                    } else {
                        old_self.lookup(key2)
                    } by {
                    if key2.len() == l + 1 && is_prefix(key2, lw) {
                        assert(key2 =~= k);
                    }
                }
            }
            l += 1;
        }
        proof {
            assert forall|e: Seq<(Seq<char>, Seq<char>)>| #[trigger] old_self.indexes(e) implies self.indexes(
                e.push((stem@, path@)),
            ) by {
                let e2 = e.push((stem@, path@));
                assert(e2.drop_last() =~= e);
                assert forall|key: Seq<char>| #[trigger] self.lookup(key) == prefix_hits(e2, key) by {
                    assert(old_self.lookup(key) == prefix_hits(e, key));
                }
                assert forall|key: Seq<char>| #[trigger] self.key_list().contains(key)
                    <==> prefix_hits(e2, key).len() > 0 by {
                    assert(old_self.key_list().contains(key) <==> prefix_hits(e, key).len() > 0);
                    if key.len() > 0 && is_prefix(key, lw) {
                        assert(key.len() <= l);
                    }
                }
            }
        }
    }

    proof fn lemma_lookup_eq(&self, prev: Self, key2: Seq<char>, idx: int, p: Seq<char>)
        requires
            0 <= idx < prev.keys@.len(),
            self.keys@ == prev.keys@,
            self.values@ == prev.values@.update(idx, self.values@[idx]),
            strings_view(self.values@[idx]@) == strings_view(prev.values@[idx]@).push(p),
            prev.keys@.len() == prev.values@.len(),
            self.keys@.len() == self.values@.len(),
            forall|a: int, b: int|
                0 <= a < b < self.keys@.len() ==> self.keys@[a]@ != self.keys@[b]@,
        ensures
            self.lookup(key2) == if key2 == prev.keys@[idx]@ {
                prev.lookup(key2).push(p)
            } else {
                prev.lookup(key2)
            },
    {
        if exists|i: int| 0 <= i < self.keys@.len() && #[trigger] self.keys@[i]@ == key2 {
            let i = choose|i: int| 0 <= i < self.keys@.len() && #[trigger] self.keys@[i]@ == key2;
            let j = choose|j: int| 0 <= j < prev.keys@.len() && #[trigger] prev.keys@[j]@ == key2;
            assert(i == j) by {
                if i < j {
                    assert(self.keys@[i]@ != self.keys@[j]@);
                } else if i > j {
                    assert(self.keys@[j]@ != self.keys@[i]@);
                }
            }
            if i == idx {
                assert(self.lookup(key2) == strings_view(self.values@[i]@));
                assert(prev.lookup(key2) == strings_view(prev.values@[i]@));
            } else {
                assert(self.values@[i] == prev.values@[i]);
                assert(self.lookup(key2) == strings_view(self.values@[i]@));
                assert(prev.lookup(key2) == strings_view(prev.values@[j]@));
                assert(key2 != prev.keys@[idx]@) by {
                    if i < idx {
                        assert(self.keys@[i]@ != self.keys@[idx]@);
                    } else {
                        assert(self.keys@[idx]@ != self.keys@[i]@);
                    }
                }
            }
        } else {
            assert(key2 != prev.keys@[idx]@);
        }
    }

    proof fn lemma_lookup_new(&self, prev: Self, key2: Seq<char>, p: Seq<char>)
        requires
            prev.keys@.len() == prev.values@.len(),
            self.keys@.len() == prev.keys@.len() + 1,
            self.keys@.drop_last() == prev.keys@,
            self.values@.drop_last() == prev.values@,
            strings_view(self.values@.last()@) == seq![p],
            forall|i: int| 0 <= i < prev.keys@.len() ==> prev.keys@[i]@ != self.keys@.last()@,
            self.keys@.len() == self.values@.len(),
            forall|a: int, b: int|
                0 <= a < b < self.keys@.len() ==> self.keys@[a]@ != self.keys@[b]@,
        ensures
            self.lookup(key2) == if key2 == self.keys@.last()@ {
                prev.lookup(key2).push(p)
            } else {
                prev.lookup(key2)
            },
    {
        let n = prev.keys@.len() as int;
        assert forall|i: int| 0 <= i < n implies self.keys@[i] == prev.keys@[i] by {
            assert(self.keys@.drop_last()[i] == self.keys@[i]);
        }
        assert forall|i: int| 0 <= i < n implies self.values@[i] == prev.values@[i] by {
            assert(self.values@.drop_last()[i] == self.values@[i]);
        }
        if key2 == self.keys@.last()@ {
            assert(self.keys@[n]@ == key2);
            let i = choose|i: int| 0 <= i < self.keys@.len() && #[trigger] self.keys@[i]@ == key2;
            if i < n {
                assert(self.keys@[i]@ != self.keys@[n]@);
            }
            assert(!exists|j: int| 0 <= j < prev.keys@.len() && #[trigger] prev.keys@[j]@ == key2);
            assert(prev.lookup(key2) =~= Seq::<Seq<char>>::empty());
            assert(seq![p] =~= Seq::<Seq<char>>::empty().push(p));
        } else {
            if exists|i: int| 0 <= i < self.keys@.len() && #[trigger] self.keys@[i]@ == key2 {
                let i = choose|i: int|
                    0 <= i < self.keys@.len() && #[trigger] self.keys@[i]@ == key2;
                assert(i < n);
                assert(prev.keys@[i]@ == key2);
                let j = choose|j: int|
                    0 <= j < prev.keys@.len() && #[trigger] prev.keys@[j]@ == key2;
                assert(i == j) by {
                    if i < j {
                        assert(self.keys@[i]@ != self.keys@[j]@);
                    } else if i > j {
                        assert(self.keys@[j]@ != self.keys@[i]@);
                    }
                }
            } else {
                assert forall|j: int| 0 <= j < prev.keys@.len() implies prev.keys@[j]@ != key2 by {
                    assert(self.keys@[j]@ != key2);
                }
            }
        }
    }

    /// The paths whose stem starts with `target`, ignoring ASCII case; none for an empty
    /// target.
    pub fn matches(&self, target: &str) -> (r: &[String])
        requires
            self.inv(),
        ensures
            strings_view(r@) == if target@.len() == 0 {
                Seq::<Seq<char>>::empty()
            } else {
                self.lookup(ascii_lower_seq(target@))
            },
    {
        let key = ascii_lower_vec(&chars_of(target));
        if key.len() == 0 {
            let r: &[String] = &[];
            assert(strings_view(r@) =~= Seq::<Seq<char>>::empty());
            return r;
        }
        match self.find_key(&key) {
            Some(i) => {
                proof {
                    self.lemma_lookup_at(i as int);
                }
                self.values[i].as_slice()
            },
            None => {
                let r: &[String] = &[];
                assert(strings_view(r@) =~= Seq::<Seq<char>>::empty());
                r
            },
        }
    }

    /// Number of distinct prefix keys.
    pub fn len(&self) -> (n: usize)
        ensures
            n == self.key_list().len(),
    {
        self.keys.len()
    }

    pub fn is_empty(&self) -> (b: bool)
        ensures
            b == (self.key_list().len() == 0),
    {
        self.keys.len() == 0
    }
}

impl Default for PrefixIndex {
    fn default() -> (r: Self)
        ensures
            r.indexes(Seq::empty()),
    {
        Self::empty()
    }
}

/// The index of a list of entries is determined by the entries: two indexes of the same
/// entries store the same paths under every key and have the same keys, as many of them.
pub proof fn lemma_indexes_agree(a: PrefixIndex, b: PrefixIndex, entries: Seq<(Seq<char>, Seq<char>)>)
    requires
        a.indexes(entries),
        b.indexes(entries),
    ensures
        forall|key: Seq<char>| #[trigger] a.lookup(key) == b.lookup(key),
        a.key_list().to_set() == b.key_list().to_set(),
        a.key_list().len() == b.key_list().len(),
{
    assert forall|key: Seq<char>| #[trigger] a.key_list().to_set().contains(key) <==> b.key_list().to_set().contains(key) by {
        assert(a.key_list().contains(key) <==> prefix_hits(entries, key).len() > 0);
        assert(b.key_list().contains(key) <==> prefix_hits(entries, key).len() > 0);
    }
    assert(a.key_list().to_set() =~= b.key_list().to_set());
    a.key_list().unique_seq_to_set();
    b.key_list().unique_seq_to_set();
}

/// The first `l` characters of `v`.
fn prefix_vec(v: &[char], l: usize) -> (r: Vec<char>)
    requires
        l <= v.len(),
    ensures
        r@ == v@.take(l as int),
{
    let mut r: Vec<char> = Vec::new();
    let mut i: usize = 0;
    while i < l
        invariant
            i <= l <= v.len(),
            r@ == v@.take(i as int),
        decreases l - i,
    {
        r.push(v[i]);
        assert(v@.take(i as int).push(v@[i as int]) =~= v@.take(i + 1));
        i += 1;
    }
    r
}

} // verus!
