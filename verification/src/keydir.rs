//! The in-memory index (keydir): an ordered mapping from key to the location
//! `(value offset, value length)` of the key's most recent live value.
//! It is held as a vector of entries sorted by key, so iterating the entries
//! walks the keys in ascending byte-wise lexicographic order; abstractly it
//! is viewed as a `Map`.
use vstd::prelude::*;

verus! {

pub struct Entry {
    pub key: Vec<u8>,
    pub value_pos: u64,
    pub value_len: u32,
}

impl Entry {
    /// The location stored for this entry's key.
    pub open spec fn loc(self) -> (u64, u32) {
        (self.value_pos, self.value_len)
    }

    /// Encoded length of the record this entry came from.
    pub open spec fn size(self) -> int {
        8 + self.key@.len() + self.value_len as int
    }
}

/// Byte-wise lexicographic order: a proper prefix comes first, otherwise the
/// first differing byte decides.
pub open spec fn lex_lt(a: Seq<u8>, b: Seq<u8>) -> bool
    decreases a.len(),
{
    if b.len() == 0 {
        false
    } else if a.len() == 0 {
        true
    } else if a[0] < b[0] {
        true
    } else if a[0] > b[0] {
        false
    } else {
        lex_lt(a.drop_first(), b.drop_first())
    }
}

pub proof fn lemma_lex_irreflexive(a: Seq<u8>)
    ensures
        !lex_lt(a, a),
    decreases a.len(),
{
    if a.len() > 0 {
        lemma_lex_irreflexive(a.drop_first());
    }
}

pub proof fn lemma_lex_transitive(a: Seq<u8>, b: Seq<u8>, c: Seq<u8>)
    requires
        lex_lt(a, b),
        lex_lt(b, c),
    ensures
        lex_lt(a, c),
    decreases a.len(),
{
    if a.len() > 0 && b.len() > 0 && c.len() > 0 {
        if a[0] == b[0] && b[0] == c[0] {
            lemma_lex_transitive(a.drop_first(), b.drop_first(), c.drop_first());
        }
    }
}

/// Two sequences that agree on their first `i` elements compare as their
/// tails beyond `i` compare.
pub proof fn lemma_lex_skip(a: Seq<u8>, b: Seq<u8>, i: int)
    requires
        0 <= i <= a.len(),
        i <= b.len(),
        forall|j: int| 0 <= j < i ==> a[j] == b[j],
    ensures
        lex_lt(a, b) == lex_lt(a.skip(i), b.skip(i)),
    decreases i,
{
    if i > 0 {
        assert(a[0] == b[0]);
        assert(lex_lt(a, b) == lex_lt(a.drop_first(), b.drop_first()));
        lemma_lex_skip(a.drop_first(), b.drop_first(), i - 1);
        assert(a.drop_first().skip(i - 1) =~= a.skip(i));
        assert(b.drop_first().skip(i - 1) =~= b.skip(i));
    } else {
        assert(a.skip(0) =~= a);
        assert(b.skip(0) =~= b);
    }
}

/// The entries stand in strictly ascending key order.
pub open spec fn sorted_keys(s: Seq<Entry>) -> bool {
    forall|i: int, j: int| 0 <= i < j < s.len() ==> lex_lt(s[i].key@, s[j].key@)
}

pub open spec fn unique_keys(s: Seq<Entry>) -> bool {
    forall|i: int, j: int| 0 <= i < j < s.len() ==> s[i].key@ != s[j].key@
}

pub proof fn lemma_sorted_unique(s: Seq<Entry>)
    requires
        sorted_keys(s),
    ensures
        unique_keys(s),
{
    assert forall|i: int, j: int| 0 <= i < j < s.len() implies s[i].key@ != s[j].key@ by {
        if s[i].key@ == s[j].key@ {
            lemma_lex_irreflexive(s[i].key@);
        }
    }
}

/// The mapping that a sequence of entries denotes; later entries override earlier ones.
pub open spec fn entries_map(s: Seq<Entry>) -> Map<Seq<u8>, (u64, u32)>
    decreases s.len(),
{
    if s.len() == 0 {
        Map::empty()
    } else {
        entries_map(s.drop_last()).insert(s.last().key@, s.last().loc())
    }
}

/// Total encoded length of the records the entries point at.
pub open spec fn entries_size(s: Seq<Entry>) -> int
    decreases s.len(),
{
    if s.len() == 0 {
        0int
    } else {
        entries_size(s.drop_last()) + s.last().size()
    }
}

pub proof fn lemma_entries_map_contains(s: Seq<Entry>, k: Seq<u8>)
    ensures
        entries_map(s).contains_key(k) <==> exists|i: int| 0 <= i < s.len() && s[i].key@ == k,
    decreases s.len(),
{
    if s.len() > 0 {
        lemma_entries_map_contains(s.drop_last(), k);
        if s.last().key@ == k {
            assert(s[s.len() - 1].key@ == k);
        } else if entries_map(s).contains_key(k) {
            let i = choose|i: int| 0 <= i < s.drop_last().len() && s.drop_last()[i].key@ == k;
            assert(s[i].key@ == k);
        } else if exists|i: int| 0 <= i < s.len() && s[i].key@ == k {
            let i = choose|i: int| 0 <= i < s.len() && s[i].key@ == k;
            assert(s.drop_last()[i].key@ == k);
        }
    }
}

pub proof fn lemma_entries_map_index(s: Seq<Entry>, i: int)
    requires
        unique_keys(s),
        0 <= i < s.len(),
    ensures
        entries_map(s).contains_key(s[i].key@),
        entries_map(s)[s[i].key@] == s[i].loc(),
    decreases s.len(),
{
    if i < s.len() - 1 {
        lemma_entries_map_index(s.drop_last(), i);
        assert(s.drop_last()[i] == s[i]);
        assert(s.last().key@ != s[i].key@);
    }
}

pub proof fn lemma_entries_map_absent(s: Seq<Entry>, k: Seq<u8>)
    requires
        forall|i: int| 0 <= i < s.len() ==> s[i].key@ != k,
    ensures
        !entries_map(s).contains_key(k),
{
    lemma_entries_map_contains(s, k);
}

pub proof fn lemma_entries_map_push(s: Seq<Entry>, e: Entry)
    ensures
        entries_map(s.push(e)) == entries_map(s).insert(e.key@, e.loc()),
        entries_size(s.push(e)) == entries_size(s) + e.size(),
{
    assert(s.push(e).drop_last() =~= s);
    assert(s.push(e).last() == e);
}

pub proof fn lemma_entries_map_update(s: Seq<Entry>, i: int, e: Entry)
    requires
        unique_keys(s),
        0 <= i < s.len(),
        e.key@ == s[i].key@,
    ensures
        entries_map(s.update(i, e)) == entries_map(s).insert(e.key@, e.loc()),
        entries_size(s.update(i, e)) == entries_size(s) - s[i].size() + e.size(),
    decreases s.len(),
{
    if i == s.len() - 1 {
        assert(s.update(i, e).drop_last() =~= s.drop_last());
        assert(s.update(i, e).last() == e);
        assert(entries_map(s.drop_last()).insert(s.last().key@, s.last().loc()).insert(
            e.key@,
            e.loc(),
        ) =~= entries_map(s.drop_last()).insert(e.key@, e.loc()));
    } else {
        assert(s.update(i, e).drop_last() =~= s.drop_last().update(i, e));
        assert(s.update(i, e).last() == s.last());
        assert(s.drop_last()[i] == s[i]);
        lemma_entries_map_update(s.drop_last(), i, e);
        assert(s.last().key@ != e.key@);
        assert(entries_map(s.drop_last()).insert(e.key@, e.loc()).insert(
            s.last().key@,
            s.last().loc(),
        ) =~= entries_map(s.drop_last()).insert(s.last().key@, s.last().loc()).insert(
            e.key@,
            e.loc(),
        ));
    }
}

pub proof fn lemma_entries_map_remove(s: Seq<Entry>, i: int)
    requires
        unique_keys(s),
        0 <= i < s.len(),
    ensures
        entries_map(s.remove(i)) == entries_map(s).remove(s[i].key@),
        entries_size(s.remove(i)) == entries_size(s) - s[i].size(),
    decreases s.len(),
{
    if i == s.len() - 1 {
        assert(s.remove(i) =~= s.drop_last());
        lemma_entries_map_absent(s.drop_last(), s[i].key@);
        assert(entries_map(s.drop_last()).insert(s.last().key@, s.last().loc()).remove(s[i].key@)
            =~= entries_map(s.drop_last()));
    } else {
        assert(s.remove(i).drop_last() =~= s.drop_last().remove(i));
        assert(s.remove(i).last() == s.last());
        assert(s.drop_last()[i] == s[i]);
        lemma_entries_map_remove(s.drop_last(), i);
        assert(s.last().key@ != s[i].key@);
        assert(entries_map(s.drop_last()).remove(s[i].key@).insert(s.last().key@, s.last().loc())
            =~= entries_map(s.drop_last()).insert(s.last().key@, s.last().loc()).remove(
            s[i].key@,
        ));
    }
}

pub proof fn lemma_entries_map_insert_at(s: Seq<Entry>, i: int, e: Entry)
    requires
        unique_keys(s),
        0 <= i <= s.len(),
        forall|j: int| 0 <= j < s.len() ==> s[j].key@ != e.key@,
    ensures
        entries_map(s.insert(i, e)) == entries_map(s).insert(e.key@, e.loc()),
        entries_size(s.insert(i, e)) == entries_size(s) + e.size(),
    decreases s.len(),
{
    if i == s.len() {
        assert(s.insert(i, e) =~= s.push(e));
        lemma_entries_map_push(s, e);
    } else {
        assert(s.insert(i, e).drop_last() =~= s.drop_last().insert(i, e));
        assert(s.insert(i, e).last() == s.last());
        lemma_entries_map_insert_at(s.drop_last(), i, e);
        assert(s.last().key@ != e.key@);
        assert(entries_map(s.drop_last()).insert(e.key@, e.loc()).insert(
            s.last().key@,
            s.last().loc(),
        ) =~= entries_map(s.drop_last()).insert(s.last().key@, s.last().loc()).insert(
            e.key@,
            e.loc(),
        ));
    }
}

/// A prefix of the entries never accounts for more bytes than the whole.
pub proof fn lemma_entries_size_take(s: Seq<Entry>, i: int)
    requires
        0 <= i <= s.len(),
    ensures
        entries_size(s.take(i)) <= entries_size(s),
        i < s.len() ==> entries_size(s.take(i)) + s[i].size() <= entries_size(s),
    decreases s.len() - i,
{
    if i == s.len() {
        assert(s.take(i) =~= s);
    } else {
        assert(s.take(i + 1).drop_last() =~= s.take(i));
        assert(s.take(i + 1).last() == s[i]);
        lemma_entries_size_take(s, i + 1);
    }
}

/// An owned copy of a byte slice.
pub fn copy_bytes(src: &[u8]) -> (out: Vec<u8>)
    ensures
        out@ == src@,
{
    let n = src.len();
    let mut out: Vec<u8> = Vec::new();
    let mut i: usize = 0;
    while i < n
        invariant
            n == src@.len(),
            0 <= i <= n,
            out@ == src@.subrange(0, i as int),
        decreases n - i,
    {
        out.push(src[i]);
        proof {
            assert(out@ =~= src@.subrange(0, i + 1));
        }
        i += 1;
    }
    proof {
        assert(src@.subrange(0, n as int) =~= src@);
    }
    out
}

#[derive(Clone, Copy, Debug, PartialEq, Eq, Structural)]
pub enum KeyOrder {
    Less,
    Equal,
    Greater,
}

/// Byte-wise lexicographic comparison of two keys.
pub fn compare_bytes(a: &[u8], b: &[u8]) -> (r: KeyOrder)
    ensures
        r == KeyOrder::Less <==> lex_lt(a@, b@),
        r == KeyOrder::Equal <==> a@ == b@,
        r == KeyOrder::Greater <==> lex_lt(b@, a@),
{
    let an = a.len();
    let bn = b.len();
    let mut i: usize = 0;
    while i < an && i < bn
        invariant
            an == a@.len(),
            bn == b@.len(),
            0 <= i <= an,
            0 <= i <= bn,
            forall|j: int| 0 <= j < i ==> a@[j] == b@[j],
        decreases an - i,
    {
        if a[i] < b[i] {
            proof {
                lemma_lex_skip(a@, b@, i as int);
                lemma_lex_skip(b@, a@, i as int);
                assert(a@.skip(i as int)[0] == a@[i as int]);
                assert(b@.skip(i as int)[0] == b@[i as int]);
                assert(a@ != b@);
            }
            return KeyOrder::Less;
        }
        if a[i] > b[i] {
            proof {
                lemma_lex_skip(a@, b@, i as int);
                lemma_lex_skip(b@, a@, i as int);
                assert(a@.skip(i as int)[0] == a@[i as int]);
                assert(b@.skip(i as int)[0] == b@[i as int]);
                assert(a@ != b@);
            }
            return KeyOrder::Greater;
        }
        i += 1;
    }
    proof {
        lemma_lex_skip(a@, b@, i as int);
        lemma_lex_skip(b@, a@, i as int);
    }
    if an < bn {
        KeyOrder::Less
    } else if an > bn {
        KeyOrder::Greater
    } else {
        proof {
            assert(a@ =~= b@);
            lemma_lex_irreflexive(a@);
        }
        KeyOrder::Equal
    }
}

pub struct KeyDir {
    pub entries: Vec<Entry>,
}

impl View for KeyDir {
    type V = Map<Seq<u8>, (u64, u32)>;

    open spec fn view(&self) -> Map<Seq<u8>, (u64, u32)> {
        entries_map(self.entries@)
    }
}

impl KeyDir {
    /// The entries stand in strictly ascending key order, so keys are
    /// pairwise distinct and the entry sequence denotes its map faithfully.
    pub open spec fn wf(self) -> bool {
        sorted_keys(self.entries@) && unique_keys(self.entries@)
    }

    pub fn new() -> (kd: KeyDir)
        ensures
            kd.wf(),
            kd@ == Map::<Seq<u8>, (u64, u32)>::empty(),
            kd.entries@ == Seq::<Entry>::empty(),
    {
        KeyDir { entries: Vec::new() }
    }

    pub fn len(&self) -> (n: usize)
        ensures
            n == self.entries@.len(),
    {
        self.entries.len()
    }

    /// The rank `key` holds or would take in the ascending key order:
    /// everything before it is strictly smaller, and if the flag is set the
    /// entry at that rank holds `key` itself.
    fn position_of(&self, key: &[u8]) -> (r: (usize, bool))
        requires
            self.wf(),
        ensures
            r.0 <= self.entries@.len(),
            forall|j: int| 0 <= j < r.0 ==> lex_lt((#[trigger] self.entries@[j]).key@, key@),
            r.1 ==> r.0 < self.entries@.len() && self.entries@[r.0 as int].key@ == key@,
            !r.1 ==> !self@.contains_key(key@),
            !r.1 && r.0 < self.entries@.len() ==> lex_lt(key@, self.entries@[r.0 as int].key@),
    {
        let n = self.entries.len();
        let mut i: usize = 0;
        while i < n
            invariant
                self.wf(),
                n == self.entries@.len(),
                0 <= i <= n,
                forall|j: int| 0 <= j < i ==> lex_lt((#[trigger] self.entries@[j]).key@, key@),
            decreases n - i,
        {
            match compare_bytes(self.entries[i].key.as_slice(), key) {
                KeyOrder::Less => {
                    i += 1;
                },
                KeyOrder::Equal => {
                    return (i, true);
                },
                KeyOrder::Greater => {
                    proof {
                        lemma_lex_irreflexive(key@);
                        assert forall|j: int|
                            0 <= j < self.entries@.len() implies (
                        #[trigger] self.entries@[j]).key@ != key@ by {
                            if self.entries@[j].key@ == key@ {
                                if j < i {
                                    assert(lex_lt(self.entries@[j].key@, key@));
                                } else if j == i {
                                    assert(lex_lt(key@, self.entries@[j].key@));
                                } else {
                                    assert(lex_lt(
                                        self.entries@[i as int].key@,
                                        self.entries@[j].key@,
                                    ));
                                    lemma_lex_transitive(
                                        key@,
                                        self.entries@[i as int].key@,
                                        self.entries@[j].key@,
                                    );
                                }
                            }
                        }
                        lemma_entries_map_absent(self.entries@, key@);
                    }
                    return (i, false);
                },
            }
        }
        proof {
            lemma_lex_irreflexive(key@);
            assert forall|j: int|
                0 <= j < self.entries@.len() implies (#[trigger] self.entries@[j]).key@
                != key@ by {
                if self.entries@[j].key@ == key@ {
                    assert(lex_lt(self.entries@[j].key@, key@));
                }
            }
            lemma_entries_map_absent(self.entries@, key@);
        }
        (i, false)
    }

    /// The stored location of `key`'s most recent live value, if any.
    pub fn lookup(&self, key: &[u8]) -> (r: Option<(u64, u32)>)
        requires
            self.wf(),
        ensures
            match r {
                Some(loc) => self@.contains_key(key@) && self@[key@] == loc,
                None => !self@.contains_key(key@),
            },
    {
        let (i, found) = self.position_of(key);
        if found {
            proof {
                lemma_entries_map_index(self.entries@, i as int);
            }
            let e = &self.entries[i];
            Some((e.value_pos, e.value_len))
        } else {
            None
        }
    }

    /// Install `key -> (value_pos, value_len)` at its rank in the key order,
    /// overwriting any prior entry for the key.
    pub fn insert(&mut self, key: Vec<u8>, value_pos: u64, value_len: u32)
        requires
            old(self).wf(),
        ensures
            final(self).wf(),
            final(self)@ == old(self)@.insert(key@, (value_pos, value_len)),
            entries_size(final(self).entries@) <= entries_size(old(self).entries@) + 8
                + key@.len() + value_len,
            forall|i: int|
                0 <= i < final(self).entries@.len() ==> {
                    let e = #[trigger] final(self).entries@[i];
                    (e.key@ == key@ && e.value_pos == value_pos && e.value_len == value_len)
                        || old(self).entries@.contains(e)
                },
    {
        let (i, found) = self.position_of(key.as_slice());
        let e = Entry { key, value_pos, value_len };
        if found {
            proof {
                lemma_entries_map_update(self.entries@, i as int, e);
                assert(self.entries@[i as int].size() >= 8);
                assert forall|p: int, q: int|
                    0 <= p < q < self.entries@.update(i as int, e).len() implies lex_lt(
                    self.entries@.update(i as int, e)[p].key@,
                    self.entries@.update(i as int, e)[q].key@,
                ) by {
                    assert(lex_lt(self.entries@[p].key@, self.entries@[q].key@));
                }
            }
            self.entries[i] = e;
            proof {
                lemma_sorted_unique(self.entries@);
                assert(forall|j: int|
                    0 <= j < self.entries@.len() && j != i ==> old(self).entries@.contains(
                        #[trigger] self.entries@[j],
                    ));
            }
        } else {
            proof {
                lemma_lex_irreflexive(e.key@);
                assert forall|j: int|
                    0 <= j < self.entries@.len() implies (#[trigger] self.entries@[j]).key@
                    != e.key@ by {
                    if self.entries@[j].key@ == e.key@ {
                        if j < i {
                            assert(lex_lt(self.entries@[j].key@, e.key@));
                        } else if j == i as int {
                            assert(lex_lt(e.key@, self.entries@[j].key@));
                        } else {
                            assert(lex_lt(self.entries@[i as int].key@, self.entries@[j].key@));
                            lemma_lex_transitive(
                                e.key@,
                                self.entries@[i as int].key@,
                                self.entries@[j].key@,
                            );
                        }
                    }
                }
                lemma_entries_map_insert_at(self.entries@, i as int, e);
                let s2 = self.entries@.insert(i as int, e);
                assert forall|p: int, q: int| 0 <= p < q < s2.len() implies lex_lt(
                    s2[p].key@,
                    s2[q].key@,
                ) by {
                    let n = self.entries@.len() as int;
                    if q < i {
                        assert(s2[p] == self.entries@[p] && s2[q] == self.entries@[q]);
                    } else if p < i && q == i {
                        assert(s2[p] == self.entries@[p]);
                        assert(lex_lt(self.entries@[p].key@, e.key@));
                    } else if p < i && q > i {
                        assert(s2[p] == self.entries@[p] && s2[q] == self.entries@[q - 1]);
                        if q - 1 == i {
                            assert(lex_lt(self.entries@[p].key@, e.key@));
                            assert(lex_lt(e.key@, self.entries@[i as int].key@));
                            lemma_lex_transitive(
                                self.entries@[p].key@,
                                e.key@,
                                self.entries@[i as int].key@,
                            );
                        } else {
                            assert(lex_lt(self.entries@[p].key@, self.entries@[q - 1].key@));
                        }
                    } else if p == i {
                        assert(s2[q] == self.entries@[q - 1]);
                        assert(i as int <= q - 1 < n);
                        if q - 1 == i {
                            assert(lex_lt(e.key@, self.entries@[i as int].key@));
                        } else {
                            assert(lex_lt(e.key@, self.entries@[i as int].key@));
                            assert(lex_lt(
                                self.entries@[i as int].key@,
                                self.entries@[q - 1].key@,
                            ));
                            lemma_lex_transitive(
                                e.key@,
                                self.entries@[i as int].key@,
                                self.entries@[q - 1].key@,
                            );
                        }
                    } else {
                        assert(s2[p] == self.entries@[p - 1] && s2[q] == self.entries@[q - 1]);
                        assert(lex_lt(self.entries@[p - 1].key@, self.entries@[q - 1].key@));
                    }
                }
            }
            self.entries.insert(i, e);
            proof {
                lemma_sorted_unique(self.entries@);
                assert forall|j: int|
                    0 <= j < self.entries@.len() && j != i implies old(self).entries@.contains(
                    #[trigger] self.entries@[j],
                ) by {
                    if j < i {
                        assert(self.entries@[j] == old(self).entries@[j]);
                    } else {
                        assert(self.entries@[j] == old(self).entries@[j - 1]);
                    }
                }
            }
        }
    }

    /// Drop `key`'s entry if present; a miss leaves the index unchanged.
    pub fn remove(&mut self, key: &[u8])
        requires
            old(self).wf(),
        ensures
            final(self).wf(),
            final(self)@ == old(self)@.remove(key@),
            entries_size(final(self).entries@) <= entries_size(old(self).entries@),
            forall|i: int|
                0 <= i < final(self).entries@.len() ==> old(self).entries@.contains(
                    #[trigger] final(self).entries@[i],
                ),
    {
        let (i, found) = self.position_of(key);
        if found {
            proof {
                lemma_entries_map_remove(self.entries@, i as int);
                assert(self.entries@[i as int].size() >= 8);
                let s2 = self.entries@.remove(i as int);
                assert forall|p: int, q: int| 0 <= p < q < s2.len() implies lex_lt(
                    s2[p].key@,
                    s2[q].key@,
                ) by {
                    let p0 = if p < i { p } else { p + 1 };
                    let q0 = if q < i { q } else { q + 1 };
                    assert(s2[p] == self.entries@[p0] && s2[q] == self.entries@[q0]);
                    assert(lex_lt(self.entries@[p0].key@, self.entries@[q0].key@));
                }
                assert(forall|j: int|
                    0 <= j < s2.len() ==> self.entries@.contains(#[trigger] s2[j]));
            }
            self.entries.remove(i);
            proof {
                lemma_sorted_unique(self.entries@);
            }
        } else {
            proof {
                assert(self@ =~= old(self)@.remove(key@));
                assert(forall|j: int|
                    0 <= j < self.entries@.len() ==> self.entries@.contains(
                        #[trigger] self.entries@[j],
                    ));
            }
        }
    }
}

} // verus!
