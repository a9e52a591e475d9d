use core::cmp::Ordering;

use vstd::prelude::*;

verus! {

/// Where one serialised command lies: its generation file, its byte offset in
/// that file and its length in bytes.
#[derive(Clone, Copy, Debug, PartialEq, Eq, Structural)]
pub struct CommandPos {
    pub gen: u64,
    pub pos: u64,
    pub len: u64,
}

impl CommandPos {
    /// The location of the bytes `start..end` of generation `gen`.
    pub fn from_range(gen: u64, start: u64, end: u64) -> (p: CommandPos)
        requires
            start <= end,
        ensures
            p == (CommandPos { gen, pos: start, len: (end - start) as u64 }),
    {
        CommandPos { gen, pos: start, len: end - start }
    }
}

/// The order of keys: lexicographic, character by character, by code point.
pub open spec fn key_cmp(a: Seq<char>, b: Seq<char>) -> Ordering
    decreases a.len(),
{
    if a.len() == 0 {
        if b.len() == 0 {
            Ordering::Equal
        } else {
            Ordering::Less
        }
    } else if b.len() == 0 {
        Ordering::Greater
    } else if (a[0] as int) < (b[0] as int) {
        Ordering::Less
    } else if (a[0] as int) > (b[0] as int) {
        Ordering::Greater
    } else {
        key_cmp(a.drop_first(), b.drop_first())
    }
}

/// Relies on `Ord for String`: strings are ordered lexicographically by
/// their bytes, which orders them by the code points of their characters.
#[verifier::external_body]
fn compare_keys(a: &String, b: &String) -> (r: Ordering)
    ensures
        r == key_cmp(a@, b@),
{
    a.cmp(b)
}

proof fn lemma_key_cmp_equal(a: Seq<char>, b: Seq<char>)
    ensures
        key_cmp(a, b) == Ordering::Equal <==> a == b,
    decreases a.len(),
{
    if a.len() > 0 && b.len() > 0 {
        lemma_key_cmp_equal(a.drop_first(), b.drop_first());
        if a[0] as int == b[0] as int {
            assert(a[0] == b[0]);
        }
        if a.drop_first() == b.drop_first() && a[0] == b[0] {
            assert(a =~= seq![a[0]] + a.drop_first());
            assert(b =~= seq![b[0]] + b.drop_first());
        }
        if a == b {
            assert(a.drop_first() == b.drop_first());
        }
    } else if a.len() == 0 && b.len() == 0 {
        assert(a =~= b);
    }
}

proof fn lemma_key_cmp_flip(a: Seq<char>, b: Seq<char>)
    ensures
        key_cmp(a, b) == Ordering::Greater <==> key_cmp(b, a) == Ordering::Less,
    decreases a.len(),
{
    if a.len() > 0 && b.len() > 0 {
        lemma_key_cmp_flip(a.drop_first(), b.drop_first());
    }
}

proof fn lemma_key_cmp_trans(a: Seq<char>, b: Seq<char>, c: Seq<char>)
    requires
        key_cmp(a, b) == Ordering::Less,
        key_cmp(b, c) == Ordering::Less,
    ensures
        key_cmp(a, c) == Ordering::Less,
    decreases a.len(),
{
    if a.len() > 0 && b.len() > 0 && c.len() > 0 {
        if a[0] as int == b[0] as int && b[0] as int == c[0] as int {
            lemma_key_cmp_trans(a.drop_first(), b.drop_first(), c.drop_first());
        }
    }
}

/// The bytes of all the records that `es` points at.
pub open spec fn total_len(es: Seq<Entry>) -> int
    decreases es.len(),
{
    if es.len() == 0 {
        0
    } else {
        total_len(es.drop_last()) + es.last().pos.len
    }
}

proof fn lemma_total_insert(s: Seq<Entry>, p: int, e: Entry)
    requires
        0 <= p <= s.len(),
    ensures
        total_len(s.insert(p, e)) == total_len(s) + e.pos.len,
    decreases s.len(),
{
    if p == s.len() {
        assert(s.insert(p, e).drop_last() =~= s);
    } else {
        lemma_total_insert(s.drop_last(), p, e);
        assert(s.insert(p, e).drop_last() =~= s.drop_last().insert(p, e));
    }
}

proof fn lemma_total_remove(s: Seq<Entry>, i: int)
    requires
        0 <= i < s.len(),
    ensures
        total_len(s.remove(i)) == total_len(s) - s[i].pos.len,
    decreases s.len(),
{
    if i == s.len() - 1 {
        assert(s.remove(i) =~= s.drop_last());
    } else {
        lemma_total_remove(s.drop_last(), i);
        assert(s.remove(i).drop_last() =~= s.drop_last().remove(i));
    }
}

proof fn lemma_total_update(s: Seq<Entry>, i: int, e: Entry)
    requires
        0 <= i < s.len(),
    ensures
        total_len(s.update(i, e)) == total_len(s) - s[i].pos.len + e.pos.len,
    decreases s.len(),
{
    if i == s.len() - 1 {
        assert(s.update(i, e).drop_last() =~= s.drop_last());
    } else {
        lemma_total_update(s.drop_last(), i, e);
        assert(s.update(i, e).drop_last() =~= s.drop_last().update(i, e));
    }
}

/// Entries with the same lengths, one for one, point at as many bytes.
pub proof fn lemma_total_same_lens(a: Seq<Entry>, b: Seq<Entry>)
    requires
        a.len() == b.len(),
        forall|i: int| 0 <= i < a.len() ==> (#[trigger] a[i]).pos.len == b[i].pos.len,
    ensures
        total_len(a) == total_len(b),
    decreases a.len(),
{
    if a.len() > 0 {
        lemma_total_same_lens(a.drop_last(), b.drop_last());
    }
}

/// One entry of the index: a live key and the location of its latest `Set`.
#[derive(Clone, Debug)]
pub struct Entry {
    pub key: String,
    pub pos: CommandPos,
}

/// The in-memory index: one entry per live key, in key order.
pub struct Index {
    entries: Vec<Entry>,
    map: Ghost<Map<Seq<char>, CommandPos>>,
}

impl Index {
    /// The index as a map from key to location.
    pub closed spec fn view(&self) -> Map<Seq<char>, CommandPos> {
        self.map@
    }

    /// The entries in index order.
    pub closed spec fn entries(&self) -> Seq<Entry> {
        self.entries@
    }

    pub closed spec fn wf(&self) -> bool {
        &&& forall|i: int, j: int|
            0 <= i < j < self.entries@.len() ==> key_cmp(
                #[trigger] self.entries@[i].key@,
                #[trigger] self.entries@[j].key@,
            ) == Ordering::Less
        &&& forall|i: int, j: int|
            0 <= i < j < self.entries@.len() ==> #[trigger] self.entries@[i].key@
                != #[trigger] self.entries@[j].key@
        &&& forall|i: int|
            0 <= i < self.entries@.len() ==> self.map@.contains_key(
                #[trigger] self.entries@[i].key@,
            ) && self.map@[self.entries@[i].key@] == self.entries@[i].pos
        &&& forall|k: Seq<char>|
            #[trigger] self.map@.contains_key(k) ==> exists|i: int|
                0 <= i < self.entries@.len() && (#[trigger] self.entries@[i].key@) == k
    }

    /// Each entry is the map's value at its key, and the entries cover the map.
    pub proof fn lemma_entries(&self)
        requires
            self.wf(),
        ensures
            self.entries().len() == self@.dom().len(),
            forall|i: int|
                0 <= i < self.entries().len() ==> self@.contains_key(
                    #[trigger] self.entries()[i].key@,
                ) && self@[self.entries()[i].key@] == self.entries()[i].pos,
            forall|k: Seq<char>|
                #[trigger] self@.contains_key(k) ==> exists|i: int|
                    0 <= i < self.entries().len() && (#[trigger] self.entries()[i].key@) == k,
            forall|i: int, j: int|
                0 <= i < j < self.entries().len() ==> #[trigger] self.entries()[i].key@
                    != #[trigger] self.entries()[j].key@,
            forall|i: int, j: int|
                0 <= i < j < self.entries().len() ==> key_cmp(
                    #[trigger] self.entries()[i].key@,
                    #[trigger] self.entries()[j].key@,
                ) == Ordering::Less,
    {
        let keys = self.entries@.map_values(|e: Entry| e.key@);
        assert forall|i: int, j: int| 0 <= i < j < keys.len() implies keys[i] != keys[j] by {
            assert(self.entries@[i].key@ != self.entries@[j].key@);
        }
        assert(keys.no_duplicates());
        keys.unique_seq_to_set();
        assert(keys.to_set() =~= self.map@.dom()) by {
            assert forall|k: Seq<char>| keys.to_set().contains(k) implies self.map@.contains_key(
                k,
            ) by {
                let i = choose|i: int| 0 <= i < keys.len() && keys[i] == k;
                assert(self.map@.contains_key(self.entries@[i].key@));
            }
            assert forall|k: Seq<char>| self.map@.contains_key(k) implies keys.to_set().contains(
                k,
            ) by {
                let i = choose|i: int|
                    0 <= i < self.entries@.len() && (#[trigger] self.entries@[i].key@) == k;
                assert(keys[i] == k);
            }
        }
    }

    pub fn new() -> (idx: Index)
        ensures
            idx.wf(),
            idx@ == Map::<Seq<char>, CommandPos>::empty(),
            idx.entries().len() == 0,
    {
        Index { entries: Vec::new(), map: Ghost(Map::empty()) }
    }

    /// The number of live keys.
    pub fn len(&self) -> (n: usize)
        ensures
            n == self.entries().len(),
    {
        self.entries.len()
    }

    /// The entry at position `i` in index order.
    pub fn entry(&self, i: usize) -> (e: &Entry)
        requires
            i < self.entries().len(),
        ensures
            *e == self.entries()[i as int],
    {
        &self.entries[i]
    }

    /// Where `key` stands, or where it would be inserted to keep key order.
    fn find(&self, key: &String) -> (r: core::result::Result<usize, usize>)
        requires
            self.wf(),
        ensures
            match r {
                Ok(i) => i < self.entries@.len() && self.entries@[i as int].key@ == key@,
                Err(p) => {
                    &&& p <= self.entries@.len()
                    &&& !self.map@.contains_key(key@)
                    &&& forall|j: int|
                        0 <= j < p ==> key_cmp(#[trigger] self.entries@[j].key@, key@)
                            == Ordering::Less
                    &&& forall|j: int|
                        p <= j < self.entries@.len() ==> key_cmp(
                            key@,
                            #[trigger] self.entries@[j].key@,
                        ) == Ordering::Less
                },
            },
    {
        let mut i: usize = 0;
        while i < self.entries.len()
            invariant
                self.wf(),
                i <= self.entries@.len(),
                forall|j: int|
                    0 <= j < i ==> key_cmp(#[trigger] self.entries@[j].key@, key@)
                        == Ordering::Less,
            decreases self.entries@.len() - i,
        {
            match compare_keys(key, &self.entries[i].key) {
                Ordering::Equal => {
                    proof {
                        lemma_key_cmp_equal(key@, self.entries@[i as int].key@);
                    }
                    return Ok(i);
                },
                Ordering::Less => {
                    proof {
                        let e = self.entries@;
                        assert forall|j: int| i <= j < e.len() implies key_cmp(
                            key@,
                            #[trigger] e[j].key@,
                        ) == Ordering::Less by {
                            if j > i {
                                lemma_key_cmp_trans(key@, e[i as int].key@, e[j].key@);
                            }
                        }
                        self.lemma_absent(key@, i as int);
                    }
                    return Err(i);
                },
                Ordering::Greater => {
                    proof {
                        lemma_key_cmp_flip(key@, self.entries@[i as int].key@);
                    }
                    i = i + 1;
                },
            }
        }
        proof {
            self.lemma_absent(key@, i as int);
        }
        Err(i)
    }

    /// A key that sorts after the first `p` entries and before the rest is
    /// not in the index.
    proof fn lemma_absent(&self, key: Seq<char>, p: int)
        requires
            self.wf(),
            0 <= p <= self.entries@.len(),
            forall|j: int|
                0 <= j < p ==> key_cmp(#[trigger] self.entries@[j].key@, key) == Ordering::Less,
            forall|j: int|
                p <= j < self.entries@.len() ==> key_cmp(key, #[trigger] self.entries@[j].key@)
                    == Ordering::Less,
        ensures
            !self.map@.contains_key(key),
    {
        if self.map@.contains_key(key) {
            let j = choose|j: int|
                0 <= j < self.entries@.len() && (#[trigger] self.entries@[j].key@) == key;
            lemma_key_cmp_equal(key, key);
            if j < p {
                assert(key_cmp(self.entries@[j].key@, key) == Ordering::Less);
            } else {
                assert(key_cmp(key, self.entries@[j].key@) == Ordering::Less);
            }
        }
    }

    /// The location of `key`, if it is live.
    pub fn get(&self, key: &String) -> (r: Option<CommandPos>)
        requires
            self.wf(),
        ensures
            r == (if self@.contains_key(key@) {
                Some(self@[key@])
            } else {
                None::<CommandPos>
            }),
    {
        match self.find(key) {
            Ok(i) => Some(self.entries[i].pos),
            Err(_) => None,
        }
    }

    pub fn contains_key(&self, key: &String) -> (r: bool)
        requires
            self.wf(),
        ensures
            r == self@.contains_key(key@),
    {
        self.find(key).is_ok()
    }

    /// Points `key` at `pos` and hands back its previous location.
    pub fn insert(&mut self, key: String, pos: CommandPos) -> (r: Option<CommandPos>)
        requires
            old(self).wf(),
        ensures
            final(self).wf(),
            final(self)@ == old(self)@.insert(key@, pos),
            r == (if old(self)@.contains_key(key@) {
                Some(old(self)@[key@])
            } else {
                None::<CommandPos>
            }),
            old(self)@.contains_key(key@) ==> final(self).entries().len()
                == old(self).entries().len(),
            total_len(final(self).entries()) == total_len(old(self).entries()) + pos.len - (
            if old(self)@.contains_key(key@) {
                old(self)@[key@].len as int
            } else {
                0
            }),
    {
        match self.find(&key) {
            Ok(i) => {
                let prev = self.entries[i].pos;
                proof {
                    self.map@ = self.map@.insert(key@, pos);
                }
                let ghost o = self.entries@;
                self.entries.set(i, Entry { key, pos });
                proof {
                    lemma_total_update(o, i as int, self.entries@[i as int]);
                }
                assert forall|k: Seq<char>| #[trigger] self.map@.contains_key(k) implies exists|
                    j: int,
                |
                    0 <= j < self.entries@.len() && (#[trigger] self.entries@[j].key@) == k by {
                    if k != self.entries@[i as int].key@ {
                        let j = choose|j: int|
                            0 <= j < old(self).entries@.len() && (#[trigger] old(
                                self,
                            ).entries@[j].key@) == k;
                        assert(self.entries@[j].key@ == k);
                    } else {
                        assert(self.entries@[i as int].key@ == k);
                    }
                }
                Some(prev)
            },
            Err(p) => {
                let ghost o = self.entries@;
                proof {
                    self.map@ = self.map@.insert(key@, pos);
                }
                self.entries.insert(p, Entry { key, pos });
                proof {
                    let e = self.entries@;
                    lemma_total_insert(o, p as int, e[p as int]);
                    let k0 = e[p as int].key@;
                    assert forall|a: int|
                        0 <= a < e.len() implies #[trigger] e[a] == (if a < p {
                        o[a]
                    } else if a == p {
                        e[p as int]
                    } else {
                        o[a - 1]
                    }) by {}
                    assert forall|a: int, b: int|
                        0 <= a < b < e.len() implies key_cmp(
                        #[trigger] e[a].key@,
                        #[trigger] e[b].key@,
                    ) == Ordering::Less by {
                        if a < p && b == p {
                            assert(key_cmp(o[a].key@, k0) == Ordering::Less);
                        } else if a == p {
                            assert(key_cmp(k0, o[b - 1].key@) == Ordering::Less);
                        } else {
                            let a2 = if a < p { a } else { a - 1 };
                            let b2 = if b < p { b } else { b - 1 };
                            assert(key_cmp(o[a2].key@, o[b2].key@) == Ordering::Less);
                        }
                    }
                    assert forall|a: int, b: int|
                        0 <= a < b < e.len() implies #[trigger] e[a].key@ != #[trigger] e[b].key@ by {
                        assert(key_cmp(e[a].key@, e[b].key@) == Ordering::Less);
                        lemma_key_cmp_equal(e[a].key@, e[b].key@);
                    }
                    assert forall|a: int| 0 <= a < e.len() implies self.map@.contains_key(
                        #[trigger] e[a].key@,
                    ) && self.map@[e[a].key@] == e[a].pos by {
                        if a != p {
                            let a2 = if a < p { a } else { a - 1 };
                            assert(old(self).map@.contains_key(o[a2].key@));
                        }
                    }
                    assert forall|k: Seq<char>| #[trigger] self.map@.contains_key(k) implies exists|
                        j: int,
                    |
                        0 <= j < e.len() && (#[trigger] e[j].key@) == k by {
                        if k != k0 {
                            let j = choose|j: int| 0 <= j < o.len() && (#[trigger] o[j].key@) == k;
                            if j < p {
                                assert(e[j].key@ == k);
                            } else {
                                assert(e[j + 1].key@ == k);
                            }
                        } else {
                            assert(e[p as int].key@ == k);
                        }
                    }
                }
                None
            },
        }
    }

    /// Drops `key` and hands back its location, if it was live.
    pub fn remove(&mut self, key: &String) -> (r: Option<CommandPos>)
        requires
            old(self).wf(),
        ensures
            final(self).wf(),
            final(self)@ == old(self)@.remove(key@),
            total_len(final(self).entries()) == total_len(old(self).entries()) - (if old(
                self,
            )@.contains_key(key@) {
                old(self)@[key@].len as int
            } else {
                0
            }),
            r == (if old(self)@.contains_key(key@) {
                Some(old(self)@[key@])
            } else {
                None::<CommandPos>
            }),
    {
        match self.find(key) {
            Ok(i) => {
                let e = self.entries.remove(i);
                proof {
                    self.map@ = self.map@.remove(key@);
                    let o = old(self).entries@;
                    lemma_total_remove(o, i as int);
                    assert forall|a: int|
                        0 <= a < self.entries@.len() implies #[trigger] self.entries@[a] == (if a
                        < i {
                        o[a]
                    } else {
                        o[a + 1]
                    }) by {}
                    assert forall|k: Seq<char>| #[trigger] self.map@.contains_key(k) implies exists|
                        j: int,
                    |
                        0 <= j < self.entries@.len() && (#[trigger] self.entries@[j].key@) == k by {
                        let j = choose|j: int|
                            0 <= j < o.len() && (#[trigger] o[j].key@) == k;
                        if j < i {
                            assert(self.entries@[j].key@ == k);
                        } else {
                            assert(j != i);
                            assert(self.entries@[j - 1].key@ == k);
                        }
                    }
                    assert forall|a: int, b: int|
                        0 <= a < b < self.entries@.len() implies #[trigger] self.entries@[a].key@
                        != #[trigger] self.entries@[b].key@ by {
                        let a2 = if a < i { a } else { a + 1 };
                        let b2 = if b < i { b } else { b + 1 };
                        assert(o[a2].key@ != o[b2].key@);
                    }
                    assert forall|a: int, b: int|
                        0 <= a < b < self.entries@.len() implies key_cmp(
                        #[trigger] self.entries@[a].key@,
                        #[trigger] self.entries@[b].key@,
                    ) == Ordering::Less by {
                        let a2 = if a < i { a } else { a + 1 };
                        let b2 = if b < i { b } else { b + 1 };
                        assert(key_cmp(o[a2].key@, o[b2].key@) == Ordering::Less);
                    }
                    assert forall|a: int| 0 <= a < self.entries@.len() implies self.map@.contains_key(
                        #[trigger] self.entries@[a].key@,
                    ) && self.map@[self.entries@[a].key@] == self.entries@[a].pos by {
                        let a2 = if a < i { a } else { a + 1 };
                        assert(o[a2].key@ != o[i as int].key@);
                    }
                }
                Some(e.pos)
            },
            Err(_) => {
                proof {
                    assert(self.map@.remove(key@) =~= self.map@);
                }
                None
            },
        }
    }

    /// Moves the entry at position `i` to `pos`, keeping its key.
    pub fn set_pos(&mut self, i: usize, pos: CommandPos)
        requires
            old(self).wf(),
            i < old(self).entries().len(),
        ensures
            final(self).wf(),
            final(self)@ == old(self)@.insert(old(self).entries()[i as int].key@, pos),
            final(self).entries().len() == old(self).entries().len(),
            forall|j: int|
                0 <= j < old(self).entries().len() ==> #[trigger] final(self).entries()[j].key@
                    == old(self).entries()[j].key@,
            forall|j: int|
                0 <= j < old(self).entries().len() && j != i ==> final(self).entries()[j]
                    == #[trigger] old(self).entries()[j],
            final(self).entries()[i as int].pos == pos,
            total_len(final(self).entries()) == total_len(old(self).entries())
                - old(self).entries()[i as int].pos.len + pos.len,
    {
        let key = self.entries[i].key.clone();
        proof {
            self.map@ = self.map@.insert(key@, pos);
        }
        self.entries.set(i, Entry { key, pos });
        proof {
            lemma_total_update(old(self).entries@, i as int, self.entries@[i as int]);
        }
        assert forall|k: Seq<char>| #[trigger] self.map@.contains_key(k) implies exists|j: int|
            0 <= j < self.entries@.len() && (#[trigger] self.entries@[j].key@) == k by {
            if k != self.entries@[i as int].key@ {
                let j = choose|j: int|
                    0 <= j < old(self).entries@.len() && (#[trigger] old(self).entries@[j].key@)
                        == k;
                assert(self.entries@[j].key@ == k);
            } else {
                assert(self.entries@[i as int].key@ == k);
            }
        }
    }
}

} // verus!
