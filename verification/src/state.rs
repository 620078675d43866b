//! Per-block key/value state snapshots.

use vstd::prelude::*;

verus! {

/// The mathematical map described by an association list of key/value byte
/// vectors, a later entry for a key overriding an earlier one.
pub open spec fn entries_map(s: Seq<(Vec<u8>, Vec<u8>)>) -> Map<Seq<u8>, Seq<u8>>
    decreases s.len(),
{
    if s.len() == 0 {
        Map::empty()
    } else {
        entries_map(s.drop_last()).insert(s.last().0@, s.last().1@)
    }
}

/// No two entries of the association list carry the same key.
pub open spec fn distinct_keys(s: Seq<(Vec<u8>, Vec<u8>)>) -> bool {
    forall|i: int, j: int| 0 <= i < j < s.len() ==> s[i].0@ != s[j].0@
}

proof fn lemma_entries_map_props(s: Seq<(Vec<u8>, Vec<u8>)>)
    requires
        distinct_keys(s),
    ensures
        forall|k: Seq<u8>| #[trigger] entries_map(s).contains_key(k) ==> exists|i: int|
            0 <= i < s.len() && s[i].0@ == k,
        forall|i: int| 0 <= i < s.len() ==> entries_map(s).contains_key(#[trigger] (s[i].0@))
            && entries_map(s)[s[i].0@] == s[i].1@,
    decreases s.len(),
{
    if s.len() > 0 {
        let d = s.drop_last();
        assert forall|i: int, j: int| 0 <= i < j < d.len() implies d[i].0@ != d[j].0@ by {
            assert(s[i] == d[i] && s[j] == d[j]);
        }
        lemma_entries_map_props(d);
        let last = s.len() - 1;
        assert forall|i: int| 0 <= i < s.len() implies entries_map(s).contains_key(
            #[trigger] (s[i].0@),
        ) && entries_map(s)[s[i].0@] == s[i].1@ by {
            if i < last {
                assert(d[i] == s[i]);
                assert(s[i].0@ != s[last].0@);
            }
        }
        assert forall|k: Seq<u8>| #[trigger] entries_map(s).contains_key(k) implies exists|i: int|
            0 <= i < s.len() && s[i].0@ == k by {
            if k != s.last().0@ {
                assert(entries_map(d).contains_key(k));
                let i = choose|i: int| 0 <= i < d.len() && d[i].0@ == k;
                assert(s[i].0@ == k);
            } else {
                assert(s[last].0@ == k);
            }
        }
    }
}

proof fn lemma_entries_map_push(s: Seq<(Vec<u8>, Vec<u8>)>, e: (Vec<u8>, Vec<u8>))
    requires
        distinct_keys(s),
        forall|i: int| 0 <= i < s.len() ==> s[i].0@ != e.0@,
    ensures
        distinct_keys(s.push(e)),
        entries_map(s.push(e)) == entries_map(s).insert(e.0@, e.1@),
{
    let p = s.push(e);
    assert(p.drop_last() =~= s);
    assert(p.last() == e);
}

proof fn lemma_entries_map_remove(s: Seq<(Vec<u8>, Vec<u8>)>, i: int)
    requires
        distinct_keys(s),
        0 <= i < s.len(),
    ensures
        distinct_keys(s.remove(i)),
        entries_map(s.remove(i)) == entries_map(s).remove(s[i].0@),
    decreases s.len(),
{
    let r = s.remove(i);
    assert forall|x: int, y: int| 0 <= x < y < r.len() implies r[x].0@ != r[y].0@ by {
        let xs = if x < i { x } else { x + 1 };
        let ys = if y < i { y } else { y + 1 };
        assert(r[x] == s[xs] && r[y] == s[ys]);
    }
    lemma_entries_map_props(s);
    if i == s.len() - 1 {
        assert(r =~= s.drop_last());
        assert forall|j: int| 0 <= j < r.len() implies r[j].0@ != s[i].0@ by {
            assert(r[j] == s[j]);
        }
        lemma_entries_map_props(r);
        assert(!entries_map(r).contains_key(s[i].0@));
        assert(entries_map(r) =~= entries_map(r).insert(s[i].0@, s[i].1@).remove(s[i].0@));
    } else {
        let d = s.drop_last();
        assert forall|x: int, y: int| 0 <= x < y < d.len() implies d[x].0@ != d[y].0@ by {
            assert(s[x] == d[x] && s[y] == d[y]);
        }
        assert(d[i] == s[i]);
        lemma_entries_map_remove(d, i);
        assert(r.drop_last() =~= d.remove(i));
        assert(r.last() == s.last());
        assert(s[i].0@ != s.last().0@);
        assert(entries_map(r) == entries_map(d).remove(s[i].0@).insert(s.last().0@, s.last().1@));
        assert(entries_map(d).remove(s[i].0@).insert(s.last().0@, s.last().1@) =~= entries_map(
            d,
        ).insert(s.last().0@, s.last().1@).remove(s[i].0@));
    }
}

proof fn lemma_entries_map_congruent(s1: Seq<(Vec<u8>, Vec<u8>)>, s2: Seq<(Vec<u8>, Vec<u8>)>)
    requires
        s1.len() == s2.len(),
        forall|i: int| 0 <= i < s1.len() ==> s1[i].0@ == s2[i].0@ && s1[i].1@ == s2[i].1@,
    ensures
        entries_map(s1) == entries_map(s2),
    decreases s1.len(),
{
    if s1.len() > 0 {
        let d1 = s1.drop_last();
        let d2 = s2.drop_last();
        assert forall|i: int| 0 <= i < d1.len() implies d1[i].0@ == d2[i].0@ && d1[i].1@
            == d2[i].1@ by {
            assert(d1[i] == s1[i] && d2[i] == s2[i]);
        }
        lemma_entries_map_congruent(d1, d2);
    }
}

/// Compares two byte strings for equality.
fn bytes_eq(a: &[u8], b: &[u8]) -> (r: bool)
    ensures
        r <==> a@ == b@,
{
    if a.len() != b.len() {
        return false;
    }
    let n = a.len();
    let mut i: usize = 0;
    while i < n
        invariant
            n == a@.len() == b@.len(),
            i <= n,
            forall|j: int| 0 <= j < i ==> a@[j] == b@[j],
        decreases n - i,
    {
        if a[i] != b[i] {
            return false;
        }
        i += 1;
    }
    assert(a@ =~= b@);
    true
}

/// Copies a byte vector.
fn clone_bytes(v: &Vec<u8>) -> (r: Vec<u8>)
    ensures
        r@ == v@,
{
    let mut r: Vec<u8> = Vec::new();
    let n = v.len();
    let mut i: usize = 0;
    while i < n
        invariant
            n == v@.len(),
            i <= n,
            r@ == v@.take(i as int),
        decreases n - i,
    {
        r.push(v[i]);
        assert(r@ =~= v@.take(i + 1 as int));
        i += 1;
    }
    assert(r@ =~= v@);
    r
}

/// A state snapshot: an owned mapping from byte-sequence keys to
/// byte-sequence values, representing world state as of one block.
pub struct MemoryState {
    entries: Vec<(Vec<u8>, Vec<u8>)>,
}

impl View for MemoryState {
    type V = Map<Seq<u8>, Seq<u8>>;

    closed spec fn view(&self) -> Map<Seq<u8>, Seq<u8>> {
        entries_map(self.entries@)
    }
}

impl MemoryState {
    /// The snapshot's representation stores each key at most once.
    pub closed spec fn inv(&self) -> bool {
        distinct_keys(self.entries@)
    }

    /// Creates an empty snapshot.
    pub fn new() -> (r: Self)
        ensures
            r.inv(),
            r@ == Map::<Seq<u8>, Seq<u8>>::empty(),
    {
        MemoryState { entries: Vec::new() }
    }

    /// Position of the entry holding `key`, if any.
    fn find(&self, key: &[u8]) -> (r: Option<usize>)
        requires
            self.inv(),
        ensures
            match r {
                Some(i) => i < self.entries@.len() && self.entries@[i as int].0@ == key@,
                None => !self@.contains_key(key@),
            },
    {
        let n = self.entries.len();
        let mut i: usize = 0;
        while i < n
            invariant
                self.inv(),
                n == self.entries@.len(),
                i <= n,
                forall|j: int| 0 <= j < i ==> self.entries@[j].0@ != key@,
            decreases n - i,
        {
            if bytes_eq(self.entries[i].0.as_slice(), key) {
                return Some(i);
            }
            i += 1;
        }
        proof {
            lemma_entries_map_props(self.entries@);
        }
        None
    }

    /// Reads the value stored under `key`, or `None` when the key is absent.
    pub fn read_storage(&self, key: &[u8]) -> (r: Option<Vec<u8>>)
        requires
            self.inv(),
        ensures
            self@.contains_key(key@) ==> (r matches Some(v) && v@ == self@[key@]),
            !self@.contains_key(key@) ==> r is None,
    {
        proof {
            lemma_entries_map_props(self.entries@);
        }
        match self.find(key) {
            Some(i) => Some(clone_bytes(&self.entries[i].1)),
            None => None,
        }
    }

    /// Stores `value` under `key`, replacing any previous value.
    pub fn write_storage(&mut self, key: Vec<u8>, value: Vec<u8>)
        requires
            old(self).inv(),
        ensures
            final(self).inv(),
            final(self)@ == old(self)@.insert(key@, value@),
    {
        let ghost s0 = self.entries@;
        match self.find(key.as_slice()) {
            Some(i) => {
                proof {
                    lemma_entries_map_remove(s0, i as int);
                }
                self.entries.remove(i);
                let ghost s1 = self.entries@;
                proof {
                    assert forall|j: int| 0 <= j < s1.len() implies s1[j].0@ != key@ by {
                        let js = if j < i { j } else { j + 1 };
                        assert(s1[j] == s0[js]);
                    }
                    lemma_entries_map_push(s1, (key, value));
                }
                self.entries.push((key, value));
                proof {
                    assert(final(self)@ =~= old(self)@.insert(key@, value@));
                }
            },
            None => {
                proof {
                    lemma_entries_map_props(s0);
                    assert forall|j: int| 0 <= j < s0.len() implies s0[j].0@ != key@ by {}
                    lemma_entries_map_push(s0, (key, value));
                }
                self.entries.push((key, value));
            },
        }
    }

    /// Removes the entry stored under `key`, if any.
    pub fn remove_storage(&mut self, key: &[u8])
        requires
            old(self).inv(),
        ensures
            final(self).inv(),
            final(self)@ == old(self)@.remove(key@),
    {
        let ghost s0 = self.entries@;
        match self.find(key) {
            Some(i) => {
                proof {
                    lemma_entries_map_remove(s0, i as int);
                }
                self.entries.remove(i);
            },
            None => {
                proof {
                    assert(old(self)@ =~= old(self)@.remove(key@));
                }
            },
        }
    }
}

impl Clone for MemoryState {
    /// Yields an independent copy: the two snapshots never share storage.
    fn clone(&self) -> (r: Self)
        ensures
            r@ == self@,
            self.inv() ==> r.inv(),
    {
        let mut entries: Vec<(Vec<u8>, Vec<u8>)> = Vec::new();
        let n = self.entries.len();
        let mut i: usize = 0;
        while i < n
            invariant
                n == self.entries@.len(),
                i <= n,
                entries@.len() == i,
                forall|j: int| 0 <= j < i ==> entries@[j].0@ == self.entries@[j].0@
                    && entries@[j].1@ == self.entries@[j].1@,
            decreases n - i,
        {
            let k = clone_bytes(&self.entries[i].0);
            let v = clone_bytes(&self.entries[i].1);
            entries.push((k, v));
            i += 1;
        }
        proof {
            lemma_entries_map_congruent(entries@, self.entries@);
        }
        MemoryState { entries }
    }
}


/// The empty capability: an execution context that may not touch state at
/// all still accepts any snapshot.
pub trait NullExternalities {

}

/// The read/write capability view of a state snapshot: what a storage-using
/// execution context demands. Mutations are immediate and unconditional.
pub trait StorageExternalities {
    /// The snapshot seen as a mathematical map.
    spec fn storage_view(&self) -> Map<Seq<u8>, Seq<u8>>;

    /// The snapshot's representation invariant.
    spec fn storage_inv(&self) -> bool;

    /// Reads the value stored under `key`.
    fn read_storage(&self, key: &[u8]) -> (r: Option<Vec<u8>>)
        requires
            self.storage_inv(),
        ensures
            self.storage_view().contains_key(key@) ==> (r matches Some(v) && v@
                == self.storage_view()[key@]),
            !self.storage_view().contains_key(key@) ==> r is None,
    ;

    /// Stores `value` under `key`.
    fn write_storage(&mut self, key: Vec<u8>, value: Vec<u8>)
        requires
            old(self).storage_inv(),
        ensures
            final(self).storage_inv(),
            final(self).storage_view() == old(self).storage_view().insert(key@, value@),
    ;

    /// Removes the entry stored under `key`, if any.
    fn remove_storage(&mut self, key: &[u8])
        requires
            old(self).storage_inv(),
        ensures
            final(self).storage_inv(),
            final(self).storage_view() == old(self).storage_view().remove(key@),
    ;
}

impl NullExternalities for MemoryState {

}

impl StorageExternalities for MemoryState {
    open spec fn storage_view(&self) -> Map<Seq<u8>, Seq<u8>> {
        self@
    }

    open spec fn storage_inv(&self) -> bool {
        self.inv()
    }

    fn read_storage(&self, key: &[u8]) -> (r: Option<Vec<u8>>) {
        MemoryState::read_storage(self, key)
    }

    fn write_storage(&mut self, key: Vec<u8>, value: Vec<u8>) {
        MemoryState::write_storage(self, key, value)
    }

    fn remove_storage(&mut self, key: &[u8]) {
        MemoryState::remove_storage(self, key)
    }
}

} // verus!
