//! The configuration map that parsing produces and validation reads.
use vstd::prelude::*;
use crate::types::SysctlValue;

verus! {

/// A parsed configuration: each key once, with its value.
///
/// Keys keep the order in which they were first inserted; inserting a key again
/// replaces its value in place.
#[derive(Debug)]
pub struct SysctlMap {
    keys: Vec<String>,
    values: Vec<SysctlValue>,
}

impl SysctlMap {
    /// The keys, in order of first insertion.
    pub closed spec fn key_seq(&self) -> Seq<Seq<char>> {
        self.keys@.map_values(|k: String| k@)
    }

    /// The values, position by position with `key_seq`.
    pub closed spec fn value_seq(&self) -> Seq<(Seq<char>, bool)> {
        self.values@.map_values(|v: SysctlValue| v@)
    }

    pub closed spec fn wf(&self) -> bool {
        self.keys@.len() == self.values@.len() && self.key_seq().no_duplicates()
    }

    pub open spec fn spec_len(&self) -> nat {
        self.key_seq().len()
    }

    pub proof fn lemma_lengths(&self)
        requires
            self.wf(),
        ensures
            self.key_seq().len() == self.value_seq().len(),
            self.key_seq().no_duplicates(),
    {
    }

    /// The map from each key to its value.
    pub open spec fn view(&self) -> Map<Seq<char>, (Seq<char>, bool)> {
        Map::new(
            |k: Seq<char>| self.key_seq().contains(k),
            |k: Seq<char>| self.value_seq()[self.key_seq().index_of(k)],
        )
    }

    /// An empty map.
    pub fn new() -> (r: SysctlMap)
        ensures
            r.wf(),
            r.key_seq() == Seq::<Seq<char>>::empty(),
            r@ == Map::<Seq<char>, (Seq<char>, bool)>::empty(),
    {
        let r = SysctlMap { keys: Vec::new(), values: Vec::new() };
        assert(r.key_seq() =~= Seq::<Seq<char>>::empty());
        assert(r@ =~= Map::<Seq<char>, (Seq<char>, bool)>::empty());
        r
    }

    /// The number of keys.
    pub fn len(&self) -> (r: usize)
        requires
            self.wf(),
        ensures
            r == self.spec_len(),
    {
        self.keys.len()
    }

    /// The position of `key`, if it is present.
    fn position(&self, key: &str) -> (r: Option<usize>)
        requires
            self.wf(),
        ensures
            match r {
                Some(i) => i < self.key_seq().len() && self.key_seq()[i as int] == key@,
                None => !self.key_seq().contains(key@),
            },
    {
        let mut i: usize = 0;
        while i < self.keys.len()
            invariant
                self.wf(),
                0 <= i <= self.keys@.len(),
                forall|j: int| 0 <= j < i ==> #[trigger] self.key_seq()[j] != key@,
            decreases self.keys@.len() - i,
        {
            if crate::types::text_is(self.keys[i].as_str(), key) {
                return Some(i);
            }
            i = i + 1;
        }
        None
    }

    /// The value stored for `key`.
    pub fn get(&self, key: &str) -> (r: Option<&SysctlValue>)
        requires
            self.wf(),
        ensures
            match r {
                Some(v) => self@.contains_key(key@) && self@[key@] == v@,
                None => !self@.contains_key(key@),
            },
    {
        match self.position(key) {
            Some(i) => {
                proof {
                    let ks = self.key_seq();
                    assert(ks.contains(key@));
                    assert(ks[ks.index_of(key@)] == key@);
                    assert(ks.index_of(key@) == i as int);
                }
                Some(&self.values[i])
            },
            None => None,
        }
    }

    /// Sets the value of `key`: a new key goes last, a present one keeps its place.
    pub fn insert(&mut self, key: String, value: SysctlValue)
        requires
            old(self).wf(),
        ensures
            final(self).wf(),
            final(self)@ == old(self)@.insert(key@, value@),
    {
        let ghost m0 = self@;
        match self.position(key.as_str()) {
            Some(i) => {
                self.values.set(i, value);
                proof {
                    let ks = self.key_seq();
                    assert(ks =~= old(self).key_seq());
                    assert forall|k: Seq<char>| #[trigger] ks.contains(k) implies ks.index_of(k)
                        == old(self).key_seq().index_of(k) by {}
                    assert(ks[ks.index_of(key@)] == key@);
                    assert(ks.index_of(key@) == i as int);
                    assert forall|k: Seq<char>| ks.contains(k) && k != key@ implies ks.index_of(k)
                        != i as int by {
                        assert(ks[ks.index_of(k)] == k);
                    }
                    assert(self@ =~= m0.insert(key@, value@));
                }
            },
            None => {
                self.keys.push(key);
                self.values.push(value);
                proof {
                    let ks = self.key_seq();
                    let ks0 = old(self).key_seq();
                    assert(ks =~= ks0.push(key@));
                    assert(self.value_seq() =~= old(self).value_seq().push(value@));
                    let n = ks0.len() as int;
                    assert forall|a: int, b: int| 0 <= a < b < ks.len() implies ks[a] != ks[b] by {
                        if b == n {
                            assert(ks0.contains(ks[a]));
                        }
                    }
                    assert(ks[n] == key@);
                    assert(ks.contains(key@));
                    assert(ks[ks.index_of(key@)] == key@);
                    assert(ks.index_of(key@) == n);
                    assert forall|k: Seq<char>| #[trigger] ks0.contains(k) implies ks.contains(k)
                        && self@[k] == m0[k] by {
                        let j = ks0.index_of(k);
                        assert(ks0[j] == k);
                        assert(ks[j] == k);
                        assert(ks.contains(k));
                        let i2 = ks.index_of(k);
                        assert(ks[i2] == k);
                        assert(i2 == j);
                        assert(self.value_seq()[j] == old(self).value_seq()[j]);
                    }
                    assert(self@ =~= m0.insert(key@, value@));
                }
            },
        }
    }

    /// The key at position `i`, in order of first insertion.
    pub fn key_at(&self, i: usize) -> (r: &String)
        requires
            self.wf(),
            i < self.spec_len(),
        ensures
            r@ == self.key_seq()[i as int],
    {
        &self.keys[i]
    }

    /// The value of the key at position `i`.
    pub fn value_at(&self, i: usize) -> (r: &SysctlValue)
        requires
            self.wf(),
            i < self.spec_len(),
        ensures
            r@ == self@[self.key_seq()[i as int]],
    {
        proof {
            let ks = self.key_seq();
            assert(ks.contains(ks[i as int]));
            let j = ks.index_of(ks[i as int]);
            assert(ks[j] == ks[i as int]);
        }
        &self.values[i]
    }
}

} // verus!
