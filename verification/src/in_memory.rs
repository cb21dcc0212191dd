use vstd::prelude::*;
use crate::operation::Op;

verus! {

/// No two entries of the association list hold the same key.
pub open spec fn distinct_keys(s: Seq<(String, String)>) -> bool {
    forall|i: int, j: int| 0 <= i < j < s.len() ==> (#[trigger] s[i]).0@ != (#[trigger] s[j]).0@
}

/// The map that an association list denotes; later entries win.
pub open spec fn assoc_map(s: Seq<(String, String)>) -> Map<Seq<char>, Seq<char>>
    decreases s.len(),
{
    if s.len() == 0 {
        Map::empty()
    } else {
        assoc_map(s.drop_last()).insert(s.last().0@, s.last().1@)
    }
}

/// Membership in the denoted map is membership in the list.
pub proof fn lemma_assoc_contains(s: Seq<(String, String)>, k: Seq<char>)
    ensures
        assoc_map(s).contains_key(k) <==> exists|i: int| 0 <= i < s.len() && (#[trigger] s[i]).0@
            == k,
    decreases s.len(),
{
    if s.len() > 0 {
        lemma_assoc_contains(s.drop_last(), k);
        if s.last().0@ == k {
            assert(s[s.len() - 1].0@ == k);
        } else {
            if exists|i: int| 0 <= i < s.len() - 1 && (#[trigger] s.drop_last()[i]).0@ == k {
                let i = choose|i: int|
                    0 <= i < s.len() - 1 && (#[trigger] s.drop_last()[i]).0@ == k;
                assert(s[i].0@ == k);
            }
            if exists|i: int| 0 <= i < s.len() && (#[trigger] s[i]).0@ == k {
                let i = choose|i: int| 0 <= i < s.len() && (#[trigger] s[i]).0@ == k;
                assert(i < s.len() - 1);
                assert(s.drop_last()[i].0@ == k);
            }
        }
    }
}

/// With distinct keys, the denoted map sends each listed key to its listed
/// value.
pub proof fn lemma_assoc_get(s: Seq<(String, String)>, i: int)
    requires
        distinct_keys(s),
        0 <= i < s.len(),
    ensures
        assoc_map(s).contains_key(s[i].0@),
        assoc_map(s)[s[i].0@] == s[i].1@,
    decreases s.len(),
{
    if i == s.len() - 1 {
    } else {
        assert(distinct_keys(s.drop_last()));
        assert(s.drop_last()[i] == s[i]);
        lemma_assoc_get(s.drop_last(), i);
        assert(s[i].0@ != s.last().0@);
    }
}

/// Removing the entry at `i` removes its key from the denoted map.
pub proof fn lemma_assoc_remove(s: Seq<(String, String)>, i: int)
    requires
        distinct_keys(s),
        0 <= i < s.len(),
    ensures
        distinct_keys(s.remove(i)),
        assoc_map(s.remove(i)) == assoc_map(s).remove(s[i].0@),
    decreases s.len(),
{
    let k = s[i].0@;
    if i == s.len() - 1 {
        assert(s.remove(i) =~= s.drop_last());
        lemma_assoc_contains(s.drop_last(), k);
        assert(forall|j: int|
            0 <= j < s.len() - 1 ==> (#[trigger] s.drop_last()[j]).0@ != k);
        assert(!assoc_map(s.drop_last()).contains_key(k));
        assert(assoc_map(s.drop_last()) =~= assoc_map(s.drop_last()).insert(
            k,
            s.last().1@,
        ).remove(k));
    } else {
        assert(s.remove(i).drop_last() =~= s.drop_last().remove(i));
        assert(s.remove(i).last() == s.last());
        assert(distinct_keys(s.drop_last()));
        lemma_assoc_remove(s.drop_last(), i);
        assert(s.drop_last()[i] == s[i]);
        assert(k != s.last().0@);
        assert(assoc_map(s.drop_last()).remove(k).insert(s.last().0@, s.last().1@)
            =~= assoc_map(s.drop_last()).insert(s.last().0@, s.last().1@).remove(k));
        assert(distinct_keys(s.remove(i))) by {
            assert(forall|a: int, b: int|
                0 <= a < b < s.remove(i).len() ==> (#[trigger] s.remove(i)[a]).0@ != (
                #[trigger] s.remove(i)[b]).0@);
        }
    }
}

/// The in-memory index: the materialized current state, one value per key.
pub struct InMemoryLayer {
    store: Vec<(String, String)>,
}

impl View for InMemoryLayer {
    type V = Map<Seq<char>, Seq<char>>;

    closed spec fn view(&self) -> Map<Seq<char>, Seq<char>> {
        assoc_map(self.store@)
    }
}

impl InMemoryLayer {
    /// The index's internal invariant: one entry per key. Established by
    /// the constructor and preserved by every method.
    pub closed spec fn wf(self) -> bool {
        distinct_keys(self.store@)
    }

    pub fn new() -> (r: Self)
        ensures
            r@ == Map::<Seq<char>, Seq<char>>::empty(),
            r.wf(),
    {
        InMemoryLayer { store: Vec::new() }
    }

    /// The position of `key` in the list, if present.
    fn find(&self, key: &String) -> (r: Option<usize>)
        ensures
            match r {
                Some(i) => i < self.store@.len() && self.store@[i as int].0@ == key@,
                None => forall|j: int|
                    0 <= j < self.store@.len() ==> (#[trigger] self.store@[j]).0@ != key@,
            },
    {
        let mut i: usize = 0;
        while i < self.store.len()
            invariant
                0 <= i <= self.store@.len(),
                forall|j: int| 0 <= j < i ==> (#[trigger] self.store@[j]).0@ != key@,
            decreases self.store@.len() - i,
        {
            if self.store[i].0 == *key {
                return Some(i);
            }
            i = i + 1;
        }
        None
    }

    fn set(&mut self, key: String, value: String)
        requires
            old(self).wf(),
        ensures
            final(self).wf(),
            final(self)@ == old(self)@.insert(key@, value@),
    {
        let ghost old_store = self.store@;
        match self.find(&key) {
            Some(i) => {
                proof {
                    lemma_assoc_remove(old_store, i as int);
                }
                let _ = self.store.remove(i);
                let ghost mid = self.store@;
                self.store.push((key, value));
                proof {
                    assert(self.store@.drop_last() =~= mid);
                    assert(forall|j: int|
                        0 <= j < mid.len() ==> (#[trigger] mid[j]).0@ != key@) by {
                        assert(forall|j: int|
                            0 <= j < mid.len() ==> mid[j] == old_store.remove(i as int)[j]);
                    }
                    assert(distinct_keys(self.store@));
                    assert(assoc_map(self.store@) =~= old(self)@.insert(key@, value@));
                }
            },
            None => {
                self.store.push((key, value));
                proof {
                    assert(self.store@.drop_last() =~= old_store);
                    assert(distinct_keys(self.store@));
                    assert(assoc_map(self.store@) =~= old(self)@.insert(key@, value@));
                }
            },
        }
    }

    fn get(&self, key: String) -> (r: Option<String>)
        requires
            self.wf(),
        ensures
            match r {
                Some(v) => self@.contains_key(key@) && v@ == self@[key@],
                None => !self@.contains_key(key@),
            },
    {
        match self.find(&key) {
            Some(i) => {
                proof {
                    lemma_assoc_get(self.store@, i as int);
                }
                Some(self.store[i].1.clone())
            },
            None => {
                proof {
                    lemma_assoc_contains(self.store@, key@);
                }
                None
            },
        }
    }

    fn del(&mut self, key: String) -> (r: Option<String>)
        requires
            old(self).wf(),
        ensures
            final(self).wf(),
            final(self)@ == old(self)@.remove(key@),
            match r {
                Some(v) => old(self)@.contains_key(key@) && v@ == old(self)@[key@],
                None => !old(self)@.contains_key(key@),
            },
    {
        let ghost old_store = self.store@;
        match self.find(&key) {
            Some(i) => {
                proof {
                    lemma_assoc_get(old_store, i as int);
                    lemma_assoc_remove(old_store, i as int);
                }
                let pair = self.store.remove(i);
                Some(pair.1)
            },
            None => {
                proof {
                    lemma_assoc_contains(old_store, key@);
                    assert(old(self)@ =~= old(self)@.remove(key@));
                }
                None
            },
        }
    }

    /// Applies one operation to the index. `SET` stores and answers the
    /// key, `GET` answers the stored value, `DEL` removes and answers the
    /// removed value; the answer is `None` where no value is stored.
    pub fn eval(&mut self, op: Op) -> (r: Option<String>)
        requires
            old(self).wf(),
        ensures
            final(self).wf(),
            match op {
                Op::SET { timestamp, key, value } => final(self)@ == old(self)@.insert(
                    key@,
                    value@,
                ) && (r matches Some(s) && s@ == key@),
                Op::GET { timestamp, key } => final(self)@ == old(self)@ && (match r {
                    Some(v) => old(self)@.contains_key(key@) && v@ == old(self)@[key@],
                    None => !old(self)@.contains_key(key@),
                }),
                Op::DEL { timestamp, key } => final(self)@ == old(self)@.remove(key@) && (
                match r {
                    Some(v) => old(self)@.contains_key(key@) && v@ == old(self)@[key@],
                    None => !old(self)@.contains_key(key@),
                }),
            },
    {
        match op {
            Op::SET { timestamp: _, key, value } => {
                let reply = key.clone();
                self.set(key, value);
                Some(reply)
            },
            Op::GET { timestamp: _, key } => self.get(key),
            Op::DEL { timestamp: _, key } => self.del(key),
        }
    }
}

} // verus!
