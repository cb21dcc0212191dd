use vstd::prelude::*;

verus! {

#[verifier::external_type_specification]
#[verifier::external_body]
#[verifier::reject_recursive_types(K)]
#[verifier::reject_recursive_types(V)]
#[verifier::reject_recursive_types(S)]
pub struct ExLinkedHashMap<K, V, S>(hashlink::LinkedHashMap<K, V, S>);

#[verifier::external_type_specification]
#[verifier::external_body]
pub struct ExDefaultHashBuilder(hashlink::DefaultHashBuilder);

/// What a linked hash map holds: its entries in list order, oldest first,
/// each as the views of its key and value.
pub uninterp spec fn lru_entries(m: hashlink::LinkedHashMap<String, String>) -> Seq<
    (Seq<char>, Seq<char>),
>;

/// No two entries carry the same key; true of every map, since it is a map.
pub open spec fn entry_keys_distinct(s: Seq<(Seq<char>, Seq<char>)>) -> bool {
    forall|i: int, j: int| 0 <= i < j < s.len() ==> (#[trigger] s[i]).0 != (#[trigger] s[j]).0
}

/// Whether some entry carries the key.
pub open spec fn has_key(s: Seq<(Seq<char>, Seq<char>)>, k: Seq<char>) -> bool {
    exists|i: int| 0 <= i < s.len() && (#[trigger] s[i]).0 == k
}

/// The entries with the given key taken out, order kept.
pub open spec fn remove_key(s: Seq<(Seq<char>, Seq<char>)>, k: Seq<char>) -> Seq<
    (Seq<char>, Seq<char>),
> {
    s.filter(|e: (Seq<char>, Seq<char>)| e.0 != k)
}

/// The position of the key among the entries.
pub open spec fn key_at(s: Seq<(Seq<char>, Seq<char>)>, k: Seq<char>) -> int {
    choose|i: int| 0 <= i < s.len() && (#[trigger] s[i]).0 == k
}

/// The value stored under the key.
pub open spec fn value_of(s: Seq<(Seq<char>, Seq<char>)>, k: Seq<char>) -> Seq<char> {
    s[key_at(s, k)].1
}

/// Relies on hashlink's LinkedHashMap::new: an empty map.
#[verifier::external_body]
fn lru_new() -> (r: hashlink::LinkedHashMap<String, String>)
    ensures
        lru_entries(r) == Seq::<(Seq<char>, Seq<char>)>::empty(),
{
    hashlink::LinkedHashMap::new()
}

/// Relies on hashlink's LinkedHashMap::len: the number of entries.
#[verifier::external_body]
fn lru_len(m: &hashlink::LinkedHashMap<String, String>) -> (r: usize)
    ensures
        r == lru_entries(*m).len(),
{
    m.len()
}

/// Relies on hashlink's LinkedHashMap::to_back: if the key is present, its
/// entry moves to the back of the internal list, value untouched, and the
/// value is returned; an absent key changes nothing.
#[verifier::external_body]
fn lru_to_back_get(m: &mut hashlink::LinkedHashMap<String, String>, k: &String) -> (r: Option<
    String,
>)
    ensures
        entry_keys_distinct(lru_entries(*final(m))),
        has_key(lru_entries(*old(m)), k@) ==> (r matches Some(v) && exists|i: int|
            0 <= i < lru_entries(*old(m)).len() && (#[trigger] lru_entries(*old(m))[i]).0 == k@
                && v@ == lru_entries(*old(m))[i].1 && lru_entries(*final(m)) == remove_key(
                lru_entries(*old(m)),
                k@,
            ).push((k@, lru_entries(*old(m))[i].1))),
        !has_key(lru_entries(*old(m)), k@) ==> r is None && lru_entries(*final(m)) == lru_entries(
            *old(m),
        ),
{
    match m.to_back(k) {
        Some(v) => Some(v.clone()),
        None => None,
    }
}

/// Relies on hashlink's LinkedHashMap::insert: the entry goes to the back
/// of the internal list; an existing entry under the key is replaced, also
/// moving to the back, and its old value returned.
#[verifier::external_body]
fn lru_insert_back(m: &mut hashlink::LinkedHashMap<String, String>, k: String, v: String) -> (r:
    Option<String>)
    ensures
        entry_keys_distinct(lru_entries(*final(m))),
        !has_key(lru_entries(*old(m)), k@) ==> r is None && lru_entries(*final(m)) == lru_entries(
            *old(m),
        ).push((k@, v@)),
        has_key(lru_entries(*old(m)), k@) ==> (r matches Some(w) && exists|i: int|
            0 <= i < lru_entries(*old(m)).len() && (#[trigger] lru_entries(*old(m))[i]).0 == k@
                && w@ == lru_entries(*old(m))[i].1) && lru_entries(*final(m)) == remove_key(
            lru_entries(*old(m)),
            k@,
        ).push((k@, v@)),
{
    m.insert(k, v)
}

/// Relies on hashlink's LinkedHashMap::pop_front: removes and returns the
/// entry at the front of the internal list, the oldest one; `None` on an
/// empty map.
#[verifier::external_body]
fn lru_pop_front(m: &mut hashlink::LinkedHashMap<String, String>) -> (r: Option<(String, String)>)
    ensures
        entry_keys_distinct(lru_entries(*final(m))),
        lru_entries(*old(m)).len() == 0 ==> r is None && lru_entries(*final(m)) == lru_entries(
            *old(m),
        ),
        lru_entries(*old(m)).len() > 0 ==> (r matches Some(e) && e.0@ == lru_entries(*old(m))[0].0
            && e.1@ == lru_entries(*old(m))[0].1) && lru_entries(*final(m)) == lru_entries(
            *old(m),
        ).drop_first(),
{
    m.pop_front()
}

/// Relies on hashlink's LinkedHashMap::remove: takes the key's entry out of
/// the map, returning its value; an absent key changes nothing.
#[verifier::external_body]
fn lru_remove(m: &mut hashlink::LinkedHashMap<String, String>, k: &String) -> (r: Option<String>)
    ensures
        entry_keys_distinct(lru_entries(*final(m))),
        has_key(lru_entries(*old(m)), k@) ==> (r matches Some(v) && exists|i: int|
            0 <= i < lru_entries(*old(m)).len() && (#[trigger] lru_entries(*old(m))[i]).0 == k@
                && v@ == lru_entries(*old(m))[i].1) && lru_entries(*final(m)) == remove_key(
            lru_entries(*old(m)),
            k@,
        ),
        !has_key(lru_entries(*old(m)), k@) ==> r is None && lru_entries(*final(m)) == lru_entries(
            *old(m),
        ),
{
    m.remove(k)
}

/// What a lookup leaves behind: a hit refreshes the entry to the back,
/// value kept; a miss changes nothing.
pub open spec fn spec_lru_touch(s: Seq<(Seq<char>, Seq<char>)>, k: Seq<char>) -> Seq<
    (Seq<char>, Seq<char>),
> {
    if has_key(s, k) {
        remove_key(s, k).push((k, value_of(s, k)))
    } else {
        s
    }
}

/// What a put leaves behind: a known key is refreshed to the back with its
/// stored value kept; a new pair goes to the back, and when that exceeds
/// the capacity the oldest entry leaves.
pub open spec fn spec_lru_put(
    s: Seq<(Seq<char>, Seq<char>)>,
    k: Seq<char>,
    v: Seq<char>,
    cap: int,
) -> Seq<(Seq<char>, Seq<char>)> {
    if has_key(s, k) {
        remove_key(s, k).push((k, value_of(s, k)))
    } else {
        let grown = s.push((k, v));
        if grown.len() > cap {
            grown.drop_first()
        } else {
            grown
        }
    }
}

/// An LRU cache in front of the in-memory index: at most `limit` hot
/// entries, the least recently used leaving first.
pub struct LruCacheLayer {
    cache: hashlink::LinkedHashMap<String, String>,
    limit: usize,
}

impl LruCacheLayer {
    /// The cached entries, oldest first.
    pub closed spec fn entries(&self) -> Seq<(Seq<char>, Seq<char>)> {
        lru_entries(self.cache)
    }

    /// The configured capacity.
    pub closed spec fn cap(&self) -> int {
        self.limit as int
    }

    /// The cache's internal invariant: one entry per key.
    pub closed spec fn wf(&self) -> bool {
        entry_keys_distinct(self.entries())
    }

    pub fn new(capacity: u32) -> (r: Self)
        ensures
            r.entries().len() == 0,
            r.cap() == capacity,
            r.wf(),
    {
        let cache = lru_new();
        LruCacheLayer { cache, limit: capacity as usize }
    }

    /// Stores a pair. A key already present is only refreshed; a new pair
    /// may push the least recently used entry out.
    pub fn put(&mut self, key: &str, value: &str)
        requires
            old(self).wf(),
        ensures
            final(self).wf(),
            final(self).cap() == old(self).cap(),
            final(self).entries() == spec_lru_put(
                old(self).entries(),
                key@,
                value@,
                old(self).cap(),
            ),
    {
        let k = key.to_owned();
        let hit = lru_to_back_get(&mut self.cache, &k);
        match hit {
            Some(_) => {},
            None => {
                let _ = lru_insert_back(&mut self.cache, k, value.to_owned());
                if lru_len(&self.cache) > self.limit {
                    let _ = lru_pop_front(&mut self.cache);
                }
            },
        }
    }

    /// Looks a key up; a hit hands the value back and refreshes the entry.
    pub fn get(&mut self, key: &str) -> (r: Option<String>)
        requires
            old(self).wf(),
        ensures
            final(self).wf(),
            final(self).cap() == old(self).cap(),
            final(self).entries() == spec_lru_touch(old(self).entries(), key@),
            has_key(old(self).entries(), key@) ==> (r matches Some(v) && v@ == value_of(
                old(self).entries(),
                key@,
            )),
            !has_key(old(self).entries(), key@) ==> r is None,
    {
        let k = key.to_owned();
        let r = lru_to_back_get(&mut self.cache, &k);
        proof {
            if has_key(old(self).entries(), key@) {
                let i = choose|i: int|
                    0 <= i < old(self).entries().len() && (#[trigger] old(
                        self,
                    ).entries()[i]).0 == key@;
                let j = key_at(old(self).entries(), key@);
                assert(old(self).entries()[j].0 == key@);
            }
        }
        r
    }

    /// Drops a key from the cache.
    pub fn del(&mut self, key: &str)
        requires
            old(self).wf(),
        ensures
            final(self).wf(),
            final(self).cap() == old(self).cap(),
            final(self).entries() == remove_key(old(self).entries(), key@),
            !has_key(final(self).entries(), key@),
    {
        let k = key.to_owned();
        let _ = lru_remove(&mut self.cache, &k);
        proof {
            if !has_key(old(self).entries(), key@) {
                lemma_remove_key_absent(old(self).entries(), key@);
            }
            lemma_remove_key_no_key(old(self).entries(), key@);
        }
    }

    /// How many entries are cached.
    pub fn len(&self) -> (r: usize)
        ensures
            r == self.entries().len(),
    {
        lru_len(&self.cache)
    }
}

/// Filtering a key out of entries that never had it changes nothing.
proof fn lemma_remove_key_absent(s: Seq<(Seq<char>, Seq<char>)>, k: Seq<char>)
    requires
        !has_key(s, k),
    ensures
        remove_key(s, k) == s,
    decreases s.len(),
{
    reveal(Seq::filter);
    if s.len() > 0 {
        assert(!has_key(s.drop_last(), k)) by {
            if has_key(s.drop_last(), k) {
                let i = choose|i: int|
                    0 <= i < s.drop_last().len() && (#[trigger] s.drop_last()[i]).0 == k;
                assert(s[i].0 == k);
            }
        }
        lemma_remove_key_absent(s.drop_last(), k);
        assert(s[s.len() - 1].0 != k);
        assert(remove_key(s, k) =~= s);
    }
}

/// After filtering a key out, no entry carries it.
proof fn lemma_remove_key_no_key(s: Seq<(Seq<char>, Seq<char>)>, k: Seq<char>)
    ensures
        !has_key(remove_key(s, k), k),
{
    let pred = |e: (Seq<char>, Seq<char>)| e.0 != k;
    if has_key(remove_key(s, k), k) {
        let i = choose|i: int|
            0 <= i < remove_key(s, k).len() && (#[trigger] remove_key(s, k)[i]).0 == k;
        s.filter_lemma(pred);
        assert(pred(s.filter(pred)[i]));
    }
}

} // verus!
