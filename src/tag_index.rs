//! An exact-match index from a normalized key to the tags of the lists that name it.
use vstd::prelude::*;

use std::collections::HashMap;
use vstd::std_specs::hash::group_hash_axioms;
use vstd::utf8::encode_utf8;

verus! {

/// The offset basis of the 64-bit FNV-1a hash.
pub const FNV_OFFSET: u64 = 0xcbf29ce484222325;

/// The prime of the 64-bit FNV-1a hash.
pub const FNV_PRIME: u64 = 0x100000001b3;

/// One step of FNV-1a: fold the byte `x` into the hash `h`.
pub open spec fn fnv_step(h: u64, x: u8) -> u64 {
    (((h ^ (x as u64)) as nat * FNV_PRIME as nat) % 0x1_0000_0000_0000_0000nat) as u64
}

/// The 64-bit FNV-1a hash of the bytes `b`.
pub open spec fn fnv(b: Seq<u8>) -> u64
    decreases b.len(),
{
    if b.len() == 0 {
        FNV_OFFSET
    } else {
        fnv_step(fnv(b.drop_last()), b.last())
    }
}

/// The bucket of the key `k`: the hash of its UTF-8 bytes.
pub open spec fn key_hash(k: Seq<char>) -> u64 {
    fnv(encode_utf8(k))
}

/// Computes the bucket of `key`.
fn hash_key(key: &str) -> (r: u64)
    ensures
        r == key_hash(key@),
{
    let bytes = key.as_bytes();
    let mut h: u64 = FNV_OFFSET;
    let mut i: usize = 0;
    while i < bytes.len()
        invariant
            i <= bytes@.len(),
            bytes@ == encode_utf8(key@),
            h == fnv(bytes@.take(i as int)),
        decreases bytes@.len() - i,
    {
        assert(bytes@.take(i + 1).drop_last() =~= bytes@.take(i as int));
        h = (h ^ (bytes[i] as u64)).wrapping_mul(FNV_PRIME);
        i = i + 1;
    }
    assert(bytes@.take(bytes@.len() as int) =~= bytes@);
    h
}

/// The strings held by a sequence of `String`s, as a set.
pub open spec fn strings_of(v: Seq<String>) -> Set<Seq<char>> {
    Set::new(|t: Seq<char>| exists|i: int| 0 <= i < v.len() && #[trigger] v[i]@ == t)
}

/// No string occurs twice in `v`.
pub open spec fn distinct_strings(v: Seq<String>) -> bool {
    forall|i: int, j: int| 0 <= i < j < v.len() ==> #[trigger] v[i]@ != #[trigger] v[j]@
}

/// The views of a sequence of `String`s, in order.
pub open spec fn views_of(v: Seq<String>) -> Seq<Seq<char>> {
    v.map_values(|t: String| t@)
}

/// The list of tags that `m` gives `k`: empty where `k` is no key of `m`.
pub open spec fn list_of(m: Map<Seq<char>, Seq<Seq<char>>>, k: Seq<char>) -> Seq<Seq<char>> {
    if m.contains_key(k) {
        m[k]
    } else {
        Seq::empty()
    }
}

/// The tags that `m` gives `k`, as a set: empty where `k` is no key of `m`.
pub open spec fn tags_of(m: Map<Seq<char>, Seq<Seq<char>>>, k: Seq<char>) -> Set<Seq<char>> {
    if m.contains_key(k) {
        m[k].to_set()
    } else {
        Set::empty()
    }
}

/// One more string of `v` taken: its set grows by that string.
pub proof fn lemma_strings_of_take_step(v: Seq<String>, j: int)
    requires
        0 <= j < v.len(),
    ensures
        strings_of(v.take(j + 1)) == strings_of(v.take(j)).insert(v[j]@),
{
    let tj = v.take(j);
    let tj1 = v.take(j + 1);
    assert forall|x: Seq<char>| strings_of(tj1).contains(x) <==> strings_of(tj).contains(x) || x == v[j]@ by {
        if strings_of(tj1).contains(x) {
            let i = choose|i: int| 0 <= i < tj1.len() && #[trigger] tj1[i]@ == x;
            if i < j {
                assert(tj[i] == tj1[i]);
            }
        }
        if strings_of(tj).contains(x) {
            let i = choose|i: int| 0 <= i < tj.len() && #[trigger] tj[i]@ == x;
            assert(tj1[i] == tj[i]);
        }
        if x == v[j]@ {
            assert(tj1[j]@ == x);
        }
    }
    assert(strings_of(tj1) =~= strings_of(tj).insert(v[j]@));
}

/// Every key of `m` has at least one tag.
pub open spec fn lists_non_empty(m: Map<Seq<char>, Seq<Seq<char>>>) -> bool {
    forall|k: Seq<char>| #[trigger] m.contains_key(k) ==> m[k].len() > 0
}

/// The strings of `v` as a set are the views of `v` as a set.
pub proof fn lemma_strings_of_views(v: Seq<String>)
    ensures
        strings_of(v) == views_of(v).to_set(),
{
    assert forall|t: Seq<char>| strings_of(v).contains(t) <==> views_of(v).to_set().contains(t) by {
        if strings_of(v).contains(t) {
            let i = choose|i: int| 0 <= i < v.len() && #[trigger] v[i]@ == t;
            assert(views_of(v)[i] == t);
        }
        if views_of(v).to_set().contains(t) {
            let i = choose|i: int| 0 <= i < views_of(v).len() && views_of(v)[i] == t;
            assert(v[i]@ == t);
        }
    }
    assert(strings_of(v) =~= views_of(v).to_set());
}

/// Whether `s` is among the strings of `v`.
pub fn contains_string(v: &Vec<String>, s: &String) -> (r: bool)
    ensures
        r == strings_of(v@).contains(s@),
{
    let mut i: usize = 0;
    while i < v.len()
        invariant
            i <= v@.len(),
            forall|j: int| 0 <= j < i ==> #[trigger] v@[j]@ != s@,
        decreases v@.len() - i,
    {
        if v[i] == *s {
            assert(strings_of(v@).contains(s@));
            return true;
        }
        i = i + 1;
    }
    false
}

/// An index from keys to tags.
///
/// Each key stands once, with the list of the tags filed for it, in the order
/// they came; a tag filed twice for a key is kept twice. Keys are found
/// through buckets of positions, one bucket per key hash.
#[derive(Clone, Debug)]
pub struct TagIndex {
    entries: Vec<(String, Vec<String>)>,
    buckets: HashMap<u64, Vec<usize>>,
}

impl View for TagIndex {
    type V = Map<Seq<char>, Seq<Seq<char>>>;

    /// Each key, mapped to the list of its tags.
    closed spec fn view(&self) -> Map<Seq<char>, Seq<Seq<char>>> {
        Map::new(
            |k: Seq<char>| exists|i: int| 0 <= i < self.entries@.len() && #[trigger] self.entries@[i].0@ == k,
            |k: Seq<char>|
                views_of(
                    self.entries@[choose|i: int| 0 <= i < self.entries@.len() && #[trigger] self.entries@[i].0@ == k].1@,
                ),
        )
    }
}

impl TagIndex {
    /// Keys are unique and every key has at least one tag.
    pub closed spec fn wf(&self) -> bool {
        &&& forall|i: int, j: int|
            0 <= i < j < self.entries@.len() ==> #[trigger] self.entries@[i].0@
                != #[trigger] self.entries@[j].0@
        &&& forall|i: int| 0 <= i < self.entries@.len() ==> #[trigger] self.entries@[i].1@.len() > 0
        &&& forall|i: int| 0 <= i < self.entries@.len() ==> {
            let h = key_hash(#[trigger] self.entries@[i].0@);
            self.buckets@.contains_key(h) && self.buckets@[h]@.contains(i as usize)
        }
        &&& forall|h: u64, j: int| #[trigger] self.buckets@.contains_key(h) && 0 <= j < self.buckets@[h]@.len()
            ==> #[trigger] self.buckets@[h]@[j] < self.entries@.len()
    }

    /// The entry at `i` is what the view gives its key.
    proof fn lemma_view_at(&self, i: int)
        requires
            self.wf(),
            0 <= i < self.entries@.len(),
        ensures
            self@.contains_key(self.entries@[i].0@),
            self@[self.entries@[i].0@] == views_of(self.entries@[i].1@),
    {
        let k = self.entries@[i].0@;
        let j = choose|j: int| 0 <= j < self.entries@.len() && #[trigger] self.entries@[j].0@ == k;
        if j < i {
            assert(self.entries@[j].0@ != self.entries@[i].0@);
        } else if j > i {
            assert(self.entries@[i].0@ != self.entries@[j].0@);
        }
    }

    /// A well-formed index gives every key at least one tag.
    pub proof fn lemma_lists_non_empty(&self)
        requires
            self.wf(),
        ensures
            lists_non_empty(self@),
    {
        assert forall|k: Seq<char>| #[trigger] self@.contains_key(k) implies self@[k].len() > 0 by {
            let i = choose|i: int| 0 <= i < self.entries@.len() && #[trigger] self.entries@[i].0@ == k;
            self.lemma_view_at(i);
        }
    }

    /// An index with no key.
    pub fn new() -> (r: TagIndex)
        ensures
            r.wf(),
            r@ == Map::<Seq<char>, Seq<Seq<char>>>::empty(),
    {
        broadcast use group_hash_axioms;

        let r = TagIndex { entries: Vec::new(), buckets: HashMap::new() };
        assert(r@ =~= Map::<Seq<char>, Seq<Seq<char>>>::empty());
        r
    }

    /// The position of `key` among the entries.
    fn find(&self, key: &String) -> (r: Option<usize>)
        requires
            self.wf(),
        ensures
            match r {
                Some(i) => i < self.entries@.len() && self.entries@[i as int].0@ == key@,
                None => forall|i: int|
                    0 <= i < self.entries@.len() ==> #[trigger] self.entries@[i].0@ != key@,
            },
    {
        broadcast use group_hash_axioms;

        let h = hash_key(key.as_str());
        let bucket = match self.buckets.get(&h) {
            Some(bucket) => bucket,
            None => {
                assert forall|i: int| 0 <= i < self.entries@.len() implies #[trigger] self.entries@[i].0@ != key@ by {
                    if self.entries@[i].0@ == key@ {
                        assert(self.buckets@.contains_key(key_hash(self.entries@[i].0@)));
                    }
                }
                return None;
            },
        };
        assert forall|i: int| 0 <= i < self.entries@.len() && #[trigger] self.entries@[i].0@ == key@ implies bucket@.contains(i as usize) by {
            assert(key_hash(self.entries@[i].0@) == h);
        }
        let mut j: usize = 0;
        while j < bucket.len()
            invariant
                forall|x: int| 0 <= x < bucket@.len() ==> #[trigger] bucket@[x] < self.entries@.len(),
                forall|i: int| 0 <= i < self.entries@.len() && #[trigger] self.entries@[i].0@ == key@ ==> bucket@.contains(i as usize),
                bucket@ == self.buckets@[h]@,
                h == key_hash(key@),
                j <= bucket@.len(),
                forall|x: int| 0 <= x < j ==> self.entries@[#[trigger] bucket@[x] as int].0@ != key@,
            decreases bucket@.len() - j,
        {
            let i = bucket[j];
            assert(i < self.entries@.len());
            if self.entries[i].0 == *key {
                return Some(i);
            }
            j = j + 1;
        }
        assert forall|i: int| 0 <= i < self.entries@.len() implies #[trigger] self.entries@[i].0@ != key@ by {
            if self.entries@[i].0@ == key@ {
                assert(self.entries@.len() == self.entries.len());
                assert(bucket@.contains(i as usize));
                let x = choose|x: int| 0 <= x < bucket@.len() && bucket@[x] == i as usize;
                assert(self.entries@[bucket@[x] as int].0@ != key@);
            }
        }
        None
    }

    /// The tags recorded for `key`, if it is a key.
    pub fn get(&self, key: &String) -> (r: Option<&Vec<String>>)
        requires
            self.wf(),
        ensures
            match r {
                Some(v) => {
                    &&& self@.contains_key(key@)
                    &&& views_of(v@) == self@[key@]
                    &&& strings_of(v@) == tags_of(self@, key@)
                    &&& v@.len() > 0
                },
                None => !self@.contains_key(key@),
            },
    {
        match self.find(key) {
            Some(i) => {
                let v = &self.entries[i].1;
                proof {
                    self.lemma_view_at(i as int);
                    lemma_strings_of_views(v@);
                }
                Some(v)
            },
            None => {
                assert(!self@.contains_key(key@));
                None
            },
        }
    }

    /// Appends `tag` to the list of `key`, adding the key where it is new.
    pub fn insert_tag(&mut self, key: String, tag: String)
        requires
            old(self).wf(),
        ensures
            final(self).wf(),
            final(self)@ == old(self)@.insert(key@, list_of(old(self)@, key@).push(tag@)),
    {
        broadcast use group_hash_axioms;

        let ghost k = key@;
        match self.find(&key) {
            Some(i) => {
                let mut entry = (String::new(), Vec::new());
                std::mem::swap(&mut entry, &mut self.entries[i]);
                entry.1.push(tag);
                self.entries.set(i, entry);
                proof {
                    let o = old(self);
                    assert forall|a: int| 0 <= a < self.entries@.len() implies #[trigger] self.entries@[a].0@
                        == o.entries@[a].0@ by {
                        if a != i as int {
                            assert(o.entries@[a] == self.entries@[a]);
                        }
                    }
                    assert forall|a: int, b: int| 0 <= a < b < self.entries@.len() implies #[trigger] self.entries@[a].0@
                        != #[trigger] self.entries@[b].0@ by {
                        assert(o.entries@[a].0@ != o.entries@[b].0@);
                    }
                    assert forall|a: int| 0 <= a < self.entries@.len() implies #[trigger] self.entries@[a].1@.len() > 0 by {
                        if a != i as int {
                            assert(o.entries@[a] == self.entries@[a]);
                        }
                    }
                    assert forall|a: int| 0 <= a < self.entries@.len() implies {
                        let h = key_hash(#[trigger] self.entries@[a].0@);
                        self.buckets@.contains_key(h) && self.buckets@[h]@.contains(a as usize)
                    } by {
                        assert(o.entries@[a].0@ == self.entries@[a].0@);
                    }
                    assert(self.wf());
                    self.lemma_view_at(i as int);
                    o.lemma_view_at(i as int);
                    assert(views_of(self.entries@[i as int].1@) =~= views_of(o.entries@[i as int].1@).push(tag@));
                    assert forall|k2: Seq<char>| #[trigger] self@.contains_key(k2) <==> o@.contains_key(k2) by {
                        if self@.contains_key(k2) {
                            let j = choose|j: int| 0 <= j < self.entries@.len() && #[trigger] self.entries@[j].0@ == k2;
                            assert(o.entries@[j].0@ == k2);
                        }
                        if o@.contains_key(k2) {
                            let j = choose|j: int| 0 <= j < o.entries@.len() && #[trigger] o.entries@[j].0@ == k2;
                            assert(self.entries@[j].0@ == k2);
                        }
                    }
                    assert forall|k2: Seq<char>| k2 != k && #[trigger] self@.contains_key(k2) implies self@[k2] == o@[k2] by {
                        let j = choose|j: int| 0 <= j < self.entries@.len() && #[trigger] self.entries@[j].0@ == k2;
                        self.lemma_view_at(j);
                        o.lemma_view_at(j);
                        assert(o.entries@[j] == self.entries@[j]);
                    }
                    assert(self@ =~= o@.insert(k, list_of(o@, k).push(tag@)));
                }
            },
            None => {
                let h = hash_key(key.as_str());
                let n = self.entries.len();
                let mut bucket = match self.buckets.remove(&h) {
                    Some(b) => b,
                    None => Vec::new(),
                };
                let ghost old_bucket = bucket@;
                bucket.push(n);
                self.buckets.insert(h, bucket);
                let mut tags: Vec<String> = Vec::new();
                tags.push(tag);
                self.entries.push((key, tags));
                proof {
                    let o = old(self);
                    let n = o.entries@.len() as int;
                    assert(self.entries@[n].0@ == k);
                    assert(forall|a: int| 0 <= a < n ==> o.entries@[a] == #[trigger] self.entries@[a]);
                    assert forall|a: int, b: int| 0 <= a < b < self.entries@.len() implies #[trigger] self.entries@[a].0@
                        != #[trigger] self.entries@[b].0@ by {
                        if b < n {
                            assert(o.entries@[a].0@ != o.entries@[b].0@);
                        } else {
                            assert(o.entries@[a].0@ != k);
                        }
                    }
                    assert forall|a: int| 0 <= a < self.entries@.len() implies #[trigger] self.entries@[a].1@.len() > 0 by {
                        if a < n {
                            assert(o.entries@[a] == self.entries@[a]);
                        }
                    }
                    assert(key_hash(k) == h);
                    assert(self.buckets@.contains_key(h) && self.buckets@[h]@ == old_bucket.push(n as usize));
                    assert(forall|h2: u64| h2 != h ==> (#[trigger] self.buckets@.contains_key(h2)) == o.buckets@.contains_key(h2));
                    assert(forall|h2: u64| h2 != h && o.buckets@.contains_key(h2) ==> #[trigger] self.buckets@[h2] == o.buckets@[h2]);
                    assert(o.buckets@.contains_key(h) ==> old_bucket == o.buckets@[h]@);
                    assert forall|a: int| 0 <= a < self.entries@.len() implies {
                        let ha = key_hash(#[trigger] self.entries@[a].0@);
                        self.buckets@.contains_key(ha) && self.buckets@[ha]@.contains(a as usize)
                    } by {
                        if a < n {
                            let ha = key_hash(o.entries@[a].0@);
                            assert(o.buckets@.contains_key(ha) && o.buckets@[ha]@.contains(a as usize));
                            if ha == h {
                                let x = choose|x: int| 0 <= x < old_bucket.len() && old_bucket[x] == a as usize;
                                assert(old_bucket.push(n as usize)[x] == a as usize);
                            }
                        } else {
                            assert(old_bucket.push(n as usize)[old_bucket.len() as int] == n as usize);
                        }
                    }
                    assert forall|h2: u64, x: int| #[trigger] self.buckets@.contains_key(h2) && 0 <= x < self.buckets@[h2]@.len()
                        implies #[trigger] self.buckets@[h2]@[x] < self.entries@.len() by {
                        if h2 == h {
                            if x < old_bucket.len() {
                                assert(o.buckets@[h]@[x] < n);
                            }
                        } else {
                            assert(o.buckets@[h2]@[x] < n);
                        }
                    }
                    assert(self.wf());
                    assert(!o@.contains_key(k));
                    self.lemma_view_at(n);
                    assert(views_of(self.entries@[n].1@) =~= Seq::<Seq<char>>::empty().push(tag@));
                    assert forall|k2: Seq<char>| k2 != k implies (#[trigger] self@.contains_key(k2) <==> o@.contains_key(k2)) by {
                        if self@.contains_key(k2) {
                            let j = choose|j: int| 0 <= j < self.entries@.len() && #[trigger] self.entries@[j].0@ == k2;
                            assert(j < n);
                            assert(o.entries@[j].0@ == k2);
                        }
                        if o@.contains_key(k2) {
                            let j = choose|j: int| 0 <= j < o.entries@.len() && #[trigger] o.entries@[j].0@ == k2;
                            assert(self.entries@[j].0@ == k2);
                        }
                    }
                    assert forall|k2: Seq<char>| k2 != k && #[trigger] self@.contains_key(k2) implies self@[k2] == o@[k2] by {
                        let j = choose|j: int| 0 <= j < self.entries@.len() && #[trigger] self.entries@[j].0@ == k2;
                        assert(j < n);
                        self.lemma_view_at(j);
                        o.lemma_view_at(j);
                    }
                    assert(self@ =~= o@.insert(k, list_of(o@, k).push(tag@)));
                }
            },
        }
    }
}

} // verus!
