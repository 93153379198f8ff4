use rustc_hash::{FxBuildHasher, FxHashMap};
use vstd::prelude::*;

verus! {

#[verifier::external_type_specification]
#[verifier::external_body]
pub struct ExFxBuildHasher(FxBuildHasher);

/// One bucket of the cache's index.
pub type Bucket = FxHashMap<Vec<usize>, usize>;

/// What a bucket of the cache maps each sample list to.
pub uninterp spec fn bucket_contents(m: Bucket) -> Map<Seq<usize>, usize>;

/// `FxHashMap::default` (a `HashMap` with rustc_hash's `FxBuildHasher`): an empty map.
#[verifier::external_body]
fn new_bucket() -> (m: Bucket)
    ensures
        bucket_contents(m) =~= Map::empty(),
{
    FxHashMap::default()
}

/// `HashMap::get` on an `FxHashMap`: the value stored under a key with the same
/// elements as `key`, if there is one.
#[verifier::external_body]
fn bucket_get<'a>(m: &'a Bucket, key: &Vec<usize>) -> (r: Option<&'a usize>)
    ensures
        match r {
            Some(v) => bucket_contents(*m).contains_key(key@) && *v == bucket_contents(*m)[key@],
            None => !bucket_contents(*m).contains_key(key@),
        },
{
    m.get(key)
}

/// `HashMap::insert` on an `FxHashMap`: `key` maps to `value` afterwards, the other
/// keys keep their values.
#[verifier::external_body]
fn bucket_insert(m: &mut Bucket, key: Vec<usize>, value: usize)
    ensures
        bucket_contents(*final(m)) == bucket_contents(*old(m)).insert(key@, value),
{
    m.insert(key, value);
}

/// A sample list in canonical form: row numbers in strictly increasing order, so that
/// one set of samples has exactly one list.
pub open spec fn is_sample_list(s: Seq<usize>) -> bool {
    forall|i: int, j: int| 0 <= i < j < s.len() ==> s[i] < s[j]
}

/// A node of the search: its best split and error so far, and its children.
#[derive(Copy, Clone, Debug)]
pub struct Entry {
    pub feature: usize,
    /// The split threshold as a value key: samples whose key is below it go left.
    pub split: u64,
    pub age: usize,
    pub error: usize,
    pub label: usize,
    pub ub: usize,
    pub is_leaf: bool,
    pub is_optimal: bool,
    pub depth: usize,
    pub left: usize,
    pub right: usize,
}

impl Entry {
    /// The entry of a node not yet searched.
    pub open spec fn spec_default() -> Entry {
        Entry {
            feature: usize::MAX,
            split: u64::MAX,
            age: 0,
            error: usize::MAX,
            label: usize::MAX,
            ub: 0,
            is_leaf: false,
            is_optimal: false,
            depth: 0,
            left: 0,
            right: 0,
        }
    }
}

impl Default for Entry {
    fn default() -> (e: Self)
        ensures
            e == Entry::spec_default(),
    {
        Self {
            feature: usize::MAX,
            split: u64::MAX,
            age: 0,
            error: usize::MAX,
            label: usize::MAX,
            ub: 0,
            is_leaf: false,
            is_optimal: false,
            depth: 0,
            left: 0,
            right: 0,
        }
    }
}

/// The nodes met by a search, in an arena, with an index from each node's samples
/// (a sample list, by depth and by number of samples) to its arena position.
pub struct Cache {
    depth: usize,
    num_samples: usize,
    arena: Vec<Entry>,
    map: Vec<Vec<Bucket>>,
    root_index: usize,
}

impl Cache {
    /// The entries, by arena position.
    pub closed spec fn entries(&self) -> Seq<Entry> {
        self.arena@
    }

    /// The number of depths indexed.
    pub closed spec fn spec_depth(&self) -> nat {
        self.depth as nat
    }

    /// The number of samples of the dataset.
    pub closed spec fn spec_num_samples(&self) -> nat {
        self.num_samples as nat
    }

    /// Arena position of the root.
    pub closed spec fn spec_root_index(&self) -> nat {
        self.root_index as nat
    }

    /// Arena position recorded for the node with samples `key` at depth `depth`.
    pub closed spec fn lookup(&self, key: Seq<usize>, depth: int) -> Option<usize> {
        let m = bucket_contents(self.map@[depth]@[key.len() as int]);
        if m.contains_key(key) {
            Some(m[key])
        } else {
            None
        }
    }

    /// The index covers `depth` depths and `num_samples` sample counts, and leads only
    /// to entries of the arena.
    pub closed spec fn wf(&self) -> bool {
        &&& self.map@.len() == self.depth
        &&& forall|d: int| 0 <= d < self.depth ==> (#[trigger] self.map@[d])@.len() == self.num_samples
        &&& forall|d: int, k: int, key: Seq<usize>|
            0 <= d < self.depth && 0 <= k < self.num_samples && #[trigger] bucket_contents(
                self.map@[d]@[k],
            ).contains_key(key) ==> bucket_contents(self.map@[d]@[k])[key] < self.arena@.len()
    }

    pub fn new(depth: usize, num_samples: usize) -> (c: Self)
        ensures
            c.wf(),
            c.spec_depth() == depth,
            c.spec_num_samples() == num_samples,
            c.entries() == Seq::<Entry>::empty(),
            c.spec_root_index() == 0,
            forall|d: int, key: Seq<usize>|
                0 <= d < depth && key.len() < num_samples ==> #[trigger] c.lookup(key, d) is None,
    {
        let mut map: Vec<Vec<Bucket>> = Vec::new();
        let mut d: usize = 0;
        while d < depth
            invariant
                0 <= d <= depth,
                map@.len() == d,
                forall|e: int| 0 <= e < d ==> (#[trigger] map@[e])@.len() == num_samples,
                forall|e: int, k: int|
                    0 <= e < d && 0 <= k < num_samples ==> bucket_contents(#[trigger] map@[e]@[k])
                        == Map::<Seq<usize>, usize>::empty(),
            decreases depth - d,
        {
            let mut row: Vec<Bucket> = Vec::new();
            let mut k: usize = 0;
            while k < num_samples
                invariant
                    0 <= k <= num_samples,
                    row@.len() == k,
                    forall|q: int|
                        0 <= q < k ==> bucket_contents(#[trigger] row@[q]) == Map::<
                            Seq<usize>,
                            usize,
                        >::empty(),
                decreases num_samples - k,
            {
                row.push(new_bucket());
                k += 1;
            }
            map.push(row);
            d += 1;
        }
        let c = Self { depth, num_samples, arena: Vec::new(), map, root_index: 0 };
        proof {
            assert forall|d: int, key: Seq<usize>|
                0 <= d < depth && key.len() < num_samples implies #[trigger] c.lookup(key, d) is None by {
                assert(bucket_contents(c.map@[d]@[key.len() as int]) == Map::<Seq<usize>, usize>::empty());
            }
        }
        c
    }

    /// The root entry, once `init` has made it.
    pub fn root(&self) -> (r: Option<&Entry>)
        ensures
            match r {
                Some(e) => self.spec_root_index() < self.entries().len() && *e
                    == self.entries()[self.spec_root_index() as int],
                None => self.spec_root_index() >= self.entries().len(),
            },
    {
        self.get(self.root_index)
    }

    /// The root entry to update in place, once `init` has made it.
    pub fn root_mut(&mut self) -> (r: Option<&mut Entry>)
        requires
            old(self).wf(),
        ensures
            match r {
                Some(e) => {
                    &&& old(self).spec_root_index() < old(self).entries().len()
                    &&& *e == old(self).entries()[old(self).spec_root_index() as int]
                    &&& final(self).entries() == old(self).entries().update(
                        old(self).spec_root_index() as int,
                        *final(e),
                    )
                },
                None => {
                    &&& old(self).spec_root_index() >= old(self).entries().len()
                    &&& final(self).entries() == old(self).entries()
                },
            },
            final(self).wf(),
            final(self).spec_depth() == old(self).spec_depth(),
            final(self).spec_num_samples() == old(self).spec_num_samples(),
            final(self).spec_root_index() == old(self).spec_root_index(),
            forall|d: int, key: Seq<usize>| #[trigger] final(self).lookup(key, d) == old(self).lookup(key, d),
    {
        let index = self.root_index;
        self.get_mut(index)
    }

    /// Makes the root entry; the cache must be empty.
    pub fn init(&mut self) -> (root: usize)
        requires
            old(self).wf(),
            old(self).entries().len() == 0,
        ensures
            final(self).wf(),
            final(self).entries() == seq![Entry::spec_default()],
            root == old(self).spec_root_index(),
            final(self).spec_root_index() == old(self).spec_root_index(),
            final(self).spec_depth() == old(self).spec_depth(),
            final(self).spec_num_samples() == old(self).spec_num_samples(),
            forall|d: int, key: Seq<usize>| #[trigger] final(self).lookup(key, d) == old(self).lookup(key, d),
    {
        self.arena.push(Entry::default());
        proof {
            assert(self.arena@ =~= seq![Entry::spec_default()]);
            assert forall|d: int, key: Seq<usize>| #[trigger] self.lookup(key, d) == old(self).lookup(key, d) by {}
        }
        self.root_index
    }

    /// Records the node with samples `bitset` (its rows, increasing) at depth `depth`: `(true, i)` when it is
    /// new and gets a fresh default entry at position `i`, `(false, i)` when it was
    /// recorded at position `i` already.
    pub fn insert(&mut self, bitset: &Vec<usize>, depth: usize) -> (r: (bool, usize))
        requires
            is_sample_list(bitset@),
            old(self).wf(),
            depth < old(self).spec_depth(),
            bitset@.len() < old(self).spec_num_samples(),
        ensures
            final(self).wf(),
            final(self).spec_depth() == old(self).spec_depth(),
            final(self).spec_num_samples() == old(self).spec_num_samples(),
            final(self).spec_root_index() == old(self).spec_root_index(),
            match old(self).lookup(bitset@, depth as int) {
                Some(i) => r == (false, i) && final(self).entries() == old(self).entries() && forall|
                    d: int,
                    key: Seq<usize>,
                | #[trigger] final(self).lookup(key, d) == old(self).lookup(key, d),
                None => {
                    &&& r == (true, old(self).entries().len() as usize)
                    &&& final(self).entries() == old(self).entries().push(Entry::spec_default())
                    &&& forall|d: int, key: Seq<usize>|
                        0 <= d < old(self).spec_depth() && key.len() < old(self).spec_num_samples() ==> #[trigger] final(self).lookup(key, d) == (if d == depth && key == bitset@ {
                            Some(r.1)
                        } else {
                            old(self).lookup(key, d)
                        })
                },
            },
            final(self).lookup(bitset@, depth as int) == Some(r.1),
            r.1 < final(self).entries().len(),
    {
        let found = match self.find(bitset, depth) {
            Some(index) => Some(*index),
            None => None,
        };
        match found {
            Some(index) => (false, index),
            None => (true, self.insert_new(bitset, depth)),
        }
    }

    fn insert_new(&mut self, bitset: &Vec<usize>, depth: usize) -> (index: usize)
        requires
            is_sample_list(bitset@),
            old(self).wf(),
            depth < old(self).spec_depth(),
            bitset@.len() < old(self).spec_num_samples(),
            old(self).lookup(bitset@, depth as int) is None,
        ensures
            final(self).wf(),
            final(self).spec_depth() == old(self).spec_depth(),
            final(self).spec_num_samples() == old(self).spec_num_samples(),
            final(self).spec_root_index() == old(self).spec_root_index(),
            index == old(self).entries().len(),
            final(self).entries() == old(self).entries().push(Entry::spec_default()),
            forall|d: int, key: Seq<usize>|
                0 <= d < old(self).spec_depth() && key.len() < old(self).spec_num_samples() ==> #[trigger] final(self).lookup(key, d) == (if d == depth && key == bitset@ {
                    Some(index)
                } else {
                    old(self).lookup(key, d)
                }),
    {
        let count = bitset.len();
        let index = self.arena.len();
        self.arena.push(Entry::default());
        let ghost old_map = self.map@;
        let ghost old_row = self.map@[depth as int]@;
        let mut row = Vec::new();
        std::mem::swap(&mut row, &mut self.map[depth]);
        assert(row@ == old_row);
        let mut bucket = new_bucket();
        std::mem::swap(&mut bucket, &mut row[count]);
        let ghost old_bucket = bucket;
        assert(old_bucket == old_row[count as int]);
        let key = bitset.clone();
        assert(key@ == bitset@);
        bucket_insert(&mut bucket, key, index);
        let ghost new_bucket_value = bucket;
        std::mem::swap(&mut bucket, &mut row[count]);
        assert(row@ == old_row.update(count as int, new_bucket_value));
        let ghost new_row = row;
        std::mem::swap(&mut row, &mut self.map[depth]);
        assert(self.map@ == old_map.update(depth as int, new_row));
        proof {
            assert forall|d: int, k: Seq<usize>|
                0 <= d < old(self).depth && k.len() < old(self).num_samples implies #[trigger] self.lookup(k, d) == (if d == depth && k == bitset@ {
                    Some(index)
                } else {
                    old(self).lookup(k, d)
                }) by {
                if d == depth && k.len() == count {
                    assert(bucket_contents(new_bucket_value) == bucket_contents(old_bucket).insert(
                        bitset@,
                        index,
                    ));
                }
            }
            assert forall|d: int, k: int, key: Seq<usize>|
                0 <= d < self.depth && 0 <= k < self.num_samples && #[trigger] bucket_contents(
                    self.map@[d]@[k],
                ).contains_key(key) implies bucket_contents(self.map@[d]@[k])[key]
                < self.arena@.len() by {
                if d == depth && k == count {
                    assert(bucket_contents(new_bucket_value) == bucket_contents(old_bucket).insert(
                        bitset@,
                        index,
                    ));
                    if key != bitset@ {
                        assert(bucket_contents(old_map[d]@[k]).contains_key(key));
                    }
                } else {
                    assert(self.map@[d]@[k] == old_map[d]@[k]);
                }
            }
            assert forall|d: int| 0 <= d < self.depth implies (#[trigger] self.map@[d])@.len()
                == self.num_samples by {
                assert(old(self).map@[d]@.len() == self.num_samples);
            }
        }
        index
    }

    /// Entry `index`, if there is one.
    pub fn get(&self, index: usize) -> (r: Option<&Entry>)
        ensures
            match r {
                Some(e) => index < self.entries().len() && *e == self.entries()[index as int],
                None => index >= self.entries().len(),
            },
    {
        if index < self.arena.len() {
            Some(&self.arena[index])
        } else {
            None
        }
    }

    /// Entry `index` to update in place, if there is one.
    pub fn get_mut(&mut self, index: usize) -> (r: Option<&mut Entry>)
        requires
            old(self).wf(),
        ensures
            match r {
                Some(e) => {
                    &&& index < old(self).entries().len()
                    &&& *e == old(self).entries()[index as int]
                    &&& final(self).entries() == old(self).entries().update(index as int, *final(e))
                },
                None => index >= old(self).entries().len() && final(self).entries() == old(
                    self,
                ).entries(),
            },
            final(self).wf(),
            final(self).spec_depth() == old(self).spec_depth(),
            final(self).spec_num_samples() == old(self).spec_num_samples(),
            final(self).spec_root_index() == old(self).spec_root_index(),
            forall|d: int, key: Seq<usize>| #[trigger] final(self).lookup(key, d) == old(self).lookup(key, d),
    {
        if index < self.arena.len() {
            Some(&mut self.arena[index])
        } else {
            None
        }
    }

    /// Replaces entry `index`; returns whether there was one.
    pub fn set(&mut self, index: usize, entry: Entry) -> (r: bool)
        requires
            old(self).wf(),
        ensures
            final(self).wf(),
            r == (index < old(self).entries().len()),
            final(self).entries() == (if r {
                old(self).entries().update(index as int, entry)
            } else {
                old(self).entries()
            }),
            final(self).spec_depth() == old(self).spec_depth(),
            final(self).spec_num_samples() == old(self).spec_num_samples(),
            final(self).spec_root_index() == old(self).spec_root_index(),
            forall|d: int, key: Seq<usize>| #[trigger] final(self).lookup(key, d) == old(self).lookup(key, d),
    {
        if index < self.arena.len() {
            self.arena.set(index, entry);
            proof {
                assert forall|d: int, key: Seq<usize>| #[trigger] self.lookup(key, d) == old(self).lookup(key, d) by {}
            }
            true
        } else {
            false
        }
    }

    /// Arena position of the node with samples `bitset` at depth `depth`, if recorded.
    pub fn find(&self, bitset: &Vec<usize>, depth: usize) -> (r: Option<&usize>)
        requires
            is_sample_list(bitset@),
            self.wf(),
            depth < self.spec_depth(),
            bitset@.len() < self.spec_num_samples(),
        ensures
            match r {
                Some(i) => self.lookup(bitset@, depth as int) == Some(*i),
                None => self.lookup(bitset@, depth as int) is None,
            },
    {
        let cache = &self.map[depth][bitset.len()];
        bucket_get(cache, bitset)
    }

    /// Arena position of the root.
    pub fn root_position(&self) -> (i: usize)
        ensures
            i == self.spec_root_index(),
    {
        self.root_index
    }

    /// Number of depths indexed.
    pub fn depth(&self) -> (d: usize)
        ensures
            d == self.spec_depth(),
    {
        self.depth
    }

    /// Number of samples of the dataset.
    pub fn num_samples(&self) -> (n: usize)
        ensures
            n == self.spec_num_samples(),
    {
        self.num_samples
    }

    pub fn len(&self) -> (n: usize)
        ensures
            n == self.entries().len(),
    {
        self.arena.len()
    }
}

impl Default for Cache {
    fn default() -> (c: Self)
        ensures
            c.wf(),
            c.spec_depth() == 0,
            c.spec_num_samples() == 0,
            c.entries() == Seq::<Entry>::empty(),
            c.spec_root_index() == 0,
    {
        Self::new(0, 0)
    }
}

} // verus!
