//! A table of the tags found, keyed by bounding box.

use vstd::prelude::*;

verus! {

/// The corners of a bounding box as one value.
pub open spec fn corners(b: [(u32, u32); 2]) -> (u32, u32, u32, u32) {
    (b[0].0, b[0].1, b[1].0, b[1].1)
}

/// The first place of `key` among `keys`, or their number where it is not
/// among them.
pub open spec fn place(keys: Seq<[(u32, u32); 2]>, key: [(u32, u32); 2]) -> int
    decreases keys.len(),
{
    if keys.len() == 0 {
        0
    } else if corners(keys[0]) == corners(key) {
        0
    } else {
        1 + place(keys.drop_first(), key)
    }
}

/// The values found so far, each under the bounding box of its component.
/// A later value replaces an earlier one under the same box. A box is a
/// pair of corners, and the hash maps of the standard library are specified
/// for keys that are integers: the table keeps keys and values side by
/// side, in the order in which the keys came.
pub struct TagMap<V> {
    pub keys: Vec<[(u32, u32); 2]>,
    pub values: Vec<V>,
}

impl<V> TagMap<V> {
    /// As many values as keys, and no key twice.
    pub open spec fn wf(self) -> bool {
        &&& self.keys.len() == self.values.len()
        &&& forall|i: int, j: int|
            0 <= i < j < self.keys.len() ==> corners(#[trigger] self.keys[i]) != corners(
                #[trigger] self.keys[j],
            )
    }

    /// An empty table.
    pub fn new() -> (t: TagMap<V>)
        ensures
            t.wf(),
            t.keys.len() == 0,
            t.values.len() == 0,
    {
        TagMap { keys: Vec::new(), values: Vec::new() }
    }

    /// The number of entries.
    pub fn len(&self) -> (n: usize)
        ensures
            n == self.keys.len(),
    {
        self.keys.len()
    }

    /// Puts `value` under `key`: in the place of the value that stands
    /// under `key`, or behind all others.
    pub fn insert(&mut self, key: [(u32, u32); 2], value: V)
        requires
            old(self).wf(),
        ensures
            final(self).wf(),
            place(old(self).keys@, key) < old(self).keys.len() ==> final(self).keys@ == old(self).keys@
                && final(self).values@ == old(self).values@.update(place(old(self).keys@, key), value),
            place(old(self).keys@, key) >= old(self).keys.len() ==> final(self).keys@ == old(
                self,
            ).keys@.push(key) && final(self).values@ == old(self).values@.push(value),
    {
        let mut i: usize = 0;
        assert(self.keys@.skip(0) =~= self.keys@);
        while i < self.keys.len()
            invariant
                i <= self.keys.len(),
                self.keys@ == old(self).keys@,
                self.values@ == old(self).values@,
                self.wf(),
                place(self.keys@, key) == i + place(self.keys@.skip(i as int), key),
            decreases self.keys.len() - i,
        {
            let k = self.keys[i];
            proof {
                assert(self.keys@.skip(i as int)[0] == k);
                assert(self.keys@.skip(i as int).drop_first() =~= self.keys@.skip(i + 1));
            }
            if k[0].0 == key[0].0 && k[0].1 == key[0].1 && k[1].0 == key[1].0 && k[1].1 == key[1].1 {
                self.values[i] = value;
                return ;
            }
            i = i + 1;
        }
        proof {
            assert(self.keys@.skip(i as int).len() == 0);
            lemma_place(self.keys@, key);
            assert forall|a: int, b: int| 0 <= a < b < self.keys@.push(key).len() implies corners(
                #[trigger] self.keys@.push(key)[a],
            ) != corners(#[trigger] self.keys@.push(key)[b]) by {
                if b == self.keys.len() {
                    assert(corners(self.keys@[a]) != corners(key));
                }
            }
        }
        self.keys.push(key);
        self.values.push(value);
    }
}

/// What a table holds, as a value: the keys in the order in which they
/// came, and what stands under each.
#[verifier::ext_equal]
pub struct Registry<S> {
    pub keys: Seq<[(u32, u32); 2]>,
    pub shapes: Seq<S>,
}

impl<S> Registry<S> {
    /// The registry after `shape` has been put under `key`.
    pub open spec fn put(self, key: [(u32, u32); 2], shape: S) -> Registry<S> {
        let i = place(self.keys, key);
        if i < self.keys.len() {
            Registry { keys: self.keys, shapes: self.shapes.update(i, shape) }
        } else {
            Registry { keys: self.keys.push(key), shapes: self.shapes.push(shape) }
        }
    }
}

/// `place` finds the first key with the corners of `key`.
pub proof fn lemma_place(keys: Seq<[(u32, u32); 2]>, key: [(u32, u32); 2])
    ensures
        0 <= place(keys, key) <= keys.len(),
        place(keys, key) < keys.len() ==> corners(keys[place(keys, key)]) == corners(key),
        forall|i: int| 0 <= i < place(keys, key) ==> corners(#[trigger] keys[i]) != corners(key),
    decreases keys.len(),
{
    if keys.len() > 0 && corners(keys[0]) != corners(key) {
        lemma_place(keys.drop_first(), key);
        assert forall|i: int| 0 <= i < place(keys, key) implies corners(#[trigger] keys[i]) != corners(
            key,
        ) by {
            if i > 0 {
                assert(keys[i] == keys.drop_first()[i - 1]);
            }
        }
    }
}

} // verus!
