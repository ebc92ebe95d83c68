//! The positional index: for each value of a sequence, the ascending list of
//! the positions that hold it. Values below `DENSE_KEYS` live in a dense
//! table of lists, larger ones in an integer-keyed hash map.
use vstd::prelude::*;
use intmap::IntMap;
use crate::int_map::{list_contents, lists_get, lists_insert, lists_new, lists_remove};

verus! {

/// Keys below this bound are stored in the dense table.
pub const DENSE_KEYS: usize = 65536;

/// The positions `p < hi` with `s[p] == v`, in increasing order.
pub open spec fn positions_of(s: Seq<u64>, v: u64, hi: int) -> Seq<usize>
    decreases hi,
{
    if hi <= 0 {
        Seq::empty()
    } else if s[hi - 1] == v {
        positions_of(s, v, hi - 1).push((hi - 1) as usize)
    } else {
        positions_of(s, v, hi - 1)
    }
}

/// A list of positions in strictly increasing order.
pub open spec fn strictly_increasing(l: Seq<usize>) -> bool {
    forall|a: int, b: int| 0 <= a < b < l.len() ==> l[a] < l[b]
}

/// Every position that `positions_of` lists is below `hi` and holds `v`,
/// and the list is strictly increasing.
pub proof fn lemma_positions_of(s: Seq<u64>, v: u64, hi: int)
    requires
        0 <= hi <= s.len(),
        s.len() <= usize::MAX,
    ensures
        strictly_increasing(positions_of(s, v, hi)),
        positions_of(s, v, hi).len() <= hi,
        (exists|p: int| 0 <= p < hi && s[p] == v) ==> positions_of(s, v, hi).len() > 0,
        forall|k: int|
            0 <= k < positions_of(s, v, hi).len() ==> positions_of(s, v, hi)[k] < hi && s[positions_of(
                s,
                v,
                hi,
            )[k] as int] == v,
    decreases hi,
{
    if hi > 0 {
        lemma_positions_of(s, v, hi - 1);
        if s[hi - 1] != v && exists|p: int| 0 <= p < hi && s[p] == v {
            let p = choose|p: int| 0 <= p < hi && s[p] == v;
            assert(p < hi - 1);
        }
    }
}

/// Map from value to the ascending list of its positions.
pub struct FastHashSet {
    vec: Vec<Vec<usize>>,
    map: IntMap<Vec<usize>>,
}

impl View for FastHashSet {
    type V = Map<u64, Seq<usize>>;

    /// A value is present when its list is stored; in the dense table an empty
    /// list stands for an absent value.
    closed spec fn view(&self) -> Map<u64, Seq<usize>> {
        Map::new(
            |k: u64|
                if k < DENSE_KEYS {
                    self.vec@[k as int]@.len() > 0
                } else {
                    list_contents(self.map).contains_key(k)
                },
            |k: u64|
                if k < DENSE_KEYS {
                    self.vec@[k as int]@
                } else {
                    list_contents(self.map)[k]
                },
        )
    }
}

impl FastHashSet {
    /// The dense table covers every small key.
    pub closed spec fn wf(&self) -> bool {
        self.vec@.len() == DENSE_KEYS
    }

    /// An index that holds no value.
    pub fn new() -> (r: FastHashSet)
        ensures
            r.wf(),
            r@.dom().is_empty(),
    {
        let mut vec: Vec<Vec<usize>> = Vec::new();
        let mut i: usize = 0;
        while i < DENSE_KEYS
            invariant
                vec@.len() == i,
                i <= DENSE_KEYS,
                forall|k: int| 0 <= k < i ==> vec@[k]@.len() == 0,
            decreases DENSE_KEYS - i,
        {
            vec.push(Vec::new());
            i = i + 1;
        }
        let r = FastHashSet { vec, map: lists_new() };
        assert(r@.dom() =~= Set::<u64>::empty());
        r
    }

    /// Stores `value` as the list of `key`. A small key with an empty list
    /// reads as absent.
    pub fn insert(&mut self, key: u64, value: Vec<usize>)
        requires
            old(self).wf(),
        ensures
            final(self).wf(),
            final(self)@ == (if key < DENSE_KEYS && value@.len() == 0 {
                old(self)@.remove(key)
            } else {
                old(self)@.insert(key, value@)
            }),
    {
        if key >= DENSE_KEYS as u64 {
            lists_insert(&mut self.map, key, value);
        } else {
            self.vec.set(key as usize, value);
        }
        proof {
            let after = final(self)@;
            if key < DENSE_KEYS && value@.len() == 0 {
                assert(after =~= old(self)@.remove(key));
            } else {
                assert(after =~= old(self)@.insert(key, value@));
            }
        }
    }

    /// The list of `key`, or `None` where the key is absent.
    pub fn get(&self, key: u64) -> (r: Option<&Vec<usize>>)
        requires
            self.wf(),
        ensures
            r.is_some() == self@.contains_key(key),
            r.is_some() ==> r.unwrap()@ == self@[key],
    {
        if key >= DENSE_KEYS as u64 {
            return lists_get(&self.map, key);
        }
        let l = &self.vec[key as usize];
        if l.len() == 0 {
            None
        } else {
            Some(l)
        }
    }

    /// Appends `position` to the list of `key`, which becomes present.
    pub fn push_position(&mut self, key: u64, position: usize)
        requires
            old(self).wf(),
        ensures
            final(self).wf(),
            final(self)@ == old(self)@.insert(
                key,
                if old(self)@.contains_key(key) {
                    old(self)@[key].push(position)
                } else {
                    seq![position]
                },
            ),
    {
        if key >= DENSE_KEYS as u64 {
            let taken = lists_remove(&mut self.map, key);
            let mut l = match taken {
                Some(l) => l,
                None => Vec::new(),
            };
            l.push(position);
            lists_insert(&mut self.map, key, l);
        } else {
            self.vec[key as usize].push(position);
        }
        proof {
            let want = old(self)@.insert(
                key,
                if old(self)@.contains_key(key) {
                    old(self)@[key].push(position)
                } else {
                    seq![position]
                },
            );
            if key < DENSE_KEYS && !old(self)@.contains_key(key) {
                assert(old(self).vec@[key as int]@ =~= Seq::<usize>::empty());
            }
            assert(final(self)@ =~= want);
        }
    }

    /// Removes every position of `key`; a small key keeps its emptied slot.
    pub fn remove(&mut self, key: u64)
        requires
            old(self).wf(),
        ensures
            final(self).wf(),
            final(self)@ == old(self)@.remove(key),
    {
        if key >= DENSE_KEYS as u64 {
            let _ = lists_remove(&mut self.map, key);
        } else {
            self.vec[key as usize].clear();
        }
        proof {
            assert(final(self)@ =~= old(self)@.remove(key));
        }
    }
}

/// Builds the index of `input`: each value that occurs maps to its positions.
pub fn index_positions(input: &[u64]) -> (r: FastHashSet)
    ensures
        r.wf(),
        forall|v: u64| #[trigger] r@.contains_key(v) <==> positions_of(input@, v, input@.len() as int).len() > 0,
        forall|v: u64| #[trigger] r@.contains_key(v) ==> r@[v] == positions_of(input@, v, input@.len() as int),
        forall|v: u64| #[trigger] r@.contains_key(v) ==> strictly_increasing(r@[v]),
{
    let mut index = FastHashSet::new();
    let mut i: usize = 0;
    while i < input.len()
        invariant
            i <= input@.len(),
            index.wf(),
            forall|v: u64| #[trigger] index@.contains_key(v) <==> positions_of(input@, v, i as int).len() > 0,
            forall|v: u64| #[trigger] index@.contains_key(v) ==> index@[v] == positions_of(input@, v, i as int),
        decreases input@.len() - i,
    {
        index.push_position(input[i], i);
        proof {
            assert forall|v: u64| v != input@[i as int] implies positions_of(input@, v, i as int + 1)
                == positions_of(input@, v, i as int) by {}
        }
        i = i + 1;
    }
    proof {
        assert forall|v: u64| #[trigger] index@.contains_key(v) implies strictly_increasing(index@[v]) by {
            lemma_positions_of(input@, v, input@.len() as int);
        }
    }
    index
}

} // verus!
