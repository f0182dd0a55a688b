//! The decoded form of one dictionary entry: a map from a one-byte field
//! tag to the field's value bytes.
//!
//! Tags keep the position of their first appearance and a repeated tag
//! overwrites the earlier value, so one decode always yields one map with
//! one value per tag, in a deterministic order.

use vstd::prelude::*;
use vstd::pervasive::VecAdditionalExecFns;

verus! {

/// `m` with `t` bound to `v`: the first pair carrying `t` is replaced in
/// place, or `(t, v)` is appended when no pair carries `t`.
pub open spec fn fm_insert(m: Seq<(u8, Seq<u8>)>, t: u8, v: Seq<u8>) -> Seq<(u8, Seq<u8>)>
    decreases m.len(),
{
    if m.len() == 0 {
        seq![(t, v)]
    } else if m[0].0 == t {
        seq![(t, v)] + m.drop_first()
    } else {
        seq![m[0]] + fm_insert(m.drop_first(), t, v)
    }
}

/// The value bound to `t` in `m`, if any.
pub open spec fn fm_get(m: Seq<(u8, Seq<u8>)>, t: u8) -> Option<Seq<u8>>
    decreases m.len(),
{
    if m.len() == 0 {
        None
    } else if m[0].0 == t {
        Some(m[0].1)
    } else {
        fm_get(m.drop_first(), t)
    }
}

/// The map that inserting the pairs of `ps` one after the other builds up
/// from the empty map.
pub open spec fn fm_fold(ps: Seq<(u8, Seq<u8>)>) -> Seq<(u8, Seq<u8>)>
    decreases ps.len(),
{
    if ps.len() == 0 {
        Seq::empty()
    } else {
        fm_insert(fm_fold(ps.drop_last()), ps.last().0, ps.last().1)
    }
}

proof fn lemma_fm_insert_at(m: Seq<(u8, Seq<u8>)>, t: u8, v: Seq<u8>, i: int)
    requires
        0 <= i < m.len(),
        m[i].0 == t,
        forall|j: int| 0 <= j < i ==> m[j].0 != t,
    ensures
        fm_insert(m, t, v) == m.update(i, (t, v)),
    decreases m.len(),
{
    if i == 0 {
        assert(fm_insert(m, t, v) =~= m.update(0, (t, v)));
    } else {
        assert(forall|j: int| 0 <= j < i - 1 ==> m.drop_first()[j] == m[j + 1]);
        lemma_fm_insert_at(m.drop_first(), t, v, i - 1);
        assert(fm_insert(m, t, v) =~= m.update(i, (t, v)));
    }
}

proof fn lemma_fm_insert_absent(m: Seq<(u8, Seq<u8>)>, t: u8, v: Seq<u8>)
    requires
        forall|j: int| 0 <= j < m.len() ==> m[j].0 != t,
    ensures
        fm_insert(m, t, v) == m.push((t, v)),
    decreases m.len(),
{
    if m.len() > 0 {
        assert(forall|j: int| 0 <= j < m.drop_first().len() ==> m.drop_first()[j] == m[j + 1]);
        lemma_fm_insert_absent(m.drop_first(), t, v);
        assert(fm_insert(m, t, v) =~= m.push((t, v)));
    } else {
        assert(fm_insert(m, t, v) =~= m.push((t, v)));
    }
}

proof fn lemma_fm_get_at(m: Seq<(u8, Seq<u8>)>, t: u8, i: int)
    requires
        0 <= i < m.len(),
        m[i].0 == t,
        forall|j: int| 0 <= j < i ==> m[j].0 != t,
    ensures
        fm_get(m, t) == Some(m[i].1),
    decreases m.len(),
{
    if i > 0 {
        assert(forall|j: int| 0 <= j < i - 1 ==> m.drop_first()[j] == m[j + 1]);
        lemma_fm_get_at(m.drop_first(), t, i - 1);
    }
}

proof fn lemma_fm_get_none(m: Seq<(u8, Seq<u8>)>, t: u8)
    requires
        forall|j: int| 0 <= j < m.len() ==> m[j].0 != t,
    ensures
        fm_get(m, t) is None,
    decreases m.len(),
{
    if m.len() > 0 {
        assert(forall|j: int| 0 <= j < m.drop_first().len() ==> m.drop_first()[j] == m[j + 1]);
        lemma_fm_get_none(m.drop_first(), t);
    }
}

/// One decoded entry: field-tag/value pairs in first-appearance order.
pub struct FieldMap {
    pairs: Vec<(u8, Vec<u8>)>,
}

impl View for FieldMap {
    type V = Seq<(u8, Seq<u8>)>;

    closed spec fn view(&self) -> Seq<(u8, Seq<u8>)> {
        self.pairs@.map_values(|p: (u8, Vec<u8>)| (p.0, p.1@))
    }
}

impl FieldMap {
    /// The empty field map.
    pub fn new() -> (r: FieldMap)
        ensures
            r@ == Seq::<(u8, Seq<u8>)>::empty(),
    {
        let r = FieldMap { pairs: Vec::new() };
        proof {
            assert(r@ =~= Seq::<(u8, Seq<u8>)>::empty());
        }
        r
    }

    /// Index of the first pair carrying `tag`, if any.
    fn position(&self, tag: u8) -> (r: Option<usize>)
        ensures
            match r {
                Some(i) => i < self@.len() && self@[i as int].0 == tag && forall|j: int|
                    0 <= j < i ==> self@[j].0 != tag,
                None => forall|j: int| 0 <= j < self@.len() ==> self@[j].0 != tag,
            },
    {
        let mut i: usize = 0;
        while i < self.pairs.len()
            invariant
                i <= self.pairs.len(),
                self@.len() == self.pairs.len(),
                forall|j: int| 0 <= j < i ==> self@[j].0 != tag,
            decreases self.pairs.len() - i,
        {
            if self.pairs[i].0 == tag {
                return Some(i);
            }
            i = i + 1;
        }
        None
    }

    /// Binds `tag` to `value`, overwriting the value of an earlier pair
    /// with the same tag in place.
    pub fn insert(&mut self, tag: u8, value: Vec<u8>)
        ensures
            final(self)@ == fm_insert(old(self)@, tag, value@),
    {
        let ghost m = self@;
        match self.position(tag) {
            Some(i) => {
                self.pairs.set(i, (tag, value));
                proof {
                    lemma_fm_insert_at(m, tag, value@, i as int);
                    assert(self@ =~= m.update(i as int, (tag, value@)));
                }
            },
            None => {
                self.pairs.push((tag, value));
                proof {
                    lemma_fm_insert_absent(m, tag, value@);
                    assert(self@ =~= m.push((tag, value@)));
                }
            },
        }
    }

    /// The value bound to `tag`, if any.
    pub fn get(&self, tag: u8) -> (r: Option<&Vec<u8>>)
        ensures
            match r {
                Some(v) => fm_get(self@, tag) == Some(v@),
                None => fm_get(self@, tag) is None,
            },
    {
        let mut i: usize = 0;
        while i < self.pairs.len()
            invariant
                i <= self.pairs.len(),
                self@.len() == self.pairs.len(),
                forall|j: int| 0 <= j < i ==> self@[j].0 != tag,
            decreases self.pairs.len() - i,
        {
            if self.pairs[i].0 == tag {
                proof {
                    lemma_fm_get_at(self@, tag, i as int);
                }
                return Some(&self.pairs[i].1);
            }
            i = i + 1;
        }
        proof {
            lemma_fm_get_none(self@, tag);
        }
        None
    }

    /// How many distinct tags the map holds.
    pub fn len(&self) -> (r: usize)
        ensures
            r == self@.len(),
    {
        self.pairs.len()
    }

    /// The tag of the pair at position `i`.
    pub fn tag_at(&self, i: usize) -> (r: u8)
        requires
            i < self@.len(),
        ensures
            r == self@[i as int].0,
    {
        self.pairs[i].0
    }

    /// The value of the pair at position `i`.
    pub fn value_at(&self, i: usize) -> (r: &Vec<u8>)
        requires
            i < self@.len(),
        ensures
            r@ == self@[i as int].1,
    {
        &self.pairs[i].1
    }
}

} // verus!
