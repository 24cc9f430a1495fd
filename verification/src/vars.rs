//! The variable bucket: a map from variable name to value, keys unique,
//! first-insertion order preserved, abstracted as a `Map<Seq<char>,
//! Seq<char>>`.

use vstd::prelude::*;

verus! {

/// The map value of a sequence of name/value pairs, a later pair with the
/// same name overwriting an earlier one.
pub open spec fn pairs_map(v: Seq<(String, String)>) -> Map<Seq<char>, Seq<char>>
    decreases v.len(),
{
    if v.len() == 0 {
        Map::empty()
    } else {
        pairs_map(v.drop_last()).insert(v.last().0@, v.last().1@)
    }
}

/// A name is in the map exactly when some pair carries it.
proof fn lemma_pairs_map_dom(v: Seq<(String, String)>, k: Seq<char>)
    ensures
        pairs_map(v).contains_key(k) <==> exists|i: int|
            0 <= i < v.len() && (#[trigger] v[i]).0@ == k,
    decreases v.len(),
{
    if v.len() > 0 {
        lemma_pairs_map_dom(v.drop_last(), k);
        if pairs_map(v).contains_key(k) {
            if v.last().0@ != k {
                let i = choose|i: int| 0 <= i < v.drop_last().len() && (#[trigger] v.drop_last()[i]).0@ == k;
                assert(v[i].0@ == k);
            } else {
                assert(v[v.len() - 1].0@ == k);
            }
        }
        if exists|i: int| 0 <= i < v.len() && (#[trigger] v[i]).0@ == k {
            let i = choose|i: int| 0 <= i < v.len() && (#[trigger] v[i]).0@ == k;
            if i < v.len() - 1 {
                assert(v.drop_last()[i].0@ == k);
            }
        }
    }
}

/// With unique names, the pair at any index is what the map holds for its
/// name.
proof fn lemma_pairs_map_index(v: Seq<(String, String)>, i: int)
    requires
        forall|a: int, b: int| 0 <= a < b < v.len() ==> (#[trigger] v[a]).0@ != (#[trigger] v[b]).0@,
        0 <= i < v.len(),
    ensures
        pairs_map(v).contains_key(v[i].0@),
        pairs_map(v)[v[i].0@] == v[i].1@,
    decreases v.len(),
{
    if i == v.len() - 1 {
        assert(v.last() == v[i]);
    } else {
        lemma_pairs_map_index(v.drop_last(), i);
        assert(v.drop_last()[i] == v[i]);
        assert(v.last().0@ != v[i].0@);
    }
}

/// Replacing the value at an existing name is, abstractly, a map insert.
proof fn lemma_pairs_map_update(v: Seq<(String, String)>, i: int, p: (String, String))
    requires
        forall|a: int, b: int| 0 <= a < b < v.len() ==> (#[trigger] v[a]).0@ != (#[trigger] v[b]).0@,
        0 <= i < v.len(),
        p.0@ == v[i].0@,
    ensures
        pairs_map(v.update(i, p)) == pairs_map(v).insert(p.0@, p.1@),
    decreases v.len(),
{
    let w = v.update(i, p);
    if i == v.len() - 1 {
        assert(w.drop_last() =~= v.drop_last());
        assert(w.last() == p);
        assert(pairs_map(v.drop_last()).insert(p.0@, p.1@) =~= pairs_map(v.drop_last()).insert(
            v.last().0@,
            v.last().1@,
        ).insert(p.0@, p.1@));
    } else {
        assert(w.drop_last() =~= v.drop_last().update(i, p));
        assert(v.drop_last()[i] == v[i]);
        lemma_pairs_map_update(v.drop_last(), i, p);
        assert(w.last() == v.last());
        assert(v.last().0@ != p.0@);
        assert(pairs_map(v.drop_last()).insert(p.0@, p.1@).insert(v.last().0@, v.last().1@)
            =~= pairs_map(v.drop_last()).insert(v.last().0@, v.last().1@).insert(p.0@, p.1@));
    }
}

/// A map from variable name to value. Pairs are kept in first-insertion
/// order and names stay unique; a later insert for a known name overwrites
/// its value in place.
#[derive(Debug, Clone)]
pub struct VariableMap {
    /// The name/value pairs, in first-insertion order.
    pub entries: Vec<(String, String)>,
}

impl View for VariableMap {
    type V = Map<Seq<char>, Seq<char>>;

    open spec fn view(&self) -> Map<Seq<char>, Seq<char>> {
        pairs_map(self.entries@)
    }
}

impl VariableMap {
    /// Well-formedness: no two pairs carry the same name.
    pub open spec fn wf(&self) -> bool {
        forall|a: int, b: int|
            0 <= a < b < self.entries@.len() ==> (#[trigger] self.entries@[a]).0@ != (
            #[trigger] self.entries@[b]).0@
    }

    /// The empty map.
    pub fn new() -> (m: VariableMap)
        ensures
            m.wf(),
            m@ == Map::<Seq<char>, Seq<char>>::empty(),
            m.entries@.len() == 0,
    {
        VariableMap { entries: Vec::new() }
    }

    /// The number of names held.
    pub fn len(&self) -> (n: usize)
        ensures
            n == self.entries@.len(),
            self.wf() ==> n == self@.dom().len(),
    {
        proof {
            if self.wf() {
                lemma_pairs_len(self.entries@);
            }
        }
        self.entries.len()
    }

    /// The index of the pair carrying `name`, if one does.
    fn find(&self, name: &str) -> (r: Option<usize>)
        ensures
            match r {
                Some(i) => i < self.entries@.len() && self.entries@[i as int].0@ == name@,
                None => forall|j: int|
                    0 <= j < self.entries@.len() ==> (#[trigger] self.entries@[j]).0@ != name@,
            },
    {
        let key = name.to_owned();
        let mut i: usize = 0;
        while i < self.entries.len()
            invariant
                key@ == name@,
                i <= self.entries@.len(),
                forall|j: int| 0 <= j < i ==> (#[trigger] self.entries@[j]).0@ != name@,
            decreases self.entries@.len() - i,
        {
            if self.entries[i].0.eq(&key) {
                return Some(i);
            }
            i = i + 1;
        }
        None
    }

    /// The value recorded for `name`, if any.
    pub fn get(&self, name: &str) -> (r: Option<&String>)
        requires
            self.wf(),
        ensures
            match r {
                Some(v) => self@.contains_key(name@) && v@ == self@[name@],
                None => !self@.contains_key(name@),
            },
    {
        proof {
            lemma_pairs_map_dom(self.entries@, name@);
        }
        match self.find(name) {
            Some(i) => {
                proof {
                    lemma_pairs_map_index(self.entries@, i as int);
                }
                Some(&self.entries[i].1)
            },
            None => None,
        }
    }

    /// Records `value` for `name`, overwriting any earlier value for the
    /// same name; a new name is appended at the end.
    pub fn insert(&mut self, name: String, value: String)
        requires
            old(self).wf(),
        ensures
            final(self).wf(),
            final(self)@ == old(self)@.insert(name@, value@),
    {
        let ghost before = self.entries@;
        match self.find(&name) {
            Some(i) => {
                proof {
                    lemma_pairs_map_update(before, i as int, (name, value));
                }
                self.entries.set(i, (name, value));
                proof {
                    assert forall|a: int, b: int|
                        0 <= a < b < self.entries@.len() implies (#[trigger] self.entries@[a]).0@
                        != (#[trigger] self.entries@[b]).0@ by {
                        assert(self.entries@[a].0@ == before[a].0@);
                        assert(self.entries@[b].0@ == before[b].0@);
                    }
                }
            },
            None => {
                self.entries.push((name, value));
                proof {
                    assert(self.entries@.drop_last() =~= before);
                    assert(self.entries@.last() == (name, value));
                    assert forall|a: int, b: int|
                        0 <= a < b < self.entries@.len() implies (#[trigger] self.entries@[a]).0@
                        != (#[trigger] self.entries@[b]).0@ by {
                        if b == self.entries@.len() - 1 {
                            assert(before[a].0@ != name@);
                        }
                    }
                }
            },
        }
    }
}

/// With unique names, the map holds exactly one name per pair.
proof fn lemma_pairs_len(v: Seq<(String, String)>)
    requires
        forall|a: int, b: int| 0 <= a < b < v.len() ==> (#[trigger] v[a]).0@ != (#[trigger] v[b]).0@,
    ensures
        pairs_map(v).dom().len() == v.len(),
        pairs_map(v).dom().finite(),
    decreases v.len(),
{
    if v.len() > 0 {
        lemma_pairs_len(v.drop_last());
        lemma_pairs_map_dom(v.drop_last(), v.last().0@);
        assert(forall|i: int|
            0 <= i < v.drop_last().len() ==> (#[trigger] v.drop_last()[i]).0@ != v.last().0@);
        assert(!pairs_map(v.drop_last()).contains_key(v.last().0@));
        vstd::set::axiom_set_insert_len(pairs_map(v.drop_last()).dom(), v.last().0@);
        assert(pairs_map(v).dom() =~= pairs_map(v.drop_last()).dom().insert(v.last().0@));
    }
}

} // verus!
