//! The header map: an insertion-ordered list of (name, value) entries with
//! pairwise-distinct names, viewed as a map from name to value. A repeated
//! insert under the same name overwrites the earlier value, so the map
//! always reflects the last occurrence.

use vstd::prelude::*;

use crate::text::bytes_eq;

verus! {

/// The map the entries denote, later entries overwriting earlier ones.
pub open spec fn entries_map(es: Seq<(Vec<u8>, Vec<u8>)>) -> Map<Seq<u8>, Seq<u8>>
    decreases es.len(),
{
    if es.len() == 0 {
        Map::empty()
    } else {
        entries_map(es.drop_last()).insert(es.last().0@, es.last().1@)
    }
}

/// Names pairwise distinct.
pub open spec fn distinct_names(es: Seq<(Vec<u8>, Vec<u8>)>) -> bool {
    forall|i: int, j: int| 0 <= i < j < es.len() ==> es[i].0@ != es[j].0@
}

proof fn lemma_entries_map_contains(es: Seq<(Vec<u8>, Vec<u8>)>, k: Seq<u8>)
    ensures
        entries_map(es).contains_key(k) <==> exists|i: int| 0 <= i < es.len() && es[i].0@ == k,
    decreases es.len(),
{
    if es.len() > 0 {
        lemma_entries_map_contains(es.drop_last(), k);
        if es.last().0@ == k {
            assert(es[es.len() - 1].0@ == k);
        } else if entries_map(es).contains_key(k) {
            let i = choose|i: int| 0 <= i < es.drop_last().len() && es.drop_last()[i].0@ == k;
            assert(es[i].0@ == k);
        } else if exists|i: int| 0 <= i < es.len() && es[i].0@ == k {
            let i = choose|i: int| 0 <= i < es.len() && es[i].0@ == k;
            assert(i < es.len() - 1);
            assert(es.drop_last()[i].0@ == k);
        }
    }
}

proof fn lemma_entries_map_at(es: Seq<(Vec<u8>, Vec<u8>)>, i: int)
    requires
        distinct_names(es),
        0 <= i < es.len(),
    ensures
        entries_map(es).contains_key(es[i].0@),
        entries_map(es)[es[i].0@] == es[i].1@,
    decreases es.len(),
{
    if i == es.len() - 1 {
    } else {
        assert(es.drop_last()[i] == es[i]);
        lemma_entries_map_at(es.drop_last(), i);
        assert(es.last().0@ != es[i].0@);
    }
}

proof fn lemma_entries_map_update(es: Seq<(Vec<u8>, Vec<u8>)>, i: int, p: (Vec<u8>, Vec<u8>))
    requires
        distinct_names(es),
        0 <= i < es.len(),
        p.0@ == es[i].0@,
    ensures
        entries_map(es.update(i, p)) == entries_map(es).insert(p.0@, p.1@),
        distinct_names(es.update(i, p)),
    decreases es.len(),
{
    let k = p.0@;
    if i == es.len() - 1 {
        assert(es.update(i, p).drop_last() =~= es.drop_last());
        assert(es.update(i, p).last() == p);
        assert(entries_map(es.drop_last()).insert(k, es[i].1@).insert(k, p.1@) =~= entries_map(
            es.drop_last(),
        ).insert(k, p.1@));
    } else {
        assert(es.update(i, p).drop_last() =~= es.drop_last().update(i, p));
        assert(es.update(i, p).last() == es.last());
        assert(es.drop_last()[i] == es[i]);
        lemma_entries_map_update(es.drop_last(), i, p);
        assert(es.last().0@ != k);
        assert(entries_map(es.drop_last()).insert(k, p.1@).insert(es.last().0@, es.last().1@)
            =~= entries_map(es.drop_last()).insert(es.last().0@, es.last().1@).insert(k, p.1@));
    }
}

proof fn lemma_entries_map_remove(es: Seq<(Vec<u8>, Vec<u8>)>, i: int)
    requires
        distinct_names(es),
        0 <= i < es.len(),
    ensures
        entries_map(es.remove(i)) == entries_map(es).remove(es[i].0@),
        distinct_names(es.remove(i)),
    decreases es.len(),
{
    let k = es[i].0@;
    if i == es.len() - 1 {
        assert(es.remove(i) =~= es.drop_last());
        lemma_entries_map_contains(es.drop_last(), k);
        assert(forall|j: int| 0 <= j < es.drop_last().len() ==> es.drop_last()[j].0@ != k);
        assert(!entries_map(es.drop_last()).contains_key(k));
        assert(entries_map(es.drop_last()).insert(k, es.last().1@).remove(k) =~= entries_map(
            es.drop_last(),
        ));
    } else {
        assert(es.remove(i).drop_last() =~= es.drop_last().remove(i));
        assert(es.remove(i).last() == es.last());
        assert(es.drop_last()[i] == es[i]);
        lemma_entries_map_remove(es.drop_last(), i);
        assert(es.last().0@ != k);
        assert(entries_map(es.drop_last()).remove(k).insert(es.last().0@, es.last().1@)
            =~= entries_map(es.drop_last()).insert(es.last().0@, es.last().1@).remove(k));
        assert forall|a: int, b: int| 0 <= a < b < es.remove(i).len() implies es.remove(i)[a].0@
            != es.remove(i)[b].0@ by {
            let a0 = if a < i { a } else { a + 1 };
            let b0 = if b < i { b } else { b + 1 };
            assert(es.remove(i)[a] == es[a0]);
            assert(es.remove(i)[b] == es[b0]);
        }
    }
}

proof fn lemma_entries_map_len(es: Seq<(Vec<u8>, Vec<u8>)>)
    requires
        distinct_names(es),
    ensures
        entries_map(es).dom().finite(),
        entries_map(es).dom().len() == es.len(),
    decreases es.len(),
{
    if es.len() > 0 {
        lemma_entries_map_len(es.drop_last());
        lemma_entries_map_contains(es.drop_last(), es.last().0@);
        assert(forall|j: int| 0 <= j < es.drop_last().len() ==> es.drop_last()[j].0@
            != es.last().0@);
        assert(!entries_map(es.drop_last()).contains_key(es.last().0@));
        assert(entries_map(es).dom() =~= entries_map(es.drop_last()).dom().insert(es.last().0@));
    }
}

/// Header map: trimmed names to folded values, case-preserving, the last
/// write to a name winning.
#[derive(Debug)]
pub struct Headers {
    entries: Vec<(Vec<u8>, Vec<u8>)>,
}

impl View for Headers {
    type V = Map<Seq<u8>, Seq<u8>>;

    closed spec fn view(&self) -> Map<Seq<u8>, Seq<u8>> {
        entries_map(self.entries@)
    }
}

impl Headers {
    /// Entry names pairwise distinct; constructors establish it and every
    /// method preserves it.
    pub closed spec fn wf(&self) -> bool {
        distinct_names(self.entries@)
    }

    /// The empty header map.
    pub fn new() -> (r: Headers)
        ensures
            r@ == Map::<Seq<u8>, Seq<u8>>::empty(),
            r.wf(),
    {
        Headers { entries: Vec::new() }
    }

    /// Index of the entry carrying `name`, if one does.
    fn find_index(&self, name: &Vec<u8>) -> (r: Option<usize>)
        ensures
            match r {
                Some(i) => i < self.entries@.len() && self.entries@[i as int].0@ == name@,
                None => forall|k: int|
                    0 <= k < self.entries@.len() ==> self.entries@[k].0@ != name@,
            },
    {
        let mut i: usize = 0;
        while i < self.entries.len()
            invariant
                i <= self.entries@.len(),
                forall|k: int| 0 <= k < i ==> self.entries@[k].0@ != name@,
            decreases self.entries@.len() - i,
        {
            if bytes_eq(&self.entries[i].0, name) {
                return Some(i);
            }
            i += 1;
        }
        None
    }

    /// Binds `name` to `value`, overwriting any earlier value of `name`.
    pub fn insert(&mut self, name: Vec<u8>, value: Vec<u8>)
        requires
            old(self).wf(),
        ensures
            final(self).wf(),
            final(self)@ == old(self)@.insert(name@, value@),
    {
        match self.find_index(&name) {
            Some(i) => {
                proof {
                    lemma_entries_map_update(self.entries@, i as int, (name, value));
                }
                self.entries[i] = (name, value);
            },
            None => {
                proof {
                    let es = self.entries@;
                    let p = (name, value);
                    assert(es.push(p).drop_last() =~= es);
                    assert(es.push(p).last() == p);
                    assert forall|a: int, b: int| 0 <= a < b < es.push(p).len() implies es.push(
                        p,
                    )[a].0@ != es.push(p)[b].0@ by {
                        if b < es.len() {
                            assert(es.push(p)[a] == es[a]);
                            assert(es.push(p)[b] == es[b]);
                        } else {
                            assert(es.push(p)[a] == es[a]);
                            assert(es.push(p)[b] == p);
                        }
                    }
                }
                self.entries.push((name, value));
            },
        }
    }

    /// The value bound to `name`, if any.
    pub fn get(&self, name: &Vec<u8>) -> (r: Option<&Vec<u8>>)
        requires
            self.wf(),
        ensures
            match r {
                Some(v) => self@.contains_key(name@) && v@ == self@[name@],
                None => !self@.contains_key(name@),
            },
    {
        match self.find_index(name) {
            Some(i) => {
                proof {
                    lemma_entries_map_at(self.entries@, i as int);
                }
                Some(&self.entries[i].1)
            },
            None => {
                proof {
                    lemma_entries_map_contains(self.entries@, name@);
                }
                None
            },
        }
    }

    /// Takes the value bound to `name` out of the map, if any.
    pub fn remove(&mut self, name: &Vec<u8>) -> (r: Option<Vec<u8>>)
        requires
            old(self).wf(),
        ensures
            final(self).wf(),
            final(self)@ == old(self)@.remove(name@),
            match r {
                Some(v) => old(self)@.contains_key(name@) && v@ == old(self)@[name@],
                None => !old(self)@.contains_key(name@),
            },
    {
        match self.find_index(name) {
            Some(i) => {
                proof {
                    lemma_entries_map_at(self.entries@, i as int);
                    lemma_entries_map_remove(self.entries@, i as int);
                }
                let (_, v) = self.entries.remove(i);
                Some(v)
            },
            None => {
                proof {
                    lemma_entries_map_contains(self.entries@, name@);
                    assert(entries_map(self.entries@).remove(name@) =~= entries_map(
                        self.entries@,
                    ));
                }
                None
            },
        }
    }

    /// How many names are bound.
    pub fn len(&self) -> (r: usize)
        requires
            self.wf(),
        ensures
            r == self@.dom().len(),
    {
        proof {
            lemma_entries_map_len(self.entries@);
        }
        self.entries.len()
    }
}

} // verus!
