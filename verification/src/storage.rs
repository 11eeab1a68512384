//! Storage module for FSID mappings

use vstd::prelude::*;
use crate::text::str_eq;

verus! {

/// No two entries share a key.
pub open spec fn distinct_keys(es: Seq<(String, String)>) -> bool {
    forall|i: int, j: int|
        0 <= i < es.len() && 0 <= j < es.len() && i != j ==> (#[trigger] es[i]).0@ != (
        #[trigger] es[j]).0@
}

/// The mapping that a list of entries stands for (a later entry wins).
pub open spec fn entry_map(es: Seq<(String, String)>) -> Map<Seq<char>, Seq<char>>
    decreases es.len(),
{
    if es.len() == 0 {
        Map::empty()
    } else {
        entry_map(es.drop_last()).insert(es.last().0@, es.last().1@)
    }
}

/// The texts of a list of entries.
pub open spec fn pairs(es: Seq<(String, String)>) -> Seq<(Seq<char>, Seq<char>)> {
    es.map_values(|e: (String, String)| (e.0@, e.1@))
}

/// The mapping that a list of key and value texts stands for (a later pair wins).
pub open spec fn pair_map(ps: Seq<(Seq<char>, Seq<char>)>) -> Map<Seq<char>, Seq<char>>
    decreases ps.len(),
{
    if ps.len() == 0 {
        Map::empty()
    } else {
        pair_map(ps.drop_last()).insert(ps.last().0, ps.last().1)
    }
}

/// No two pairs share a key.
pub open spec fn distinct_firsts(ps: Seq<(Seq<char>, Seq<char>)>) -> bool {
    forall|i: int, j: int|
        0 <= i < ps.len() && 0 <= j < ps.len() && i != j ==> (#[trigger] ps[i]).0 != (
        #[trigger] ps[j]).0
}

/// The texts of the entries stand for the same mapping, and keep their keys apart.
pub proof fn lemma_pairs(es: Seq<(String, String)>)
    ensures
        pair_map(pairs(es)) == entry_map(es),
        distinct_keys(es) ==> distinct_firsts(pairs(es)),
    decreases es.len(),
{
    if es.len() > 0 {
        lemma_pairs(es.drop_last());
        assert(pairs(es).drop_last() =~= pairs(es.drop_last()));
    }
    if distinct_keys(es) {
        assert forall|i: int, j: int|
            0 <= i < pairs(es).len() && 0 <= j < pairs(es).len() && i != j implies (
            #[trigger] pairs(es)[i]).0 != (#[trigger] pairs(es)[j]).0 by {
            assert(es[i].0@ != es[j].0@);
        }
    }
}

/// Storage for FSID -> Path mappings: pairs of an FSID and its path, in the
/// order the FSIDs were first inserted, no FSID twice (the type invariant).
/// Seen as a map from FSID to path.
pub struct FsidStorage {
    mappings: Vec<(String, String)>,
}

impl View for FsidStorage {
    type V = Map<Seq<char>, Seq<char>>;

    closed spec fn view(&self) -> Map<Seq<char>, Seq<char>> {
        entry_map(self.mappings@)
    }
}

/// A key is in the mapping exactly when some entry has it, and then maps to
/// that entry's value.
pub proof fn lemma_entry_map(es: Seq<(String, String)>, k: Seq<char>)
    requires
        distinct_keys(es),
    ensures
        entry_map(es).dom().contains(k) == exists|i: int| 0 <= i < es.len() && (#[trigger] es[i]).0@ == k,
        forall|i: int| 0 <= i < es.len() && (#[trigger] es[i]).0@ == k ==> entry_map(es)[k] == es[i].1@,
    decreases es.len(),
{
    if es.len() > 0 {
        let init = es.drop_last();
        assert(distinct_keys(init)) by {
            assert forall|i: int, j: int|
                0 <= i < init.len() && 0 <= j < init.len() && i != j implies (#[trigger] init[i]).0@
                != (#[trigger] init[j]).0@ by {
                assert(init[i] == es[i] && init[j] == es[j]);
            }
        }
        lemma_entry_map(init, k);
        if entry_map(es).dom().contains(k) && es.last().0@ != k {
            let i = choose|i: int| 0 <= i < init.len() && (#[trigger] init[i]).0@ == k;
            assert(es[i] == init[i]);
        }
        assert forall|i: int| 0 <= i < es.len() && (#[trigger] es[i]).0@ == k implies entry_map(es)[k]
            == es[i].1@ by {
            if i < es.len() - 1 {
                assert(es[i] == init[i]);
                assert(es[es.len() - 1].0@ != k);
            }
        }
        if exists|i: int| 0 <= i < es.len() && (#[trigger] es[i]).0@ == k {
            let i = choose|i: int| 0 <= i < es.len() && (#[trigger] es[i]).0@ == k;
            if i < es.len() - 1 {
                assert(es[i] == init[i]);
            }
        }
    }
}

/// Replacing the value of an entry updates the mapping at its key.
proof fn lemma_entry_map_update(es: Seq<(String, String)>, j: int, e: (String, String))
    requires
        distinct_keys(es),
        0 <= j < es.len(),
        es[j].0@ == e.0@,
    ensures
        entry_map(es.update(j, e)) == entry_map(es).insert(e.0@, e.1@),
    decreases es.len(),
{
    let init = es.drop_last();
    if j == es.len() - 1 {
        assert(es.update(j, e).drop_last() =~= init);
        assert(entry_map(es.update(j, e)) =~= entry_map(es).insert(e.0@, e.1@));
    } else {
        assert(distinct_keys(init)) by {
            assert forall|a: int, b: int|
                0 <= a < init.len() && 0 <= b < init.len() && a != b implies (#[trigger] init[a]).0@
                != (#[trigger] init[b]).0@ by {
                assert(init[a] == es[a] && init[b] == es[b]);
            }
        }
        assert(init[j] == es[j]);
        lemma_entry_map_update(init, j, e);
        assert(es.update(j, e).drop_last() =~= init.update(j, e));
        assert(es.update(j, e).last() == es.last());
        assert(es[es.len() - 1].0@ != es[j].0@);
        assert(entry_map(es.update(j, e)) =~= entry_map(es).insert(e.0@, e.1@));
    }
}

impl FsidStorage {
    /// The entries never share a key.
    #[verifier::type_invariant]
    spec fn keys_are_distinct(self) -> bool {
        distinct_keys(self.mappings@)
    }

    /// An empty storage.
    pub fn new() -> (r: Self)
        ensures
            r@ == Map::<Seq<char>, Seq<char>>::empty(),
    {
        FsidStorage { mappings: Vec::new() }
    }

    /// The entries, in the order they were first inserted.
    pub fn entries(&self) -> (r: &Vec<(String, String)>)
        ensures
            distinct_keys(r@),
            entry_map(r@) == self@,
            distinct_firsts(pairs(r@)),
            pair_map(pairs(r@)) == self@,
    {
        proof {
            use_type_invariant(self);
            lemma_pairs(self.mappings@);
        }
        &self.mappings
    }

    /// Index of the entry with key `key`, if any.
    fn position(es: &Vec<(String, String)>, key: &str) -> (r: Option<usize>)
        ensures
            match r {
                Some(i) => i < es@.len() && es@[i as int].0@ == key@,
                None => forall|i: int| 0 <= i < es@.len() ==> (#[trigger] es@[i]).0@ != key@,
            },
    {
        let mut i: usize = 0;
        while i < es.len()
            invariant
                0 <= i <= es@.len(),
                forall|k: int| 0 <= k < i ==> (#[trigger] es@[k]).0@ != key@,
            decreases es@.len() - i,
        {
            if str_eq(es[i].0.as_str(), key) {
                return Some(i);
            }
            i += 1;
        }
        None
    }

    /// Insert a mapping (saving it is up to the caller)
    pub fn insert(&mut self, fsid: String, file_path: String)
        ensures
            final(self)@ == old(self)@.insert(fsid@, file_path@),
    {
        proof {
            use_type_invariant(&*self);
        }
        let mut es: Vec<(String, String)> = Vec::new();
        std::mem::swap(&mut es, &mut self.mappings);
        let ghost old_es = es@;
        match Self::position(&es, fsid.as_str()) {
            Some(i) => {
                proof {
                    lemma_entry_map_update(old_es, i as int, (fsid, file_path));
                }
                es.set(i, (fsid, file_path));
                proof {
                    assert(es@ == old_es.update(i as int, (fsid, file_path)));
                    assert forall|a: int, b: int|
                        0 <= a < es@.len() && 0 <= b < es@.len() && a != b implies (
                        #[trigger] es@[a]).0@ != (#[trigger] es@[b]).0@ by {
                        if a != i && b != i {
                            assert(es@[a] == old_es[a] && es@[b] == old_es[b]);
                        } else if a == i {
                            assert(es@[b] == old_es[b]);
                            assert(old_es[i as int].0@ == fsid@);
                        } else {
                            assert(es@[a] == old_es[a]);
                            assert(old_es[i as int].0@ == fsid@);
                        }
                    }
                }
            },
            None => {
                es.push((fsid, file_path));
                proof {
                    assert(es@.drop_last() =~= old_es);
                    assert forall|a: int, b: int|
                        0 <= a < es@.len() && 0 <= b < es@.len() && a != b implies (
                        #[trigger] es@[a]).0@ != (#[trigger] es@[b]).0@ by {
                        if a < old_es.len() && b < old_es.len() {
                            assert(es@[a] == old_es[a] && es@[b] == old_es[b]);
                        } else if a < old_es.len() {
                            assert(es@[a] == old_es[a]);
                        } else {
                            assert(es@[b] == old_es[b]);
                        }
                    }
                }
            },
        }
        self.mappings = es;
    }

    /// Get a path by FSID
    pub fn get(&self, fsid: &str) -> (r: Option<&String>)
        ensures
            match r {
                Some(p) => self@.contains_key(fsid@) && self@[fsid@] == p@,
                None => !self@.contains_key(fsid@),
            },
    {
        proof {
            use_type_invariant(self);
            lemma_entry_map(self.mappings@, fsid@);
        }
        match Self::position(&self.mappings, fsid) {
            Some(i) => Some(&self.mappings[i].1),
            None => None,
        }
    }
}

impl Default for FsidStorage {
    fn default() -> (r: Self)
        ensures
            r@ == Map::<Seq<char>, Seq<char>>::empty(),
    {
        FsidStorage::new()
    }
}


/// What a lookup gives after an insertion: the inserted path for the inserted
/// FSID, and for any other FSID what it gave before.
pub proof fn law_get_after_insert(
    before: Map<Seq<char>, Seq<char>>,
    fsid: Seq<char>,
    path: Seq<char>,
    other: Seq<char>,
)
    ensures
        before.insert(fsid, path).contains_key(fsid),
        before.insert(fsid, path)[fsid] == path,
        other != fsid ==> before.insert(fsid, path).contains_key(other) == before.contains_key(other),
        other != fsid && before.contains_key(other) ==> before.insert(fsid, path)[other] == before[other],
{
}

} // verus!
