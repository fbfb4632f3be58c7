//! The in-memory table: a last-write-wins mapping from keys to values.
//!
//! The table is a vector of records whose keys are pairwise distinct;
//! its mathematical image is the finite map obtained by inserting the
//! records in order.  The same fold also gives replay its meaning, so
//! recovery and in-memory mutation are measured against one spec.

use vstd::prelude::*;
use crate::records::{LanguageInfo, InfoView, Record, RecordView};

verus! {

/// The table that results from applying `rs` in order on top of `t`:
/// each record inserts its value under its key, so a later record
/// under the same key wins.
pub open spec fn spec_replay(t: Map<Seq<char>, InfoView>, rs: Seq<RecordView>) -> Map<
    Seq<char>,
    InfoView,
>
    decreases rs.len(),
{
    if rs.len() == 0 {
        t
    } else {
        spec_replay(t, rs.drop_last()).insert(rs.last().key, rs.last().value)
    }
}

/// The map described by a sequence of records, starting from nothing.
pub open spec fn spec_map_of(rs: Seq<RecordView>) -> Map<Seq<char>, InfoView> {
    spec_replay(Map::empty(), rs)
}

pub open spec fn spec_unique_keys(rs: Seq<RecordView>) -> bool {
    forall|i: int, j: int| 0 <= i < j < rs.len() ==> rs[i].key != rs[j].key
}

/// Replay can also be unrolled from the front.
pub proof fn lemma_replay_first(t: Map<Seq<char>, InfoView>, rs: Seq<RecordView>)
    requires
        rs.len() > 0,
    ensures
        spec_replay(t, rs) == spec_replay(t.insert(rs[0].key, rs[0].value), rs.drop_first()),
    decreases rs.len(),
{
    if rs.len() == 1 {
        assert(rs.drop_last() =~= Seq::<RecordView>::empty());
        assert(rs.drop_first() =~= Seq::<RecordView>::empty());
        assert(rs.last() == rs[0]);
        assert(spec_replay(t, Seq::<RecordView>::empty()) == t);
        assert(spec_replay(t.insert(rs[0].key, rs[0].value), Seq::<RecordView>::empty())
            == t.insert(rs[0].key, rs[0].value));
    } else {
        assert(rs.drop_last().len() > 0);
        assert(rs.drop_last()[0] == rs[0]);
        lemma_replay_first(t, rs.drop_last());
        assert(rs.drop_last().drop_first() =~= rs.drop_first().drop_last());
        assert(rs.drop_first().last() == rs.last());
        assert(rs.drop_first().len() > 0);
    }
}

/// A key is in the map exactly when some record carries it.
pub proof fn lemma_map_of_contains(rs: Seq<RecordView>, k: Seq<char>)
    ensures
        spec_map_of(rs).contains_key(k) <==> exists|i: int| 0 <= i < rs.len() && rs[i].key == k,
    decreases rs.len(),
{
    if rs.len() > 0 {
        lemma_map_of_contains(rs.drop_last(), k);
        if spec_map_of(rs).contains_key(k) && rs.last().key != k {
            let i = choose|i: int| 0 <= i < rs.drop_last().len() && rs.drop_last()[i].key == k;
            assert(rs[i].key == k);
        }
        if exists|i: int| 0 <= i < rs.len() && rs[i].key == k {
            let i = choose|i: int| 0 <= i < rs.len() && rs[i].key == k;
            if i < rs.len() - 1 {
                assert(rs.drop_last()[i].key == k);
            }
        }
    }
}

/// Under unique keys, the record carrying a key decides its value.
pub proof fn lemma_map_of_index(rs: Seq<RecordView>, i: int)
    requires
        spec_unique_keys(rs),
        0 <= i < rs.len(),
    ensures
        spec_map_of(rs).contains_key(rs[i].key),
        spec_map_of(rs)[rs[i].key] == rs[i].value,
    decreases rs.len(),
{
    if i == rs.len() - 1 {
    } else {
        assert(spec_unique_keys(rs.drop_last()));
        assert(rs.drop_last()[i] == rs[i]);
        lemma_map_of_index(rs.drop_last(), i);
        assert(rs[i].key != rs.last().key);
    }
}

/// Under unique keys, the map has exactly one entry per record.
pub proof fn lemma_map_of_len(rs: Seq<RecordView>)
    requires
        spec_unique_keys(rs),
    ensures
        spec_map_of(rs).dom().finite(),
        spec_map_of(rs).dom().len() == rs.len(),
    decreases rs.len(),
{
    if rs.len() > 0 {
        assert(spec_unique_keys(rs.drop_last()));
        lemma_map_of_len(rs.drop_last());
        lemma_map_of_contains(rs.drop_last(), rs.last().key);
        assert(forall|i: int|
            0 <= i < rs.drop_last().len() ==> #[trigger] rs.drop_last()[i].key != rs.last().key);
        assert(!spec_map_of(rs.drop_last()).contains_key(rs.last().key));
    }
}

/// Overwriting the record that carries a key is insertion into the map.
pub proof fn lemma_map_of_update(rs: Seq<RecordView>, i: int, r: RecordView)
    requires
        spec_unique_keys(rs),
        0 <= i < rs.len(),
        rs[i].key == r.key,
    ensures
        spec_map_of(rs.update(i, r)) == spec_map_of(rs).insert(r.key, r.value),
    decreases rs.len(),
{
    if i == rs.len() - 1 {
        assert(rs.update(i, r).drop_last() =~= rs.drop_last());
        assert(spec_map_of(rs.update(i, r))
            =~= spec_map_of(rs).insert(r.key, r.value));
    } else {
        assert(spec_unique_keys(rs.drop_last()));
        assert(rs.drop_last()[i] == rs[i]);
        lemma_map_of_update(rs.drop_last(), i, r);
        assert(rs.update(i, r).drop_last() =~= rs.drop_last().update(i, r));
        assert(rs.update(i, r).last() == rs.last());
        assert(r.key != rs.last().key);
        assert(spec_map_of(rs.update(i, r))
            =~= spec_map_of(rs).insert(r.key, r.value));
    }
}

/// The in-memory table.  Keys are unique; lookup is by key, and an
/// insertion under a present key replaces the stored value.
pub struct Table {
    entries: Vec<Record>,
}

impl View for Table {
    type V = Map<Seq<char>, InfoView>;

    closed spec fn view(&self) -> Map<Seq<char>, InfoView> {
        spec_map_of(self.entries_view())
    }
}

impl Table {
    /// The records the table holds, in storage order.
    pub closed spec fn entries_view(&self) -> Seq<RecordView> {
        self.entries@.map_values(|r: Record| r@)
    }

    /// Well-formed: no two entries share a key.
    pub open spec fn wf(&self) -> bool {
        spec_unique_keys(self.entries_view())
    }

    pub open spec fn spec_len(&self) -> nat {
        self.entries_view().len()
    }

    /// The table's mapping is the one its stored records describe.
    pub proof fn lemma_view_is_map_of_entries(&self)
        ensures
            self@ == spec_map_of(self.entries_view()),
    {
    }

    /// The image of an entry is the entry's image.
    proof fn view_index(&self, i: int)
        requires
            0 <= i < self.entries@.len(),
        ensures
            self.entries_view().len() == self.entries@.len(),
            self.entries_view()[i] == self.entries@[i]@,
    {
    }

    pub fn new() -> (t: Table)
        ensures
            t.wf(),
            t@ == Map::<Seq<char>, InfoView>::empty(),
            t.entries_view() == Seq::<RecordView>::empty(),
    {
        let t = Table { entries: Vec::new() };
        proof {
            assert(t.entries_view() =~= Seq::<RecordView>::empty());
        }
        t
    }

    /// Inserts `value` under `key`, replacing any value stored there.
    pub fn insert(&mut self, key: String, value: LanguageInfo)
        requires
            old(self).wf(),
        ensures
            final(self).wf(),
            final(self)@ == old(self)@.insert(key@, value@),
    {
        let ghost orig = self.entries_view();
        let mut i: usize = 0;
        while i < self.entries.len()
            invariant
                *self == *old(self),
                orig == self.entries_view(),
                spec_unique_keys(orig),
                i <= self.entries.len(),
                forall|j: int| 0 <= j < i ==> #[trigger] orig[j].key != key@,
            decreases self.entries.len() - i,
        {
            proof {
                self.view_index(i as int);
            }
            if self.entries[i].key == key {
                let r = Record { key, value };
                proof {
                    assert(orig[i as int].key == r@.key);
                    lemma_map_of_update(orig, i as int, r@);
                }
                self.entries.set(i, r);
                proof {
                    assert(self.entries_view() =~= orig.update(i as int, r@));
                    let upd = self.entries_view();
                    assert forall|a: int, b: int| 0 <= a < b < upd.len() implies upd[a].key
                        != upd[b].key by {
                        assert(upd[a] == if a == i { r@ } else { orig[a] });
                        assert(upd[b] == if b == i { r@ } else { orig[b] });
                    }
                }
                return ;
            }
            i += 1;
        }
        let r = Record { key, value };
        self.entries.push(r);
        proof {
            assert(self.entries_view() =~= orig.push(r@));
            assert(self.entries_view().drop_last() =~= orig);
            lemma_map_of_contains(orig, r@.key);
        }
    }

    /// Looks the key up; purely in memory.
    pub fn get(&self, key: &str) -> (r: Option<&LanguageInfo>)
        requires
            self.wf(),
        ensures
            match r {
                Some(v) => self@.contains_key(key@) && v@ == self@[key@],
                None => !self@.contains_key(key@),
            },
    {
        let ghost s = self.entries_view();
        let owned: String = key.to_owned();
        let mut i: usize = 0;
        while i < self.entries.len()
            invariant
                self.wf(),
                s == self.entries_view(),
                owned@ == key@,
                i <= self.entries.len(),
                forall|j: int| 0 <= j < i ==> #[trigger] s[j].key != key@,
            decreases self.entries.len() - i,
        {
            proof {
                self.view_index(i as int);
            }
            if self.entries[i].key == owned {
                proof {
                    lemma_map_of_index(s, i as int);
                }
                return Some(&self.entries[i].value);
            }
            i += 1;
        }
        proof {
            lemma_map_of_contains(s, key@);
        }
        None
    }

    /// The number of keys stored.
    pub fn len(&self) -> (n: usize)
        requires
            self.wf(),
        ensures
            n == self@.dom().len(),
            n == self.spec_len(),
    {
        proof {
            lemma_map_of_len(self.entries_view());
        }
        self.entries.len()
    }

    /// The stored records, in storage order.
    pub fn entries(&self) -> (r: &Vec<Record>)
        ensures
            r@.map_values(|x: Record| x@) == self.entries_view(),
    {
        &self.entries
    }
}

} // verus!
