//! The index from user names to node ids.
use crate::graph::NodeId;
use vstd::prelude::*;

verus! {

/// The map described by a list of `(name, id)` entries, later entries
/// overriding earlier ones.
pub open spec fn entry_map(s: Seq<(String, NodeId)>) -> Map<Seq<char>, NodeId>
    decreases s.len(),
{
    if s.len() == 0 {
        Map::empty()
    } else {
        entry_map(s.drop_last()).insert(s.last().0@, s.last().1)
    }
}

/// No name occurs in two entries.
pub open spec fn distinct_names(s: Seq<(String, NodeId)>) -> bool {
    forall|i: int, j: int| 0 <= i < j < s.len() ==> s[i].0@ != s[j].0@
}

proof fn lemma_entry_map(s: Seq<(String, NodeId)>)
    requires
        distinct_names(s),
    ensures
        entry_map(s).dom().finite(),
        entry_map(s).len() == s.len(),
        forall|k: Seq<char>| #[trigger] entry_map(s).contains_key(k) <==> exists|i: int| 0 <= i < s.len() && s[i].0@ == k,
        forall|i: int| 0 <= i < s.len() ==> #[trigger] entry_map(s)[s[i].0@] == s[i].1,
    decreases s.len(),
{
    if s.len() > 0 {
        let s0 = s.drop_last();
        lemma_entry_map(s0);
        let l = s.len() - 1;
        assert(!entry_map(s0).contains_key(s[l].0@)) by {
            if entry_map(s0).contains_key(s[l].0@) {
                let i = choose|i: int| 0 <= i < s0.len() && s0[i].0@ == s[l].0@;
                assert(s[i] == s0[i]);
            }
        }
        assert forall|k: Seq<char>| #[trigger] entry_map(s).contains_key(k) <==> exists|i: int| 0 <= i < s.len() && s[i].0@ == k by {
            if entry_map(s0).contains_key(k) {
                let i = choose|i: int| 0 <= i < s0.len() && s0[i].0@ == k;
                assert(s[i] == s0[i]);
            }
            if exists|i: int| 0 <= i < s.len() && s[i].0@ == k {
                let i = choose|i: int| 0 <= i < s.len() && s[i].0@ == k;
                if i < l {
                    assert(s0[i] == s[i]);
                }
            }
        }
        assert forall|i: int| 0 <= i < s.len() implies #[trigger] entry_map(s)[s[i].0@] == s[i].1 by {
            if i < l {
                assert(s0[i] == s[i]);
                assert(entry_map(s0)[s0[i].0@] == s0[i].1);
            }
        }
    }
}

/// The index from user names to node ids, each name indexed once.
pub struct NameIndex {
    entries: Vec<(String, NodeId)>,
}

impl NameIndex {
    /// The names indexed and the ids they map to.
    pub closed spec fn map(&self) -> Map<Seq<char>, NodeId> {
        entry_map(self.entries@)
    }

    /// Each name is stored once.
    pub closed spec fn wf(&self) -> bool {
        distinct_names(self.entries@)
    }

    /// An empty index.
    pub fn new() -> (idx: Self)
        ensures
            idx.wf(),
            idx.map() == Map::<Seq<char>, NodeId>::empty(),
    {
        NameIndex { entries: Vec::new() }
    }

    /// The number of indexed names.
    pub fn len(&self) -> (n: usize)
        requires
            self.wf(),
        ensures
            n == self.map().len(),
    {
        proof {
            lemma_entry_map(self.entries@);
        }
        self.entries.len()
    }

    /// The node id indexed under `key`, if any.
    pub fn get(&self, key: &str) -> (r: Option<NodeId>)
        requires
            self.wf(),
        ensures
            r == if self.map().contains_key(key@) {
                Some(self.map()[key@])
            } else {
                None::<NodeId>
            },
    {
        proof {
            lemma_entry_map(self.entries@);
        }
        let k = key.to_owned();
        let mut i: usize = 0;
        while i < self.entries.len()
            invariant
                self.wf(),
                i <= self.entries@.len(),
                k@ == key@,
                forall|t: int| 0 <= t < i ==> self.entries@[t].0@ != key@,
            decreases self.entries@.len() - i,
        {
            if self.entries[i].0 == k {
                proof {
                    lemma_entry_map(self.entries@);
                }
                assert(self.map()[self.entries@[i as int].0@] == self.entries@[i as int].1);
                return Some(self.entries[i].1);
            }
            i = i + 1;
        }
        proof {
            if self.map().contains_key(key@) {
                let t = choose|t: int| 0 <= t < self.entries@.len() && self.entries@[t].0@ == key@;
            }
        }
        None
    }

    /// Whether `key` is indexed.
    pub fn contains_key(&self, key: &str) -> (b: bool)
        requires
            self.wf(),
        ensures
            b == self.map().contains_key(key@),
    {
        match self.get(key) {
            Some(i) => true,
            None => false,
        }
    }

    /// Indexes a name that is not yet indexed.
    pub(crate) fn insert_new(&mut self, key: String, id: NodeId)
        requires
            old(self).wf(),
            !old(self).map().contains_key(key@),
        ensures
            final(self).wf(),
            final(self).map() == old(self).map().insert(key@, id),
    {
        proof {
            lemma_entry_map(self.entries@);
        }
        let ghost e0 = self.entries@;
        let ghost k = key@;
        self.entries.push((key, id));
        proof {
            assert(self.entries@.drop_last() =~= e0);
            assert forall|i: int, j: int| 0 <= i < j < self.entries@.len() implies self.entries@[i].0@
                != self.entries@[j].0@ by {
                if j == e0.len() {
                    assert(self.entries@[i] == e0[i]);
                    assert(entry_map(e0).contains_key(e0[i].0@));
                } else {
                    assert(self.entries@[i] == e0[i] && self.entries@[j] == e0[j]);
                }
            }
        }
    }
}

} // verus!
