//! The relation map: a directed edge-to-relationship map over ordered
//! pairs of ASes, with last-writer-wins insertion.

use vstd::prelude::*;
use vstd::pervasive::VecAdditionalExecFns;
use crate::policy::ASRelation;

verus! {

/// The map denoted by a sequence of edge records, later records
/// overwriting earlier ones.
pub open spec fn rel_map(s: Seq<(u64, u64, ASRelation)>) -> Map<(u64, u64), ASRelation>
    decreases s.len(),
{
    if s.len() == 0 {
        Map::empty()
    } else {
        rel_map(s.drop_last()).insert((s.last().0, s.last().1), s.last().2)
    }
}

/// A pair is in the map's domain exactly when some record carries it.
pub proof fn lemma_rel_map_dom_iff(s: Seq<(u64, u64, ASRelation)>, k: (u64, u64))
    ensures
        rel_map(s).dom().contains(k) <==> exists|i: int|
            0 <= i < s.len() && ((#[trigger] s[i]).0, s[i].1) == k,
    decreases s.len(),
{
    if s.len() > 0 {
        lemma_rel_map_dom_iff(s.drop_last(), k);
        let m = s.len() - 1;
        if (s[m].0, s[m].1) == k {
            assert(rel_map(s).dom().contains(k));
        } else if rel_map(s).dom().contains(k) {
            let w = choose|i: int|
                0 <= i < s.drop_last().len() && ((#[trigger] s.drop_last()[i]).0,
                s.drop_last()[i].1) == k;
            assert((s[w].0, s[w].1) == k);
        } else {
            assert forall|i: int|
                0 <= i < s.len() implies ((#[trigger] s[i]).0, s[i].1) != k by {
                if i < m {
                    assert(s.drop_last()[i] == s[i]);
                }
            }
        }
    }
}

/// With pairwise distinct pairs, each record's relationship is the one
/// the map carries for its pair.
pub proof fn lemma_rel_map_entry(s: Seq<(u64, u64, ASRelation)>, i: int)
    requires
        0 <= i < s.len(),
        forall|a: int, b: int|
            0 <= a < b < s.len() ==> ((#[trigger] s[a]).0, s[a].1) != ((#[trigger] s[b]).0,
            s[b].1),
    ensures
        rel_map(s).contains_pair((s[i].0, s[i].1), s[i].2),
    decreases s.len(),
{
    let m = s.len() - 1;
    if i < m {
        assert(forall|a: int| 0 <= a < m ==> s.drop_last()[a] == s[a]);
        lemma_rel_map_entry(s.drop_last(), i);
        assert((s[i].0, s[i].1) != (s[m].0, s[m].1));
    }
}

/// A directed edge-to-relationship map between ASes. Records hold
/// pairwise distinct ordered pairs; repeating a pair overwrites.
pub struct RelationMap {
    entries: Vec<(u64, u64, ASRelation)>,
}

impl View for RelationMap {
    type V = Map<(u64, u64), ASRelation>;

    closed spec fn view(&self) -> Map<(u64, u64), ASRelation> {
        rel_map(self.entries@)
    }
}

impl RelationMap {
    /// Records hold pairwise distinct ordered pairs.
    pub closed spec fn wf(&self) -> bool {
        forall|a: int, b: int|
            0 <= a < b < self.entries@.len() ==> ((#[trigger] self.entries@[a]).0,
            self.entries@[a].1) != ((#[trigger] self.entries@[b]).0, self.entries@[b].1)
    }

    /// An empty relation map.
    pub fn new() -> (r: RelationMap)
        ensures
            r.wf(),
            r@ == Map::<(u64, u64), ASRelation>::empty(),
    {
        RelationMap { entries: Vec::new() }
    }

    /// Records the relationship for the ordered pair (`a`, `b`),
    /// replacing what was recorded for that pair before.
    pub fn insert(&mut self, a: u64, b: u64, r: ASRelation)
        requires
            old(self).wf(),
        ensures
            final(self).wf(),
            final(self)@ == old(self)@.insert((a, b), r),
    {
        let n = self.entries.len();
        let mut i: usize = 0;
        while i < n
            invariant
                n == self.entries@.len(),
                i <= n,
                self == old(self),
                old(self).wf(),
                forall|k: int| 0 <= k < i ==> ((#[trigger] self.entries@[k]).0,
                self.entries@[k].1) != (a, b),
            decreases n - i,
        {
            if self.entries[i].0 == a && self.entries[i].1 == b {
                self.entries.set(i, (a, b, r));
                proof {
                    lemma_rel_map_update(old(self).entries@, i as int, (a, b, r));
                }
                return ;
            }
            i += 1;
        }
        self.entries.push((a, b, r));
        proof {
            assert(self.entries@.drop_last() =~= old(self).entries@);
            let m = self.entries@.len() - 1;
            assert forall|x: int, y: int|
                0 <= x < y < self.entries@.len() implies ((#[trigger] self.entries@[x]).0,
            self.entries@[x].1) != ((#[trigger] self.entries@[y]).0, self.entries@[y].1) by {
                assert(self.entries@[x] == old(self).entries@[x]);
                if y < m {
                    assert(self.entries@[y] == old(self).entries@[y]);
                }
            }
        }
    }

    /// The relationship recorded for the ordered pair (`a`, `b`), if any.
    pub fn get(&self, a: u64, b: u64) -> (r: Option<ASRelation>)
        requires
            self.wf(),
        ensures
            r == (if self@.dom().contains((a, b)) {
                Some(self@[(a, b)])
            } else {
                None::<ASRelation>
            }),
    {
        proof {
            lemma_rel_map_dom_iff(self.entries@, (a, b));
        }
        let n = self.entries.len();
        let mut i: usize = 0;
        while i < n
            invariant
                n == self.entries@.len(),
                i <= n,
                self.wf(),
                forall|k: int| 0 <= k < i ==> ((#[trigger] self.entries@[k]).0,
                self.entries@[k].1) != (a, b),
            decreases n - i,
        {
            if self.entries[i].0 == a && self.entries[i].1 == b {
                proof {
                    lemma_rel_map_entry(self.entries@, i as int);
                }
                return Some(self.entries[i].2);
            }
            i += 1;
        }
        proof {
            lemma_rel_map_dom_iff(self.entries@, (a, b));
        }
        None
    }
}

/// Overwriting the record at `i` with one carrying the same pair denotes
/// inserting that pair into the map.
proof fn lemma_rel_map_update(s: Seq<(u64, u64, ASRelation)>, i: int, e: (u64, u64, ASRelation))
    requires
        0 <= i < s.len(),
        (e.0, e.1) == (s[i].0, s[i].1),
        forall|a: int, b: int|
            0 <= a < b < s.len() ==> ((#[trigger] s[a]).0, s[a].1) != ((#[trigger] s[b]).0,
            s[b].1),
    ensures
        rel_map(s.update(i, e)) == rel_map(s).insert((e.0, e.1), e.2),
    decreases s.len(),
{
    let m = s.len() - 1;
    if i == m {
        assert(s.update(i, e).drop_last() =~= s.drop_last());
        assert(s.update(i, e).last() == e);
        assert(rel_map(s.drop_last()).insert((s[m].0, s[m].1), s[m].2).insert((e.0, e.1), e.2)
            =~= rel_map(s.drop_last()).insert((e.0, e.1), e.2));
    } else {
        assert(forall|a: int| 0 <= a < m ==> s.drop_last()[a] == s[a]);
        lemma_rel_map_update(s.drop_last(), i, e);
        assert(s.update(i, e).drop_last() =~= s.drop_last().update(i, e));
        assert(s.update(i, e).last() == s.last());
        assert((e.0, e.1) != (s[m].0, s[m].1));
        assert(rel_map(s.drop_last()).insert((e.0, e.1), e.2).insert((s[m].0, s[m].1), s[m].2)
            =~= rel_map(s.drop_last()).insert((s[m].0, s[m].1), s[m].2).insert((e.0, e.1), e.2));
    }
}

} // verus!
