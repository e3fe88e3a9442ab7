//! The corpus and the query coordinator: per-notifier prefix tables, the
//! optional relation map, and path prediction over them.

use vstd::prelude::*;
use crate::index::PrefixIndex;
use crate::index::RouteView;
use crate::index::index_of_key;
use crate::index::lookup_seq;
use crate::index::spec_mask;
use crate::join::build_path;
use crate::join::join_paths;
use crate::join::lemma_branch_point_upto_char;
use crate::parse::LoadError;
use crate::parse::parse_dump_line;
use crate::parse::parse_relation_line;
use crate::parse::spec_dump_error;
use crate::parse::spec_parse_dump_line;
use crate::parse::spec_parse_relation_line;
use crate::parse::spec_relation_error;
use crate::policy::ASRelation;
use crate::policy::PathType;
use crate::policy::append_relation;
use crate::policy::edge_relations;
use crate::policy::run_relations;
use crate::relations::RelationMap;

verus! {

/// An Autonomous System number.
pub type ASN = u64;

/// The shorter of a fresh candidate `b` and the retained `path`; an
/// empty retained path acts as "nothing retained yet", and on equal
/// lengths the retained path survives.
pub open spec fn spec_choose_shortest(b: Seq<u64>, path: Seq<u64>) -> Seq<u64> {
    if path.len() == 0 || b.len() < path.len() {
        b
    } else {
        path
    }
}

/// Folds a fresh candidate into the retained best.
pub open spec fn update_best(cur: Option<Seq<u64>>, c: Seq<u64>) -> Seq<u64> {
    spec_choose_shortest(
        c,
        match cur {
            None => Seq::empty(),
            Some(p) => p,
        },
    )
}

/// Keeps the shorter of candidate `b` and the retained `path`; an empty
/// retained path stands for nothing retained, and equal lengths keep
/// `path`.
pub fn choose_shortest_path(b: Vec<u64>, path: Vec<u64>) -> (r: Vec<u64>)
    ensures
        r@ == spec_choose_shortest(b@, path@),
{
    if path.len() == 0 || b.len() < path.len() {
        b
    } else {
        path
    }
}

/// A possibly absent path as a mathematical value.
pub open spec fn opt_vec_view(o: Option<Vec<u64>>) -> Option<Seq<u64>> {
    match o {
        None => None,
        Some(v) => Some(v@),
    }
}

/// The relation-map update denoted by one relation record: code -1 makes
/// the pair provider-to-customer (and the reverse customer-to-provider),
/// code 0 makes both directions peering, and any other code changes
/// nothing.
pub open spec fn spec_apply_relation(
    m: Map<(u64, u64), ASRelation>,
    t: (u64, u64, i64),
) -> Map<(u64, u64), ASRelation> {
    if t.2 == -1 {
        m.insert((t.0, t.1), ASRelation::Provides).insert((t.1, t.0), ASRelation::Consumes)
    } else if t.2 == 0 {
        m.insert((t.0, t.1), ASRelation::Peers).insert((t.1, t.0), ASRelation::Peers)
    } else {
        m
    }
}

/// The corpus: one longest-prefix-match table per notifier, the list of
/// notifiers seen, and optional relationship data. Built once during
/// load; queries only read it.
pub struct HyperPath {
    tables: Vec<PrefixIndex>,
    relations: Option<RelationMap>,
    /// The notifiers seen, in order of first appearance.
    pub networks: Vec<ASN>,
}

impl HyperPath {
    /// One table per notifier, notifiers pairwise distinct, every table
    /// and the relation map well formed.
    pub closed spec fn wf(&self) -> bool {
        &&& self.networks@.len() == self.tables@.len()
        &&& (forall|i: int| 0 <= i < self.tables@.len() ==> (#[trigger] self.tables@[i]).wf())
        &&& (forall|i: int, j: int|
            0 <= i < j < self.networks@.len() ==> self.networks@[i] != self.networks@[j])
        &&& (match self.relations {
            Some(r) => r.wf(),
            None => true,
        })
    }

    /// The notifiers seen, in order of first appearance.
    pub closed spec fn networks_view(&self) -> Seq<u64> {
        self.networks@
    }

    /// The number of notifiers (and tables) in the corpus.
    pub closed spec fn num_tables(&self) -> int {
        self.tables@.len() as int
    }

    /// The prefix table of the `k`-th notifier.
    pub closed spec fn table_at(&self, k: int) -> Seq<RouteView> {
        self.tables@[k]@
    }

    /// The loaded relation map, if any.
    pub closed spec fn rel_view(&self) -> Option<Map<(u64, u64), ASRelation>> {
        match self.relations {
            None => None,
            Some(r) => Some(r@),
        }
    }

    pub open spec fn relations_loaded(&self) -> bool {
        self.rel_view() is Some
    }

    /// Whether the loaded relation map judges the path valley-free.
    pub open spec fn accepts(&self, path: Seq<u64>) -> bool
        recommends
            self.relations_loaded(),
    {
        run_relations(edge_relations(self.rel_view().unwrap(), path)) != PathType::Valleyed
    }

    /// The candidate path contributed by the `k`-th notifier: the join
    /// of the paths found for the two addresses, when both lookups and
    /// the join succeed.
    pub open spec fn candidate_of(&self, k: int, a1: u32, a2: u32) -> Option<Seq<u64>> {
        match lookup_seq(self.table_at(k), a1) {
            None => None,
            Some(e1) => match lookup_seq(self.table_at(k), a2) {
                None => None,
                Some(e2) => join_paths(e1.2, e2.2),
            },
        }
    }

    /// Whether the candidate of the `k`-th notifier lands in the
    /// valley-free class.
    pub open spec fn classifies_valley_free(&self, c: Seq<u64>) -> bool {
        self.relations_loaded() && self.accepts(c)
    }

    /// The retained (valley-free best, unrestricted best) after the
    /// first `n` notifiers: each candidate goes to the valley-free side
    /// exactly when relations are loaded and accept it, and a shorter
    /// candidate replaces the retained one.
    pub open spec fn best_pair_upto(&self, a1: u32, a2: u32, n: int) -> (
        Option<Seq<u64>>,
        Option<Seq<u64>>,
    )
        decreases n,
    {
        if n <= 0 {
            (None, None)
        } else {
            let prev = self.best_pair_upto(a1, a2, n - 1);
            match self.candidate_of(n - 1, a1, a2) {
                None => prev,
                Some(c) => if self.classifies_valley_free(c) {
                    (Some(update_best(prev.0, c)), prev.1)
                } else {
                    (prev.0, Some(update_best(prev.1, c)))
                },
            }
        }
    }

    /// The predicted path: the best valley-free candidate when one
    /// exists, else the best unrestricted candidate, else nothing.
    pub open spec fn spec_predict(&self, a1: u32, a2: u32) -> Option<Seq<u64>> {
        let bp = self.best_pair_upto(a1, a2, self.num_tables());
        if bp.0 is Some {
            bp.0
        } else {
            bp.1
        }
    }

    /// An empty corpus: no notifiers, no relation data.
    pub fn new() -> (r: HyperPath)
        ensures
            r.wf(),
            r.networks_view() == Seq::<u64>::empty(),
            r.num_tables() == 0,
            !r.relations_loaded(),
    {
        HyperPath { tables: Vec::new(), relations: None, networks: Vec::new() }
    }

    /// Loads one BGP dump line: gets or creates the notifier's table and
    /// stores the announced path under the announced prefix, overwriting
    /// an earlier announcement of the same prefix. A malformed line is
    /// rejected and leaves the corpus unchanged.
    pub fn load_dump_line(&mut self, line: &[u8]) -> (r: Result<(), LoadError>)
        requires
            old(self).wf(),
        ensures
            final(self).wf(),
            (r is Ok) == (spec_parse_dump_line(line@) is Some),
            (r matches Err(e) ==> *final(self) == *old(self) && e == spec_dump_error(line@)),
            r is Ok ==> ({
                let rec = spec_parse_dump_line(line@).unwrap();
                let e = (spec_mask(rec.1, rec.2), rec.2, rec.3);
                &&& final(self).rel_view() == old(self).rel_view()
                &&& match old(self).networks_view().index_of_first(rec.0) {
                    None => {
                        &&& final(self).networks_view() == old(self).networks_view().push(rec.0)
                        &&& final(self).num_tables() == old(self).num_tables() + 1
                        &&& (forall|t: int|
                            0 <= t < old(self).num_tables() ==> final(self).table_at(t) == old(
                                self,
                            ).table_at(t))
                        &&& final(self).table_at(old(self).num_tables()) == seq![e]
                    },
                    Some(k) => {
                        &&& final(self).networks_view() == old(self).networks_view()
                        &&& final(self).num_tables() == old(self).num_tables()
                        &&& (forall|t: int|
                            0 <= t < old(self).num_tables() && t != k ==> final(self).table_at(t)
                                == old(self).table_at(t))
                        &&& final(self).table_at(k) == (match index_of_key(
                            old(self).table_at(k),
                            (e.0, e.1),
                        ) {
                            None => old(self).table_at(k).push(e),
                            Some(i) => old(self).table_at(k).update(i, e),
                        })
                    },
                }
            }),
    {
        let rec = match parse_dump_line(line) {
            Err(e) => {
                return Err(e);
            },
            Ok(rec) => rec,
        };
        proof {
            old(self).networks@.index_of_first_ensures(rec.notifier);
        }
        let n = self.networks.len();
        let mut k: usize = 0;
        let mut found: Option<usize> = None;
        while k < n && found.is_none()
            invariant
                k <= n,
                n == self.networks@.len(),
                self == old(self),
                match found {
                    None => forall|m: int| 0 <= m < k ==> self.networks@[m] != rec.notifier,
                    Some(kk) => kk < n && self.networks@[kk as int] == rec.notifier && (forall|
                        m: int,
                    | 0 <= m < kk ==> self.networks@[m] != rec.notifier),
                },
            decreases n - k,
        {
            if self.networks[k] == rec.notifier {
                found = Some(k);
            }
            k += 1;
        }
        match found {
            Some(k) => {
                proof {
                    match old(self).networks@.index_of_first(rec.notifier) {
                        None => {
                            assert(!old(self).networks@.contains(rec.notifier));
                            assert(old(self).networks@[k as int] == rec.notifier);
                            assert(false);
                        },
                        Some(f) => {
                            assert(f == k as int);
                        },
                    }
                }
                let mut t = self.tables.remove(k);
                t.insert(rec.addr, rec.masklen, rec.path);
                self.tables.insert(k, t);
                proof {
                    assert(self.tables@ =~= old(self).tables@.update(
                        k as int,
                        self.tables@[k as int],
                    ));
                }
                Ok(())
            },
            None => {
                proof {
                    assert(!old(self).networks@.contains(rec.notifier)) by {
                        if old(self).networks@.contains(rec.notifier) {
                            let w = choose|w: int|
                                0 <= w < old(self).networks@.len() && old(self).networks@[w]
                                    == rec.notifier;
                            assert(old(self).networks@[w] == rec.notifier);
                        }
                    }
                }
                let mut t = PrefixIndex::new();
                t.insert(rec.addr, rec.masklen, rec.path);
                self.networks.push(rec.notifier);
                self.tables.push(t);
                proof {
                    assert(self.table_at(old(self).num_tables()) =~= seq![
                        (spec_mask(rec.addr, rec.masklen), rec.masklen, rec.path@),
                    ]);
                    assert forall|i: int, j: int|
                        0 <= i < j < self.networks@.len() implies self.networks@[i]
                        != self.networks@[j] by {
                        if j < self.networks@.len() - 1 {
                            assert(self.networks@[i] == old(self).networks@[i]);
                            assert(self.networks@[j] == old(self).networks@[j]);
                        } else {
                            assert(self.networks@[i] == old(self).networks@[i]);
                            assert(self.networks@[j] == rec.notifier);
                        }
                    }
                }
                Ok(())
            },
        }
    }

    /// Makes relation data present, so that queries consult the policy:
    /// an already loaded map is kept, else an empty one is installed.
    pub fn enable_relations(&mut self)
        requires
            old(self).wf(),
        ensures
            final(self).wf(),
            final(self).relations_loaded(),
            final(self).rel_view() == Some(
                match old(self).rel_view() {
                    None => Map::<(u64, u64), ASRelation>::empty(),
                    Some(m) => m,
                },
            ),
            final(self).networks_view() == old(self).networks_view(),
            final(self).num_tables() == old(self).num_tables(),
            forall|t: int|
                0 <= t < old(self).num_tables() ==> final(self).table_at(t) == old(self).table_at(
                    t,
                ),
    {
        if self.relations.is_none() {
            self.relations = Some(RelationMap::new());
        }
    }

    /// Loads one relation line: code -1 records the pair as provider and
    /// its reverse as customer, code 0 records peering both ways, any
    /// other code is ignored. A malformed line is rejected and leaves
    /// the corpus unchanged.
    pub fn load_relation_line(&mut self, line: &[u8]) -> (r: Result<(), LoadError>)
        requires
            old(self).wf(),
            old(self).relations_loaded(),
        ensures
            final(self).wf(),
            (r is Ok) == (spec_parse_relation_line(line@) is Some),
            (r matches Err(e) ==> *final(self) == *old(self) && e == spec_relation_error(line@)),
            r is Ok ==> ({
                let t = spec_parse_relation_line(line@).unwrap();
                &&& final(self).rel_view() == Some(
                    spec_apply_relation(old(self).rel_view().unwrap(), t),
                )
                &&& final(self).networks_view() == old(self).networks_view()
                &&& final(self).num_tables() == old(self).num_tables()
                &&& (forall|k: int|
                    0 <= k < old(self).num_tables() ==> final(self).table_at(k) == old(
                        self,
                    ).table_at(k))
            }),
    {
        let t = match parse_relation_line(line) {
            Err(e) => {
                return Err(e);
            },
            Ok(t) => t,
        };
        match &mut self.relations {
            None => Ok(()),
            Some(rm) => {
                if t.2 == -1 {
                    rm.insert(t.0, t.1, ASRelation::Provides);
                    rm.insert(t.1, t.0, ASRelation::Consumes);
                } else if t.2 == 0 {
                    rm.insert(t.0, t.1, ASRelation::Peers);
                    rm.insert(t.1, t.0, ASRelation::Peers);
                }
                Ok(())
            },
        }
    }

    /// Classifies a joined path against the loaded relation map: true
    /// exactly when the automaton, run over the path's known edge
    /// relationships, ends outside `Valleyed`.
    pub fn valley_free(&self, path: &Vec<u64>) -> (r: bool)
        requires
            self.wf(),
            self.relations_loaded(),
            path@.len() >= 1,
        ensures
            r == self.accepts(path@),
    {
        match &self.relations {
            None => {
                proof {
                    assert(false);
                }
                true
            },
            Some(rm) => classify(rm, path),
        }
    }

    /// Predicts the AS path from the first address to the second: for
    /// each notifier, both addresses are looked up, the found paths are
    /// joined, and the candidate is classed valley-free or unrestricted;
    /// the shortest valley-free candidate is preferred, else the
    /// shortest unrestricted one.
    pub fn path(&self, a1: u32, a2: u32) -> (r: Option<Vec<u64>>)
        requires
            self.wf(),
        ensures
            opt_vec_view(r) == self.spec_predict(a1, a2),
    {
        let mut final_path: Option<Vec<u64>> = None;
        let mut final_unvalleyed_path: Option<Vec<u64>> = None;
        let n = self.tables.len();
        let mut k: usize = 0;
        while k < n
            invariant
                k <= n,
                n == self.num_tables(),
                self.wf(),
                opt_vec_view(final_unvalleyed_path) == self.best_pair_upto(a1, a2, k as int).0,
                opt_vec_view(final_path) == self.best_pair_upto(a1, a2, k as int).1,
            decreases n - k,
        {
            let tree = &self.tables[k];
            if let Some(r1) = tree.lookup(a1) {
                if let Some(r2) = tree.lookup(a2) {
                    if let Some(path) = build_path(r1.2, r2.2) {
                        proof {
                            lemma_branch_point_upto_char(r1.2@, r2.2@, r1.2@.len() as int);
                            assert(path@.len() >= 1);
                        }
                        let accepted = match &self.relations {
                            None => false,
                            Some(rm) => classify(rm, &path),
                        };
                        assert(self.candidate_of(k as int, a1, a2) == Some(path@));
                        assert(accepted == self.classifies_valley_free(path@));
                        if accepted {
                            final_unvalleyed_path = Some(
                                match final_unvalleyed_path {
                                    None => path,
                                    Some(cur) => choose_shortest_path(path, cur),
                                },
                            );
                        } else {
                            final_path = Some(
                                match final_path {
                                    None => path,
                                    Some(cur) => choose_shortest_path(path, cur),
                                },
                            );
                        }
                    } else {
                        assert(self.candidate_of(k as int, a1, a2) is None);
                    }
                } else {
                    assert(self.candidate_of(k as int, a1, a2) is None);
                }
            } else {
                assert(self.candidate_of(k as int, a1, a2) is None);
            }
            k += 1;
        }
        match final_unvalleyed_path {
            Some(p) => Some(p),
            None => final_path,
        }
    }
}

/// The relation map's directions agree: a provider edge is mirrored by a
/// customer edge, and a peer edge by a peer edge.
pub open spec fn rel_symmetric(m: Map<(u64, u64), ASRelation>) -> bool {
    forall|a: u64, b: u64| #[trigger] m.dom().contains((a, b)) ==> m.dom().contains((b, a))
        && m[(b, a)] == (match m[(a, b)] {
        ASRelation::Provides => ASRelation::Consumes,
        ASRelation::Consumes => ASRelation::Provides,
        ASRelation::Peers => ASRelation::Peers,
    })
}

/// Loading a relation record keeps the map symmetric, as long as a
/// provider record does not relate an AS to itself (both directions of
/// such a record collapse onto one pair).
pub proof fn lemma_apply_relation_symmetric(m: Map<(u64, u64), ASRelation>, t: (u64, u64, i64))
    requires
        rel_symmetric(m),
        t.2 == -1 ==> t.0 != t.1,
    ensures
        rel_symmetric(spec_apply_relation(m, t)),
{
}

/// Whatever the valley-free fold retains was itself a candidate judged
/// valley-free.
proof fn lemma_best_vf_accepted(h: &HyperPath, a1: u32, a2: u32, n: int)
    ensures
        (h.best_pair_upto(a1, a2, n).0 matches Some(p) ==> h.classifies_valley_free(p)),
    decreases n,
{
    if n > 0 {
        lemma_best_vf_accepted(h, a1, a2, n - 1);
    }
}

/// A successful join is never empty: it opens with the joining AS.
proof fn lemma_candidate_nonempty(h: &HyperPath, a1: u32, a2: u32, k: int)
    ensures
        (h.candidate_of(k, a1, a2) matches Some(c) ==> c.len() >= 1),
{
    match lookup_seq(h.table_at(k), a1) {
        None => {},
        Some(e1) => match lookup_seq(h.table_at(k), a2) {
            None => {},
            Some(e2) => {
                lemma_branch_point_upto_char(e1.2, e2.2, e1.2.len() as int);
            },
        },
    }
}

/// The retained best of either class is never empty.
proof fn lemma_best_nonempty(h: &HyperPath, a1: u32, a2: u32, n: int)
    ensures
        (h.best_pair_upto(a1, a2, n).0 matches Some(p) ==> p.len() >= 1),
        (h.best_pair_upto(a1, a2, n).1 matches Some(p) ==> p.len() >= 1),
    decreases n,
{
    if n > 0 {
        lemma_best_nonempty(h, a1, a2, n - 1);
        lemma_candidate_nonempty(h, a1, a2, n - 1);
    }
}

/// After folding `n` notifiers, each class's retained best is no longer
/// than any candidate of that class seen among them.
proof fn lemma_ranking_upto(h: &HyperPath, a1: u32, a2: u32, n: int, k: int)
    requires
        0 <= k < n,
    ensures
        ({
            let bp = h.best_pair_upto(a1, a2, n);
            match h.candidate_of(k, a1, a2) {
                None => true,
                Some(c) => if h.classifies_valley_free(c) {
                    bp.0 is Some && bp.0.unwrap().len() <= c.len()
                } else {
                    bp.1 is Some && bp.1.unwrap().len() <= c.len()
                },
            }
        }),
    decreases n,
{
    lemma_best_nonempty(h, a1, a2, n - 1);
    lemma_candidate_nonempty(h, a1, a2, n - 1);
    if k < n - 1 {
        lemma_ranking_upto(h, a1, a2, n - 1, k);
    }
}

/// Law: ranking. The prediction never returns a path longer than
/// another candidate of the same class: when the result is the
/// valley-free best, it is no longer than any valley-free candidate,
/// and when no valley-free candidate exists, the result is no longer
/// than any unrestricted candidate.
pub proof fn lemma_ranking(h: &HyperPath, a1: u32, a2: u32, k: int)
    requires
        0 <= k < h.num_tables(),
    ensures
        ({
            let bp = h.best_pair_upto(a1, a2, h.num_tables());
            match h.candidate_of(k, a1, a2) {
                None => true,
                Some(c) => {
                    &&& (h.classifies_valley_free(c) ==> bp.0 is Some && bp.0.unwrap().len()
                        <= c.len() && h.spec_predict(a1, a2) == bp.0)
                    &&& (!h.classifies_valley_free(c) ==> bp.1 is Some && bp.1.unwrap().len()
                        <= c.len() && (bp.0 is None ==> h.spec_predict(a1, a2) == bp.1))
                },
            }
        }),
{
    lemma_ranking_upto(h, a1, a2, h.num_tables(), k);
}

/// Law: preference. When some notifier yields a candidate judged
/// valley-free, the prediction is the retained valley-free best — a
/// valley-free path — even when an unrestricted candidate is shorter.
pub proof fn lemma_preference(h: &HyperPath, a1: u32, a2: u32, k: int)
    requires
        0 <= k < h.num_tables(),
        h.candidate_of(k, a1, a2) is Some,
        h.classifies_valley_free(h.candidate_of(k, a1, a2).unwrap()),
    ensures
        h.best_pair_upto(a1, a2, h.num_tables()).0 is Some,
        h.spec_predict(a1, a2) == h.best_pair_upto(a1, a2, h.num_tables()).0,
        h.classifies_valley_free(h.spec_predict(a1, a2).unwrap()),
{
    lemma_ranking_upto(h, a1, a2, h.num_tables(), k);
    lemma_best_vf_accepted(h, a1, a2, h.num_tables());
}

/// Runs the policy automaton over the known edge relationships of a
/// path.
fn classify(rm: &RelationMap, path: &Vec<u64>) -> (r: bool)
    requires
        rm.wf(),
        path@.len() >= 1,
    ensures
        r == (run_relations(edge_relations(rm@, path@)) != PathType::Valleyed),
{
    let mut path_type = PathType::Null;
    let n = path.len();
    let mut i: usize = 0;
    while i < n - 1
        invariant
            n == path@.len(),
            n >= 1,
            i <= n - 1,
            rm.wf(),
            path_type == run_relations(edge_relations(rm@, path@.take(i + 1))),
        decreases n - 1 - i,
    {
        let a = path[i];
        let b = path[i + 1];
        let ghost pre = edge_relations(rm@, path@.take(i + 1));
        proof {
            assert(path@.take(i + 2).drop_last() =~= path@.take(i + 1));
            assert(path@.take(i + 2)[i as int] == path@[i as int]);
            assert(path@.take(i + 2)[i + 1] == path@[i + 1]);
        }
        match rm.get(a, b) {
            Some(relationship) => {
                path_type = append_relation(path_type, &relationship);
                proof {
                    assert(edge_relations(rm@, path@.take(i + 2)) =~= pre.push(rm@[(a, b)]));
                    assert(edge_relations(rm@, path@.take(i + 2)).drop_last() =~= pre);
                }
            },
            None => {
                proof {
                    assert(edge_relations(rm@, path@.take(i + 2)) =~= pre);
                }
            },
        }
        i += 1;
    }
    proof {
        assert(path@.take(n as int) =~= path@);
    }
    !matches!(path_type, PathType::Valleyed)
}

} // verus!
