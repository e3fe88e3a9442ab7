//! The valley-free policy automaton: edge relationships, path classes, and
//! the transition function that classifies an AS path.

use vstd::prelude::*;

verus! {

/// A business relationship attached to an ordered pair of ASes (A, B):
/// `Provides` means A is a provider of B (transit downward), `Consumes`
/// means A is a customer of B (transit upward), `Peers` is a lateral link.
#[derive(Clone, Copy, Debug, PartialEq, Eq, Structural)]
pub enum ASRelation {
    Peers,
    Provides,
    Consumes,
}

/// The class of the edge-direction sequence seen so far along a path.
/// `U` marks an upward (customer-to-provider) step, `P` a peering step,
/// `D` a downward step; compound names record which kinds have occurred,
/// in order. `Valleyed` marks a path that violated the policy; it absorbs
/// every further edge.
#[derive(Clone, Copy, Debug, PartialEq, Eq, Structural)]
pub enum PathType {
    Null,
    U,
    P,
    D,
    UD,
    UP,
    PD,
    UPD,
    Valleyed,
}

/// The transition table of the policy automaton. A valley-free direction
/// sequence matches `U* P? D*`, with one restriction: a peer edge taken
/// from the initial state is rejected outright, so a path may not begin
/// with peering.
pub open spec fn spec_append_relation(current_type: PathType, relationship: ASRelation) -> PathType {
    match relationship {
        ASRelation::Consumes => match current_type {
            PathType::Null => PathType::U,
            PathType::U => PathType::U,
            _ => PathType::Valleyed,
        },
        ASRelation::Peers => match current_type {
            PathType::Null => PathType::Valleyed,
            PathType::U => PathType::UP,
            PathType::P => PathType::P,
            PathType::UP => PathType::UP,
            _ => PathType::Valleyed,
        },
        ASRelation::Provides => match current_type {
            PathType::Null => PathType::D,
            PathType::U => PathType::UD,
            PathType::P => PathType::PD,
            PathType::D => PathType::D,
            PathType::UP => PathType::UPD,
            PathType::UD => PathType::UD,
            PathType::PD => PathType::PD,
            PathType::UPD => PathType::UPD,
            PathType::Valleyed => PathType::Valleyed,
        },
    }
}

/// Runs the automaton over a sequence of edge relationships, starting from
/// the given state.
pub open spec fn run_relations_from(state: PathType, rels: Seq<ASRelation>) -> PathType
    decreases rels.len(),
{
    if rels.len() == 0 {
        state
    } else {
        spec_append_relation(run_relations_from(state, rels.drop_last()), rels.last())
    }
}

/// Runs the automaton over a sequence of edge relationships from the
/// initial state.
pub open spec fn run_relations(rels: Seq<ASRelation>) -> PathType {
    run_relations_from(PathType::Null, rels)
}

/// Applies one edge relationship to the current path class.
pub fn append_relation(current_type: PathType, relationship: &ASRelation) -> (r: PathType)
    ensures
        r == spec_append_relation(current_type, *relationship),
{
    match relationship {
        ASRelation::Consumes => match current_type {
            PathType::Null => PathType::U,
            PathType::U => PathType::U,
            _ => PathType::Valleyed,
        },
        ASRelation::Peers => match current_type {
            PathType::Null => PathType::Valleyed,
            PathType::U => PathType::UP,
            PathType::P => PathType::P,
            PathType::UP => PathType::UP,
            _ => PathType::Valleyed,
        },
        ASRelation::Provides => match current_type {
            PathType::Null => PathType::D,
            PathType::U => PathType::UD,
            PathType::P => PathType::PD,
            PathType::D => PathType::D,
            PathType::UP => PathType::UPD,
            PathType::UD => PathType::UD,
            PathType::PD => PathType::PD,
            PathType::UPD => PathType::UPD,
            PathType::Valleyed => PathType::Valleyed,
        },
    }
}

/// Law: `Valleyed` is absorbing. Once the automaton reaches `Valleyed`,
/// every sequence of further transitions leaves it there.
pub proof fn lemma_valleyed_absorbing(rels: Seq<ASRelation>)
    ensures
        run_relations_from(PathType::Valleyed, rels) == PathType::Valleyed,
    decreases rels.len(),
{
    if rels.len() > 0 {
        lemma_valleyed_absorbing(rels.drop_last());
    }
}

/// Running the automaton over a concatenation is running it over the first
/// part and then the second.
pub proof fn lemma_run_relations_concat(state: PathType, s1: Seq<ASRelation>, s2: Seq<ASRelation>)
    ensures
        run_relations_from(state, s1 + s2) == run_relations_from(run_relations_from(state, s1), s2),
    decreases s2.len(),
{
    if s2.len() == 0 {
        assert(s1 + s2 =~= s1);
    } else {
        lemma_run_relations_concat(state, s1, s2.drop_last());
        assert((s1 + s2).drop_last() =~= s1 + s2.drop_last());
        assert((s1 + s2).last() == s2.last());
    }
}

/// A decomposition witnessing the shape `U* P? D*`: `u` upward edges, then
/// at most one peering edge ending at `p`, then downward edges to the end.
pub open spec fn valley_free_shape(rels: Seq<ASRelation>, u: int, p: int) -> bool {
    0 <= u <= p <= rels.len() && p - u <= 1
        && (forall|i: int| 0 <= i < u ==> rels[i] == ASRelation::Consumes)
        && (forall|i: int| u <= i < p ==> rels[i] == ASRelation::Peers)
        && (forall|i: int| p <= i < rels.len() ==> rels[i] == ASRelation::Provides)
}

/// A direction sequence of the shape `U* P? D*`.
pub open spec fn matches_valley_free(rels: Seq<ASRelation>) -> bool {
    exists|u: int, p: int| valley_free_shape(rels, u, p)
}

proof fn lemma_run_all_consumes(s: Seq<ASRelation>)
    requires
        forall|i: int| 0 <= i < s.len() ==> s[i] == ASRelation::Consumes,
    ensures
        run_relations_from(PathType::Null, s) == if s.len() == 0 {
            PathType::Null
        } else {
            PathType::U
        },
    decreases s.len(),
{
    if s.len() > 0 {
        lemma_run_all_consumes(s.drop_last());
    }
}

proof fn lemma_run_all_provides(state: PathType, s: Seq<ASRelation>)
    requires
        state != PathType::Valleyed,
        forall|i: int| 0 <= i < s.len() ==> s[i] == ASRelation::Provides,
    ensures
        run_relations_from(state, s) != PathType::Valleyed,
    decreases s.len(),
{
    if s.len() > 0 {
        lemma_run_all_provides(state, s.drop_last());
    }
}

/// Law: valley-free acceptance. A direction sequence matching `U* P? D*`
/// is accepted by the automaton, provided it does not begin with a peering
/// edge (which the automaton rejects from the initial state).
pub proof fn lemma_valley_free_acceptance(rels: Seq<ASRelation>)
    requires
        matches_valley_free(rels),
        rels.len() == 0 || rels[0] != ASRelation::Peers,
    ensures
        run_relations(rels) != PathType::Valleyed,
{
    let (u, p) = choose|u: int, p: int| valley_free_shape(rels, u, p);
    let ups = rels.subrange(0, u);
    let mid = rels.subrange(u, p);
    let downs = rels.subrange(p, rels.len() as int);
    assert(rels =~= (ups + mid) + downs);
    assert(forall|i: int| 0 <= i < ups.len() ==> ups[i] == ASRelation::Consumes);
    lemma_run_all_consumes(ups);
    let t1 = run_relations_from(PathType::Null, ups);
    let t2 = run_relations_from(t1, mid);
    if p == u {
        assert(mid =~= Seq::<ASRelation>::empty());
        assert(t2 == t1);
    } else {
        // A peering edge is present; it cannot be the first edge, so at
        // least one upward edge precedes it and the state before it is `U`.
        assert(rels[u] == ASRelation::Peers);
        assert(u >= 1);
        assert(t1 == PathType::U);
        assert(mid.drop_last() =~= Seq::<ASRelation>::empty());
        assert(run_relations_from(t1, mid.drop_last()) == t1);
        assert(mid.last() == rels[u]);
        assert(t2 == spec_append_relation(t1, ASRelation::Peers));
        assert(t2 == PathType::UP);
    }
    assert(t2 != PathType::Valleyed);
    assert(forall|i: int| 0 <= i < downs.len() ==> downs[i] == ASRelation::Provides);
    lemma_run_all_provides(t2, downs);
    lemma_run_relations_concat(PathType::Null, ups, mid);
    lemma_run_relations_concat(PathType::Null, ups + mid, downs);
}

/// The sequence of known edge relationships along a path: for each pair of
/// consecutive ASes, the relation recorded for that ordered pair, if any.
/// Pairs with no recorded relation contribute nothing, so partial relation
/// data cannot force a spurious `Valleyed` verdict.
pub open spec fn edge_relations(m: Map<(u64, u64), ASRelation>, path: Seq<u64>) -> Seq<ASRelation>
    decreases path.len(),
{
    if path.len() < 2 {
        Seq::empty()
    } else {
        let prefix = edge_relations(m, path.drop_last());
        let e = (path[path.len() - 2], path[path.len() - 1]);
        if m.dom().contains(e) {
            prefix.push(m[e])
        } else {
            prefix
        }
    }
}

} // verus!
