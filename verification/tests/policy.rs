use hyperpath::ASRelation;
use hyperpath::PathType;
use hyperpath::append_relation;

#[test]
fn valleyed_absorbs_every_edge() {
    for rel in [ASRelation::Peers, ASRelation::Provides, ASRelation::Consumes] {
        assert_eq!(append_relation(PathType::Valleyed, &rel), PathType::Valleyed);
    }
}

#[test]
fn up_peer_down_is_accepted() {
    let mut t = PathType::Null;
    for rel in [
        ASRelation::Consumes,
        ASRelation::Consumes,
        ASRelation::Peers,
        ASRelation::Provides,
        ASRelation::Provides,
    ] {
        t = append_relation(t, &rel);
        assert_ne!(t, PathType::Valleyed);
    }
    assert_eq!(t, PathType::UPD);
}

#[test]
fn peer_from_start_is_rejected() {
    assert_eq!(append_relation(PathType::Null, &ASRelation::Peers), PathType::Valleyed);
}

#[test]
fn ascending_after_descending_is_rejected() {
    let t = append_relation(PathType::Null, &ASRelation::Provides);
    assert_eq!(t, PathType::D);
    assert_eq!(append_relation(t, &ASRelation::Consumes), PathType::Valleyed);
}

#[test]
fn repeated_climbing_stays_up() {
    let t = append_relation(PathType::Null, &ASRelation::Consumes);
    assert_eq!(t, PathType::U);
    assert_eq!(append_relation(t, &ASRelation::Consumes), PathType::U);
}

#[test]
fn peering_twice_after_up_stays_up_peer() {
    let t = append_relation(PathType::U, &ASRelation::Peers);
    assert_eq!(t, PathType::UP);
    assert_eq!(append_relation(t, &ASRelation::Peers), PathType::UP);
    assert_eq!(append_relation(t, &ASRelation::Provides), PathType::UPD);
    assert_eq!(append_relation(t, &ASRelation::Consumes), PathType::Valleyed);
}
