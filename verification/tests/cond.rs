use fsm::machine::Cond::{self, False, True, Unknown};

#[test]
fn and_is_false_dominant() {
    assert_eq!(False.and(Unknown), False);
    assert_eq!(Unknown.and(False), False);
    assert_eq!(True.and(Unknown), Unknown);
    assert_eq!(True.and(True), True);
}

#[test]
fn or_is_true_dominant() {
    assert_eq!(True.or(Unknown), True);
    assert_eq!(Unknown.or(True), True);
    assert_eq!(False.or(Unknown), Unknown);
    assert_eq!(False.or(False), False);
}

#[test]
fn not_preserves_unknown() {
    assert_eq!(Unknown.not(), Unknown);
    assert_eq!(True.not(), False);
    assert_eq!(False.not(), True);
}

const ALL: [Cond; 3] = [True, False, Unknown];

#[test]
fn from_bool_maps_to_definite_values() {
    assert_eq!(Cond::from(true), True);
    assert_eq!(Cond::from(false), False);
}

#[test]
fn kleene_agrees_with_bool_on_definite_values() {
    for a in [true, false] {
        for b in [true, false] {
            assert_eq!(Cond::from(a).and(Cond::from(b)), Cond::from(a && b));
            assert_eq!(Cond::from(a).or(Cond::from(b)), Cond::from(a || b));
        }
        assert_eq!(Cond::from(a).not(), Cond::from(!a));
    }
}

#[test]
fn kleene_de_morgan_and_involution_hold_on_every_value() {
    for a in ALL {
        assert_eq!(a.not().not(), a);
        for b in ALL {
            assert_eq!(a.and(b).not(), a.not().or(b.not()));
            assert_eq!(a.or(b).not(), a.not().and(b.not()));
            assert_eq!(a.and(b), b.and(a));
            assert_eq!(a.or(b), b.or(a));
            for c in ALL {
                assert_eq!(a.and(b).and(c), a.and(b.and(c)));
                assert_eq!(a.or(b).or(c), a.or(b.or(c)));
            }
        }
    }
}

#[test]
fn unknown_with_unknown_stays_unknown() {
    assert_eq!(Unknown.and(Unknown), Unknown);
    assert_eq!(Unknown.or(Unknown), Unknown);
    assert_eq!(True.or(False), True);
    assert_eq!(False.and(True), False);
}
