use deriver::cache::{Acquired, DerivationCache};
use deriver::implementation::{Implementation, Method, Step};
use deriver::low_level::LowLevel;
use deriver::strategy::{Ability, Strategy};

fn sample(op: LowLevel) -> Implementation {
    Implementation { methods: vec![Method { ability: Ability::Eq, steps: vec![Step::Prim(op)] }] }
}

#[test]
fn first_request_synthesizes_and_every_other_waits() {
    let mut cache = DerivationCache::new();
    assert_eq!(cache.len(), 0);
    assert_eq!(cache.acquire(Strategy::LayoutEquivalence, 42), Acquired::Synthesize(0));
    for _ in 0..16 {
        assert_eq!(cache.acquire(Strategy::LayoutEquivalence, 42), Acquired::Pending(0));
    }
    assert_eq!(cache.len(), 1);
    assert!(cache.get(0).is_none());
    assert_eq!(cache.publish(Strategy::LayoutEquivalence, 42, sample(LowLevel::Eq)), Some(0));
    for _ in 0..16 {
        assert_eq!(cache.acquire(Strategy::LayoutEquivalence, 42), Acquired::Ready(0));
    }
    assert_eq!(cache.len(), 1);
    assert_eq!(cache.get(0), Some(&sample(LowLevel::Eq)));
}

#[test]
fn published_implementation_is_permanent() {
    let mut cache = DerivationCache::new();
    assert_eq!(cache.acquire(Strategy::Encoding, 7).handle(), 0);
    assert_eq!(cache.publish(Strategy::Encoding, 7, sample(LowLevel::Eq)), Some(0));
    assert_eq!(cache.publish(Strategy::Encoding, 7, sample(LowLevel::Hash)), None);
    assert_eq!(cache.get(0), Some(&sample(LowLevel::Eq)));
    assert_eq!(cache.acquire(Strategy::Encoding, 8), Acquired::Synthesize(1));
    assert_eq!(cache.publish(Strategy::Encoding, 8, sample(LowLevel::Hash)), Some(1));
    assert_eq!(cache.get(0), Some(&sample(LowLevel::Eq)));
    assert_eq!(cache.get(1), Some(&sample(LowLevel::Hash)));
    assert_eq!(cache.get(2), None);
}

#[test]
fn publish_without_reservation_changes_nothing() {
    let mut cache = DerivationCache::new();
    assert_eq!(cache.publish(Strategy::Decoding, 1, sample(LowLevel::Eq)), None);
    assert_eq!(cache.len(), 0);
    assert_eq!(cache.lookup(Strategy::Decoding, 1), None);
    assert_eq!(cache.acquire(Strategy::Decoding, 1), Acquired::Synthesize(0));
}

#[test]
fn key_is_strategy_and_fingerprint() {
    let mut cache = DerivationCache::new();
    assert_eq!(cache.acquire(Strategy::LayoutEquivalence, 5), Acquired::Synthesize(0));
    assert_eq!(cache.acquire(Strategy::Encoding, 5), Acquired::Synthesize(1));
    assert_eq!(cache.acquire(Strategy::Decoding, 5), Acquired::Synthesize(2));
    assert_eq!(cache.acquire(Strategy::Decoding, u64::MAX), Acquired::Synthesize(3));
    assert_eq!(cache.acquire(Strategy::LayoutEquivalence, 0), Acquired::Synthesize(4));
    assert_eq!(cache.lookup(Strategy::Encoding, 5), Some(1));
    assert_eq!(cache.lookup(Strategy::Decoding, u64::MAX), Some(3));
    assert_eq!(cache.lookup(Strategy::Encoding, u64::MAX), None);
    assert_eq!(cache.acquire(Strategy::Encoding, 5), Acquired::Pending(1));
    assert_eq!(Acquired::Ready(9).handle(), 9);
    assert_eq!(Acquired::Synthesize(3).handle(), 3);
}

#[test]
fn body_is_found_by_ability() {
    let implementation = Implementation {
        methods: vec![
            Method { ability: Ability::Eq, steps: vec![Step::Prim(LowLevel::Eq)] },
            Method { ability: Ability::Hash, steps: vec![Step::Prim(LowLevel::Hash)] },
        ],
    };
    assert_eq!(implementation.body(Ability::Eq), Some(&vec![Step::Prim(LowLevel::Eq)]));
    assert_eq!(implementation.body(Ability::Hash), Some(&vec![Step::Prim(LowLevel::Hash)]));
    assert_eq!(implementation.body(Ability::Encode), None);
}
