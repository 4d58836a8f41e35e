use ironlobe::common::Price;
use ironlobe::order::OrderKind;

fn key(p: f64) -> u64 {
    Price::from_bits(p.to_bits()).unwrap().order_key()
}

#[test]
fn price_rejects_nan_and_infinities() {
    assert!(Price::from_bits(f64::NAN.to_bits()).is_none());
    assert!(Price::from_bits(f64::INFINITY.to_bits()).is_none());
    assert!(Price::from_bits(f64::NEG_INFINITY.to_bits()).is_none());
    assert!(Price::from_bits(f64::MAX.to_bits()).is_some());
}

#[test]
fn price_negative_zero_is_zero() {
    let neg = Price::from_bits((-0.0f64).to_bits()).unwrap();
    let pos = Price::from_bits(0.0f64.to_bits()).unwrap();
    assert_eq!(neg, pos);
    assert_eq!(neg.to_bits(), 0.0f64.to_bits());
}

#[test]
fn price_keys_order_like_numbers() {
    let values = [f64::MIN, -1e300, -3.5, -1.0, -1e-300, 0.0, 1e-300, 2.5, 12.0, 1e300, f64::MAX];
    for w in values.windows(2) {
        assert!(key(w[0]) < key(w[1]), "{} < {}", w[0], w[1]);
    }
    assert_eq!(key(12.0), 12.0f64.to_bits() | 0x8000_0000_0000_0000);
    assert_eq!(key(-1.0), !(-1.0f64).to_bits());
}

#[test]
fn price_round_trips_through_bits() {
    for v in [12.0, -7.25, 3.5, 20.5, 1e-310, -1e-310] {
        let p = Price::from_bits(f64::to_bits(v)).unwrap();
        assert_eq!(f64::from_bits(p.to_bits()), v);
    }
}

#[test]
fn order_kind_opposite_is_involution() {
    assert_eq!(OrderKind::Bid.opposite(), OrderKind::Ask);
    assert_eq!(OrderKind::Ask.opposite(), OrderKind::Bid);
    assert_eq!(OrderKind::Bid.opposite().opposite(), OrderKind::Bid);
}
