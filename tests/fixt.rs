use dht_staging::fixt::{Empty, Fixturator, Predictable, Unpredictable, V};

#[test]
fn fixturator_starts_at_given_index() {
    let f = Fixturator::<V, Predictable>::new(Predictable, 7);
    assert_eq!(f.index, 7);
    assert_eq!(f.curve, Predictable);
    let e = Fixturator::<u32, Empty>::new(Empty, 0);
    assert_eq!(e.index, 0);
    let u = Fixturator::<u32, Unpredictable>::new(Unpredictable, 3);
    assert_eq!(u.index, 3);
}

#[test]
fn v_from_u32_and_bytes() {
    assert_eq!(V::from(9u32), V(9));
    assert_eq!(V(0x01020304).to_bytes(), vec![1, 2, 3, 4]);
    assert_eq!(V::from_bytes(&[0, 0, 1, 0]), Some(V(256)));
    assert_eq!(V::from_bytes(&[0, 0, 1]), None);
    assert_eq!(V::from_bytes(&V(u32::MAX).to_bytes()), Some(V(u32::MAX)));
}
