use paperback_core::{recover_secret, Dealer, GfElem, RecoverError, Shard, WireError};
use rand::Rng;

fn random_secret(len: usize) -> Vec<u8> {
    let mut rng = rand::thread_rng();
    (0..len).map(|_| rng.gen::<u8>()).collect()
}

fn mint(dealer: &Dealer, n: u32) -> Vec<Shard> {
    (0..n)
        .map(|_| {
            let shard = dealer.next_shard();
            assert_eq!(shard.id().len(), Shard::ID_LENGTH);
            shard
        })
        .collect()
}

#[test]
fn basic_roundtrip() {
    for n in [1u32, 2, 3, 7, 32, 200] {
        for len in [0usize, 1, 3, 4, 5, 8, 13, 64] {
            let secret = random_secret(len);
            let dealer = Dealer::new(n, &secret);
            assert_eq!(dealer.secret(), secret);
            assert_eq!(dealer.threshold(), n);
        }
    }
}

#[test]
fn secret_keeps_trailing_zeros() {
    let secret = vec![7u8, 0, 0, 0, 0, 0];
    let dealer = Dealer::new(2, &secret);
    assert_eq!(dealer.polys.len(), 2);
    assert_eq!(dealer.secret(), secret);
}

#[test]
fn shard_bytes_roundtrip() {
    let mut rng = rand::thread_rng();
    for size in 0..20usize {
        let shard = Shard {
            x: GfElem::from_inner(rng.gen()),
            ys: (0..size).map(|_| GfElem::from_inner(rng.gen())).collect(),
            secret_len: rng.gen::<u32>() as usize,
            threshold: rng.gen(),
        };
        let shard2 = Shard::from_wire(&shard.to_wire()).unwrap();
        assert_eq!(shard, shard2);
    }
    let extreme = Shard {
        x: GfElem::from_inner(u32::MAX),
        ys: vec![GfElem::from_inner(0), GfElem::from_inner(u32::MAX)],
        secret_len: usize::MAX,
        threshold: u32::MAX,
    };
    assert_eq!(Shard::from_wire(&extreme.to_wire()).unwrap(), extreme);
}

#[test]
fn recover_secret_fail() {
    for n in [2u32, 3, 5, 16, 32] {
        for len in [1usize, 4, 9, 33] {
            let secret = random_secret(len);
            let dealer = Dealer::new(n, &secret);
            let shards: Vec<Shard> = (0..(n - 1))
                .map(|_| {
                    let mut shard = dealer.next_shard();
                    shard.threshold -= 1;
                    assert_eq!(shard.id().len(), Shard::ID_LENGTH);
                    shard
                })
                .collect();
            assert_ne!(recover_secret(&shards).unwrap(), secret);
        }
    }
}

#[test]
fn recover_secret_success() {
    for n in [1u32, 2, 3, 8, 17, 32] {
        for len in [0usize, 1, 4, 5, 31, 64] {
            let secret = random_secret(len);
            let dealer = Dealer::new(n, &secret);
            let shards = mint(&dealer, n);
            assert_eq!(recover_secret(&shards).unwrap(), secret);
        }
    }
}

#[test]
fn recover_success() {
    for n in 2u32..=8 {
        for len in [0usize, 1, 4, 7, 20] {
            let secret = random_secret(len);
            let dealer = Dealer::new(n, &secret);
            let shards = mint(&dealer, n);
            let recovered = Dealer::recover(&shards).unwrap();
            assert_eq!(dealer.polys, recovered.polys);
            assert_eq!(recovered.secret(), secret);
            assert_eq!(recovered.threshold(), n);
        }
    }
}

#[test]
fn recovered_dealer_mints_compatible_shards() {
    let secret = b"correct horse battery staple".to_vec();
    let dealer = Dealer::new(3, &secret);
    let recovered = Dealer::recover(&mint(&dealer, 3)).unwrap();
    let shards = vec![dealer.next_shard(), recovered.next_shard(), recovered.next_shard()];
    assert_eq!(recover_secret(&shards).unwrap(), secret);
}

#[test]
fn identifier_width() {
    let dealer = Dealer::new(4, b"identifier");
    for shard in mint(&dealer, 50) {
        let id = shard.id();
        assert_eq!(id.len(), 8);
        assert!(id.starts_with('h'));
    }
}

#[test]
fn identifier_exact_values() {
    let zero = Shard { x: GfElem::from_inner(0), ys: vec![], secret_len: 0, threshold: 1 };
    assert_eq!(zero.id(), "hyyyyyyy");
    let ones = Shard { x: GfElem::from_inner(u32::MAX), ys: vec![], secret_len: 0, threshold: 1 };
    assert_eq!(ones.id(), "h999999a");
}

#[test]
fn shard_x_is_non_zero() {
    let dealer = Dealer::new(2, b"xs");
    for shard in mint(&dealer, 200) {
        assert_ne!(shard.x.inner(), 0);
        assert_eq!(shard.threshold(), 2);
    }
}

#[test]
fn recovery_is_order_independent() {
    let secret = random_secret(23);
    let dealer = Dealer::new(4, &secret);
    let shards = mint(&dealer, 4);
    let expected = recover_secret(&shards).unwrap();
    let orders = [[0usize, 1, 2, 3], [3, 2, 1, 0], [1, 3, 0, 2], [2, 0, 3, 1]];
    for order in orders {
        let permuted: Vec<Shard> = order.iter().map(|&i| shards[i].clone()).collect();
        assert_eq!(recover_secret(&permuted).unwrap(), expected);
        assert_eq!(Dealer::recover(&permuted).unwrap().polys, dealer.polys);
    }
}

#[test]
fn scenario_threshold_one() {
    let secret = b"hello";
    let dealer = Dealer::new(1, secret);
    assert_eq!(dealer.polys.len(), 2);
    for poly in &dealer.polys {
        assert_eq!(poly.coeffs.len(), 1);
    }
    for _ in 0..5 {
        let shard = dealer.next_shard();
        assert_eq!(&shard.ys[0].to_bytes()[0..4], b"hell");
        assert_eq!(shard.ys[1].to_bytes()[0], b'o');
        assert_eq!(recover_secret(&[shard]).unwrap(), secret.to_vec());
    }
}

#[test]
fn scenario_empty_secret() {
    let dealer = Dealer::new(3, b"");
    assert_eq!(dealer.polys.len(), 0);
    let shards = mint(&dealer, 3);
    for shard in &shards {
        assert!(shard.ys.is_empty());
        assert_eq!(shard.secret_len, 0);
        assert_eq!(shard.threshold, 3);
    }
    assert_eq!(recover_secret(&shards).unwrap(), Vec::<u8>::new());
}

#[test]
fn scenario_threshold_two() {
    let secret = vec![0x01u8, 0x02, 0x03, 0x04, 0x05];
    let dealer = Dealer::new(2, &secret);
    let q1 = dealer.next_shard();
    let q2 = dealer.next_shard();
    assert_eq!(recover_secret(&[q1.clone(), q2]).unwrap(), secret);
    assert_eq!(recover_secret(&[q1.clone()]), Err(RecoverError::WrongCount));
    assert!(matches!(Dealer::recover(&[q1]), Err(RecoverError::WrongCount)));
}

#[test]
fn scenario_wire_format() {
    let shard = Shard {
        x: GfElem::from_inner(1),
        ys: vec![GfElem::from_inner(2)],
        threshold: 1,
        secret_len: 4,
    };
    assert_eq!(shard.to_wire(), vec![0x01, 0x01, 0x02, 0x01, 0x04]);
    assert_eq!(Shard::from_wire(&[0x01, 0x01, 0x02, 0x01, 0x04]).unwrap(), shard);
}

#[test]
fn wire_multi_byte_varints() {
    let shard = Shard {
        x: GfElem::from_inner(300),
        ys: vec![GfElem::from_inner(0x7f), GfElem::from_inner(0x80)],
        threshold: 2,
        secret_len: 8,
    };
    assert_eq!(shard.to_wire(), vec![0xac, 0x02, 0x02, 0x7f, 0x80, 0x01, 0x02, 0x08]);
    let long = Shard { x: GfElem::from_inner(5), ys: vec![], threshold: 1, secret_len: 300 };
    assert_eq!(long.to_wire(), vec![0x05, 0x00, 0x01, 0xac, 0x02]);
    assert_eq!(Shard::from_wire(&[0x05, 0x00, 0x01, 0xac, 0x02]).unwrap(), long);
}

#[test]
fn wire_partial_hands_back_tail() {
    let bytes = [0x01u8, 0x01, 0x02, 0x01, 0x04, 0xaa, 0xbb];
    let (shard, rest) = Shard::from_wire_partial(&bytes).unwrap();
    assert_eq!(shard.x.inner(), 1);
    assert_eq!(rest, &[0xaa, 0xbb]);
    assert_eq!(Shard::from_wire(&bytes), Err(WireError::TrailingBytes { offset: 5 }));
}

#[test]
fn wire_malformed_inputs() {
    assert_eq!(Shard::from_wire(&[]), Err(WireError::Malformed { offset: 0 }));
    assert_eq!(Shard::from_wire(&[0x01, 0x02, 0x05]), Err(WireError::Malformed { offset: 3 }));
    assert_eq!(Shard::from_wire(&[0x01, 0x80]), Err(WireError::Malformed { offset: 1 }));
    assert_eq!(Shard::from_wire(&[0x81, 0x00]), Err(WireError::Malformed { offset: 0 }));
    assert_eq!(
        Shard::from_wire(&[0xff, 0xff, 0xff, 0xff, 0xff, 0x01]),
        Err(WireError::Malformed { offset: 0 })
    );
}

#[test]
fn scenario_id_stability() {
    let dealer = Dealer::new(2, b"abc");
    let a = dealer.shard_at(GfElem::from_inner(12345));
    let b = dealer.shard_at(GfElem::from_inner(12345));
    assert_eq!(a.id(), b.id());
    let c = dealer.next_shard();
    let d = dealer.next_shard();
    assert_ne!(c.id(), d.id());
}

#[test]
fn scenario_inconsistent_shards() {
    let dealer = Dealer::new(2, b"abcde");
    let q1 = dealer.next_shard();
    let mut q2 = dealer.next_shard();
    q2.secret_len = 4;
    assert_eq!(recover_secret(&[q1.clone(), q2.clone()]), Err(RecoverError::Inconsistent));
    assert!(matches!(Dealer::recover(&[q1, q2]), Err(RecoverError::Inconsistent)));
}

#[test]
fn recovery_rejects_bad_sets() {
    let dealer = Dealer::new(2, b"abcde");
    let q1 = dealer.next_shard();
    assert_eq!(recover_secret(&[]), Err(RecoverError::NoShards));
    assert_eq!(recover_secret(&[q1.clone(), q1.clone()]), Err(RecoverError::DuplicateX));
    assert!(matches!(Dealer::recover(&[q1.clone(), q1]), Err(RecoverError::DuplicateX)));
}

#[test]
fn field_arithmetic() {
    let two = GfElem::from_inner(2);
    assert_eq!(two.mul(GfElem::from_inner(0x8000_0000)), GfElem::from_inner(0x8d));
    assert_eq!(GfElem::from_inner(3).mul(GfElem::from_inner(5)), GfElem::from_inner(15));
    assert_eq!(GfElem::from_inner(6).add(GfElem::from_inner(3)), GfElem::from_inner(5));
    assert_eq!(GfElem::from_inner(0).inverse(), GfElem::from_inner(0));
    let mut rng = rand::thread_rng();
    for _ in 0..200 {
        let a = GfElem::from_inner(rng.gen_range(1..=u32::MAX));
        assert_eq!(a.mul(a.inverse()), GfElem::from_inner(1));
        let b = GfElem::from_inner(rng.gen());
        let c = GfElem::from_inner(rng.gen());
        assert_eq!(a.mul(b), b.mul(a));
        assert_eq!(a.mul(b).mul(c), a.mul(b.mul(c)));
        assert_eq!(a.mul(b.add(c)), a.mul(b).add(a.mul(c)));
    }
}

#[test]
fn element_bytes() {
    assert_eq!(GfElem::from_bytes(&[1, 2, 3, 4]).inner(), 0x0403_0201);
    assert_eq!(GfElem::from_bytes(&[0x6f]).inner(), 0x6f);
    assert_eq!(GfElem::from_inner(0x0403_0201).to_bytes(), vec![1, 2, 3, 4]);
}
