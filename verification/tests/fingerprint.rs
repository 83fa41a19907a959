use cfgdb::fingerprint::Fingerprint;
use cfgdb::fingerprint::FixRabinFingerprint;
use cfgdb::fingerprint::Polynomial;
use cfgdb::fingerprint::RabinFingerprint;
use cfgdb::fingerprint::Reducibility;
use cfgdb::fingerprint::vec_rem_all;

#[test]
fn fingerprint_test() {
    let mut f = FixRabinFingerprint::new_degree(53);
    for _ in 1..1000 {
        let rand = f.calculate(vec![1, 1, 10, 0, 127]);
        assert_eq!(Some(4312399999), rand)
    }
}

#[test]
fn fingerprint_reduce_test() {
    let n = Polynomial { degrees: vec![3, 1, 0] };

    let one = Polynomial { degrees: vec![1] };

    let res = Polynomial::modulo_pow(one, n.clone(), 2);
    assert_eq!(res.degrees, vec![2]);

    let next = n.reduce_exp(1);
    assert_eq!(next.degrees, vec![2, 1])
}

#[test]
fn fingerprint_mod_test() {
    let n = Polynomial { degrees: vec![7, 5, 4, 2, 1, 0] };
    let res = n.to_i64();
    assert_eq!(res, 183);
    let o = Polynomial { degrees: vec![2, 1] };
    let res = Polynomial::modulo_pow(o.clone(), n.clone(), 2);
    assert_eq!(res.degrees, vec![4, 2])
}

#[test]
fn fingerprint_irr_test() {
    let p = Polynomial { degrees: vec![3, 1, 0] };

    if let Reducibility::IRREDUCIBLE = p.reducibility() {
    } else {
        panic!(" irr ")
    }
}

#[test]
fn time_test() {
    let mut fpr = RabinFingerprint::default();
    for _el in 1..10000 {
        let _p: i64 = fpr.calculate(vec![1, 2, 3]).unwrap();
    }
}

#[test]
fn fingerprint_s_test() {
    let base = Polynomial { degrees: vec![7, 3, 0] };
    let mut f = RabinFingerprint::new(base);

    let dgr = f.calculate_poly(&vec![1, 1, 10, 0, 127]);
    assert_eq!(dgr.degrees, vec![5, 4, 1]);
    let p: i64 = f.calculate(vec![1, 1, 10, 0, 127]).unwrap();
    assert_eq!(p, 50)
}

#[test]
fn fingerprint_xor_test() {
    let left = Polynomial::from_u64(100123);
    let right = Polynomial::from_u64(123100);
    let res = Polynomial::xor(left.clone(), right.clone());
    assert_eq!(res.degrees, vec![14, 13, 10, 9, 8, 7, 6, 2, 1, 0]);
    let res = Polynomial::xor(right.clone(), left.clone());
    assert_eq!(res.degrees, vec![14, 13, 10, 9, 8, 7, 6, 2, 1, 0]);
    let res = Polynomial::xor(left.clone(), left.clone());
    assert_eq!(res.degrees, vec![])
}

#[test]
fn fingerprint_rem_all_test() {
    let vec1 = vec![1, 2, 3, 4, 5];
    let vec2 = vec![1, 2, 3];

    assert_eq!(vec_rem_all(vec1.clone(), vec2.clone()), vec![4, 5]);
    assert_eq!(vec_rem_all(vec2.clone(), vec1.clone()), vec![])
}

#[test]
fn check_idempotent_test() {
    let base = Polynomial { degrees: vec![7, 3, 0] };
    let mut f = RabinFingerprint::new(base);

    let res: i64 = f.calculate(vec![1, 2, 3]).unwrap();
    assert_eq!(res, 49);
    let res: i64 = f.calculate(vec![1, 2, 3]).unwrap();
    assert_eq!(res, 49);
}

#[test]
fn fingerprint_check_bit_test() {
    let p = Polynomial::from_bytes(vec![1, 2, 3, 4], 10);
    assert_eq!(p.degrees, vec![10, 9, 8, 2]);

    let p = Polynomial::from_u64(0x53);
    assert_eq!(p.degrees, vec![6, 4, 1, 0]);
    let p = Polynomial::from_u64(0x11B);
    assert_eq!(p.degrees, vec![8, 4, 3, 1, 0]);
}

#[test]
fn fix_rabin_matches_rabin_test() {
    let base = Polynomial::from_degree_irr(53);
    let mut slow = RabinFingerprint::new(base.clone());
    let mut fast = FixRabinFingerprint::new(base);
    let samples: Vec<Vec<u8>> = vec![
        vec![],
        vec![0],
        vec![255],
        vec![1, 2, 3],
        vec![1, 1, 10, 0, 127],
        vec![9, 8, 7, 6, 5, 4, 3, 2, 1, 0],
        vec![42; 64],
        (0..=255).collect(),
    ];
    for bytes in samples {
        let a: Option<i64> = slow.calculate(bytes.clone());
        let b: Option<i64> = fast.calculate(bytes);
        assert_eq!(a, b);
    }
}

#[test]
fn reduce_test() {
    let n = Polynomial { degrees: vec![3, 1, 0] };
    let one = Polynomial { degrees: vec![1] };
    let res = Polynomial::modulo_pow(one, n.clone(), 2);
    assert_eq!(res.degrees, vec![2]);
    let next = n.reduce_exp(1);
    assert_eq!(next.degrees, vec![2, 1])
}

#[test]
fn mod_test() {
    let n = Polynomial { degrees: vec![7, 5, 4, 2, 1, 0] };
    let res = n.to_i64();
    assert_eq!(res, 183);
    let o = Polynomial { degrees: vec![2, 1] };
    let res = Polynomial::modulo_pow(o.clone(), n.clone(), 2);
    assert_eq!(res.degrees, vec![4, 2])
}

#[test]
fn irr_test() {
    let p = Polynomial { degrees: vec![3, 1, 0] };
    if let Reducibility::IRREDUCIBLE = p.reducibility() {
    } else {
        panic!(" irr ")
    }
}

#[test]
fn s_test() {
    let base = Polynomial { degrees: vec![7, 3, 0] };
    let mut f = RabinFingerprint::new(base);
    let dgr = f.calculate_poly(&vec![1, 1, 10, 0, 127]);
    assert_eq!(dgr.degrees, vec![5, 4, 1]);
    let p: i64 = f.calculate(vec![1, 1, 10, 0, 127]).unwrap();
    assert_eq!(p, 50)
}

#[test]
fn xor_test() {
    let left = Polynomial::from_u64(100123);
    let right = Polynomial::from_u64(123100);
    let res = Polynomial::xor(left.clone(), right.clone());
    assert_eq!(res.degrees, vec![14, 13, 10, 9, 8, 7, 6, 2, 1, 0]);
    let res = Polynomial::xor(right.clone(), left.clone());
    assert_eq!(res.degrees, vec![14, 13, 10, 9, 8, 7, 6, 2, 1, 0]);
    let res = Polynomial::xor(left.clone(), left.clone());
    assert_eq!(res.degrees, vec![])
}

#[test]
fn rem_all_test() {
    let vec1 = vec![1, 2, 3, 4, 5];
    let vec2 = vec![1, 2, 3];
    assert_eq!(vec_rem_all(vec1.clone(), vec2.clone()), vec![4, 5]);
    assert_eq!(vec_rem_all(vec2.clone(), vec1.clone()), vec![])
}

#[test]
fn check_bit_test() {
    let p = Polynomial::from_bytes(vec![1, 2, 3, 4], 10);
    assert_eq!(p.degrees, vec![10, 9, 8, 2]);
    let p = Polynomial::from_u64(0x53);
    assert_eq!(p.degrees, vec![6, 4, 1, 0]);
    let p = Polynomial::from_u64(0x11B);
    assert_eq!(p.degrees, vec![8, 4, 3, 1, 0]);
}

#[test]
fn one_and_x_are_reducible_test() {
    let one = Polynomial { degrees: vec![0] };
    if let Reducibility::REDUCIBLE = one.reducibility() {
    } else {
        panic!("the polynomial 1 is ruled reducible");
    }
    let x = Polynomial { degrees: vec![1] };
    if let Reducibility::REDUCIBLE = x.reducibility() {
    } else {
        panic!("the polynomial x is ruled reducible");
    }
    let x_plus_one = Polynomial { degrees: vec![1, 0] };
    if let Reducibility::IRREDUCIBLE = x_plus_one.reducibility() {
    } else {
        panic!("x + 1 passes the test");
    }
}
