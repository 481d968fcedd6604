use bex::comb::{arity_of, binomial, decode, encode, top_var_of, MAX_VAR, OFFSET, TOTAL};

#[test]
fn test_pascal() {
    assert_eq!(binomial(0, 0), 1);
    assert_eq!(binomial(5, 0), 1);
    assert_eq!(binomial(5, 1), 5);
    assert_eq!(binomial(5, 2), 10);
    assert_eq!(binomial(5, 3), 10);
    assert_eq!(binomial(5, 5), 1);
    assert_eq!(binomial(10, 3), 120);
    assert_eq!(binomial(MAX_VAR, 2), 5995);
    assert_eq!(binomial(MAX_VAR, 5), 122_391_522);
}

#[test]
fn test_total_fits_27_bits() {
    assert!(TOTAL < (1 << 27), "total {} must fit in 27 bits (max {})", TOTAL, 1u32 << 27);
}

#[test]
fn test_offsets() {
    assert_eq!(OFFSET[0], 0);
    assert_eq!(OFFSET[1], 1);
    assert_eq!(OFFSET[2], 1 + MAX_VAR as u32);
    assert_eq!(OFFSET[3], OFFSET[2] + 5995);
    assert_eq!(OFFSET[4], OFFSET[3] + 215_820);
    assert_eq!(OFFSET[5], OFFSET[4] + 5_773_185);
}

#[test]
fn test_encode_decode_roundtrip_arity2() {
    let vars = [3, 7];
    let idx = encode(&vars);
    let (arity, decoded) = decode(idx);
    assert_eq!(arity, 2);
    assert_eq!(&decoded[..2], &vars);
}

#[test]
fn test_encode_decode_roundtrip_arity3() {
    let vars = [1, 5, 9];
    let idx = encode(&vars);
    let (arity, decoded) = decode(idx);
    assert_eq!(arity, 3);
    assert_eq!(&decoded[..3], &vars);
}

#[test]
fn test_encode_decode_roundtrip_arity4() {
    let vars = [0, 2, 4, 6];
    let idx = encode(&vars);
    let (arity, decoded) = decode(idx);
    assert_eq!(arity, 4);
    assert_eq!(&decoded[..4], &vars);
}

#[test]
fn test_encode_decode_roundtrip_arity5() {
    let vars = [0, 1, 2, 3, 4];
    let idx = encode(&vars);
    let (arity, decoded) = decode(idx);
    assert_eq!(arity, 5);
    assert_eq!(&decoded[..5], &vars);
}

#[test]
fn test_encode_decode_max_vars() {
    let vars = [105, 106, 107, 108, 109];
    let idx = encode(&vars);
    assert!(idx < (1 << 27));
    let (arity, decoded) = decode(idx);
    assert_eq!(arity, 5);
    assert_eq!(&decoded[..5], &vars);
}

#[test]
fn test_top_var_of() {
    let vars = [3, 7, 42];
    let idx = encode(&vars);
    assert_eq!(top_var_of(idx), 42);

    let vars2 = [0, 109];
    let idx2 = encode(&vars2);
    assert_eq!(top_var_of(idx2), 109);

    let vars3 = [0, 1, 2, 3, 4];
    let idx3 = encode(&vars3);
    assert_eq!(top_var_of(idx3), 4);
}

#[test]
fn test_arity_of() {
    assert_eq!(arity_of(encode(&[0, 1])), 2);
    assert_eq!(arity_of(encode(&[0, 1, 2])), 3);
    assert_eq!(arity_of(encode(&[0, 1, 2, 3])), 4);
    assert_eq!(arity_of(encode(&[0, 1, 2, 3, 4])), 5);
}

#[test]
fn test_exhaustive_arity2_small() {
    for a in 0u32..10 {
        for b in (a + 1)..10 {
            let vars = [a, b];
            let idx = encode(&vars);
            let (arity, decoded) = decode(idx);
            assert_eq!(arity, 2, "failed for {:?}", vars);
            assert_eq!(&decoded[..2], &vars, "roundtrip failed for {:?}", vars);
        }
    }
}

#[test]
fn test_exhaustive_arity3_small() {
    for a in 0u32..8 {
        for b in (a + 1)..9 {
            for c in (b + 1)..10 {
                let vars = [a, b, c];
                let idx = encode(&vars);
                let (arity, decoded) = decode(idx);
                assert_eq!(arity, 3, "failed for {:?}", vars);
                assert_eq!(&decoded[..3], &vars, "roundtrip failed for {:?}", vars);
            }
        }
    }
}

#[test]
fn test_exhaustive_arity5_tiny() {
    for a in 0u32..5 {
        for b in (a + 1)..6 {
            for c in (b + 1)..7 {
                for d in (c + 1)..8 {
                    for e in (d + 1)..9 {
                        let vars = [a, b, c, d, e];
                        let idx = encode(&vars);
                        let (arity, decoded) = decode(idx);
                        assert_eq!(arity, 5, "failed for {:?}", vars);
                        assert_eq!(&decoded[..5], &vars, "roundtrip failed for {:?}", vars);
                    }
                }
            }
        }
    }
}

#[test]
fn test_no_range_overlap() {
    let max2 = encode(&[108, 109]);
    let min3 = encode(&[0, 1, 2]);
    assert!(max2 < min3, "arity 2 max {} overlaps arity 3 min {}", max2, min3);

    let max3 = encode(&[107, 108, 109]);
    let min4 = encode(&[0, 1, 2, 3]);
    assert!(max3 < min4, "arity 3 max {} overlaps arity 4 min {}", max3, min4);

    let max4 = encode(&[106, 107, 108, 109]);
    let min5 = encode(&[0, 1, 2, 3, 4]);
    assert!(max4 < min5, "arity 4 max {} overlaps arity 5 min {}", max4, min5);
}

#[test]
fn test_encoding_is_unique() {
    let mut indices = std::collections::HashSet::new();
    for a in 0u32..20 {
        for b in (a + 1)..20 {
            let idx = encode(&[a, b]);
            assert!(indices.insert(idx), "duplicate index for [{}, {}]", a, b);
        }
    }
}

#[test]
fn binomial_edges() {
    assert_eq!(binomial(3, 4), 0);
    assert_eq!(binomial(7, 7), 0);
    assert_eq!(binomial(7, 5), 21);
    assert_eq!(binomial(110, 1), 110);
}

#[test]
fn encode_small_arities() {
    assert_eq!(encode(&[]), 0);
    assert_eq!(encode(&[0]), 1);
    assert_eq!(encode(&[109]), 110);
    assert_eq!(decode(0).0, 0);
    assert_eq!(decode(110), (1, [109, 0, 0, 0, 0]));
}
