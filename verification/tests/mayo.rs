use chainfold::mayo::api::{
    compute_c, compute_c_from_digest, compute_commitments, compute_pk_id, pk_id_from_lanes,
    shake256_32, Commitment, PkId, Proof, SignedMessage,
};
use chainfold::mayo::gf16::mul_gf16;
use chainfold::mayo::lanes::{
    expand_pk_to_lanes, pack_nibbles, unpack_m_vec_array, unpack_nibbles,
};
use chainfold::mayo::params::{K, M, N, O, P1_ENTRIES, P2_ENTRIES, P3_ENTRIES, V};
use chainfold::mayo::statement::{
    Cause, Error, LayoutDetail, PanicPayload, PublicLayout, Statement,
};
use chainfold::mayo::verify::{eval_public_map, unpack_blocks, verify};
use chainfold::Describe;

/// A compact public key of counting bytes.
fn counting_cpk() -> [u8; 4912] {
    std::array::from_fn(|i| i as u8)
}

#[test]
fn gf16_mul_associative_sample() {
    // Sanity: mul_gf16 against a known reduction. x * x = x^2 (=4).
    assert_eq!(mul_gf16(2, 2), 4);
    // x^3 * x = x^4 = x + 1 = 3.
    assert_eq!(mul_gf16(8, 2), 3);
    // 1 is multiplicative identity.
    for a in 0u8..16 {
        assert_eq!(mul_gf16(a, 1), a);
        assert_eq!(mul_gf16(1, a), a);
    }
}

#[test]
fn gf16_is_a_field() {
    for a in 0u8..16 {
        for b in 0u8..16 {
            assert_eq!(mul_gf16(a, b), mul_gf16(b, a));
            for c in 0u8..16 {
                assert_eq!(mul_gf16(a, mul_gf16(b, c)), mul_gf16(mul_gf16(a, b), c));
                assert_eq!(mul_gf16(a, b ^ c), mul_gf16(a, b) ^ mul_gf16(a, c));
            }
        }
        if a != 0 {
            assert_eq!((1u8..16).filter(|b| mul_gf16(a, *b) == 1).count(), 1);
        }
    }
    // only the low nibbles count
    assert_eq!(mul_gf16(0xf8, 0x72), 3);
}

#[test]
fn unpack_pack_roundtrip() {
    let nibbles: Vec<u8> = (0..32).map(|i| (i as u8) & 0x0f).collect();
    let packed = pack_nibbles(&nibbles);
    let unpacked = unpack_nibbles(&packed, nibbles.len());
    assert_eq!(unpacked, nibbles);
}

#[test]
fn nibbles_pack_low_then_high() {
    assert_eq!(pack_nibbles(&[1, 2, 3]), vec![0x21, 0x03]);
    assert_eq!(unpack_nibbles(&[0x21, 0x43], 3), vec![1, 2, 3]);
    assert_eq!(pack_nibbles(&unpack_nibbles(&[0xab, 0xcd], 4)), vec![0xab, 0xcd]);
}

#[test]
fn a_digest_is_the_head_of_shake256() {
    assert_eq!(
        Commitment(shake256_32(b"hello")).describe(),
        "1234075ae4a1e77316cf2d8000974581a343b9ebbca7e3d1db83394c30f22162"
    );
}

#[test]
fn c_hashes_the_tag_and_the_digest() {
    assert_eq!(
        compute_c(b"").describe(),
        "8c5fbda32ac000715515cdf0b5ef3a18e51d62c65bf3b1837074bb7287213ccd"
    );
    assert_eq!(
        compute_c(b"hello").describe(),
        "c03303a9a892026ff5aef79ed5affb3c16eabe0972356d7e553885147504fd6c"
    );
    assert_eq!(
        compute_c_from_digest(&[0; 32]).describe(),
        "1c3301a9ed3bdba78e287c138d7be63147604769ba0b32237f33216200b7965f"
    );
    assert_eq!(compute_c_from_digest(&shake256_32(b"hello")), compute_c(b"hello"));
}

#[test]
fn pk_id_hashes_the_tag_and_the_expanded_key() {
    assert_eq!(
        compute_pk_id(&counting_cpk()).describe(),
        "d7102f0549dd2c91712c946de293e8cb79ba8581363e7dffb18fddf80f69dc12"
    );
    assert_eq!(
        pk_id_from_lanes(&expand_pk_to_lanes(&counting_cpk())),
        compute_pk_id(&counting_cpk())
    );
    assert_eq!(
        compute_commitments(b"hello", &counting_cpk()),
        (compute_c(b"hello"), compute_pk_id(&counting_cpk()))
    );
}

#[test]
fn a_key_expands_to_its_key_stream_and_its_tail() {
    let cpk = counting_cpk();
    let lanes = expand_pk_to_lanes(&cpk);
    assert_eq!(lanes.p1.len(), P1_ENTRIES);
    assert_eq!(lanes.p2.len(), P2_ENTRIES);
    assert_eq!(lanes.p3.len(), P3_ENTRIES);
    // the first block is the encryption of the zero block
    let first = [
        0xc6, 0xa1, 0x3b, 0x37, 0x87, 0x8f, 0x5b, 0x82, 0x6f, 0x4f, 0x81, 0x62, 0xa1, 0xc8, 0xd8,
        0x79,
    ];
    assert_eq!(pack_nibbles(&lanes.p1[0])[..16], first);
    let mut tail = Vec::new();
    for entry in &lanes.p3 {
        tail.extend_from_slice(&pack_nibbles(entry));
    }
    assert_eq!(tail, cpk[16..]);
}

#[test]
fn entries_unpack_one_after_the_other() {
    let mut packed = [0u8; 64];
    packed[0] = 0x21;
    packed[32] = 0x43;
    let entries = unpack_m_vec_array(&packed, 2);
    assert_eq!(entries.len(), 2);
    assert_eq!(entries[0].len(), M);
    assert_eq!(entries[0][..3], [1, 2, 0]);
    assert_eq!(entries[1][..3], [3, 4, 0]);
}

#[test]
fn wrappers_give_their_bytes_back() {
    let mut proof = Proof::from(vec![1u8, 2, 3]);
    assert_eq!(proof.len(), 3);
    assert!(!proof.is_empty());
    proof.as_mut_slice()[0] = 9;
    assert_eq!(proof.as_slice(), [9, 2, 3]);
    assert_eq!(proof.into_bytes(), vec![9, 2, 3]);
    assert!(Proof::from(Vec::new()).is_empty());
    assert_eq!(Commitment::from([7; 32]).as_bytes(), &[7; 32]);
    assert_eq!(Commitment::from([7; 32]).into_bytes(), [7; 32]);
    assert_eq!(PkId::from([8; 32]).as_bytes(), &[8; 32]);
    assert_eq!(PkId::from([8; 32]).into_bytes(), [8; 32]);
    assert_eq!(PkId::from([0xa0; 32]).describe(), "a0".repeat(32));
}

#[test]
fn a_bundle_carries_the_commitments_of_its_message() {
    let cpk = counting_cpk();
    let sig = [0u8; 186];
    let signed = SignedMessage {
        payload: b"hello",
        cpk: &cpk,
        sig: &sig,
    };
    let bundle = Statement::of(&signed).bundle(vec![1, 2, 3]);
    assert_eq!(bundle.c, compute_c(b"hello"));
    assert_eq!(bundle.pk_id, compute_pk_id(&cpk));
    assert_eq!(bundle.proof.into_bytes(), vec![1, 2, 3]);
}

#[test]
fn the_public_input_holds_constants_then_c_then_pk_id() {
    let layout = match PublicLayout::new(vec![5, 6], 3, 12) {
        Ok(layout) => layout,
        Err(error) => panic!("{}", error.describe()),
    };
    let mut c = [0u8; 32];
    c[0] = 1;
    c[8] = 2;
    c[31] = 0x80;
    let mut pk_id = [0u8; 32];
    pk_id[1] = 1;
    assert_eq!(
        layout.public_input(&Commitment(c), &PkId(pk_id)),
        vec![5, 6, 0, 1, 2, 0, 0x8000_0000_0000_0000, 256, 0, 0, 0, 0]
    );
}

#[test]
fn layouts_without_room_are_refused() {
    let narrow = PublicLayout::new(vec![5], 1, 8).err().unwrap();
    let full = PublicLayout::new(vec![5, 6], 1, 9).err().unwrap();
    assert!(matches!(
        narrow.source(),
        Cause::Layout(error) if matches!(error.detail, LayoutDetail::InoutOverlapsWitness)
    ));
    assert!(matches!(
        full.source(),
        Cause::Layout(error) if matches!(error.detail, LayoutDetail::ConstantsOverlapInout)
    ));
    assert_eq!(
        narrow.describe(),
        "setup error: binius value-vec layout invariant violated (offset_witness must be >= \
         offset_inout + 8 for c/pk_id slots): offset_inout=1, offset_witness=8, \
         constants.len()=1"
    );
}

#[test]
fn caught_panics_become_failed_verification() {
    let told = Error::from_caught_panic(PanicPayload::Message("slice".to_string()));
    let untold = Error::from_caught_panic(PanicPayload::Other);
    assert_eq!(
        told.describe(),
        "verify error: binius backend panicked: slice"
    );
    assert_eq!(
        untold.describe(),
        "verify error: binius backend panicked: non-string panic payload"
    );
    assert_eq!(
        Error::Prove(Cause::Backend("bad witness".to_string())).describe(),
        "prove error: bad witness"
    );
}

/// `dst[ell] ^= scalar * src[ell]` for every equation.
fn mvec_mul_add(dst: &mut [u8; 64], src: &[u8; 64], scalar: u8) {
    for ell in 0..M {
        dst[ell] ^= mul_gf16(scalar, src[ell]);
    }
}

/// The public map written block by block, over tables of partial sums.
fn tabled_public_map(
    p1: &[[u8; 64]],
    p2: &[[u8; 64]],
    p3: &[[u8; 64]],
    s: &[[u8; 81]; 4],
) -> [u8; 64] {
    let mut ps = vec![[0u8; 64]; N * K];
    let mut p1_idx = 0;
    for j in 0..V {
        for r in j..V {
            for col in 0..K {
                mvec_mul_add(&mut ps[j * K + col], &p1[p1_idx], s[col][r]);
            }
            p1_idx += 1;
        }
        for r in 0..O {
            for col in 0..K {
                mvec_mul_add(&mut ps[j * K + col], &p2[j * O + r], s[col][V + r]);
            }
        }
    }
    let mut p3_idx = 0;
    for j in 0..O {
        for r in j..O {
            for col in 0..K {
                mvec_mul_add(&mut ps[(V + j) * K + col], &p3[p3_idx], s[col][V + r]);
            }
            p3_idx += 1;
        }
    }
    let mut sps = vec![[0u8; 64]; K * K];
    for row in 0..K {
        for j in 0..N {
            for col in 0..K {
                let term = ps[j * K + col];
                mvec_mul_add(&mut sps[row * K + col], &term, s[row][j]);
            }
        }
    }
    let tail = [8u8, 0, 2, 8];
    let mut acc = [0u8; 64];
    for i in (0..K).rev() {
        for j in i..K {
            let top = acc[M - 1];
            for ell in (1..M).rev() {
                acc[ell] = acc[ell - 1];
            }
            acc[0] = 0;
            for tau in 0..tail.len() {
                acc[tau] ^= mul_gf16(top, tail[tau]);
            }
            for ell in 0..M {
                acc[ell] ^= sps[i * K + j][ell];
                if i != j {
                    acc[ell] ^= sps[j * K + i][ell];
                }
            }
        }
    }
    acc
}

#[test]
fn the_public_map_agrees_with_its_tabled_form() {
    let lanes = expand_pk_to_lanes(&counting_cpk());
    let sig: [u8; 186] = std::array::from_fn(|i| (i * 37 + 11) as u8);
    let s = unpack_blocks(&sig);
    let value = eval_public_map(&lanes, &s);
    assert_eq!(value, tabled_public_map(&lanes.p1, &lanes.p2, &lanes.p3, &s));
    assert_ne!(value, [0u8; 64]);
    assert_eq!(eval_public_map(&lanes, &[[0; 81]; 4]), [0u8; 64]);
}

#[test]
fn blocks_follow_each_other_nibble_by_nibble() {
    let mut sig = [0u8; 186];
    sig[0] = 0x21;
    sig[40] = 0x43;
    sig[161] = 0x65;
    let s = unpack_blocks(&sig);
    assert_eq!((s[0][0], s[0][1]), (1, 2));
    assert_eq!((s[0][80], s[1][0]), (3, 4));
    assert_eq!((s[3][79], s[3][80]), (5, 6));
}

#[test]
fn a_made_up_signature_is_not_valid() {
    let sig: [u8; 186] = std::array::from_fn(|i| (i * 37 + 11) as u8);
    assert!(!verify(&counting_cpk(), b"hello", &sig));
    assert!(!verify(&counting_cpk(), b"hello", &[0; 186]));
}
