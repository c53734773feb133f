use p3_field::extension::BinomialExtensionField;
use p3_field::{BasedVectorSpace, Field as NativeField, PrimeCharacteristicRing, PrimeField64};
use p3_recursion::bits::log2_strict;
use p3_recursion::extension::{BabyBearExt4, ExtensionField};
use p3_recursion::field::{
    exp_power_of_2, exp_u64, BabyBear, Field, Goldilocks, KoalaBear, TwoAdicField,
};

#[test]
fn baby_bear_arithmetic_matches_the_field() {
    type N = p3_baby_bear::BabyBear;
    let samples = [0u64, 1, 2, 17, 0x78000000, 0x40000000, 123456789];
    for a in samples {
        for b in samples {
            let (x, y) = (BabyBear::from_u64(a), BabyBear::from_u64(b));
            let (m, n) = (N::from_u64(a), N::from_u64(b));
            assert_eq!(x.add(y).as_canonical_u64(), (m + n).as_canonical_u64());
            assert_eq!(x.sub(y).as_canonical_u64(), (m - n).as_canonical_u64());
            assert_eq!(x.mul(y).as_canonical_u64(), (m * n).as_canonical_u64());
        }
        if a != 0 {
            let inverse = BabyBear::from_u64(a).inverse();
            assert_eq!(inverse.as_canonical_u64(), N::from_u64(a).inverse().as_canonical_u64());
        }
    }
    assert_eq!(BabyBear::from_u64(0x78000001), BabyBear::zero());
}

#[test]
fn roots_of_unity_match_the_fields() {
    for bits in 0..=27 {
        let root = BabyBear::two_adic_generator(bits);
        let expected =
            <p3_baby_bear::BabyBear as p3_field::TwoAdicField>::two_adic_generator(bits);
        assert_eq!(root.as_canonical_u64(), expected.as_canonical_u64());
        assert_eq!(exp_power_of_2(root, bits), BabyBear::one());
    }
    for bits in 0..=24 {
        let expected =
            <p3_koala_bear::KoalaBear as p3_field::TwoAdicField>::two_adic_generator(bits);
        assert_eq!(
            KoalaBear::two_adic_generator(bits).as_canonical_u64(),
            expected.as_canonical_u64()
        );
    }
    for bits in 0..=32 {
        let expected =
            <p3_goldilocks::Goldilocks as p3_field::TwoAdicField>::two_adic_generator(bits);
        assert_eq!(
            Goldilocks::two_adic_generator(bits).as_canonical_u64(),
            expected.as_canonical_u64()
        );
    }
    assert_eq!(BabyBear::two_adicity(), 27);
    assert_eq!(KoalaBear::two_adicity(), 24);
    assert_eq!(Goldilocks::two_adicity(), 32);
}

#[test]
fn generators_match_the_fields() {
    assert_eq!(
        BabyBear::generator().as_canonical_u64(),
        p3_baby_bear::BabyBear::GENERATOR.as_canonical_u64()
    );
    assert_eq!(
        KoalaBear::generator().as_canonical_u64(),
        p3_koala_bear::KoalaBear::GENERATOR.as_canonical_u64()
    );
    assert_eq!(
        Goldilocks::generator().as_canonical_u64(),
        p3_goldilocks::Goldilocks::GENERATOR.as_canonical_u64()
    );
}

#[test]
fn other_inverses_match_the_fields() {
    let x = KoalaBear::from_u64(98765);
    let n = p3_koala_bear::KoalaBear::from_u64(98765).inverse();
    assert_eq!(x.inverse().as_canonical_u64(), n.as_canonical_u64());
    let x = Goldilocks::from_u64(0xdead_beef_0000_0007);
    let n = p3_goldilocks::Goldilocks::from_u64(0xdead_beef_0000_0007).inverse();
    assert_eq!(x.inverse().as_canonical_u64(), n.as_canonical_u64());
}

#[test]
fn quartic_extension_matches_the_field() {
    type N = BinomialExtensionField<p3_baby_bear::BabyBear, 4>;
    let ours = |c: [u64; 4]| {
        BabyBearExt4::from_coefficients(&c.iter().map(|&x| BabyBear::from_u64(x)).collect())
    };
    let native =
        |c: [u64; 4]| N::from_basis_coefficients_fn(|i| p3_baby_bear::BabyBear::from_u64(c[i]));
    let words = |x: BabyBearExt4| -> Vec<u64> {
        x.coefficients().iter().map(|c| c.as_canonical_u64()).collect()
    };
    let native_words = |x: N| -> Vec<u64> {
        let c: &[p3_baby_bear::BabyBear] = x.as_basis_coefficients_slice();
        c.iter().map(|c| c.as_canonical_u64()).collect()
    };
    let samples = [[1, 2, 3, 4], [0, 0, 5, 0x78000000], [9, 0, 0, 0], [7, 6, 5, 4]];
    for a in samples {
        for b in samples {
            assert_eq!(words(ours(a).mul(ours(b))), native_words(native(a) * native(b)));
            assert_eq!(words(ours(a).sub(ours(b))), native_words(native(a) - native(b)));
        }
        assert_eq!(words(ours(a).inverse()), native_words(native(a).inverse()));
    }
    assert_eq!(BabyBearExt4::dimension(), 4);
    assert_eq!(words(BabyBearExt4::from_base(BabyBear::from_u64(8))), vec![8, 0, 0, 0]);
}

#[test]
fn powers_and_logarithms() {
    assert_eq!(exp_u64(BabyBear::from_u64(3), 5), BabyBear::from_u64(243));
    assert_eq!(exp_u64(BabyBear::from_u64(3), 0), BabyBear::one());
    assert_eq!(exp_power_of_2(BabyBear::from_u64(2), 3), BabyBear::from_u64(256));
    assert_eq!(log2_strict(1), 0);
    assert_eq!(log2_strict(4096), 12);
}
