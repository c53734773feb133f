use p3_field::PrimeField64;
use p3_goldilocks::Goldilocks as NativeGoldilocks;
use p3_recursion::config::Poseidon2Config;
use p3_recursion::field::{BabyBear, Field, Goldilocks, KoalaBear};
use p3_recursion::poseidon2_constants::{
    BABY_BEAR_16_FIRST, BABY_BEAR_16_LAST, BABY_BEAR_16_PARTIAL, BABY_BEAR_24_FIRST, BABY_BEAR_24_LAST, BABY_BEAR_24_PARTIAL, BABY_BEAR_32_FIRST, BABY_BEAR_32_LAST, BABY_BEAR_32_PARTIAL, KOALA_BEAR_16_FIRST, KOALA_BEAR_16_LAST, KOALA_BEAR_16_PARTIAL, KOALA_BEAR_24_FIRST, KOALA_BEAR_24_LAST, KOALA_BEAR_24_PARTIAL, KOALA_BEAR_32_FIRST, KOALA_BEAR_32_LAST, KOALA_BEAR_32_PARTIAL,
};
use p3_recursion::presets::{
    goldilocks_d1_width12_round_constants, goldilocks_d2_width16_round_constants,
    goldilocks_d2_width8_default_air, goldilocks_d2_width8_default_air_with_preprocessed,
    goldilocks_d2_width8_round_constants, BabyBearD1Width16, BabyBearD4Width16,
    BabyBearD4Width24, BabyBearD4Width32, GoldilocksD1Width12, KoalaBearD1Width16,
    KoalaBearD4Width24, KoalaBearD4Width32, Poseidon2Params, RoundConstants,
    VERIDIAN_GOLDILOCKS_W12_SEED,
};
use rand::distr::StandardUniform;
use rand::rngs::SmallRng;
use rand::{RngExt, SeedableRng};

fn baby(x: &p3_baby_bear::BabyBear) -> BabyBear {
    BabyBear::from_u64(x.as_canonical_u64())
}

fn koala(x: &p3_koala_bear::KoalaBear) -> KoalaBear {
    KoalaBear::from_u64(x.as_canonical_u64())
}

fn gold(x: &NativeGoldilocks) -> Goldilocks {
    Goldilocks::from_u64(x.as_canonical_u64())
}

fn baby_rows<const N: usize>(rows: &[[p3_baby_bear::BabyBear; N]]) -> Vec<Vec<BabyBear>> {
    rows.iter().map(|r| r.iter().map(baby).collect()).collect()
}

fn koala_rows<const N: usize>(rows: &[[p3_koala_bear::KoalaBear; N]]) -> Vec<Vec<KoalaBear>> {
    rows.iter().map(|r| r.iter().map(koala).collect()).collect()
}

fn words_baby<const N: usize, const R: usize>(
    rows: &[[p3_baby_bear::BabyBear; N]; R],
) -> [[u64; N]; R] {
    rows.map(|r| r.map(|x| x.as_canonical_u64()))
}

fn words_koala<const N: usize, const R: usize>(
    rows: &[[p3_koala_bear::KoalaBear; N]; R],
) -> [[u64; N]; R] {
    rows.map(|r| r.map(|x| x.as_canonical_u64()))
}

#[test]
fn tables_hold_the_constants_of_the_fields() {
    assert_eq!(words_baby(&p3_baby_bear::BABYBEAR_POSEIDON2_RC_16_EXTERNAL_INITIAL), BABY_BEAR_16_FIRST);
    assert_eq!(words_baby(&p3_baby_bear::BABYBEAR_POSEIDON2_RC_16_EXTERNAL_FINAL), BABY_BEAR_16_LAST);
    assert_eq!(words_baby(&[p3_baby_bear::BABYBEAR_POSEIDON2_RC_16_INTERNAL]), [BABY_BEAR_16_PARTIAL]);
    assert_eq!(words_baby(&p3_baby_bear::BABYBEAR_POSEIDON2_RC_24_EXTERNAL_INITIAL), BABY_BEAR_24_FIRST);
    assert_eq!(words_baby(&p3_baby_bear::BABYBEAR_POSEIDON2_RC_24_EXTERNAL_FINAL), BABY_BEAR_24_LAST);
    assert_eq!(words_baby(&[p3_baby_bear::BABYBEAR_POSEIDON2_RC_24_INTERNAL]), [BABY_BEAR_24_PARTIAL]);
    assert_eq!(words_baby(&p3_baby_bear::BABYBEAR_POSEIDON2_RC_32_EXTERNAL_INITIAL), BABY_BEAR_32_FIRST);
    assert_eq!(words_baby(&p3_baby_bear::BABYBEAR_POSEIDON2_RC_32_EXTERNAL_FINAL), BABY_BEAR_32_LAST);
    assert_eq!(words_baby(&[p3_baby_bear::BABYBEAR_POSEIDON2_RC_32_INTERNAL]), [BABY_BEAR_32_PARTIAL]);
    assert_eq!(words_koala(&p3_koala_bear::KOALABEAR_POSEIDON2_RC_16_EXTERNAL_INITIAL), KOALA_BEAR_16_FIRST);
    assert_eq!(words_koala(&p3_koala_bear::KOALABEAR_POSEIDON2_RC_16_EXTERNAL_FINAL), KOALA_BEAR_16_LAST);
    assert_eq!(words_koala(&[p3_koala_bear::KOALABEAR_POSEIDON2_RC_16_INTERNAL]), [KOALA_BEAR_16_PARTIAL]);
    assert_eq!(words_koala(&p3_koala_bear::KOALABEAR_POSEIDON2_RC_24_EXTERNAL_INITIAL), KOALA_BEAR_24_FIRST);
    assert_eq!(words_koala(&p3_koala_bear::KOALABEAR_POSEIDON2_RC_24_EXTERNAL_FINAL), KOALA_BEAR_24_LAST);
    assert_eq!(words_koala(&[p3_koala_bear::KOALABEAR_POSEIDON2_RC_24_INTERNAL]), [KOALA_BEAR_24_PARTIAL]);
    assert_eq!(words_koala(&p3_koala_bear::KOALABEAR_POSEIDON2_RC_32_EXTERNAL_INITIAL), KOALA_BEAR_32_FIRST);
    assert_eq!(words_koala(&p3_koala_bear::KOALABEAR_POSEIDON2_RC_32_EXTERNAL_FINAL), KOALA_BEAR_32_LAST);
    assert_eq!(words_koala(&[p3_koala_bear::KOALABEAR_POSEIDON2_RC_32_INTERNAL]), [KOALA_BEAR_32_PARTIAL]);
}

#[test]
fn baby_bear_constants_are_those_of_the_field() {
    let c = BabyBearD4Width16::round_constants();
    assert_eq!(
        c.beginning_full,
        baby_rows(&p3_baby_bear::BABYBEAR_POSEIDON2_RC_16_EXTERNAL_INITIAL)
    );
    assert_eq!(
        c.ending_full,
        baby_rows(&p3_baby_bear::BABYBEAR_POSEIDON2_RC_16_EXTERNAL_FINAL)
    );
    let partial: Vec<BabyBear> =
        p3_baby_bear::BABYBEAR_POSEIDON2_RC_16_INTERNAL.iter().map(baby).collect();
    assert_eq!(c.partial, partial);
    let wide = BabyBearD4Width24::round_constants();
    assert_eq!(
        wide.beginning_full,
        baby_rows(&p3_baby_bear::BABYBEAR_POSEIDON2_RC_24_EXTERNAL_INITIAL)
    );
    assert_eq!(wide.partial.len(), 21);
    let widest = BabyBearD4Width32::round_constants();
    assert_eq!(
        widest.ending_full,
        baby_rows(&p3_baby_bear::BABYBEAR_POSEIDON2_RC_32_EXTERNAL_FINAL)
    );
    assert_eq!(widest.partial.len(), 30);
}

#[test]
fn koala_bear_constants_are_those_of_the_field() {
    let c = KoalaBearD1Width16::round_constants();
    assert_eq!(
        c.beginning_full,
        koala_rows(&p3_koala_bear::KOALABEAR_POSEIDON2_RC_16_EXTERNAL_INITIAL)
    );
    let partial: Vec<KoalaBear> =
        p3_koala_bear::KOALABEAR_POSEIDON2_RC_16_INTERNAL.iter().map(koala).collect();
    assert_eq!(c.partial, partial);
    let wide = KoalaBearD4Width24::round_constants();
    assert_eq!(
        wide.ending_full,
        koala_rows(&p3_koala_bear::KOALABEAR_POSEIDON2_RC_24_EXTERNAL_FINAL)
    );
    let widest = KoalaBearD4Width32::round_constants();
    assert_eq!(
        widest.beginning_full,
        koala_rows(&p3_koala_bear::KOALABEAR_POSEIDON2_RC_32_EXTERNAL_INITIAL)
    );
}

fn drawn<const N: usize>(seed: u64) -> RoundConstants<Goldilocks> {
    let mut rng = SmallRng::seed_from_u64(seed);
    let beginning: [[NativeGoldilocks; N]; 4] = rng.sample(StandardUniform);
    let ending: [[NativeGoldilocks; N]; 4] = rng.sample(StandardUniform);
    let partial: [NativeGoldilocks; 22] = rng.sample(StandardUniform);
    RoundConstants {
        beginning_full: beginning.iter().map(|r| r.iter().map(gold).collect()).collect(),
        partial: partial.iter().map(gold).collect(),
        ending_full: ending.iter().map(|r| r.iter().map(gold).collect()).collect(),
    }
}

fn assert_same(a: &RoundConstants<Goldilocks>, b: &RoundConstants<Goldilocks>) {
    assert_eq!(a.beginning_full, b.beginning_full);
    assert_eq!(a.partial, b.partial);
    assert_eq!(a.ending_full, b.ending_full);
}

#[test]
fn goldilocks_constants_are_drawn_in_order() {
    assert_same(
        &goldilocks_d1_width12_round_constants(),
        &drawn::<12>(VERIDIAN_GOLDILOCKS_W12_SEED),
    );
    assert_same(&goldilocks_d2_width8_round_constants(), &drawn::<8>(1));
    assert_same(&goldilocks_d2_width16_round_constants(), &drawn::<16>(1));
}

#[test]
fn setups_carry_their_configuration() {
    assert_eq!(BabyBearD1Width16::config(), Poseidon2Config::BABY_BEAR_D1_W16);
    let air = BabyBearD1Width16::default_air();
    assert_eq!(air.config, Poseidon2Config::BABY_BEAR_D1_W16);
    assert_eq!(air.witness_ext_d, 1);
    assert_eq!(air.min_height, 1);
    assert!(air.preprocessed.is_empty());
    let bus5 = BabyBearD1Width16::default_air_with_preprocessed_witness_bus5(
        vec![BabyBear::one()],
        8,
    );
    assert_eq!(bus5.witness_ext_d, 5);
    assert_eq!(bus5.preprocessed, vec![BabyBear::one()]);
    assert_eq!(bus5.min_height, 8);
    assert_eq!(GoldilocksD1Width12::config(), Poseidon2Config::GOLDILOCKS_D1_W12);
    let gold = goldilocks_d2_width8_default_air();
    assert_eq!(gold.config, Poseidon2Config::GOLDILOCKS_D2_W8);
    assert_eq!(gold.witness_ext_d, 2);
    let with = goldilocks_d2_width8_default_air_with_preprocessed(vec![Goldilocks::one()], 4);
    assert_eq!(with.preprocessed.len(), 1);
    assert_eq!(with.min_height, 4);
}
