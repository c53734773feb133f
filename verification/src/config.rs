//! Supported permutation configurations.

use vstd::prelude::*;

use crate::types::{CircuitError, CircuitFailure, NonPrimitiveOpId, NpoTypeId};

verus! {

/// The sizes of a permutation: extension degree, and width and rate in limbs of that degree.
pub struct Sizes {
    pub d: nat,
    pub width_ext: nat,
    pub rate_ext: nat,
}

/// The sizes of a permutation whose state splits into a rate and a capacity.
pub open spec fn splits(s: Sizes) -> bool {
    &&& 1 <= s.d <= 8
    &&& 0 < s.rate_ext < s.width_ext <= 64
}

/// A permutation configuration.
pub trait PoseidonConfigApi: Copy + Sized {
    spec fn sizes(self) -> Sizes;

    proof fn sizes_split(self)
        ensures
            splits(self.sizes()),
    ;

    /// The extension degree of a limb.
    fn d(self) -> (r: usize)
        ensures
            r == self.sizes().d,
    ;

    /// The number of limbs of the state.
    fn width_ext(self) -> (r: usize)
        ensures
            r == self.sizes().width_ext,
            splits(self.sizes()),
    ;

    /// The number of limbs of the rate.
    fn rate_ext(self) -> (r: usize)
        ensures
            r == self.sizes().rate_ext,
            splits(self.sizes()),
    ;

    /// The number of limbs of the capacity.
    fn capacity_ext(self) -> (r: usize)
        ensures
            r == self.sizes().width_ext - self.sizes().rate_ext,
    {
        self.width_ext() - self.rate_ext()
    }

    /// The number of base elements of the state.
    fn width(self) -> (r: usize)
        ensures
            r == self.sizes().width_ext * self.sizes().d,
    {
        let w: usize = self.width_ext();
        let d: usize = self.d();
        assert(w * d <= 64 * 8) by (nonlinear_arith)
            requires
                w <= 64,
                d <= 8,
        ;
        w * d
    }

    /// The number of base elements of the rate.
    fn rate(self) -> (r: usize)
        ensures
            r == self.sizes().rate_ext * self.sizes().d,
    {
        let w: usize = self.rate_ext();
        let d: usize = self.d();
        assert(w * d <= 64 * 8) by (nonlinear_arith)
            requires
                w <= 64,
                d <= 8,
        ;
        w * d
    }

    /// Whether the shape compresses four digests into one.
    fn is_arity4_shape(self) -> (r: bool)
        ensures
            r == arity4(self.sizes()),
    {
        let width: usize = self.width_ext();
        let capacity: usize = self.capacity_ext();
        4 * capacity == width
    }
}

/// The capacity is a quarter of the state.
pub open spec fn arity4(s: Sizes) -> bool {
    4 * (s.width_ext - s.rate_ext) == s.width_ext
}

/// Poseidon1 configurations.
#[derive(Clone, Copy, Debug, PartialEq, Eq, Hash, Structural)]
pub enum Poseidon1Config {
    BabyBearD1W16,
    BabyBearD4W16,
    BabyBearD4W24,
    KoalaBearD1W16,
    KoalaBearD4W16,
    KoalaBearD4W24,
    GoldilocksD2W8,
}

/// Poseidon2 configurations.
#[derive(Clone, Copy, Debug, PartialEq, Eq, Hash, Structural)]
pub enum Poseidon2Config {
    BabyBearD1W16,
    BabyBearD4W16,
    BabyBearD4W24,
    BabyBearD4W32,
    KoalaBearD1W16,
    KoalaBearD4W16,
    KoalaBearD4W24,
    KoalaBearD1W32,
    KoalaBearD4W32,
    GoldilocksD1W12,
    GoldilocksD2W8,
    GoldilocksD2W16,
}

impl Poseidon1Config {
    pub const BABY_BEAR_D1_W16: Poseidon1Config = Poseidon1Config::BabyBearD1W16;

    pub const BABY_BEAR_D4_W16: Poseidon1Config = Poseidon1Config::BabyBearD4W16;

    pub const BABY_BEAR_D4_W24: Poseidon1Config = Poseidon1Config::BabyBearD4W24;

    pub const KOALA_BEAR_D1_W16: Poseidon1Config = Poseidon1Config::KoalaBearD1W16;

    pub const KOALA_BEAR_D4_W16: Poseidon1Config = Poseidon1Config::KoalaBearD4W16;

    pub const KOALA_BEAR_D4_W24: Poseidon1Config = Poseidon1Config::KoalaBearD4W24;

    pub const GOLDILOCKS_D2_W8: Poseidon1Config = Poseidon1Config::GoldilocksD2W8;
}

impl Poseidon2Config {
    pub const BABY_BEAR_D1_W16: Poseidon2Config = Poseidon2Config::BabyBearD1W16;

    pub const BABY_BEAR_D4_W16: Poseidon2Config = Poseidon2Config::BabyBearD4W16;

    pub const BABY_BEAR_D4_W24: Poseidon2Config = Poseidon2Config::BabyBearD4W24;

    pub const BABY_BEAR_D4_W32: Poseidon2Config = Poseidon2Config::BabyBearD4W32;

    pub const KOALA_BEAR_D1_W16: Poseidon2Config = Poseidon2Config::KoalaBearD1W16;

    pub const KOALA_BEAR_D4_W16: Poseidon2Config = Poseidon2Config::KoalaBearD4W16;

    pub const KOALA_BEAR_D4_W24: Poseidon2Config = Poseidon2Config::KoalaBearD4W24;

    pub const KOALA_BEAR_D1_W32: Poseidon2Config = Poseidon2Config::KoalaBearD1W32;

    pub const KOALA_BEAR_D4_W32: Poseidon2Config = Poseidon2Config::KoalaBearD4W32;

    pub const GOLDILOCKS_D1_W12: Poseidon2Config = Poseidon2Config::GoldilocksD1W12;

    pub const GOLDILOCKS_D2_W8: Poseidon2Config = Poseidon2Config::GoldilocksD2W8;

    pub const GOLDILOCKS_D2_W16: Poseidon2Config = Poseidon2Config::GoldilocksD2W16;
}

impl PoseidonConfigApi for Poseidon1Config {
    open spec fn sizes(self) -> Sizes {
        match self {
            Poseidon1Config::BabyBearD1W16 | Poseidon1Config::KoalaBearD1W16 => Sizes {
                d: 1,
                width_ext: 16,
                rate_ext: 8,
            },
            Poseidon1Config::BabyBearD4W16 | Poseidon1Config::KoalaBearD4W16 => Sizes {
                d: 4,
                width_ext: 4,
                rate_ext: 2,
            },
            Poseidon1Config::BabyBearD4W24 | Poseidon1Config::KoalaBearD4W24 => Sizes {
                d: 4,
                width_ext: 6,
                rate_ext: 4,
            },
            Poseidon1Config::GoldilocksD2W8 => Sizes { d: 2, width_ext: 4, rate_ext: 2 },
        }
    }

    proof fn sizes_split(self) {
    }

    fn d(self) -> (r: usize) {
        match self {
            Poseidon1Config::BabyBearD1W16 | Poseidon1Config::KoalaBearD1W16 => 1,
            Poseidon1Config::GoldilocksD2W8 => 2,
            _ => 4,
        }
    }

    fn width_ext(self) -> (r: usize) {
        match self {
            Poseidon1Config::BabyBearD1W16 | Poseidon1Config::KoalaBearD1W16 => 16,
            Poseidon1Config::BabyBearD4W24 | Poseidon1Config::KoalaBearD4W24 => 6,
            _ => 4,
        }
    }

    fn rate_ext(self) -> (r: usize) {
        match self {
            Poseidon1Config::BabyBearD1W16 | Poseidon1Config::KoalaBearD1W16 => 8,
            Poseidon1Config::BabyBearD4W24 | Poseidon1Config::KoalaBearD4W24 => 4,
            _ => 2,
        }
    }
}

impl PoseidonConfigApi for Poseidon2Config {
    open spec fn sizes(self) -> Sizes {
        match self {
            Poseidon2Config::BabyBearD1W16 | Poseidon2Config::KoalaBearD1W16 => Sizes {
                d: 1,
                width_ext: 16,
                rate_ext: 8,
            },
            Poseidon2Config::BabyBearD4W16 | Poseidon2Config::KoalaBearD4W16 => Sizes {
                d: 4,
                width_ext: 4,
                rate_ext: 2,
            },
            Poseidon2Config::BabyBearD4W24 | Poseidon2Config::KoalaBearD4W24 => Sizes {
                d: 4,
                width_ext: 6,
                rate_ext: 4,
            },
            Poseidon2Config::BabyBearD4W32 | Poseidon2Config::KoalaBearD4W32 => Sizes {
                d: 4,
                width_ext: 8,
                rate_ext: 6,
            },
            Poseidon2Config::KoalaBearD1W32 => Sizes { d: 1, width_ext: 32, rate_ext: 24 },
            Poseidon2Config::GoldilocksD1W12 => Sizes { d: 1, width_ext: 12, rate_ext: 6 },
            Poseidon2Config::GoldilocksD2W8 => Sizes { d: 2, width_ext: 4, rate_ext: 2 },
            Poseidon2Config::GoldilocksD2W16 => Sizes { d: 2, width_ext: 8, rate_ext: 6 },
        }
    }

    proof fn sizes_split(self) {
    }

    fn d(self) -> (r: usize) {
        match self {
            Poseidon2Config::BabyBearD1W16
            | Poseidon2Config::KoalaBearD1W16
            | Poseidon2Config::KoalaBearD1W32
            | Poseidon2Config::GoldilocksD1W12 => 1,
            Poseidon2Config::GoldilocksD2W8 | Poseidon2Config::GoldilocksD2W16 => 2,
            _ => 4,
        }
    }

    fn width_ext(self) -> (r: usize) {
        match self {
            Poseidon2Config::BabyBearD1W16 | Poseidon2Config::KoalaBearD1W16 => 16,
            Poseidon2Config::BabyBearD4W24 | Poseidon2Config::KoalaBearD4W24 => 6,
            Poseidon2Config::BabyBearD4W32
            | Poseidon2Config::KoalaBearD4W32
            | Poseidon2Config::GoldilocksD2W16 => 8,
            Poseidon2Config::KoalaBearD1W32 => 32,
            Poseidon2Config::GoldilocksD1W12 => 12,
            _ => 4,
        }
    }

    fn rate_ext(self) -> (r: usize) {
        match self {
            Poseidon2Config::BabyBearD1W16 | Poseidon2Config::KoalaBearD1W16 => 8,
            Poseidon2Config::BabyBearD4W24 | Poseidon2Config::KoalaBearD4W24 => 4,
            Poseidon2Config::BabyBearD4W32
            | Poseidon2Config::KoalaBearD4W32
            | Poseidon2Config::GoldilocksD2W16
            | Poseidon2Config::GoldilocksD1W12 => 6,
            Poseidon2Config::KoalaBearD1W32 => 24,
            _ => 2,
        }
    }
}

/// A family of Poseidon permutations.
pub trait PoseidonVariant {
    type Config: PoseidonConfigApi;

    /// The table of a configuration.
    spec fn sp_npo_type_id(config: Self::Config) -> NpoTypeId;

    /// The failure of a row that continues a chain that was not started.
    spec fn sp_chain_missing(operation_index: NonPrimitiveOpId) -> CircuitFailure;

    /// The configuration of a default call.
    spec fn sp_default_call_config() -> Self::Config;

    /// The configuration of a default base-field call.
    spec fn sp_default_base_config() -> Self::Config;

    fn npo_type_id(config: Self::Config) -> (r: NpoTypeId)
        ensures
            r == Self::sp_npo_type_id(config),
    ;

    fn chain_missing_error(operation_index: NonPrimitiveOpId) -> (r: CircuitError)
        ensures
            r@ == Self::sp_chain_missing(operation_index),
    ;

    fn default_call_config() -> (r: Self::Config)
        ensures
            r == Self::sp_default_call_config(),
    ;

    fn default_base_config() -> (r: Self::Config)
        ensures
            r == Self::sp_default_base_config(),
    ;
}

/// The Poseidon1 family.
#[derive(Clone, Copy, Debug, PartialEq, Eq)]
pub struct Poseidon1Variant {}

/// The Poseidon2 family.
#[derive(Clone, Copy, Debug, PartialEq, Eq)]
pub struct Poseidon2Variant {}

impl PoseidonVariant for Poseidon1Variant {
    type Config = Poseidon1Config;

    open spec fn sp_npo_type_id(config: Poseidon1Config) -> NpoTypeId {
        NpoTypeId::Poseidon1Perm(config)
    }

    open spec fn sp_chain_missing(operation_index: NonPrimitiveOpId) -> CircuitFailure {
        CircuitFailure::Chain1Missing { operation_index }
    }

    open spec fn sp_default_call_config() -> Poseidon1Config {
        Poseidon1Config::BabyBearD4W16
    }

    open spec fn sp_default_base_config() -> Poseidon1Config {
        Poseidon1Config::BabyBearD1W16
    }

    fn npo_type_id(config: Poseidon1Config) -> (r: NpoTypeId) {
        NpoTypeId::Poseidon1Perm(config)
    }

    fn chain_missing_error(operation_index: NonPrimitiveOpId) -> (r: CircuitError) {
        CircuitError::Poseidon1ChainMissingPreviousState { operation_index }
    }

    fn default_call_config() -> (r: Poseidon1Config) {
        Poseidon1Config::BabyBearD4W16
    }

    fn default_base_config() -> (r: Poseidon1Config) {
        Poseidon1Config::BabyBearD1W16
    }
}

impl PoseidonVariant for Poseidon2Variant {
    type Config = Poseidon2Config;

    open spec fn sp_npo_type_id(config: Poseidon2Config) -> NpoTypeId {
        NpoTypeId::Poseidon2Perm(config)
    }

    open spec fn sp_chain_missing(operation_index: NonPrimitiveOpId) -> CircuitFailure {
        CircuitFailure::Chain2Missing { operation_index }
    }

    open spec fn sp_default_call_config() -> Poseidon2Config {
        Poseidon2Config::BabyBearD4W16
    }

    open spec fn sp_default_base_config() -> Poseidon2Config {
        Poseidon2Config::BabyBearD1W16
    }

    fn npo_type_id(config: Poseidon2Config) -> (r: NpoTypeId) {
        NpoTypeId::Poseidon2Perm(config)
    }

    fn chain_missing_error(operation_index: NonPrimitiveOpId) -> (r: CircuitError) {
        CircuitError::Poseidon2ChainMissingPreviousState { operation_index }
    }

    fn default_call_config() -> (r: Poseidon2Config) {
        Poseidon2Config::BabyBearD4W16
    }

    fn default_base_config() -> (r: Poseidon2Config) {
        Poseidon2Config::BabyBearD1W16
    }
}

/// Challenger/MMCS permutation config: either Poseidon1 or Poseidon2.
#[derive(Clone, Copy, Debug, PartialEq, Eq, Hash, Structural)]
pub enum PermConfig {
    Poseidon1(Poseidon1Config),
    Poseidon2(Poseidon2Config),
}

impl PermConfig {
    pub open spec fn sizes(self) -> Sizes {
        match self {
            PermConfig::Poseidon1(c) => c.sizes(),
            PermConfig::Poseidon2(c) => c.sizes(),
        }
    }

    pub fn poseidon1(c: Poseidon1Config) -> (r: Self)
        ensures
            r == PermConfig::Poseidon1(c),
    {
        PermConfig::Poseidon1(c)
    }

    pub fn poseidon2(c: Poseidon2Config) -> (r: Self)
        ensures
            r == PermConfig::Poseidon2(c),
    {
        PermConfig::Poseidon2(c)
    }

    pub fn d(self) -> (r: usize)
        ensures
            r == self.sizes().d,
    {
        match self {
            PermConfig::Poseidon1(c) => c.d(),
            PermConfig::Poseidon2(c) => c.d(),
        }
    }

    pub fn rate(self) -> (r: usize)
        ensures
            r == self.sizes().rate_ext * self.sizes().d,
    {
        match self {
            PermConfig::Poseidon1(c) => c.rate(),
            PermConfig::Poseidon2(c) => c.rate(),
        }
    }

    pub fn rate_ext(self) -> (r: usize)
        ensures
            r == self.sizes().rate_ext,
    {
        match self {
            PermConfig::Poseidon1(c) => c.rate_ext(),
            PermConfig::Poseidon2(c) => c.rate_ext(),
        }
    }

    pub fn capacity_ext(self) -> (r: usize)
        ensures
            r == self.sizes().width_ext - self.sizes().rate_ext,
    {
        match self {
            PermConfig::Poseidon1(c) => c.capacity_ext(),
            PermConfig::Poseidon2(c) => c.capacity_ext(),
        }
    }

    pub fn width_ext(self) -> (r: usize)
        ensures
            r == self.sizes().width_ext,
    {
        match self {
            PermConfig::Poseidon1(c) => c.width_ext(),
            PermConfig::Poseidon2(c) => c.width_ext(),
        }
    }

    /// Returns `true` for the arity-4 compression shape (`4·capacity_ext == width_ext`).
    pub fn is_arity4_shape(self) -> (r: bool)
        ensures
            r == arity4(self.sizes()),
    {
        match self {
            PermConfig::Poseidon1(c) => c.is_arity4_shape(),
            PermConfig::Poseidon2(c) => c.is_arity4_shape(),
        }
    }

    pub fn as_poseidon1(self) -> (r: Option<Poseidon1Config>)
        ensures
            r == (match self {
                PermConfig::Poseidon1(c) => Some(c),
                PermConfig::Poseidon2(_) => None,
            }),
    {
        match self {
            PermConfig::Poseidon1(c) => Some(c),
            PermConfig::Poseidon2(_) => None,
        }
    }

    pub fn as_poseidon2(self) -> (r: Option<Poseidon2Config>)
        ensures
            r == (match self {
                PermConfig::Poseidon2(c) => Some(c),
                PermConfig::Poseidon1(_) => None,
            }),
    {
        match self {
            PermConfig::Poseidon2(c) => Some(c),
            PermConfig::Poseidon1(_) => None,
        }
    }

    /// NPO type id for the perm table backing this config.
    pub fn npo_type_id(self) -> (r: NpoTypeId)
        ensures
            r == (match self {
                PermConfig::Poseidon1(c) => NpoTypeId::Poseidon1Perm(c),
                PermConfig::Poseidon2(c) => NpoTypeId::Poseidon2Perm(c),
            }),
    {
        match self {
            PermConfig::Poseidon1(c) => NpoTypeId::poseidon1_perm(c),
            PermConfig::Poseidon2(c) => NpoTypeId::poseidon2_perm(c),
        }
    }
}

impl From<Poseidon1Config> for PermConfig {
    fn from(c: Poseidon1Config) -> (r: Self) {
        PermConfig::Poseidon1(c)
    }
}

impl vstd::std_specs::convert::FromSpecImpl<Poseidon1Config> for PermConfig {
    open spec fn obeys_from_spec() -> bool {
        true
    }

    open spec fn from_spec(c: Poseidon1Config) -> Self {
        PermConfig::Poseidon1(c)
    }
}

impl From<Poseidon2Config> for PermConfig {
    fn from(c: Poseidon2Config) -> (r: Self) {
        PermConfig::Poseidon2(c)
    }
}

impl vstd::std_specs::convert::FromSpecImpl<Poseidon2Config> for PermConfig {
    open spec fn obeys_from_spec() -> bool {
        true
    }

    open spec fn from_spec(c: Poseidon2Config) -> Self {
        PermConfig::Poseidon2(c)
    }
}

/// The state of every configuration is its rate followed by its capacity, and a limb of it holds a
/// whole number of base elements.
pub proof fn law_width_is_rate_plus_capacity(c: PermConfig)
    ensures
        c.sizes().width_ext == c.sizes().rate_ext + (c.sizes().width_ext - c.sizes().rate_ext),
        splits(c.sizes()),
        c.sizes().rate_ext * c.sizes().d + (c.sizes().width_ext - c.sizes().rate_ext)
            * c.sizes().d == c.sizes().width_ext * c.sizes().d,
{
    let s = c.sizes();
    match c {
        PermConfig::Poseidon1(p) => p.sizes_split(),
        PermConfig::Poseidon2(p) => p.sizes_split(),
    }
    assert(s.rate_ext * s.d + (s.width_ext - s.rate_ext) * s.d == s.width_ext * s.d)
        by (nonlinear_arith);
}

} // verus!
