//! Decoding strategies. Greedy decoding is the default; beam search is chosen
//! through [`DecodingStrategy`].
use vstd::prelude::*;
use crate::single;
use crate::single::Bits;
use crate::tensor;
use crate::tensor::Tensor3;

pub mod ctc_agreement;
pub mod ctc_beam;
pub mod ctc_laws;
pub mod ctc_pruning;
pub mod ctc_totals;
pub mod rnnt_agreement;
pub mod rnnt_beam;
pub mod rnnt_bounds;
pub mod rnnt_chunks;
pub mod rnnt_expansion;
pub mod rnnt_laws;
pub mod rnnt_merging;
pub mod rnnt_parameters;
pub mod run_laws;
pub mod tdt_agreement;
pub mod tdt_beam;
pub mod tdt_bounds;
pub mod tdt_greedy;
pub mod tdt_laws;
pub mod tdt_merging;
pub mod tdt_search;
pub mod tie_laws;

pub use ctc_beam::{ctc_collapse, decode_ctc_beam, decode_ctc_greedy};
pub use rnnt_beam::{decode_rnnt_beam, RnntBeamOutput, RnntHypothesis};
pub use tdt_beam::{decode_tdt_beam, TdtBeamOutput, TdtHypothesis, TDT_DURATIONS};

verus! {

/// The bit pattern of `0.013`.
pub const DEFAULT_LENGTH_PENALTY: Bits = 0x3c54_fdf4;

/// The bit pattern of `3.5`.
pub const DEFAULT_PATIENCE: Bits = 0x4060_0000;

/// The bit pattern of `0.67`.
pub const DEFAULT_DURATION_REWARD: Bits = 0x3f2b_851f;

/// Beam search parameters, shared by the model families. Singles are held by
/// bit pattern.
///
/// | Field                  | RNN-T | TDT | CTC |
/// |------------------------|-------|-----|-----|
/// | `beam_size`            | yes   | yes | yes |
/// | `length_penalty`       | yes   | yes | no  |
/// | `patience`             | no    | yes | no  |
/// | `max_symbols_per_step` | yes   | yes | no  |
/// | `duration_reward`      | no    | yes | no  |
#[derive(Debug, Clone, Copy)]
pub struct BeamConfig {
    /// Most hypotheses kept after a pruning.
    pub beam_size: usize,
    /// Exponent of the length by which scores are divided when ranked.
    pub length_penalty: Bits,
    /// The pool of finished hypotheses holds `beam_size * patience`, rounded.
    pub patience: Bits,
    /// Most symbols emitted on one encoder frame.
    pub max_symbols_per_step: usize,
    /// Weight of duration against token log-probabilities.
    pub duration_reward: Bits,
}

impl BeamConfig {
    /// The counts are equal, and the singles are, as numbers.
    pub open spec fn equals(self, other: BeamConfig) -> bool {
        &&& self.beam_size == other.beam_size
        &&& single::equal(self.length_penalty, other.length_penalty)
        &&& single::equal(self.patience, other.patience)
        &&& self.max_symbols_per_step == other.max_symbols_per_step
        &&& single::equal(self.duration_reward, other.duration_reward)
    }

    /// Defaults for unified RNN-T decoding.
    pub fn default_unified() -> (r: Self)
        ensures
            r == (BeamConfig {
                beam_size: 5,
                length_penalty: DEFAULT_LENGTH_PENALTY,
                patience: DEFAULT_PATIENCE,
                max_symbols_per_step: 10,
                duration_reward: DEFAULT_DURATION_REWARD,
            }),
    {
        BeamConfig {
            beam_size: 5,
            length_penalty: DEFAULT_LENGTH_PENALTY,
            patience: DEFAULT_PATIENCE,
            max_symbols_per_step: 10,
            duration_reward: DEFAULT_DURATION_REWARD,
        }
    }

    /// Defaults for TDT decoding: those of unified decoding.
    pub fn default_tdt() -> (r: Self)
        ensures
            r == (BeamConfig {
                beam_size: 5,
                length_penalty: DEFAULT_LENGTH_PENALTY,
                patience: DEFAULT_PATIENCE,
                max_symbols_per_step: 10,
                duration_reward: DEFAULT_DURATION_REWARD,
            }),
    {
        BeamConfig::default_unified()
    }

    /// Defaults for CTC decoding, which reads `beam_size` alone.
    pub fn default_ctc() -> (r: Self)
        ensures
            r == (BeamConfig {
                beam_size: 5,
                length_penalty: single::ZERO,
                patience: single::ONE,
                max_symbols_per_step: 10,
                duration_reward: DEFAULT_DURATION_REWARD,
            }),
    {
        BeamConfig {
            beam_size: 5,
            length_penalty: single::ZERO,
            patience: single::ONE,
            max_symbols_per_step: 10,
            duration_reward: DEFAULT_DURATION_REWARD,
        }
    }
}

/// Parameters are equal where the counts are equal and the singles are, as
/// numbers.
impl PartialEq for BeamConfig {
    fn eq(&self, other: &Self) -> (r: bool) {
        self.beam_size == other.beam_size && single::is_equal(
            self.length_penalty,
            other.length_penalty,
        ) && single::is_equal(self.patience, other.patience) && self.max_symbols_per_step
            == other.max_symbols_per_step && single::is_equal(
            self.duration_reward,
            other.duration_reward,
        )
    }
}

impl vstd::std_specs::cmp::PartialEqSpecImpl for BeamConfig {
    open spec fn obeys_eq_spec() -> bool {
        true
    }

    open spec fn eq_spec(&self, other: &Self) -> bool {
        self.equals(*other)
    }
}

impl Default for BeamConfig {
    fn default() -> (r: Self)
        ensures
            r == (BeamConfig {
                beam_size: 5,
                length_penalty: DEFAULT_LENGTH_PENALTY,
                patience: DEFAULT_PATIENCE,
                max_symbols_per_step: 10,
                duration_reward: DEFAULT_DURATION_REWARD,
            }),
    {
        BeamConfig::default_unified()
    }
}

/// How a model turns network output into tokens.
#[derive(Debug, Clone, Copy)]
pub enum DecodingStrategy {
    /// The best token at every step.
    Greedy,
    /// Beam search with the given parameters.
    Beam(BeamConfig),
}

/// Greedy equals greedy, and beam search equals beam search with equal
/// parameters.
impl PartialEq for DecodingStrategy {
    fn eq(&self, other: &Self) -> (r: bool) {
        match (self, other) {
            (DecodingStrategy::Greedy, DecodingStrategy::Greedy) => true,
            (DecodingStrategy::Beam(a), DecodingStrategy::Beam(b)) => a.eq(b),
            _ => false,
        }
    }
}

impl vstd::std_specs::cmp::PartialEqSpecImpl for DecodingStrategy {
    open spec fn obeys_eq_spec() -> bool {
        true
    }

    open spec fn eq_spec(&self, other: &Self) -> bool {
        match (self, other) {
            (DecodingStrategy::Greedy, DecodingStrategy::Greedy) => true,
            (DecodingStrategy::Beam(a), DecodingStrategy::Beam(b)) => a.equals(*b),
            _ => false,
        }
    }
}

impl Default for DecodingStrategy {
    fn default() -> (r: Self)
        ensures
            r == DecodingStrategy::Greedy,
    {
        DecodingStrategy::Greedy
    }
}

impl DecodingStrategy {
    /// Whether this is beam search.
    pub fn is_beam(self) -> (r: bool)
        ensures
            r == (self is Beam),
    {
        match self {
            DecodingStrategy::Greedy => false,
            DecodingStrategy::Beam(_) => true,
        }
    }

    /// The parameters of beam search; none for greedy decoding.
    pub fn beam_config(self) -> (r: Option<BeamConfig>)
        ensures
            r == match self {
                DecodingStrategy::Greedy => None::<BeamConfig>,
                DecodingStrategy::Beam(config) => Some(config),
            },
    {
        match self {
            DecodingStrategy::Greedy => None,
            DecodingStrategy::Beam(config) => Some(config),
        }
    }
}

/// Parameters are equal field by field: whichever field differs as a number, they are
/// not. Equality does not depend on the order, and parameters that are numbers equal
/// themselves.
pub proof fn law_parameters_are_equal_field_by_field(a: BeamConfig, b: BeamConfig)
    ensures
        a.equals(b) ==> a.beam_size == b.beam_size && a.max_symbols_per_step
            == b.max_symbols_per_step,
        a.equals(b) ==> !single::greater(a.length_penalty, b.length_penalty)
            && !single::greater(b.length_penalty, a.length_penalty) && !single::is_nan(
            a.length_penalty,
        ) && !single::is_nan(b.length_penalty),
        a.equals(b) ==> !single::greater(a.patience, b.patience) && !single::greater(
            b.patience,
            a.patience,
        ) && !single::is_nan(a.patience) && !single::is_nan(b.patience),
        a.equals(b) ==> !single::greater(a.duration_reward, b.duration_reward)
            && !single::greater(b.duration_reward, a.duration_reward) && !single::is_nan(
            a.duration_reward,
        ) && !single::is_nan(b.duration_reward),
        a.equals(b) == b.equals(a),
        !single::is_nan(a.length_penalty) && !single::is_nan(a.patience) && !single::is_nan(
            a.duration_reward,
        ) ==> a.equals(a),
{
}

/// What the parameters are where none are given: five hypotheses and ten symbols to
/// a frame for every model; CTC decoding starts from no length penalty and a patience
/// of one.
pub proof fn law_default_parameters(r: BeamConfig)
    ensures
        call_ensures(BeamConfig::default_unified, (), r) || call_ensures(
            BeamConfig::default_tdt,
            (),
            r,
        ) ==> r.beam_size == 5 && r.max_symbols_per_step == 10 && r.length_penalty == 0x3c54_fdf4
            && r.patience == 0x4060_0000 && r.duration_reward == 0x3f2b_851f,
        call_ensures(BeamConfig::default_ctc, (), r) ==> r.beam_size == 5
            && r.max_symbols_per_step == 10 && r.length_penalty == 0 && r.patience == 0x3f80_0000
            && r.duration_reward == 0x3f2b_851f,
        call_ensures(BeamConfig::default, (), r) ==> r.beam_size == 5 && r.max_symbols_per_step
            == 10 && r.length_penalty == 0x3c54_fdf4 && r.patience == 0x4060_0000
            && r.duration_reward == 0x3f2b_851f,
{
}

/// Strategies are equal where both are greedy, or both are beam search with parameters
/// that are: no greedy strategy equals a beam search.
pub proof fn law_strategies_are_equal_by_their_parameters(
    a: DecodingStrategy,
    b: DecodingStrategy,
    x: BeamConfig,
    y: BeamConfig,
    same: bool,
)
    requires
        call_ensures(DecodingStrategy::eq, (&a, &b), same),
    ensures
        a == DecodingStrategy::Greedy && b == DecodingStrategy::Greedy ==> same,
        a == DecodingStrategy::Greedy && b == DecodingStrategy::Beam(y) ==> !same,
        a == DecodingStrategy::Beam(x) && b == DecodingStrategy::Greedy ==> !same,
        a == DecodingStrategy::Beam(x) && b == DecodingStrategy::Beam(y) ==> (same
            <==> x.beam_size == y.beam_size && x.max_symbols_per_step == y.max_symbols_per_step
            && single::equal(x.length_penalty, y.length_penalty) && single::equal(
            x.patience,
            y.patience,
        ) && single::equal(x.duration_reward, y.duration_reward)),
{
}

/// A strategy is beam search exactly where it has parameters, and they are its own.
pub proof fn law_beam_search_has_parameters(
    strategy: DecodingStrategy,
    config: BeamConfig,
    is_beam: bool,
    r: Option<BeamConfig>,
)
    requires
        call_ensures(DecodingStrategy::is_beam, (strategy,), is_beam),
        call_ensures(DecodingStrategy::beam_config, (strategy,), r),
    ensures
        is_beam == r.is_some(),
        strategy == DecodingStrategy::Beam(config) ==> is_beam && r == Some(config),
        strategy == DecodingStrategy::Greedy ==> !is_beam && r is None,
{
}

/// A decoder state before the first token.
pub(crate) fn initial_state() -> (r: Tensor3)
    ensures
        tensor::is_zero(r, (2, 1, 640)),
{
    assert(tensor::shape3_fits((2, 1, 640))) by {
        assert(2 * 1 * 640 == 1280) by (nonlinear_arith);
    }
    Tensor3::zeros((2, 1, 640))
}

} // verus!
