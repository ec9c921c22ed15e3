//! The TDT model: an encoder and a decoder with joint network, each behind a
//! callback, and the decoding between them.
use vstd::prelude::*;
use crate::arithmetic::Arithmetic;
use crate::decoding::tdt_agreement;
use crate::decoding::tdt_beam;
use crate::decoding::tdt_beam::{decode_tdt_beam, TdtBeamOutput, TdtContext, TdtStep};
use crate::decoding::tdt_greedy::GreedyContext;
use crate::decoding::{BeamConfig, DecodingStrategy};
use crate::error;
use crate::error::Error;
use crate::single::Bits;
use crate::single_valued;
use crate::tensor;
use crate::tensor::{Tensor2, Tensor3};
use crate::text;
use crate::text::{chars_of, test_prefix, test_suffix};
use crate::text_laws;

verus! {

/// What is known of a TDT model before it runs.
#[derive(Debug, Clone, Copy, PartialEq, Eq, Structural)]
pub struct TDTModelConfig {
    /// The number of tokens, the blank among them.
    pub vocab_size: usize,
}

impl TDTModelConfig {
    /// The configuration of a model with `vocab_size` tokens.
    pub fn new(vocab_size: usize) -> (r: Self)
        ensures
            r == (TDTModelConfig { vocab_size }),
    {
        TDTModelConfig { vocab_size }
    }
}

/// What the decoder network returns: the logits of tokens and durations in one
/// row, and the two states, each with the lengths of its axes.
#[derive(Debug)]
pub struct DecoderOutputs {
    /// Token logits, and duration logits behind them.
    pub logits: Vec<Bits>,
    /// The lengths of the axes of the first state.
    pub state_1_dims: Vec<i64>,
    /// The elements of the first state.
    pub state_1: Vec<Bits>,
    /// The lengths of the axes of the second state.
    pub state_2_dims: Vec<i64>,
    /// The elements of the second state.
    pub state_2: Vec<Bits>,
}

/// The shape that the first three axis lengths make up.
pub open spec fn shape_of(dims: Seq<i64>) -> (usize, usize, usize) {
    (dims[0] as usize, dims[1] as usize, dims[2] as usize)
}

/// The elements fill a tensor of the given axis lengths.
pub open spec fn fills(dims: Seq<i64>, data: Seq<Bits>) -> bool {
    tensor::shape3_fits(shape_of(dims)) && tensor::size3(shape_of(dims)) == data.len()
}

/// `t` is the tensor with the given axis lengths and elements.
pub open spec fn is_made_of(t: Tensor3, dims: Seq<i64>, data: Seq<Bits>) -> bool {
    tensor::tensor3_shape(t) == shape_of(dims) && tensor::tensor3_items(t) == data
}

/// `e` says that, and why, the axis lengths and the elements make up no tensor.
pub open spec fn is_extract_error(
    e: Error,
    dims: Seq<i64>,
    data: Seq<Bits>,
    name: Seq<char>,
) -> bool {
    let shape = shape_of(dims);
    tensor::is_reshape_error(
        e,
        name,
        tensor::shape_error_text(tensor::shape3_fits(shape), tensor::size3(shape), data.len()),
    )
}

/// A tensor from axis lengths and elements, as a network returns them.
pub fn extract_state(dims: &Vec<i64>, data: Vec<Bits>, name: &str) -> (r: Result<Tensor3, Error>)
    requires
        dims@.len() >= 3,
    ensures
        r is Ok <==> fills(dims@, data@),
        r matches Ok(t) ==> is_made_of(t, dims@, data@),
        r matches Err(e) ==> is_extract_error(e, dims@, data@, name@),
{
    let shape = (dims[0] as usize, dims[1] as usize, dims[2] as usize);
    Tensor3::from_vec(shape, data, name)
}

/// The place where the token logits end.
pub open spec fn token_count(logits: Seq<Bits>, vocab_size: usize) -> int {
    if logits.len() <= vocab_size {
        logits.len() as int
    } else {
        vocab_size as int
    }
}

/// The states of the outputs have three axes or more.
pub open spec fn has_states(outputs: DecoderOutputs) -> bool {
    outputs.state_1_dims@.len() >= 3 && outputs.state_2_dims@.len() >= 3
}

/// `step` is what the outputs mean for a vocabulary of `vocab_size` tokens.
pub open spec fn is_step_of(step: TdtStep, outputs: DecoderOutputs, vocab_size: usize) -> bool {
    &&& step.0@ == outputs.logits@.take(token_count(outputs.logits@, vocab_size))
    &&& step.1@ == outputs.logits@.skip(token_count(outputs.logits@, vocab_size))
    &&& is_made_of(step.2, outputs.state_1_dims@, outputs.state_1@)
    &&& is_made_of(step.3, outputs.state_2_dims@, outputs.state_2@)
}

/// `e` says which state of the outputs is not a tensor, the first where neither
/// is.
pub open spec fn is_state_error(e: Error, outputs: DecoderOutputs) -> bool {
    if !fills(outputs.state_1_dims@, outputs.state_1@) {
        is_extract_error(e, outputs.state_1_dims@, outputs.state_1@, "output_states_1"@)
    } else {
        &&& !fills(outputs.state_2_dims@, outputs.state_2@)
        &&& is_extract_error(e, outputs.state_2_dims@, outputs.state_2@, "output_states_2"@)
    }
}

/// A copy of some logits.
fn copy_logits(logits: &Vec<Bits>, from: usize, to: usize) -> (r: Vec<Bits>)
    requires
        from <= to <= logits@.len(),
    ensures
        r@ == logits@.subrange(from as int, to as int),
{
    let mut r: Vec<Bits> = Vec::new();
    let mut i: usize = from;
    while i < to
        invariant
            from <= i <= to <= logits@.len(),
            r@ == logits@.subrange(from as int, i as int),
        decreases to - i,
    {
        r.push(logits[i]);
        i = i + 1;
        assert(r@ =~= logits@.subrange(from as int, i as int));
    }
    r
}

/// Takes the outputs of the decoder network apart: token logits, duration logits
/// and the two states.
pub fn split_outputs(outputs: DecoderOutputs, vocab_size: usize) -> (r: Result<TdtStep, Error>)
    requires
        has_states(outputs),
    ensures
        r is Ok <==> fills(outputs.state_1_dims@, outputs.state_1@) && fills(
            outputs.state_2_dims@,
            outputs.state_2@,
        ),
        r matches Ok(step) ==> is_step_of(step, outputs, vocab_size),
        r matches Err(e) ==> is_state_error(e, outputs),
{
    let n: usize = outputs.logits.len();
    let split: usize = if n <= vocab_size {
        n
    } else {
        vocab_size
    };
    let token_logits = copy_logits(&outputs.logits, 0, split);
    let duration_logits = copy_logits(&outputs.logits, split, n);
    assert(token_logits@ =~= outputs.logits@.take(split as int));
    assert(duration_logits@ =~= outputs.logits@.skip(split as int));
    let state_1 = match extract_state(&outputs.state_1_dims, outputs.state_1, "output_states_1") {
        Err(e) => {
            return Err(e);
        },
        Ok(state) => state,
    };
    let state_2 = match extract_state(&outputs.state_2_dims, outputs.state_2, "output_states_2") {
        Err(e) => {
            return Err(e);
        },
        Ok(state) => state,
    };
    Ok((token_logits, duration_logits, state_1, state_2))
}

/// One step of the decoder network, taken apart.
pub fn run_decoder<J: Fn(&Tensor3, i32, &Tensor3, &Tensor3) -> Result<DecoderOutputs, Error>>(
    network: &J,
    vocab_size: usize,
    frame: &Tensor3,
    last_token: i32,
    state_1: &Tensor3,
    state_2: &Tensor3,
) -> (r: Result<TdtStep, Error>)
    requires
        call_requires(*network, (frame, last_token, state_1, state_2)),
        forall|outputs: DecoderOutputs| #[trigger]
            call_ensures(
                *network,
                (frame, last_token, state_1, state_2),
                Ok::<DecoderOutputs, Error>(outputs),
            ) ==> has_states(outputs),
    ensures
        r matches Ok(step) ==> exists|outputs: DecoderOutputs|
            {
                &&& #[trigger] call_ensures(
                    *network,
                    (frame, last_token, state_1, state_2),
                    Ok::<DecoderOutputs, Error>(outputs),
                )
                &&& is_step_of(step, outputs, vocab_size)
            },
        r matches Err(e) ==> {
            ||| call_ensures(
                *network,
                (frame, last_token, state_1, state_2),
                Err::<DecoderOutputs, Error>(e),
            )
            ||| exists|outputs: DecoderOutputs|
                {
                    &&& #[trigger] call_ensures(
                        *network,
                        (frame, last_token, state_1, state_2),
                        Ok::<DecoderOutputs, Error>(outputs),
                    )
                    &&& is_state_error(e, outputs)
                }
        },
{
    match network(frame, last_token, state_1, state_2) {
        Err(e) => Err(e),
        Ok(outputs) => split_outputs(outputs, vocab_size),
    }
}

/// What decoding gives: the token ids, the encoder frame of each, and the
/// duration of each.
pub type TokenLists = (Vec<usize>, Vec<usize>, Vec<usize>);

/// The three lists as one output.
pub open spec fn output_of(lists: TokenLists) -> TdtBeamOutput {
    TdtBeamOutput { tokens: lists.0, frame_indices: lists.1, durations: lists.2 }
}

/// The lists of an output.
fn lists_of(output: TdtBeamOutput) -> (r: TokenLists)
    ensures
        output_of(r) == output,
{
    (output.tokens, output.frame_indices, output.durations)
}

/// A TDT model: the two networks and what is known of them.
pub struct ParakeetTDTModel<E, D> {
    /// The encoder network: features of shape `(1, features, time)` and the
    /// number of time steps in; the encoder output and its length out.
    pub encoder: E,
    /// One decoder step: an encoder frame, the last token and two states in.
    pub decoder_joint: D,
    /// The configuration.
    pub config: TDTModelConfig,
}

impl<
    E: Fn(&Tensor3, i64) -> Result<(Tensor3, i64), Error>,
    D: Fn(&Tensor3, i32, &Tensor3, &Tensor3) -> Result<TdtStep, Error>,
> ParakeetTDTModel<E, D> {
    /// The blank is the last token.
    pub open spec fn blank_id(self) -> usize {
        (self.config.vocab_size - 1) as usize
    }

    /// `input` is what the encoder is handed for the features, a row for each
    /// time step: one batch, turned to rows of features.
    pub open spec fn is_encoder_input(features: Tensor2, input: Tensor3) -> bool {
        tensor::is_transposed_batch(features, input)
    }

    /// The encoder may answer with the given output and length.
    pub open spec fn encodes(
        self,
        features: Tensor2,
        encoder_out: Tensor3,
        encoder_len: i64,
    ) -> bool {
        exists|input: Tensor3|
            {
                &&& #[trigger] Self::is_encoder_input(features, input)
                &&& call_ensures(
                    self.encoder,
                    (&input, tensor::tensor2_shape(features).0 as i64),
                    Ok::<(Tensor3, i64), Error>((encoder_out, encoder_len)),
                )
            }
    }

    /// The encoder may refuse the features with the error `e`.
    pub open spec fn encoder_refuses(self, features: Tensor2, e: Error) -> bool {
        exists|input: Tensor3|
            {
                &&& #[trigger] Self::is_encoder_input(features, input)
                &&& call_ensures(
                    self.encoder,
                    (&input, tensor::tensor2_shape(features).0 as i64),
                    Err::<(Tensor3, i64), Error>(e),
                )
            }
    }

    /// Greedy search over the encoder output. It reads every frame, whatever
    /// length the encoder reports.
    pub open spec fn greedy_context(&self, encoder_out: &Tensor3) -> GreedyContext<D> {
        GreedyContext { decoder: &self.decoder_joint, encoder_out, blank_id: self.blank_id() }
    }

    /// Beam search over the frames of the encoder output that the encoder
    /// reports, the length read as an unsigned count.
    pub open spec fn beam_context<A: Arithmetic>(
        &self,
        arithmetic: &A,
        encoder_out: &Tensor3,
        encoder_len: i64,
        config: BeamConfig,
    ) -> TdtContext<A, D> {
        TdtContext {
            arithmetic,
            decoder: &self.decoder_joint,
            encoder_out,
            time_steps: tdt_beam::fewer(
                tensor::tensor3_shape(*encoder_out).2,
                encoder_len as usize,
            ),
            blank_id: self.blank_id(),
            vocab_size: self.config.vocab_size,
            config,
        }
    }

    /// The encoder takes the features.
    pub open spec fn takes(self, features: Tensor2) -> bool {
        forall|input: &Tensor3, length: i64|
            Self::is_encoder_input(features, *input) && length == tensor::tensor2_shape(features).0
                ==> #[trigger] call_requires(self.encoder, (input, length))
    }

    /// A model of the two networks.
    pub fn new(encoder: E, decoder_joint: D, config: TDTModelConfig) -> (r: Self)
        ensures
            r.encoder == encoder,
            r.decoder_joint == decoder_joint,
            r.config == config,
    {
        ParakeetTDTModel { encoder, decoder_joint, config }
    }

    /// Runs the encoder on features, a row for each time step.
    pub fn run_encoder(&self, features: &Tensor2) -> (r: Result<(Tensor3, i64), Error>)
        requires
            self.takes(*features),
        ensures
            r matches Ok(answer) ==> self.encodes(*features, answer.0, answer.1),
            r matches Err(e) ==> self.encoder_refuses(*features, e),
    {
        let (time_steps, _) = features.shape();
        let input = match features.transposed_batch("encoder input") {
            Err(e) => {
                return Err(e);
            },
            Ok(input) => input,
        };
        assert(Self::is_encoder_input(*features, input));
        assert(time_steps as i64 == time_steps) by {
            let a = tensor::axis_weight(tensor::tensor2_shape(*features).0);
            let b = tensor::axis_weight(tensor::tensor2_shape(*features).1);
            assert(a <= a * b) by (nonlinear_arith)
                requires
                    a >= 1,
                    b >= 1,
            ;
        }
        (self.encoder)(&input, time_steps as i64)
    }

    /// Greedy search over the encoder output.
    pub fn greedy_decode(&self, encoder_out: &Tensor3) -> (r: Result<TokenLists, Error>)
        requires
            self.config.vocab_size > 0,
            self.greedy_context(encoder_out).is_ready(),
        ensures
            r matches Ok(lists) ==> self.greedy_context(encoder_out).decodes(output_of(lists)),
            r matches Err(e) ==> self.greedy_context(encoder_out).may_refuse(e),
    {
        let context = GreedyContext {
            decoder: &self.decoder_joint,
            encoder_out,
            blank_id: self.config.vocab_size - 1,
        };
        match context.decode() {
            Err(e) => Err(e),
            Ok(output) => Ok(lists_of(output)),
        }
    }

    /// Beam search over the frames of the encoder output that the encoder
    /// reports.
    pub fn beam_decode<A: Arithmetic>(
        &self,
        arithmetic: &A,
        encoder_out: &Tensor3,
        encoder_len: i64,
        config: &BeamConfig,
    ) -> (r: Result<TokenLists, Error>)
        requires
            self.config.vocab_size > 0,
            self.beam_context(arithmetic, encoder_out, encoder_len, *config).is_ready(),
        ensures
            r matches Ok(lists) ==> self.beam_context(
                arithmetic,
                encoder_out,
                encoder_len,
                *config,
            ).decodes(output_of(lists)),
            r matches Err(e) ==> self.beam_context(
                arithmetic,
                encoder_out,
                encoder_len,
                *config,
            ).may_refuse(e),
    {
        let vocab_size: usize = self.config.vocab_size;
        let answer = decode_tdt_beam(
            arithmetic,
            encoder_out,
            encoder_len as usize,
            vocab_size - 1,
            vocab_size,
            config,
            &self.decoder_joint,
        );
        match answer {
            Err(e) => Err(e),
            Ok(output) => Ok(lists_of(output)),
        }
    }

    /// Greedy decoding of features can run, whatever the encoder answers.
    pub open spec fn is_ready_for_greedy(&self, features: Tensor2) -> bool {
        &&& self.config.vocab_size > 0
        &&& self.takes(features)
        &&& forall|encoder_out: Tensor3, encoder_len: i64| #[trigger]
            self.encodes(features, encoder_out, encoder_len) ==> self.greedy_context(
                &encoder_out,
            ).is_ready()
    }

    /// `out` is what greedy decoding of the features may give.
    pub open spec fn greedy_decodes(&self, features: Tensor2, out: TdtBeamOutput) -> bool {
        exists|encoder_out: Tensor3, encoder_len: i64|
            {
                &&& #[trigger] self.encodes(features, encoder_out, encoder_len)
                &&& self.greedy_context(&encoder_out).decodes(out)
            }
    }

    /// The encoder or the decoder may refuse greedy decoding with the error `e`.
    pub open spec fn greedy_refuses(&self, features: Tensor2, e: Error) -> bool {
        ||| self.encoder_refuses(features, e)
        ||| exists|encoder_out: Tensor3, encoder_len: i64|
            {
                &&& #[trigger] self.encodes(features, encoder_out, encoder_len)
                &&& self.greedy_context(&encoder_out).may_refuse(e)
            }
    }

    /// Runs the encoder and decodes greedily.
    pub fn forward(&self, features: &Tensor2) -> (r: Result<TokenLists, Error>)
        requires
            self.is_ready_for_greedy(*features),
        ensures
            r matches Ok(lists) ==> self.greedy_decodes(*features, output_of(lists)),
            r matches Err(e) ==> self.greedy_refuses(*features, e),
    {
        match self.run_encoder(features) {
            Err(e) => Err(e),
            Ok((encoder_out, encoder_len)) => {
                assert(self.encodes(*features, encoder_out, encoder_len));
                self.greedy_decode(&encoder_out)
            },
        }
    }

    /// Beam decoding of features can run, whatever the encoder answers.
    pub open spec fn is_ready_for_beam<A: Arithmetic>(
        &self,
        arithmetic: &A,
        features: Tensor2,
        config: BeamConfig,
    ) -> bool {
        &&& self.config.vocab_size > 0
        &&& self.takes(features)
        &&& forall|encoder_out: Tensor3, encoder_len: i64| #[trigger]
            self.encodes(features, encoder_out, encoder_len) ==> self.beam_context(
                arithmetic,
                &encoder_out,
                encoder_len,
                config,
            ).is_ready()
    }

    /// `out` is what beam decoding of the features may give.
    pub open spec fn beam_decodes<A: Arithmetic>(
        &self,
        arithmetic: &A,
        features: Tensor2,
        config: BeamConfig,
        out: TdtBeamOutput,
    ) -> bool {
        exists|encoder_out: Tensor3, encoder_len: i64|
            {
                &&& #[trigger] self.encodes(features, encoder_out, encoder_len)
                &&& self.beam_context(arithmetic, &encoder_out, encoder_len, config).decodes(out)
            }
    }

    /// The encoder or the decoder may refuse beam decoding with the error `e`.
    pub open spec fn beam_refuses<A: Arithmetic>(
        &self,
        arithmetic: &A,
        features: Tensor2,
        config: BeamConfig,
        e: Error,
    ) -> bool {
        ||| self.encoder_refuses(features, e)
        ||| exists|encoder_out: Tensor3, encoder_len: i64|
            {
                &&& #[trigger] self.encodes(features, encoder_out, encoder_len)
                &&& self.beam_context(arithmetic, &encoder_out, encoder_len, config).may_refuse(e)
            }
    }

    /// Runs the encoder and decodes as `decoding` says.
    pub fn forward_with_decoding<A: Arithmetic>(
        &self,
        arithmetic: &A,
        features: &Tensor2,
        decoding: DecodingStrategy,
    ) -> (r: Result<TokenLists, Error>)
        requires
            match decoding {
                DecodingStrategy::Greedy => self.is_ready_for_greedy(*features),
                DecodingStrategy::Beam(config) => self.is_ready_for_beam(
                    arithmetic,
                    *features,
                    config,
                ),
            },
        ensures
            r matches Ok(lists) ==> match decoding {
                DecodingStrategy::Greedy => self.greedy_decodes(*features, output_of(lists)),
                DecodingStrategy::Beam(config) => self.beam_decodes(
                    arithmetic,
                    *features,
                    config,
                    output_of(lists),
                ),
            },
            r matches Err(e) ==> match decoding {
                DecodingStrategy::Greedy => self.greedy_refuses(*features, e),
                DecodingStrategy::Beam(config) => self.beam_refuses(
                    arithmetic,
                    *features,
                    config,
                    e,
                ),
            },
    {
        match decoding {
            DecodingStrategy::Greedy => self.forward(features),
            DecodingStrategy::Beam(config) => match self.run_encoder(features) {
                Err(e) => Err(e),
                Ok((encoder_out, encoder_len)) => {
                    assert(self.encodes(*features, encoder_out, encoder_len));
                    self.beam_decode(arithmetic, &encoder_out, encoder_len, &config)
                },
            },
        }
    }
}

/// The three lists belong together: they have the same length, the blank is not
/// among the tokens, and no token starts on an earlier frame than one before it.
pub open spec fn lists_belong_together(lists: TokenLists, blank_id: usize) -> bool {
    &&& lists.0@.len() == lists.1@.len()
    &&& lists.0@.len() == lists.2@.len()
    &&& forall|i: int| 0 <= i < lists.0@.len() ==> #[trigger] lists.0@[i] != blank_id
    &&& forall|i: int, j: int|
        0 <= i <= j < lists.1@.len() ==> (#[trigger] lists.1@[i]) <= (#[trigger] lists.1@[j])
}

impl<
    E: Fn(&Tensor3, i64) -> Result<(Tensor3, i64), Error>,
    D: Fn(&Tensor3, i32, &Tensor3, &Tensor3) -> Result<TdtStep, Error>,
> ParakeetTDTModel<E, D> {
    /// The lists that greedy decoding gives belong together.
    pub proof fn law_greedy_lists_belong_together(&self, features: Tensor2, lists: TokenLists)
        requires
            self.greedy_decodes(features, output_of(lists)),
        ensures
            lists_belong_together(lists, self.blank_id()),
    {
        let out = output_of(lists);
        let (encoder_out, encoder_len) = choose|encoder_out: Tensor3, encoder_len: i64|
            {
                &&& #[trigger] self.encodes(features, encoder_out, encoder_len)
                &&& self.greedy_context(&encoder_out).decodes(out)
            };
        self.greedy_context(&encoder_out).law_output_is_laid_out(out);
    }

    /// The lists that beam decoding gives belong together.
    pub proof fn law_beam_lists_belong_together<A: Arithmetic>(
        &self,
        arithmetic: &A,
        features: Tensor2,
        config: BeamConfig,
        lists: TokenLists,
    )
        requires
            self.beam_decodes(arithmetic, features, config, output_of(lists)),
            forall|encoder_out: Tensor3, encoder_len: i64| #[trigger]
                self.encodes(features, encoder_out, encoder_len) ==> tensor::tensor3_shape(
                    encoder_out,
                ).2 <= isize::MAX,
        ensures
            lists_belong_together(lists, self.blank_id()),
    {
        let out = output_of(lists);
        let (encoder_out, encoder_len) = choose|encoder_out: Tensor3, encoder_len: i64|
            {
                &&& #[trigger] self.encodes(features, encoder_out, encoder_len)
                &&& self.beam_context(arithmetic, &encoder_out, encoder_len, config).decodes(out)
            };
        self.beam_context(arithmetic, &encoder_out, encoder_len, config).law_output_is_laid_out(
            out,
        );
    }
}

/// The two encoder answers agree: both refuse with the same error, or both give
/// the same length and the same output by shape and elements.
pub open spec fn encodings_agree(
    a: Result<(Tensor3, i64), Error>,
    b: Result<(Tensor3, i64), Error>,
) -> bool {
    match (a, b) {
        (Ok(x), Ok(y)) => tensor::same_tensor(x.0, y.0) && x.1 == y.1,
        (Err(e), Err(f)) => error::same_error(e, f),
        _ => false,
    }
}

/// The two results agree: both are the same error, or both list the same tokens,
/// frames and durations.
pub open spec fn results_agree(
    a: Result<TokenLists, Error>,
    b: Result<TokenLists, Error>,
) -> bool {
    match (a, b) {
        (Ok(x), Ok(y)) => x.0@ == y.0@ && x.1@ == y.1@ && x.2@ == y.2@,
        (Err(e), Err(f)) => error::same_error(e, f),
        _ => false,
    }
}

impl<
    E: Fn(&Tensor3, i64) -> Result<(Tensor3, i64), Error>,
    D: Fn(&Tensor3, i32, &Tensor3, &Tensor3) -> Result<TdtStep, Error>,
> ParakeetTDTModel<E, D> {
    /// The networks answer alike where they are handed the same numbers and
    /// tensors of the same shape and elements.
    pub open spec fn networks_agree(self) -> bool {
        &&& tdt_agreement::decoder_agrees(self.decoder_joint)
        &&& forall|
            input: &Tensor3,
            other: &Tensor3,
            length: i64,
            a: Result<(Tensor3, i64), Error>,
            b: Result<(Tensor3, i64), Error>,
        |
            tensor::same_tensor(*input, *other) && #[trigger] call_ensures(
                self.encoder,
                (input, length),
                a,
            ) && #[trigger] call_ensures(self.encoder, (other, length), b) ==> encodings_agree(
                a,
                b,
            )
    }

    /// Features have one encoding.
    pub proof fn law_one_encoding(
        self,
        features: Tensor2,
        encoder_out: Tensor3,
        encoder_len: i64,
        other_out: Tensor3,
        other_len: i64,
    )
        requires
            self.networks_agree(),
            self.encodes(features, encoder_out, encoder_len),
            self.encodes(features, other_out, other_len),
        ensures
            tensor::same_tensor(encoder_out, other_out),
            encoder_len == other_len,
    {
        let length = tensor::tensor2_shape(features).0 as i64;
        let input = choose|input: Tensor3|
            {
                &&& #[trigger] Self::is_encoder_input(features, input)
                &&& call_ensures(
                    self.encoder,
                    (&input, length),
                    Ok::<(Tensor3, i64), Error>((encoder_out, encoder_len)),
                )
            };
        let other = choose|input: Tensor3|
            {
                &&& #[trigger] Self::is_encoder_input(features, input)
                &&& call_ensures(
                    self.encoder,
                    (&input, length),
                    Ok::<(Tensor3, i64), Error>((other_out, other_len)),
                )
            };
        tensor::law_one_transposed_batch(features, input, other);
        assert(encodings_agree(
            Ok::<(Tensor3, i64), Error>((encoder_out, encoder_len)),
            Ok::<(Tensor3, i64), Error>((other_out, other_len)),
        ));
    }

    /// The encoder does not both answer and refuse.
    pub proof fn law_encoder_answers_or_refuses(
        self,
        features: Tensor2,
        encoder_out: Tensor3,
        encoder_len: i64,
        e: Error,
    )
        requires
            self.networks_agree(),
            self.encodes(features, encoder_out, encoder_len),
        ensures
            !self.encoder_refuses(features, e),
    {
        if self.encoder_refuses(features, e) {
            let length = tensor::tensor2_shape(features).0 as i64;
            let input = choose|input: Tensor3|
                {
                    &&& #[trigger] Self::is_encoder_input(features, input)
                    &&& call_ensures(
                        self.encoder,
                        (&input, length),
                        Ok::<(Tensor3, i64), Error>((encoder_out, encoder_len)),
                    )
                };
            let other = choose|input: Tensor3|
                {
                    &&& #[trigger] Self::is_encoder_input(features, input)
                    &&& call_ensures(
                        self.encoder,
                        (&input, length),
                        Err::<(Tensor3, i64), Error>(e),
                    )
                };
            tensor::law_one_transposed_batch(features, input, other);
            assert(encodings_agree(
                Ok::<(Tensor3, i64), Error>((encoder_out, encoder_len)),
                Err::<(Tensor3, i64), Error>(e),
            ));
        }
    }

    /// The encoder refuses features with one error.
    pub proof fn law_one_encoder_error(self, features: Tensor2, e: Error, f: Error)
        requires
            self.networks_agree(),
            self.encoder_refuses(features, e),
            self.encoder_refuses(features, f),
        ensures
            error::same_error(e, f),
    {
        let length = tensor::tensor2_shape(features).0 as i64;
        let input = choose|input: Tensor3|
            {
                &&& #[trigger] Self::is_encoder_input(features, input)
                &&& call_ensures(
                    self.encoder,
                    (&input, length),
                    Err::<(Tensor3, i64), Error>(e),
                )
            };
        let other = choose|input: Tensor3|
            {
                &&& #[trigger] Self::is_encoder_input(features, input)
                &&& call_ensures(
                    self.encoder,
                    (&input, length),
                    Err::<(Tensor3, i64), Error>(f),
                )
            };
        tensor::law_one_transposed_batch(features, input, other);
        assert(encodings_agree(
            Err::<(Tensor3, i64), Error>(e),
            Err::<(Tensor3, i64), Error>(f),
        ));
    }

    /// `r` is what greedy decoding of the features may come to.
    pub open spec fn greedy_comes_to(
        &self,
        features: Tensor2,
        r: Result<TokenLists, Error>,
    ) -> bool {
        match r {
            Ok(lists) => self.greedy_decodes(features, output_of(lists)),
            Err(e) => self.greedy_refuses(features, e),
        }
    }

    /// `r` is what beam decoding of the features may come to.
    pub open spec fn beam_comes_to<A: Arithmetic>(
        &self,
        arithmetic: &A,
        features: Tensor2,
        config: BeamConfig,
        r: Result<TokenLists, Error>,
    ) -> bool {
        match r {
            Ok(lists) => self.beam_decodes(arithmetic, features, config, output_of(lists)),
            Err(e) => self.beam_refuses(arithmetic, features, config, e),
        }
    }

    /// An error of the encoder is handed on as it is, by greedy and by beam
    /// decoding; nothing is decoded.
    pub proof fn law_encoder_error_is_handed_on<A: Arithmetic>(
        &self,
        arithmetic: &A,
        features: Tensor2,
        config: BeamConfig,
        e: Error,
        r: Result<TokenLists, Error>,
    )
        requires
            self.networks_agree(),
            self.encoder_refuses(features, e),
            self.greedy_comes_to(features, r) || self.beam_comes_to(
                arithmetic,
                features,
                config,
                r,
            ),
        ensures
            r is Err,
            error::same_error(e, r->Err_0),
    {
        assert forall|out: Tensor3, n: i64| !#[trigger] self.encodes(features, out, n) by {
            if self.encodes(features, out, n) {
                self.law_encoder_answers_or_refuses(features, out, n, e);
            }
        }
        if let Err(f) = r {
            self.law_one_encoder_error(features, e, f);
        }
    }

    /// Greedy decoding of features has one result: `forward`, and
    /// `forward_with_decoding` with the greedy strategy, come to the same.
    pub proof fn law_greedy_has_one_result(
        &self,
        features: Tensor2,
        r: Result<TokenLists, Error>,
        s: Result<TokenLists, Error>,
    )
        requires
            self.networks_agree(),
            self.greedy_comes_to(features, r),
            self.greedy_comes_to(features, s),
        ensures
            results_agree(r, s),
    {
        if exists|e: Error| #[trigger] self.encoder_refuses(features, e) {
            let e = choose|e: Error| #[trigger] self.encoder_refuses(features, e);
            assert forall|out: Tensor3, n: i64| !#[trigger] self.encodes(features, out, n) by {
                if self.encodes(features, out, n) {
                    self.law_encoder_answers_or_refuses(features, out, n, e);
                }
            }
            self.law_one_encoder_error(features, r->Err_0, s->Err_0);
        } else {
            let (a, n) = self.lemma_greedy_run(features, r);
            let (b, k) = self.lemma_greedy_run(features, s);
            self.law_one_encoding(features, a, n, b, k);
            let one = self.greedy_context(&a);
            let two = self.greedy_context(&b);
            match (r, s) {
                (Ok(x), Ok(y)) => {
                    one.law_one_input_has_one_result(two, output_of(x), output_of(y));
                },
                (Ok(x), Err(f)) => {
                    one.law_decoded_is_not_refused(two, output_of(x), f);
                },
                (Err(e), Ok(y)) => {
                    two.law_decoded_is_not_refused(one, output_of(y), e);
                },
                (Err(e), Err(f)) => {
                    one.law_one_input_has_one_error(two, e, f);
                },
            }
        }
    }

    proof fn lemma_greedy_run(
        &self,
        features: Tensor2,
        r: Result<TokenLists, Error>,
    ) -> (answer: (Tensor3, i64))
        requires
            self.greedy_comes_to(features, r),
            forall|e: Error| !#[trigger] self.encoder_refuses(features, e),
        ensures
            self.encodes(features, answer.0, answer.1),
            match r {
                Ok(lists) => self.greedy_context(&answer.0).decodes(output_of(lists)),
                Err(e) => self.greedy_context(&answer.0).may_refuse(e),
            },
    {
        match r {
            Ok(lists) => choose|out: Tensor3, n: i64|
                {
                    &&& #[trigger] self.encodes(features, out, n)
                    &&& self.greedy_context(&out).decodes(output_of(lists))
                },
            Err(e) => choose|out: Tensor3, n: i64|
                {
                    &&& #[trigger] self.encodes(features, out, n)
                    &&& self.greedy_context(&out).may_refuse(e)
                },
        }
    }

    /// Beam decoding of features has one result, that of a beam search over what
    /// the encoder answers: `forward_with_decoding` with a beam comes to what
    /// `beam_decode` comes to on the answer of `run_encoder`.
    pub proof fn law_beam_has_one_result<A: Arithmetic>(
        &self,
        arithmetic: &A,
        features: Tensor2,
        config: BeamConfig,
        encoder_out: Tensor3,
        encoder_len: i64,
        r: Result<TokenLists, Error>,
        s: Result<TokenLists, Error>,
    )
        requires
            self.networks_agree(),
            single_valued::is_function(arithmetic),
            self.encodes(features, encoder_out, encoder_len),
            match r {
                Ok(lists) => self.beam_context(
                    arithmetic,
                    &encoder_out,
                    encoder_len,
                    config,
                ).decodes(output_of(lists)),
                Err(e) => self.beam_context(
                    arithmetic,
                    &encoder_out,
                    encoder_len,
                    config,
                ).may_refuse(e),
            },
            self.beam_comes_to(arithmetic, features, config, s),
        ensures
            results_agree(r, s),
    {
        assert forall|e: Error| !#[trigger] self.encoder_refuses(features, e) by {
            self.law_encoder_answers_or_refuses(features, encoder_out, encoder_len, e);
        }
        let one = self.beam_context(arithmetic, &encoder_out, encoder_len, config);
        let (b, k) = match s {
            Ok(lists) => choose|out: Tensor3, n: i64|
                {
                    &&& #[trigger] self.encodes(features, out, n)
                    &&& self.beam_context(arithmetic, &out, n, config).decodes(output_of(lists))
                },
            Err(e) => choose|out: Tensor3, n: i64|
                {
                    &&& #[trigger] self.encodes(features, out, n)
                    &&& self.beam_context(arithmetic, &out, n, config).may_refuse(e)
                },
        };
        self.law_one_encoding(features, encoder_out, encoder_len, b, k);
        let two = self.beam_context(arithmetic, &b, k, config);
        match (r, s) {
            (Ok(x), Ok(y)) => {
                one.law_one_input_has_one_result(two, output_of(x), output_of(y));
            },
            (Ok(x), Err(f)) => {
                one.law_decoded_is_not_refused(two, output_of(x), f);
            },
            (Err(e), Ok(y)) => {
                two.law_decoded_is_not_refused(one, output_of(y), e);
            },
            (Err(e), Err(f)) => {
                one.law_one_input_has_one_error(two, e, f);
            },
        }
    }
}

/// The outputs of the decoder network are taken apart without loss: the token logits
/// come first, as many as there are tokens where there are that many, and the
/// duration logits are all that is behind them. Each state has the axis lengths and
/// the elements it came with.
pub proof fn law_outputs_are_taken_apart_without_loss(
    step: TdtStep,
    outputs: DecoderOutputs,
    vocab_size: usize,
)
    requires
        is_step_of(step, outputs, vocab_size),
        has_states(outputs),
    ensures
        step.0@ + step.1@ == outputs.logits@,
        outputs.logits@.len() >= vocab_size ==> step.0@.len() == vocab_size,
        outputs.logits@.len() < vocab_size ==> step.1@.len() == 0,
        tensor::tensor3_items(step.2) == outputs.state_1@,
        tensor::tensor3_items(step.3) == outputs.state_2@,
        tensor::tensor3_shape(step.2).0 == outputs.state_1_dims@[0] as usize,
        tensor::tensor3_shape(step.2).1 == outputs.state_1_dims@[1] as usize,
        tensor::tensor3_shape(step.2).2 == outputs.state_1_dims@[2] as usize,
        tensor::tensor3_shape(step.3).0 == outputs.state_2_dims@[0] as usize,
        tensor::tensor3_shape(step.3).1 == outputs.state_2_dims@[1] as usize,
        tensor::tensor3_shape(step.3).2 == outputs.state_2_dims@[2] as usize,
{
    let n = token_count(outputs.logits@, vocab_size);
    assert(outputs.logits@.take(n) + outputs.logits@.skip(n) =~= outputs.logits@);
}

impl<
    E: Fn(&Tensor3, i64) -> Result<(Tensor3, i64), Error>,
    D: Fn(&Tensor3, i32, &Tensor3, &Tensor3) -> Result<TdtStep, Error>,
> ParakeetTDTModel<E, D> {
    /// Both searches ask the decoder of the model, count the last token as the blank
    /// and read the encoder output they are given. Greedy search reads all its
    /// frames, and beam search no more of them than the encoder reports.
    pub proof fn law_searches_are_those_of_the_model<A: Arithmetic>(
        &self,
        arithmetic: &A,
        encoder_out: &Tensor3,
        encoder_len: i64,
        config: BeamConfig,
    )
        requires
            self.config.vocab_size > 0,
        ensures
            self.greedy_context(encoder_out).blank_id + 1 == self.config.vocab_size,
            *self.greedy_context(encoder_out).decoder == self.decoder_joint,
            *self.greedy_context(encoder_out).encoder_out == *encoder_out,
            self.greedy_context(encoder_out).time_steps() == tensor::tensor3_shape(
                *encoder_out,
            ).2,
            self.beam_context(arithmetic, encoder_out, encoder_len, config).blank_id + 1
                == self.config.vocab_size,
            self.beam_context(arithmetic, encoder_out, encoder_len, config).vocab_size
                == self.config.vocab_size,
            self.beam_context(arithmetic, encoder_out, encoder_len, config).config == config,
            *self.beam_context(arithmetic, encoder_out, encoder_len, config).decoder
                == self.decoder_joint,
            *self.beam_context(arithmetic, encoder_out, encoder_len, config).encoder_out
                == *encoder_out,
            *self.beam_context(arithmetic, encoder_out, encoder_len, config).arithmetic
                == *arithmetic,
            0 <= encoder_len <= tensor::tensor3_shape(*encoder_out).2 ==> self.beam_context(
                arithmetic,
                encoder_out,
                encoder_len,
                config,
            ).time_steps == encoder_len as usize,
            self.beam_context(arithmetic, encoder_out, encoder_len, config).time_steps
                <= tensor::tensor3_shape(*encoder_out).2,
            (encoder_len as usize) > tensor::tensor3_shape(*encoder_out).2 ==> self.beam_context(
                arithmetic,
                encoder_out,
                encoder_len,
                config,
            ).time_steps == tensor::tensor3_shape(*encoder_out).2,
    {
    }

    /// The encoder is handed the features turned to rows of features, with the number
    /// of time steps: its place `(0, j, i)` holds feature `j` of time step `i`.
    pub proof fn law_encoder_is_handed_the_features(
        self,
        features: Tensor2,
        input: Tensor3,
        i: int,
        j: int,
    )
        requires
            Self::is_encoder_input(features, input),
            0 <= i < tensor::tensor2_shape(features).0,
            0 <= j < tensor::tensor2_shape(features).1,
        ensures
            tensor::tensor3_shape(input).0 == 1,
            tensor::tensor3_shape(input).1 == tensor::tensor2_shape(features).1,
            tensor::tensor3_shape(input).2 == tensor::tensor2_shape(features).0,
            tensor::tensor3_items(input)[j * tensor::tensor2_shape(features).0 + i]
                == tensor::row_items(features, i)[j],
    {
        tensor::law_transposing_turns_rows_to_columns(features, input, i, j);
        assert(0 * tensor::tensor3_shape(input).1 == 0) by (nonlinear_arith);
    }
}

/// Any text between `encoder` and `.onnx` makes a name that looks like an encoder, and
/// a name that does begins and ends so.
pub proof fn law_encoders_are_named_by_their_ends(middle: Seq<char>, name: Seq<char>)
    ensures
        looks_like_encoder("encoder"@ + middle + ".onnx"@),
        looks_like_encoder(name) ==> {
            &&& name.len() >= "encoder"@.len()
            &&& name.len() >= ".onnx"@.len()
            &&& name == "encoder"@ + name.skip("encoder"@.len() as int)
            &&& name == name.take(name.len() - ".onnx"@.len()) + ".onnx"@
        },
{
    let whole = "encoder"@ + middle + ".onnx"@;
    assert(whole =~= "encoder"@ + (middle + ".onnx"@));
    text_laws::law_beginnings_and_endings("encoder"@, middle + ".onnx"@, name);
    text_laws::law_beginnings_and_endings(".onnx"@, "encoder"@ + middle, name);
}

/// The file that is loaded: a candidate that is present with none before it present.
/// Where no candidate is present it is the first listed file that looks like an
/// encoder, and where there is none either, nothing is loaded.
pub proof fn law_the_first_file_found_is_loaded(
    dir: &str,
    present: &Vec<bool>,
    listing: &Vec<String>,
    r: Result<String, Error>,
    i: int,
)
    requires
        present@.len() == encoder_names().len(),
        call_ensures(find_encoder, (dir, present, listing), r),
    ensures
        0 <= i < present@.len() && present@[i] && (forall|j: int|
            0 <= j < i ==> !#[trigger] present@[j]) ==> r is Ok && r->Ok_0@ == encoder_names()[i],
        (forall|j: int| 0 <= j < present@.len() ==> !#[trigger] present@[j]) && 0 <= i
            < listing@.len() && looks_like_encoder(listing@[i]@) && (forall|j: int|
            0 <= j < i ==> !looks_like_encoder((#[trigger] listing@[j])@)) ==> r is Ok
            && r->Ok_0@ == listing@[i]@,
        (forall|j: int| 0 <= j < present@.len() ==> !#[trigger] present@[j]) && (forall|j: int|
            0 <= j < listing@.len() ==> !looks_like_encoder((#[trigger] listing@[j])@))
            ==> r is Err,
{
    let (a, b) = choose|a: int, b: int|
        {
            &&& #[trigger] is_first_true(present@, a)
            &&& #[trigger] is_first_encoder(listing@, b)
            &&& if a < present@.len() {
                r is Ok && r->Ok_0@ == encoder_names()[a]
            } else if b < listing@.len() {
                r is Ok && r->Ok_0@ == listing@[b]@
            } else {
                r is Err && r->Err_0 is Config && r->Err_0->Config_0@
                    == "No encoder model found in "@ + dir@
            }
        };
    if 0 <= i < present@.len() && present@[i] && (forall|j: int|
        0 <= j < i ==> !#[trigger] present@[j]) {
        assert(a == i) by {
            if a < i {
                assert(!present@[a]);
            } else if i < a {
                assert(!present@[i]);
            }
        }
    }
    if (forall|j: int| 0 <= j < present@.len() ==> !#[trigger] present@[j]) {
        assert(a == present@.len()) by {
            if a < present@.len() {
                assert(!present@[a]);
            }
        }
        if 0 <= i < listing@.len() && looks_like_encoder(listing@[i]@) && (forall|j: int|
            0 <= j < i ==> !looks_like_encoder((#[trigger] listing@[j])@)) {
            assert(b == i) by {
                if b < i {
                    assert(!looks_like_encoder(listing@[b]@));
                } else if i < b {
                    assert(!looks_like_encoder(listing@[i]@));
                }
            }
        }
    }
}

/// The names that an encoder file may have, the preferred one first.
pub open spec fn encoder_names() -> Seq<Seq<char>> {
    seq!["encoder-model.onnx"@, "encoder.onnx"@, "encoder-model.int8.onnx"@]
}

/// The names that a file with decoder and joint network may have, the preferred
/// one first.
pub open spec fn decoder_joint_names() -> Seq<Seq<char>> {
    seq![
        "decoder_joint-model.onnx"@,
        "decoder_joint-model.int8.onnx"@,
        "decoder_joint.onnx"@,
        "decoder-model.onnx"@,
    ]
}

/// The texts of a row of string slices.
pub open spec fn texts_of(names: Seq<&str>) -> Seq<Seq<char>> {
    Seq::new(names.len(), |i: int| names[i]@)
}

/// The names that an encoder file may have, the preferred one first.
pub fn encoder_candidates() -> (r: Vec<&'static str>)
    ensures
        texts_of(r@) == encoder_names(),
{
    let r = vec!["encoder-model.onnx", "encoder.onnx", "encoder-model.int8.onnx"];
    assert(texts_of(r@) =~= encoder_names());
    r
}

/// The names that a file with decoder and joint network may have, the preferred
/// one first.
pub fn decoder_joint_candidates() -> (r: Vec<&'static str>)
    ensures
        texts_of(r@) == decoder_joint_names(),
{
    let r = vec![
        "decoder_joint-model.onnx",
        "decoder_joint-model.int8.onnx",
        "decoder_joint.onnx",
        "decoder-model.onnx",
    ];
    assert(texts_of(r@) =~= decoder_joint_names());
    r
}

/// `i` is the first place that holds `true`, or the length where none does.
pub open spec fn is_first_true(flags: Seq<bool>, i: int) -> bool {
    &&& 0 <= i <= flags.len()
    &&& forall|j: int| 0 <= j < i ==> !#[trigger] flags[j]
    &&& i < flags.len() ==> flags[i]
}

/// A file name that looks like an encoder: it begins with `encoder` and ends with
/// `.onnx`.
pub open spec fn looks_like_encoder(name: Seq<char>) -> bool {
    text::begins_with(name, "encoder"@) && text::ends_with(name, ".onnx"@)
}

/// `i` is the first name that looks like an encoder, or the length where none
/// does.
pub open spec fn is_first_encoder(names: Seq<String>, i: int) -> bool {
    &&& 0 <= i <= names.len()
    &&& forall|j: int| 0 <= j < i ==> !looks_like_encoder((#[trigger] names[j])@)
    &&& i < names.len() ==> looks_like_encoder(names[i]@)
}

/// The first place that holds `true`.
fn first_true(flags: &Vec<bool>) -> (r: usize)
    ensures
        is_first_true(flags@, r as int),
{
    let mut i: usize = 0;
    while i < flags.len() && !flags[i]
        invariant
            i <= flags@.len(),
            forall|j: int| 0 <= j < i ==> !#[trigger] flags@[j],
        decreases flags@.len() - i,
    {
        i = i + 1;
    }
    i
}

/// The text of a configuration error on a missing file.
fn missing_file(what: &str, dir: &str) -> (r: Error)
    ensures
        r matches Error::Config(text) && text@ == what@ + dir@,
{
    let mut text = String::from_str(what);
    text.append(dir);
    Error::Config(text)
}

/// Whether a file name looks like an encoder.
fn is_encoder_name(name: &String) -> (r: bool)
    ensures
        r == looks_like_encoder(name@),
{
    let chars = chars_of(name.as_str());
    test_prefix(&chars, "encoder") && test_suffix(&chars, ".onnx")
}

/// The encoder file to load from the directory `dir`: the first candidate that
/// is present, and without one the first listed file that looks like an encoder.
///
/// `present` says of each of [`encoder_candidates`] whether it is in the
/// directory; `listing` names the files of the directory.
pub fn find_encoder(dir: &str, present: &Vec<bool>, listing: &Vec<String>) -> (r: Result<
    String,
    Error,
>)
    requires
        present@.len() == encoder_names().len(),
    ensures
        exists|i: int, j: int|
            {
                &&& #[trigger] is_first_true(present@, i)
                &&& #[trigger] is_first_encoder(listing@, j)
                &&& if i < present@.len() {
                    r is Ok && r->Ok_0@ == encoder_names()[i]
                } else if j < listing@.len() {
                    r is Ok && r->Ok_0@ == listing@[j]@
                } else {
                    r is Err && r->Err_0 is Config && r->Err_0->Config_0@
                        == "No encoder model found in "@ + dir@
                }
            },
{
    let candidates = encoder_candidates();
    let i: usize = first_true(present);
    let mut j: usize = 0;
    while j < listing.len() && !is_encoder_name(&listing[j])
        invariant
            j <= listing@.len(),
            forall|k: int| 0 <= k < j ==> !looks_like_encoder((#[trigger] listing@[k])@),
        decreases listing@.len() - j,
    {
        j = j + 1;
    }
    assert(is_first_encoder(listing@, j as int));
    if i < present.len() {
        assert(texts_of(candidates@)[i as int] == encoder_names()[i as int]);
        Ok(candidates[i].to_string())
    } else if j < listing.len() {
        Ok(listing[j].clone())
    } else {
        Err(missing_file("No encoder model found in ", dir))
    }
}

/// The file with decoder and joint network to load from the directory `dir`: the
/// first candidate that is present.
///
/// `present` says of each of [`decoder_joint_candidates`] whether it is in the
/// directory.
pub fn find_decoder_joint(dir: &str, present: &Vec<bool>) -> (r: Result<String, Error>)
    requires
        present@.len() == decoder_joint_names().len(),
    ensures
        exists|i: int|
            {
                &&& #[trigger] is_first_true(present@, i)
                &&& if i < present@.len() {
                    r is Ok && r->Ok_0@ == decoder_joint_names()[i]
                } else {
                    r is Err && r->Err_0 is Config && r->Err_0->Config_0@
                        == "No decoder_joint model found in "@ + dir@
                }
            },
{
    let candidates = decoder_joint_candidates();
    let i: usize = first_true(present);
    if i < present.len() {
        assert(texts_of(candidates@)[i as int] == decoder_joint_names()[i as int]);
        Ok(candidates[i].to_string())
    } else {
        Err(missing_file("No decoder_joint model found in ", dir))
    }
}

} // verus!
