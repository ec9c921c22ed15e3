//! What every call on a TDT model comes to: what the encoder is handed, what is listed
//! of the search, what the errors say, and which files are found.

use vstd::prelude::*;

use crate::arithmetic::Arithmetic;
use crate::decoding::tdt_beam::{TdtBeamOutput, TdtStep};
use crate::decoding::tdt_greedy;
use crate::decoding::tdt_greedy::GreedyPath;
use crate::decoding::{BeamConfig, DecodingStrategy};
use crate::error::Error;
use crate::model_tdt;
use crate::model_tdt::{DecoderOutputs, ParakeetTDTModel, TDTModelConfig, TokenLists};
use crate::single::Bits;
use crate::tensor;
use crate::tensor::{Tensor2, Tensor3};

verus! {

/// The encoder was handed the features, turned to rows of features, and the number of
/// their time steps, and may have answered `answer`.
pub open spec fn is_handed_features<E: Fn(&Tensor3, i64) -> Result<(Tensor3, i64), Error>>(
    encoder: E,
    features: Tensor2,
    answer: Result<(Tensor3, i64), Error>,
) -> bool {
    exists|input: Tensor3, length: i64|
        {
            &&& #[trigger] call_ensures(encoder, (&input, length), answer)
            &&& length == tensor::tensor2_shape(features).0 as i64
            &&& tensor::tensor3_shape(input).0 == 1
            &&& tensor::tensor3_shape(input).1 == tensor::tensor2_shape(features).1
            &&& tensor::tensor3_shape(input).2 == tensor::tensor2_shape(features).0
            &&& forall|i: int, j: int|
                0 <= i < tensor::tensor2_shape(features).0 && 0 <= j < tensor::tensor2_shape(
                    features,
                ).1 ==> tensor::tensor3_items(input)[j * tensor::tensor2_shape(features).0 + i]
                    == #[trigger] tensor::row_items(features, i)[j]
        }
}

impl<
    E: Fn(&Tensor3, i64) -> Result<(Tensor3, i64), Error>,
    D: Fn(&Tensor3, i32, &Tensor3, &Tensor3) -> Result<TdtStep, Error>,
> ParakeetTDTModel<E, D> {
    proof fn lemma_input_holds_the_features(
        self,
        features: Tensor2,
        input: Tensor3,
        answer: Result<(Tensor3, i64), Error>,
    )
        requires
            Self::is_encoder_input(features, input),
            call_ensures(
                self.encoder,
                (&input, tensor::tensor2_shape(features).0 as i64),
                answer,
            ),
        ensures
            is_handed_features(self.encoder, features, answer),
    {
        let rows = tensor::tensor2_shape(features).0;
        assert forall|i: int, j: int|
            0 <= i < rows && 0 <= j < tensor::tensor2_shape(
                features,
            ).1 implies tensor::tensor3_items(input)[j * rows + i]
            == #[trigger] tensor::row_items(features, i)[j] by {
            self.law_encoder_is_handed_the_features(features, input, i, j);
        }
        let length = rows as i64;
        assert(call_ensures(self.encoder, (&input, length), answer));
    }

    proof fn lemma_encoding_is_of_the_features(
        self,
        features: Tensor2,
        encoder_out: Tensor3,
        encoder_len: i64,
    )
        requires
            self.encodes(features, encoder_out, encoder_len),
        ensures
            is_handed_features(
                self.encoder,
                features,
                Ok::<(Tensor3, i64), Error>((encoder_out, encoder_len)),
            ),
    {
        let input = choose|input: Tensor3|
            {
                &&& #[trigger] Self::is_encoder_input(features, input)
                &&& call_ensures(
                    self.encoder,
                    (&input, tensor::tensor2_shape(features).0 as i64),
                    Ok::<(Tensor3, i64), Error>((encoder_out, encoder_len)),
                )
            };
        self.lemma_input_holds_the_features(
            features,
            input,
            Ok::<(Tensor3, i64), Error>((encoder_out, encoder_len)),
        );
    }

    proof fn lemma_refusal_is_of_the_features(self, features: Tensor2, e: Error)
        requires
            self.encoder_refuses(features, e),
        ensures
            is_handed_features(self.encoder, features, Err::<(Tensor3, i64), Error>(e)),
    {
        let input = choose|input: Tensor3|
            {
                &&& #[trigger] Self::is_encoder_input(features, input)
                &&& call_ensures(
                    self.encoder,
                    (&input, tensor::tensor2_shape(features).0 as i64),
                    Err::<(Tensor3, i64), Error>(e),
                )
            };
        self.lemma_input_holds_the_features(
            features,
            input,
            Err::<(Tensor3, i64), Error>(e),
        );
    }

    /// What a call of the encoder comes to is what the network answered for the
    /// features and the number of their time steps, be it an error or not.
    pub proof fn law_encoder_answers_are_handed_on(
        &self,
        features: &Tensor2,
        r: Result<(Tensor3, i64), Error>,
    )
        requires
            call_ensures(ParakeetTDTModel::<E, D>::run_encoder, (self, features), r),
        ensures
            is_handed_features(self.encoder, *features, r),
    {
        match r {
            Ok(answer) => {
                self.lemma_encoding_is_of_the_features(*features, answer.0, answer.1);
                assert(answer == (answer.0, answer.1));
            },
            Err(e) => {
                self.lemma_refusal_is_of_the_features(*features, e);
            },
        }
    }

    /// The lists are what a whole greedy run over the encoder output has emitted: the
    /// tokens first, their frames second and their durations third.
    pub open spec fn lists_a_greedy_run(&self, encoder_out: Tensor3, lists: TokenLists) -> bool {
        exists|n: nat, start: GreedyPath, end: GreedyPath|
            {
                &&& #[trigger] self.greedy_context(&encoder_out).runs_to(n, start, end)
                &&& start.t == 0
                &&& start.tokens.len() == 0
                &&& end.t == tensor::tensor3_shape(encoder_out).2
                &&& lists.0@ == end.tokens
                &&& lists.1@ == end.frame_indices
                &&& lists.2@ == end.durations
            }
    }

    /// What a call of `forward` lists is what a greedy run emits over all frames that
    /// the encoder answers with for the features.
    pub proof fn law_forward_lists_a_greedy_run(&self, features: &Tensor2, lists: TokenLists)
        requires
            call_ensures(
                ParakeetTDTModel::<E, D>::forward,
                (self, features),
                Ok::<TokenLists, Error>(lists),
            ),
        ensures
            exists|encoder_out: Tensor3, encoder_len: i64|
                {
                    &&& #[trigger] is_handed_features(
                        self.encoder,
                        *features,
                        Ok::<(Tensor3, i64), Error>((encoder_out, encoder_len)),
                    )
                    &&& self.lists_a_greedy_run(encoder_out, lists)
                },
    {
        self.lemma_greedy_lists_a_run(*features, lists);
    }

    proof fn lemma_greedy_lists_a_run(&self, features: Tensor2, lists: TokenLists)
        requires
            self.greedy_decodes(features, model_tdt::output_of(lists)),
        ensures
            exists|encoder_out: Tensor3, encoder_len: i64|
                {
                    &&& #[trigger] is_handed_features(
                        self.encoder,
                        features,
                        Ok::<(Tensor3, i64), Error>((encoder_out, encoder_len)),
                    )
                    &&& self.lists_a_greedy_run(encoder_out, lists)
                },
    {
        let out = model_tdt::output_of(lists);
        let (encoder_out, encoder_len) = choose|encoder_out: Tensor3, encoder_len: i64|
            {
                &&& #[trigger] self.encodes(features, encoder_out, encoder_len)
                &&& self.greedy_context(&encoder_out).decodes(out)
            };
        self.lemma_encoding_is_of_the_features(features, encoder_out, encoder_len);
        let c = self.greedy_context(&encoder_out);
        let (n, start, end) = choose|n: nat, start: GreedyPath, end: GreedyPath|
            {
                &&& #[trigger] tdt_greedy::is_start(start, c.blank_id)
                &&& #[trigger] c.runs_to(n, start, end)
                &&& end.t >= c.time_steps()
                &&& tdt_greedy::gives(end, out)
            };
        c.law_search_is_laid_out(n, start, end);
        assert(self.lists_a_greedy_run(encoder_out, lists));
    }

    /// What a call with a decoding strategy lists: with the greedy one what a greedy
    /// run emits over all frames of the encoder output, with a beam what a beam search
    /// with its parameters gives over as many frames as the encoder reports.
    pub proof fn law_strategies_are_followed<A: Arithmetic>(
        &self,
        arithmetic: &A,
        features: &Tensor2,
        decoding: DecodingStrategy,
        config: BeamConfig,
        lists: TokenLists,
    )
        requires
            call_ensures(
                ParakeetTDTModel::<E, D>::forward_with_decoding::<A>,
                (self, arithmetic, features, decoding),
                Ok::<TokenLists, Error>(lists),
            ),
        ensures
            decoding == DecodingStrategy::Greedy ==> exists|
                encoder_out: Tensor3,
                encoder_len: i64,
            |
                {
                    &&& #[trigger] is_handed_features(
                        self.encoder,
                        *features,
                        Ok::<(Tensor3, i64), Error>((encoder_out, encoder_len)),
                    )
                    &&& self.lists_a_greedy_run(encoder_out, lists)
                },
            decoding == DecodingStrategy::Beam(config) ==> exists|
                encoder_out: Tensor3,
                encoder_len: i64,
                out: TdtBeamOutput,
            |
                {
                    &&& #[trigger] is_handed_features(
                        self.encoder,
                        *features,
                        Ok::<(Tensor3, i64), Error>((encoder_out, encoder_len)),
                    )
                    &&& #[trigger] self.beam_context(
                        arithmetic,
                        &encoder_out,
                        encoder_len,
                        config,
                    ).decodes(out)
                    &&& lists.0@ == out.tokens@
                    &&& lists.1@ == out.frame_indices@
                    &&& lists.2@ == out.durations@
                },
    {
        if decoding == DecodingStrategy::Greedy {
            self.lemma_greedy_lists_a_run(*features, lists);
        }
        if decoding == DecodingStrategy::Beam(config) {
            let out = model_tdt::output_of(lists);
            let (encoder_out, encoder_len) = choose|encoder_out: Tensor3, encoder_len: i64|
                {
                    &&& #[trigger] self.encodes(*features, encoder_out, encoder_len)
                    &&& self.beam_context(arithmetic, &encoder_out, encoder_len, config).decodes(
                        out,
                    )
                };
            self.lemma_encoding_is_of_the_features(*features, encoder_out, encoder_len);
        }
    }

    /// A call of `forward` fails with an error that a network answered with: the
    /// encoder for the features, or the decoder on a frame of the encoder output.
    pub proof fn law_forward_fails_with_a_network(&self, features: &Tensor2, e: Error)
        requires
            call_ensures(
                ParakeetTDTModel::<E, D>::forward,
                (self, features),
                Err::<TokenLists, Error>(e),
            ),
        ensures
            is_handed_features(self.encoder, *features, Err::<(Tensor3, i64), Error>(e)) || exists|
                frame: Tensor3,
                token: i32,
                state_1: Tensor3,
                state_2: Tensor3,
            | #[trigger]
                call_ensures(
                    self.decoder_joint,
                    (&frame, token, &state_1, &state_2),
                    Err::<TdtStep, Error>(e),
                ),
    {
        if self.encoder_refuses(*features, e) {
            self.lemma_refusal_is_of_the_features(*features, e);
        } else {
            let (encoder_out, encoder_len) = choose|encoder_out: Tensor3, encoder_len: i64|
                {
                    &&& #[trigger] self.encodes(*features, encoder_out, encoder_len)
                    &&& self.greedy_context(&encoder_out).may_refuse(e)
                };
            let c = self.greedy_context(&encoder_out);
            let (n, start, p, frame) = choose|
                n: nat,
                start: GreedyPath,
                p: GreedyPath,
                frame: Tensor3,
            | #[trigger]
                c.call_refuses(n, start, p, frame, e);
            assert(call_ensures(
                self.decoder_joint,
                (&frame, p.last_token, &p.state_1, &p.state_2),
                Err::<TdtStep, Error>(e),
            ));
        }
    }

    /// The lists of a call of greedy decoding are what a run over all frames of the
    /// given encoder output has emitted.
    pub proof fn law_greedy_calls_list_a_run(&self, encoder_out: &Tensor3, lists: TokenLists)
        requires
            call_ensures(
                ParakeetTDTModel::<E, D>::greedy_decode,
                (self, encoder_out),
                Ok::<TokenLists, Error>(lists),
            ),
        ensures
            self.lists_a_greedy_run(*encoder_out, lists),
    {
        let c = self.greedy_context(encoder_out);
        let out = model_tdt::output_of(lists);
        let (n, start, end) = choose|n: nat, start: GreedyPath, end: GreedyPath|
            {
                &&& #[trigger] tdt_greedy::is_start(start, c.blank_id)
                &&& #[trigger] c.runs_to(n, start, end)
                &&& end.t >= c.time_steps()
                &&& tdt_greedy::gives(end, out)
            };
        c.law_search_is_laid_out(n, start, end);
        assert(self.greedy_context(encoder_out).runs_to(n, start, end));
    }

    /// The lists of a call of beam decoding hold no blank and no token behind the
    /// reported length, and no token starts before the one before it has lasted.
    pub proof fn law_beam_calls_lay_their_tokens_out<A: Arithmetic>(
        &self,
        arithmetic: &A,
        encoder_out: &Tensor3,
        encoder_len: i64,
        config: &BeamConfig,
        lists: TokenLists,
    )
        requires
            self.config.vocab_size > 0,
            encoder_len >= 0,
            encoder_len as int <= usize::MAX,
            tensor::tensor3_shape(*encoder_out).2 + 4 <= usize::MAX,
            call_ensures(
                ParakeetTDTModel::<E, D>::beam_decode::<A>,
                (self, arithmetic, encoder_out, encoder_len, config),
                Ok::<TokenLists, Error>(lists),
            ),
        ensures
            lists.0@.len() == lists.1@.len() == lists.2@.len(),
            forall|i: int|
                0 <= i < lists.0@.len() ==> (#[trigger] lists.0@[i]) + 1 != self.config.vocab_size,
            forall|i: int|
                0 <= i < lists.1@.len() ==> (#[trigger] lists.1@[i]) < encoder_len,
            forall|i: int|
                0 <= i < lists.1@.len() ==> (#[trigger] lists.1@[i]) < tensor::tensor3_shape(
                    *encoder_out,
                ).2,
            forall|i: int| 0 <= i < lists.2@.len() ==> (#[trigger] lists.2@[i]) <= 4,
            config.max_symbols_per_step > 0 ==> forall|i: int, j: int|
                0 <= i < j < lists.0@.len() ==> (#[trigger] lists.1@[i]) + lists.2@[i] <= (
                #[trigger] lists.1@[j]),
    {
        let out = model_tdt::output_of(lists);
        self.beam_context(arithmetic, encoder_out, encoder_len, *config).law_output_is_laid_out(
            out,
        );
        assert forall|i: int| 0 <= i < lists.0@.len() implies (#[trigger] lists.0@[i]) + 1
            != self.config.vocab_size by {
            assert(out.tokens@[i] != self.blank_id());
        }
        assert forall|i: int| 0 <= i < lists.1@.len() implies (#[trigger] lists.1@[i])
            < encoder_len && lists.1@[i] < tensor::tensor3_shape(*encoder_out).2 by {
            assert(out.tokens@[i] != self.blank_id());
        }
        assert forall|i: int| 0 <= i < lists.2@.len() implies (#[trigger] lists.2@[i]) <= 4 by {
            assert(out.tokens@[i] != self.blank_id());
        }
    }
}

/// Elements that do not fill their axis lengths are a model error that names what was
/// read. Elements that do are kept in order.
pub proof fn law_states_are_filled_or_named(
    dims: &Vec<i64>,
    data: Vec<Bits>,
    name: &str,
    r: Result<Tensor3, Error>,
    size: int,
)
    requires
        dims@.len() >= 3,
        forall|i: int| 0 <= i < 3 ==> 0 <= #[trigger] dims@[i] <= 0x7fff,
        size == dims@[0] * dims@[1] * dims@[2],
        0 < size <= 0x3fff_ffff,
        call_ensures(model_tdt::extract_state, (dims, data, name), r),
    ensures
        r is Ok <==> data@.len() == size,
        r matches Ok(t) ==> {
            &&& tensor::tensor3_items(t) == data@
            &&& tensor::tensor3_shape(t).0 == dims@[0]
            &&& tensor::tensor3_shape(t).1 == dims@[1]
            &&& tensor::tensor3_shape(t).2 == dims@[2]
        },
        r matches Err(e) ==> e is Model,
        r matches Err(e) ==> e->Model_0@.len() >= "Failed to reshape "@.len() + name@.len(),
        r matches Err(e) ==> e->Model_0@.take(("Failed to reshape "@.len() + name@.len()) as int)
            == "Failed to reshape "@ + name@,
{
    let shape = model_tdt::shape_of(dims@);
    assert(0 <= dims@[0] <= 0x7fff && 0 <= dims@[1] <= 0x7fff && 0 <= dims@[2] <= 0x7fff);
    let (a, b, c) = (dims@[0] as int, dims@[1] as int, dims@[2] as int);
    assert(a > 0 && b > 0 && c > 0) by (nonlinear_arith)
        requires
            a >= 0,
            b >= 0,
            c >= 0,
            a * b * c > 0,
    ;
    assert(tensor::size3(shape) == size);
    assert(tensor::shape3_fits(shape));
    if let Err(e) = r {
        let reason = tensor::shape_error_text(
            tensor::shape3_fits(shape),
            tensor::size3(shape),
            data@.len(),
        );
        let front = "Failed to reshape "@ + name@;
        assert(e->Model_0@ == front + ": "@ + reason);
        assert(e->Model_0@.take(front.len() as int) =~= front);
    }
}

/// The error of outputs whose states are no tensors names the first such state.
pub proof fn law_first_bad_state_is_named(
    outputs: DecoderOutputs,
    vocab_size: usize,
    r: Result<TdtStep, Error>,
)
    requires
        model_tdt::has_states(outputs),
        call_ensures(model_tdt::split_outputs, (outputs, vocab_size), r),
    ensures
        r matches Err(e) ==> e is Model,
        r matches Err(e) ==> {
            let front = "Failed to reshape "@ + if model_tdt::fills(
                outputs.state_1_dims@,
                outputs.state_1@,
            ) {
                "output_states_2"@
            } else {
                "output_states_1"@
            };
            e->Model_0@.len() >= front.len() && e->Model_0@.take(front.len() as int) == front
        },
        r is Ok ==> model_tdt::fills(outputs.state_1_dims@, outputs.state_1@)
            && model_tdt::fills(outputs.state_2_dims@, outputs.state_2@),
{
    if let Err(e) = r {
        let first = model_tdt::fills(outputs.state_1_dims@, outputs.state_1@);
        let (name, dims, data) = if first {
            ("output_states_2"@, outputs.state_2_dims@, outputs.state_2@)
        } else {
            ("output_states_1"@, outputs.state_1_dims@, outputs.state_1@)
        };
        let shape = model_tdt::shape_of(dims);
        let reason = tensor::shape_error_text(
            tensor::shape3_fits(shape),
            tensor::size3(shape),
            data.len(),
        );
        let front = "Failed to reshape "@ + name;
        assert(e->Model_0@ == front + ": "@ + reason);
        assert(e->Model_0@.take(front.len() as int) =~= front);
    }
}

/// A step of the decoder is its network's answer taken apart: the token logits and the
/// duration logits are the logits, in order, and an error of the network is the error.
pub proof fn law_decoder_steps_are_answers_taken_apart<
    J: Fn(&Tensor3, i32, &Tensor3, &Tensor3) -> Result<DecoderOutputs, Error>,
>(
    network: &J,
    vocab_size: usize,
    frame: &Tensor3,
    last_token: i32,
    state_1: &Tensor3,
    state_2: &Tensor3,
    step: TdtStep,
)
    requires
        call_ensures(
            model_tdt::run_decoder::<J>,
            (network, vocab_size, frame, last_token, state_1, state_2),
            Ok::<TdtStep, Error>(step),
        ),
    ensures
        step.0@.len() <= vocab_size,
        step.1@.len() > 0 ==> step.0@.len() == vocab_size,
        exists|outputs: DecoderOutputs|
            {
                &&& #[trigger] call_ensures(
                    *network,
                    (frame, last_token, state_1, state_2),
                    Ok::<DecoderOutputs, Error>(outputs),
                )
                &&& step.0@ + step.1@ == outputs.logits@
                &&& tensor::tensor3_items(step.2) == outputs.state_1@
                &&& tensor::tensor3_items(step.3) == outputs.state_2@
            },
{
    let outputs = choose|outputs: DecoderOutputs|
        {
            &&& #[trigger] call_ensures(
                *network,
                (frame, last_token, state_1, state_2),
                Ok::<DecoderOutputs, Error>(outputs),
            )
            &&& model_tdt::is_step_of(step, outputs, vocab_size)
        };
    let n = model_tdt::token_count(outputs.logits@, vocab_size);
    assert(outputs.logits@.take(n) + outputs.logits@.skip(n) =~= outputs.logits@);
}

/// The names that files are looked for under, the preferred ones first: each is the
/// name of a whole model before that of a reduced one, and no name is tried twice.
pub proof fn law_candidates_are_tried_in_order(
    encoders: Vec<&'static str>,
    decoders: Vec<&'static str>,
)
    requires
        call_ensures(model_tdt::encoder_candidates, (), encoders),
        call_ensures(model_tdt::decoder_joint_candidates, (), decoders),
    ensures
        encoders@.len() == 3,
        encoders@[0]@ == "encoder-model.onnx"@,
        encoders@[1]@ == "encoder.onnx"@,
        encoders@[2]@ == "encoder-model.int8.onnx"@,
        decoders@.len() == 4,
        decoders@[0]@ == "decoder_joint-model.onnx"@,
        decoders@[1]@ == "decoder_joint-model.int8.onnx"@,
        decoders@[2]@ == "decoder_joint.onnx"@,
        decoders@[3]@ == "decoder-model.onnx"@,
{
    let e = model_tdt::texts_of(encoders@);
    let d = model_tdt::texts_of(decoders@);
    assert(e == model_tdt::encoder_names());
    assert(d == model_tdt::decoder_joint_names());
    assert(e.len() == encoders@.len());
    assert(d.len() == decoders@.len());
    assert(e[0] == encoders@[0]@ && e[1] == encoders@[1]@ && e[2] == encoders@[2]@);
    assert(d[0] == decoders@[0]@ && d[1] == decoders@[1]@ && d[2] == decoders@[2]@ && d[3]
        == decoders@[3]@);
}

/// The decoder file that is loaded is the first candidate that is present. Where none
/// is, the error names the directory.
pub proof fn law_the_first_decoder_found_is_loaded(
    dir: &str,
    present: &Vec<bool>,
    candidates: Vec<&'static str>,
    r: Result<String, Error>,
    i: int,
)
    requires
        present@.len() == candidates@.len(),
        call_ensures(model_tdt::decoder_joint_candidates, (), candidates),
        call_ensures(model_tdt::find_decoder_joint, (dir, present), r),
    ensures
        0 <= i < present@.len() && present@[i] && (forall|j: int|
            0 <= j < i ==> !#[trigger] present@[j]) ==> r is Ok && r->Ok_0@ == candidates@[i]@,
        (forall|j: int| 0 <= j < present@.len() ==> !#[trigger] present@[j]) ==> r is Err
            && r->Err_0 is Config && r->Err_0->Config_0@ == "No decoder_joint model found in "@
            + dir@,
{
    let k = choose|k: int|
        {
            &&& #[trigger] model_tdt::is_first_true(present@, k)
            &&& if k < present@.len() {
                r is Ok && r->Ok_0@ == model_tdt::decoder_joint_names()[k]
            } else {
                r is Err && r->Err_0 is Config && r->Err_0->Config_0@
                    == "No decoder_joint model found in "@ + dir@
            }
        };
    if 0 <= i < present@.len() && present@[i] && (forall|j: int|
        0 <= j < i ==> !#[trigger] present@[j]) {
        assert(k == i) by {
            if k < i {
                assert(!present@[k]);
            } else if i < k {
                assert(!present@[i]);
            }
        }
        assert(model_tdt::texts_of(candidates@)[i] == candidates@[i]@);
    }
    if forall|j: int| 0 <= j < present@.len() ==> !#[trigger] present@[j] {
        if k < present@.len() {
            assert(!present@[k]);
        }
    }
}

/// Where no encoder is found, the error names the directory.
pub proof fn law_missing_encoder_names_the_directory(
    dir: &str,
    present: &Vec<bool>,
    listing: &Vec<String>,
    e: Error,
)
    requires
        call_ensures(
            model_tdt::find_encoder,
            (dir, present, listing),
            Err::<String, Error>(e),
        ),
    ensures
        e is Config,
        e->Config_0@ == "No encoder model found in "@ + dir@,
{
}

/// A model holds what it was made of.
pub proof fn law_models_hold_what_they_were_made_of<
    E: Fn(&Tensor3, i64) -> Result<(Tensor3, i64), Error>,
    D: Fn(&Tensor3, i32, &Tensor3, &Tensor3) -> Result<TdtStep, Error>,
>(
    encoder: E,
    decoder_joint: D,
    vocab_size: usize,
    config: TDTModelConfig,
    model: ParakeetTDTModel<E, D>,
)
    requires
        call_ensures(TDTModelConfig::new, (vocab_size,), config),
        call_ensures(
            ParakeetTDTModel::<E, D>::new,
            (encoder, decoder_joint, config),
            model,
        ),
    ensures
        model.encoder == encoder,
        model.decoder_joint == decoder_joint,
        model.config.vocab_size == vocab_size,
{
}

} // verus!
