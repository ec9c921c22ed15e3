//! CTC decoding has one result for one input, where the arithmetic has.
use vstd::prelude::*;
use crate::arithmetic;
use crate::arithmetic::Arithmetic;
use crate::decoding::ctc_beam;
use crate::decoding::ctc_beam::{CtcFrameTrace, CtcGain, CtcPrefix};
use crate::decoding::BeamConfig;
use crate::ranking;
use crate::single::{Bits, NEG_INFINITY};
use crate::single_valued;
use crate::tensor;
use crate::tensor::Tensor2;

verus! {

proof fn lemma_one_handed_on<A: Arithmetic>(
    m: &A,
    e: CtcPrefix,
    log_p: Bits,
    r: Bits,
    s: Bits,
)
    requires
        single_valued::is_function(m),
        ctc_beam::handed_on_is(m, e, log_p, r),
        ctc_beam::handed_on_is(m, e, log_p, s),
    ensures
        r == s,
{
    let a = choose|a: Bits| #[trigger]
        ctc_beam::prefix_score_is(m, e, a) && arithmetic::sum_is(m, a, log_p, r);
    let b = choose|b: Bits| #[trigger]
        ctc_beam::prefix_score_is(m, e, b) && arithmetic::sum_is(m, b, log_p, s);
    single_valued::lemma_one_log_sum_exp(m, e.log_pb, e.log_pnb, a, b);
    single_valued::lemma_one_sum(m, a, log_p, r, s);
}

proof fn lemma_one_label<A: Arithmetic>(
    m: &A,
    e: CtcPrefix,
    token: u32,
    log_p: Bits,
    before: Seq<CtcGain>,
    r: Seq<CtcGain>,
    s: Seq<CtcGain>,
)
    requires
        single_valued::is_function(m),
        ctc_beam::label_adds(m, e, token, log_p, before, r),
        ctc_beam::label_adds(m, e, token, log_p, before, s),
    ensures
        r == s,
{
    let k = before.len() as int;
    if ctc_beam::ends_with(e.prefix, token) {
        single_valued::lemma_one_sum(m, e.log_pnb, log_p, r[k].value, s[k].value);
        if e.log_pb != NEG_INFINITY {
            single_valued::lemma_one_sum(m, e.log_pb, log_p, r[k + 1].value, s[k + 1].value);
        }
    } else {
        lemma_one_handed_on(m, e, log_p, r[k].value, s[k].value);
    }
    assert forall|i: int| 0 <= i < r.len() implies #[trigger] r[i] == s[i] by {
        if i < k {
            assert(r.take(k)[i] == s.take(k)[i]);
        }
    }
    assert(r =~= s);
}

proof fn lemma_one_labelling<A: Arithmetic>(
    m: &A,
    e: CtcPrefix,
    log_probs: Seq<Bits>,
    labels: Seq<usize>,
    n: nat,
    blank_id: usize,
    held: Seq<CtcGain>,
    r: Seq<CtcGain>,
    s: Seq<CtcGain>,
)
    requires
        single_valued::is_function(m),
        ctc_beam::labels_add(m, e, log_probs, labels, n, blank_id, held, r),
        ctc_beam::labels_add(m, e, log_probs, labels, n, blank_id, held, s),
    ensures
        r == s,
    decreases n,
{
    if n > 0 {
        let k = (n - 1) as nat;
        let label = labels[n - 1];
        if label == blank_id {
            lemma_one_labelling(m, e, log_probs, labels, k, blank_id, held, r, s);
        } else {
            let token = label as u32;
            let log_p = log_probs[label as int];
            let a = choose|a: Seq<CtcGain>|
                {
                    &&& ctc_beam::labels_add(m, e, log_probs, labels, k, blank_id, held, a)
                    &&& #[trigger] ctc_beam::label_adds(m, e, token, log_p, a, r)
                };
            let b = choose|b: Seq<CtcGain>|
                {
                    &&& ctc_beam::labels_add(m, e, log_probs, labels, k, blank_id, held, b)
                    &&& #[trigger] ctc_beam::label_adds(m, e, token, log_p, b, s)
                };
            lemma_one_labelling(m, e, log_probs, labels, k, blank_id, held, a, b);
            lemma_one_label(m, e, token, log_p, a, r, s);
        }
    }
}

proof fn lemma_one_beam_of_gains<A: Arithmetic>(
    m: &A,
    beam: Seq<CtcPrefix>,
    log_probs: Seq<Bits>,
    labels: Seq<usize>,
    blank_id: usize,
    r: Seq<CtcGain>,
    s: Seq<CtcGain>,
)
    requires
        single_valued::is_function(m),
        ctc_beam::beam_adds(m, beam, log_probs, labels, blank_id, r),
        ctc_beam::beam_adds(m, beam, log_probs, labels, blank_id, s),
    ensures
        r == s,
    decreases beam.len(),
{
    if beam.len() > 0 {
        let e = beam.last();
        let front = beam.drop_last();
        let log_p = log_probs[blank_id as int];
        let a = choose|a: Seq<CtcGain>|
            {
                &&& ctc_beam::beam_adds(m, front, log_probs, labels, blank_id, a)
                &&& #[trigger] ctc_beam::entry_adds(m, e, log_probs, labels, blank_id, a, r)
            };
        let b = choose|b: Seq<CtcGain>|
            {
                &&& ctc_beam::beam_adds(m, front, log_probs, labels, blank_id, b)
                &&& #[trigger] ctc_beam::entry_adds(m, e, log_probs, labels, blank_id, b, s)
            };
        lemma_one_beam_of_gains(m, front, log_probs, labels, blank_id, a, b);
        let n = labels.len();
        let x = choose|x: CtcGain|
            {
                &&& #[trigger] ctc_beam::is_blank_gain(m, e, log_p, x)
                &&& ctc_beam::labels_add(m, e, log_probs, labels, n, blank_id, a.push(x), r)
            };
        let y = choose|y: CtcGain|
            {
                &&& #[trigger] ctc_beam::is_blank_gain(m, e, log_p, y)
                &&& ctc_beam::labels_add(m, e, log_probs, labels, n, blank_id, b.push(y), s)
            };
        lemma_one_handed_on(m, e, log_p, x.value, y.value);
        lemma_one_labelling(m, e, log_probs, labels, n, blank_id, a.push(x), r, s);
    } else {
        assert(r =~= s);
    }
}

proof fn lemma_one_adding_up<A: Arithmetic>(
    m: &A,
    gains: Seq<CtcGain>,
    r: Seq<CtcPrefix>,
    s: Seq<CtcPrefix>,
)
    requires
        single_valued::is_function(m),
        ctc_beam::added_up(m, gains, r),
        ctc_beam::added_up(m, gains, s),
    ensures
        r == s,
    decreases gains.len(),
{
    if gains.len() > 0 {
        let gain = gains.last();
        let (a, i, x) = choose|a: Seq<CtcPrefix>, i: int, x: CtcPrefix|
            ctc_beam::added_up(m, gains.drop_last(), a) && #[trigger] ctc_beam::absorbs(
                m,
                a,
                gain,
                i,
                x,
                r,
            );
        let (b, j, y) = choose|b: Seq<CtcPrefix>, j: int, y: CtcPrefix|
            ctc_beam::added_up(m, gains.drop_last(), b) && #[trigger] ctc_beam::absorbs(
                m,
                b,
                gain,
                j,
                y,
                s,
            );
        lemma_one_adding_up(m, gains.drop_last(), a, b);
        if i < j {
            assert(b[i].prefix != gain.prefix);
        } else if j < i {
            assert(a[j].prefix != gain.prefix);
        }
        let e = if i < a.len() {
            a[i]
        } else {
            ctc_beam::empty_entry(gain.prefix)
        };
        if gain.ends_in_blank {
            single_valued::lemma_one_log_sum_exp(m, e.log_pb, gain.value, x.log_pb, y.log_pb);
        } else {
            single_valued::lemma_one_log_sum_exp(m, e.log_pnb, gain.value, x.log_pnb, y.log_pnb);
        }
        assert(x == y);
    } else {
        assert(r =~= s);
    }
}

proof fn lemma_one_row_of_keys<A: Arithmetic>(
    m: &A,
    beam: Seq<CtcPrefix>,
    r: Seq<Bits>,
    s: Seq<Bits>,
)
    requires
        single_valued::is_function(m),
        ctc_beam::keys_are(m, beam, r),
        ctc_beam::keys_are(m, beam, s),
    ensures
        r == s,
{
    assert forall|i: int| 0 <= i < r.len() implies #[trigger] r[i] == s[i] by {
        assert(ctc_beam::prefix_score_is(m, beam[i], s[i]));
        single_valued::lemma_one_log_sum_exp(m, beam[i].log_pb, beam[i].log_pnb, r[i], s[i]);
    }
    assert(r =~= s);
}

/// The beam after `t` frames is determined.
pub proof fn law_one_beam_after_each_frame<A: Arithmetic>(
    m: &A,
    logits: Tensor2,
    blank_id: usize,
    beam_size: usize,
    t: nat,
    r: Seq<CtcPrefix>,
    s: Seq<CtcPrefix>,
)
    requires
        single_valued::is_function(m),
        ctc_beam::beam_after(m, logits, blank_id, beam_size, t, r),
        ctc_beam::beam_after(m, logits, blank_id, beam_size, t, s),
    ensures
        r == s,
    decreases t,
{
    if t > 0 {
        let row = tensor::row_items(logits, t - 1);
        let k = (t - 1) as nat;
        let a = choose|a: Seq<CtcPrefix>|
            {
                &&& ctc_beam::beam_after(m, logits, blank_id, beam_size, k, a)
                &&& #[trigger] ctc_beam::frame_is(m, row, blank_id, beam_size, a, r)
            };
        let b = choose|b: Seq<CtcPrefix>|
            {
                &&& ctc_beam::beam_after(m, logits, blank_id, beam_size, k, b)
                &&& #[trigger] ctc_beam::frame_is(m, row, blank_id, beam_size, b, s)
            };
        law_one_beam_after_each_frame(m, logits, blank_id, beam_size, k, a, b);
        let w = choose|w: CtcFrameTrace| #[trigger]
            ctc_beam::frame_traced(m, row, blank_id, beam_size, a, w, r);
        let v = choose|v: CtcFrameTrace| #[trigger]
            ctc_beam::frame_traced(m, row, blank_id, beam_size, b, v, s);
        single_valued::lemma_one_log_softmax(m, row, w.log_probs, v.log_probs);
        ranking::law_top_is_unique(w.log_probs, beam_size as nat, w.labels, v.labels);
        lemma_one_beam_of_gains(m, a, w.log_probs, w.labels, blank_id, w.gains, v.gains);
        lemma_one_adding_up(m, w.gains, w.entries, v.entries);
        let (ka, oa) = choose|ka: Seq<Bits>, oa: Seq<usize>|
            {
                &&& #[trigger] ctc_beam::keys_are(m, w.entries, ka)
                &&& #[trigger] ranking::is_top(ka, beam_size as nat, oa)
                &&& r == ranking::pick(w.entries, oa)
            };
        let (kb, ob) = choose|kb: Seq<Bits>, ob: Seq<usize>|
            {
                &&& #[trigger] ctc_beam::keys_are(m, v.entries, kb)
                &&& #[trigger] ranking::is_top(kb, beam_size as nat, ob)
                &&& s == ranking::pick(v.entries, ob)
            };
        lemma_one_row_of_keys(m, w.entries, ka, kb);
        ranking::law_top_is_unique(ka, beam_size as nat, oa, ob);
    }
}

/// One input has one result, and of the search parameters the beam size alone
/// counts: the same logits decode to the same tokens wherever the beam holds as
/// many prefixes. No beam counts as a beam of one.
pub proof fn law_one_input_has_one_result<A: Arithmetic>(
    m: &A,
    logits: Tensor2,
    blank_id: usize,
    config: BeamConfig,
    other: BeamConfig,
    tokens: Seq<u32>,
    other_tokens: Seq<u32>,
)
    requires
        single_valued::is_function(m),
        ctc_beam::effective_beam_size(config) == ctc_beam::effective_beam_size(other),
        ctc_beam::decodes(m, logits, blank_id, config, tokens),
        ctc_beam::decodes(m, logits, blank_id, other, other_tokens),
    ensures
        tokens == other_tokens,
{
    let frames = tensor::tensor2_shape(logits).0;
    if frames > 0 {
        let size = ctc_beam::effective_beam_size(config);
        let (a, ka) = choose|a: Seq<CtcPrefix>, ka: Seq<Bits>|
            {
                &&& ctc_beam::beam_after(m, logits, blank_id, size, frames as nat, a)
                &&& #[trigger] ctc_beam::keys_are(m, a, ka)
                &&& if a.len() == 0 {
                    tokens.len() == 0
                } else {
                    tokens == a[ranking::last_max(ka)].prefix
                }
            };
        let (b, kb) = choose|b: Seq<CtcPrefix>, kb: Seq<Bits>|
            {
                &&& ctc_beam::beam_after(m, logits, blank_id, size, frames as nat, b)
                &&& #[trigger] ctc_beam::keys_are(m, b, kb)
                &&& if b.len() == 0 {
                    other_tokens.len() == 0
                } else {
                    other_tokens == b[ranking::last_max(kb)].prefix
                }
            };
        law_one_beam_after_each_frame(m, logits, blank_id, size, frames as nat, a, b);
        lemma_one_row_of_keys(m, a, ka, kb);
        if a.len() == 0 {
            assert(tokens =~= other_tokens);
        }
    } else {
        assert(tokens =~= other_tokens);
    }
}

} // verus!
