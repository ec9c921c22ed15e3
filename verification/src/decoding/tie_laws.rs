//! Which of two hypotheses comes first where their scores cannot tell them apart:
//! merging leaves paths in the order in which their tokens first came up, pruning keeps
//! ties in order and drops the later, and the best is the last of them.

use vstd::prelude::*;

use crate::arithmetic::Arithmetic;
use crate::decoding::ctc_beam;
use crate::decoding::ctc_beam::{CtcGain, CtcPrefix};
use crate::decoding::ctc_pruning;
use crate::decoding::rnnt_beam;
use crate::decoding::rnnt_beam::{RnntBeamOutput, RnntContext, RnntPath, RnntStep};
use crate::decoding::tdt_beam;
use crate::decoding::tdt_beam::{TdtBeamOutput, TdtContext, TdtPath, TdtStep};
use crate::decoding::BeamConfig;
use crate::error::Error;
use crate::ranking;
use crate::single;
use crate::single::Bits;
use crate::single_valued;
use crate::tensor;
use crate::tensor::{Tensor2, Tensor3};

verus! {

/// The kept items are those at the given places. Of items that are tied the earlier is
/// kept before the later, and a later one is kept only where the earlier is.
pub open spec fn keeps_ties_in_order<T>(
    items: Seq<T>,
    kept: Seq<T>,
    places: Seq<int>,
    tied: spec_fn(T, T) -> bool,
) -> bool {
    &&& places.len() == kept.len()
    &&& forall|i: int|
        0 <= i < kept.len() ==> 0 <= #[trigger] places[i] < items.len() && kept[i]
            == items[places[i]]
    &&& forall|i: int, j: int|
        0 <= i < j < kept.len() && tied(items[places[i]], items[places[j]]) ==> #[trigger] places[i]
            < #[trigger] places[j]
    &&& forall|i: int, j: int|
        #![trigger places[i], items[j]]
        0 <= i < kept.len() && 0 <= j < items.len() && !places.contains(j) && tied(
            items[places[i]],
            items[j],
        ) ==> places[i] < j
}

/// The item at place `k` is the last of those that it is tied with.
pub open spec fn is_last_tied<T>(items: Seq<T>, k: int, tied: spec_fn(T, T) -> bool) -> bool {
    &&& 0 <= k < items.len()
    &&& forall|j: int| k < j < items.len() ==> !tied(items[k], #[trigger] items[j])
}

proof fn lemma_listing_keeps_ties_in_order<T>(
    items: Seq<T>,
    keys: Seq<Bits>,
    n: nat,
    order: Seq<usize>,
    tied: spec_fn(T, T) -> bool,
) -> (places: Seq<int>)
    requires
        items.len() == keys.len() <= usize::MAX,
        ranking::is_top(keys, n, order),
        forall|i: int, j: int|
            #![trigger keys[i], keys[j]]
            0 <= i < items.len() && 0 <= j < items.len() && tied(items[i], items[j]) ==> keys[i]
                == keys[j],
    ensures
        keeps_ties_in_order(items, ranking::pick(items, order), places, tied),
{
    let places = Seq::new(order.len(), |p: int| order[p] as int);
    let kept = ranking::pick(items, order);
    assert forall|i: int| 0 <= i < kept.len() implies 0 <= #[trigger] places[i] < items.len()
        && kept[i] == items[places[i]] by {
        assert(order[i] < keys.len());
    }
    assert forall|i: int, j: int|
        0 <= i < j < kept.len() && tied(
            items[places[i]],
            items[places[j]],
        ) implies #[trigger] places[i] < #[trigger] places[j] by {
        assert(order[i] < keys.len() && order[j] < keys.len());
        assert(ranking::before(keys, order[i] as int, order[j] as int));
        assert(keys[places[i]] == keys[places[j]]);
    }
    assert forall|i: int, j: int|
        #![trigger places[i], items[j]]
        0 <= i < kept.len() && 0 <= j < items.len() && !places.contains(j) && tied(
            items[places[i]],
            items[j],
        ) implies places[i] < j by {
        assert(order[i] < keys.len());
        assert(!order.contains(j as usize)) by {
            if order.contains(j as usize) {
                let p = choose|p: int| 0 <= p < order.len() && order[p] == j as usize;
                assert(places[p] == j);
            }
        }
        assert(ranking::before(keys, order[i] as int, j));
        assert(keys[places[i]] == keys[j]);
    }
    places
}

proof fn lemma_last_max_is_a_place(keys: Seq<Bits>)
    requires
        keys.len() > 0,
    ensures
        0 <= ranking::last_max(keys) < keys.len(),
    decreases keys.len(),
{
    if keys.len() > 1 {
        lemma_last_max_is_a_place(keys.drop_last());
    }
}

proof fn lemma_search_ends_on_the_last_tied<T>(
    items: Seq<T>,
    keys: Seq<Bits>,
    tied: spec_fn(T, T) -> bool,
)
    requires
        items.len() == keys.len() > 0,
        forall|i: int, j: int|
            #![trigger keys[i], keys[j]]
            0 <= i < items.len() && 0 <= j < items.len() && tied(items[i], items[j]) ==> keys[i]
                == keys[j],
    ensures
        is_last_tied(items, ranking::last_max(keys), tied),
{
    let k = ranking::last_max(keys);
    lemma_last_max_is_a_place(keys);
    assert forall|j: int| k < j < items.len() implies !tied(items[k], #[trigger] items[j]) by {
        ranking::law_search_ends_on_the_last_of_the_greatest(keys, j);
        if tied(items[k], items[j]) {
            assert(keys[k] == keys[j]);
            assert(!single::greater(keys[k], keys[j]));
        }
    }
}

/// The paths have the same score and as many tokens.
pub open spec fn rnnt_tie() -> spec_fn(RnntPath, RnntPath) -> bool {
    |a: RnntPath, b: RnntPath| a.score == b.score && a.tokens.len() == b.tokens.len()
}

/// The paths have the same score and as many tokens.
pub open spec fn tdt_tie() -> spec_fn(TdtPath, TdtPath) -> bool {
    |a: TdtPath, b: TdtPath| a.score == b.score && a.tokens.len() == b.tokens.len()
}

/// The entries have the same two log-probabilities.
pub open spec fn ctc_tie() -> spec_fn(CtcPrefix, CtcPrefix) -> bool {
    |a: CtcPrefix, b: CtcPrefix| a.log_pb == b.log_pb && a.log_pnb == b.log_pnb
}

proof fn lemma_rnnt_ties_have_one_key<A: Arithmetic>(
    m: &A,
    beam: Seq<RnntPath>,
    penalty: Bits,
    keys: Seq<Bits>,
)
    requires
        single_valued::is_function(m),
        rnnt_beam::keys_are(m, beam, penalty, keys),
    ensures
        forall|i: int, j: int|
            #![trigger keys[i], keys[j]]
            0 <= i < beam.len() && 0 <= j < beam.len() && rnnt_tie()(beam[i], beam[j]) ==> keys[i]
                == keys[j],
{
    assert forall|i: int, j: int|
        #![trigger keys[i], keys[j]]
        0 <= i < beam.len() && 0 <= j < beam.len() && rnnt_tie()(
            beam[i],
            beam[j],
        ) implies keys[i] == keys[j] by {
        single_valued::lemma_one_normalized_score(
            m,
            beam[i].score,
            beam[i].tokens.len(),
            penalty,
            keys[i],
            keys[j],
        );
    }
}

proof fn lemma_tdt_ties_have_one_key<A: Arithmetic>(
    m: &A,
    beam: Seq<TdtPath>,
    penalty: Bits,
    keys: Seq<Bits>,
)
    requires
        single_valued::is_function(m),
        tdt_beam::keys_are(m, beam, penalty, keys),
    ensures
        forall|i: int, j: int|
            #![trigger keys[i], keys[j]]
            0 <= i < beam.len() && 0 <= j < beam.len() && tdt_tie()(beam[i], beam[j]) ==> keys[i]
                == keys[j],
{
    assert forall|i: int, j: int|
        #![trigger keys[i], keys[j]]
        0 <= i < beam.len() && 0 <= j < beam.len() && tdt_tie()(
            beam[i],
            beam[j],
        ) implies keys[i] == keys[j] by {
        single_valued::lemma_one_normalized_score(
            m,
            beam[i].score,
            beam[i].tokens.len(),
            penalty,
            keys[i],
            keys[j],
        );
    }
}

proof fn lemma_ctc_ties_have_one_key<A: Arithmetic>(m: &A, beam: Seq<CtcPrefix>, keys: Seq<Bits>)
    requires
        single_valued::is_function(m),
        ctc_beam::keys_are(m, beam, keys),
    ensures
        forall|i: int, j: int|
            #![trigger keys[i], keys[j]]
            0 <= i < beam.len() && 0 <= j < beam.len() && ctc_tie()(beam[i], beam[j]) ==> keys[i]
                == keys[j],
{
    assert forall|i: int, j: int|
        #![trigger keys[i], keys[j]]
        0 <= i < beam.len() && 0 <= j < beam.len() && ctc_tie()(
            beam[i],
            beam[j],
        ) implies keys[i] == keys[j] by {
        assert(ctc_beam::prefix_score_is(m, beam[i], keys[i]));
        assert(ctc_beam::prefix_score_is(m, beam[j], keys[j]));
        single_valued::lemma_one_log_sum_exp(
            m,
            beam[i].log_pb,
            beam[i].log_pnb,
            keys[i],
            keys[j],
        );
    }
}

/// Pruning RNN-T paths keeps the earlier of two that have the same score and as many
/// tokens, and keeps both in order where it keeps both.
pub proof fn law_pruning_rnnt_paths_keeps_ties_in_order<A: Arithmetic>(
    m: &A,
    beam: Seq<RnntPath>,
    config: BeamConfig,
    pruned: Seq<RnntPath>,
) -> (places: Seq<int>)
    requires
        single_valued::is_function(m),
        beam.len() <= usize::MAX,
        rnnt_beam::pruned_is(m, beam, config, pruned),
    ensures
        keeps_ties_in_order(beam, pruned, places, rnnt_tie()),
{
    let (keys, order) = choose|keys: Seq<Bits>, order: Seq<usize>|
        {
            &&& #[trigger] rnnt_beam::keys_are(m, beam, config.length_penalty, keys)
            &&& #[trigger] ranking::is_top(keys, config.beam_size as nat, order)
            &&& pruned == ranking::pick(beam, order)
        };
    lemma_rnnt_ties_have_one_key(m, beam, config.length_penalty, keys);
    lemma_listing_keeps_ties_in_order(beam, keys, config.beam_size as nat, order, rnnt_tie())
}

/// Pruning TDT paths keeps the earlier of two that have the same score and as many
/// tokens, and keeps both in order where it keeps both.
pub proof fn law_pruning_tdt_paths_keeps_ties_in_order<A: Arithmetic>(
    m: &A,
    beam: Seq<TdtPath>,
    config: BeamConfig,
    pruned: Seq<TdtPath>,
) -> (places: Seq<int>)
    requires
        single_valued::is_function(m),
        beam.len() <= usize::MAX,
        tdt_beam::pruned_is(m, beam, config, pruned),
    ensures
        keeps_ties_in_order(beam, pruned, places, tdt_tie()),
{
    let (keys, order) = choose|keys: Seq<Bits>, order: Seq<usize>|
        {
            &&& #[trigger] tdt_beam::keys_are(m, beam, config.length_penalty, keys)
            &&& #[trigger] ranking::is_top(keys, config.beam_size as nat, order)
            &&& pruned == ranking::pick(beam, order)
        };
    lemma_tdt_ties_have_one_key(m, beam, config.length_penalty, keys);
    lemma_listing_keeps_ties_in_order(beam, keys, config.beam_size as nat, order, tdt_tie())
}

/// Pruning CTC entries keeps the earlier of two with the same log-probabilities, and
/// keeps both in order where it keeps both.
pub proof fn law_pruning_ctc_entries_keeps_ties_in_order<A: Arithmetic>(
    m: &A,
    beam: Seq<CtcPrefix>,
    beam_size: usize,
    pruned: Seq<CtcPrefix>,
) -> (places: Seq<int>)
    requires
        single_valued::is_function(m),
        beam.len() <= usize::MAX,
        ctc_beam::pruned_is(m, beam, beam_size, pruned),
    ensures
        keeps_ties_in_order(beam, pruned, places, ctc_tie()),
{
    let (keys, order) = choose|keys: Seq<Bits>, order: Seq<usize>|
        {
            &&& #[trigger] ctc_beam::keys_are(m, beam, keys)
            &&& #[trigger] ranking::is_top(keys, beam_size as nat, order)
            &&& pruned == ranking::pick(beam, order)
        };
    lemma_ctc_ties_have_one_key(m, beam, keys);
    lemma_listing_keeps_ties_in_order(beam, keys, beam_size as nat, order, ctc_tie())
}

/// The best RNN-T path of a beam is the last of those with its score and as many
/// tokens.
pub proof fn law_best_rnnt_path_is_the_last_of_its_ties<A: Arithmetic>(
    m: &A,
    beam: Seq<RnntPath>,
    penalty: Bits,
    best: RnntPath,
) -> (k: int)
    requires
        single_valued::is_function(m),
        rnnt_beam::best_is(m, beam, penalty, Some(best)),
    ensures
        is_last_tied(beam, k, rnnt_tie()),
        beam[k] == best,
{
    let keys = choose|keys: Seq<Bits>|
        {
            &&& #[trigger] rnnt_beam::keys_are(m, beam, penalty, keys)
            &&& Some(best) == Some(beam[ranking::last_max(keys)])
        };
    lemma_rnnt_ties_have_one_key(m, beam, penalty, keys);
    lemma_search_ends_on_the_last_tied(beam, keys, rnnt_tie());
    ranking::last_max(keys)
}

/// The best TDT path of a beam is the last of those with its score and as many tokens.
pub proof fn law_best_tdt_path_is_the_last_of_its_ties<A: Arithmetic>(
    m: &A,
    beam: Seq<TdtPath>,
    penalty: Bits,
    best: TdtPath,
) -> (k: int)
    requires
        single_valued::is_function(m),
        tdt_beam::best_is(m, beam, penalty, Some(best)),
    ensures
        is_last_tied(beam, k, tdt_tie()),
        beam[k] == best,
{
    let keys = choose|keys: Seq<Bits>|
        {
            &&& #[trigger] tdt_beam::keys_are(m, beam, penalty, keys)
            &&& Some(best) == Some(beam[ranking::last_max(keys)])
        };
    lemma_tdt_ties_have_one_key(m, beam, penalty, keys);
    lemma_search_ends_on_the_last_tied(beam, keys, tdt_tie());
    ranking::last_max(keys)
}

impl<
    A: Arithmetic,
    D: Fn(&Tensor3, i32, &Tensor3, &Tensor3) -> Result<RnntStep, Error>,
> RnntContext<'_, A, D> {
    /// The best hypothesis of a pass is the last of the survivors that are tied with it.
    pub proof fn law_best_hypothesis_is_the_last_of_its_ties(
        self,
        start: usize,
        end: usize,
        offset: usize,
        carried: Seq<RnntPath>,
        out: RnntBeamOutput,
    ) -> (k: int)
        requires
            single_valued::is_function(self.arithmetic),
            self.decodes(start, end, offset, carried, out),
            out.hypotheses@.len() > 0,
        ensures
            is_last_tied(rnnt_beam::paths(out.hypotheses@), k, rnnt_tie()),
            out.best_hypothesis is Some,
            out.best_hypothesis->Some_0@ == out.hypotheses@[k]@,
    {
        law_best_rnnt_path_is_the_last_of_its_ties(
            self.arithmetic,
            rnnt_beam::paths(out.hypotheses@),
            self.config.length_penalty,
            out.best_hypothesis->Some_0@,
        )
    }
}

impl<
    A: Arithmetic,
    D: Fn(&Tensor3, i32, &Tensor3, &Tensor3) -> Result<TdtStep, Error>,
> TdtContext<'_, A, D> {
    /// The output lists the tokens of the path at place `k`, the last of its ties among
    /// the finished paths and those still followed behind them; nothing where there are
    /// none.
    pub open spec fn lists_the_last_tied(
        self,
        finished: Seq<TdtPath>,
        active: Seq<TdtPath>,
        k: int,
        out: TdtBeamOutput,
    ) -> bool {
        &&& self.ends_with(finished, active)
        &&& (finished + active).len() == 0 ==> out.tokens@.len() == 0
        &&& (finished + active).len() > 0 ==> {
            &&& is_last_tied(finished + active, k, tdt_tie())
            &&& out.tokens@.len() == (finished + active)[k].tokens.len()
            &&& forall|i: int|
                0 <= i < out.tokens@.len() ==> #[trigger] out.tokens@[i] == (finished
                    + active)[k].tokens[i].0
        }
    }

    /// Of a finished and a followed hypothesis that are tied, the output lists the one
    /// that is followed, and of two of either kind the later.
    pub proof fn law_output_lists_the_last_of_its_ties(self, out: TdtBeamOutput)
        requires
            single_valued::is_function(self.arithmetic),
            self.decodes(out),
        ensures
            exists|finished: Seq<TdtPath>, active: Seq<TdtPath>, k: int| #[trigger]
                self.lists_the_last_tied(finished, active, k, out),
    {
        let (finished, active, best) = choose|
            finished: Seq<TdtPath>,
            active: Seq<TdtPath>,
            best: Option<TdtPath>,
        |
            {
                &&& #[trigger] self.ends_with(finished, active)
                &&& #[trigger] tdt_beam::best_is(
                    self.arithmetic,
                    finished + active,
                    self.config.length_penalty,
                    best,
                )
                &&& tdt_beam::gives(best, out)
            };
        let all = finished + active;
        if all.len() > 0 {
            assert(best is Some);
            let p = best->Some_0;
            let k = law_best_tdt_path_is_the_last_of_its_ties(
                self.arithmetic,
                all,
                self.config.length_penalty,
                p,
            );
            assert(out.tokens@ == tdt_beam::token_ids(p.tokens));
            assert(self.lists_the_last_tied(finished, active, k, out));
        } else {
            assert(self.lists_the_last_tied(finished, active, 0, out));
        }
    }
}

/// All the frames may lead to the beam, and the tokens are the prefix of its entry at
/// place `k`, the last of its ties; nothing where the beam is empty.
pub open spec fn is_the_last_tied_of<A: Arithmetic>(
    m: &A,
    logits: Tensor2,
    blank_id: usize,
    config: BeamConfig,
    tokens: Seq<u32>,
    beam: Seq<CtcPrefix>,
    k: int,
) -> bool {
    &&& ctc_pruning::is_last_beam(m, logits, blank_id, config, beam)
    &&& beam.len() == 0 ==> tokens.len() == 0
    &&& beam.len() > 0 ==> is_last_tied(beam, k, ctc_tie()) && beam[k].prefix == tokens
}

/// Of entries with the same log-probabilities in the last beam, CTC beam decoding gives
/// the last.
pub proof fn law_ctc_result_is_the_last_of_its_ties<A: Arithmetic>(
    m: &A,
    logits: Tensor2,
    blank_id: usize,
    config: BeamConfig,
    tokens: Seq<u32>,
)
    requires
        single_valued::is_function(m),
        tensor::tensor2_shape(logits).0 > 0,
        ctc_beam::decodes(m, logits, blank_id, config, tokens),
    ensures
        exists|beam: Seq<CtcPrefix>, k: int| #[trigger]
            is_the_last_tied_of(m, logits, blank_id, config, tokens, beam, k),
{
    let (beam, keys) = choose|beam: Seq<CtcPrefix>, keys: Seq<Bits>|
        {
            &&& ctc_beam::beam_after(
                m,
                logits,
                blank_id,
                ctc_beam::effective_beam_size(config),
                tensor::tensor2_shape(logits).0 as nat,
                beam,
            )
            &&& #[trigger] ctc_beam::keys_are(m, beam, keys)
            &&& if beam.len() == 0 {
                tokens.len() == 0
            } else {
                tokens == beam[ranking::last_max(keys)].prefix
            }
        };
    let k = ranking::last_max(keys);
    assert(ctc_pruning::is_last_beam(m, logits, blank_id, config, beam));
    if beam.len() > 0 {
        lemma_ctc_ties_have_one_key(m, beam, keys);
        lemma_search_ends_on_the_last_tied(beam, keys, ctc_tie());
    }
    assert(is_the_last_tied_of(m, logits, blank_id, config, tokens, beam, k));
}

/// The items, each where it comes up first.
pub open spec fn first_occurrences<K>(items: Seq<K>) -> Seq<K>
    decreases items.len(),
{
    if items.len() == 0 {
        Seq::empty()
    } else if items.drop_last().contains(items.last()) {
        first_occurrences(items.drop_last())
    } else {
        first_occurrences(items.drop_last()).push(items.last())
    }
}

proof fn lemma_first_occurrences_hold_all<K>(items: Seq<K>, x: K)
    ensures
        first_occurrences(items).contains(x) <==> items.contains(x),
    decreases items.len(),
{
    let firsts = first_occurrences(items);
    if items.len() > 0 {
        let front = items.drop_last();
        lemma_first_occurrences_hold_all(front, x);
        assert(items.contains(x) <==> front.contains(x) || items.last() == x) by {
            assert(items =~= front.push(items.last()));
            if front.contains(x) {
                let j = choose|j: int| 0 <= j < front.len() && front[j] == x;
                assert(items[j] == x);
            }
            if items.last() == x {
                assert(items[items.len() - 1] == x);
            }
            if items.contains(x) && items.last() != x {
                let j = choose|j: int| 0 <= j < items.len() && items[j] == x;
                assert(front[j] == x);
            }
        }
        if !front.contains(items.last()) {
            let rest = first_occurrences(front);
            if rest.contains(x) {
                let j = choose|j: int| 0 <= j < rest.len() && rest[j] == x;
                assert(firsts[j] == x);
            }
            if items.last() == x {
                assert(firsts[firsts.len() - 1] == x);
            }
            if firsts.contains(x) && items.last() != x {
                let j = choose|j: int| 0 <= j < firsts.len() && firsts[j] == x;
                assert(rest[j] == x);
            }
        }
    } else {
        assert(firsts =~= items);
    }
}

/// What a path is merged by: its frame, the token that the decoder is fed, and the ids
/// of its tokens.
pub open spec fn rnnt_transcript(p: RnntPath) -> (usize, i32, Seq<usize>) {
    (p.frame, p.last_token, Seq::new(p.tokens.len(), |i: int| p.tokens[i].0))
}

/// What a path is merged by: its frame, the token that the decoder is fed, and the ids
/// of its tokens.
pub open spec fn tdt_transcript(p: TdtPath) -> (usize, i32, Seq<usize>) {
    (p.step, p.last_token, Seq::new(p.tokens.len(), |i: int| p.tokens[i].0))
}

/// What the paths are merged by, path by path.
pub open spec fn rnnt_transcripts(paths: Seq<RnntPath>) -> Seq<(usize, i32, Seq<usize>)> {
    Seq::new(paths.len(), |i: int| rnnt_transcript(paths[i]))
}

/// What the paths are merged by, path by path.
pub open spec fn tdt_transcripts(paths: Seq<TdtPath>) -> Seq<(usize, i32, Seq<usize>)> {
    Seq::new(paths.len(), |i: int| tdt_transcript(paths[i]))
}

proof fn lemma_rnnt_transcript_is_the_key(a: RnntPath, b: RnntPath)
    ensures
        rnnt_beam::same_key(a, b) <==> rnnt_transcript(a) == rnnt_transcript(b),
{
    assert(rnnt_transcript(a).2 =~= rnnt_beam::token_ids(a.tokens));
    assert(rnnt_transcript(b).2 =~= rnnt_beam::token_ids(b.tokens));
}

proof fn lemma_tdt_transcript_is_the_key(a: TdtPath, b: TdtPath)
    ensures
        tdt_beam::same_key(a, b) <==> tdt_transcript(a) == tdt_transcript(b),
{
    assert(tdt_transcript(a).2 =~= tdt_beam::token_ids(a.tokens));
    assert(tdt_transcript(b).2 =~= tdt_beam::token_ids(b.tokens));
}

/// Merging RNN-T paths leaves one for each transcript, in the order in which the
/// transcripts first came up.
pub proof fn law_merged_rnnt_paths_are_in_order<A: Arithmetic>(
    m: &A,
    all: Seq<RnntPath>,
    merged: Seq<RnntPath>,
)
    requires
        rnnt_beam::merged_is(m, all, merged),
    ensures
        rnnt_transcripts(merged) == first_occurrences(rnnt_transcripts(all)),
    decreases all.len(),
{
    let x = rnnt_transcripts(all);
    let y = rnnt_transcripts(merged);
    if all.len() == 0 {
        assert(y =~= first_occurrences(x));
    } else {
        let front = all.drop_last();
        let p = all.last();
        let (held, at, score) = choose|held: Seq<RnntPath>, at: int, score: Bits|
            rnnt_beam::merged_is(m, front, held) && #[trigger] rnnt_beam::absorbs(
                m,
                held,
                p,
                at,
                score,
                merged,
            );
        law_merged_rnnt_paths_are_in_order(m, front, held);
        let h = rnnt_transcripts(held);
        assert(x.drop_last() =~= rnnt_transcripts(front));
        assert(x.last() == rnnt_transcript(p));
        lemma_first_occurrences_hold_all(x.drop_last(), x.last());
        if at < held.len() {
            lemma_rnnt_transcript_is_the_key(held[at], p);
            assert(h[at] == x.last());
            assert(h.contains(x.last()));
            assert forall|i: int| 0 <= i < y.len() implies y[i] == h[i] by {
                if i == at {
                    lemma_rnnt_transcript_is_the_key(merged[i], held[i]);
                }
            }
            assert(y =~= h);
        } else {
            assert(!h.contains(x.last())) by {
                if h.contains(x.last()) {
                    let j = choose|j: int| 0 <= j < h.len() && h[j] == x.last();
                    lemma_rnnt_transcript_is_the_key(held[j], p);
                    assert(!rnnt_beam::same_key(held[j], p));
                }
            }
            assert(y =~= h.push(x.last()));
        }
    }
}

/// Merging TDT paths leaves one for each transcript, in the order in which the
/// transcripts first came up.
pub proof fn law_merged_tdt_paths_are_in_order<A: Arithmetic>(
    m: &A,
    all: Seq<TdtPath>,
    merged: Seq<TdtPath>,
)
    requires
        tdt_beam::merged_is(m, all, merged),
    ensures
        tdt_transcripts(merged) == first_occurrences(tdt_transcripts(all)),
    decreases all.len(),
{
    let x = tdt_transcripts(all);
    let y = tdt_transcripts(merged);
    if all.len() == 0 {
        assert(y =~= first_occurrences(x));
    } else {
        let front = all.drop_last();
        let p = all.last();
        let (held, at, score) = choose|held: Seq<TdtPath>, at: int, score: Bits|
            tdt_beam::merged_is(m, front, held) && #[trigger] tdt_beam::absorbs(
                m,
                held,
                p,
                at,
                score,
                merged,
            );
        law_merged_tdt_paths_are_in_order(m, front, held);
        let h = tdt_transcripts(held);
        assert(x.drop_last() =~= tdt_transcripts(front));
        assert(x.last() == tdt_transcript(p));
        lemma_first_occurrences_hold_all(x.drop_last(), x.last());
        if at < held.len() {
            lemma_tdt_transcript_is_the_key(held[at], p);
            assert(h[at] == x.last());
            assert(h.contains(x.last()));
            assert forall|i: int| 0 <= i < y.len() implies y[i] == h[i] by {
                if i == at {
                    lemma_tdt_transcript_is_the_key(merged[i], held[i]);
                }
            }
            assert(y =~= h);
        } else {
            assert(!h.contains(x.last())) by {
                if h.contains(x.last()) {
                    let j = choose|j: int| 0 <= j < h.len() && h[j] == x.last();
                    lemma_tdt_transcript_is_the_key(held[j], p);
                    assert(!tdt_beam::same_key(held[j], p));
                }
            }
            assert(y =~= h.push(x.last()));
        }
    }
}

/// Adding up CTC gains leaves one entry for each prefix, in the order in which the
/// prefixes first came up.
pub proof fn law_ctc_entries_are_in_order<A: Arithmetic>(
    m: &A,
    gains: Seq<CtcGain>,
    entries: Seq<CtcPrefix>,
)
    requires
        ctc_beam::added_up(m, gains, entries),
    ensures
        Seq::new(entries.len(), |i: int| entries[i].prefix) == first_occurrences(
            Seq::new(gains.len(), |i: int| gains[i].prefix),
        ),
    decreases gains.len(),
{
    let x = Seq::new(gains.len(), |i: int| gains[i].prefix);
    let y = Seq::new(entries.len(), |i: int| entries[i].prefix);
    if gains.len() == 0 {
        assert(y =~= first_occurrences(x));
    } else {
        let front = gains.drop_last();
        let gain = gains.last();
        let (held, at, after) = choose|held: Seq<CtcPrefix>, at: int, after: CtcPrefix|
            ctc_beam::added_up(m, front, held) && #[trigger] ctc_beam::absorbs(
                m,
                held,
                gain,
                at,
                after,
                entries,
            );
        law_ctc_entries_are_in_order(m, front, held);
        let h = Seq::new(held.len(), |i: int| held[i].prefix);
        assert(x.drop_last() =~= Seq::new(front.len(), |i: int| front[i].prefix));
        assert(h == first_occurrences(x.drop_last()));
        lemma_first_occurrences_hold_all(x.drop_last(), x.last());
        if at < held.len() {
            assert(h[at] == x.last());
            assert(h.contains(x.last()));
            assert(y =~= h);
        } else {
            assert(!h.contains(x.last())) by {
                if h.contains(x.last()) {
                    let j = choose|j: int| 0 <= j < h.len() && h[j] == x.last();
                    assert(held[j].prefix != gain.prefix);
                }
            }
            assert(y =~= h.push(x.last()));
        }
    }
}

} // verus!
