//! Decoding a stream in chunks is decoding it in one pass.
//!
//! Between chunks the carried paths have their tokens counted as emitted before;
//! nothing in the search reads that count, so it can be changed without
//! changing anything else.
use vstd::prelude::*;
use crate::arithmetic;
use crate::arithmetic::Arithmetic;
use crate::decoding::rnnt_beam;
use crate::decoding::rnnt_laws;
use crate::decoding::rnnt_beam::{
    RnntBeamOutput, RnntContext, RnntExpansion, RnntFrameTrace, RnntPath, RnntStep,
};
use crate::decoding::BeamConfig;
use crate::error::Error;
use crate::ranking;
use crate::single::Bits;
use crate::tensor::Tensor3;

verus! {

/// `a` and `b` are the same path but for the count of tokens emitted before.
pub open spec fn alike(a: RnntPath, b: RnntPath) -> bool {
    a == (RnntPath { prev_token_count: a.prev_token_count, ..b })
}

/// The two beams hold the same paths, in the same order, but for the counts of
/// tokens emitted before.
pub open spec fn beams_alike(a: Seq<RnntPath>, b: Seq<RnntPath>) -> bool {
    &&& a.len() == b.len()
    &&& forall|i: int| 0 <= i < a.len() ==> alike(#[trigger] a[i], b[i])
}

proof fn lemma_alike_front(a: Seq<RnntPath>, b: Seq<RnntPath>)
    requires
        beams_alike(a, b),
        a.len() > 0,
    ensures
        beams_alike(a.drop_last(), b.drop_last()),
        alike(a.last(), b.last()),
{
    assert(alike(a[a.len() - 1], b[a.len() - 1]));
    assert forall|i: int| 0 <= i < a.drop_last().len() implies alike(
        #[trigger] a.drop_last()[i],
        b.drop_last()[i],
    ) by {
        assert(alike(a[i], b[i]));
    }
}

proof fn lift_pruned<A: Arithmetic>(
    m: &A,
    other: Seq<RnntPath>,
    config: BeamConfig,
    other_pruned: Seq<RnntPath>,
    beam: Seq<RnntPath>,
) -> (pruned: Seq<RnntPath>)
    requires
        rnnt_beam::pruned_is(m, other, config, other_pruned),
        beams_alike(beam, other),
    ensures
        rnnt_beam::pruned_is(m, beam, config, pruned),
        beams_alike(pruned, other_pruned),
{
    let (keys, order) = choose|keys: Seq<Bits>, order: Seq<usize>|
        {
            &&& #[trigger] rnnt_beam::keys_are(m, other, config.length_penalty, keys)
            &&& #[trigger] ranking::is_top(keys, config.beam_size as nat, order)
            &&& other_pruned == ranking::pick(other, order)
        };
    assert forall|i: int| 0 <= i < beam.len() implies arithmetic::length_normalized_score_is(
        m,
        beam[i].score,
        beam[i].tokens.len(),
        config.length_penalty,
        #[trigger] keys[i],
    ) by {
        assert(alike(beam[i], other[i]));
    }
    assert(rnnt_beam::keys_are(m, beam, config.length_penalty, keys));
    let pruned = ranking::pick(beam, order);
    assert forall|i: int| 0 <= i < pruned.len() implies alike(
        #[trigger] pruned[i],
        other_pruned[i],
    ) by {
        assert(order[i] < beam.len());
        assert(alike(beam[order[i] as int], other[order[i] as int]));
    }
    pruned
}

proof fn lift_merged<A: Arithmetic>(
    m: &A,
    other: Seq<RnntPath>,
    other_merged: Seq<RnntPath>,
    all: Seq<RnntPath>,
) -> (merged: Seq<RnntPath>)
    requires
        rnnt_beam::merged_is(m, other, other_merged),
        beams_alike(all, other),
    ensures
        rnnt_beam::merged_is(m, all, merged),
        beams_alike(merged, other_merged),
    decreases other.len(),
{
    if other.len() == 0 {
        Seq::empty()
    } else {
        let (other_held, at, score) = choose|held: Seq<RnntPath>, at: int, score: Bits|
            rnnt_beam::merged_is(m, other.drop_last(), held) && #[trigger] rnnt_beam::absorbs(
                m,
                held,
                other.last(),
                at,
                score,
                other_merged,
            );
        lemma_alike_front(all, other);
        let held = lift_merged(m, other.drop_last(), other_held, all.drop_last());
        let p = all.last();
        assert(rnnt_beam::is_place_of(held, p, at)) by {
            assert forall|j: int| 0 <= j < at implies !rnnt_beam::same_key(
                #[trigger] held[j],
                p,
            ) by {
                assert(alike(held[j], other_held[j]));
            }
            if at < held.len() {
                assert(alike(held[at], other_held[at]));
            }
        }
        let merged = if at < held.len() {
            held.update(at, RnntPath { score, ..held[at] })
        } else {
            held.push(p)
        };
        if at < held.len() {
            assert(alike(held[at], other_held[at]));
        }
        assert(rnnt_beam::absorbs(m, held, p, at, score, merged));
        assert forall|i: int| 0 <= i < merged.len() implies alike(
            #[trigger] merged[i],
            other_merged[i],
        ) by {
            if i < held.len() {
                assert(alike(held[i], other_held[i]));
            }
        }
        merged
    }
}

proof fn lemma_on_frame_alike(a: Seq<RnntPath>, b: Seq<RnntPath>, t: usize)
    requires
        beams_alike(a, b),
    ensures
        beams_alike(rnnt_beam::on_frame(a, t), rnnt_beam::on_frame(b, t)),
    decreases a.len(),
{
    if a.len() > 0 {
        lemma_alike_front(a, b);
        lemma_on_frame_alike(a.drop_last(), b.drop_last(), t);
        let x = rnnt_beam::on_frame(a, t);
        let y = rnnt_beam::on_frame(b, t);
        let x_rest = rnnt_beam::on_frame(a.drop_last(), t);
        let y_rest = rnnt_beam::on_frame(b.drop_last(), t);
        assert forall|i: int| 0 <= i < x.len() implies alike(#[trigger] x[i], y[i]) by {
            if i < x_rest.len() {
                assert(alike(x_rest[i], y_rest[i]));
            }
        }
    }
}

proof fn lemma_children_alike(
    p: RnntPath,
    q: RnntPath,
    x: RnntExpansion,
    n: nat,
    blank_id: usize,
    next_frame: usize,
    at: usize,
)
    requires
        alike(p, q),
    ensures
        beams_alike(
            rnnt_beam::blanks_of(p, x, n, blank_id, next_frame),
            rnnt_beam::blanks_of(q, x, n, blank_id, next_frame),
        ),
        beams_alike(
            rnnt_beam::symbols_of(p, x, n, blank_id, at),
            rnnt_beam::symbols_of(q, x, n, blank_id, at),
        ),
    decreases n,
{
    if n > 0 {
        lemma_children_alike(p, q, x, (n - 1) as nat, blank_id, next_frame, at);
    }
}

proof fn lemma_joined_alike(a: Seq<RnntPath>, b: Seq<RnntPath>, c: Seq<RnntPath>, d: Seq<RnntPath>)
    requires
        beams_alike(a, b),
        beams_alike(c, d),
    ensures
        beams_alike(a + c, b + d),
{
    assert forall|i: int| 0 <= i < (a + c).len() implies alike(
        #[trigger] (a + c)[i],
        (b + d)[i],
    ) by {
        if i < a.len() {
            assert(alike(a[i], b[i]));
        } else {
            assert(alike(c[i - a.len()], d[i - a.len()]));
        }
    }
}

proof fn lemma_transcripts_join(
    root: Seq<(usize, usize)>,
    first: Seq<(usize, usize)>,
    best: Seq<(usize, usize)>,
    second: Seq<(usize, usize)>,
    last: Seq<(usize, usize)>,
)
    requires
        best == root + first,
        best.len() <= last.len(),
        last.take(best.len() as int) == best,
        second == last.skip(best.len() as int),
    ensures
        last == root + first + second,
{
    assert(last =~= last.take(best.len() as int) + last.skip(best.len() as int));
}

impl<'a, A: Arithmetic, D: Fn(&Tensor3, i32, &Tensor3, &Tensor3) -> Result<RnntStep, Error>>
    RnntContext<'a, A, D> {
    proof fn lift_expanded(
        self,
        frame: Tensor3,
        t: usize,
        at: usize,
        other: Seq<RnntPath>,
        other_held: Seq<RnntPath>,
        other_advanced: Seq<RnntPath>,
        other_symbols: Seq<RnntPath>,
        active: Seq<RnntPath>,
        held: Seq<RnntPath>,
    ) -> (r: (Seq<RnntPath>, Seq<RnntPath>))
        requires
            self.all_expanded(frame, t, at, other, other_held, other_advanced, other_symbols),
            beams_alike(active, other),
            beams_alike(held, other_held),
        ensures
            self.all_expanded(frame, t, at, active, held, r.0, r.1),
            beams_alike(r.0, other_advanced),
            beams_alike(r.1, other_symbols),
        decreases other.len(),
    {
        if other.len() == 0 {
            (held, Seq::empty())
        } else {
            let (oa, os, x) = choose|a: Seq<RnntPath>, s: Seq<RnntPath>, x: RnntExpansion|
                self.all_expanded(frame, t, at, other.drop_last(), other_held, a, s)
                    && #[trigger] self.expands(
                    frame,
                    t,
                    at,
                    other.last(),
                    x,
                    a,
                    s,
                    other_advanced,
                    other_symbols,
                );
            lemma_alike_front(active, other);
            let (a, s) = self.lift_expanded(
                frame,
                t,
                at,
                other.drop_last(),
                other_held,
                oa,
                os,
                active.drop_last(),
                held,
            );
            let p = active.last();
            let n = x.order.len();
            let next_frame = (t + 1) as usize;
            lemma_children_alike(p, other.last(), x, n, self.blank_id, next_frame, at);
            let advanced = a + rnnt_beam::blanks_of(p, x, n, self.blank_id, next_frame);
            let symbols = s + rnnt_beam::symbols_of(p, x, n, self.blank_id, at);
            lemma_joined_alike(
                a,
                oa,
                rnnt_beam::blanks_of(p, x, n, self.blank_id, next_frame),
                rnnt_beam::blanks_of(other.last(), x, n, self.blank_id, next_frame),
            );
            lemma_joined_alike(
                s,
                os,
                rnnt_beam::symbols_of(p, x, n, self.blank_id, at),
                rnnt_beam::symbols_of(other.last(), x, n, self.blank_id, at),
            );
            assert(self.expands(frame, t, at, p, x, a, s, advanced, symbols));
            (advanced, symbols)
        }
    }

    proof fn lift_rounds(
        self,
        frame: Tensor3,
        t: usize,
        at: usize,
        n: nat,
        other: Seq<RnntPath>,
        other_active: Seq<RnntPath>,
        other_advanced: Seq<RnntPath>,
        entered: Seq<RnntPath>,
    ) -> (r: (Seq<RnntPath>, Seq<RnntPath>))
        requires
            self.symbol_rounds(frame, t, at, n, other, other_active, other_advanced),
            beams_alike(entered, other),
        ensures
            self.symbol_rounds(frame, t, at, n, entered, r.0, r.1),
            beams_alike(r.0, other_active),
            beams_alike(r.1, other_advanced),
        decreases n,
    {
        if n == 0 {
            (entered, Seq::empty())
        } else {
            let (oa, od) = choose|a: Seq<RnntPath>, d: Seq<RnntPath>|
                self.symbol_rounds(frame, t, at, (n - 1) as nat, other, a, d)
                    && #[trigger] self.symbol_round(
                    frame,
                    t,
                    at,
                    a,
                    d,
                    other_active,
                    other_advanced,
                );
            let (a, d) = self.lift_rounds(
                frame,
                t,
                at,
                (n - 1) as nat,
                other,
                oa,
                od,
                entered,
            );
            if oa.len() == 0 {
                assert(self.symbol_round(frame, t, at, a, d, a, d));
                (a, d)
            } else {
                let (other_symbols, other_merged) = choose|
                    symbols: Seq<RnntPath>,
                    merged: Seq<RnntPath>,
                |
                    {
                        &&& self.all_expanded(frame, t, at, oa, od, other_advanced, symbols)
                        &&& #[trigger] rnnt_beam::merged_is(self.arithmetic, symbols, merged)
                        &&& rnnt_beam::pruned_is(
                            self.arithmetic,
                            merged,
                            self.config,
                            other_active,
                        )
                    };
                let (advanced, symbols) = self.lift_expanded(
                    frame,
                    t,
                    at,
                    oa,
                    od,
                    other_advanced,
                    other_symbols,
                    a,
                    d,
                );
                let merged = lift_merged(self.arithmetic, other_symbols, other_merged, symbols);
                let active = lift_pruned(
                    self.arithmetic,
                    other_merged,
                    self.config,
                    other_active,
                    merged,
                );
                assert(self.symbol_round(frame, t, at, a, d, active, advanced));
                (active, advanced)
            }
        }
    }

    proof fn lift_forced(
        self,
        frame: Tensor3,
        t: usize,
        other: Seq<RnntPath>,
        other_held: Seq<RnntPath>,
        other_advanced: Seq<RnntPath>,
        active: Seq<RnntPath>,
        held: Seq<RnntPath>,
    ) -> (advanced: Seq<RnntPath>)
        requires
            self.all_forced(frame, t, other, other_held, other_advanced),
            beams_alike(active, other),
            beams_alike(held, other_held),
        ensures
            self.all_forced(frame, t, active, held, advanced),
            beams_alike(advanced, other_advanced),
        decreases other.len(),
    {
        if other.len() == 0 {
            held
        } else {
            let (od, x, score) = choose|d: Seq<RnntPath>, x: RnntExpansion, score: Bits|
                self.all_forced(frame, t, other.drop_last(), other_held, d)
                    && #[trigger] self.forces(
                    frame,
                    t,
                    other.last(),
                    x,
                    score,
                    d,
                    other_advanced,
                );
            lemma_alike_front(active, other);
            let d = self.lift_forced(
                frame,
                t,
                other.drop_last(),
                other_held,
                od,
                active.drop_last(),
                held,
            );
            let advanced = d.push(
                rnnt_beam::after_blank(active.last(), score, (t + 1) as usize),
            );
            assert(self.forces(frame, t, active.last(), x, score, d, advanced));
            assert forall|i: int| 0 <= i < advanced.len() implies alike(
                #[trigger] advanced[i],
                other_advanced[i],
            ) by {
                if i < d.len() {
                    assert(alike(d[i], od[i]));
                }
            }
            advanced
        }
    }

    proof fn lift_frame(
        self,
        t: usize,
        at: usize,
        other: Seq<RnntPath>,
        other_next: Seq<RnntPath>,
        beam: Seq<RnntPath>,
    ) -> (next: Seq<RnntPath>)
        requires
            self.frame_is(t, at, other, other_next),
            beams_alike(beam, other),
        ensures
            self.frame_is(t, at, beam, next),
            beams_alike(next, other_next),
    {
        let v = choose|w: RnntFrameTrace| #[trigger]
            self.frame_traced(t, at, other, w, other_next);
        lemma_on_frame_alike(beam, other, t);
        let entered = lift_pruned(
            self.arithmetic,
            rnnt_beam::on_frame(other, t),
            self.config,
            v.entered,
            rnnt_beam::on_frame(beam, t),
        );
        let (active, advanced) = self.lift_rounds(
            v.frame,
            t,
            at,
            self.config.max_symbols_per_step as nat,
            v.entered,
            v.active,
            v.advanced,
            entered,
        );
        let all = self.lift_forced(v.frame, t, v.active, v.advanced, v.all, active, advanced);
        let merged = lift_merged(self.arithmetic, v.all, v.merged, all);
        let next = lift_pruned(self.arithmetic, v.merged, self.config, other_next, merged);
        let w = RnntFrameTrace { frame: v.frame, entered, active, advanced, all, merged };
        assert(self.frame_traced(t, at, beam, w, next));
        next
    }

    proof fn lift_frames(
        self,
        shift: int,
        start: int,
        end: int,
        other: Seq<RnntPath>,
        other_next: Seq<RnntPath>,
        beam: Seq<RnntPath>,
    ) -> (next: Seq<RnntPath>)
        requires
            self.frames_are(shift, start, end, other, other_next),
            beams_alike(beam, other),
        ensures
            self.frames_are(shift, start, end, beam, next),
            beams_alike(next, other_next),
        decreases end - start,
    {
        if end <= start {
            beam
        } else {
            let other_mid = choose|mid: Seq<RnntPath>|
                self.frames_are(shift, start, end - 1, other, mid) && #[trigger] self.frame_is(
                    (end - 1) as usize,
                    (end - 1 + shift) as usize,
                    mid,
                    other_next,
                );
            let mid = self.lift_frames(shift, start, end - 1, other, other_mid, beam);
            self.lift_frame(
                (end - 1) as usize,
                (end - 1 + shift) as usize,
                other_mid,
                other_next,
                mid,
            )
        }
    }

    /// Frames decoded in a row are decoded as one range.
    pub proof fn law_ranges_join(
        self,
        shift: int,
        start: int,
        middle: int,
        end: int,
        beam: Seq<RnntPath>,
        mid: Seq<RnntPath>,
        next: Seq<RnntPath>,
    )
        requires
            start <= middle <= end,
            self.frames_are(shift, start, middle, beam, mid),
            self.frames_are(shift, middle, end, mid, next),
        ensures
            self.frames_are(shift, start, end, beam, next),
        decreases end - middle,
    {
        if middle < end {
            let before = choose|before: Seq<RnntPath>|
                self.frames_are(shift, middle, end - 1, mid, before) && #[trigger] self.frame_is(
                    (end - 1) as usize,
                    (end - 1 + shift) as usize,
                    before,
                    next,
                );
            self.law_ranges_join(shift, start, middle, end - 1, beam, mid, before);
        }
    }

    /// Decoding in chunks is decoding in one pass: where the survivors of a pass
    /// over the frames from `start` up to `middle` are carried into a pass over
    /// those up to `end`, the second pass ends with what a single pass over all
    /// the frames may end with, the best hypothesis and its whole transcript
    /// with it. Only the counts of tokens emitted before differ.
    pub proof fn law_chunks_match_a_single_pass(
        self,
        start: usize,
        middle: usize,
        end: usize,
        offset: usize,
        carried: Seq<RnntPath>,
        first: RnntBeamOutput,
        second: RnntBeamOutput,
    )
        requires
            start <= middle <= end,
            offset + (end - start) <= usize::MAX,
            self.decodes(start, middle, offset, carried, first),
            first.hypotheses@.len() > 0,
            self.decodes(
                middle,
                end,
                (offset + (middle - start)) as usize,
                rnnt_beam::paths(first.hypotheses@),
                second,
            ),
        ensures
            exists|beam: Seq<RnntPath>, next: Seq<RnntPath>, best: Option<RnntPath>|
                {
                    &&& #[trigger] rnnt_beam::enters(carried, self.blank_id, start, beam)
                    &&& #[trigger] self.frames_are(
                        offset - start,
                        start as int,
                        end as int,
                        beam,
                        next,
                    )
                    &&& beams_alike(next, rnnt_beam::paths(second.hypotheses@))
                    &&& #[trigger] rnnt_beam::best_is(
                        self.arithmetic,
                        next,
                        self.config.length_penalty,
                        best,
                    )
                    &&& match best {
                        None => second.best_hypothesis is None,
                        Some(p) => second.best_hypothesis is Some && alike(
                            p,
                            second.best_hypothesis->0@,
                        ),
                    }
                },
    {
        let shift = offset - start;
        let survivors = rnnt_beam::paths(first.hypotheses@);
        let finals = rnnt_beam::paths(second.hypotheses@);
        let penalty = self.config.length_penalty;
        let beam = choose|beam: Seq<RnntPath>|
            {
                &&& #[trigger] rnnt_beam::enters(carried, self.blank_id, start, beam)
                &&& self.frames_are(shift, start as int, middle as int, beam, survivors)
            };
        let entered = choose|entered: Seq<RnntPath>|
            {
                &&& #[trigger] rnnt_beam::enters(survivors, self.blank_id, middle, entered)
                &&& self.frames_are(
                    (offset + (middle - start)) as usize - middle,
                    middle as int,
                    end as int,
                    entered,
                    finals,
                )
            };
        assert(entered == rnnt_beam::committed(survivors));
        assert forall|i: int| 0 <= i < survivors.len() implies alike(
            #[trigger] survivors[i],
            entered[i],
        ) by {}
        let next = self.lift_frames(
            shift,
            middle as int,
            end as int,
            entered,
            finals,
            survivors,
        );
        self.law_ranges_join(
            shift,
            start as int,
            middle as int,
            end as int,
            beam,
            survivors,
            next,
        );
        let other_best = rnnt_beam::optional_path(second.best_hypothesis);
        let best = if finals.len() == 0 {
            None
        } else {
            let keys = choose|keys: Seq<Bits>|
                {
                    &&& #[trigger] rnnt_beam::keys_are(self.arithmetic, finals, penalty, keys)
                    &&& other_best == Some(finals[ranking::last_max(keys)])
                };
            ranking::lemma_last_max_bounds(keys);
            assert forall|i: int| 0 <= i < next.len() implies
                arithmetic::length_normalized_score_is(
                self.arithmetic,
                next[i].score,
                next[i].tokens.len(),
                penalty,
                #[trigger] keys[i],
            ) by {
                assert(alike(next[i], finals[i]));
            }
            assert(rnnt_beam::keys_are(self.arithmetic, next, penalty, keys));
            assert(alike(
                next[ranking::last_max(keys)],
                finals[ranking::last_max(keys)],
            ));
            Some(next[ranking::last_max(keys)])
        };
        assert(rnnt_beam::best_is(self.arithmetic, next, penalty, best));
    }

    /// The tokens of two chunks join: where the best hypothesis of the second
    /// pass goes on from the best of the first, its transcript is what the first
    /// pass started from, the new tokens of the first pass, and those of the
    /// second.
    pub proof fn law_new_tokens_of_chunks_join(
        self,
        start: usize,
        middle: usize,
        end: usize,
        offset: usize,
        carried: Seq<RnntPath>,
        first: RnntBeamOutput,
        second: RnntBeamOutput,
    )
        requires
            start <= middle <= end,
            offset + (end - start) <= usize::MAX,
            forall|i: int|
                0 <= i < carried.len() ==> (#[trigger] carried[i]).tokens.len() <= usize::MAX,
            self.decodes(start, middle, offset, carried, first),
            self.decodes(
                middle,
                end,
                (offset + (middle - start)) as usize,
                rnnt_beam::paths(first.hypotheses@),
                second,
            ),
            first.best_hypothesis is Some,
            second.best_hypothesis is Some,
            rnnt_laws::continues(
                second.best_hypothesis->0@,
                rnnt_beam::committed(seq![first.best_hypothesis->0@])[0],
                self.blank_id,
                offset + (middle - start),
                offset + (end - start),
                self.config.max_symbols_per_step as nat,
            ),
        ensures
            exists|beam: Seq<RnntPath>, k: int|
                {
                    &&& #[trigger] rnnt_beam::enters(carried, self.blank_id, start, beam)
                    &&& 0 <= k < beam.len()
                    &&& second.best_hypothesis->0.tokens@ == (#[trigger] beam[k]).tokens
                        + first.new_tokens@ + second.new_tokens@
                },
    {
        self.law_new_tokens_are_those_of_the_pass(start, middle, offset, carried, first);
        let best = first.best_hypothesis->0@;
        let last = second.best_hypothesis->0@;
        let (beam, k) = choose|beam: Seq<RnntPath>, k: int|
            {
                &&& #[trigger] rnnt_beam::enters(carried, self.blank_id, start, beam)
                &&& 0 <= k < beam.len()
                &&& start < middle ==> beam[k].frame == start
                &&& best.tokens == beam[k].tokens + first.new_tokens@
                &&& #[trigger] rnnt_laws::continues(
                    best,
                    beam[k],
                    self.blank_id,
                    offset as int,
                    offset + (middle - start),
                    self.config.max_symbols_per_step as nat,
                )
            };
        let committed = rnnt_beam::committed(seq![best])[0];
        assert(committed.tokens == best.tokens);
        assert(best.tokens.len() <= usize::MAX) by {
            assert(first.best_hypothesis->0.tokens.len() <= usize::MAX);
        }
        assert(last.prev_token_count == best.tokens.len());
        lemma_transcripts_join(
            beam[k].tokens,
            first.new_tokens@,
            best.tokens,
            second.new_tokens@,
            last.tokens,
        );
    }
}

} // verus!
