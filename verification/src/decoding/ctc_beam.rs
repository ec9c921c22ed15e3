//! CTC decoding of a logit matrix: prefix beam search, and greedy search with
//! collapse.
//!
//! A prefix is held with two log-probabilities: that of the label paths that end
//! in a blank, and that of those that do not. Every frame hands each prefix on,
//! by a blank or by one of the best labels, and what arrives at the same prefix
//! is added up.
use vstd::prelude::*;
use crate::arithmetic;
use crate::arithmetic::{log_softmax, log_sum_exp, Arithmetic};
use crate::decoding::BeamConfig;
use crate::ranking;
use crate::ranking::{max_index, top_k_indices};
use crate::single::{Bits, NEG_INFINITY, ZERO};
use crate::tensor;
use crate::tensor::Tensor2;

verus! {

/// A prefix of the beam.
#[derive(Debug)]
pub struct CtcBeamEntry {
    /// The token ids of the prefix.
    pub prefix: Vec<u32>,
    /// Log-probability of the label paths that end in a blank.
    pub log_pb: Bits,
    /// Log-probability of the label paths that do not.
    pub log_pnb: Bits,
}

/// What an entry holds.
pub struct CtcPrefix {
    pub prefix: Seq<u32>,
    pub log_pb: Bits,
    pub log_pnb: Bits,
}

impl View for CtcBeamEntry {
    type V = CtcPrefix;

    open spec fn view(&self) -> CtcPrefix {
        CtcPrefix { prefix: self.prefix@, log_pb: self.log_pb, log_pnb: self.log_pnb }
    }
}

/// What each of a row of entries holds.
pub open spec fn prefixes(entries: Seq<CtcBeamEntry>) -> Seq<CtcPrefix> {
    Seq::new(entries.len(), |i: int| entries[i]@)
}

/// What a frame adds to a prefix: a log-probability for label paths that end in
/// a blank, or for those that do not.
pub struct CtcGain {
    pub prefix: Seq<u32>,
    pub ends_in_blank: bool,
    pub value: Bits,
}

/// `score` is what the log-probability of the prefix, over all its label paths,
/// may come to.
pub open spec fn prefix_score_is<A: Arithmetic>(m: &A, e: CtcPrefix, score: Bits) -> bool {
    arithmetic::log_sum_exp_is(m, e.log_pb, e.log_pnb, score)
}

/// `r` is what the log-probability of the prefix and of one more label may come
/// to.
pub open spec fn handed_on_is<A: Arithmetic>(m: &A, e: CtcPrefix, log_p: Bits, r: Bits) -> bool {
    exists|score: Bits| #[trigger]
        prefix_score_is(m, e, score) && arithmetic::sum_is(m, score, log_p, r)
}

/// The last token of the prefix is `token`.
pub open spec fn ends_with(prefix: Seq<u32>, token: u32) -> bool {
    prefix.len() > 0 && prefix.last() == token
}

/// `gain` is what a blank may add to the prefix itself.
pub open spec fn is_blank_gain<A: Arithmetic>(
    m: &A,
    e: CtcPrefix,
    log_p_blank: Bits,
    gain: CtcGain,
) -> bool {
    &&& gain.prefix == e.prefix
    &&& gain.ends_in_blank
    &&& handed_on_is(m, e, log_p_blank, gain.value)
}

/// `gains` is `before` with what the label `token` may add to `e` behind. A
/// label that repeats the last token adds twice: to the prefix itself from the
/// paths that end in that token, whose run it lengthens, and to the longer prefix
/// from the paths that end in a blank, which keeps the two apart. Where no path
/// ends in a blank there is nothing to add to the longer prefix. Any other label
/// adds to the longer prefix from every path.
pub open spec fn label_adds<A: Arithmetic>(
    m: &A,
    e: CtcPrefix,
    token: u32,
    log_p: Bits,
    before: Seq<CtcGain>,
    gains: Seq<CtcGain>,
) -> bool {
    let k = before.len() as int;
    &&& gains.len() >= k
    &&& gains.take(k) == before
    &&& if ends_with(e.prefix, token) {
        &&& gains.len() == k + if e.log_pb == NEG_INFINITY {
            1int
        } else {
            2int
        }
        &&& gains[k].prefix == e.prefix
        &&& !gains[k].ends_in_blank
        &&& arithmetic::sum_is(m, e.log_pnb, log_p, gains[k].value)
        &&& e.log_pb != NEG_INFINITY ==> {
            &&& gains[k + 1].prefix == e.prefix.push(token)
            &&& !gains[k + 1].ends_in_blank
            &&& arithmetic::sum_is(m, e.log_pb, log_p, gains[k + 1].value)
        }
    } else {
        &&& gains.len() == k + 1
        &&& gains[k].prefix == e.prefix.push(token)
        &&& !gains[k].ends_in_blank
        &&& handed_on_is(m, e, log_p, gains[k].value)
    }
}

/// `gains` is `held` with what the first `n` labels may add to `e` behind; the
/// blank among them is left out.
pub open spec fn labels_add<A: Arithmetic>(
    m: &A,
    e: CtcPrefix,
    log_probs: Seq<Bits>,
    labels: Seq<usize>,
    n: nat,
    blank_id: usize,
    held: Seq<CtcGain>,
    gains: Seq<CtcGain>,
) -> bool
    decreases n,
{
    if n == 0 {
        gains == held
    } else if labels[n - 1] == blank_id {
        labels_add(m, e, log_probs, labels, (n - 1) as nat, blank_id, held, gains)
    } else {
        exists|before: Seq<CtcGain>|
            {
                &&& labels_add(m, e, log_probs, labels, (n - 1) as nat, blank_id, held, before)
                &&& #[trigger] label_adds(
                    m,
                    e,
                    labels[n - 1] as u32,
                    log_probs[labels[n - 1] as int],
                    before,
                    gains,
                )
            }
    }
}

/// `gains` is `held` with what a frame may add from `e` behind: by a blank, and
/// by each label.
pub open spec fn entry_adds<A: Arithmetic>(
    m: &A,
    e: CtcPrefix,
    log_probs: Seq<Bits>,
    labels: Seq<usize>,
    blank_id: usize,
    held: Seq<CtcGain>,
    gains: Seq<CtcGain>,
) -> bool {
    exists|blank_gain: CtcGain|
        {
            &&& #[trigger] is_blank_gain(m, e, log_probs[blank_id as int], blank_gain)
            &&& labels_add(
                m,
                e,
                log_probs,
                labels,
                labels.len(),
                blank_id,
                held.push(blank_gain),
                gains,
            )
        }
}

/// `gains` lists what a frame may add from every entry of the beam, in order.
pub open spec fn beam_adds<A: Arithmetic>(
    m: &A,
    beam: Seq<CtcPrefix>,
    log_probs: Seq<Bits>,
    labels: Seq<usize>,
    blank_id: usize,
    gains: Seq<CtcGain>,
) -> bool
    decreases beam.len(),
{
    if beam.len() == 0 {
        gains.len() == 0
    } else {
        exists|held: Seq<CtcGain>|
            {
                &&& beam_adds(m, beam.drop_last(), log_probs, labels, blank_id, held)
                &&& #[trigger] entry_adds(
                    m,
                    beam.last(),
                    log_probs,
                    labels,
                    blank_id,
                    held,
                    gains,
                )
            }
    }
}

/// `i` is the first place in `held` with the given prefix, or its length where
/// there is none.
pub open spec fn is_place_of(held: Seq<CtcPrefix>, prefix: Seq<u32>, i: int) -> bool {
    &&& 0 <= i <= held.len()
    &&& forall|j: int| 0 <= j < i ==> (#[trigger] held[j]).prefix != prefix
    &&& i < held.len() ==> held[i].prefix == prefix
}

/// An entry without a label path.
pub open spec fn empty_entry(prefix: Seq<u32>) -> CtcPrefix {
    CtcPrefix { prefix, log_pb: NEG_INFINITY, log_pnb: NEG_INFINITY }
}

/// `after` is what taking in `gain` may leave of `e`.
pub open spec fn gains_to<A: Arithmetic>(
    m: &A,
    e: CtcPrefix,
    gain: CtcGain,
    after: CtcPrefix,
) -> bool {
    if gain.ends_in_blank {
        &&& arithmetic::log_sum_exp_is(m, e.log_pb, gain.value, after.log_pb)
        &&& after == (CtcPrefix { log_pb: after.log_pb, ..e })
    } else {
        &&& arithmetic::log_sum_exp_is(m, e.log_pnb, gain.value, after.log_pnb)
        &&& after == (CtcPrefix { log_pnb: after.log_pnb, ..e })
    }
}

/// `next` is `held` after taking in `gain`, at the entry of its prefix or at a
/// new one that comes last.
pub open spec fn absorbs<A: Arithmetic>(
    m: &A,
    held: Seq<CtcPrefix>,
    gain: CtcGain,
    i: int,
    after: CtcPrefix,
    next: Seq<CtcPrefix>,
) -> bool {
    &&& is_place_of(held, gain.prefix, i)
    &&& if i < held.len() {
        gains_to(m, held[i], gain, after) && next == held.update(i, after)
    } else {
        gains_to(m, empty_entry(gain.prefix), gain, after) && next == held.push(after)
    }
}

/// `entries` is what all `gains` may add up to, in the order in which prefixes
/// first occur.
pub open spec fn added_up<A: Arithmetic>(
    m: &A,
    gains: Seq<CtcGain>,
    entries: Seq<CtcPrefix>,
) -> bool
    decreases gains.len(),
{
    if gains.len() == 0 {
        entries.len() == 0
    } else {
        exists|held: Seq<CtcPrefix>, i: int, after: CtcPrefix|
            added_up(m, gains.drop_last(), held) && #[trigger] absorbs(
                m,
                held,
                gains.last(),
                i,
                after,
                entries,
            )
    }
}

/// `keys` holds what the log-probabilities of the prefixes may come to.
pub open spec fn keys_are<A: Arithmetic>(m: &A, beam: Seq<CtcPrefix>, keys: Seq<Bits>) -> bool {
    &&& keys.len() == beam.len()
    &&& forall|i: int|
        0 <= i < beam.len() ==> prefix_score_is(m, beam[i], #[trigger] keys[i])
}

/// `pruned` is the best `beam_size` entries, best first.
pub open spec fn pruned_is<A: Arithmetic>(
    m: &A,
    beam: Seq<CtcPrefix>,
    beam_size: usize,
    pruned: Seq<CtcPrefix>,
) -> bool {
    exists|keys: Seq<Bits>, order: Seq<usize>|
        {
            &&& #[trigger] keys_are(m, beam, keys)
            &&& #[trigger] ranking::is_top(keys, beam_size as nat, order)
            &&& pruned == ranking::pick(beam, order)
        }
}

/// How one frame was decoded.
pub struct CtcFrameTrace {
    /// The log-probabilities of the labels.
    pub log_probs: Seq<Bits>,
    /// The best labels.
    pub labels: Seq<usize>,
    /// What the frame adds.
    pub gains: Seq<CtcGain>,
    /// What that adds up to.
    pub entries: Seq<CtcPrefix>,
}

/// A frame with the given logits, decoded along the trace `w`, leads from `beam`
/// to `next`.
pub open spec fn frame_traced<A: Arithmetic>(
    m: &A,
    logits: Seq<Bits>,
    blank_id: usize,
    beam_size: usize,
    beam: Seq<CtcPrefix>,
    w: CtcFrameTrace,
    next: Seq<CtcPrefix>,
) -> bool {
    &&& arithmetic::log_softmax_is(m, logits, w.log_probs)
    &&& ranking::is_top(w.log_probs, beam_size as nat, w.labels)
    &&& beam_adds(m, beam, w.log_probs, w.labels, blank_id, w.gains)
    &&& added_up(m, w.gains, w.entries)
    &&& pruned_is(m, w.entries, beam_size, next)
}

/// A frame with the given logits may lead from `beam` to `next`.
pub open spec fn frame_is<A: Arithmetic>(
    m: &A,
    logits: Seq<Bits>,
    blank_id: usize,
    beam_size: usize,
    beam: Seq<CtcPrefix>,
    next: Seq<CtcPrefix>,
) -> bool {
    exists|w: CtcFrameTrace| #[trigger]
        frame_traced(m, logits, blank_id, beam_size, beam, w, next)
}

/// The beam before the first frame: the empty prefix, after a blank.
pub open spec fn first_beam() -> Seq<CtcPrefix> {
    seq![CtcPrefix { prefix: Seq::empty(), log_pb: ZERO, log_pnb: NEG_INFINITY }]
}

/// `beam` is what the first `t` frames may lead to.
pub open spec fn beam_after<A: Arithmetic>(
    m: &A,
    logits: Tensor2,
    blank_id: usize,
    beam_size: usize,
    t: nat,
    beam: Seq<CtcPrefix>,
) -> bool
    decreases t,
{
    if t == 0 {
        beam == first_beam()
    } else {
        exists|before: Seq<CtcPrefix>|
            {
                &&& beam_after(m, logits, blank_id, beam_size, (t - 1) as nat, before)
                &&& #[trigger] frame_is(
                    m,
                    tensor::row_items(logits, t - 1),
                    blank_id,
                    beam_size,
                    before,
                    beam,
                )
            }
    }
}

/// The beam holds at least one prefix.
pub open spec fn effective_beam_size(config: BeamConfig) -> usize {
    if config.beam_size == 0 {
        1
    } else {
        config.beam_size
    }
}

/// `tokens` is the prefix that the search may end on: the most probable of the
/// last beam, the last one among equals. Nothing is decoded from no frames.
pub open spec fn decodes<A: Arithmetic>(
    m: &A,
    logits: Tensor2,
    blank_id: usize,
    config: BeamConfig,
    tokens: Seq<u32>,
) -> bool {
    if tensor::tensor2_shape(logits).0 == 0 {
        tokens.len() == 0
    } else {
        exists|beam: Seq<CtcPrefix>, keys: Seq<Bits>|
            {
                &&& beam_after(
                    m,
                    logits,
                    blank_id,
                    effective_beam_size(config),
                    tensor::tensor2_shape(logits).0 as nat,
                    beam,
                )
                &&& #[trigger] keys_are(m, beam, keys)
                &&& if beam.len() == 0 {
                    tokens.len() == 0
                } else {
                    tokens == beam[ranking::last_max(keys)].prefix
                }
            }
    }
}

/// The tokens of a label path: repeats are merged and blanks removed. A blank
/// between two equal labels keeps them apart.
pub open spec fn collapsed(path: Seq<u32>, blank: u32) -> Seq<u32>
    decreases path.len(),
{
    if path.len() == 0 {
        Seq::empty()
    } else {
        let rest = collapsed(path.drop_last(), blank);
        if path.last() == blank || ends_with(path.drop_last(), path.last()) {
            rest
        } else {
            rest.push(path.last())
        }
    }
}

/// The best label of every row, the last one among equals; label 0 where a row
/// is empty.
pub open spec fn greedy_path(logits: Tensor2) -> Seq<u32> {
    Seq::new(
        tensor::tensor2_shape(logits).0 as nat,
        |t: int|
            if tensor::tensor2_shape(logits).1 == 0 {
                0u32
            } else {
                ranking::last_max(tensor::row_items(logits, t)) as u32
            },
    )
}

/// Merges repeats and removes blanks.
pub fn ctc_collapse(token_ids: &Vec<u32>, blank_id: usize) -> (r: Vec<u32>)
    ensures
        r@ == collapsed(token_ids@, blank_id as u32),
{
    let blank: u32 = blank_id as u32;
    let mut r: Vec<u32> = Vec::new();
    let mut prev: Option<u32> = None;
    let mut i: usize = 0;
    while i < token_ids.len()
        invariant
            blank == blank_id as u32,
            i <= token_ids@.len(),
            r@ == collapsed(token_ids@.take(i as int), blank),
            i == 0 ==> prev is None,
            i > 0 ==> prev == Some(token_ids@[i - 1]),
        decreases token_ids@.len() - i,
    {
        let token: u32 = token_ids[i];
        assert(token_ids@.take(i + 1).drop_last() =~= token_ids@.take(i as int));
        let repeats: bool = match prev {
            None => false,
            Some(p) => p == token,
        };
        if token != blank && !repeats {
            r.push(token);
        }
        prev = Some(token);
        i = i + 1;
    }
    assert(token_ids@.take(i as int) =~= token_ids@);
    r
}

/// The best label of every frame, collapsed.
pub fn decode_ctc_greedy(logits: &Tensor2, blank_id: usize) -> (r: Vec<u32>)
    ensures
        r@ == collapsed(greedy_path(*logits), blank_id as u32),
{
    let (frames, _) = logits.shape();
    let mut path: Vec<u32> = Vec::new();
    let mut t: usize = 0;
    while t < frames
        invariant
            frames == tensor::tensor2_shape(*logits).0,
            t <= frames,
            path@ == greedy_path(*logits).take(t as int),
        decreases frames - t,
    {
        let row = logits.row_values(t);
        let best: usize = match max_index(&row) {
            None => 0,
            Some(i) => i,
        };
        path.push(best as u32);
        t = t + 1;
        assert(path@ =~= greedy_path(*logits).take(t as int));
    }
    assert(path@ =~= greedy_path(*logits));
    ctc_collapse(&path, blank_id)
}

/// A copy of a prefix.
fn copy_prefix(prefix: &Vec<u32>) -> (r: Vec<u32>)
    ensures
        r@ == prefix@,
{
    let mut r: Vec<u32> = Vec::new();
    let mut i: usize = 0;
    while i < prefix.len()
        invariant
            i <= prefix@.len(),
            r@ == prefix@.take(i as int),
        decreases prefix@.len() - i,
    {
        r.push(prefix[i]);
        i = i + 1;
        assert(r@ =~= prefix@.take(i as int));
    }
    assert(r@ =~= prefix@);
    r
}

/// Whether two prefixes are the same.
fn is_same_prefix(a: &Vec<u32>, b: &Vec<u32>) -> (r: bool)
    ensures
        r == (a@ == b@),
{
    if a.len() != b.len() {
        return false;
    }
    let mut i: usize = 0;
    while i < a.len()
        invariant
            a@.len() == b@.len(),
            i <= a@.len(),
            forall|j: int| 0 <= j < i ==> #[trigger] a@[j] == b@[j],
        decreases a@.len() - i,
    {
        if a[i] != b[i] {
            return false;
        }
        i = i + 1;
    }
    assert(a@ =~= b@);
    true
}

/// The log-probability of a prefix, over all its label paths.
pub fn prefix_score<A: Arithmetic>(m: &A, entry: &CtcBeamEntry) -> (r: Bits)
    ensures
        prefix_score_is(m, entry@, r),
{
    log_sum_exp(m, entry.log_pb, entry.log_pnb)
}

/// Adds a log-probability to the entry of a prefix, which is made where there is
/// none.
pub fn merge_entry<A: Arithmetic>(
    m: &A,
    entries: &mut Vec<CtcBeamEntry>,
    prefix: Vec<u32>,
    ends_in_blank: bool,
    value: Bits,
)
    ensures
        exists|i: int, after: CtcPrefix| #[trigger]
            absorbs(
                m,
                prefixes(old(entries)@),
                (CtcGain { prefix: prefix@, ends_in_blank, value }),
                i,
                after,
                prefixes(final(entries)@),
            ),
{
    let ghost held = prefixes(entries@);
    let ghost gain = CtcGain { prefix: prefix@, ends_in_blank, value };
    let mut i: usize = 0;
    while i < entries.len() && !is_same_prefix(&entries[i].prefix, &prefix)
        invariant
            i <= entries@.len(),
            held == prefixes(entries@),
            gain == (CtcGain { prefix: prefix@, ends_in_blank, value }),
            forall|j: int| 0 <= j < i ==> (#[trigger] held[j]).prefix != gain.prefix,
        decreases entries@.len() - i,
    {
        i = i + 1;
    }
    if i == entries.len() {
        let mut entry = CtcBeamEntry { prefix, log_pb: NEG_INFINITY, log_pnb: NEG_INFINITY };
        if ends_in_blank {
            entry.log_pb = log_sum_exp(m, entry.log_pb, value);
        } else {
            entry.log_pnb = log_sum_exp(m, entry.log_pnb, value);
        }
        let ghost after = entry@;
        entries.push(entry);
        assert(prefixes(entries@) =~= held.push(after));
        assert(absorbs(m, held, gain, i as int, after, prefixes(entries@)));
    } else {
        if ends_in_blank {
            let sum: Bits = log_sum_exp(m, entries[i].log_pb, value);
            entries[i].log_pb = sum;
        } else {
            let sum: Bits = log_sum_exp(m, entries[i].log_pnb, value);
            entries[i].log_pnb = sum;
        }
        let ghost after = entries@[i as int]@;
        assert(prefixes(entries@) =~= held.update(i as int, after));
        assert(absorbs(m, held, gain, i as int, after, prefixes(entries@)));
    }
}

/// Keeps the best `beam_size` entries.
pub fn prune_beam<A: Arithmetic>(m: &A, beam: &Vec<CtcBeamEntry>, beam_size: usize) -> (pruned: Vec<
    CtcBeamEntry,
>)
    ensures
        pruned_is(m, prefixes(beam@), beam_size, prefixes(pruned@)),
{
    let keys = score_keys(m, beam);
    let order = top_k_indices(&keys, beam_size);
    let mut pruned: Vec<CtcBeamEntry> = Vec::new();
    let mut i: usize = 0;
    while i < order.len()
        invariant
            i <= order@.len(),
            ranking::is_top(keys@, beam_size as nat, order@),
            keys@.len() == beam@.len(),
            pruned@.len() == i,
            forall|j: int|
                0 <= j < i ==> (#[trigger] pruned@[j])@ == prefixes(beam@)[order@[j] as int],
        decreases order@.len() - i,
    {
        let at: usize = order[i];
        let entry = &beam[at];
        pruned.push(
            CtcBeamEntry {
                prefix: copy_prefix(&entry.prefix),
                log_pb: entry.log_pb,
                log_pnb: entry.log_pnb,
            },
        );
        i = i + 1;
    }
    assert(prefixes(pruned@) =~= ranking::pick(prefixes(beam@), order@));
    pruned
}

/// The log-probabilities of the prefixes.
fn score_keys<A: Arithmetic>(m: &A, beam: &Vec<CtcBeamEntry>) -> (keys: Vec<Bits>)
    ensures
        keys_are(m, prefixes(beam@), keys@),
{
    let mut keys: Vec<Bits> = Vec::new();
    let mut i: usize = 0;
    while i < beam.len()
        invariant
            i <= beam@.len(),
            keys@.len() == i,
            forall|j: int|
                0 <= j < i ==> prefix_score_is(m, prefixes(beam@)[j], #[trigger] keys@[j]),
        decreases beam@.len() - i,
    {
        keys.push(prefix_score(m, &beam[i]));
        i = i + 1;
    }
    keys
}

/// Hands `entry` on by a label with log-probability `log_p`, whichever it is.
fn hand_on<A: Arithmetic>(m: &A, entry: &CtcBeamEntry, log_p: Bits) -> (r: Bits)
    ensures
        handed_on_is(m, entry@, log_p, r),
{
    let score: Bits = prefix_score(m, entry);
    assert(prefix_score_is(m, entry@, score));
    m.sum(score, log_p)
}

/// Takes one more gain into `next`, which the gains so far add up to.
fn take_in<A: Arithmetic>(
    m: &A,
    next: &mut Vec<CtcBeamEntry>,
    prefix: Vec<u32>,
    ends_in_blank: bool,
    value: Bits,
    Ghost(held): Ghost<Seq<CtcGain>>,
) -> (r: Ghost<Seq<CtcGain>>)
    requires
        added_up(m, held, prefixes(old(next)@)),
    ensures
        r@ == held.push(CtcGain { prefix: prefix@, ends_in_blank, value }),
        added_up(m, r@, prefixes(final(next)@)),
{
    let ghost gain = CtcGain { prefix: prefix@, ends_in_blank, value };
    let ghost gains = held.push(gain);
    merge_entry(m, next, prefix, ends_in_blank, value);
    assert(gains.drop_last() =~= held && gains.last() == gain);
    Ghost(gains)
}

/// Adds what a frame hands on from one entry to `next`.
fn spread_entry<A: Arithmetic>(
    m: &A,
    entry: &CtcBeamEntry,
    log_probs: &Vec<Bits>,
    labels: &Vec<usize>,
    blank_id: usize,
    next: &mut Vec<CtcBeamEntry>,
    Ghost(held): Ghost<Seq<CtcGain>>,
) -> (r: Ghost<Seq<CtcGain>>)
    requires
        blank_id < log_probs@.len(),
        forall|i: int| 0 <= i < labels@.len() ==> #[trigger] labels@[i] < log_probs@.len(),
        added_up(m, held, prefixes(old(next)@)),
    ensures
        entry_adds(m, entry@, log_probs@, labels@, blank_id, held, r@),
        added_up(m, r@, prefixes(final(next)@)),
{
    let value: Bits = hand_on(m, entry, log_probs[blank_id]);
    let ghost blank_gain = CtcGain { prefix: entry.prefix@, ends_in_blank: true, value };
    let mut gains = take_in(m, next, copy_prefix(&entry.prefix), true, value, Ghost(held));
    let ghost start = gains@;
    assert(is_blank_gain(m, entry@, log_probs@[blank_id as int], blank_gain));
    let mut n: usize = 0;
    while n < labels.len()
        invariant
            n <= labels@.len(),
            forall|i: int| 0 <= i < labels@.len() ==> #[trigger] labels@[i] < log_probs@.len(),
            labels_add(m, entry@, log_probs@, labels@, n as nat, blank_id, start, gains@),
            added_up(m, gains@, prefixes(next@)),
        decreases labels@.len() - n,
    {
        let label: usize = labels[n];
        if label != blank_id {
            let log_p: Bits = log_probs[label];
            let token: u32 = label as u32;
            let last: usize = entry.prefix.len();
            let ghost before = gains@;
            if last > 0 && entry.prefix[last - 1] == token {
                let repeated: Bits = m.sum(entry.log_pnb, log_p);
                gains =
                take_in(
                    m,
                    next,
                    copy_prefix(&entry.prefix),
                    false,
                    repeated,
                    Ghost(gains@),
                );
                if entry.log_pb != NEG_INFINITY {
                    let value: Bits = m.sum(entry.log_pb, log_p);
                    let mut extended = copy_prefix(&entry.prefix);
                    extended.push(token);
                    gains = take_in(m, next, extended, false, value, Ghost(gains@));
                }
            } else {
                let value: Bits = hand_on(m, entry, log_p);
                let mut extended = copy_prefix(&entry.prefix);
                extended.push(token);
                gains = take_in(m, next, extended, false, value, Ghost(gains@));
            }
            assert(gains@.take(before.len() as int) =~= before);
            assert(label_adds(m, entry@, token, log_p, before, gains@));
        }
        n = n + 1;
    }
    gains
}

/// Decodes one frame.
fn decode_frame<A: Arithmetic>(
    m: &A,
    logits: &Vec<Bits>,
    blank_id: usize,
    beam_size: usize,
    beam: &Vec<CtcBeamEntry>,
) -> (next: Vec<CtcBeamEntry>)
    requires
        blank_id < logits@.len(),
    ensures
        frame_is(m, logits@, blank_id, beam_size, prefixes(beam@), prefixes(next@)),
{
    let log_probs = log_softmax(m, logits);
    let labels = top_k_indices(&log_probs, beam_size);
    let mut entries: Vec<CtcBeamEntry> = Vec::new();
    let ghost mut gains: Seq<CtcGain> = Seq::empty();
    let mut i: usize = 0;
    assert(prefixes(beam@.take(0)).len() == 0 && prefixes(entries@).len() == 0);
    while i < beam.len()
        invariant
            i <= beam@.len(),
            blank_id < log_probs@.len(),
            ranking::is_top(log_probs@, beam_size as nat, labels@),
            beam_adds(
                m,
                prefixes(beam@.take(i as int)),
                log_probs@,
                labels@,
                blank_id,
                gains,
            ),
            added_up(m, gains, prefixes(entries@)),
        decreases beam@.len() - i,
    {
        let Ghost(more) = spread_entry(
            m,
            &beam[i],
            &log_probs,
            &labels,
            blank_id,
            &mut entries,
            Ghost(gains),
        );
        proof {
            let seen = prefixes(beam@.take(i + 1));
            assert(seen.drop_last() =~= prefixes(beam@.take(i as int)));
            assert(seen.last() == beam@[i as int]@);
            gains = more;
        }
        i = i + 1;
    }
    assert(beam@.take(i as int) =~= beam@);
    let next = prune_beam(m, &entries, beam_size);
    proof {
        let w = CtcFrameTrace {
            log_probs: log_probs@,
            labels: labels@,
            gains,
            entries: prefixes(entries@),
        };
        assert(frame_traced(m, logits@, blank_id, beam_size, prefixes(beam@), w, prefixes(next@)));
    }
    next
}

/// CTC prefix beam search over a logit matrix of shape `(time, vocabulary)`.
///
/// Returns the token ids of the most probable prefix: blanks are removed and
/// repeats merged, unless a blank keeps them apart.
pub fn decode_ctc_beam<A: Arithmetic>(
    m: &A,
    logits: &Tensor2,
    blank_id: usize,
    config: &BeamConfig,
) -> (tokens: Vec<u32>)
    requires
        tensor::tensor2_shape(*logits).0 > 0 ==> blank_id < tensor::tensor2_shape(*logits).1,
    ensures
        decodes(m, *logits, blank_id, *config, tokens@),
{
    let (frames, _) = logits.shape();
    if frames == 0 {
        return Vec::new();
    }
    let beam_size: usize = if config.beam_size == 0 {
        1
    } else {
        config.beam_size
    };
    let mut beam: Vec<CtcBeamEntry> = Vec::new();
    beam.push(CtcBeamEntry { prefix: Vec::new(), log_pb: ZERO, log_pnb: NEG_INFINITY });
    assert(prefixes(beam@) =~= first_beam()) by {
        assert(beam@[0].prefix@ =~= Seq::empty());
    }
    let mut t: usize = 0;
    while t < frames
        invariant
            frames == tensor::tensor2_shape(*logits).0,
            blank_id < tensor::tensor2_shape(*logits).1,
            t <= frames,
            beam_after(m, *logits, blank_id, beam_size, t as nat, prefixes(beam@)),
        decreases frames - t,
    {
        let row = logits.row_values(t);
        let ghost before = prefixes(beam@);
        beam = decode_frame(m, &row, blank_id, beam_size, &beam);
        assert(frame_is(
            m,
            tensor::row_items(*logits, t + 1 - 1),
            blank_id,
            beam_size,
            before,
            prefixes(beam@),
        ));
        t = t + 1;
    }
    let keys = score_keys(m, &beam);
    assert(beam_after(
        m,
        *logits,
        blank_id,
        effective_beam_size(*config),
        tensor::tensor2_shape(*logits).0 as nat,
        prefixes(beam@),
    ));
    match max_index(&keys) {
        None => Vec::new(),
        Some(i) => copy_prefix(&beam[i].prefix),
    }
}

} // verus!
