# parakeet

Decoding for Parakeet speech recognition models, verified with Verus.

The library (`src/`) turns network output into tokens:

- `decoding::rnnt_beam` - RNN-T beam search, whole or in chunks of a stream
- `decoding::tdt_beam`, `decoding::tdt_greedy` - token-and-duration search
- `decoding::ctc_beam` - CTC prefix beam search, greedy search and collapse
- `model_tdt` - the TDT model around its two networks
- `execution` - how inference sessions are set up
- `metrics` - word and character error rates, reference transcripts

Singles are held by their bit pattern (`single`); arithmetic on them and the
networks come in as callbacks, of which nothing is assumed. Every contract is a
relation between what the callbacks returned and the result. What follows from
the contracts is stated and proved beside them:

- `decoding::rnnt_laws`, `decoding::rnnt_chunks`, `decoding::rnnt_parameters`,
  `decoding::tdt_laws`, `decoding::tdt_greedy`, `decoding::ctc_laws` - what the
  searches keep, whatever the callbacks return
- `decoding::rnnt_agreement`, `decoding::tdt_agreement`,
  `decoding::ctc_agreement` - one input has one result, where the callbacks are
  functions (`single_valued`)
- `decoding::tdt_bounds`, `decoding::rnnt_bounds` - how often the searches ask the
  decoder, and which tokens they can emit
- `decoding::ctc_totals` - up to rounding, the score of a CTC prefix is the total
  probability of its label paths, and an unpruned search finds the most probable
  tokens. How far each operation of a run may be off (`rounding`) is a premise,
  and the conclusions are off by that factor for each operation

`app/` holds what is not verified: the machine's arithmetic, ONNX Runtime
sessions and model files.
