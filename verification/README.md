# needle

The inference core of a small tool-calling language model, written and verified
in Verus. Given a query and a list of tools it generates a reply, usually a JSON
call of one of the tools; two probe heads give an embedding of a text and a
confidence in a reply.

- `src/` is the library, all of it verified: the container format, the tokenizer,
  the quantised matrix products, the forward pass one token at a time and in
  chunks, the grammar that holds a call to the declared tools, sampling, and
  generation from prompt to reply.
- `tests/` runs it on 32-bit floats: on small models put together in the tests,
  and against plain transcriptions of the formulas.
- `app/` is the `needle-rs` program and the C, Python and JavaScript bindings.

## Floats

The library computes on 32-bit words. Which operation is applied to which
numbers, and in which order, is its own doing; what the operations give is up to
the caller (`arith`, `blocks`, `sampling::Wide`). So the contracts hold for every
arithmetic whose operations are functions, and results are the same to the bit
however the work is cut up. Where a property needs more (that a transform undoes
itself, say), it is proved for exact arithmetic. `app/float.rs` supplies floats.

## What is proved

A few of the laws, each a public proof function:

- `chunked::law_chunks_give_what_steps_give`: a prompt fed in chunks leaves the
  tokens, rings and hidden state, and gives the scores, that it gives token by
  token.
- `generate::law_replies_do_not_depend_on_chunks`: so do whole replies.
- `state::law_rings_read_back_what_was_written`: a ring as long as the attention
  window holds every key and value that is still read.
- `constrained::law_names_come_from_the_declared_tools` and
  `constrained::law_no_key_repeats_while_another_is_unused`.
- `sp_laws::law_byte_pieces_bring_text_back`: with byte fallback and a piece for
  every byte, a text that has no visible space of its own, and spells no control,
  unknown or byte piece, comes back from its tokens.
- `generate::law_runs_end_as_reported`: no stop token stands in a reply, and the
  reason given for its end is the one that holds.
- `stream::law_deliveries_spell_the_reply`: handed out token by token, every token
  comes once and the texts spell the reply.
- `rotation::law_product_is_that_of_the_plain_weights`: rotating activations
  instead of weights gives the same products.
- `pooling::law_streamed_pool_is_the_softmax_at_once`.

## What is taken on trust

Calls into `serde_json` (reading a list of strings), `rayon` (handing out bands of
a product) and a few string functions of the standard library. Each is a small
function marked `external_body`, or an `assume_specification`, with a comment on
what is claimed of it.
