# anki_scheduler

The scheduling logic of a spaced-repetition collection, verified with Verus:
the study queue, the FSRS bookkeeping around a collection's cards and
presets, the replay of the review history that RWKV's models read, and the
small state machines that let long passes give the collection back between
two holds.

## Layout

- `src/` — the verified library. Its functions carry `requires` /
  `ensures` contracts, which Verus proves; where a contract leaves part of
  a result open, the function's doc comment says so.
  - `card.rs`, `collection.rs` — cards, the collection and the writes to it.
  - `queue/` — building the study queue: the limits of each deck, the
    gathering of intraday learning, interday learning, review and new cards,
    RWKV-Instant's scored reviews, and the merge into the main queue.
  - `memory.rs`, `revlog.rs`, `fsrs_reviews.rs` — FSRS memory states on
    cards, their reconciliation after a sync, and the review items FSRS is
    trained on.
  - `auto_optimize.rs`, `fsrs_batch.rs`, `params_progress.rs` — automatic
    optimization of presets, spreading an "optimize all" over the worker
    threads, and its progress.
  - `predictions.rs`, `stale_presets.rs` — keeping per-review predictions
    current, written and read a part at a time.
  - `rwkv_inputs/`, `rwkv_curve_recall.rs` — the replay of the review log
    into RWKV's inputs (columns, packed rows, the history hash), and the
    stored curves of RWKV-Curve.
  - `due_date.rs`, `grade_now.rs` — "set due date" and Grade Now.
- `tests/` — tests on concrete values.
- `app/` — what stays outside the proofs: floating-point model work with the
  `fsrs` crate, worker threads, the waits between two holds of the
  collection, and drivers for saving optimized parameters, Grade Now, the
  prediction and stale-preset passes and RWKV-Curve recall. The passes over
  storage (memory states, the post-sync reconcile, queue building, the
  replay job) have no driver here; the library takes and returns their
  values.

The outside crates the library calls (`sha2`, `fnv`, `rand`) are reached
through a few trusted wrappers, each with a doc comment that says what its
contract claims of the crate.
