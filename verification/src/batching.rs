//! That decoding sequences together gives each of them what decoding it alone gives.

use crate::abi::{DecodeOutput, FinishReason};
use crate::agreement::{
    keeps_sizes, lemma_projected, lemma_qkv_row, row_by_row, rows_of_width,
};
use crate::decode::{
    attend_own, batch_layer, batch_layers, batch_mlp, cache_slots, decode_fits, decode_pass,
    greedy_all, last_tokens, normed_flat, opened, output_for, positions, sampled_seqs, DecodeState,
};
use crate::forward::{through_layers, through_mlp, token_pass, zeros, PassState};
use crate::kv_state::KvState;
use crate::prefill::{embeddings, gate_rows, norm_rows, qkv_rows, split_rows};
use crate::tensor::{flat, lemma_flat_len, lemma_row_in, row_of, TensorBackend};
use crate::weights::{TokensState, WeightsState};
use vstd::prelude::*;

verus! {

/// Operations on several rows at once have the sizes that they promise.
pub open spec fn keeps_batch_sizes<T: TensorBackend>(b: T) -> bool {
    forall|x: Seq<u32>, weight: Seq<u32>, rows: usize, in_dim: usize, out_dim: usize|
        (#[trigger] b.batch_projected(x, weight, rows, in_dim, out_dim)).len() == rows * out_dim
}

/// The sum of two tensors has, row by row, the sums of their rows.
pub open spec fn sums_row_by_row<T: TensorBackend>(b: T) -> bool {
    forall|x: Seq<u32>, delta: Seq<u32>, width: int, i: int|
        x.len() == delta.len() && 0 <= width && 0 <= i * width && i * width + width <= x.len()
            ==> (#[trigger] row_of(b.summed(x, delta), i, width)) == b.summed(
            row_of(x, i, width),
            row_of(delta, i, width),
        )
}

/// Several rows at once are worked on as each would be alone.
pub open spec fn works_row_by_row<T: TensorBackend>(b: T) -> bool {
    &&& keeps_sizes(b)
    &&& keeps_batch_sizes(b)
    &&& row_by_row(b)
    &&& sums_row_by_row(b)
}

/// Row `i` of rows one behind the other.
pub proof fn lemma_flat_row(rows: Seq<Seq<u32>>, width: int, i: int)
    requires
        rows_of_width(rows, width),
        0 <= i < rows.len(),
        0 <= width,
    ensures
        row_of(flat(rows), i, width) == rows[i],
    decreases rows.len(),
{
    let n = rows.len() as int;
    let rest = rows.drop_last();
    assert(rows_of_width(rest, width));
    lemma_flat_len(rows, width);
    lemma_flat_len(rest, width);
    lemma_row_in(i, n, width);
    if i < n - 1 {
        lemma_flat_row(rest, width, i);
        lemma_row_in(i, n - 1, width);
        assert(row_of(flat(rows), i, width) =~= row_of(flat(rest), i, width));
    } else {
        assert(row_of(flat(rows), i, width) =~= rows[i]);
    }
}

/// The widths of a model are not negative.
pub proof fn lemma_widths(w: WeightsState)
    ensures
        0 <= w.config.hidden(),
        0 <= w.config.intermediate(),
        0 <= w.config.q_dim(),
        0 <= w.config.kv_dim(),
{
    assert(0 <= w.config.num_heads * w.config.head_dim) by (nonlinear_arith)
        requires
            0 <= w.config.num_heads,
            0 <= w.config.head_dim,
    ;
    assert(0 <= w.config.num_kv_heads * w.config.head_dim) by (nonlinear_arith)
        requires
            0 <= w.config.num_kv_heads,
            0 <= w.config.head_dim,
    ;
}

/// The second half of a layer for several tokens is that for each.
pub proof fn lemma_batch_mlp_row<T: TensorBackend>(
    b: T,
    w: WeightsState,
    l: int,
    n: int,
    x: Seq<u32>,
    i: int,
)
    requires
        works_row_by_row(b),
        w.config.rows_fit(n),
        x.len() == n * w.config.hidden(),
        0 <= i < n <= usize::MAX,
    ensures
        batch_mlp(b, w, l, n, x).len() == n * w.config.hidden(),
        row_of(batch_mlp(b, w, l, n, x), i, w.config.hidden()) == through_mlp(
            b,
            w,
            l,
            row_of(x, i, w.config.hidden()),
        ),
{
    lemma_widths(w);
    let lw = w.layers[l];
    let hidden = w.config.hidden();
    let inner = w.config.intermediate();
    let rows = split_rows(x, n, hidden);
    assert forall|t: int| 0 <= t < n implies (#[trigger] rows[t]).len() == hidden by {
        lemma_row_in(t, n, hidden);
    }
    let post = norm_rows(b, rows, lw.post_attention_layernorm, w.config.rms_norm_eps);
    assert(rows_of_width(post, hidden));
    let gate = b.batch_projected(
        flat(post),
        lw.gate_proj,
        n as usize,
        hidden as usize,
        inner as usize,
    );
    let up = b.batch_projected(flat(post), lw.up_proj, n as usize, hidden as usize, inner as usize);
    let act = gate_rows(b, gate, up, n, inner);
    assert forall|t: int| 0 <= t < n implies (#[trigger] act[t]) == b.gated(
        b.projected(post[t], lw.gate_proj, inner as usize, hidden as usize),
        b.projected(post[t], lw.up_proj, inner as usize, hidden as usize),
    ) by {
        lemma_projected(b, post, lw.gate_proj, hidden as usize, inner as usize, t);
        lemma_projected(b, post, lw.up_proj, hidden as usize, inner as usize, t);
    }
    assert(rows_of_width(act, inner));
    lemma_projected(b, act, lw.down_proj, inner as usize, hidden as usize, i);
    let out = b.batch_projected(
        flat(act),
        lw.down_proj,
        n as usize,
        inner as usize,
        hidden as usize,
    );
    lemma_row_in(i, n, hidden);
    assert(row_of(b.summed(x, out), i, hidden) == b.summed(
        row_of(x, i, hidden),
        row_of(out, i, hidden),
    ));
}

/// Rows that were added to the caches of distinct sequences.
proof fn lemma_cached<T: TensorBackend>(
    b: T,
    seqs: Map<u64, TokensState>,
    ids: Seq<u64>,
    l: int,
    k: Seq<Seq<u32>>,
    v: Seq<Seq<u32>>,
    n: int,
)
    requires
        ids.no_duplicates(),
        0 <= n <= ids.len(),
        forall|i: int| 0 <= i < ids.len() ==> seqs.contains_key(#[trigger] ids[i]),
    ensures
        ({
            let done = cache_slots(seqs, ids, l, k, v, n);
            &&& done.dom() == seqs.dom()
            &&& forall|i: int|
                0 <= i < ids.len() ==> done[#[trigger] ids[i]] == if i < n {
                    TokensState {
                        layers: seqs[ids[i]].layers.update(
                            l,
                            seqs[ids[i]].layers[l].with_row(k[i], v[i]),
                        ),
                        ..seqs[ids[i]]
                    }
                } else {
                    seqs[ids[i]]
                }
            &&& forall|id: u64| !ids.contains(id) ==> #[trigger] done[id] == seqs[id]
        }),
    decreases n,
{
    if n > 0 {
        lemma_cached(b, seqs, ids, l, k, v, n - 1);
        let before = cache_slots(seqs, ids, l, k, v, n - 1);
        let done = cache_slots(seqs, ids, l, k, v, n);
        assert(seqs.contains_key(ids[n - 1]));
        assert(done.dom() =~= seqs.dom());
        assert forall|i: int| 0 <= i < ids.len() implies done[#[trigger] ids[i]] == if i < n {
            TokensState {
                layers: seqs[ids[i]].layers.update(
                    l,
                    seqs[ids[i]].layers[l].with_row(k[i], v[i]),
                ),
                ..seqs[ids[i]]
            }
        } else {
            seqs[ids[i]]
        } by {
            if i != n - 1 {
                assert(ids[i] != ids[n - 1]);
            }
        }
        assert forall|id: u64| !ids.contains(id) implies #[trigger] done[id] == seqs[id] by {
            assert(ids.contains(ids[n - 1]));
        }
    }
}

/// What sequence `i` of a batch passes on its own.
pub open spec fn alone<T: TensorBackend>(
    b: T,
    w: WeightsState,
    l: int,
    ids: Seq<u64>,
    seqs: Map<u64, TokensState>,
    i: int,
) -> PassState {
    let s = seqs[ids[i]];
    through_layers(
        b,
        w,
        l,
        s.position() as usize,
        None,
        ids[i],
        PassState {
            x: w.embedding(s.last_token()),
            attn: zeros(w.config.q_dim()),
            kv: None,
            layers: s.layers,
        },
    )
}

/// After some layers every sequence of a batch is where it would be alone.
spec fn side_by_side<T: TensorBackend>(
    b: T,
    w: WeightsState,
    l: int,
    ids: Seq<u64>,
    seqs: Map<u64, TokensState>,
    s: DecodeState,
) -> bool {
    &&& s.kv is None
    &&& s.x.len() == ids.len() * w.config.hidden()
    &&& s.seqs.dom() == seqs.dom()
    &&& forall|i: int|
        0 <= i < ids.len() ==> {
            &&& row_of(s.x, i, w.config.hidden()) == alone(b, w, l, ids, seqs, i).x
            &&& s.seqs[#[trigger] ids[i]] == (TokensState {
                layers: alone(b, w, l, ids, seqs, i).layers,
                ..seqs[ids[i]]
            })
        }
    &&& forall|id: u64| !ids.contains(id) ==> #[trigger] s.seqs[id] == seqs[id]
}

/// A batch of distinct sequences that keep their rows themselves.
spec fn can_batch<T: TensorBackend>(
    b: T,
    w: WeightsState,
    ids: Seq<u64>,
    seqs: Map<u64, TokensState>,
) -> bool {
    &&& works_row_by_row(b)
    &&& w.config.rows_fit(ids.len() as int)
    &&& ids.len() <= usize::MAX
    &&& ids.no_duplicates()
    &&& forall|i: int|
        0 <= i < ids.len() ==> {
            &&& seqs.contains_key(#[trigger] ids[i])
            &&& seqs[ids[i]].layers.len() >= w.layers.len()
        }
}

proof fn lemma_alone_layers<T: TensorBackend>(
    b: T,
    w: WeightsState,
    l: int,
    ids: Seq<u64>,
    seqs: Map<u64, TokensState>,
    i: int,
)
    requires
        l <= w.layers.len() <= seqs[ids[i]].layers.len(),
    ensures
        alone(b, w, l, ids, seqs, i).layers.len() == seqs[ids[i]].layers.len(),
        alone(b, w, l, ids, seqs, i).kv is None,
    decreases l,
{
    if l > 0 {
        lemma_alone_layers(b, w, l - 1, ids, seqs, i);
    }
}

proof fn lemma_batch_layer<T: TensorBackend>(
    b: T,
    w: WeightsState,
    l: int,
    ids: Seq<u64>,
    places: Seq<Option<(usize, usize)>>,
    seqs: Map<u64, TokensState>,
    s: DecodeState,
)
    requires
        can_batch(b, w, ids, seqs),
        0 <= l < w.layers.len(),
        side_by_side(b, w, l, ids, seqs, s),
    ensures
        side_by_side(
            b,
            w,
            l + 1,
            ids,
            seqs,
            batch_layer(b, w, l, ids, positions(seqs, ids), places, s),
        ),
{
    lemma_widths(w);
    let n = ids.len() as int;
    let hidden = w.config.hidden();
    let q_dim = w.config.q_dim();
    let lw = w.layers[l];
    let at = positions(seqs, ids);
    let rows = split_rows(s.x, n, hidden);
    assert forall|t: int| 0 <= t < n implies (#[trigger] rows[t]).len() == hidden by {
        lemma_row_in(t, n, hidden);
    }
    let (q, k, v) = qkv_rows(b, w, l, rows, at);
    let kept = cache_slots(s.seqs, ids, l, k, v, n);
    assert forall|i: int| 0 <= i < n implies s.seqs.contains_key(#[trigger] ids[i]) by {
        assert(seqs.dom().contains(ids[i]));
    }
    lemma_cached(b, s.seqs, ids, l, k, v, n);
    let seen = attend_own(b, w, l, q, kept, ids);
    assert forall|i: int| 0 <= i < n implies (#[trigger] seen[i]).len() == q_dim by {
        lemma_qkv_row(b, w, l, rows, at, i);
    }
    let proj = b.batch_projected(flat(seen), lw.o_proj, n as usize, q_dim as usize, hidden as usize);
    let sums = b.summed(s.x, proj);
    let next = batch_layer(b, w, l, ids, at, places, s);
    assert(next.seqs == kept);
    assert forall|i: int| 0 <= i < ids.len() implies {
        &&& row_of(next.x, i, hidden) == alone(b, w, l + 1, ids, seqs, i).x
        &&& next.seqs[#[trigger] ids[i]] == (TokensState {
            layers: alone(b, w, l + 1, ids, seqs, i).layers,
            ..seqs[ids[i]]
        })
    } by {
        let p = alone(b, w, l, ids, seqs, i);
        lemma_alone_layers(b, w, l, ids, seqs, i);
        lemma_qkv_row(b, w, l, rows, at, i);
        assert(rows[i] == p.x);
        assert(s.seqs[ids[i]].layers == p.layers);
        assert(kept[ids[i]].layers[l] == p.layers[l].with_row(k[i], v[i]));
        lemma_projected(b, seen, lw.o_proj, q_dim as usize, hidden as usize, i);
        lemma_row_in(i, n, hidden);
        assert(row_of(sums, i, hidden) == b.summed(
            row_of(s.x, i, hidden),
            row_of(proj, i, hidden),
        ));
        lemma_batch_mlp_row(b, w, l, n, sums, i);
    }
    if n > 0 {
        lemma_batch_mlp_row(b, w, l, n, sums, 0);
    } else {
        assert(0 * hidden == 0);
    }
}

proof fn lemma_batch_layers<T: TensorBackend>(
    b: T,
    w: WeightsState,
    l: int,
    ids: Seq<u64>,
    places: Seq<Option<(usize, usize)>>,
    seqs: Map<u64, TokensState>,
    s: DecodeState,
)
    requires
        can_batch(b, w, ids, seqs),
        ids.len() > 0,
        0 <= l <= w.layers.len(),
        side_by_side(b, w, 0, ids, seqs, s),
    ensures
        side_by_side(
            b,
            w,
            l,
            ids,
            seqs,
            batch_layers(b, w, l, ids, positions(seqs, ids), places, s),
        ),
    decreases l,
{
    if l > 0 {
        lemma_batch_layers(b, w, l - 1, ids, places, seqs, s);
        lemma_batch_layer(
            b,
            w,
            l - 1,
            ids,
            places,
            seqs,
            batch_layers(b, w, l - 1, ids, positions(seqs, ids), places, s),
        );
    }
}

/// Sequences that are all there are opened as they are.
pub proof fn lemma_opened(seqs: Map<u64, TokensState>, ids: Seq<u64>, n: int, num_layers: int)
    requires
        0 <= n <= ids.len(),
        forall|i: int| 0 <= i < ids.len() ==> seqs.contains_key(#[trigger] ids[i]),
    ensures
        opened(seqs, ids, n, num_layers) == seqs,
    decreases n,
{
    if n > 0 {
        lemma_opened(seqs, ids, n - 1, num_layers);
        assert(seqs.contains_key(ids[n - 1]));
    }
}

/// Tokens that distinct sequences were given.
pub proof fn lemma_sampled(
    seqs: Map<u64, TokensState>,
    ids: Seq<u64>,
    tokens: Seq<(u32, u32)>,
    n: int,
)
    requires
        ids.no_duplicates(),
        0 <= n <= ids.len(),
        forall|i: int| 0 <= i < ids.len() ==> seqs.contains_key(#[trigger] ids[i]),
    ensures
        ({
            let done = sampled_seqs(seqs, ids, tokens, n);
            &&& done.dom() == seqs.dom()
            &&& forall|i: int|
                0 <= i < ids.len() ==> done[#[trigger] ids[i]] == if i < n {
                    TokensState { tokens: seqs[ids[i]].tokens.push(tokens[i].0), ..seqs[ids[i]] }
                } else {
                    seqs[ids[i]]
                }
            &&& forall|id: u64| !ids.contains(id) ==> #[trigger] done[id] == seqs[id]
        }),
    decreases n,
{
    if n > 0 {
        lemma_sampled(seqs, ids, tokens, n - 1);
        let done = sampled_seqs(seqs, ids, tokens, n);
        assert(seqs.contains_key(ids[n - 1]));
        assert(done.dom() =~= seqs.dom());
        assert forall|i: int| 0 <= i < ids.len() implies done[#[trigger] ids[i]] == if i < n {
            TokensState { tokens: seqs[ids[i]].tokens.push(tokens[i].0), ..seqs[ids[i]] }
        } else {
            seqs[ids[i]]
        } by {
            if i != n - 1 {
                assert(ids[i] != ids[n - 1]);
            }
        }
        assert forall|id: u64| !ids.contains(id) implies #[trigger] done[id] == seqs[id] by {
            assert(ids.contains(ids[n - 1]));
        }
    }
}

/// Logits of several rows, row by row.
pub proof fn lemma_logits_row<T: TensorBackend>(b: T, w: WeightsState, n: int, x: Seq<u32>, i: int)
    requires
        works_row_by_row(b),
        w.config.rows_fit(n),
        x.len() == n * w.config.hidden(),
        0 <= i < n <= usize::MAX,
    ensures
        row_of(
            b.batch_projected(
                normed_flat(b, x, n, w.config.hidden(), w.final_norm, w.config.rms_norm_eps),
                w.lm_head,
                n as usize,
                w.config.hidden() as usize,
                w.config.vocab(),
            ),
            i,
            w.config.vocab() as int,
        ) == b.projected(
            b.normed(row_of(x, i, w.config.hidden()), w.final_norm, w.config.rms_norm_eps),
            w.lm_head,
            w.config.vocab(),
            w.config.hidden() as usize,
        ),
{
    lemma_widths(w);
    let hidden = w.config.hidden();
    let rows = split_rows(x, n, hidden);
    assert forall|t: int| 0 <= t < n implies (#[trigger] rows[t]).len() == hidden by {
        lemma_row_in(t, n, hidden);
    }
    let normed = norm_rows(b, rows, w.final_norm, w.config.rms_norm_eps);
    assert(rows_of_width(normed, hidden));
    lemma_projected(b, normed, w.lm_head, hidden as usize, w.config.vocab(), i);
}

/// Decoding distinct sequences together gives each what it is given alone: entry `i` passes its
/// own last token at its own position over its own rows, or token 1 at the first position where
/// it has none, and is answered with the most likely
/// token of its own logits, or with its end where that token ends a sequence. The token joins
/// its sequence and no other, and sequences that are not in the batch stay as they are.
pub proof fn law_decode_is_each_alone<T: TensorBackend>(
    b: T,
    w: WeightsState,
    ids: Seq<u64>,
    seqs: Map<u64, TokensState>,
    i: int,
)
    requires
        works_row_by_row(b),
        ids.no_duplicates(),
        ids.len() <= usize::MAX,
        decode_fits(w, ids, None, seqs),
        forall|j: int| 0 <= j < ids.len() ==> seqs.contains_key(#[trigger] ids[j]),
        0 <= i < ids.len(),
    ensures
        ({
            let done = decode_pass(b, w, ids, None, seqs);
            let s = seqs[ids[i]];
            let pass = token_pass(
                b,
                w,
                if s.tokens.len() == 0 {
                    1
                } else {
                    s.tokens[s.tokens.len() - 1]
                },
                if s.tokens.len() == 0 {
                    0
                } else {
                    (s.tokens.len() - 1) as usize
                },
                ids[i],
                None,
                s.layers,
            );
            let hidden = b.normed(pass.x, w.final_norm, w.config.rms_norm_eps);
            let (token, logprob) = b.greedy(
                b.projected(hidden, w.lm_head, w.config.vocab(), w.config.hidden() as usize),
            );
            &&& done.outputs.len() == ids.len()
            &&& done.outputs[i] == if token == 0 || token == 1 || token == 2 {
                DecodeOutput::Finished {
                    request_id: ids[i],
                    reason: FinishReason::StopToken,
                    total_tokens: (s.tokens.len() + 1) as usize,
                }
            } else {
                DecodeOutput::Token {
                    request_id: ids[i],
                    token_id: token,
                    logprob: Some(logprob),
                }
            }
            &&& done.seqs.contains_key(ids[i])
            &&& done.seqs[ids[i]].tokens == s.tokens.push(token)
            &&& done.seqs[ids[i]].layers == pass.layers
            &&& done.seqs.dom() == seqs.dom()
            &&& forall|id: u64| !ids.contains(id) ==> #[trigger] done.seqs[id] == seqs[id]
        }),
{
    lemma_widths(w);
    let n = ids.len() as int;
    let hidden = w.config.hidden();
    let layers = w.layers.len() as int;
    lemma_opened(seqs, ids, n, w.config.num_layers as int);
    let places = Seq::new(ids.len(), |j: int| None::<(usize, usize)>);
    let x = embeddings(w, last_tokens(seqs, ids));
    assert forall|j: int| 0 <= j < n implies (#[trigger] x[j]).len() == hidden by {
        let all = last_tokens(seqs, ids);
        assert(w.takes(all[j]));
        let vocab = w.config.vocab() as int;
        let row = all[j] as int % vocab;
        assert(0 <= row * hidden && row * hidden + hidden <= vocab * hidden) by (nonlinear_arith)
            requires
                0 <= row < vocab,
                0 <= hidden,
        ;
    }
    lemma_flat_len(x, hidden);
    let start = DecodeState { x: flat(x), kv: None, seqs };
    assert forall|j: int| 0 <= j < ids.len() implies {
        &&& row_of(start.x, j, hidden) == alone(b, w, 0, ids, seqs, j).x
        &&& start.seqs[#[trigger] ids[j]] == (TokensState {
            layers: alone(b, w, 0, ids, seqs, j).layers,
            ..seqs[ids[j]]
        })
    } by {
        lemma_flat_row(x, hidden, j);
    }
    assert(can_batch(b, w, ids, seqs)) by {
        assert forall|j: int| 0 <= j < ids.len() implies {
            &&& seqs.contains_key(#[trigger] ids[j])
            &&& seqs[ids[j]].layers.len() >= w.layers.len()
        } by {}
    }
    lemma_batch_layers(b, w, layers, ids, places, seqs, start);
    let passed = batch_layers(b, w, layers, ids, positions(seqs, ids), places, start);
    let logits = b.batch_projected(
        normed_flat(b, passed.x, n, hidden, w.final_norm, w.config.rms_norm_eps),
        w.lm_head,
        n as usize,
        hidden as usize,
        w.config.vocab(),
    );
    let tokens = greedy_all(b, logits, n, w.config.vocab() as int);
    lemma_logits_row(b, w, n, passed.x, i);
    assert forall|j: int| 0 <= j < ids.len() implies passed.seqs.contains_key(
        #[trigger] ids[j],
    ) by {
        assert(seqs.dom().contains(ids[j]));
    }
    lemma_sampled(passed.seqs, ids, tokens, n);
    lemma_sampled(passed.seqs, ids, tokens, i + 1);
    let s = seqs[ids[i]];
    assert(passed.seqs.dom().contains(ids[i]));
    assert(passed.seqs[ids[i]].tokens == s.tokens);
    let done = decode_pass(b, w, ids, None, seqs);
    assert(done.outputs[i] == output_for(passed.seqs, ids, tokens, i));
    assert(done.seqs.dom() == seqs.dom());
}

/// A decode step of several sequences is the decode steps of each: the same answer, and the
/// same tokens and rows of the sequence.
pub proof fn law_batch_is_its_parts<T: TensorBackend>(
    b: T,
    w: WeightsState,
    ids: Seq<u64>,
    seqs: Map<u64, TokensState>,
    i: int,
)
    requires
        works_row_by_row(b),
        ids.no_duplicates(),
        ids.len() <= usize::MAX,
        decode_fits(w, ids, None, seqs),
        decode_fits(w, seq![ids[i]], None, seqs),
        forall|j: int| 0 <= j < ids.len() ==> seqs.contains_key(#[trigger] ids[j]),
        0 <= i < ids.len(),
    ensures
        decode_pass(b, w, ids, None, seqs).outputs[i] == decode_pass(
            b,
            w,
            seq![ids[i]],
            None,
            seqs,
        ).outputs[0],
        decode_pass(b, w, ids, None, seqs).seqs[ids[i]] == decode_pass(
            b,
            w,
            seq![ids[i]],
            None,
            seqs,
        ).seqs[ids[i]],
{
    law_decode_is_each_alone(b, w, ids, seqs, i);
    let one = seq![ids[i]];
    assert(one[0] == ids[i]);
    law_decode_is_each_alone(b, w, one, seqs, 0);
}

/// Which sequences are opened, and as what.
proof fn lemma_opens(seqs: Map<u64, TokensState>, ids: Seq<u64>, n: int, num_layers: int, id: u64)
    requires
        0 <= n <= ids.len(),
    ensures
        ({
            let open = opened(seqs, ids, n, num_layers);
            &&& seqs.contains_key(id) ==> open.contains_key(id) && open[id] == seqs[id]
            &&& !seqs.contains_key(id) && open.contains_key(id) ==> open[id]
                == TokensState::empty(num_layers)
            &&& forall|i: int| 0 <= i < n ==> open.contains_key(#[trigger] ids[i])
        }),
    decreases n,
{
    if n > 0 {
        lemma_opens(seqs, ids, n - 1, num_layers, id);
        let before = opened(seqs, ids, n - 1, num_layers);
        let open = opened(seqs, ids, n, num_layers);
        assert forall|i: int| 0 <= i < n implies open.contains_key(#[trigger] ids[i]) by {
            if i < n - 1 {
                assert(before.contains_key(ids[i]));
            }
        }
    }
}

/// A sequence that is decoded before it was heard of starts without tokens, with an empty cache
/// for each layer: decoding it is decoding that, and known sequences are decoded as they are.
pub proof fn law_unknown_sequences_start_empty<T: TensorBackend>(
    b: T,
    w: WeightsState,
    ids: Seq<u64>,
    kv: Option<KvState>,
    seqs: Map<u64, TokensState>,
) -> (all: Map<u64, TokensState>)
    requires
        ids.len() > 0,
    ensures
        decode_pass(b, w, ids, kv, seqs) == decode_pass(b, w, ids, kv, all),
        forall|i: int| 0 <= i < ids.len() ==> all.contains_key(#[trigger] ids[i]),
        forall|id: u64| #[trigger] seqs.contains_key(id) ==> all.contains_key(id) && all[id]
            == seqs[id],
        forall|id: u64| #[trigger]
            all.contains_key(id) && !seqs.contains_key(id) ==> {
                &&& all[id].tokens.len() == 0
                &&& all[id].layers.len() == w.config.num_layers
                &&& forall|l: int|
                    0 <= l < w.config.num_layers ==> {
                        &&& (#[trigger] all[id].layers[l]).cached_k.len() == 0
                        &&& all[id].layers[l].cached_v.len() == 0
                        &&& all[id].layers[l].flat_k.len() == 0
                        &&& all[id].layers[l].flat_v.len() == 0
                    }
            },
{
    let n = ids.len() as int;
    let num_layers = w.config.num_layers as int;
    let all = opened(seqs, ids, n, num_layers);
    lemma_opens(seqs, ids, n, num_layers, 0);
    lemma_opened(all, ids, n, num_layers);
    assert forall|id: u64| #[trigger] seqs.contains_key(id) implies all.contains_key(id) && all[id]
        == seqs[id] by {
        lemma_opens(seqs, ids, n, num_layers, id);
    }
    assert forall|id: u64| #[trigger] all.contains_key(id) && !seqs.contains_key(id) implies {
        &&& all[id].tokens.len() == 0
        &&& all[id].layers.len() == w.config.num_layers
        &&& forall|l: int|
            0 <= l < w.config.num_layers ==> {
                &&& (#[trigger] all[id].layers[l]).cached_k.len() == 0
                &&& all[id].layers[l].cached_v.len() == 0
                &&& all[id].layers[l].flat_k.len() == 0
                &&& all[id].layers[l].flat_v.len() == 0
            }
    } by {
        lemma_opens(seqs, ids, n, num_layers, id);
    }
    all
}

} // verus!
