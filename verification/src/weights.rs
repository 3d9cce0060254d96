//! Weights of a transformer, and what a sequence keeps between its tokens.

use crate::abi::{ModelConfig, ModelState};
use crate::maps::view_all;
use crate::tensor::HeadShape;
use vstd::prelude::*;
use vstd::slice::{slice_subrange, slice_to_vec};

verus! {

broadcast use crate::maps::group_view_all;

/// Weights of one layer.
pub struct LayerWeights {
    pub input_layernorm: Vec<u32>,
    pub q_proj: Vec<u32>,
    pub k_proj: Vec<u32>,
    pub v_proj: Vec<u32>,
    pub o_proj: Vec<u32>,
    pub post_attention_layernorm: Vec<u32>,
    pub gate_proj: Vec<u32>,
    pub up_proj: Vec<u32>,
    pub down_proj: Vec<u32>,
}

/// What [`LayerWeights`] hold.
pub struct LayerState {
    pub input_layernorm: Seq<u32>,
    pub q_proj: Seq<u32>,
    pub k_proj: Seq<u32>,
    pub v_proj: Seq<u32>,
    pub o_proj: Seq<u32>,
    pub post_attention_layernorm: Seq<u32>,
    pub gate_proj: Seq<u32>,
    pub up_proj: Seq<u32>,
    pub down_proj: Seq<u32>,
}

impl View for LayerWeights {
    type V = LayerState;

    open spec fn view(&self) -> LayerState {
        LayerState {
            input_layernorm: self.input_layernorm@,
            q_proj: self.q_proj@,
            k_proj: self.k_proj@,
            v_proj: self.v_proj@,
            o_proj: self.o_proj@,
            post_attention_layernorm: self.post_attention_layernorm@,
            gate_proj: self.gate_proj@,
            up_proj: self.up_proj@,
            down_proj: self.down_proj@,
        }
    }
}

/// Weights of a whole model.
pub struct TransformerWeights {
    pub config: ModelConfig,
    pub embed_tokens: Vec<u32>,
    pub layers: Vec<LayerWeights>,
    pub final_norm: Vec<u32>,
    pub lm_head: Vec<u32>,
}

/// What [`TransformerWeights`] hold.
pub struct WeightsState {
    pub config: ModelState,
    pub embed_tokens: Seq<u32>,
    pub layers: Seq<LayerState>,
    pub final_norm: Seq<u32>,
    pub lm_head: Seq<u32>,
}

impl ModelState {
    pub open spec fn heads(self) -> HeadShape {
        HeadShape {
            num_heads: self.num_heads,
            num_kv_heads: self.num_kv_heads,
            head_dim: self.head_dim,
        }
    }

    /// Width of a query row.
    pub open spec fn q_dim(self) -> int {
        self.num_heads * self.head_dim
    }

    /// Width of a K or V row.
    pub open spec fn kv_dim(self) -> int {
        self.num_kv_heads * self.head_dim
    }

    /// Every width is a `usize`.
    pub open spec fn widths_fit(self) -> bool {
        &&& self.hidden() <= usize::MAX
        &&& self.intermediate() <= usize::MAX
        &&& self.q_dim() <= usize::MAX
        &&& self.kv_dim() <= usize::MAX
    }

    /// Tensors of `n` rows of every width have a size that is a `usize`.
    pub open spec fn rows_fit(self, n: int) -> bool {
        &&& self.widths_fit()
        &&& n * self.hidden() <= usize::MAX
        &&& n * self.intermediate() <= usize::MAX
        &&& n * self.q_dim() <= usize::MAX
        &&& n * self.kv_dim() <= usize::MAX
    }
}

impl WeightsState {
    /// The row of a token in the embedding table.
    pub open spec fn embedding(self, token: u32) -> Seq<u32> {
        let at = token as int % self.config.vocab() as int * self.config.hidden();
        self.embed_tokens.subrange(at, at + self.config.hidden())
    }

    /// The widths fit, and the embedding table has a row for every token.
    pub open spec fn wf(self) -> bool {
        &&& self.config.widths_fit()
        &&& self.config.vocab() * self.config.hidden() <= self.embed_tokens.len()
    }

    /// The widths fit, and the embedding table has a row for every token, or at least for
    /// this one.
    pub open spec fn takes(self, token: u32) -> bool {
        ||| self.wf()
        ||| {
            &&& self.config.widths_fit()
            &&& token as int % self.config.vocab() as int * self.config.hidden()
                + self.config.hidden() <= self.embed_tokens.len()
        }
    }

    /// As [`WeightsState::takes`], of several tokens.
    pub open spec fn takes_all(self, tokens: Seq<u32>) -> bool {
        &&& self.config.widths_fit()
        &&& forall|i: int| 0 <= i < tokens.len() ==> self.takes(#[trigger] tokens[i])
    }
}

impl View for TransformerWeights {
    type V = WeightsState;

    open spec fn view(&self) -> WeightsState {
        WeightsState {
            config: self.config@,
            embed_tokens: self.embed_tokens@,
            layers: view_all(self.layers@),
            final_norm: self.final_norm@,
            lm_head: self.lm_head@,
        }
    }
}

/// The widths of a model, computed once.
#[derive(Clone, Copy)]
pub struct Widths {
    pub hidden: usize,
    pub intermediate: usize,
    pub q: usize,
    pub kv: usize,
    pub heads: HeadShape,
}

impl Widths {
    pub open spec fn of(self, config: ModelState) -> bool {
        &&& self.hidden == config.hidden()
        &&& self.intermediate == config.intermediate()
        &&& self.q == config.q_dim()
        &&& self.kv == config.kv_dim()
        &&& self.heads == config.heads()
    }
}

impl TransformerWeights {
    pub fn widths(&self) -> (r: Widths)
        requires
            self@.config.widths_fit(),
        ensures
            r.of(self@.config),
    {
        Widths {
            hidden: self.config.hidden_dim(),
            intermediate: self.config.intermediate_dim(),
            q: self.config.num_heads * self.config.head_dim,
            kv: self.config.num_kv_heads * self.config.head_dim,
            heads: HeadShape {
                num_heads: self.config.num_heads,
                num_kv_heads: self.config.num_kv_heads,
                head_dim: self.config.head_dim,
            },
        }
    }

    /// The row of a token in the embedding table.
    pub fn embed_token(&self, token: u32) -> (r: Vec<u32>)
        requires
            self@.takes(token),
        ensures
            r@ == self@.embedding(token),
            r@.len() == self@.config.hidden(),
    {
        let vocab: usize = self.config.vocab_size();
        let hidden: usize = self.config.hidden_dim();
        let total: usize = self.embed_tokens.len();
        let idx: usize = token as usize % vocab;
        assert(0 <= idx * hidden && idx * hidden + hidden <= vocab * hidden) by (nonlinear_arith)
            requires
                0 <= idx < vocab,
                0 <= hidden,
        ;
        let at: usize = idx * hidden;
        slice_to_vec(slice_subrange(self.embed_tokens.as_slice(), at, at + hidden))
    }
}

/// K and V rows of one layer, kept by the sequence itself.
pub struct LayerKvCache {
    pub cached_k: Vec<Vec<u32>>,
    pub cached_v: Vec<Vec<u32>>,
    pub flat_k: Vec<u32>,
    pub flat_v: Vec<u32>,
}

/// What a [`LayerKvCache`] holds.
#[verifier::ext_equal]
pub struct CacheState {
    pub cached_k: Seq<Seq<u32>>,
    pub cached_v: Seq<Seq<u32>>,
    pub flat_k: Seq<u32>,
    pub flat_v: Seq<u32>,
}

impl CacheState {
    pub open spec fn empty() -> CacheState {
        CacheState {
            cached_k: Seq::empty(),
            cached_v: Seq::empty(),
            flat_k: Seq::empty(),
            flat_v: Seq::empty(),
        }
    }

    pub open spec fn with_row(self, k: Seq<u32>, v: Seq<u32>) -> CacheState {
        CacheState {
            cached_k: self.cached_k.push(k),
            cached_v: self.cached_v.push(v),
            flat_k: self.flat_k + k,
            flat_v: self.flat_v + v,
        }
    }
}

impl View for LayerKvCache {
    type V = CacheState;

    open spec fn view(&self) -> CacheState {
        CacheState {
            cached_k: view_all(self.cached_k@),
            cached_v: view_all(self.cached_v@),
            flat_k: self.flat_k@,
            flat_v: self.flat_v@,
        }
    }
}

impl Default for LayerKvCache {
    fn default() -> (r: Self)
        ensures
            r@ == CacheState::empty(),
    {
        LayerKvCache {
            cached_k: Vec::new(),
            cached_v: Vec::new(),
            flat_k: Vec::new(),
            flat_v: Vec::new(),
        }
    }
}

/// A copy of rows.
fn copy_rows(rows: &Vec<Vec<u32>>) -> (r: Vec<Vec<u32>>)
    ensures
        view_all(r@) == view_all(rows@),
{
    let mut r: Vec<Vec<u32>> = Vec::new();
    let mut i: usize = 0;
    assert(view_all(r@) =~= view_all(rows@).take(0));
    while i < rows.len()
        invariant
            i <= rows@.len(),
            view_all(r@) == view_all(rows@).take(i as int),
        decreases rows@.len() - i,
    {
        r.push(slice_to_vec(rows[i].as_slice()));
        assert(view_all(r@) =~= view_all(rows@).take(i + 1));
        i = i + 1;
    }
    assert(view_all(rows@).take(rows@.len() as int) =~= view_all(rows@));
    r
}

impl Clone for LayerKvCache {
    fn clone(&self) -> (r: Self)
        ensures
            r@ == self@,
    {
        LayerKvCache {
            cached_k: copy_rows(&self.cached_k),
            cached_v: copy_rows(&self.cached_v),
            flat_k: slice_to_vec(self.flat_k.as_slice()),
            flat_v: slice_to_vec(self.flat_v.as_slice()),
        }
    }
}

impl LayerKvCache {
    /// Adds the rows of a token.
    pub fn push(&mut self, k: &[u32], v: &[u32])
        ensures
            final(self)@ == old(self)@.with_row(k@, v@),
    {
        self.cached_k.push(slice_to_vec(k));
        self.cached_v.push(slice_to_vec(v));
        crate::tensor::append_row(&mut self.flat_k, k);
        crate::tensor::append_row(&mut self.flat_v, v);
    }
}

/// The tokens of a sequence, and its rows where it keeps them itself.
pub struct SequenceState {
    pub tokens: Vec<u32>,
    pub layers: Vec<LayerKvCache>,
}

/// What a [`SequenceState`] holds.
#[verifier::ext_equal]
pub struct TokensState {
    pub tokens: Seq<u32>,
    pub layers: Seq<CacheState>,
}

impl TokensState {
    /// A sequence without tokens, with a cache for each layer.
    pub open spec fn empty(num_layers: int) -> TokensState {
        TokensState {
            tokens: Seq::empty(),
            layers: Seq::new(num_layers as nat, |l: int| CacheState::empty()),
        }
    }

    /// The position of the token that is decoded next: that of the last token.
    pub open spec fn position(self) -> int {
        if self.tokens.len() == 0 {
            0
        } else {
            self.tokens.len() - 1
        }
    }

    /// The token to decode from; 1 where there is none.
    pub open spec fn last_token(self) -> u32 {
        if self.tokens.len() == 0 {
            1
        } else {
            self.tokens.last()
        }
    }

    pub open spec fn with_token(self, token: u32) -> TokensState {
        TokensState { tokens: self.tokens.push(token), ..self }
    }
}

impl View for SequenceState {
    type V = TokensState;

    open spec fn view(&self) -> TokensState {
        TokensState { tokens: self.tokens@, layers: view_all(self.layers@) }
    }
}

impl Clone for SequenceState {
    fn clone(&self) -> (r: Self)
        ensures
            r@ == self@,
    {
        let mut layers: Vec<LayerKvCache> = Vec::new();
        let mut i: usize = 0;
        assert(view_all(layers@) =~= view_all(self.layers@).take(0));
        while i < self.layers.len()
            invariant
                i <= self.layers@.len(),
                view_all(layers@) == view_all(self.layers@).take(i as int),
            decreases self.layers@.len() - i,
        {
            layers.push(self.layers[i].clone());
            assert(view_all(layers@) =~= view_all(self.layers@).take(i + 1));
            i = i + 1;
        }
        assert(view_all(self.layers@).take(self.layers@.len() as int) =~= view_all(self.layers@));
        SequenceState { tokens: slice_to_vec(self.tokens.as_slice()), layers }
    }
}

impl SequenceState {
    /// A sequence without tokens, with a cache for each layer.
    pub fn empty(num_layers: usize) -> (r: Self)
        ensures
            r@ == TokensState::empty(num_layers as int),
    {
        let mut layers: Vec<LayerKvCache> = Vec::new();
        let mut i: usize = 0;
        while i < num_layers
            invariant
                i <= num_layers,
                view_all(layers@) == Seq::new(i as nat, |l: int| CacheState::empty()),
            decreases num_layers - i,
        {
            layers.push(LayerKvCache::default());
            assert(view_all(layers@) =~= Seq::new((i + 1) as nat, |l: int| CacheState::empty()));
            i = i + 1;
        }
        SequenceState { tokens: Vec::new(), layers }
    }

    /// The position of the token that is decoded next.
    pub fn position(&self) -> (r: usize)
        ensures
            r == self@.position(),
    {
        if self.tokens.len() == 0 {
            0
        } else {
            self.tokens.len() - 1
        }
    }

    /// The token to decode from.
    pub fn last_token(&self) -> (r: u32)
        ensures
            r == self@.last_token(),
    {
        let n: usize = self.tokens.len();
        if n == 0 {
            1
        } else {
            self.tokens[n - 1]
        }
    }

    /// Adds the rows of a token to one layer.
    pub fn push_row(&mut self, layer: usize, k: &[u32], v: &[u32])
        requires
            layer < old(self)@.layers.len(),
        ensures
            final(self)@ == (TokensState {
                layers: old(self)@.layers.update(
                    layer as int,
                    old(self)@.layers[layer as int].with_row(k@, v@),
                ),
                ..old(self)@
            }),
    {
        let ghost before = self.layers@;
        let cache = &mut self.layers[layer];
        cache.push(k, v);
        assert(view_all(self.layers@) =~= view_all(before).update(
            layer as int,
            before[layer as int]@.with_row(k@, v@),
        ));
    }
}

} // verus!
