//! What decoding keeps: tokens that were stored read the same ever after.

use crate::kv_state::{at_most, KvState};
use vstd::prelude::*;

verus! {

impl KvState {
    /// The row of token `i` of a sequence.
    pub open spec fn token_at(self, seq: u64, i: int, layer: int, is_value: bool) -> Seq<u32> {
        self.pool->0.token_row(self.tables[seq].block_ids, i, layer, is_value)
    }

    /// Every sequence has the tokens that it had before, perhaps more, and reads the same
    /// rows for them in every layer, where the tensor pool has their blocks.
    pub open spec fn extends(self, before: KvState) -> bool {
        &&& self.block_size == before.block_size
        &&& self.pool is Some == before.pool is Some
        &&& self.pool is Some ==> self.pool->0.config == before.pool->0.config
        &&& forall|layer: int| #[trigger] before.has_layer(layer) ==> self.has_layer(layer)
        &&& forall|s: u64| #[trigger]
            before.tables.contains_key(s) ==> {
                &&& self.tables.contains_key(s)
                &&& before.tables[s].total_tokens <= self.tables[s].total_tokens
            }
        &&& before.block_size > 0 ==> forall|s: u64, i: int|
            before.tables.contains_key(s) && 0 <= i < before.tables[s].total_tokens
                && before.reaches_token(s, i) ==> #[trigger] self.reaches_token(s, i)
        &&& forall|s: u64, i: int, layer: int, is_value: bool|
            before.tables.contains_key(s) && 0 <= i < before.tables[s].total_tokens
                && before.reaches_token(s, i) && before.has_layer(layer) ==> #[trigger] self.token_at(
                s,
                i,
                layer,
                is_value,
            )
                == before.token_at(s, i, layer, is_value)
    }

    /// As [`KvState::extends`], and the sequences that are not listed have no token more.
    pub open spec fn extends_only(self, before: KvState, ids: Seq<u64>) -> bool {
        &&& self.extends(before)
        &&& forall|s: u64| #[trigger]
            before.tables.contains_key(s) && !ids.contains(s) ==> self.tables[s]
                == before.tables[s]
    }

    /// No token that `before` counts lies at a place.
    pub open spec fn clear_of(self, place: (usize, usize), before: KvState) -> bool {
        forall|s: u64, i: int|
            before.tables.contains_key(s) && 0 <= i < before.tables[s].total_tokens
                ==> #[trigger] self.place_at(s, i) != (place.0, place.1 as int)
    }

    /// The state without one of its sequences.
    pub open spec fn without(self, seq: u64) -> KvState {
        KvState { tables: self.tables.remove(seq), ..self }
    }

    /// No other sequence holds a block of this one.
    pub open spec fn alone(self, seq: u64) -> bool {
        forall|other: u64, i: int|
            #![trigger self.tables[other].block_ids[i]]
            self.tables.contains_key(other) && other != seq && 0 <= i
                < self.tables[other].block_ids.len()
                ==> !self.tables[seq].block_ids.contains(self.tables[other].block_ids[i])
    }

    /// What a sequence read before is the beginning of what it reads now; where it has no
    /// token more, it reads the same.
    pub proof fn law_extended_rows(self, before: KvState, seq: u64, layer: int, is_value: bool)
        requires
            before.wf(),
            self.wf(),
            self.extends(before),
            before.has_layer(layer),
            before.tables.contains_key(seq),
            before.reached(seq),
        ensures
            self.pool->0.gathered(
                self.tables[seq].block_ids,
                before.tables[seq].total_tokens as int,
                layer,
                is_value,
            ) == before.sequence_rows(seq, layer, is_value),
            self.tables[seq].total_tokens == before.tables[seq].total_tokens
                ==> self.sequence_rows(seq, layer, is_value) == before.sequence_rows(
                seq,
                layer,
                is_value,
            ),
    {
        let n = before.tables[seq].total_tokens as int;
        before.lemma_all_held(seq);
        assert(self.has_layer(layer));
        self.lemma_all_held(seq);
        assert forall|i: int| 0 <= i < n implies #[trigger] self.pool->0.token_row(
            self.tables[seq].block_ids,
            i,
            layer,
            is_value,
        ) == before.pool->0.token_row(before.tables[seq].block_ids, i, layer, is_value) by {
            assert(self.token_at(seq, i, layer, is_value) == before.token_at(
                seq,
                i,
                layer,
                is_value,
            ));
        }
        before.pool->0.lemma_gathered_frame(
            before.tables[seq].block_ids,
            self.pool->0,
            self.tables[seq].block_ids,
            n,
            layer,
            is_value,
        );
    }

    /// What extends an extension extends the first.
    pub proof fn lemma_extends_twice(self, middle: KvState, before: KvState)
        requires
            self.extends(middle),
            middle.extends(before),
        ensures
            self.extends(before),
    {
        assert forall|s: u64, i: int, layer: int, is_value: bool|
            before.tables.contains_key(s) && 0 <= i < before.tables[s].total_tokens
                && before.reaches_token(s, i) && before.has_layer(layer) implies #[trigger] self.token_at(
            s,
            i,
            layer,
            is_value,
        ) == before.token_at(s, i, layer, is_value) by {
            assert(middle.tables.contains_key(s));
            assert(middle.has_layer(layer));
            assert(middle.token_at(s, i, layer, is_value) == before.token_at(
                s,
                i,
                layer,
                is_value,
            ));
        }
    }

    /// A counted token lies in a block of its table.
    proof fn lemma_counted_place(self, seq: u64, i: int)
        requires
            self.wf(),
            self.block_size > 0,
            self.tables.contains_key(seq),
            0 <= i < self.tables[seq].total_tokens,
        ensures
            0 <= i / (self.block_size as int) < self.tables[seq].block_ids.len(),
            0 <= i % (self.block_size as int) < self.block_size,
            self.tables[seq].block_ids[i / (self.block_size as int)] < self.total_blocks,
            self.tables[seq].block_ids.contains(
                self.tables[seq].block_ids[i / (self.block_size as int)],
            ),
            i / (self.block_size as int) == self.tables[seq].block_ids.len() - 1 ==> i % (
            self.block_size as int) < self.blocks[self.last_block(seq) as int].num_tokens,
    {
        let t = self.tables[seq];
        let n = t.block_ids.len() as int;
        let bs = self.block_size as int;
        assert(self.table_wf(seq, t));
        if n > 0 {
            assert(t.block_ids[n - 1] == t.block_ids.last());
            assert(self.block_wf(t.block_ids.last() as int));
            assert((n - 1) * bs + bs == n * bs) by (nonlinear_arith);
        }
        self.lemma_token_place(seq, i);
        vstd::arithmetic::div_mod::lemma_fundamental_div_mod(i, bs);
        if i / bs == n - 1 {
            assert(bs * (n - 1) == (n - 1) * bs) by (nonlinear_arith);
        }
    }

    /// A further token extends the state.
    pub proof fn lemma_append_extends(self, seq: u64)
        requires
            self.wf(),
            self.append_possible(seq),
            self.append_fits(seq),
        ensures
            self.append(seq).extends(self),
    {
        self.lemma_append_wf(seq);
        let after = self.append(seq);
        let bs = self.block_size as int;
        assert forall|layer: int| #[trigger] self.has_layer(layer) implies after.has_layer(
            layer,
        ) by {
            self.lemma_append_pool(seq, layer);
        }
        if self.block_size > 0 {
            assert forall|s: u64, i: int|
                self.tables.contains_key(s) && 0 <= i < self.tables[s].total_tokens
                    && self.reaches_token(s, i) implies #[trigger] after.reaches_token(s, i) by {
                self.lemma_counted_place(s, i);
                let ids = self.tables[s].block_ids;
                if !(s == seq && self.append_copies(seq) && i / bs == ids.len() - 1) {
                    assert(after.tables[s].block_ids[i / bs] == ids[i / bs]);
                }
            }
        }
        assert forall|s: u64, i: int, layer: int, is_value: bool|
            self.tables.contains_key(s) && 0 <= i < self.tables[s].total_tokens
                && self.reaches_token(s, i) && self.has_layer(layer) implies #[trigger] after.token_at(s, i, layer, is_value)
            == self.token_at(s, i, layer, is_value) by {
            self.lemma_counted_place(s, i);
            let ids = self.tables[s].block_ids;
            let b = ids[i / bs];
            if self.append_takes_block(seq) {
                self.lemma_take_block_wf();
                assert(self.free[self.free.len() - 1] == self.next_free());
                self.lemma_free_is_unheld(self.next_free(), s);
            }
            self.lemma_append_rows(seq, b as int, layer, is_value, i % bs);
            if s == seq && self.append_copies(seq) && i / bs == ids.len() - 1 {
                assert(after.tables[s].block_ids[i / bs] == self.next_free());
            } else {
                assert(after.tables[s].block_ids[i / bs] == b);
            }
        }
    }

    /// The slot of a further token is clear of all tokens before it.
    pub proof fn lemma_slot_is_clear(self, seq: u64, before: KvState)
        requires
            self.wf(),
            self.block_size > 0,
            self.append_possible(seq),
            self.append_fits(seq),
            self.extends(before),
        ensures
            self.append(seq).clear_of(self.append_slot(seq), before),
            !self.append(seq).free.contains(self.append_slot(seq).0),
    {
        self.lemma_append_wf(seq);
        let after = self.append(seq);
        let place = self.append_slot(seq);
        let bs = self.block_size as int;
        let own = self.tables[seq].block_ids;
        if self.append_takes_block(seq) {
            self.lemma_take_block_wf();
            assert(self.free[self.free.len() - 1] == self.next_free());
        } else {
            self.lemma_held_is_counted(seq, own.len() - 1);
        }
        assert forall|s: u64, i: int|
            before.tables.contains_key(s) && 0 <= i
                < before.tables[s].total_tokens implies #[trigger] after.place_at(s, i) != (
            place.0,
            place.1 as int,
        ) by {
            assert(self.tables.contains_key(s));
            self.lemma_counted_place(s, i);
            if s != seq {
                self.law_append_slot_is_private(seq, s);
            } else {
                if self.append_takes_block(seq) {
                    self.lemma_free_is_unheld(self.next_free(), seq);
                }
                assert(self.table_wf(seq, self.tables[seq]));
                if i / bs < own.len() - 1 {
                    assert(after.tables[seq].block_ids[i / bs] == own[i / bs]);
                    assert(own[i / bs] != own[own.len() - 1]);
                }
            }
        }
    }

    /// A place in use that is clear of earlier tokens stays so when a further one is added.
    pub proof fn lemma_clear_stays(self, seq: u64, place: (usize, usize), before: KvState)
        requires
            self.wf(),
            self.block_size > 0,
            self.append_possible(seq),
            self.append_fits(seq),
            self.extends(before),
            self.clear_of(place, before),
            !self.free.contains(place.0),
        ensures
            self.append(seq).clear_of(place, before),
            !self.append(seq).free.contains(place.0),
    {
        let after = self.append(seq);
        let bs = self.block_size as int;
        let own = self.tables[seq].block_ids;
        if self.append_takes_block(seq) {
            assert(self.free[self.free.len() - 1] == self.next_free());
            assert(after.free =~= self.free.drop_last());
            if after.free.contains(place.0) {
                let j = choose|j: int| 0 <= j < after.free.len() && after.free[j] == place.0;
                assert(self.free[j] == place.0);
            }
        }
        assert forall|s: u64, i: int|
            before.tables.contains_key(s) && 0 <= i
                < before.tables[s].total_tokens implies #[trigger] after.place_at(s, i) != (
            place.0,
            place.1 as int,
        ) by {
            assert(self.tables.contains_key(s));
            self.lemma_counted_place(s, i);
            assert(self.place_at(s, i) != (place.0, place.1 as int));
            if s == seq && self.append_copies(seq) && i / bs == own.len() - 1 {
                assert(after.tables[s].block_ids[i / bs] == self.next_free());
            } else {
                assert(after.tables[s].block_ids[i / bs] == self.tables[s].block_ids[i / bs]);
            }
        }
    }

    /// Whether a place is clear depends on the tables alone.
    pub proof fn lemma_clear_frame(self, after: KvState, place: (usize, usize), before: KvState)
        requires
            self.clear_of(place, before),
            after.tables == self.tables,
            after.block_size == self.block_size,
        ensures
            after.clear_of(place, before),
    {
        assert forall|s: u64, i: int|
            before.tables.contains_key(s) && 0 <= i
                < before.tables[s].total_tokens implies #[trigger] after.place_at(s, i) != (
            place.0,
            place.1 as int,
        ) by {
            assert(self.place_at(s, i) != (place.0, place.1 as int));
        }
    }

    /// Rows that are written to a place clear of earlier tokens leave those as they are.
    pub proof fn lemma_write_extends(
        self,
        place: (usize, usize),
        layer: int,
        k: Seq<u32>,
        v: Seq<u32>,
        before: KvState,
    )
        requires
            self.wf(),
            self.extends(before),
            self.block_size > 0 ==> self.clear_of(place, before),
            self.pool is Some ==> {
                &&& self.has_layer(layer)
                &&& self.pool_reaches(place.0 as int)
                &&& place.1 < self.block_size
                &&& k.len() == self.pool->0.kv_dim()
                &&& v.len() == self.pool->0.kv_dim()
            },
        ensures
            self.write_slot(place, layer, k, v).extends(before),
    {
        let after = self.write_slot(place, layer, k, v);
        let bs = self.block_size as int;
        assert forall|l: int| #[trigger] before.has_layer(l) implies after.has_layer(l) by {
            assert(self.has_layer(l));
        }
        if before.block_size > 0 {
            assert forall|s: u64, i: int|
                before.tables.contains_key(s) && 0 <= i < before.tables[s].total_tokens
                    && before.reaches_token(s, i) implies #[trigger] after.reaches_token(s, i) by {
                assert(self.reaches_token(s, i));
            }
        }
        assert forall|s: u64, i: int, l: int, is_value: bool|
            before.tables.contains_key(s) && 0 <= i < before.tables[s].total_tokens
                && before.reaches_token(s, i) && before.has_layer(l) implies #[trigger] after.token_at(s, i, l, is_value)
            == before.token_at(s, i, l, is_value) by {
            assert(self.has_layer(l));
            assert(self.tables.contains_key(s));
            assert(self.token_at(s, i, l, is_value) == before.token_at(s, i, l, is_value));
            assert(self.reaches_token(s, i));
            self.lemma_counted_place(s, i);
            assert(self.place_at(s, i) != (place.0, place.1 as int));
            self.pool->0.law_write_keeps_other_rows(
                place.0 as int,
                layer,
                place.1 as int,
                k,
                v,
                self.tables[s].block_ids[i / bs] as int,
                l,
                is_value,
                i % bs,
            );
        }
    }

    /// Rows that go to the blocks of a sequence that holds them alone are clear of all other
    /// sequences.
    pub proof fn lemma_own_block_is_clear(self, seq: u64, place: (usize, usize))
        requires
            self.wf(),
            self.block_size > 0,
            self.tables.contains_key(seq),
            self.alone(seq),
            self.tables[seq].block_ids.contains(place.0),
        ensures
            self.clear_of(place, self.without(seq)),
    {
        let before = self.without(seq);
        assert forall|s: u64, i: int|
            before.tables.contains_key(s) && 0 <= i
                < before.tables[s].total_tokens implies #[trigger] self.place_at(s, i) != (
            place.0,
            place.1 as int,
        ) by {
            self.lemma_counted_place(s, i);
            let j = i / self.block_size as int;
            assert(self.tables[s].block_ids[j] == self.place_at(s, i).0);
        }
    }

    /// Taking a free block extends the state.
    proof fn lemma_take_extends(self, tokens: usize)
        requires
            self.wf(),
            self.free.len() > 0,
            self.pool_reaches(self.next_free() as int),
        ensures
            self.take_block().with_block_tokens(self.next_free(), tokens).extends(self),
    {
        let b = self.next_free();
        let after = self.take_block().with_block_tokens(b, tokens);
        let bs = self.block_size as int;
        assert(self.free[self.free.len() - 1] == b);
        assert forall|s: u64, i: int, layer: int, is_value: bool|
            self.tables.contains_key(s) && 0 <= i < self.tables[s].total_tokens
                && self.reaches_token(s, i) && self.has_layer(layer) implies #[trigger] after.token_at(s, i, layer, is_value)
            == self.token_at(s, i, layer, is_value) by {
            self.lemma_counted_place(s, i);
            self.lemma_free_is_unheld(b, s);
            self.pool->0.law_zero_block_rows(
                b as int,
                self.tables[s].block_ids[i / bs] as int,
                layer,
                is_value,
                i % bs,
            );
        }
    }

    /// Taking and filling free blocks extends the state.
    proof fn lemma_fill_extends(self, tokens: int, count: int)
        requires
            self.wf(),
            self.block_size > 0,
            0 <= count <= self.free.len(),
            0 <= tokens <= count * self.block_size,
            count > 0 ==> tokens > (count - 1) * self.block_size,
            forall|i: int|
                #![trigger self.free[i]]
                self.free.len() - count <= i < self.free.len() ==> self.pool_reaches(
                    self.free[i] as int,
                ),
        ensures
            self.fill_blocks(tokens, count).extends(self),
        decreases count,
    {
        if count > 0 {
            let bs = self.block_size as int;
            let here = at_most(tokens, bs);
            assert((count - 1) * bs + bs == count * bs) by (nonlinear_arith);
            assert(count > 1 ==> (count - 2) * bs + bs == (count - 1) * bs && (count - 1) * bs >= bs)
                by (nonlinear_arith)
                requires
                    bs >= 1,
            ;
            assert(0 <= (count - 1) * bs) by (nonlinear_arith)
                requires
                    count >= 1,
                    bs >= 1,
            ;
            assert(self.free[self.free.len() - 1] == self.next_free());
            self.lemma_fill_step_wf(tokens, count);
            self.lemma_take_extends(here as usize);
            let next = self.take_block().with_block_tokens(self.next_free(), here as usize);
            assert(next.free == self.free.drop_last());
            assert forall|i: int|
                #![trigger next.free[i]]
                next.free.len() - (count - 1) <= i < next.free.len() implies next.pool_reaches(
                next.free[i] as int,
            ) by {
                assert(next.free[i] == self.free[i]);
            }
            next.lemma_fill_extends(tokens - here, count - 1);
            self.fill_blocks(tokens, count).lemma_extends_twice(next, self);
        }
    }

    /// A new sequence extends the state, and holds its blocks alone.
    pub proof fn law_allocate_extends(self, seq: u64, tokens: int)
        requires
            self.wf(),
            self.block_size > 0,
            0 <= tokens,
            !self.tables.contains_key(seq),
            self.blocks_needed(tokens) <= self.free.len(),
            self.allocate_fits(tokens),
        ensures
            self.allocate(seq, tokens).extends(self),
            self.allocate(seq, tokens).without(seq).extends(self),
            self.allocate(seq, tokens).alone(seq),
    {
        let count = self.blocks_needed(tokens);
        self.lemma_blocks_needed(tokens);
        self.lemma_fill_extends(tokens, count);
        self.lemma_fill_shape(tokens, count);
        let filled = self.fill_blocks(tokens, count);
        let after = self.allocate(seq, tokens);
        let back = after.without(seq);
        assert(back.tables =~= self.tables);
        assert forall|layer: int| #[trigger] self.has_layer(layer) implies after.has_layer(layer)
            && back.has_layer(layer) by {
            assert(filled.has_layer(layer));
        }
        assert forall|s: u64, i: int, layer: int, is_value: bool|
            self.tables.contains_key(s) && 0 <= i < self.tables[s].total_tokens
                && self.reaches_token(s, i) && self.has_layer(layer) implies #[trigger] after.token_at(s, i, layer, is_value)
            == self.token_at(s, i, layer, is_value) by {
            assert(filled.token_at(s, i, layer, is_value) == self.token_at(
                s,
                i,
                layer,
                is_value,
            ));
        }
        assert forall|s: u64, i: int, layer: int, is_value: bool|
            self.tables.contains_key(s) && 0 <= i < self.tables[s].total_tokens
                && self.reaches_token(s, i) && self.has_layer(layer) implies #[trigger] back.token_at(s, i, layer, is_value)
            == self.token_at(s, i, layer, is_value) by {
            assert(filled.token_at(s, i, layer, is_value) == self.token_at(
                s,
                i,
                layer,
                is_value,
            ));
        }
        assert forall|other: u64, i: int|
            #![trigger after.tables[other].block_ids[i]]
            after.tables.contains_key(other) && other != seq && 0 <= i
                < after.tables[other].block_ids.len() implies !after.tables[seq].block_ids.contains(
            after.tables[other].block_ids[i],
        ) by {
            let b = after.tables[other].block_ids[i];
            assert(self.tables[other].block_ids[i] == b);
            if after.tables[seq].block_ids.contains(b) {
                let j = choose|j: int|
                    0 <= j < self.next_blocks(count).len() && self.next_blocks(count)[j] == b;
                assert(self.free[self.free.len() - 1 - j] == b);
                self.lemma_held_is_counted(other, i);
            }
        }
    }

    /// Letting go of a sequence that was not there before keeps an extension one.
    pub proof fn lemma_free_extends(self, seq: u64, before: KvState)
        requires
            self.extends(before),
            !before.tables.contains_key(seq),
        ensures
            self.free_sequence(seq).extends(before),
    {
        let after = self.free_sequence(seq);
        assert forall|layer: int| #[trigger] before.has_layer(layer) implies after.has_layer(
            layer,
        ) by {
            assert(self.has_layer(layer));
        }
        if before.block_size > 0 {
            assert forall|s: u64, i: int|
                before.tables.contains_key(s) && 0 <= i < before.tables[s].total_tokens
                    && before.reaches_token(s, i) implies #[trigger] after.reaches_token(s, i) by {
                assert(self.reaches_token(s, i));
            }
        }
        assert forall|s: u64, i: int, layer: int, is_value: bool|
            before.tables.contains_key(s) && 0 <= i < before.tables[s].total_tokens
                && before.reaches_token(s, i) && before.has_layer(layer) implies #[trigger] after.token_at(
            s,
            i,
            layer,
            is_value,
        ) == before.token_at(s, i, layer, is_value) by {
            assert(self.token_at(s, i, layer, is_value) == before.token_at(
                s,
                i,
                layer,
                is_value,
            ));
        }
    }

    /// What extends a state extends it without one of its sequences.
    pub proof fn lemma_extends_without(self, before: KvState, seq: u64)
        requires
            self.extends(before),
        ensures
            self.extends(before.without(seq)),
    {
        let less = before.without(seq);
        assert forall|layer: int| #[trigger] less.has_layer(layer) implies self.has_layer(
            layer,
        ) by {
            assert(before.has_layer(layer));
        }
        assert forall|s: u64| #[trigger] less.tables.contains_key(s) implies {
            &&& self.tables.contains_key(s)
            &&& less.tables[s].total_tokens <= self.tables[s].total_tokens
        } by {
            assert(before.tables.contains_key(s));
        }
        assert forall|s: u64, i: int, layer: int, is_value: bool|
            less.tables.contains_key(s) && 0 <= i < less.tables[s].total_tokens && less.reaches_token(
                s,
                i,
            ) && less.has_layer(layer) implies #[trigger] self.token_at(s, i, layer, is_value) == less.token_at(
            s,
            i,
            layer,
            is_value,
        ) by {
            assert(before.has_layer(layer));
            assert(self.token_at(s, i, layer, is_value) == before.token_at(
                s,
                i,
                layer,
                is_value,
            ));
        }
    }
}

} // verus!
