//! The executor's storage and the block it stands for: writing a plane, a slot or
//! a lane of the storage is the corresponding write of the block.
use vstd::prelude::*;
use crate::bits::{row_bit, row_bits};
use crate::executor::BatchFactoredExecutorState;
use crate::model::{with_detectors, with_exps, with_lanes, with_records, with_values, Block};
use crate::planes::{lemma_plane_index, lemma_plane_unique};
use crate::symbols::{detector_written, record_written, symbol_written};

verus! {

/// The active state is the same in both.
pub open spec fn same_active<A: Copy>(
    a: &BatchFactoredExecutorState<A>,
    b: &BatchFactoredExecutorState<A>,
) -> bool {
    &&& a.k == b.k
    &&& a.ndormant == b.ndormant
    &&& a.n == b.n
    &&& a.batches == b.batches
    &&& a.active_pitch == b.active_pitch
    &&& a.active_stride == b.active_stride
    &&& a.dense_shot_major_active == b.dense_shot_major_active
    &&& a.active == b.active
    &&& a.active_components_enabled == b.active_components_enabled
    &&& a.active_components == b.active_components
}

pub proof fn lemma_same_active<A: Copy>(
    a: &BatchFactoredExecutorState<A>,
    b: &BatchFactoredExecutorState<A>,
)
    requires
        same_active(a, b),
    ensures
        a.parts() == b.parts(),
        a.part_count() == b.part_count(),
        forall|s: int, j: int| #[trigger] a.lane(s, j) == b.lane(s, j),
        a.ready() && b.planes_wf() ==> b.ready(),
{
    assert forall|j: int| #[trigger] a.part(j) == b.part(j) by {}
    assert(a.parts() =~= b.parts());
    assert forall|s: int, j: int| #[trigger] a.lane(s, j) == b.lane(s, j) by {
        assert(a.part(j) == b.part(j));
        assert(a.layout(j) == b.layout(j));
        assert(a.store(j) == b.store(j));
    }
}

pub proof fn lemma_block_symbol<A: Copy>(
    before: &BatchFactoredExecutorState<A>,
    after: &BatchFactoredExecutorState<A>,
    c: i32,
    bits: Seq<u64>,
    first: int,
)
    requires
        before.ready(),
        before.has_slot(c),
        *after == (BatchFactoredExecutorState {
            value_words: after.value_words,
            assigned_words: after.assigned_words,
            ..*before
        }),
        symbol_written(before, after, c, bits),
    ensures
        after.ready(),
        after.block(first) == with_values(
            before.block(first),
            c,
            row_bits(bits, before.active_shots as int),
        ),
{
    lemma_same_active(before, after);
    let b = before.block(first);
    let a = after.block(first);
    let row = row_bits(bits, before.active_shots as int);
    assert(a.known =~= b.known.insert(c));
    assert forall|s: int| 0 <= s < b.shots.len() implies #[trigger] a.shots[s] == b.shots[s].with_value(
        c,
        row[s],
    ) by {
        let x = a.shots[s];
        let y = b.shots[s].with_value(c, row[s]);
        assert(x.values =~= y.values) by {
            assert forall|d: i32| x.values.contains_key(d) == y.values.contains_key(d) by {
                assert(a.known.contains(d) == b.known.insert(c).contains(d));
            }
            assert forall|d: i32| x.values.contains_key(d) implies #[trigger] x.values[d]
                == y.values[d] by {
                if d != c {
                    assert(before.known().contains(d));
                    assert(before.has_slot(d));
                }
                assert(after.value_bit(d, s) == if d == c {
                    row_bit(bits, s)
                } else {
                    before.value_bit(d, s)
                });
            }
        }
        assert(x.lanes =~= y.lanes);
        assert(x.records =~= y.records);
        assert(x.detectors =~= y.detectors);
        assert(x.exps =~= y.exps);
    }
    assert(a.shots =~= with_values(b, c, row).shots);
}

pub proof fn lemma_block_record<A: Copy>(
    before: &BatchFactoredExecutorState<A>,
    after: &BatchFactoredExecutorState<A>,
    id: i32,
    bits: Seq<u64>,
    first: int,
)
    requires
        before.ready(),
        id > 0,
        *after == (BatchFactoredExecutorState {
            nrecords: after.nrecords,
            measurement_words: after.measurement_words,
            ..*before
        }),
        record_written(before, after, id, bits),
    ensures
        after.ready(),
        after.block(first) == with_records(
            before.block(first),
            id as int,
            row_bits(bits, before.active_shots as int),
        ),
{
    lemma_same_active(before, after);
    let b = before.block(first);
    let a = after.block(first);
    let row = row_bits(bits, before.active_shots as int);
    let count = after.nrecords as int;
    assert(a.known =~= b.known);
    assert forall|s: int| 0 <= s < b.shots.len() implies #[trigger] a.shots[s]
        == b.shots[s].with_record(id as int, count, row[s]) by {
        let x = a.shots[s];
        let y = b.shots[s].with_record(id as int, count, row[s]);
        assert(x.values =~= y.values);
        assert(x.lanes =~= y.lanes);
        assert(x.records =~= y.records) by {
            assert forall|q: int| 0 <= q < count implies x.records[q] == y.records[q] by {
                assert(after.record_bit(q + 1, s) == if q + 1 == id {
                    row_bit(bits, s)
                } else {
                    q + 1 <= before.nrecords && before.record_bit(q + 1, s)
                });
            }
        }
        assert(x.detectors =~= y.detectors);
        assert(x.exps =~= y.exps);
    }
    assert(a.shots =~= with_records(b, id as int, row).shots);
}

pub proof fn lemma_block_detector<A: Copy>(
    before: &BatchFactoredExecutorState<A>,
    after: &BatchFactoredExecutorState<A>,
    id: i32,
    bits: Seq<u64>,
    first: int,
)
    requires
        before.ready(),
        id > 0,
        *after == (BatchFactoredExecutorState {
            ndetectors: after.ndetectors,
            detector_words: after.detector_words,
            detector_any_words: after.detector_any_words,
            ..*before
        }),
        detector_written(before, after, id, bits),
    ensures
        after.ready(),
        after.block(first) == with_detectors(
            before.block(first),
            id as int,
            row_bits(bits, before.active_shots as int),
        ),
{
    lemma_same_active(before, after);
    let b = before.block(first);
    let a = after.block(first);
    let row = row_bits(bits, before.active_shots as int);
    let count = after.ndetectors as int;
    let stored = before.store_detector_records;
    assert(a.known =~= b.known);
    assert forall|s: int| 0 <= s < b.shots.len() implies #[trigger] a.shots[s]
        == b.shots[s].with_detector(id as int, count, stored, row[s]) by {
        let x = a.shots[s];
        let y = b.shots[s].with_detector(id as int, count, stored, row[s]);
        assert(x.values =~= y.values);
        assert(x.lanes =~= y.lanes);
        assert(x.records =~= y.records);
        assert(x.detectors =~= y.detectors) by {
            if stored {
                assert forall|q: int| 0 <= q < count implies x.detectors[q] == y.detectors[q] by {
                    assert(after.detector_bit(q + 1, s) == if q + 1 == id {
                        row_bit(bits, s)
                    } else {
                        q + 1 <= before.ndetectors && before.detector_bit(q + 1, s)
                    });
                }
            }
        }
        assert(x.exps =~= y.exps);
        assert(x.fired == y.fired);
    }
    assert(a.shots =~= with_detectors(b, id as int, row).shots);
}

/// Writing one expectation slot of every shot.
pub proof fn lemma_block_exps<A: Copy>(
    before: &BatchFactoredExecutorState<A>,
    after: &BatchFactoredExecutorState<A>,
    e: int,
    values: Seq<u64>,
    first: int,
)
    requires
        before.ready(),
        0 <= e < before.nexpvals,
        values.len() == before.active_shots,
        *after == (BatchFactoredExecutorState { exp_values: after.exp_values, ..*before }),
        after.exp_values@.len() == before.exp_values@.len(),
        forall|i: int|
            0 <= i < before.exp_values@.len() ==> #[trigger] after.exp_values@[i] == if e
                * before.batches <= i < e * before.batches + before.active_shots {
                values[i - e * before.batches]
            } else {
                before.exp_values@[i]
            },
    ensures
        after.ready(),
        after.block(first) == with_exps(before.block(first), e, values),
{
    assert forall|c: i32| #[trigger] after.assigned(c) && c > 0 implies c <= after.nsymbols by {
        assert(before.assigned(c));
    }
    lemma_same_active(before, after);
    let b = before.block(first);
    let a = after.block(first);
    let stride = before.batches as int;
    assert(a.known =~= b.known);
    assert forall|s: int| 0 <= s < b.shots.len() implies #[trigger] a.shots[s] == b.shots[s].with_exp(
        e,
        values[s],
    ) by {
        let x = a.shots[s];
        let y = b.shots[s].with_exp(e, values[s]);
        assert(x.values =~= y.values);
        assert(x.lanes =~= y.lanes);
        assert(x.records =~= y.records);
        assert(x.detectors =~= y.detectors);
        assert(x.exps =~= y.exps) by {
            assert forall|f: int| 0 <= f < before.nexpvals implies x.exps[f] == y.exps[f] by {
                lemma_plane_index(stride, before.nexpvals as int, f, s);
                lemma_plane_index(stride, before.nexpvals as int, e, s);
                let at = f * stride + s;
                if e * stride <= at < e * stride + before.active_shots && f != e {
                    lemma_plane_unique(stride, f, s, e, at - e * stride);
                }
                assert(after.exp_values@[at] == if e * stride <= at < e * stride
                    + before.active_shots {
                    values[at - e * stride]
                } else {
                    before.exp_values@[at]
                });
            }
        }
    }
    assert(a.shots =~= with_exps(b, e, values).shots);
}

/// The bit-planes and slots are the same in both.
pub open spec fn same_planes<A: Copy>(
    a: &BatchFactoredExecutorState<A>,
    b: &BatchFactoredExecutorState<A>,
) -> bool {
    &&& a.batches == b.batches
    &&& a.active_shots == b.active_shots
    &&& a.nsymbols == b.nsymbols
    &&& a.nrecords == b.nrecords
    &&& a.ndetectors == b.ndetectors
    &&& a.nexpvals == b.nexpvals
    &&& a.batch_words == b.batch_words
    &&& a.store_detector_records == b.store_detector_records
    &&& a.value_words == b.value_words
    &&& a.assigned_words == b.assigned_words
    &&& a.measurement_words == b.measurement_words
    &&& a.detector_words == b.detector_words
    &&& a.detector_any_words == b.detector_any_words
    &&& a.exp_values == b.exp_values
}

/// Replacing the lanes of one part.
pub proof fn lemma_block_lanes<A: Copy>(
    before: &BatchFactoredExecutorState<A>,
    after: &BatchFactoredExecutorState<A>,
    j: int,
    lanes: Seq<Seq<A>>,
    first: int,
)
    requires
        before.planes_wf(),
        same_planes(before, after),
        after.active_components_enabled == before.active_components_enabled,
        after.dense_shot_major_active == before.dense_shot_major_active,
        after.part_count() == before.part_count(),
        0 <= j < before.part_count(),
        forall|i: int| 0 <= i < before.part_count() && i != j ==> #[trigger] after.part(i) == before.part(i),
        forall|s: int, i: int|
            0 <= s < before.active_shots && 0 <= i < before.part_count() && i != j
                ==> #[trigger] after.lane(s, i) == before.lane(s, i),
        forall|s: int| 0 <= s < before.active_shots ==> #[trigger] after.lane(s, j) == lanes[s],
    ensures
        after.planes_wf(),
        after.block(first) == (Block {
            k: after.k as int,
            ndormant: after.ndormant as int,
            rng: after.rng_state,
            ..with_lanes(before.block(first), j, after.part(j), lanes)
        }),
{
    assert forall|c: i32| #[trigger] after.assigned(c) && c > 0 implies c <= after.nsymbols by {
        assert(before.assigned(c));
    }
    let b = before.block(first);
    let a = after.block(first);
    let w = with_lanes(b, j, after.part(j), lanes);
    assert(a.known =~= b.known);
    assert(a.parts =~= w.parts);
    assert forall|s: int| 0 <= s < b.shots.len() implies #[trigger] a.shots[s] == b.shots[s].with_lane(
        j,
        lanes[s],
    ) by {
        let x = a.shots[s];
        let y = b.shots[s].with_lane(j, lanes[s]);
        assert(x.values =~= y.values);
        assert(x.lanes =~= y.lanes);
        assert(x.records =~= y.records);
        assert(x.detectors =~= y.detectors);
        assert(x.exps =~= y.exps);
    }
    assert(a.shots =~= w.shots);
}

/// Advancing the generator changes nothing else.
pub proof fn lemma_block_rng<A: Copy>(
    before: &BatchFactoredExecutorState<A>,
    after: &BatchFactoredExecutorState<A>,
    first: int,
)
    requires
        before.ready(),
        *after == (BatchFactoredExecutorState { rng_state: after.rng_state, ..*before }),
    ensures
        after.ready(),
        after.block(first) == (Block { rng: after.rng_state, ..before.block(first) }),
{
    assert forall|c: i32| #[trigger] after.assigned(c) && c > 0 implies c <= after.nsymbols by {
        assert(before.assigned(c));
    }
    lemma_same_active(before, after);
    let b = before.block(first);
    let a = after.block(first);
    assert(a.known =~= b.known);
    assert forall|s: int| 0 <= s < b.shots.len() implies #[trigger] a.shots[s] == b.shots[s] by {
        let x = a.shots[s];
        let y = b.shots[s];
        assert(x.values =~= y.values);
        assert(x.lanes =~= y.lanes);
        assert(x.records =~= y.records);
        assert(x.detectors =~= y.detectors);
        assert(x.exps =~= y.exps);
    }
    assert(a.shots =~= b.shots);
}

} // verus!
