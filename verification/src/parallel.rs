//! Cutting a region into strips for a pool of workers, and putting the
//! workers' results together again in the order of the strips.

use vstd::prelude::*;
use crate::distribute::{share, share_start, lemma_share_bounds, lemma_share_start_step, lemma_share_start_total};
use crate::region::{SetData, SetDefinition, grid_samples, lemma_grid_stack, lemma_strip_inside};

verus! {

/// The number of strips that a region is cut into for each worker, so that
/// a worker that gets slow strips does not leave the others idle.
pub const STRIPS_PER_WORKER: u32 = 10;

/// Cuts a region into the strips that a pool of `threads` workers is given:
/// `STRIPS_PER_WORKER` strips for every worker.
pub fn parallel_strips(set_def: &SetDefinition, threads: u32) -> (strips: Vec<SetDefinition>)
    requires
        set_def.rows_fit(),
        1 <= threads,
        threads * STRIPS_PER_WORKER <= u32::MAX,
    ensures
        strips@ == set_def.spec_split(threads * STRIPS_PER_WORKER),
        strips.len() == threads * STRIPS_PER_WORKER,
        forall|i: int| 0 <= i < strips.len() ==> (#[trigger] strips[i]).rows_fit(),
        set_def.wf() ==> forall|i: int| 0 <= i < strips.len() ==> (#[trigger] strips[i]).wf(),
{
    set_def.split(threads * STRIPS_PER_WORKER)
}

/// The buffers of `bufs` one after the other in one buffer.
pub open spec fn joined(bufs: Seq<Seq<u32>>) -> Seq<u32>
    decreases bufs.len(),
{
    if bufs.len() == 0 {
        Seq::empty()
    } else {
        joined(bufs.drop_last()) + bufs.last()
    }
}

/// The strip numbers with which the results arrived, in order of arrival.
pub open spec fn arrival_indices(sets: Seq<(usize, SetData)>) -> Seq<usize> {
    Seq::new(sets.len(), |j: int| sets[j].0)
}

/// Whether `k` is among the numbers.
pub open spec fn has_number(indices: Seq<usize>, k: int) -> bool {
    exists|j: int| 0 <= j < indices.len() && #[trigger] indices[j] == k
}

/// Whether the numbers are those from 0 up to their count, each once, in
/// any order.
pub open spec fn is_arrangement(indices: Seq<usize>) -> bool {
    &&& forall|j: int| 0 <= j < indices.len() ==> #[trigger] indices[j] < indices.len()
    &&& forall|i: int, j: int|
        0 <= i < j < indices.len() ==> #[trigger] indices[i] != #[trigger] indices[j]
    &&& forall|k: int| 0 <= k < indices.len() ==> #[trigger] has_number(indices, k)
}

/// The first place at or after `from` at which `indices` holds `k`, or the
/// length of `indices` where there is none.
pub open spec fn position_from(indices: Seq<usize>, k: int, from: int) -> int
    decreases indices.len() - from,
{
    if from < 0 || from >= indices.len() {
        indices.len() as int
    } else if indices[from] == k {
        from
    } else {
        position_from(indices, k, from + 1)
    }
}

/// The sample buffers of the results in ascending order of their strip
/// numbers.
pub open spec fn in_strip_order(sets: Seq<(usize, SetData)>) -> Seq<Seq<u32>> {
    Seq::new(
        sets.len(),
        |k: int| sets[position_from(arrival_indices(sets), k, 0)].1.data@,
    )
}

/// `position_from` finds the one place at which a number stands, where
/// there is only one.
pub proof fn lemma_position_found(indices: Seq<usize>, k: int, from: int, at: int)
    requires
        0 <= from <= at < indices.len(),
        indices[at] == k,
        forall|j: int| from <= j < at ==> indices[j] != k,
    ensures
        position_from(indices, k, from) == at,
    decreases at - from,
{
    if from < at {
        lemma_position_found(indices, k, from + 1, at);
    }
}

/// Puts the results of the workers together into the sample buffer of the
/// whole region: the buffers of the strips in ascending order of their strip
/// numbers, whatever the order in which they arrived.
///
/// Each result comes with the number of its strip. There is no whole unless
/// the numbers are those from 0 up to the number of results, each once.
pub fn assemble(set_def: &SetDefinition, sets: Vec<(usize, SetData)>) -> (whole: Option<SetData>)
    ensures
        whole.is_some() <==> is_arrangement(arrival_indices(sets@)),
        whole matches Some(set) ==> set.def == *set_def && set.data@ == joined(
            in_strip_order(sets@),
        ),
{
    let size = sets.len();
    let ghost indices = arrival_indices(sets@);
    // slots[k] is the place in `sets` of the result for strip k; `size` marks a strip
    // whose result has not been seen
    let mut slots: Vec<usize> = Vec::with_capacity(size);
    let mut k: usize = 0;
    while k < size
        invariant
            k <= size,
            slots.len() == k,
            forall|m: int| 0 <= m < k ==> slots[m] == size,
        decreases size - k,
    {
        slots.push(size);
        k += 1;
    }
    let mut j: usize = 0;
    while j < size
        invariant
            size == sets.len(),
            indices == arrival_indices(sets@),
            j <= size,
            slots.len() == size,
            forall|m: int|
                0 <= m < size ==> #[trigger] slots[m] == size || (slots[m] < j
                    && indices[slots[m] as int] == m),
            forall|m: int|
                0 <= m < j ==> #[trigger] indices[m] < size && slots[indices[m] as int] == m,
        decreases size - j,
    {
        let idx: usize = sets[j].0;
        assert(idx == indices[j as int]);
        if idx >= size {
            return None;
        }
        if slots[idx] != size {
            assert(indices[slots[idx as int] as int] == indices[j as int]);
            return None;
        }
        slots.set(idx, j);
        j += 1;
    }
    let mut k: usize = 0;
    while k < size
        invariant
            size == sets.len(),
            indices == arrival_indices(sets@),
            k <= size,
            slots.len() == size,
            forall|m: int|
                0 <= m < size ==> #[trigger] slots[m] == size || (slots[m] < size
                    && indices[slots[m] as int] == m),
            forall|m: int|
                0 <= m < size ==> #[trigger] indices[m] < size && slots[indices[m] as int] == m,
            forall|m: int| 0 <= m < k ==> slots[m] < size,
        decreases size - k,
    {
        if slots[k] == size {
            assert forall|m: int| 0 <= m < size implies #[trigger] indices[m] != k by {
                assert(slots[indices[m] as int] == m);
            }
            assert(!has_number(indices, k as int));
            return None;
        }
        k += 1;
    }
    proof {
        assert forall|a: int, b: int| 0 <= a < b < size implies #[trigger] indices[a]
            != #[trigger] indices[b] by {
            assert(slots[indices[a] as int] == a);
            assert(slots[indices[b] as int] == b);
        }
        assert forall|m: int| 0 <= m < size implies #[trigger] has_number(indices, m) by {
            assert(indices[slots[m] as int] == m);
        }
        assert(is_arrangement(indices));
    }
    let ghost ordered = in_strip_order(sets@);
    let mut data: Vec<u32> = Vec::new();
    let mut k: usize = 0;
    while k < size
        invariant
            size == sets.len(),
            indices == arrival_indices(sets@),
            ordered == in_strip_order(sets@),
            is_arrangement(indices),
            k <= size,
            slots.len() == size,
            forall|m: int| 0 <= m < size ==> #[trigger] slots[m] < size && indices[slots[m] as int] == m,
            data@ == joined(ordered.take(k as int)),
        decreases size - k,
    {
        let at: usize = slots[k];
        proof {
            assert forall|m: int| 0 <= m < at implies indices[m] != k by {
                if indices[m] == k {
                    assert(indices[m] == indices[at as int]);
                }
            }
            lemma_position_found(indices, k as int, 0, at as int);
            assert(ordered[k as int] == sets@[at as int].1.data@);
            assert(ordered.take(k + 1).drop_last() =~= ordered.take(k as int));
        }
        data.extend_from_slice(sets[at].1.data.as_slice());
        k += 1;
    }
    proof {
        assert(ordered.take(size as int) =~= ordered);
    }
    Some(SetData { def: *set_def, data })
}

/// The buffer of one strip of `def` when it is sampled on its own: the
/// sample at row `i` of the strip is the one that `g` gives for the row of
/// the whole region at which row `i` of the strip lies.
pub open spec fn strip_samples(
    def: SetDefinition,
    strip: SetDefinition,
    g: spec_fn(int, int) -> u32,
) -> Seq<u32> {
    grid_samples(
        strip.rows(),
        strip.row_len(),
        |i: int, r: int| g((strip.first_row - def.first_row) * def.oversampling + i, r),
    )
}

proof fn lemma_strips_rebuild_rows(
    def: SetDefinition,
    count: int,
    g: spec_fn(int, int) -> u32,
    bufs: Seq<Seq<u32>>,
    n: int,
)
    requires
        def.wf(),
        0 < count,
        0 <= n <= count,
        bufs.len() == count,
        forall|k: int|
            0 <= k < count ==> #[trigger] bufs[k] == strip_samples(def, def.strip(count, k), g),
    ensures
        joined(bufs.take(n)) == grid_samples(
            share_start(def.height_px as int, count, n) * def.oversampling,
            def.row_len(),
            g,
        ),
    decreases n,
{
    let h = def.height_px as int;
    let os = def.oversampling as int;
    let row_len = def.row_len();
    assert(0 < row_len) by (nonlinear_arith)
        requires
            row_len == def.width_px * def.oversampling,
            def.width_px > 0,
            def.oversampling >= 1,
    ;
    if n == 0 {
        lemma_share_start_step(h, count, 0);
        assert(0 * os == 0);
        assert(0 * row_len == 0);
        assert(joined(bufs.take(0)) =~= grid_samples(0, row_len, g));
    } else {
        lemma_strips_rebuild_rows(def, count, g, bufs, n - 1);
        lemma_strip_inside(def, count, n - 1);
        lemma_share_bounds(h, count, n - 1);
        lemma_share_start_step(h, count, n - 1);
        let strip = def.strip(count, n - 1);
        let below = share_start(h, count, n - 1) * os;
        let above = share(h, count, n - 1) * os;
        assert(0 <= below && 0 <= above && below + above == share_start(h, count, n) * os)
            by (nonlinear_arith)
            requires
                below == share_start(h, count, n - 1) * os,
                above == share(h, count, n - 1) * os,
                share_start(h, count, n) == share_start(h, count, n - 1) + share(h, count, n - 1),
                0 <= share_start(h, count, n - 1),
                0 <= share(h, count, n - 1),
                0 <= os,
        ;
        lemma_grid_stack(below, above, row_len, g);
        assert(bufs.take(n).drop_last() =~= bufs.take(n - 1));
        assert(bufs.take(n).last() == bufs[n - 1]);
        assert(strip.rows() == above);
        assert(strip.row_len() == row_len);
        assert(strip.first_row - def.first_row == share_start(h, count, n - 1));
        assert(bufs[n - 1] =~= grid_samples(above, row_len, |i: int, r: int| g(below + i, r)));
    }
}

/// Sampling the strips of a region one by one and joining their buffers in
/// the order of the strips gives the buffer of the region sampled as a
/// whole, whatever the number of strips: each sample depends only on where
/// it lies in the region.
pub proof fn lemma_strips_rebuild_region(
    def: SetDefinition,
    count: int,
    g: spec_fn(int, int) -> u32,
    bufs: Seq<Seq<u32>>,
)
    requires
        def.wf(),
        0 < count,
        bufs.len() == count,
        forall|k: int|
            0 <= k < count ==> #[trigger] bufs[k] == strip_samples(def, def.strip(count, k), g),
    ensures
        joined(bufs) == grid_samples(def.rows(), def.row_len(), g),
{
    lemma_strips_rebuild_rows(def, count, g, bufs, count);
    lemma_share_start_total(def.height_px as int, count);
    assert(bufs.take(count) =~= bufs);
}

} // verus!
