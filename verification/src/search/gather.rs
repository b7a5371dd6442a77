//! Reassembly of the cells that the shards of an index decompressed.

use crate::score::Score;
use crate::search::merger;
use crate::search::merger::AnnotatedStrideView;
use crate::search::ranking;
use crate::utils::types::{DecompressedCentroidsOutput, ShardCellOutput};
use vstd::prelude::*;

verus! {

/// The last of the first `n` local cells that stands for cell `g`.
pub open spec fn last_local(indices: Seq<usize>, n: int, g: int) -> Option<int>
    decreases n,
{
    if n <= 0 {
        None
    } else if indices[n - 1] == g {
        Some(n - 1)
    } else {
        last_local(indices, n - 1, g)
    }
}

/// The shard, among the first `n`, and its local cell that stand for cell `g`;
/// the last ones where there are several.
pub open spec fn place<S>(outputs: Seq<ShardCellOutput<S>>, n: int, g: int) -> Option<(int, int)>
    decreases n,
{
    if n <= 0 {
        None
    } else {
        let indices = outputs[n - 1].global_cell_indices@;
        match last_local(indices, indices.len() as int, g) {
            Some(l) => Some((n - 1, l)),
            None => place(outputs, n - 1, g),
        }
    }
}

/// The candidates at a place, none where there is no place.
pub open spec fn placed_cell<S>(
    outputs: Seq<ShardCellOutput<S>>,
    at: Option<(int, int)>,
) -> Seq<(i64, S)> {
    match at {
        Some((s, l)) => merger::cell(
            outputs[s].sizes@,
            outputs[s].passage_ids@,
            outputs[s].scores@,
            l,
        ),
        None => Seq::empty(),
    }
}

/// The number of candidates at a place.
pub open spec fn placed_size<S>(outputs: Seq<ShardCellOutput<S>>, at: Option<(int, int)>) -> i32 {
    match at {
        Some((s, l)) => outputs[s].sizes@[l],
        None => 0,
    }
}

/// The capacity at a place.
pub open spec fn placed_capacity<S>(
    outputs: Seq<ShardCellOutput<S>>,
    at: Option<(int, int)>,
) -> i64 {
    match at {
        Some((s, l)) => outputs[s].capacities@[l],
        None => 0,
    }
}

/// The sizes of all cells.
pub open spec fn gathered_sizes<S>(
    outputs: Seq<ShardCellOutput<S>>,
    num_cells: nat,
) -> Seq<i32> {
    Seq::new(
        num_cells,
        |g: int| placed_size(outputs, place(outputs, outputs.len() as int, g)),
    )
}

/// The capacities of all cells.
pub open spec fn gathered_capacities<S>(
    outputs: Seq<ShardCellOutput<S>>,
    num_cells: nat,
) -> Seq<i64> {
    Seq::new(
        num_cells,
        |g: int| placed_capacity(outputs, place(outputs, outputs.len() as int, g)),
    )
}

/// The candidates of all cells.
pub open spec fn gathered_cells<S>(
    outputs: Seq<ShardCellOutput<S>>,
    num_cells: nat,
) -> Seq<Seq<(i64, S)>> {
    Seq::new(
        num_cells,
        |g: int| placed_cell(outputs, place(outputs, outputs.len() as int, g)),
    )
}

pub proof fn last_local_finds(indices: Seq<usize>, n: int, g: int)
    requires
        0 <= n <= indices.len(),
    ensures
        match last_local(indices, n, g) {
            Some(l) => 0 <= l < n && indices[l] == g,
            None => forall|l: int| 0 <= l < n ==> #[trigger] indices[l] != g,
        },
    decreases n,
{
    if 0 < n {
        last_local_finds(indices, n - 1, g);
    }
}

proof fn place_finds<S>(outputs: Seq<ShardCellOutput<S>>, n: int, g: int)
    requires
        0 <= n <= outputs.len(),
    ensures
        match place(outputs, n, g) {
            Some((s, l)) => 0 <= s < n && last_local(
                outputs[s].global_cell_indices@,
                outputs[s].global_cell_indices@.len() as int,
                g,
            ) == Some(l),
            None => forall|s: int|
                0 <= s < n ==> last_local(
                    (#[trigger] outputs[s]).global_cell_indices@,
                    outputs[s].global_cell_indices@.len() as int,
                    g,
                ) is None,
        },
    decreases n,
{
    if 0 < n {
        place_finds(outputs, n - 1, g);
    }
}

/// No cell is in the outputs of two shards.
pub open spec fn disjoint_cells<S>(outputs: Seq<ShardCellOutput<S>>) -> bool {
    forall|s: int, t: int, l: int, m: int|
        #![trigger outputs[s].global_cell_indices@[l], outputs[t].global_cell_indices@[m]]
        0 <= s < outputs.len() && 0 <= t < outputs.len() && s != t && 0 <= l
            < outputs[s].global_cell_indices@.len() && 0 <= m
            < outputs[t].global_cell_indices@.len() ==> outputs[s].global_cell_indices@[l]
            != outputs[t].global_cell_indices@[m]
}

/// The outputs in another order.
pub open spec fn reordered<S>(
    outputs: Seq<ShardCellOutput<S>>,
    order: Seq<usize>,
) -> Seq<ShardCellOutput<S>> {
    order.map_values(|s: usize| outputs[s as int])
}

/// The order in which the shards' outputs come does not matter, where no cell is
/// in two of them: the cells, their sizes and their capacities are the same.
pub proof fn order_of_shards_is_free<S>(
    outputs: Seq<ShardCellOutput<S>>,
    order: Seq<usize>,
    num_cells: nat,
)
    requires
        ranking::arrangement(outputs.len(), order),
        outputs.len() <= usize::MAX,
        disjoint_cells(outputs),
    ensures
        gathered_cells(reordered(outputs, order), num_cells) == gathered_cells(outputs, num_cells),
        gathered_sizes(reordered(outputs, order), num_cells) == gathered_sizes(outputs, num_cells),
        gathered_capacities(reordered(outputs, order), num_cells) == gathered_capacities(
            outputs,
            num_cells,
        ),
{
    let others = reordered(outputs, order);
    let n = outputs.len() as int;
    assert forall|g: int| 0 <= g < num_cells implies ({
        let at = #[trigger] place(outputs, n, g);
        let other = place(others, n, g);
        &&& placed_cell(outputs, at) == placed_cell(others, other)
        &&& placed_size(outputs, at) == placed_size(others, other)
        &&& placed_capacity(outputs, at) == placed_capacity(others, other)
    }) by {
        place_finds(outputs, n, g);
        place_finds(others, n, g);
        match place(outputs, n, g) {
            Some((s, l)) => {
                let own = outputs[s].global_cell_indices@;
                last_local_finds(own, own.len() as int, g);
                assert(order.contains(s as usize));
                let r = choose|r: int| 0 <= r < order.len() && order[r] == s as usize;
                assert(others[r] == outputs[s]);
                assert(place(others, n, g) is Some);
                let (t, m) = place(others, n, g)->Some_0;
                let found = others[t].global_cell_indices@;
                last_local_finds(found, found.len() as int, g);
                let u = order[t] as int;
                assert(others[t] == outputs[u]);
                assert(outputs[u].global_cell_indices@[m] == g);
                assert(outputs[s].global_cell_indices@[l] == g);
                assert(u == s);
            },
            None => {
                if let Some((t, m)) = place(others, n, g) {
                    let u = order[t] as int;
                    assert(others[t] == outputs[u]);
                }
            },
        }
    }
    assert(gathered_cells(others, num_cells) =~= gathered_cells(outputs, num_cells));
    assert(gathered_sizes(others, num_cells) =~= gathered_sizes(outputs, num_cells));
    assert(gathered_capacities(others, num_cells) =~= gathered_capacities(outputs, num_cells));
}

/// A shard's output that accounts for each of its cells, all of them below `num_cells`.
pub open spec fn output_wf<S>(output: ShardCellOutput<S>, num_cells: int) -> bool {
    let n = output.global_cell_indices@.len();
    &&& n <= output.capacities@.len()
    &&& n <= output.sizes@.len()
    &&& forall|l: int| 0 <= l < n ==> (#[trigger] output.global_cell_indices@[l]) < num_cells
    &&& forall|l: int| 0 <= l < n ==> 0 <= #[trigger] output.sizes@[l]
    &&& merger::cell_offset(output.sizes@, n as int) <= output.passage_ids@.len()
    &&& merger::cell_offset(output.sizes@, n as int) <= output.scores@.len()
}

/// The place of a cell once the first `l` cells of shard `s` are in.
spec fn place_so_far<S>(
    outputs: Seq<ShardCellOutput<S>>,
    s: int,
    l: int,
    g: int,
) -> Option<(int, int)> {
    match last_local(outputs[s].global_cell_indices@, l, g) {
        Some(found) => Some((s, found)),
        None => place(outputs, s, g),
    }
}

/// The candidate lists, sizes and capacities of the cells are those at their places.
spec fn holds_places<S>(
    outputs: Seq<ShardCellOutput<S>>,
    at: spec_fn(int) -> Option<(int, int)>,
    views: Seq<AnnotatedStrideView<S>>,
    sizes: Seq<i32>,
    capacities: Seq<i64>,
) -> bool {
    &&& views.len() == sizes.len() == capacities.len()
    &&& forall|g: int| 0 <= g < views.len() ==> (#[trigger] views[g]).wf()
    &&& forall|g: int|
        0 <= g < views.len() ==> (#[trigger] views[g]).entries() == placed_cell(outputs, at(g))
    &&& forall|g: int| 0 <= g < sizes.len() ==> #[trigger] sizes[g] == placed_size(outputs, at(g))
    &&& forall|g: int|
        0 <= g < capacities.len() ==> #[trigger] capacities[g] == placed_capacity(outputs, at(g))
    &&& forall|g: int| 0 <= g < sizes.len() ==> (#[trigger] sizes[g]) == views[g].size
}

proof fn offset_step(sizes: Seq<i32>, i: int, j: int, n: int)
    requires
        0 <= i <= j <= n <= sizes.len(),
        forall|c: int| 0 <= c < n ==> 0 <= #[trigger] sizes[c],
    ensures
        0 <= merger::cell_offset(sizes, i) <= merger::cell_offset(sizes, j),
    decreases j,
{
    if i < j {
        offset_step(sizes, i, j - 1, n);
    } else if 0 < j {
        offset_step(sizes, i - 1, j - 1, n);
    }
}

/// Puts one shard's cells into their places.
fn place_output<S: Score>(
    outputs: &Vec<ShardCellOutput<S>>,
    s: usize,
    views: &mut Vec<AnnotatedStrideView<S>>,
    sizes: &mut Vec<i32>,
    capacities: &mut Vec<i64>,
)
    requires
        s < outputs@.len(),
        output_wf(outputs@[s as int], old(views)@.len() as int),
        holds_places(
            outputs@,
            |g: int| place(outputs@, s as int, g),
            old(views)@,
            old(sizes)@,
            old(capacities)@,
        ),
    ensures
        final(views)@.len() == old(views)@.len(),
        holds_places(
            outputs@,
            |g: int| place(outputs@, s + 1, g),
            final(views)@,
            final(sizes)@,
            final(capacities)@,
        ),
{
    let output = &outputs[s];
    let n: usize = output.global_cell_indices.len();
    let mut offset: usize = 0;
    let mut l: usize = 0;
    let ghost num_cells = views@.len();
    assert(merger::cell_offset(output.sizes@, n as int) <= output.passage_ids.len());
    while l < n
        invariant
            *output == outputs@[s as int],
            s < outputs@.len(),
            l <= n,
            n == output.global_cell_indices@.len(),
            output_wf(*output, num_cells as int),
            num_cells == views@.len(),
            merger::cell_offset(output.sizes@, n as int) <= usize::MAX,
            offset == merger::cell_offset(output.sizes@, l as int),
            holds_places(
                outputs@,
                |g: int| place_so_far(outputs@, s as int, l as int, g),
                views@,
                sizes@,
                capacities@,
            ),
        decreases n - l,
    {
        let global_cell: usize = output.global_cell_indices[l];
        assert(output.global_cell_indices@[l as int] < num_cells);
        assert(0 <= output.sizes@[l as int]);
        let size: usize = output.sizes[l] as usize;
        proof {
            offset_step(output.sizes@, l + 1, n as int, n as int);
        }
        let mut cell_pids: Vec<i64> = Vec::new();
        let mut cell_scores: Vec<S> = Vec::new();
        let end: usize = offset + size;
        let mut j: usize = offset;
        while j < end
            invariant
                offset <= j <= end,
                end <= output.passage_ids@.len(),
                end <= output.scores@.len(),
                cell_pids@ == output.passage_ids@.subrange(offset as int, j as int),
                cell_scores@ == output.scores@.subrange(offset as int, j as int),
            decreases end - j,
        {
            cell_pids.push(output.passage_ids[j]);
            cell_scores.push(output.scores[j]);
            j += 1;
        }
        let ghost before = views@;
        let ghost now = |g: int| place_so_far(outputs@, s as int, l + 1, g);
        let view = AnnotatedStrideView::from_data(cell_pids, cell_scores, size);
        assert(view.entries() =~= merger::cell(
            output.sizes@,
            output.passage_ids@,
            output.scores@,
            l as int,
        ));
        views.set(global_cell, view);
        sizes.set(global_cell, output.sizes[l]);
        capacities.set(global_cell, output.capacities[l]);
        proof {
            assert forall|g: int| 0 <= g < num_cells implies now(g) == (if g == global_cell {
                Some((s as int, l as int))
            } else {
                place_so_far(outputs@, s as int, l as int, g)
            }) by {}
            assert(holds_places(outputs@, now, views@, sizes@, capacities@)) by {
                assert forall|g: int| 0 <= g < num_cells implies (#[trigger] views@[g]).entries()
                    == placed_cell(outputs@, now(g)) by {
                    if g != global_cell {
                        assert(views@[g] == before[g]);
                    }
                }
            }
        }
        offset = end;
        l += 1;
    }
    proof {
        assert forall|g: int| 0 <= g < num_cells implies place_so_far(
            outputs@,
            s as int,
            n as int,
            g,
        ) == place(outputs@, s + 1, g) by {}
        assert(holds_places(
            outputs@,
            |g: int| place(outputs@, s + 1, g),
            views@,
            sizes@,
            capacities@,
        ));
    }
}

/// The arrays hold the candidates of the first `n` cells.
spec fn holds_cells<S>(
    sizes: Seq<i32>,
    pids: Seq<i64>,
    scores: Seq<S>,
    contents: Seq<Seq<(i64, S)>>,
    n: int,
) -> bool {
    &&& pids.len() == merger::cell_offset(sizes, n)
    &&& scores.len() == merger::cell_offset(sizes, n)
    &&& forall|c: int| 0 <= c < n ==> #[trigger] merger::cell(sizes, pids, scores, c) == contents[c]
}

/// `r` holds the cells of all shards, one after the other, with their sizes, their
/// capacities, and the places where they start.
pub open spec fn is_gathered<S>(
    outputs: Seq<ShardCellOutput<S>>,
    num_cells: nat,
    r: DecompressedCentroidsOutput<S>,
) -> bool {
    &&& r.capacities@ == gathered_capacities(outputs, num_cells)
    &&& r.sizes@ == gathered_sizes(outputs, num_cells)
    &&& merger::cells(num_cells, r.sizes@, r.passage_ids@, r.scores@) == gathered_cells(
        outputs,
        num_cells,
    )
    &&& r.passage_ids@.len() == merger::cell_offset(r.sizes@, num_cells as int)
    &&& r.scores@.len() == merger::cell_offset(r.sizes@, num_cells as int)
    &&& r.offsets@ == Seq::new(
        num_cells + 1,
        |i: int| merger::cell_offset(r.sizes@, i) as i64,
    )
}

/// The cells determine the arrays that hold them one after the other.
pub proof fn cells_fix_arrays<S>(
    sizes: Seq<i32>,
    n: int,
    pids: Seq<i64>,
    scores: Seq<S>,
    other_pids: Seq<i64>,
    other_scores: Seq<S>,
    i: int,
)
    requires
        0 <= n <= sizes.len(),
        forall|c: int| 0 <= c < n ==> 0 <= #[trigger] sizes[c],
        forall|c: int|
            0 <= c < n ==> #[trigger] merger::cell(sizes, pids, scores, c) == merger::cell(
                sizes,
                other_pids,
                other_scores,
                c,
            ),
        0 <= i < merger::cell_offset(sizes, n),
    ensures
        pids[i] == other_pids[i],
        scores[i] == other_scores[i],
    decreases n,
{
    if n > 0 {
        let start = merger::cell_offset(sizes, n - 1);
        if i < start {
            cells_fix_arrays(sizes, n - 1, pids, scores, other_pids, other_scores, i);
        } else {
            let a = merger::cell(sizes, pids, scores, n - 1);
            let b = merger::cell(sizes, other_pids, other_scores, n - 1);
            assert(a == b);
            assert(a[i - start] == (pids[i], scores[i]));
            assert(b[i - start] == (other_pids[i], other_scores[i]));
        }
    }
}

/// No cell occurs twice over all shards.
pub open spec fn distinct_cells<S>(outputs: Seq<ShardCellOutput<S>>) -> bool {
    &&& disjoint_cells(outputs)
    &&& forall|s: int|
        0 <= s < outputs.len() ==> (
        #[trigger] outputs[s]).global_cell_indices@.no_duplicates()
}

/// No shard has the cell.
pub open spec fn in_no_shard<S>(outputs: Seq<ShardCellOutput<S>>, g: int) -> bool {
    forall|s: int, l: int|
        0 <= s < outputs.len() && 0 <= l < outputs[s].global_cell_indices@.len()
            ==> #[trigger] outputs[s].global_cell_indices@[l] != g
}

/// Cell `g` of `r` is local cell `l` of the shard: it has its size, its capacity
/// and its slices of passage IDs and scores.
pub open spec fn is_slice<S>(
    output: ShardCellOutput<S>,
    l: int,
    r: DecompressedCentroidsOutput<S>,
    g: int,
) -> bool {
    let from = merger::cell_offset(output.sizes@, l);
    let to = merger::cell_offset(output.sizes@, l + 1);
    let start = merger::cell_offset(r.sizes@, g);
    let end = merger::cell_offset(r.sizes@, g + 1);
    &&& r.sizes@[g] == output.sizes@[l]
    &&& r.capacities@[g] == output.capacities@[l]
    &&& r.passage_ids@.subrange(start, end) == output.passage_ids@.subrange(from, to)
    &&& r.scores@.subrange(start, end) == output.scores@.subrange(from, to)
}

proof fn gathered_sizes_count<S>(outputs: Seq<ShardCellOutput<S>>, num_cells: nat)
    requires
        forall|s: int|
            0 <= s < outputs.len() ==> output_wf(#[trigger] outputs[s], num_cells as int),
    ensures
        forall|g: int|
            0 <= g < num_cells ==> 0 <= #[trigger] gathered_sizes(outputs, num_cells)[g],
{
    let n = outputs.len() as int;
    assert forall|g: int| 0 <= g < num_cells implies 0 <= #[trigger] gathered_sizes(
        outputs,
        num_cells,
    )[g] by {
        place_finds(outputs, n, g);
        if let Some((s, l)) = place(outputs, n, g) {
            let own = outputs[s].global_cell_indices@;
            last_local_finds(own, own.len() as int, g);
            assert(output_wf(outputs[s], num_cells as int));
            assert(0 <= outputs[s].sizes@[l]);
        }
    }
}

proof fn cell_is_slice<S>(
    outputs: Seq<ShardCellOutput<S>>,
    num_cells: nat,
    r: DecompressedCentroidsOutput<S>,
    s: int,
    l: int,
)
    requires
        forall|t: int|
            0 <= t < outputs.len() ==> output_wf(#[trigger] outputs[t], num_cells as int),
        distinct_cells(outputs),
        is_gathered(outputs, num_cells, r),
        0 <= s < outputs.len(),
        0 <= l < outputs[s].global_cell_indices@.len(),
    ensures
        is_slice(outputs[s], l, r, outputs[s].global_cell_indices@[l] as int),
{
    let output = outputs[s];
    let own = output.global_cell_indices@;
    let g = own[l] as int;
    assert(output_wf(output, num_cells as int));
    let n = outputs.len() as int;
    place_finds(outputs, n, g);
    gathered_sizes_count(outputs, num_cells);
    last_local_finds(own, own.len() as int, g);
    assert(place(outputs, n, g) is Some);
    let (t, m) = place(outputs, n, g)->Some_0;
    let found = outputs[t].global_cell_indices@;
    last_local_finds(found, found.len() as int, g);
    assert(outputs[t].global_cell_indices@[m] == outputs[s].global_cell_indices@[l]);
    assert(t == s);
    assert(m == l);
    assert(r.sizes@[g] == output.sizes@[l]);
    assert(r.capacities@[g] == output.capacities@[l]);
    let cell = merger::cell(output.sizes@, output.passage_ids@, output.scores@, l);
    let other = merger::cell(r.sizes@, r.passage_ids@, r.scores@, g);
    assert(other == merger::cells(num_cells, r.sizes@, r.passage_ids@, r.scores@)[g]);
    assert(gathered_cells(outputs, num_cells)[g] == cell);
    assert(cell == other);
    let from = merger::cell_offset(output.sizes@, l);
    let start = merger::cell_offset(r.sizes@, g);
    let size = output.sizes@[l] as int;
    offset_step(output.sizes@, l + 1, own.len() as int, own.len() as int);
    offset_step(output.sizes@, l, l + 1, own.len() as int);
    offset_step(r.sizes@, g, g + 1, num_cells as int);
    offset_step(r.sizes@, g + 1, num_cells as int, num_cells as int);
    let (pids, own_pids) = (
        r.passage_ids@.subrange(start, start + size),
        output.passage_ids@.subrange(from, from + size),
    );
    let (scores, own_scores) = (
        r.scores@.subrange(start, start + size),
        output.scores@.subrange(from, from + size),
    );
    assert forall|i: int| 0 <= i < size implies #[trigger] pids[i] == own_pids[i] by {
        assert(cell[i] == other[i]);
    }
    assert forall|i: int| 0 <= i < size implies #[trigger] scores[i] == own_scores[i] by {
        assert(cell[i] == other[i]);
    }
    assert(pids =~= own_pids);
    assert(scores =~= own_scores);
}

/// Where no cell occurs twice over all shards, gathering gives each cell what its
/// shard gave for it, and a cell that no shard has is empty. The cells start at
/// the running sums of the sizes.
pub proof fn gathered_cells_are_slices<S>(
    outputs: Seq<ShardCellOutput<S>>,
    num_cells: nat,
    r: DecompressedCentroidsOutput<S>,
)
    requires
        forall|s: int|
            0 <= s < outputs.len() ==> output_wf(#[trigger] outputs[s], num_cells as int),
        distinct_cells(outputs),
        is_gathered(outputs, num_cells, r),
    ensures
        r.offsets@.len() == num_cells + 1,
        r.sizes@.len() == num_cells,
        r.capacities@.len() == num_cells,
        r.passage_ids@.len() <= i64::MAX ==> forall|g: int|
            0 <= g <= num_cells ==> #[trigger] r.offsets@[g] == merger::cell_offset(r.sizes@, g),
        forall|s: int, l: int|
            #![trigger outputs[s].global_cell_indices@[l]]
            0 <= s < outputs.len() && 0 <= l < outputs[s].global_cell_indices@.len() ==> is_slice(
                outputs[s],
                l,
                r,
                outputs[s].global_cell_indices@[l] as int,
            ),
        forall|g: int|
            #![trigger r.sizes@[g]]
            0 <= g < num_cells && in_no_shard(outputs, g) ==> r.sizes@[g] == 0 && r.capacities@[g]
                == 0,
{
    let n = outputs.len() as int;
    gathered_sizes_count(outputs, num_cells);
    assert forall|g: int| 0 <= g <= num_cells implies 0 <= #[trigger] merger::cell_offset(
        r.sizes@,
        g,
    ) <= r.passage_ids@.len() by {
        offset_step(r.sizes@, g, num_cells as int, num_cells as int);
    }
    assert forall|s: int, l: int|
        #![trigger outputs[s].global_cell_indices@[l]]
        0 <= s < n && 0 <= l < outputs[s].global_cell_indices@.len() implies is_slice(
        outputs[s],
        l,
        r,
        outputs[s].global_cell_indices@[l] as int,
    ) by {
        cell_is_slice(outputs, num_cells, r, s, l);
    }
    assert forall|g: int|
        #![trigger r.sizes@[g]]
        0 <= g < num_cells && in_no_shard(outputs, g) implies r.sizes@[g] == 0 && r.capacities@[g]
        == 0 by {
        place_finds(outputs, n, g);
        if let Some((s, l)) = place(outputs, n, g) {
            let own = outputs[s].global_cell_indices@;
            last_local_finds(own, own.len() as int, g);
            assert(outputs[s].global_cell_indices@[l] == g);
        }
    }
}

/// `starts` are the places where cells of the given sizes start, one after the other,
/// and the place where the last of the first `n` ends.
pub open spec fn cell_starts(sizes: Seq<i32>, n: int, starts: Seq<int>) -> bool {
    &&& starts.len() == n + 1
    &&& starts[0] == 0
    &&& forall|c: int| 0 <= c < n ==> starts[c + 1] == starts[c] + #[trigger] sizes[c]
}

proof fn starts_are_offsets(sizes: Seq<i32>, n: int, starts: Seq<int>, c: int)
    requires
        cell_starts(sizes, n, starts),
        0 <= c <= n <= sizes.len(),
    ensures
        merger::cell_offset(sizes, c) == starts[c],
    decreases c,
{
    if 0 < c {
        starts_are_offsets(sizes, n, starts, c - 1);
        assert(starts[c] == starts[c - 1] + sizes[c - 1]);
    }
}

proof fn slice_candidates<S>(
    output: ShardCellOutput<S>,
    l: int,
    n: int,
    r: DecompressedCentroidsOutput<S>,
    g: int,
    num_cells: int,
    starts: Seq<int>,
    local_starts: Seq<int>,
)
    requires
        is_slice(output, l, r, g),
        0 <= l < n <= output.sizes@.len(),
        0 <= g < num_cells <= r.sizes@.len(),
        forall|c: int| 0 <= c < num_cells ==> 0 <= #[trigger] r.sizes@[c],
        forall|c: int| 0 <= c < n ==> 0 <= #[trigger] output.sizes@[c],
        cell_starts(r.sizes@, num_cells, starts),
        cell_starts(output.sizes@, n, local_starts),
        merger::cell_offset(r.sizes@, num_cells) == r.passage_ids@.len(),
        merger::cell_offset(r.sizes@, num_cells) == r.scores@.len(),
        merger::cell_offset(output.sizes@, n) <= output.passage_ids@.len(),
        merger::cell_offset(output.sizes@, n) <= output.scores@.len(),
    ensures
        forall|i: int|
            #![trigger r.passage_ids@[starts[g] + i]]
            0 <= i < output.sizes@[l] ==> r.passage_ids@[starts[g] + i]
                == output.passage_ids@[local_starts[l] + i] && r.scores@[starts[g] + i]
                == output.scores@[local_starts[l] + i],
{
    starts_are_offsets(r.sizes@, num_cells, starts, g);
    starts_are_offsets(output.sizes@, n, local_starts, l);
    offset_step(r.sizes@, g + 1, num_cells, num_cells);
    offset_step(r.sizes@, g, g + 1, num_cells);
    offset_step(output.sizes@, l + 1, n, n);
    offset_step(output.sizes@, l, l + 1, n);
    let (start, from) = (starts[g], local_starts[l]);
    let (end, to) = (start + r.sizes@[g], from + output.sizes@[l]);
    assert(merger::cell_offset(r.sizes@, g + 1) == end);
    assert(merger::cell_offset(output.sizes@, l + 1) == to);
    assert forall|i: int|
        #![trigger r.passage_ids@[start + i]]
        0 <= i < output.sizes@[l] implies r.passage_ids@[start + i] == output.passage_ids@[from + i]
        && r.scores@[start + i] == output.scores@[from + i] by {
        assert(r.passage_ids@.subrange(start, end)[i] == output.passage_ids@.subrange(from, to)[i]);
        assert(r.scores@.subrange(start, end)[i] == output.scores@.subrange(from, to)[i]);
    }
}

/// Where no cell occurs twice over all shards, the candidates of a shard's cell are
/// found, each with its score, at the start of that cell among all.
pub proof fn gathered_cells_hold_candidates<S>(
    outputs: Seq<ShardCellOutput<S>>,
    num_cells: nat,
    r: DecompressedCentroidsOutput<S>,
    starts: Seq<int>,
    s: int,
    l: int,
    local_starts: Seq<int>,
)
    requires
        forall|t: int|
            0 <= t < outputs.len() ==> output_wf(#[trigger] outputs[t], num_cells as int),
        distinct_cells(outputs),
        is_gathered(outputs, num_cells, r),
        0 <= s < outputs.len(),
        0 <= l < outputs[s].global_cell_indices@.len(),
        cell_starts(r.sizes@, num_cells as int, starts),
        cell_starts(
            outputs[s].sizes@,
            outputs[s].global_cell_indices@.len() as int,
            local_starts,
        ),
    ensures
        ({
            let g = outputs[s].global_cell_indices@[l] as int;
            &&& r.sizes@[g] == outputs[s].sizes@[l]
            &&& r.capacities@[g] == outputs[s].capacities@[l]
            &&& forall|i: int|
                #![trigger r.passage_ids@[starts[g] + i]]
                0 <= i < outputs[s].sizes@[l] ==> r.passage_ids@[starts[g] + i]
                    == outputs[s].passage_ids@[local_starts[l] + i] && r.scores@[starts[g] + i]
                    == outputs[s].scores@[local_starts[l] + i]
        }),
        r.passage_ids@.len() == starts[num_cells as int],
        r.scores@.len() == starts[num_cells as int],
        r.passage_ids@.len() <= i64::MAX ==> forall|g: int|
            0 <= g <= num_cells ==> #[trigger] r.offsets@[g] == starts[g],
{
    let output = outputs[s];
    let own = output.global_cell_indices@;
    let n = own.len() as int;
    let g = own[l] as int;
    assert(output_wf(output, num_cells as int) && g < num_cells);
    assert(is_slice(output, l, r, g)) by {
        cell_is_slice(outputs, num_cells, r, s, l);
    }
    assert(forall|c: int| 0 <= c < num_cells ==> 0 <= #[trigger] r.sizes@[c]) by {
        gathered_sizes_count(outputs, num_cells);
    }
    slice_candidates(
        output,
        l,
        n,
        r,
        g,
        num_cells as int,
        starts,
        local_starts,
    );
    starts_are_offsets(r.sizes@, num_cells as int, starts, num_cells as int);
    assert forall|c: int|
        0 <= c <= num_cells && r.passage_ids@.len() <= i64::MAX implies #[trigger] r.offsets@[c]
        == starts[c] by {
        starts_are_offsets(r.sizes@, num_cells as int, starts, c);
        offset_step(r.sizes@, c, num_cells as int, num_cells as int);
    }
}

/// A shard's output can be gathered where its sizes account for its cells and its
/// cells are among all.
pub proof fn complete_outputs_fit<S>(output: ShardCellOutput<S>, num_cells: int, starts: Seq<int>)
    requires
        output.global_cell_indices@.len() <= output.capacities@.len(),
        output.global_cell_indices@.len() <= output.sizes@.len(),
        forall|l: int|
            0 <= l < output.global_cell_indices@.len() ==> (
            #[trigger] output.global_cell_indices@[l]) < num_cells,
        forall|l: int|
            0 <= l < output.global_cell_indices@.len() ==> 0 <= #[trigger] output.sizes@[l],
        cell_starts(output.sizes@, output.global_cell_indices@.len() as int, starts),
        starts[output.global_cell_indices@.len() as int] <= output.passage_ids@.len(),
        starts[output.global_cell_indices@.len() as int] <= output.scores@.len(),
    ensures
        output_wf(output, num_cells),
{
    let n = output.global_cell_indices@.len() as int;
    starts_are_offsets(output.sizes@, n, starts, n);
}

/// No shard after `s`, and no cell of shard `s` after `l`, stands for the same cell.
pub open spec fn comes_last<S>(outputs: Seq<ShardCellOutput<S>>, s: int, l: int) -> bool {
    forall|t: int, m: int|
        #![trigger outputs[t].global_cell_indices@[m]]
        (s < t < outputs.len() && 0 <= m < outputs[t].global_cell_indices@.len()) || (t == s && l < m
            < outputs[s].global_cell_indices@.len()) ==> outputs[t].global_cell_indices@[m]
            != outputs[s].global_cell_indices@[l]
}

proof fn last_local_is_last(indices: Seq<usize>, n: int, l: int)
    requires
        0 <= l < n <= indices.len(),
        forall|m: int| l < m < n ==> #[trigger] indices[m] != indices[l],
    ensures
        last_local(indices, n, indices[l] as int) == Some(l),
    decreases n,
{
    if l < n - 1 {
        assert(indices[n - 1] != indices[l]);
        last_local_is_last(indices, n - 1, l);
    }
}

proof fn place_is_last<S>(outputs: Seq<ShardCellOutput<S>>, n: int, s: int, l: int)
    requires
        0 <= s < n <= outputs.len(),
        0 <= l < outputs[s].global_cell_indices@.len(),
        comes_last(outputs, s, l),
    ensures
        place(outputs, n, outputs[s].global_cell_indices@[l] as int) == Some((s, l)),
    decreases n,
{
    let g = outputs[s].global_cell_indices@[l] as int;
    let own = outputs[n - 1].global_cell_indices@;
    if s == n - 1 {
        assert forall|m: int| l < m < own.len() implies #[trigger] own[m] != own[l] by {
            assert(outputs[s].global_cell_indices@[m] != outputs[s].global_cell_indices@[l]);
        }
        last_local_is_last(own, own.len() as int, l);
    } else {
        last_local_finds(own, own.len() as int, g);
        if let Some(m) = last_local(own, own.len() as int, g) {
            assert(outputs[n - 1].global_cell_indices@[m] != outputs[s].global_cell_indices@[l]);
        }
        place_is_last(outputs, n - 1, s, l);
    }
}

/// Where several cells of the shards stand for the same cell, the last one, of the
/// last shard that has one, gives its size and capacity.
pub proof fn last_output_wins<S>(
    outputs: Seq<ShardCellOutput<S>>,
    num_cells: nat,
    r: DecompressedCentroidsOutput<S>,
    s: int,
    l: int,
)
    requires
        is_gathered(outputs, num_cells, r),
        0 <= s < outputs.len(),
        0 <= l < outputs[s].global_cell_indices@.len(),
        outputs[s].global_cell_indices@[l] < num_cells,
        comes_last(outputs, s, l),
    ensures
        r.sizes@[outputs[s].global_cell_indices@[l] as int] == outputs[s].sizes@[l],
        r.capacities@[outputs[s].global_cell_indices@[l] as int] == outputs[s].capacities@[l],
        merger::cell(
            r.sizes@,
            r.passage_ids@,
            r.scores@,
            outputs[s].global_cell_indices@[l] as int,
        ) == merger::cell(outputs[s].sizes@, outputs[s].passage_ids@, outputs[s].scores@, l),
{
    let g = outputs[s].global_cell_indices@[l] as int;
    place_is_last(outputs, outputs.len() as int, s, l);
    assert(merger::cells(num_cells, r.sizes@, r.passage_ids@, r.scores@)[g] == gathered_cells(
        outputs,
        num_cells,
    )[g]);
}

/// Any order of the shards' outputs gathers to the same, where no cell is in two
/// of them.
pub proof fn reordered_shards_gather_alike<S>(
    outputs: Seq<ShardCellOutput<S>>,
    order: Seq<usize>,
    num_cells: nat,
    r: DecompressedCentroidsOutput<S>,
    other: DecompressedCentroidsOutput<S>,
)
    requires
        forall|s: int|
            0 <= s < outputs.len() ==> output_wf(#[trigger] outputs[s], num_cells as int),
        ranking::arrangement(outputs.len(), order),
        outputs.len() <= usize::MAX,
        disjoint_cells(outputs),
        is_gathered(outputs, num_cells, r),
        is_gathered(reordered(outputs, order), num_cells, other),
    ensures
        other.capacities@ == r.capacities@,
        other.sizes@ == r.sizes@,
        other.passage_ids@ == r.passage_ids@,
        other.scores@ == r.scores@,
        other.offsets@ == r.offsets@,
{
    order_of_shards_is_free(outputs, order, num_cells);
    gathered_sizes_count(outputs, num_cells);
    let sizes = r.sizes@;
    assert forall|c: int| 0 <= c < num_cells implies #[trigger] merger::cell(
        sizes,
        other.passage_ids@,
        other.scores@,
        c,
    ) == merger::cell(sizes, r.passage_ids@, r.scores@, c) by {
        assert(merger::cells(num_cells, sizes, other.passage_ids@, other.scores@)[c]
            == merger::cells(num_cells, sizes, r.passage_ids@, r.scores@)[c]);
    }
    let (p, q) = (other.passage_ids@, other.scores@);
    assert forall|i: int| 0 <= i < p.len() implies #[trigger] p[i] == r.passage_ids@[i] by {
        cells_fix_arrays(sizes, num_cells as int, p, q, r.passage_ids@, r.scores@, i);
    }
    assert forall|i: int| 0 <= i < q.len() implies #[trigger] q[i] == r.scores@[i] by {
        cells_fix_arrays(sizes, num_cells as int, p, q, r.passage_ids@, r.scores@, i);
    }
    assert(other.passage_ids@ =~= r.passage_ids@);
    assert(other.scores@ =~= r.scores@);
}

/// Reassemble per-shard decompression results into a single
/// `DecompressedCentroidsOutput` ordered by global cell index.
///
/// Each shard returns its decompressed cells tagged with their position in the
/// global cell list (0..num_tokens*nprobe). This function places them back into
/// the cell-ordered structure that the merge expects.
pub fn gather_shard_cells<S: Score>(
    shard_outputs: Vec<ShardCellOutput<S>>,
    num_cells: usize,
) -> (r: DecompressedCentroidsOutput<S>)
    requires
        forall|s: int|
            0 <= s < shard_outputs@.len() ==> output_wf(
                #[trigger] shard_outputs@[s],
                num_cells as int,
            ),
    ensures
        is_gathered(shard_outputs@, num_cells as nat, r),
{
    let mut views: Vec<AnnotatedStrideView<S>> = Vec::new();
    let mut sizes: Vec<i32> = Vec::new();
    let mut capacities: Vec<i64> = Vec::new();
    let ghost outputs = shard_outputs@;
    let mut i: usize = 0;
    while i < num_cells
        invariant
            i <= num_cells,
            views@.len() == i,
            holds_places(outputs, |g: int| place(outputs, 0, g), views@, sizes@, capacities@),
        decreases num_cells - i,
    {
        views.push(AnnotatedStrideView::with_capacity(0));
        sizes.push(0);
        capacities.push(0);
        i += 1;
    }
    let mut s: usize = 0;
    while s < shard_outputs.len()
        invariant
            s <= outputs.len(),
            outputs == shard_outputs@,
            views@.len() == num_cells,
            forall|t: int|
                0 <= t < outputs.len() ==> output_wf(#[trigger] outputs[t], num_cells as int),
            holds_places(outputs, |g: int| place(outputs, s as int, g), views@, sizes@, capacities@),
        decreases outputs.len() - s,
    {
        place_output(&shard_outputs, s, &mut views, &mut sizes, &mut capacities);
        s += 1;
    }
    let ghost contents = gathered_cells(outputs, num_cells as nat);
    proof {
        assert(sizes@ =~= gathered_sizes(outputs, num_cells as nat));
        assert(capacities@ =~= gathered_capacities(outputs, num_cells as nat));
    }

    // Flatten into contiguous arrays
    let mut all_pids: Vec<i64> = Vec::new();
    let mut all_scores: Vec<S> = Vec::new();
    let mut offsets: Vec<i64> = Vec::new();
    offsets.push(0);
    let mut c: usize = 0;
    while c < num_cells
        invariant
            c <= num_cells,
            views@.len() == num_cells,
            sizes@.len() == num_cells,
            contents.len() == num_cells,
            forall|g: int| 0 <= g < num_cells ==> (#[trigger] views@[g]).wf(),
            forall|g: int| 0 <= g < num_cells ==> (#[trigger] views@[g]).entries() == contents[g],
            forall|g: int| 0 <= g < num_cells ==> (#[trigger] sizes@[g]) == views@[g].size,
            holds_cells(sizes@, all_pids@, all_scores@, contents, c as int),
            offsets@.len() == c + 1,
            forall|j: int|
                0 <= j <= c ==> #[trigger] offsets@[j] == merger::cell_offset(sizes@, j) as i64,
        decreases num_cells - c,
    {
        let view = &views[c];
        let ghost pids_before = all_pids@;
        let ghost scores_before = all_scores@;
        assert(sizes@[c as int] == view.size);
        let mut j: usize = 0;
        while j < view.size
            invariant
                view.wf(),
                j <= view.size,
                all_pids@ == pids_before + view.pids@.take(j as int),
                all_scores@ == scores_before + view.scores@.take(j as int),
            decreases view.size - j,
        {
            all_pids.push(view.pids[j]);
            all_scores.push(view.scores[j]);
            assert(all_pids@ =~= pids_before + view.pids@.take(j + 1));
            assert(all_scores@ =~= scores_before + view.scores@.take(j + 1));
            j += 1;
        }
        proof {
            assert forall|g: int| 0 <= g < num_cells implies 0 <= #[trigger] sizes@[g] by {}
            assert forall|g: int| 0 <= g < c + 1 implies #[trigger] merger::cell(
                sizes@,
                all_pids@,
                all_scores@,
                g,
            ) == contents[g] by {
                offset_step(sizes@, g, c as int, num_cells as int);
                if g < c {
                    offset_step(sizes@, g + 1, c as int, num_cells as int);
                    assert(merger::cell(sizes@, pids_before, scores_before, g) == contents[g]);
                    assert(merger::cell(sizes@, all_pids@, all_scores@, g) =~= merger::cell(
                        sizes@,
                        pids_before,
                        scores_before,
                        g,
                    ));
                } else {
                    assert(merger::cell(sizes@, all_pids@, all_scores@, g) =~= view.entries());
                }
            }
        }
        offsets.push(all_pids.len() as i64);
        c += 1;
    }
    assert(merger::cells(num_cells as nat, sizes@, all_pids@, all_scores@) =~= contents);
    assert(offsets@ =~= Seq::new(
        num_cells as nat + 1,
        |i: int| merger::cell_offset(sizes@, i) as i64,
    ));
    DecompressedCentroidsOutput {
        capacities,
        sizes,
        passage_ids: all_pids,
        scores: all_scores,
        offsets,
    }
}

/// Whether a shard's output accounts for each of its cells.
pub fn output_fits<S: Score>(output: &ShardCellOutput<S>, num_cells: usize) -> (r: bool)
    ensures
        r == output_wf(*output, num_cells as int),
{
    let n: usize = output.global_cell_indices.len();
    if n > output.capacities.len() || n > output.sizes.len() {
        return false;
    }
    let mut total: i128 = 0;
    let mut l: usize = 0;
    while l < n
        invariant
            l <= n,
            n == output.global_cell_indices@.len(),
            n <= output.sizes@.len(),
            forall|i: int| 0 <= i < l ==> (#[trigger] output.global_cell_indices@[i]) < num_cells,
            forall|i: int| 0 <= i < l ==> 0 <= #[trigger] output.sizes@[i],
            total == merger::cell_offset(output.sizes@, l as int),
            0 <= total <= l * i32::MAX,
        decreases n - l,
    {
        if output.global_cell_indices[l] >= num_cells {
            assert(!(output.global_cell_indices@[l as int] < num_cells));
            return false;
        }
        if output.sizes[l] < 0 {
            assert(!(0 <= output.sizes@[l as int]));
            return false;
        }
        total = total + output.sizes[l] as i128;
        l += 1;
    }
    total <= output.passage_ids.len() as i128 && total <= output.scores.len() as i128
}

/// The sizes of all cells.
pub fn gather_sizes<S: Score>(outputs: &Vec<ShardCellOutput<S>>, num_cells: usize) -> (r: Vec<i32>)
    requires
        forall|s: int|
            0 <= s < outputs@.len() ==> output_wf(#[trigger] outputs@[s], num_cells as int),
    ensures
        r@ == gathered_sizes(outputs@, num_cells as nat),
        forall|g: int| 0 <= g < r@.len() ==> 0 <= #[trigger] r@[g],
{
    let mut sizes: Vec<i32> = Vec::new();
    let mut i: usize = 0;
    while i < num_cells
        invariant
            i <= num_cells,
            sizes@ == Seq::new(i as nat, |g: int| 0i32),
        decreases num_cells - i,
    {
        sizes.push(0);
        i += 1;
    }
    let mut s: usize = 0;
    while s < outputs.len()
        invariant
            s <= outputs@.len(),
            sizes@.len() == num_cells,
            forall|t: int|
                0 <= t < outputs@.len() ==> output_wf(#[trigger] outputs@[t], num_cells as int),
            forall|g: int|
                0 <= g < num_cells ==> #[trigger] sizes@[g] == placed_size(
                    outputs@,
                    place(outputs@, s as int, g),
                ),
            forall|g: int| 0 <= g < num_cells ==> 0 <= #[trigger] sizes@[g],
        decreases outputs@.len() - s,
    {
        let output = &outputs[s];
        assert(output_wf(outputs@[s as int], num_cells as int));
        let n: usize = output.global_cell_indices.len();
        let mut l: usize = 0;
        while l < n
            invariant
                l <= n,
                s < outputs@.len(),
                *output == outputs@[s as int],
                n == output.global_cell_indices@.len(),
                output_wf(*output, num_cells as int),
                sizes@.len() == num_cells,
                forall|g: int|
                    0 <= g < num_cells ==> #[trigger] sizes@[g] == placed_size(
                        outputs@,
                        place_so_far(outputs@, s as int, l as int, g),
                    ),
                forall|g: int| 0 <= g < num_cells ==> 0 <= #[trigger] sizes@[g],
            decreases n - l,
        {
            assert(output.global_cell_indices@[l as int] < num_cells);
            assert(0 <= output.sizes@[l as int]);
            let ghost before = sizes@;
            let global_cell: usize = output.global_cell_indices[l];
            sizes.set(global_cell, output.sizes[l]);
            proof {
                assert forall|g: int| 0 <= g < num_cells implies #[trigger] sizes@[g]
                    == placed_size(outputs@, place_so_far(outputs@, s as int, l + 1, g)) by {
                    if g != global_cell {
                        assert(sizes@[g] == before[g]);
                    }
                }
            }
            l += 1;
        }
        proof {
            assert forall|g: int| 0 <= g < num_cells implies #[trigger] sizes@[g] == placed_size(
                outputs@,
                place(outputs@, s + 1, g),
            ) by {
                assert(place_so_far(outputs@, s as int, n as int, g) == place(
                    outputs@,
                    s + 1,
                    g,
                ));
            }
        }
        s += 1;
    }
    assert(sizes@ =~= gathered_sizes(outputs@, num_cells as nat));
    sizes
}

} // verus!
