//! What chunked runs make of the chunks that they heard.

use vstd::prelude::*;

use crate::arithmetic::{
    counts, exact, positives, products, quotients, sums, Arithmetic,
};
use crate::chunk::{chunk_count, chunk_end, chunk_len, law_chunk_reaches};
use crate::crossfade::{
    addition_weight, gathered_signal, gathered_weight, law_chunks_lie_within,
    law_finished_is_weighted_average, law_gathered_weight,
    law_stem_of_no_chunk_comes_out_as_zero, lemma_sum_of_only_stem, only_stem, row_sum,
};
use crate::laws::overlaps::{lemma_blend_of_only, lemma_triangle_height};
use crate::laws::pipelined_runs::law_pipelined_steps_left;
use crate::laws::sequential_runs::law_sequential_steps_left;
use crate::model::{is_row, stem_views, Side, Stem, StemId, StemView};
use crate::overlap::{
    accumulated, chunk_additions, finished, finished_row, gathered, is_silence, is_window,
    law_gathered_shape, lemma_unheard_sample, mixed_in, normalized, Addition, MixView,
};
use crate::pipelined_run::PipelinedRun;
use crate::sequential_run::SequentialRun;
use crate::step::{are_stems, Step};

verus! {

proof fn lemma_two_terms<T>(
    value: spec_fn(T) -> real,
    ids: Seq<StemId>,
    additions: Seq<Addition<T>>,
    row: int,
    side: Side,
    p: int,
    k: int,
    one: real,
    two: real,
)
    requires
        0 <= k,
        forall|m: int| 0 <= m < additions.len() && m != k && m != k + 1 ==> addition_weight(
            #[trigger] additions[m],
            p,
        ) == 0 as real,
        k < additions.len() ==> row_sum(
            value,
            ids,
            additions[k].stems,
            row,
            side,
            p - additions[k].start,
        ) == one,
        k + 1 < additions.len() && addition_weight(additions[k + 1], p) != 0 as real ==> row_sum(
            value,
            ids,
            additions[k + 1].stems,
            row,
            side,
            p - additions[k + 1].start,
        ) == two,
    ensures
        ({
            let first = if k < additions.len() {
                addition_weight(additions[k], p)
            } else {
                0 as real
            };
            let second = if k + 1 < additions.len() {
                addition_weight(additions[k + 1], p)
            } else {
                0 as real
            };
            &&& gathered_weight(additions, p) == first + second
            &&& gathered_signal(value, ids, additions, row, side, p) == first * one + second * two
        }),
    decreases additions.len(),
{
    assert(0 as real * one == 0 as real) by (nonlinear_arith);
    assert(0 as real * two == 0 as real) by (nonlinear_arith);
    if additions.len() > 0 {
        let earlier = additions.drop_last();
        let last = additions.last();
        let held = row_sum(value, ids, last.stems, row, side, p - last.start);
        assert(additions[additions.len() - 1] == last);
        assert(forall|m: int| 0 <= m < earlier.len() ==> earlier[m] == additions[m]);
        lemma_two_terms(value, ids, earlier, row, side, p, k, one, two);
        assert(0 as real * held == 0 as real) by (nonlinear_arith);
    }
}

/// What chunked runs finish with, in exact arithmetic, at a sample that chunk `k` is
/// the first to cover: if the chunk after it covers the sample too, the average of
/// what the two chunks hold for it, each weighted by the height of its triangle
/// there, and else what the one chunk holds. Where no triangle has a height, it is
/// 0.
proof fn lemma_crossfade<T, A: Arithmetic<T>>(
    value: spec_fn(T) -> real,
    ids: Seq<StemId>,
    n_samples: int,
    chunks: Seq<Seq<StemView<T>>>,
    mix: MixView<T>,
    stems: Seq<StemView<T>>,
    row: int,
    side: Side,
    k: int,
    p: int,
    one: real,
    two: real,
)
    requires
        exact::<T, A>(value),
        accumulated::<T, A>(ids, n_samples, chunks, mix),
        finished::<T, A>(ids, mix, stems),
        chunks.len() == chunk_count(n_samples),
        0 <= row < ids.len(),
        0 <= k < chunks.len(),
        0 <= p < n_samples <= usize::MAX,
        k * 257985 <= p < k * 257985 + 343980,
        k > 0 ==> (k - 1) * 257985 + 343980 <= p,
        row_sum(value, ids, chunks[k], row, side, p - k * 257985) == one,
        k + 1 < chunks.len() && (k + 1) * 257985 <= p ==> row_sum(
            value,
            ids,
            chunks[k + 1],
            row,
            side,
            p - (k + 1) * 257985,
        ) == two,
    ensures
        stems.len() == ids.len(),
        stems[row].id == ids[row],
        stems[row].channel(side).len() == n_samples,
        ({
            let start = k * 257985;
            let next = (k + 1) * 257985;
            let length = if n_samples < start + 343980 {
                n_samples - start
            } else {
                343980
            };
            let next_length = if n_samples < next + 343980 {
                n_samples - next
            } else {
                343980
            };
            let height = if length == 1 {
                1 as real
            } else if 2 * (p - start) <= length - 1 {
                (2 * (p - start)) as real / (length - 1) as real
            } else {
                (2 * (length - 1 - (p - start))) as real / (length - 1) as real
            };
            let next_height = if k + 1 >= chunks.len() || p < next {
                0 as real
            } else if next_length == 1 {
                1 as real
            } else if 2 * (p - next) <= next_length - 1 {
                (2 * (p - next)) as real / (next_length - 1) as real
            } else {
                (2 * (next_length - 1 - (p - next))) as real / (next_length - 1) as real
            };
            let total = height + next_height;
            value(stems[row].channel(side)[p]) == if total > 0 as real {
                (height * one + next_height * two) / total
            } else {
                0 as real
            }
        }),
{
    let additions = chunk_additions(n_samples, chunks);
    law_chunks_lie_within(n_samples, chunks);
    law_chunk_reaches(n_samples, k);
    assert(p < chunk_end(k, n_samples));
    assert forall|m: int| 0 <= m < additions.len() && m != k && m != k + 1 implies addition_weight(
        #[trigger] additions[m],
        p,
    ) == 0 as real by {
        law_chunk_reaches(n_samples, m);
        assert(additions[m].start == m * 257985);
    }
    assert(additions[k].start == k * 257985);
    lemma_triangle_height(chunk_len(k, n_samples), p - k * 257985);
    if k + 1 < chunks.len() {
        law_chunk_reaches(n_samples, k + 1);
        assert(additions[k + 1].start == (k + 1) * 257985);
        if (k + 1) * 257985 <= p {
            assert(p < chunk_end(k + 1, n_samples));
            lemma_triangle_height(chunk_len(k + 1, n_samples), p - (k + 1) * 257985);
        }
    }
    lemma_two_terms(value, ids, additions, row, side, p, k, one, two);
    law_gathered_weight(additions, p);
    law_gathered_shape::<T, A>(ids, n_samples, additions, mix);
    assert(finished_row::<T, A>(mix, row, stems[row]));
    law_finished_is_weighted_average::<T, A>(
        value, ids, n_samples, additions, mix, stems, row, side, p);
    let first = addition_weight(additions[k], p);
    let second = if k + 1 < chunks.len() {
        addition_weight(additions[k + 1], p)
    } else {
        0 as real
    };
    if !(first + second > 0 as real) {
        lemma_no_weight(additions, p, k);
        assert(0 as real * one == 0 as real) by (nonlinear_arith);
        assert(0 as real * two == 0 as real) by (nonlinear_arith);
    }
}

proof fn lemma_no_weight<T>(additions: Seq<Addition<T>>, p: int, k: int)
    requires
        0 <= k < additions.len(),
        !(gathered_weight(additions, p) > 0 as real),
    ensures
        !(addition_weight(additions[k], p) > 0 as real),
        k + 1 < additions.len() ==> !(addition_weight(additions[k + 1], p) > 0 as real),
{
    law_gathered_weight(additions, p);
}

/// A pipelined run that is over has heard every chunk, and gives the stems of the
/// model in order, each as long as the recording. In exact arithmetic, a sample
/// that chunk `k` is the first to cover is the average of what that chunk and, if
/// it covers the sample too, the one after it hold for it, each weighted by the
/// height of its triangle there.
pub proof fn law_pipelined_run_finish<T: Copy, A: Arithmetic<T>>(
    value: spec_fn(T) -> real,
    run: PipelinedRun<T>,
    stems: Vec<Stem<T>>,
    row: int,
    k: int,
    p: int,
)
    requires
        exact::<T, A>(value),
        run.wf::<A>(),
        run@.valid::<A>(),
        run@.steps()[0] == Step::Finish,
        run@.ids.no_duplicates(),
        call_ensures(PipelinedRun::<T>::finish::<A>, (run,), stems),
        0 <= row < run@.ids.len(),
        0 <= k < run@.heard.len(),
        0 <= p < run@.n_samples,
        k * 257985 <= p < k * 257985 + 343980,
        k > 0 ==> (k - 1) * 257985 + 343980 <= p,
    ensures
        call_requires(PipelinedRun::<T>::finish::<A>, (run,)),
        run@.n_samples <= (run@.heard.len() - 1) * 257985 + 343980,
        run@.heard.len() > 1 ==> (run@.heard.len() - 2) * 257985 + 343980 < run@.n_samples,
        stems@.len() == run@.ids.len(),
        stems@[row].id == run@.ids[row],
        stems@[row].left@.len() == run@.n_samples,
        stems@[row].right@.len() == run@.n_samples,
        run@.heard[k][row].id == run@.ids[row],
        accumulated::<T, A>(run@.ids, run@.n_samples as int, run@.heard, run@.mix),
        finished::<T, A>(
            run@.ids,
            run@.mix,
            Seq::new(
                stems@.len(),
                |i: int|
                    StemView { id: stems@[i].id, left: stems@[i].left@, right: stems@[i].right@ },
            ),
        ),
        ({
            let start = k * 257985;
            let next = (k + 1) * 257985;
            let length = if run@.n_samples < start + 343980 {
                run@.n_samples - start
            } else {
                343980
            };
            let next_length = if run@.n_samples < next + 343980 {
                run@.n_samples - next
            } else {
                343980
            };
            let height = if length == 1 {
                1 as real
            } else if 2 * (p - start) <= length - 1 {
                (2 * (p - start)) as real / (length - 1) as real
            } else {
                (2 * (length - 1 - (p - start))) as real / (length - 1) as real
            };
            let next_height = if k + 1 >= run@.heard.len() || p < next {
                0 as real
            } else if next_length == 1 {
                1 as real
            } else if 2 * (p - next) <= next_length - 1 {
                (2 * (p - next)) as real / (next_length - 1) as real
            } else {
                (2 * (next_length - 1 - (p - next))) as real / (next_length - 1) as real
            };
            let total = height + next_height;
            let one = run@.heard[k][row];
            let two = run@.heard[k + 1][row];
            &&& value(stems@[row].left@[p]) == if total > 0 as real {
                (height * value(one.left[p - start]) + next_height * value(two.left[p - next]))
                    / total
            } else {
                0 as real
            }
            &&& value(stems@[row].right@[p]) == if total > 0 as real {
                (height * value(one.right[p - start]) + next_height * value(two.right[p - next]))
                    / total
            } else {
                0 as real
            }
        }),
{
    law_pipelined_steps_left::<T, A>(run@);
    let state = run@;
    let ids = state.ids;
    let views = stem_views(stems@);
    assert(state.heard.len() == state.total());
    assert(are_stems(state.heard[k], ids, chunk_len(k, state.n_samples as int)));
    lemma_only_row(ids, state.heard[k], row, chunk_len(k, state.n_samples as int));
    if k + 1 < state.heard.len() {
        assert(are_stems(state.heard[k + 1], ids, chunk_len(k + 1, state.n_samples as int)));
        lemma_only_row(ids, state.heard[k + 1], row, chunk_len(k + 1, state.n_samples as int));
    }
    assert(views =~= Seq::new(
        stems@.len(),
        |i: int| StemView { id: stems@[i].id, left: stems@[i].left@, right: stems@[i].right@ },
    ));
    assert(views[row].left == stems@[row].left@ && views[row].right == stems@[row].right@);
    lemma_sum_of_only_stem(
        value, ids, state.heard[k], row, Side::Left, p - k * 257985, row);
    if k + 1 < state.heard.len() {
        lemma_sum_of_only_stem(
            value, ids, state.heard[k + 1], row, Side::Left, p - (k + 1) * 257985, row);
    }
    lemma_crossfade::<T, A>(
        value, ids, state.n_samples as int, state.heard, state.mix, views, row, Side::Left, k, p,
        value(state.heard[k][row].left[p - k * 257985]),
        value(state.heard[k + 1][row].left[p - (k + 1) * 257985]));
    lemma_sum_of_only_stem(
        value, ids, state.heard[k], row, Side::Right, p - k * 257985, row);
    if k + 1 < state.heard.len() {
        lemma_sum_of_only_stem(
            value, ids, state.heard[k + 1], row, Side::Right, p - (k + 1) * 257985, row);
    }
    lemma_crossfade::<T, A>(
        value, ids, state.n_samples as int, state.heard, state.mix, views, row, Side::Right, k, p,
        value(state.heard[k][row].right[p - k * 257985]),
        value(state.heard[k + 1][row].right[p - (k + 1) * 257985]));
}

proof fn lemma_only_row<T>(ids: Seq<StemId>, stems: Seq<StemView<T>>, row: int, length: int)
    requires
        ids.no_duplicates(),
        are_stems(stems, ids, length),
        0 <= row < ids.len(),
    ensures
        only_stem(ids, stems, row, row),
{
    assert forall|j: int| 0 <= j < stems.len() implies (is_row(ids, (#[trigger] stems[j]).id, row)
        <==> j == row) by {
        assert(stems[j].id == ids[j]);
        assert(stems[row].id == ids[row]);
    }
}

/// Whatever chunks were accumulated and finished, in exact arithmetic a sample that
/// chunk `k` is the first to cover is the average of what that chunk and, if it
/// covers the sample too, the one after it hold for it, each weighted by the height
/// of its triangle there. Stem `i` of the one chunk and `j` of the other are the
/// only ones of the row.
pub proof fn law_crossfade_of_chunks<T, A: Arithmetic<T>>(
    value: spec_fn(T) -> real,
    ids: Seq<StemId>,
    n_samples: int,
    chunks: Seq<Seq<StemView<T>>>,
    mix: MixView<T>,
    stems: Seq<StemView<T>>,
    row: int,
    k: int,
    p: int,
    i: int,
    j: int,
)
    requires
        exact::<T, A>(value),
        accumulated::<T, A>(ids, n_samples, chunks, mix),
        finished::<T, A>(ids, mix, stems),
        1 <= chunks.len(),
        n_samples <= (chunks.len() - 1) * 257985 + 343980,
        chunks.len() > 1 ==> (chunks.len() - 2) * 257985 + 343980 < n_samples,
        0 <= row < ids.len(),
        ids.no_duplicates(),
        0 <= k < chunks.len(),
        0 <= p < n_samples <= usize::MAX,
        k * 257985 <= p < k * 257985 + 343980,
        k > 0 ==> (k - 1) * 257985 + 343980 <= p,
        0 <= i < chunks[k].len(),
        forall|m: int| 0 <= m < chunks[k].len() ==> ((#[trigger] chunks[k][m]).id == ids[row]
            <==> m == i),
        k + 1 < chunks.len() ==> 0 <= j < chunks[k + 1].len() && (forall|m: int|
            0 <= m < chunks[k + 1].len() ==> ((#[trigger] chunks[k + 1][m]).id == ids[row] <==> m
                == j)),
    ensures
        stems.len() == ids.len(),
        stems[row].id == ids[row],
        stems[row].left.len() == n_samples,
        stems[row].right.len() == n_samples,
        ({
            let start = k * 257985;
            let next = (k + 1) * 257985;
            let length = if n_samples < start + 343980 {
                n_samples - start
            } else {
                343980
            };
            let next_length = if n_samples < next + 343980 {
                n_samples - next
            } else {
                343980
            };
            let height = if length == 1 {
                1 as real
            } else if 2 * (p - start) <= length - 1 {
                (2 * (p - start)) as real / (length - 1) as real
            } else {
                (2 * (length - 1 - (p - start))) as real / (length - 1) as real
            };
            let next_height = if k + 1 >= chunks.len() || p < next {
                0 as real
            } else if next_length == 1 {
                1 as real
            } else if 2 * (p - next) <= next_length - 1 {
                (2 * (p - next)) as real / (next_length - 1) as real
            } else {
                (2 * (next_length - 1 - (p - next))) as real / (next_length - 1) as real
            };
            let total = height + next_height;
            let one = chunks[k][i];
            let two = chunks[k + 1][j];
            &&& value(stems[row].left[p]) == if total > 0 as real {
                (height * value(one.left[p - start]) + next_height * value(two.left[p - next]))
                    / total
            } else {
                0 as real
            }
            &&& value(stems[row].right[p]) == if total > 0 as real {
                (height * value(one.right[p - start]) + next_height * value(two.right[p - next]))
                    / total
            } else {
                0 as real
            }
        }),
{
    assert(chunks.len() == chunk_count(n_samples));
    assert(only_stem(ids, chunks[k], row, i)) by {
        assert forall|m: int| 0 <= m < chunks[k].len() implies (is_row(
            ids,
            (#[trigger] chunks[k][m]).id,
            row,
        ) <==> m == i) by {}
    }
    if k + 1 < chunks.len() {
        assert(only_stem(ids, chunks[k + 1], row, j)) by {
            assert forall|m: int| 0 <= m < chunks[k + 1].len() implies (is_row(
                ids,
                (#[trigger] chunks[k + 1][m]).id,
                row,
            ) <==> m == j) by {}
        }
    }
    lemma_sum_of_only_stem(value, ids, chunks[k], row, Side::Left, p - k * 257985, i);
    if k + 1 < chunks.len() {
        lemma_sum_of_only_stem(
            value, ids, chunks[k + 1], row, Side::Left, p - (k + 1) * 257985, j);
    }
    lemma_crossfade::<T, A>(
        value, ids, n_samples, chunks, mix, stems, row, Side::Left, k, p,
        value(chunks[k][i].left[p - k * 257985]),
        value(chunks[k + 1][j].left[p - (k + 1) * 257985]));
    lemma_sum_of_only_stem(value, ids, chunks[k], row, Side::Right, p - k * 257985, i);
    if k + 1 < chunks.len() {
        lemma_sum_of_only_stem(
            value, ids, chunks[k + 1], row, Side::Right, p - (k + 1) * 257985, j);
    }
    lemma_crossfade::<T, A>(
        value, ids, n_samples, chunks, mix, stems, row, Side::Right, k, p,
        value(chunks[k][i].right[p - k * 257985]),
        value(chunks[k + 1][j].right[p - (k + 1) * 257985]));
}

/// Whatever chunks were accumulated and finished, a stem that was in none of them is
/// silent in exact arithmetic.
pub proof fn law_unheard_stem_is_silent<T, A: Arithmetic<T>>(
    value: spec_fn(T) -> real,
    ids: Seq<StemId>,
    n_samples: int,
    chunks: Seq<Seq<StemView<T>>>,
    mix: MixView<T>,
    stems: Seq<StemView<T>>,
    row: int,
    p: int,
)
    requires
        exact::<T, A>(value),
        accumulated::<T, A>(ids, n_samples, chunks, mix),
        finished::<T, A>(ids, mix, stems),
        1 <= chunks.len(),
        n_samples <= (chunks.len() - 1) * 257985 + 343980,
        chunks.len() > 1 ==> (chunks.len() - 2) * 257985 + 343980 < n_samples,
        0 <= row < ids.len(),
        0 <= p < n_samples <= usize::MAX,
        forall|k: int, m: int| 0 <= k < chunks.len() && 0 <= m < chunks[k].len() ==> (#[trigger]
        chunks[k][m]).id != ids[row],
    ensures
        stems[row].id == ids[row],
        stems[row].left.len() == n_samples,
        stems[row].right.len() == n_samples,
        value(stems[row].left[p]) == 0 as real,
        value(stems[row].right[p]) == 0 as real,
{
    assert(chunks.len() == chunk_count(n_samples));
    law_stem_of_no_chunk_comes_out_as_zero::<T, A>(
        value, ids, n_samples, chunks, mix, stems, row, Side::Left, p);
    law_stem_of_no_chunk_comes_out_as_zero::<T, A>(
        value, ids, n_samples, chunks, mix, stems, row, Side::Right, p);
}

/// A sequential run that is over has heard every chunk, and gives what was
/// accumulated of them, finished.
pub proof fn law_sequential_run_finish<T: Copy, A: Arithmetic<T>>(
    run: SequentialRun<T>,
    stems: Vec<Stem<T>>,
)
    requires
        run.wf::<A>(),
        run@.valid::<A>(),
        run@.steps()[0] == Step::Finish,
        call_ensures(SequentialRun::<T>::finish::<A>, (run,), stems),
    ensures
        call_requires(SequentialRun::<T>::finish::<A>, (run,)),
        1 <= run@.heard.len(),
        run@.n_samples <= (run@.heard.len() - 1) * 257985 + 343980,
        run@.heard.len() > 1 ==> (run@.heard.len() - 2) * 257985 + 343980 < run@.n_samples,
        accumulated::<T, A>(
            run@.options.stem_order(),
            run@.n_samples as int,
            run@.heard,
            run@.mix,
        ),
        finished::<T, A>(
            run@.options.stem_order(),
            run@.mix,
            Seq::new(
                stems@.len(),
                |i: int|
                    StemView { id: stems@[i].id, left: stems@[i].left@, right: stems@[i].right@ },
            ),
        ),
{
    law_sequential_steps_left::<T, A>(run@);
    assert(stem_views(stems@) =~= Seq::new(
        stems@.len(),
        |i: int| StemView { id: stems@[i].id, left: stems@[i].left@, right: stems@[i].right@ },
    ));
}

/// A finished stem has its id, the samples of the mix, and at each of them, on either
/// side, what the mix holds over its weight if that is positive, and else what the
/// mix holds.
pub proof fn law_finished_stem<T, A: Arithmetic<T>>(
    ids: Seq<StemId>,
    mix: MixView<T>,
    stems: Seq<StemView<T>>,
    row: int,
    p: int,
) -> (heard: bool)
    requires
        finished::<T, A>(ids, mix, stems),
        0 <= row < ids.len(),
        0 <= p < mix.weight.len(),
    ensures
        stems.len() == ids.len(),
        stems[row].id == ids[row],
        stems[row].left.len() == mix.weight.len(),
        stems[row].right.len() == mix.weight.len(),
        call_ensures(A::is_positive, (mix.weight[p],), heard),
        heard ==> call_ensures(A::over, (mix.left[row][p], mix.weight[p]), stems[row].left[p]),
        heard ==> call_ensures(A::over, (mix.right[row][p], mix.weight[p]), stems[row].right[p]),
        !heard ==> stems[row].left[p] == mix.left[row][p],
        !heard ==> stems[row].right[p] == mix.right[row][p],
{
    let stem = stems[row];
    assert(finished_row::<T, A>(mix, row, stem));
    assert(normalized::<T, A>(
        mix.weight[p], mix.left[row][p], mix.right[row][p], stem.left[p], stem.right[p]));
    choose|heard: bool| #[trigger]
        positives::<T, A>(mix.weight[p], heard) && if heard {
            quotients::<T, A>(mix.left[row][p], mix.weight[p], stem.left[p])
            && quotients::<T, A>(mix.right[row][p], mix.weight[p], stem.right[p])
        } else {
            stem.left[p] == mix.left[row][p] && stem.right[p] == mix.right[row][p]
        }
}

/// Before any chunk is accumulated, every sample and every weight is zero.
pub proof fn law_nothing_accumulated<T, A: Arithmetic<T>>(
    ids: Seq<StemId>,
    n_samples: int,
    mix: MixView<T>,
) -> (zero: T)
    requires
        0 <= n_samples,
        accumulated::<T, A>(ids, n_samples, Seq::<Seq<StemView<T>>>::empty(), mix),
    ensures
        call_ensures(A::count, (0usize,), zero),
        mix.left.len() == ids.len(),
        mix.right.len() == ids.len(),
        mix.weight.len() == n_samples,
        forall|p: int| 0 <= p < n_samples ==> #[trigger] mix.weight[p] == zero,
        forall|row: int, p: int| 0 <= row < ids.len() && 0 <= p < n_samples ==> #[trigger]
            mix.left[row][p] == zero,
        forall|row: int, p: int| 0 <= row < ids.len() && 0 <= p < n_samples ==> #[trigger]
            mix.right[row][p] == zero,
{
    let chunks = Seq::<Seq<StemView<T>>>::empty();
    let additions = chunk_additions(n_samples, chunks);
    assert(additions.len() == 0);
    assert(is_silence::<T, A>(mix, ids.len() as int, n_samples));
    let zero = choose|zero: T| #[trigger] counts::<T, A>(0, zero) && mix.filled(zero);
    assert(mix.rows(Side::Left).len() == ids.len());
    assert(mix.rows(Side::Right).len() == ids.len());
    assert forall|row: int, p: int| 0 <= row < ids.len() && 0 <= p < n_samples implies #[trigger]
        mix.left[row][p] == zero by {
        assert(mix.rows(Side::Left)[row].len() == n_samples);
        assert(mix.rows(Side::Left)[row][p] == zero);
    }
    assert forall|row: int, p: int| 0 <= row < ids.len() && 0 <= p < n_samples implies #[trigger]
        mix.right[row][p] == zero by {
        assert(mix.rows(Side::Right)[row].len() == n_samples);
        assert(mix.rows(Side::Right)[row][p] == zero);
    }
    zero
}

/// What was accumulated is what was there before the last chunk, and that chunk: at
/// each of its samples, what a stem of it holds on a side, times a weight, is added
/// to that side of the stem's row, and the weight to that of the sample. Rows of
/// which it has no stem, and samples that it does not cover, are as before.
pub proof fn law_last_chunk_accumulated<T, A: Arithmetic<T>>(
    ids: Seq<StemId>,
    n_samples: int,
    chunks: Seq<Seq<StemView<T>>>,
    mix: MixView<T>,
    row: int,
    p: int,
    i: int,
) -> (prior: MixView<T>)
    requires
        accumulated::<T, A>(ids, n_samples, chunks, mix),
        0 < chunks.len(),
        n_samples <= usize::MAX,
        ids.no_duplicates(),
        0 <= row < ids.len(),
        0 <= p < n_samples,
    ensures
        accumulated::<T, A>(ids, n_samples, chunks.drop_last(), prior),
        ({
            let start = (chunks.len() - 1) * 257985;
            let end = if n_samples < start + 343980 {
                n_samples
            } else {
                start + 343980
            };
            let last = chunks.last();
            &&& !(start <= p < end) ==> mix.weight[p] == prior.weight[p] && mix.left[row][p]
                == prior.left[row][p] && mix.right[row][p] == prior.right[row][p]
            &&& start <= p < end && (forall|m: int|
                0 <= m < last.len() ==> (#[trigger] last[m]).id != ids[row]) ==> mix.left[row][p]
                == prior.left[row][p] && mix.right[row][p] == prior.right[row][p]
            &&& start <= p < end && 0 <= i < last.len() && (forall|m: int|
                0 <= m < last.len() ==> ((#[trigger] last[m]).id == ids[row] <==> m == i))
                ==> exists|weight: T, left: T, right: T| #![trigger
                call_ensures(A::plus, (prior.weight[p], weight), mix.weight[p]),
                call_ensures(A::times, (weight, last[i].left[p - start]), left),
                call_ensures(A::times, (weight, last[i].right[p - start]), right)]
                call_ensures(A::plus, (prior.weight[p], weight), mix.weight[p])
                && call_ensures(A::times, (weight, last[i].left[p - start]), left)
                && call_ensures(A::plus, (prior.left[row][p], left), mix.left[row][p])
                && call_ensures(A::times, (weight, last[i].right[p - start]), right)
                && call_ensures(A::plus, (prior.right[row][p], right), mix.right[row][p])
        }),
{
    let additions = chunk_additions(n_samples, chunks);
    let k = chunks.len() - 1;
    let addition = additions.last();
    let start = k * 257985;
    assert(additions.drop_last() =~= chunk_additions(n_samples, chunks.drop_last()));
    assert(additions[k] == addition);
    assert(addition.start == start && addition.stems == chunks.last());
    let (prior, window) = choose|prior: MixView<T>, window: Seq<T>|
        gathered::<T, A>(ids, n_samples, additions.drop_last(), prior)
        && is_window::<T, A>(addition.length, window)
        && #[trigger] mixed_in::<T, A>(
            prior,
            ids,
            addition.stems,
            addition.start,
            window,
            mix,
        );
    law_gathered_shape::<T, A>(ids, n_samples, additions.drop_last(), prior);
    assert(prior.rows(Side::Left).len() == ids.len());
    assert(mix.rows(Side::Left)[row] == mix.left[row]);
    assert(mix.rows(Side::Right)[row] == mix.right[row]);
    let last = chunks.last();
    if start <= p < start + window.len() {
        let weight = window[p - start];
        let old_left = prior.rows(Side::Left)[row][p];
        let old_right = prior.rows(Side::Right)[row][p];
        let new_left = mix.rows(Side::Left)[row][p];
        let new_right = mix.rows(Side::Right)[row][p];
        if forall|m: int| 0 <= m < last.len() ==> (#[trigger] last[m]).id != ids[row] {
            lemma_unheard_sample::<T, A>(
                old_left, weight, ids, last, row, Side::Left, p - start, new_left);
            lemma_unheard_sample::<T, A>(
                old_right, weight, ids, last, row, Side::Right, p - start, new_right);
        }
        if 0 <= i < last.len() && (forall|m: int|
            0 <= m < last.len() ==> ((#[trigger] last[m]).id == ids[row] <==> m == i)) {
            assert forall|m: int| 0 <= m < last.len() implies (is_row(
                ids,
                (#[trigger] last[m]).id,
                row,
            ) <==> m == i) by {}
            lemma_blend_of_only::<T, A>(
                old_left, weight, ids, last, row, Side::Left, p - start, new_left, i);
            lemma_blend_of_only::<T, A>(
                old_right, weight, ids, last, row, Side::Right, p - start, new_right, i);
            let left = choose|scaled: T|
                products::<T, A>(weight, last[i].channel(Side::Left)[p - start], scaled)
                && #[trigger] sums::<T, A>(old_left, scaled, new_left);
            let right = choose|scaled: T|
                products::<T, A>(weight, last[i].channel(Side::Right)[p - start], scaled)
                && #[trigger] sums::<T, A>(old_right, scaled, new_right);
            assert(sums::<T, A>(prior.weight[p], weight, mix.weight[p]));
            assert(call_ensures(A::plus, (prior.weight[p], weight), mix.weight[p]));
            assert(call_ensures(A::times, (weight, last[i].left[p - start]), left));
            assert(call_ensures(A::times, (weight, last[i].right[p - start]), right));
        }
    } else {
        assert(mix.rows(Side::Left)[row][p] == prior.rows(Side::Left)[row][p]);
        assert(mix.rows(Side::Right)[row][p] == prior.rows(Side::Right)[row][p]);
        assert(mix.weight[p] == prior.weight[p]);
    }
    prior
}

} // verus!
