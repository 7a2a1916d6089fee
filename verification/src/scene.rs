//! Work distribution and ray-hit selection for the renderer.
//!
//! Rendering one pixel needs no other pixel, so the image is split across
//! workers by row striping: worker `w` of `n` renders exactly the rows `y`
//! with `y % n == w`. The functions here compute each worker's pixel
//! schedule, and the lemmas show that the schedules together cover the image
//! grid exactly once, whatever the worker count.
//!
//! Tracing a ray through the scene asks every surface for its nearest
//! intersection and keeps the closest one past a small threshold (so a ray
//! does not re-intersect the surface it just left), ties broken by surface
//! order. `nearest_hit` is that selection, over distances already mapped to
//! order-preserving keys.

use vstd::prelude::*;

verus! {

/// Does worker `worker` of `workers` render row `y`?
pub open spec fn row_assigned(y: int, worker: int, workers: int) -> bool
    recommends
        workers >= 1,
{
    y % workers == worker
}

/// How many of the rows `0 .. height` are assigned to `worker`.
pub open spec fn count_assigned_rows(height: nat, worker: int, workers: int) -> nat
    decreases height,
{
    if height == 0 {
        0
    } else {
        count_assigned_rows((height - 1) as nat, worker, workers) + if row_assigned(
            height - 1,
            worker,
            workers,
        ) {
            1nat
        } else {
            0nat
        }
    }
}

/// The rows below `height` that `worker` renders, in increasing order.
pub fn worker_rows(height: usize, worker: usize, workers: usize) -> (rows: Vec<usize>)
    requires
        1 <= workers,
        worker < workers,
    ensures
        rows@.len() == count_assigned_rows(height as nat, worker as int, workers as int),
        forall|i: int|
            0 <= i < rows@.len() ==> (#[trigger] rows@[i]) < height && row_assigned(
                rows@[i] as int,
                worker as int,
                workers as int,
            ),
        forall|i: int, j: int| 0 <= i < j < rows@.len() ==> rows@[i] < rows@[j],
        forall|y: usize|
            y < height && row_assigned(y as int, worker as int, workers as int)
                ==> rows@.contains(y),
{
    let mut rows: Vec<usize> = Vec::new();
    let mut y: usize = 0;
    while y < height
        invariant
            y <= height,
            1 <= workers,
            worker < workers,
            rows@.len() == count_assigned_rows(y as nat, worker as int, workers as int),
            forall|i: int|
                0 <= i < rows@.len() ==> (#[trigger] rows@[i]) < y && row_assigned(
                    rows@[i] as int,
                    worker as int,
                    workers as int,
                ),
            forall|i: int, j: int| 0 <= i < j < rows@.len() ==> rows@[i] < rows@[j],
            forall|y2: usize|
                y2 < y && row_assigned(y2 as int, worker as int, workers as int)
                    ==> rows@.contains(y2),
        decreases height - y,
    {
        if y % workers == worker {
            let ghost old_rows = rows@;
            rows.push(y);
            assert forall|y2: usize|
                y2 < y + 1 && row_assigned(y2 as int, worker as int, workers as int) implies rows@
                .contains(y2) by {
                if y2 == y {
                    assert(rows@[rows@.len() - 1] == y2);
                } else {
                    assert(old_rows.contains(y2));
                    let i = old_rows.index_of(y2);
                    assert(rows@[i] == y2);
                }
            }
        }
        y = y + 1;
    }
    rows
}

/// The pixels `(x, y)` that `worker` renders in a `width` x `height` image,
/// in increasing `(row, column)` order: exactly the order in which the worker
/// delivers them.
pub fn worker_pixels(width: usize, height: usize, worker: usize, workers: usize) -> (pixels: Vec<
    (usize, usize),
>)
    requires
        1 <= workers,
        worker < workers,
    ensures
        pixels@.len() == width * count_assigned_rows(height as nat, worker as int, workers as int),
        forall|i: int|
            0 <= i < pixels@.len() ==> (#[trigger] pixels@[i]).0 < width && pixels@[i].1 < height
                && row_assigned(pixels@[i].1 as int, worker as int, workers as int),
        forall|i: int, j: int|
            0 <= i < j < pixels@.len() ==> (pixels@[i].1 < pixels@[j].1 || (pixels@[i].1
                == pixels@[j].1 && pixels@[i].0 < pixels@[j].0)),
        forall|x: usize, y: usize|
            x < width && y < height && row_assigned(y as int, worker as int, workers as int)
                ==> pixels@.contains((x, y)),
{
    let mut pixels: Vec<(usize, usize)> = Vec::new();
    let mut y: usize = 0;
    assert(count_assigned_rows(0nat, worker as int, workers as int) == 0);
    assert(width * 0nat == 0) by {
        vstd::arithmetic::mul::lemma_mul_by_zero_is_zero(width as int);
    }
    while y < height
        invariant
            y <= height,
            1 <= workers,
            worker < workers,
            pixels@.len() == width * count_assigned_rows(y as nat, worker as int, workers as int),
            forall|i: int|
                0 <= i < pixels@.len() ==> (#[trigger] pixels@[i]).0 < width && pixels@[i].1 < y
                    && row_assigned(pixels@[i].1 as int, worker as int, workers as int),
            forall|i: int, j: int|
                0 <= i < j < pixels@.len() ==> (pixels@[i].1 < pixels@[j].1 || (pixels@[i].1
                    == pixels@[j].1 && pixels@[i].0 < pixels@[j].0)),
            forall|x2: usize, y2: usize|
                x2 < width && y2 < y && row_assigned(y2 as int, worker as int, workers as int)
                    ==> pixels@.contains((x2, y2)),
        decreases height - y,
    {
        if y % workers == worker {
            let ghost count_before = count_assigned_rows(y as nat, worker as int, workers as int);
            let mut x: usize = 0;
            while x < width
                invariant
                    x <= width,
                    y < height,
                    1 <= workers,
                    worker < workers,
                    row_assigned(y as int, worker as int, workers as int),
                    count_before == count_assigned_rows(y as nat, worker as int, workers as int),
                    pixels@.len() == width * count_before + x,
                    forall|i: int|
                        0 <= i < pixels@.len() ==> (#[trigger] pixels@[i]).0 < width
                            && pixels@[i].1 <= y && row_assigned(
                            pixels@[i].1 as int,
                            worker as int,
                            workers as int,
                        ),
                    forall|i: int|
                        0 <= i < pixels@.len() ==> ((#[trigger] pixels@[i]).1 < y || (pixels@[i].1
                            == y && pixels@[i].0 < x)),
                    forall|i: int, j: int|
                        0 <= i < j < pixels@.len() ==> (pixels@[i].1 < pixels@[j].1 || (pixels@[i].1
                            == pixels@[j].1 && pixels@[i].0 < pixels@[j].0)),
                    forall|x2: usize, y2: usize|
                        x2 < width && y2 < y && row_assigned(
                            y2 as int,
                            worker as int,
                            workers as int,
                        ) ==> pixels@.contains((x2, y2)),
                    forall|x2: usize| x2 < x ==> pixels@.contains((x2, y)),
                decreases width - x,
            {
                let ghost old_pixels = pixels@;
                pixels.push((x, y));
                assert forall|x2: usize, y2: usize|
                    x2 < width && y2 < y && row_assigned(
                        y2 as int,
                        worker as int,
                        workers as int,
                    ) implies pixels@.contains((x2, y2)) by {
                    assert(old_pixels.contains((x2, y2)));
                    let i = old_pixels.index_of((x2, y2));
                    assert(pixels@[i] == (x2, y2));
                }
                assert forall|x2: usize| x2 < x + 1 implies pixels@.contains((x2, y)) by {
                    if x2 == x {
                        assert(pixels@[pixels@.len() - 1] == (x2, y));
                    } else {
                        assert(old_pixels.contains((x2, y)));
                        let i = old_pixels.index_of((x2, y));
                        assert(pixels@[i] == (x2, y));
                    }
                }
                x = x + 1;
            }
            assert(pixels@.len() == width * count_assigned_rows(
                (y + 1) as nat,
                worker as int,
                workers as int,
            )) by {
                vstd::arithmetic::mul::lemma_mul_is_distributive_add(
                    width as int,
                    count_before as int,
                    1,
                );
            }
        }
        y = y + 1;
    }
    pixels
}

/// The one worker of `workers` that renders row `y`.
pub open spec fn worker_of_row(y: int, workers: int) -> int
    recommends
        workers >= 1,
        y >= 0,
{
    y % workers
}

/// Law: row striping assigns every row to exactly one worker — `worker_of_row`
/// names it, and no other worker index matches.
pub proof fn lemma_row_has_one_worker(y: int, workers: int)
    requires
        workers >= 1,
        y >= 0,
    ensures
        0 <= worker_of_row(y, workers) < workers,
        row_assigned(y, worker_of_row(y, workers), workers),
        forall|w: int|
            0 <= w < workers && #[trigger] row_assigned(y, w, workers) ==> w == worker_of_row(
                y,
                workers,
            ),
{
    vstd::arithmetic::div_mod::lemma_mod_bound(y, workers);
}

/// The assigned-row counts of workers `0 .. upto`, summed.
pub open spec fn sum_assigned_rows(height: nat, upto: nat, workers: int) -> nat
    decreases upto,
{
    if upto == 0 {
        0
    } else {
        sum_assigned_rows(height, (upto - 1) as nat, workers) + count_assigned_rows(
            height,
            upto - 1,
            workers,
        )
    }
}

proof fn lemma_sum_assigned_rows_zero(upto: nat, workers: int)
    ensures
        sum_assigned_rows(0, upto, workers) == 0,
    decreases upto,
{
    if upto > 0 {
        lemma_sum_assigned_rows_zero((upto - 1) as nat, workers);
    }
}

proof fn lemma_sum_assigned_rows_step(height: nat, upto: nat, workers: int)
    requires
        workers >= 1,
        height >= 1,
        upto <= workers,
    ensures
        sum_assigned_rows(height, upto, workers) == sum_assigned_rows(
            (height - 1) as nat,
            upto,
            workers,
        ) + if worker_of_row(height - 1, workers) < upto {
            1nat
        } else {
            0nat
        },
    decreases upto,
{
    lemma_row_has_one_worker(height - 1, workers);
    if upto > 0 {
        lemma_sum_assigned_rows_step(height, (upto - 1) as nat, workers);
    }
}

/// Summed over all workers, the assigned-row counts are exactly the image
/// height: each row is counted once and only once.
pub proof fn lemma_assigned_rows_sum_to_height(height: nat, workers: int)
    requires
        workers >= 1,
    ensures
        sum_assigned_rows(height, workers as nat, workers) == height,
    decreases height,
{
    if height == 0 {
        lemma_sum_assigned_rows_zero(workers as nat, workers);
    } else {
        lemma_assigned_rows_sum_to_height((height - 1) as nat, workers);
        lemma_sum_assigned_rows_step(height, workers as nat, workers);
        lemma_row_has_one_worker(height - 1, workers);
    }
}

/// The sizes of the pixel schedules of workers `0 .. upto`, summed.
pub open spec fn total_scheduled_pixels(width: nat, height: nat, upto: nat, workers: int) -> nat
    decreases upto,
{
    if upto == 0 {
        0
    } else {
        total_scheduled_pixels(width, height, (upto - 1) as nat, workers) + width
            * count_assigned_rows(height, upto - 1, workers)
    }
}

proof fn lemma_total_is_width_times_sum(width: nat, height: nat, upto: nat, workers: int)
    ensures
        total_scheduled_pixels(width, height, upto, workers) == width * sum_assigned_rows(
            height,
            upto,
            workers,
        ),
    decreases upto,
{
    if upto == 0 {
        vstd::arithmetic::mul::lemma_mul_by_zero_is_zero(width as int);
    } else {
        lemma_total_is_width_times_sum(width, height, (upto - 1) as nat, workers);
        vstd::arithmetic::mul::lemma_mul_is_distributive_add(
            width as int,
            sum_assigned_rows(height, (upto - 1) as nat, workers) as int,
            count_assigned_rows(height, upto - 1, workers) as int,
        );
    }
}

/// Law: for any worker count, the per-worker pixel schedules partition the
/// image grid. Every row belongs to exactly one worker (`worker_of_row` names
/// it), and the schedules of all workers together hold exactly
/// `width * height` pixels — so the merged render stream delivers every pixel
/// of the grid exactly once, however the workers interleave.
pub proof fn lemma_row_striping_partitions_grid(width: nat, height: nat, workers: int)
    requires
        workers >= 1,
    ensures
        forall|y: int|
            0 <= y < height ==> 0 <= #[trigger] worker_of_row(y, workers) < workers
                && row_assigned(y, worker_of_row(y, workers), workers),
        forall|y: int, w: int|
            0 <= y < height && 0 <= w < workers && #[trigger] row_assigned(y, w, workers) ==> w
                == worker_of_row(y, workers),
        total_scheduled_pixels(width, height, workers as nat, workers) == width * height,
{
    assert forall|y: int|
        0 <= y < height implies 0 <= #[trigger] worker_of_row(y, workers) < workers && row_assigned(
        y,
        worker_of_row(y, workers),
        workers,
    ) by {
        lemma_row_has_one_worker(y, workers);
    }
    assert forall|y: int, w: int|
        0 <= y < height && 0 <= w < workers && #[trigger] row_assigned(y, w, workers) implies w
        == worker_of_row(y, workers) by {
        lemma_row_has_one_worker(y, workers);
    }
    lemma_assigned_rows_sum_to_height(height, workers);
    lemma_total_is_width_times_sum(width, height, workers as nat, workers);
}

/// Does this per-surface result count as a hit: an intersection strictly past
/// the self-intersection threshold?
pub open spec fn is_hit(h: Option<u64>, threshold: u64) -> bool {
    match h {
        Some(d) => d > threshold,
        None => false,
    }
}

/// The distance key of a per-surface result.
pub open spec fn hit_distance(h: Option<u64>) -> u64
    recommends
        h is Some,
{
    match h {
        Some(d) => d,
        None => 0,
    }
}

/// Pick the surface a ray hits: among the per-surface nearest-intersection
/// distances in `hits` (as order-preserving keys, `None` for a miss), the
/// index of the smallest one strictly beyond `threshold`; on a distance tie
/// the earliest surface wins. `None` when every surface misses or is too
/// close.
pub fn nearest_hit(hits: &Vec<Option<u64>>, threshold: u64) -> (r: Option<usize>)
    ensures
        match r {
            Some(i) => {
                &&& i < hits@.len()
                &&& is_hit(hits@[i as int], threshold)
                &&& forall|j: int|
                    0 <= j < hits@.len() && is_hit(#[trigger] hits@[j], threshold) ==> hit_distance(
                        hits@[i as int],
                    ) <= hit_distance(hits@[j])
                &&& forall|j: int|
                    0 <= j < i && is_hit(#[trigger] hits@[j], threshold) ==> hit_distance(
                        hits@[i as int],
                    ) < hit_distance(hits@[j])
            },
            None => forall|j: int| 0 <= j < hits@.len() ==> !is_hit(#[trigger] hits@[j], threshold),
        },
{
    let mut best: Option<(usize, u64)> = None;
    let mut k: usize = 0;
    while k < hits.len()
        invariant
            k <= hits@.len(),
            match best {
                Some((i, d)) => {
                    &&& i < k
                    &&& is_hit(hits@[i as int], threshold)
                    &&& d == hit_distance(hits@[i as int])
                    &&& forall|j: int|
                        0 <= j < k && is_hit(#[trigger] hits@[j], threshold) ==> d <= hit_distance(
                            hits@[j],
                        )
                    &&& forall|j: int|
                        0 <= j < i && is_hit(#[trigger] hits@[j], threshold) ==> d < hit_distance(
                            hits@[j],
                        )
                },
                None => forall|j: int| 0 <= j < k ==> !is_hit(#[trigger] hits@[j], threshold),
            },
        decreases hits@.len() - k,
    {
        match hits[k] {
            None => (),
            Some(distance) => {
                if distance > threshold {
                    match best {
                        None => {
                            best = Some((k, distance));
                        },
                        Some((_, best_distance)) => {
                            if distance < best_distance {
                                best = Some((k, distance));
                            }
                        },
                    }
                }
            },
        }
        k = k + 1;
    }
    match best {
        None => None,
        Some((i, _)) => Some(i),
    }
}

/// Relies on num_cpus::get for the number of available logical CPUs; it is
/// documented to always return at least one.
#[verifier::external_body]
fn available_cpus() -> (n: usize)
    ensures
        n >= 1,
{
    num_cpus::get()
}

/// How many render workers a machine with `cpus` CPUs gets: one CPU is
/// reserved for the consumer that drains the pixel channel, but there is
/// always at least one worker.
pub fn worker_count_for(cpus: usize) -> (n: usize)
    ensures
        n == if cpus >= 2 {
            (cpus - 1) as int
        } else {
            1int
        },
{
    if cpus >= 2 {
        cpus - 1
    } else {
        1
    }
}

/// The worker count for this machine: `worker_count_for` applied to the CPU
/// count the system reports. At least one, whatever the machine says.
pub fn default_worker_count() -> (n: usize)
    ensures
        1 <= n,
{
    let cpus = available_cpus();
    worker_count_for(cpus)
}

} // verus!
