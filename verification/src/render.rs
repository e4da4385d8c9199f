//! Sharing the rows of a picture among workers, and putting their results
//! back together.

use vstd::prelude::*;

verus! {

/// How many rows every worker but the last is given.
pub open spec fn section_lines(height: int, workers: int) -> int {
    height / workers
}

/// The first row of worker `id`.
pub open spec fn line_begin(height: int, workers: int, id: int) -> int {
    section_lines(height, workers) * id
}

/// The row behind the last row of worker `id`. The last worker takes what
/// the even split leaves over.
pub open spec fn line_end(height: int, workers: int, id: int) -> int {
    if id == workers - 1 {
        height
    } else {
        line_begin(height, workers, id) + section_lines(height, workers)
    }
}

/// Row `y` is one of the rows of worker `id`.
pub open spec fn has_row(height: int, workers: int, id: int, y: int) -> bool {
    line_begin(height, workers, id) <= y < line_end(height, workers, id)
}

/// The parts one behind the other.
pub open spec fn joined<C>(parts: Seq<Seq<C>>) -> Seq<C>
    decreases parts.len(),
{
    if parts.len() == 0 {
        Seq::empty()
    } else {
        joined(parts.drop_last()) + parts.last()
    }
}

/// The contents of the vectors of `parts`.
pub open spec fn contents<C>(parts: Seq<Vec<C>>) -> Seq<Seq<C>> {
    parts.map_values(|v: Vec<C>| v@)
}

/// Every part holds the rows of its worker, each `width` pixels long.
pub open spec fn parts_fit<C>(parts: Seq<Seq<C>>, width: int, height: int) -> bool {
    forall|id: int|
        0 <= id < parts.len() ==> (#[trigger] parts[id]).len() == (line_end(
            height,
            parts.len() as int,
            id,
        ) - line_begin(height, parts.len() as int, id)) * width
}

/// The strips never overlap or leave a gap: the first starts at row 0, each
/// starts where the one before it ends, and the last ends with the picture.
pub proof fn lemma_sections_tile(height: int, workers: int, id: int)
    requires
        0 <= height,
        0 < workers,
        0 <= id < workers,
    ensures
        line_begin(height, workers, 0) == 0,
        0 <= line_begin(height, workers, id) <= line_end(height, workers, id) <= height,
        id + 1 < workers ==> line_end(height, workers, id) == line_begin(height, workers, id + 1),
        line_end(height, workers, workers - 1) == height,
{
    let s = height / workers;
    assert(0 <= s && s * workers <= height) by (nonlinear_arith)
        requires
            0 <= height,
            0 < workers,
            s == height / workers,
    ;
    assert(0 <= s * id && s * id + s <= s * workers) by (nonlinear_arith)
        requires
            0 <= s,
            0 <= id < workers,
    ;
    assert(s * (id + 1) == s * id + s) by (nonlinear_arith);
    assert(s * 0 == 0) by (nonlinear_arith);
}

/// Later workers have later strips.
pub proof fn lemma_sections_ascend(height: int, workers: int, a: int, b: int)
    requires
        0 <= height,
        0 < workers,
        0 <= a < b < workers,
    ensures
        line_end(height, workers, a) <= line_begin(height, workers, b),
{
    let s = height / workers;
    assert(0 <= s) by (nonlinear_arith)
        requires
            0 <= height,
            0 < workers,
            s == height / workers,
    ;
    assert(s * a + s <= s * b) by (nonlinear_arith)
        requires
            0 <= s,
            a + 1 <= b,
    ;
}

/// Every row of the picture belongs to exactly one worker.
pub proof fn lemma_row_has_one_worker(height: int, workers: int, y: int)
    requires
        0 < workers,
        0 <= y < height,
    ensures
        exists|id: int| 0 <= id < workers && #[trigger] has_row(height, workers, id, y),
        forall|a: int, b: int|
            0 <= a < workers && 0 <= b < workers && #[trigger] has_row(height, workers, a, y)
                && #[trigger] has_row(height, workers, b, y) ==> a == b,
{
    lemma_row_is_covered(height, workers, y, workers - 1);
    assert forall|a: int, b: int|
        0 <= a < workers && 0 <= b < workers && #[trigger] has_row(height, workers, a, y)
            && #[trigger] has_row(height, workers, b, y) implies a == b by {
        if a < b {
            lemma_sections_ascend(height, workers, a, b);
        }
        if b < a {
            lemma_sections_ascend(height, workers, b, a);
        }
    }
}

/// A row below the end of worker `last` belongs to that worker or to one
/// before it.
proof fn lemma_row_is_covered(height: int, workers: int, y: int, last: int)
    requires
        0 < workers,
        0 <= last < workers,
        0 <= y < line_end(height, workers, last),
        0 <= height,
    ensures
        exists|id: int| 0 <= id <= last && #[trigger] has_row(height, workers, id, y),
    decreases last,
{
    lemma_sections_tile(height, workers, last);
    if line_begin(height, workers, last) <= y {
        assert(has_row(height, workers, last, y));
    } else {
        lemma_sections_tile(height, workers, last - 1);
        lemma_row_is_covered(height, workers, y, last - 1);
    }
}

/// The rows that worker `thread_id` of `thread_number` renders of a picture
/// `height` rows high: the first of them, and the row behind the last.
pub fn section(height: u32, thread_number: u32, thread_id: u32) -> (lines: (u32, u32))
    requires
        thread_number > 0,
        thread_id < thread_number,
    ensures
        lines.0 == line_begin(height as int, thread_number as int, thread_id as int),
        lines.1 == line_end(height as int, thread_number as int, thread_id as int),
{
    proof {
        lemma_sections_tile(height as int, thread_number as int, thread_id as int);
    }
    let section_line_number: u32 = height / thread_number;
    let ghost s = height as int / thread_number as int;
    assert(s * (thread_id as int) + s <= s * (thread_number as int)) by (nonlinear_arith)
        requires
            0 <= s,
            0 <= thread_id < thread_number,
    ;
    assert(s * (thread_number as int) <= height) by (nonlinear_arith)
        requires
            0 <= height,
            0 < thread_number,
            s == height as int / thread_number as int,
    ;
    let line_begin: u32 = section_line_number * thread_id;
    let mut line_end: u32 = line_begin + section_line_number;
    if line_end > height || (thread_id == thread_number - 1 && line_end < height) {
        line_end = height;
    }
    assert(thread_id == thread_number - 1 ==> s * (thread_id as int) + s == s * (
        thread_number as int)) by (nonlinear_arith);
    (line_begin, line_end)
}

/// The strips of all workers, in the order of the workers.
pub fn sections(height: u32, thread_number: u32) -> (all: Vec<(u32, u32)>)
    requires
        thread_number > 0,
    ensures
        all@.len() == thread_number,
        forall|id: int|
            0 <= id < thread_number ==> (#[trigger] all@[id]).0 == line_begin(
                height as int,
                thread_number as int,
                id,
            ) && all@[id].1 == line_end(height as int, thread_number as int, id),
{
    let mut all: Vec<(u32, u32)> = Vec::new();
    let mut thread_id: u32 = 0;
    while thread_id < thread_number
        invariant
            thread_number > 0,
            thread_id <= thread_number,
            all@.len() == thread_id,
            forall|id: int|
                0 <= id < thread_id ==> (#[trigger] all@[id]).0 == line_begin(
                    height as int,
                    thread_number as int,
                    id,
                ) && all@[id].1 == line_end(height as int, thread_number as int, id),
        decreases thread_number - thread_id,
    {
        all.push(section(height, thread_number, thread_id));
        thread_id = thread_id + 1;
    }
    all
}

/// The row of the written picture that holds the rendered row `y`: rows
/// are rendered from the bottom up and written from the top down.
pub fn image_row(height: u32, y: u32) -> (row: u32)
    requires
        y < height,
    ensures
        row == height - y - 1,
        row < height,
{
    height - y - 1
}

/// Puts the results of the workers one behind the other, in the order of
/// the workers.
pub fn collect<C>(parts: Vec<Vec<C>>) -> (all: Vec<C>)
    ensures
        all@ == joined(contents(parts@)),
{
    let mut parts = parts;
    let ghost whole = contents(parts@);
    let ghost mut done: int = 0;
    let mut all: Vec<C> = Vec::new();
    proof {
        assert(whole.take(0) =~= Seq::<Seq<C>>::empty());
        assert(whole.skip(0) =~= whole);
    }
    while parts.len() > 0
        invariant
            0 <= done <= whole.len(),
            contents(parts@) == whole.skip(done),
            all@ == joined(whole.take(done)),
        decreases parts@.len(),
    {
        let ghost before = parts@;
        let mut received = parts.remove(0);
        proof {
            assert(contents(before).len() == before.len());
            assert(done < whole.len());
            assert(contents(before)[0] == received@);
            assert(whole[done] == whole.skip(done)[0]);
            assert forall|i: int| 0 <= i < parts@.len() implies contents(parts@)[i] == whole.skip(
                done + 1,
            )[i] by {
                assert(parts@[i] == before[i + 1]);
                assert(contents(before)[i + 1] == before[i + 1]@);
                assert(whole.skip(done)[i + 1] == whole[done + 1 + i]);
            }
            assert(contents(parts@) =~= whole.skip(done + 1));
            assert(whole.take(done + 1).drop_last() =~= whole.take(done));
            assert(whole.take(done + 1).last() == received@);
            done = done + 1;
        }
        all.append(&mut received);
    }
    proof {
        assert(contents(parts@).len() == 0);
        assert(whole.take(done) =~= whole);
    }
    all
}

/// The workers that delivered nothing, in ascending order.
pub open spec fn failures<C>(results: Seq<Option<Vec<C>>>) -> Seq<int>
    decreases results.len(),
{
    if results.len() == 0 {
        Seq::empty()
    } else if results.last() is None {
        failures(results.drop_last()).push(results.len() - 1)
    } else {
        failures(results.drop_last())
    }
}

/// What the workers delivered, where every one of them did.
pub open spec fn delivered<C>(results: Seq<Option<Vec<C>>>) -> Seq<Seq<C>> {
    results.map_values(|r: Option<Vec<C>>| r->0@)
}

/// There are no failures exactly when every worker delivered.
pub proof fn lemma_no_failures_means_all_delivered<C>(results: Seq<Option<Vec<C>>>)
    ensures
        failures(results).len() == 0 <==> forall|id: int|
            0 <= id < results.len() ==> (#[trigger] results[id]) is Some,
        forall|k: int|
            0 <= k < failures(results).len() ==> 0 <= (#[trigger] failures(results)[k])
                < results.len() && results[failures(results)[k]] is None,
    decreases results.len(),
{
    if results.len() > 0 {
        let rest = results.drop_last();
        lemma_no_failures_means_all_delivered(rest);
        if failures(results).len() == 0 {
            assert forall|id: int| 0 <= id < results.len() implies (#[trigger] results[id])
                is Some by {
                if id < rest.len() {
                    assert(rest[id] == results[id]);
                }
            }
        } else if results.last() is Some {
            let id = choose|id: int| 0 <= id < rest.len() && !((#[trigger] rest[id]) is Some);
            assert(rest[id] == results[id]);
        }
        assert forall|k: int| 0 <= k < failures(results).len() implies 0 <= (
        #[trigger] failures(results)[k]) < results.len() && results[failures(results)[k]]
            is None by {
            if k < failures(rest).len() {
                assert(failures(results)[k] == failures(rest)[k]);
                assert(rest[failures(rest)[k]] == results[failures(rest)[k]]);
            }
        }
    }
}

/// Puts the picture together from what the workers delivered. There is a
/// picture only if every worker delivered its part; otherwise the result
/// names the workers that failed, in ascending order, and holds no pixel.
pub fn assemble<C>(results: Vec<Option<Vec<C>>>) -> (out: Result<Vec<C>, Vec<usize>>)
    ensures
        out is Ok <==> failures(results@).len() == 0,
        out matches Ok(all) ==> all@ == joined(delivered(results@)),
        out matches Err(failed) ==> failed@.len() == failures(results@).len() && forall|k: int|
            0 <= k < failed@.len() ==> (#[trigger] failed@[k]) as int == failures(results@)[k],
{
    let mut results = results;
    let ghost whole = results@;
    let workers = results.len();
    let mut parts: Vec<Vec<C>> = Vec::new();
    let mut failed: Vec<usize> = Vec::new();
    let mut id: usize = 0;
    proof {
        assert(whole.take(0) =~= Seq::<Option<Vec<C>>>::empty());
        assert(whole.skip(0) =~= whole);
    }
    while results.len() > 0
        invariant
            whole.len() == workers,
            id + results@.len() == whole.len(),
            results@ == whole.skip(id as int),
            failed@.len() == failures(whole.take(id as int)).len(),
            forall|k: int|
                0 <= k < failed@.len() ==> (#[trigger] failed@[k]) as int == failures(
                    whole.take(id as int),
                )[k],
            failed@.len() == 0 ==> parts@.len() == id && contents(parts@) == delivered(
                whole.take(id as int),
            ),
        decreases results@.len(),
    {
        let ghost before = results@;
        let result = results.remove(0);
        proof {
            assert(result == whole[id as int]);
            assert(results@ =~= whole.skip(id + 1));
            assert(whole.take(id + 1).drop_last() =~= whole.take(id as int));
            assert(whole.take(id + 1).last() == result);
        }
        match result {
            Some(part) => {
                let ghost had = parts@;
                parts.push(part);
                proof {
                    if failed@.len() == 0 {
                        assert(contents(parts@) =~= delivered(whole.take(id + 1))) by {
                            assert forall|k: int| 0 <= k < parts@.len() implies contents(parts@)[k]
                                == delivered(whole.take(id + 1))[k] by {
                                if k < id {
                                    assert(parts@[k] == had[k]);
                                    assert(contents(had)[k] == delivered(whole.take(id as int))[k]);
                                }
                            }
                        }
                    }
                }
            },
            None => {
                failed.push(id);
            },
        }
        id = id + 1;
    }
    proof {
        assert(whole.take(id as int) =~= whole);
    }
    if failed.len() == 0 {
        Ok(collect(parts))
    } else {
        Err(failed)
    }
}

/// The size of what `k` workers leave behind them: all rows before the
/// strip of worker `k`.
proof fn lemma_joined_prefix<C>(parts: Seq<Seq<C>>, width: int, height: int, k: int)
    requires
        0 <= width,
        0 <= height,
        0 <= k <= parts.len(),
        parts_fit(parts, width, height),
    ensures
        k < parts.len() ==> joined(parts.take(k)).len() == line_begin(
            height,
            parts.len() as int,
            k,
        ) * width,
        k == parts.len() && k > 0 ==> joined(parts.take(k)).len() == height * width,
    decreases k,
{
    let n = parts.len() as int;
    if k == 0 {
        assert(parts.take(0) =~= Seq::<Seq<C>>::empty());
        assert(line_begin(height, n, 0) * width == 0) by (nonlinear_arith)
            requires
                line_begin(height, n, 0) == section_lines(height, n) * 0,
        ;
    } else {
        lemma_joined_prefix(parts, width, height, k - 1);
        lemma_sections_tile(height, n, k - 1);
        assert(parts.take(k).drop_last() =~= parts.take(k - 1));
        assert(parts.take(k).last() == parts[k - 1]);
        let b = line_begin(height, n, k - 1);
        let e = line_end(height, n, k - 1);
        assert(b * width + (e - b) * width == e * width) by (nonlinear_arith);
    }
}

/// The assembled picture is row-major: the pixel in column `x` of row `y`
/// stands at `y * width + x`, and it is the pixel that the worker of that
/// row computed for it. The picture has `height * width` pixels.
pub proof fn lemma_collected_is_row_major<C>(
    parts: Seq<Seq<C>>,
    width: int,
    height: int,
    id: int,
    x: int,
    y: int,
)
    requires
        0 <= height,
        parts_fit(parts, width, height),
        0 <= id < parts.len(),
        0 <= x < width,
        has_row(height, parts.len() as int, id, y),
    ensures
        joined(parts).len() == height * width,
        0 <= y * width + x < joined(parts).len(),
        0 <= (y - line_begin(height, parts.len() as int, id)) * width + x < parts[id].len(),
        joined(parts)[y * width + x] == parts[id][(y - line_begin(height, parts.len() as int, id))
            * width + x],
{
    let n = parts.len() as int;
    let b = line_begin(height, n, id);
    let e = line_end(height, n, id);
    lemma_sections_tile(height, n, id);
    lemma_joined_prefix(parts, width, height, n);
    assert(parts.take(n) =~= parts);
    lemma_joined_prefix(parts, width, height, id);
    lemma_joined_take(parts, id + 1);
    assert(parts.take(id + 1).drop_last() =~= parts.take(id));
    assert(parts.take(id + 1).last() == parts[id]);
    let before = joined(parts.take(id));
    assert(0 <= (y - b) * width + x < (e - b) * width) by (nonlinear_arith)
        requires
            0 <= x < width,
            b <= y < e,
    ;
    assert(b * width + ((y - b) * width + x) == y * width + x) by (nonlinear_arith);
    assert(joined(parts.take(id + 1))[y * width + x] == parts[id][(y - b) * width + x]);
}

/// What the first `k` parts amount to stands unchanged at the front of the
/// whole.
proof fn lemma_joined_take<C>(parts: Seq<Seq<C>>, k: int)
    requires
        0 <= k <= parts.len(),
    ensures
        joined(parts.take(k)).len() <= joined(parts).len(),
        forall|i: int|
            0 <= i < joined(parts.take(k)).len() ==> joined(parts)[i] == joined(parts.take(k))[i],
    decreases parts.len() - k,
{
    if k == parts.len() {
        assert(parts.take(k) =~= parts);
    } else {
        lemma_joined_take(parts, k + 1);
        assert(parts.take(k + 1).drop_last() =~= parts.take(k));
    }
}

} // verus!
