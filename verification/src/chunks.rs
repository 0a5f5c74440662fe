//! Chunk geometry: how a buffer is cut into one contiguous chunk for each
//! worker. Every chunk has `len / workers` bytes but the last, which takes
//! the remainder as well. The cut goes by byte count alone, with no regard
//! to where a pixel begins.

use vstd::prelude::*;

verus! {

/// Length of every chunk but the last.
pub open spec fn chunk_size(len: int, workers: int) -> int {
    len / workers
}

/// Offset at which chunk `i` begins.
pub open spec fn chunk_start(len: int, workers: int, i: int) -> int {
    i * chunk_size(len, workers)
}

/// Offset at which chunk `i` ends. The last chunk takes what is left.
pub open spec fn chunk_end(len: int, workers: int, i: int) -> int {
    if i == workers - 1 {
        len
    } else {
        (i + 1) * chunk_size(len, workers)
    }
}

/// Chunk `i` of `data` cut for `workers` workers.
pub open spec fn spec_chunk(data: Seq<u8>, workers: int, i: int) -> Seq<u8> {
    data.subrange(
        chunk_start(data.len() as int, workers, i),
        chunk_end(data.len() as int, workers, i),
    )
}

/// All chunks of `data` cut for `workers` workers, in order.
pub open spec fn chunks_of(data: Seq<u8>, workers: int) -> Seq<Seq<u8>> {
    Seq::new(workers as nat, |i: int| spec_chunk(data, workers, i))
}

/// Whether a buffer of `len` bytes cut for `workers` workers falls apart
/// between pixel pairs: the buffer is made of whole pixels, and every chunk
/// but the last of whole pixel pairs.
pub open spec fn chunks_aligned(len: int, workers: int) -> bool {
    len % 3 == 0 && (workers > 1 ==> chunk_size(len, workers) % 6 == 0)
}

/// The first `n` of `parts` one behind the other.
pub open spec fn concat_parts(parts: Seq<Seq<u8>>, n: int) -> Seq<u8>
    decreases n,
{
    if n <= 0 {
        Seq::empty()
    } else {
        concat_parts(parts, n - 1) + parts[n - 1]
    }
}

/// The chunks lie in order, each beginning where the one before ends, the
/// first at 0 and the last ending at `len`.
pub proof fn lemma_chunks_tile(len: int, workers: int, i: int)
    requires
        0 <= len,
        0 < workers,
        0 <= i < workers,
    ensures
        0 <= chunk_start(len, workers, i) <= chunk_end(len, workers, i) <= len,
        chunk_start(len, workers, 0) == 0,
        chunk_end(len, workers, workers - 1) == len,
        i + 1 < workers ==> chunk_end(len, workers, i) == chunk_start(len, workers, i + 1),
        i + 1 < workers ==> chunk_end(len, workers, i) - chunk_start(len, workers, i)
            == chunk_size(len, workers),
{
    let size = len / workers;
    assert(0 <= size && workers * size <= len) by (nonlinear_arith)
        requires
            0 <= len,
            0 < workers,
            size == len / workers,
    ;
    assert(0 <= i * size && i * size <= (i + 1) * size && (i + 1) * size <= workers * size
        && (i + 1) * size - i * size == size) by (nonlinear_arith)
        requires
            0 <= size,
            0 <= i < workers,
    ;
}

/// The bounds of chunk `i` in a buffer of `len` bytes cut for `workers`
/// workers: first offset and offset behind the last byte.
pub fn chunk_bounds(len: usize, workers: usize, i: usize) -> (bounds: (usize, usize))
    requires
        workers > 0,
        i < workers,
    ensures
        bounds.0 == chunk_start(len as int, workers as int, i as int),
        bounds.1 == chunk_end(len as int, workers as int, i as int),
        bounds.0 <= bounds.1 <= len,
{
    proof {
        lemma_chunks_tile(len as int, workers as int, i as int);
    }
    let size: usize = len / workers;
    let start: usize = i * size;
    let end: usize = if i == workers - 1 {
        len
    } else {
        start + size
    };
    (start, end)
}

/// Part `i` lies in the first `n` parts joined, right behind the parts
/// before it.
proof fn lemma_part_of_concat(parts: Seq<Seq<u8>>, i: int, n: int)
    requires
        0 <= i < n <= parts.len(),
    ensures
        concat_parts(parts, i + 1).len() == concat_parts(parts, i).len() + parts[i].len(),
        concat_parts(parts, i + 1).len() <= concat_parts(parts, n).len(),
        concat_parts(parts, n).subrange(
            concat_parts(parts, i).len() as int,
            concat_parts(parts, i + 1).len() as int,
        ) == parts[i],
    decreases n - i,
{
    if n > i + 1 {
        lemma_part_of_concat(parts, i, n - 1);
    }
}

/// Parts that agree in the first `n` places join to the same in the first
/// `n` places.
pub proof fn lemma_concat_agrees(first: Seq<Seq<u8>>, second: Seq<Seq<u8>>, n: int)
    requires
        0 <= n <= first.len(),
        n <= second.len(),
        forall|i: int| 0 <= i < n ==> first[i] == second[i],
    ensures
        concat_parts(first, n) == concat_parts(second, n),
    decreases n,
{
    if n > 0 {
        lemma_concat_agrees(first, second, n - 1);
    }
}

/// Parts that are each `factor` times as long as their counterparts join
/// to `factor` times the length.
pub proof fn lemma_concat_scaled(long: Seq<Seq<u8>>, short: Seq<Seq<u8>>, factor: int, n: int)
    requires
        0 <= n <= long.len(),
        n <= short.len(),
        forall|i: int| 0 <= i < n ==> (#[trigger] long[i]).len() == factor * short[i].len(),
    ensures
        concat_parts(long, n).len() == factor * concat_parts(short, n).len(),
    decreases n,
{
    if n > 0 {
        lemma_concat_scaled(long, short, factor, n - 1);
        assert(factor * (concat_parts(short, n - 1).len() + short[n - 1].len()) == factor
            * concat_parts(short, n - 1).len() + factor * short[n - 1].len())
            by (nonlinear_arith);
    } else {
        assert(factor * 0 == 0) by (nonlinear_arith);
    }
}

/// The first `n` chunks of a buffer joined are the buffer up to the end of
/// chunk `n - 1`.
proof fn lemma_concat_chunks(data: Seq<u8>, workers: int, n: int)
    requires
        0 < workers,
        0 <= n <= workers,
    ensures
        concat_parts(chunks_of(data, workers), n) == data.subrange(
            0,
            if n == 0 {
                0
            } else {
                chunk_end(data.len() as int, workers, n - 1)
            },
        ),
    decreases n,
{
    let len = data.len() as int;
    if n > 0 {
        lemma_concat_chunks(data, workers, n - 1);
        lemma_chunks_tile(len, workers, n - 1);
        if n > 1 {
            lemma_chunks_tile(len, workers, n - 2);
        }
    }
}

/// The chunks of a buffer, joined in order, are the buffer: they neither
/// overlap nor leave a byte out.
pub proof fn lemma_chunks_partition(data: Seq<u8>, workers: int)
    requires
        0 < workers,
    ensures
        concat_parts(chunks_of(data, workers), workers) == data,
{
    lemma_concat_chunks(data, workers, workers);
}

/// The first `n` parts joined, where each has `size` bytes, have `n * size`
/// bytes.
proof fn lemma_concat_len(parts: Seq<Seq<u8>>, size: int, n: int)
    requires
        0 <= n <= parts.len(),
        forall|j: int| 0 <= j < n ==> (#[trigger] parts[j]).len() == size,
    ensures
        concat_parts(parts, n).len() == n * size,
    decreases n,
{
    if n > 0 {
        lemma_concat_len(parts, size, n - 1);
        assert(n * size == (n - 1) * size + size) by (nonlinear_arith);
    } else {
        assert(n * size == 0) by (nonlinear_arith)
            requires
                n == 0,
        ;
    }
}

/// Parts of `size` bytes each, the last with fewer than `workers` bytes
/// more, are the chunks of what they join to. So a buffer that was put
/// together from such parts is cut into the same parts again.
pub proof fn lemma_chunk_of_concat(parts: Seq<Seq<u8>>, workers: int, size: int, i: int)
    requires
        0 < workers,
        parts.len() == workers,
        0 <= i < workers,
        0 <= size,
        forall|j: int| 0 <= j < workers - 1 ==> (#[trigger] parts[j]).len() == size,
        size <= parts[workers - 1].len() < size + workers,
    ensures
        spec_chunk(concat_parts(parts, workers), workers, i) == parts[i],
{
    let whole = concat_parts(parts, workers);
    let extra = parts[workers - 1].len() - size;
    lemma_concat_len(parts, size, workers - 1);
    lemma_part_of_concat(parts, workers - 1, workers);
    assert(whole.len() == workers * size + extra) by (nonlinear_arith)
        requires
            whole.len() == (workers - 1) * size + size + extra,
    ;
    assert(chunk_size(whole.len() as int, workers) == size) by (nonlinear_arith)
        requires
            whole.len() == workers * size + extra,
            0 <= extra < workers,
            0 <= size,
    ;
    lemma_concat_len(parts, size, i);
    lemma_part_of_concat(parts, i, workers);
    if i < workers - 1 {
        lemma_concat_len(parts, size, i + 1);
    }
}

} // verus!
