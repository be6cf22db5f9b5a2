//! The byte ranges that a file is fetched in.
use vstd::prelude::*;

verus! {

/// The number of whole chunks of `chunk_size` bytes in `ct_len` bytes.
pub open spec fn whole_chunks(ct_len: int, chunk_size: int) -> int {
    ct_len / chunk_size
}

/// The ranges, each from its first to its last offset, that `ct_len` bytes are
/// fetched in. All but the last hold `chunk_size` offsets; the last goes on up
/// to `ct_len` itself. Fewer bytes than one chunk are fetched in one range.
pub open spec fn chunk_bounds(ct_len: int, chunk_size: int) -> Seq<(int, int)> {
    let n = whole_chunks(ct_len, chunk_size);
    if n == 0 {
        seq![(0int, ct_len)]
    } else {
        Seq::new(
            n as nat,
            |i: int|
                (i * chunk_size, if i == n - 1 {
                    ct_len
                } else {
                    (i + 1) * chunk_size - 1
                }),
        )
    }
}

/// Offsets of a machine width as mathematical ones.
pub open spec fn offset_ints(offsets: Seq<(u64, u64)>) -> Seq<(int, int)> {
    offsets.map_values(|pair: (u64, u64)| (pair.0 as int, pair.1 as int))
}

/// No range is empty, and each starts right behind the one before it.
pub open spec fn contiguous(bounds: Seq<(int, int)>) -> bool {
    &&& forall|i: int| 0 <= i < bounds.len() ==> (#[trigger] bounds[i]).0 <= bounds[i].1
    &&& forall|i: int|
        0 < i < bounds.len() ==> (#[trigger] bounds[i]).0 == bounds[i - 1].1 + 1
}

/// The number of offsets in a list of ranges.
pub open spec fn range_total(bounds: Seq<(int, int)>) -> int
    decreases bounds.len(),
{
    if bounds.len() == 0 {
        0
    } else {
        range_total(bounds.drop_last()) + bounds.last().1 - bounds.last().0 + 1
    }
}

/// Cuts `ct_len` bytes into the ranges that they are fetched in.
pub fn chunk_offsets(ct_len: u64, chunk_size: u64) -> (r: Vec<(u64, u64)>)
    requires
        chunk_size > 0,
    ensures
        offset_ints(r@) == chunk_bounds(ct_len as int, chunk_size as int),
{
    let no_of_chunks: u64 = ct_len / chunk_size;
    let mut sizes: Vec<(u64, u64)> = Vec::new();
    let ghost bounds = chunk_bounds(ct_len as int, chunk_size as int);
    let mut chunk: u64 = 0;
    while chunk < no_of_chunks
        invariant
            chunk_size > 0,
            no_of_chunks == ct_len as int / chunk_size as int,
            bounds == chunk_bounds(ct_len as int, chunk_size as int),
            chunk <= no_of_chunks,
            sizes@.len() == chunk,
            forall|i: int|
                0 <= i < chunk ==> (#[trigger] sizes@[i]).0 == bounds[i].0 && sizes@[i].1
                    == bounds[i].1,
        decreases no_of_chunks - chunk,
    {
        assert(0 <= chunk * chunk_size && (chunk + 1) * chunk_size <= ct_len && (chunk + 1)
            * chunk_size >= 1) by (nonlinear_arith)
            requires
                0 <= chunk < no_of_chunks,
                chunk_size > 0,
                no_of_chunks == ct_len as int / chunk_size as int,
        ;
        assert(chunk * chunk_size <= ct_len) by (nonlinear_arith)
            requires
                (chunk + 1) * chunk_size <= ct_len,
                chunk_size > 0,
        ;
        let bound: u64 = if chunk == no_of_chunks - 1 {
            ct_len
        } else {
            (chunk + 1) * chunk_size - 1
        };
        sizes.push((chunk * chunk_size, bound));
        chunk = chunk + 1;
    }
    if no_of_chunks == 0 {
        sizes.push((0, ct_len));
    }
    assert(offset_ints(sizes@) == bounds);
    sizes
}

/// The ranges follow one another without gap or overlap: the first starts at
/// offset zero, each starts right behind the one before it, none is empty, and
/// the last ends at `ct_len`.
pub proof fn lemma_chunks_are_contiguous(ct_len: int, chunk_size: int)
    requires
        ct_len >= 0,
        chunk_size > 0,
    ensures
        chunk_bounds(ct_len, chunk_size).len() > 0,
        chunk_bounds(ct_len, chunk_size)[0].0 == 0,
        chunk_bounds(ct_len, chunk_size).last().1 == ct_len,
        contiguous(chunk_bounds(ct_len, chunk_size)),
{
    let n = whole_chunks(ct_len, chunk_size);
    let bounds = chunk_bounds(ct_len, chunk_size);
    assert(n >= 0 && n * chunk_size <= ct_len) by (nonlinear_arith)
        requires
            ct_len >= 0,
            chunk_size > 0,
            n == ct_len / chunk_size,
    ;
    assert forall|i: int| 0 <= i < bounds.len() implies (#[trigger] bounds[i]).0 <= bounds[i].1 by {
        if n > 0 {
            assert(i * chunk_size <= (i + 1) * chunk_size - 1 && i * chunk_size <= n * chunk_size)
                by (nonlinear_arith)
                requires
                    0 <= i < n,
                    chunk_size > 0,
            ;
        }
    }
}

/// All ranges but the last hold exactly `chunk_size` offsets; where there is a
/// whole chunk, the last holds more than one chunk and at most two.
pub proof fn lemma_chunk_lengths(ct_len: int, chunk_size: int, i: int)
    requires
        ct_len >= 0,
        chunk_size > 0,
        0 <= i < chunk_bounds(ct_len, chunk_size).len(),
    ensures
        i < chunk_bounds(ct_len, chunk_size).len() - 1 ==> chunk_bounds(ct_len, chunk_size)[i].1
            - chunk_bounds(ct_len, chunk_size)[i].0 + 1 == chunk_size,
        i == chunk_bounds(ct_len, chunk_size).len() - 1 && ct_len >= chunk_size ==> chunk_size
            < chunk_bounds(ct_len, chunk_size)[i].1 - chunk_bounds(ct_len, chunk_size)[i].0 + 1
            <= 2 * chunk_size,
{
    let n = whole_chunks(ct_len, chunk_size);
    assert(n * chunk_size <= ct_len < (n + 1) * chunk_size && n >= 0) by (nonlinear_arith)
        requires
            ct_len >= 0,
            chunk_size > 0,
            n == ct_len / chunk_size,
    ;
    assert(n == 0 ==> ct_len < chunk_size) by (nonlinear_arith)
        requires
            ct_len < (n + 1) * chunk_size,
    ;
    assert((i + 1) * chunk_size == i * chunk_size + chunk_size) by (nonlinear_arith);
    assert(n * chunk_size == (n - 1) * chunk_size + chunk_size) by (nonlinear_arith);
    assert((n + 1) * chunk_size == n * chunk_size + chunk_size) by (nonlinear_arith);
}

/// Every offset of the file, and the one behind it, lies in exactly one range.
pub proof fn lemma_each_offset_in_one_chunk(ct_len: int, chunk_size: int, offset: int)
    requires
        chunk_size > 0,
        0 <= offset <= ct_len,
    ensures
        exists|i: int|
            0 <= i < chunk_bounds(ct_len, chunk_size).len() && (#[trigger] chunk_bounds(
                ct_len,
                chunk_size,
            )[i]).0 <= offset <= chunk_bounds(ct_len, chunk_size)[i].1,
        forall|i: int, j: int|
            0 <= i < chunk_bounds(ct_len, chunk_size).len() && 0 <= j < chunk_bounds(
                ct_len,
                chunk_size,
            ).len() && (#[trigger] chunk_bounds(ct_len, chunk_size)[i]).0 <= offset
                <= chunk_bounds(ct_len, chunk_size)[i].1 && (#[trigger] chunk_bounds(
                ct_len,
                chunk_size,
            )[j]).0 <= offset <= chunk_bounds(ct_len, chunk_size)[j].1 ==> i == j,
{
    lemma_chunks_are_contiguous(ct_len, chunk_size);
    let bounds = chunk_bounds(ct_len, chunk_size);
    lemma_contiguous_cover(bounds, offset);
    assert forall|i: int, j: int|
        0 <= i < bounds.len() && 0 <= j < bounds.len() && (#[trigger] bounds[i]).0 <= offset
            <= bounds[i].1 && (#[trigger] bounds[j]).0 <= offset <= bounds[j].1 implies i == j by {
        if i < j {
            lemma_contiguous_order(bounds, i, j);
        } else if j < i {
            lemma_contiguous_order(bounds, j, i);
        }
    }
}

proof fn lemma_contiguous_order(bounds: Seq<(int, int)>, i: int, j: int)
    requires
        contiguous(bounds),
        0 <= i < j < bounds.len(),
    ensures
        bounds[i].1 < bounds[j].0,
    decreases j - i,
{
    if i < j - 1 {
        lemma_contiguous_order(bounds, i, j - 1);
    }
}

proof fn lemma_contiguous_cover(bounds: Seq<(int, int)>, offset: int)
    requires
        contiguous(bounds),
        bounds.len() > 0,
        bounds[0].0 <= offset <= bounds.last().1,
    ensures
        exists|i: int|
            0 <= i < bounds.len() && (#[trigger] bounds[i]).0 <= offset <= bounds[i].1,
    decreases bounds.len(),
{
    let last = bounds.len() - 1;
    if offset >= bounds[last].0 {
        assert(bounds[last].0 <= offset <= bounds[last].1);
    } else {
        let front = bounds.drop_last();
        assert(front.last() == bounds[last - 1]);
        lemma_contiguous_cover(front, offset);
        let i = choose|i: int|
            0 <= i < front.len() && (#[trigger] front[i]).0 <= offset <= front[i].1;
        assert(bounds[i].0 <= offset <= bounds[i].1);
    }
}

proof fn lemma_contiguous_total(bounds: Seq<(int, int)>)
    requires
        contiguous(bounds),
        bounds.len() > 0,
    ensures
        range_total(bounds) == bounds.last().1 - bounds[0].0 + 1,
    decreases bounds.len(),
{
    let front = bounds.drop_last();
    if front.len() > 0 {
        assert(front.last() == bounds[bounds.len() - 2]);
        lemma_contiguous_total(front);
    } else {
        assert(range_total(front) == 0);
    }
}

/// The ranges together hold `ct_len + 1` offsets: each byte of the file once,
/// and the offset behind its end.
pub proof fn lemma_chunks_hold_the_file(ct_len: int, chunk_size: int)
    requires
        ct_len >= 0,
        chunk_size > 0,
    ensures
        range_total(chunk_bounds(ct_len, chunk_size)) == ct_len + 1,
{
    lemma_chunks_are_contiguous(ct_len, chunk_size);
    lemma_contiguous_total(chunk_bounds(ct_len, chunk_size));
}

/// What a file is cut into: ranges that follow one another from the first offset
/// to the one behind the last byte, all but the last of exactly `chunk_size`
/// offsets. The last one holds no more than two such ranges, and there is a range
/// more wherever it could be cut off and leave more than one.
pub proof fn lemma_file_is_cut_into_chunks(ct_len: u64, chunk_size: u64, r: Vec<(u64, u64)>)
    requires
        chunk_size > 0,
        call_ensures(chunk_offsets, (ct_len, chunk_size), r),
    ensures
        r@.len() > 0,
        r@[0].0 == 0,
        r@.last().1 == ct_len,
        forall|i: int| 0 < i < r@.len() ==> (#[trigger] r@[i]).0 == r@[i - 1].1 + 1,
        forall|i: int|
            0 <= i < r@.len() - 1 ==> (#[trigger] r@[i]).1 - r@[i].0 + 1 == chunk_size,
        r@.last().0 <= r@.last().1,
        if ct_len < chunk_size {
            r@.len() == 1
        } else {
            chunk_size < r@.last().1 - r@.last().0 + 1 <= 2 * chunk_size
        },
{
    let bounds = chunk_bounds(ct_len as int, chunk_size as int);
    let last = bounds.len() - 1;
    lemma_chunks_are_contiguous(ct_len as int, chunk_size as int);
    lemma_chunk_lengths(ct_len as int, chunk_size as int, last);
    assert(offset_ints(r@) == bounds);
    assert(r@.len() == bounds.len());
    assert forall|i: int| 0 <= i < r@.len() implies (#[trigger] r@[i]).0 == bounds[i].0 && r@[i].1
        == bounds[i].1 by {
        assert(offset_ints(r@)[i] == bounds[i]);
    }
    assert forall|i: int| 0 < i < r@.len() implies (#[trigger] r@[i]).0 == r@[i - 1].1 + 1 by {
        assert(bounds[i].0 == bounds[i - 1].1 + 1);
        assert(r@[i - 1].1 == bounds[i - 1].1);
    }
    assert forall|i: int| 0 <= i < r@.len() - 1 implies (#[trigger] r@[i]).1 - r@[i].0 + 1
        == chunk_size by {
        lemma_chunk_lengths(ct_len as int, chunk_size as int, i);
    }
    assert(r@[last] == r@.last());
    if ct_len < chunk_size {
        assert(ct_len as int / chunk_size as int == 0) by (nonlinear_arith)
            requires
                0 <= ct_len < chunk_size,
        ;
    }
}

} // verus!
