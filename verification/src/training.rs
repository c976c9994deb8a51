//! The batching of a training epoch: examples are visited in time order
//! and grouped into consecutive mini-batches whose losses are averaged
//! before each optimizer step.

use vstd::prelude::*;

verus! {

/// The number of batches of at most `batch_size` examples that `len`
/// examples make: `len / batch_size` rounded up.
pub open spec fn batch_count(len: int, batch_size: int) -> int {
    (len + batch_size - 1) / batch_size
}

/// Batch `i` as a half-open range of example indices: it starts at
/// `i * batch_size` and holds `batch_size` examples, or fewer if the
/// examples run out.
pub open spec fn batch_at(i: int, len: int, batch_size: int) -> (int, int) {
    (i * batch_size, if (i + 1) * batch_size <= len {
        (i + 1) * batch_size
    } else {
        len
    })
}

/// All batches of `len` examples, in order.
pub open spec fn batches_of(len: int, batch_size: int) -> Seq<(int, int)> {
    Seq::new(batch_count(len, batch_size) as nat, |i: int| batch_at(i, len, batch_size))
}

/// Ranges as pairs of integers.
pub open spec fn batch_views(r: Seq<(usize, usize)>) -> Seq<(int, int)> {
    r.map_values(|b: (usize, usize)| (b.0 as int, b.1 as int))
}

/// The consecutive batches of `len` time-ordered examples, each a
/// half-open index range: every batch holds `batch_size` examples except
/// possibly the last, which holds the remainder. `batch_size` must be
/// positive.
pub fn batch_ranges(len: usize, batch_size: usize) -> (r: Vec<(usize, usize)>)
    requires
        batch_size > 0,
    ensures
        batch_views(r@) == batches_of(len as int, batch_size as int),
{
    let mut r: Vec<(usize, usize)> = Vec::new();
    let mut start: usize = 0;
    let ghost mut i: int = 0;
    while start < len
        invariant
            batch_size > 0,
            0 <= i,
            start <= len,
            start <= i * batch_size,
            start == i * batch_size || start == len,
            i == 0 || (i - 1) * batch_size < len,
            r@.len() == i,
            forall|j: int| 0 <= j < i ==> (#[trigger] batch_views(r@)[j]) == batch_at(j, len as int, batch_size as int),
        decreases len - start,
    {
        assert(start == i * batch_size);
        let end = if len - start > batch_size {
            start + batch_size
        } else {
            len
        };
        assert(batch_at(i, len as int, batch_size as int) == (start as int, end as int)) by (nonlinear_arith)
            requires
                start == i * batch_size,
                end == (if len - start > batch_size { start + batch_size } else { len as int }),
        ;
        let ghost before = r@;
        r.push((start, end));
        proof {
            assert forall|j: int| 0 <= j < i + 1 implies (#[trigger] batch_views(r@)[j]) == batch_at(
                j,
                len as int,
                batch_size as int,
            ) by {
                if j < i {
                    assert(r@[j] == before[j]);
                    assert(batch_views(before)[j] == batch_at(j, len as int, batch_size as int));
                } else {
                    assert(r@[j] == (start, end));
                }
            }
            assert((i + 1) * batch_size == i * batch_size + batch_size) by (nonlinear_arith);
        }
        start = end;
        proof {
            i = i + 1;
        }
    }
    proof {
        assert(start == len);
        if i > 0 {
            let rem = len + batch_size - 1 - i * batch_size;
            assert((i - 1) * batch_size == i * batch_size - batch_size) by (nonlinear_arith);
            vstd::arithmetic::div_mod::lemma_fundamental_div_mod_converse(
                len + batch_size - 1,
                batch_size as int,
                i,
                rem,
            );
        } else {
            assert(len == 0);
            vstd::arithmetic::div_mod::lemma_fundamental_div_mod_converse(
                batch_size - 1,
                batch_size as int,
                0,
                batch_size - 1,
            );
        }
        assert(batch_views(r@) =~= batches_of(len as int, batch_size as int));
    }
    r
}

/// The batches of an epoch partition its examples in order: there are
/// none exactly when there are no examples; the first starts at `0` and
/// the last ends at `len`; each ends where the next starts; every batch is
/// non-empty and holds at most `batch_size` examples; and every batch but
/// the last holds exactly `batch_size`.
pub proof fn lemma_batches_partition_examples(len: int, batch_size: int)
    requires
        len >= 0,
        batch_size > 0,
    ensures
        (batches_of(len, batch_size).len() == 0) <==> (len == 0),
        batches_of(len, batch_size).len() > 0 ==> batches_of(len, batch_size)[0].0 == 0
            && batches_of(len, batch_size).last().1 == len,
        forall|i: int|
            0 <= i < batches_of(len, batch_size).len() - 1 ==> {
                &&& (#[trigger] batches_of(len, batch_size)[i]).1 == batches_of(len, batch_size)[i
                    + 1].0
                &&& batches_of(len, batch_size)[i].1 - batches_of(len, batch_size)[i].0 == batch_size
            },
        forall|i: int|
            0 <= i < batches_of(len, batch_size).len() ==> 0 < (#[trigger] batches_of(
                len,
                batch_size,
            )[i]).1 - batches_of(len, batch_size)[i].0 <= batch_size,
{
    let c = batch_count(len, batch_size);
    let x = len + batch_size - 1;
    vstd::arithmetic::div_mod::lemma_fundamental_div_mod(x, batch_size);
    let rem = x % batch_size;
    assert(0 <= rem < batch_size);
    assert(x == batch_size * c + rem);
    assert(c * batch_size == batch_size * c) by (nonlinear_arith);
    assert(c >= 0) by (nonlinear_arith)
        requires
            x == batch_size * c + rem,
            x >= 0 - 1 + batch_size,
            0 <= rem < batch_size,
            batch_size > 0,
    ;
    assert((c - 1) * batch_size == c * batch_size - batch_size) by (nonlinear_arith);
    let b = batches_of(len, batch_size);
    assert(b.len() == c);
    if len == 0 {
        assert(c == 0) by (nonlinear_arith)
            requires
                batch_size - 1 == batch_size * c + rem,
                0 <= rem < batch_size,
                batch_size > 0,
        ;
    } else {
        assert(c > 0) by (nonlinear_arith)
            requires
                len > 0,
                len + batch_size - 1 == batch_size * c + rem,
                0 <= rem < batch_size,
                batch_size > 0,
        ;
    }
    assert forall|i: int| 0 <= i < c implies (#[trigger] b[i]) == batch_at(i, len, batch_size) && i
        * batch_size < len && (i + 1) * batch_size == i * batch_size + batch_size by {
        assert(i * batch_size <= (c - 1) * batch_size) by (nonlinear_arith)
            requires
                i <= c - 1,
                batch_size > 0,
        ;
        assert((i + 1) * batch_size == i * batch_size + batch_size) by (nonlinear_arith);
    }
    assert forall|i: int| 0 <= i < b.len() - 1 implies {
        &&& (#[trigger] b[i]).1 == b[i + 1].0
        &&& b[i].1 - b[i].0 == batch_size
    } by {
        assert(b[i] == batch_at(i, len, batch_size));
        assert(b[i + 1] == batch_at(i + 1, len, batch_size));
        assert((i + 1) * batch_size < len);
    }
    assert forall|i: int| 0 <= i < b.len() implies 0 < (#[trigger] b[i]).1 - b[i].0 <= batch_size by {
        assert(b[i] == batch_at(i, len, batch_size));
        assert(i * batch_size < len);
    }
    if c > 0 {
        assert(b[0].0 == 0 * batch_size);
        assert(b.last() == b[c - 1]);
        assert(c * batch_size >= len);
        assert((c - 1 + 1) * batch_size == c * batch_size);
    }
}

} // verus!
