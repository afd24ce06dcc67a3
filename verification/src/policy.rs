//! What the filters do to their buckets: the same few sweeps over the
//! probes of an item, stated once for every kind of bucket array.

use crate::bits::saturate;
use crate::buckets::BucketArray;
use crate::hash::HashIter;
use vstd::arithmetic::div_mod::{
    lemma_fundamental_div_mod, lemma_fundamental_div_mod_converse,
};
use vstd::prelude::*;

verus! {

/// Whether bucket `b` is one of `positions`.
pub open spec fn touches(positions: Seq<usize>, b: int) -> bool {
    exists|i: int| 0 <= i < positions.len() && positions[i] == b
}

/// How often bucket `b` occurs among `positions`.
pub open spec fn occurrences(positions: Seq<usize>, b: int) -> nat
    decreases positions.len(),
{
    if positions.len() == 0 {
        0
    } else {
        occurrences(positions.drop_last(), b) + if positions.last() == b {
            1nat
        } else {
            0nat
        }
    }
}

/// Whether every one of `positions` is a bucket of an array of `len`
/// buckets.
pub open spec fn in_range(positions: Seq<usize>, len: nat) -> bool {
    forall|i: int| 0 <= i < positions.len() ==> positions[i] < len
}

/// Whether no bucket holds more than `max`.
pub open spec fn bounded(cells: Seq<u8>, max: u8) -> bool {
    forall|b: int| 0 <= b < cells.len() ==> cells[b] <= max
}

/// The buckets after `value` was written at every one of `positions`.
pub open spec fn written(cells: Seq<u8>, positions: Seq<usize>, value: u8) -> Seq<u8> {
    Seq::new(
        cells.len(),
        |b: int|
            if touches(positions, b) {
                value
            } else {
                cells[b]
            },
    )
}

/// The buckets after `delta` was added at every one of `positions`, once
/// for each time a bucket occurs there, within the range from zero to
/// `max`.
pub open spec fn bumped(cells: Seq<u8>, positions: Seq<usize>, delta: int, max: u8) -> Seq<u8> {
    Seq::new(
        cells.len(),
        |b: int| saturate(cells[b] + delta * occurrences(positions, b), max as int) as u8,
    )
}

/// Whether the bucket at every one of `positions` holds `value`.
pub open spec fn every_at(cells: Seq<u8>, positions: Seq<usize>, value: u8) -> bool {
    forall|i: int| 0 <= i < positions.len() ==> cells[positions[i] as int] == value
}

/// Whether the bucket at every one of `positions` holds more than zero.
pub open spec fn every_positive(cells: Seq<u8>, positions: Seq<usize>) -> bool {
    forall|i: int| 0 <= i < positions.len() ==> cells[positions[i] as int] > 0
}

/// The `p` buckets in a row from `start` on, going round at the end of an
/// array of `m` buckets.
pub open spec fn decay_positions(start: usize, p: usize, m: usize) -> Seq<usize> {
    Seq::new(p as nat, |i: int| ((start + i) % (m as int)) as usize)
}

proof fn lemma_touches_push(positions: Seq<usize>, x: usize, b: int)
    ensures
        touches(positions.push(x), b) <==> touches(positions, b) || x == b,
{
    let longer = positions.push(x);
    if touches(positions, b) {
        let i = choose|i: int| 0 <= i < positions.len() && positions[i] == b;
        assert(longer[i] == b);
    }
    if x == b {
        assert(longer[positions.len() as int] == b);
    }
    if touches(longer, b) {
        let i = choose|i: int| 0 <= i < longer.len() && longer[i] == b;
        if i < positions.len() {
            assert(positions[i] == b);
        }
    }
}

proof fn lemma_occurrences_push(positions: Seq<usize>, x: usize, b: int)
    ensures
        occurrences(positions.push(x), b) == occurrences(positions, b) + if x == b {
            1nat
        } else {
            0nat
        },
{
    assert(positions.push(x).drop_last() =~= positions);
}

proof fn lemma_bump_step(v: int, delta: int, c: nat, max: int)
    by (nonlinear_arith)
    requires
        0 <= v <= max,
    ensures
        saturate(saturate(v + delta * c, max) + delta, max) == saturate(v + delta * (c + 1), max),
{
}

/// A bucket occurs among the positions exactly when one of them is the
/// bucket.
pub proof fn lemma_occurrences_touches(positions: Seq<usize>, b: int)
    ensures
        occurrences(positions, b) > 0 <==> touches(positions, b),
    decreases positions.len(),
{
    if positions.len() > 0 {
        let shorter = positions.drop_last();
        lemma_occurrences_touches(shorter, b);
        assert(shorter.push(positions.last()) =~= positions);
        lemma_touches_push(shorter, positions.last(), b);
    }
}

/// After a sweep that adds one, no bucket holds less than before, and every
/// bucket that the sweep touched holds more than zero.
pub proof fn lemma_bumped_up(cells: Seq<u8>, positions: Seq<usize>, max: u8)
    requires
        bounded(cells, max),
        in_range(positions, cells.len()),
        max >= 1,
    ensures
        forall|b: int| 0 <= b < cells.len() ==> bumped(cells, positions, 1, max)[b] >= cells[b],
        every_positive(bumped(cells, positions, 1, max), positions),
{
    let after = bumped(cells, positions, 1, max);
    assert forall|i: int| 0 <= i < positions.len() implies after[positions[i] as int] > 0 by {
        lemma_occurrences_touches(positions, positions[i] as int);
    }
}

/// A sweep that takes one off undoes a sweep over the same positions that
/// added one, where every bucket that they touch held zero or had room for
/// all that was added.
pub proof fn lemma_down_undoes_up(cells: Seq<u8>, positions: Seq<usize>, max: u8)
    requires
        bounded(cells, max),
        forall|b: int|
            0 <= b < cells.len() && touches(positions, b) ==> cells[b] == 0 || cells[b]
                + occurrences(positions, b) <= max,
    ensures
        bumped(bumped(cells, positions, 1, max), positions, -1, max) == cells,
{
    let up = bumped(cells, positions, 1, max);
    let down = bumped(up, positions, -1, max);
    assert forall|b: int| 0 <= b < cells.len() implies down[b] == cells[b] by {
        lemma_occurrences_touches(positions, b);
    }
    assert(down =~= cells);
}

/// After a sweep that writes a value, every bucket that the sweep touched
/// holds the value, and every other bucket holds what it held.
pub proof fn lemma_written_at(cells: Seq<u8>, positions: Seq<usize>, value: u8)
    requires
        in_range(positions, cells.len()),
    ensures
        every_at(written(cells, positions, value), positions, value),
        forall|b: int|
            0 <= b < cells.len() && !touches(positions, b) ==> written(cells, positions, value)[b]
                == cells[b],
{
}

/// Writes `value`, or the limit if that is less, into the bucket of every
/// probe.
pub fn write_each<B: BucketArray, I: HashIter>(buckets: &mut B, probes: I, value: u8)
    requires
        in_range(probes.remaining(), old(buckets).cells().len()),
    ensures
        final(buckets).limit() == old(buckets).limit(),
        final(buckets).cells() == written(
            old(buckets).cells(),
            probes.remaining(),
            saturate(value as int, old(buckets).limit() as int) as u8,
        ),
        bounded(old(buckets).cells(), old(buckets).limit()) ==> bounded(
            final(buckets).cells(),
            old(buckets).limit(),
        ),
{
    let ghost all = probes.remaining();
    let mut it = probes;
    let ghost start = buckets.cells();
    let ghost v = saturate(value as int, buckets.limit() as int) as u8;
    let ghost mut done: int = 0;
    proof {
        assert(buckets.cells() =~= written(start, all.take(0), v));
    }
    loop
        invariant_except_break
            0 <= done <= all.len(),
            it.remaining() == all.subrange(done, all.len() as int),
            buckets.cells() == written(start, all.take(done), v),
        invariant
            in_range(all, start.len()),
            buckets.limit() == old(buckets).limit(),
            v == saturate(value as int, buckets.limit() as int) as u8,
        ensures
            buckets.cells() == written(start, all, v),
        decreases all.len() - done,
    {
        match it.next() {
            Some(i) => {
                buckets.set(i, value);
                proof {
                    assert(i == all[done]);
                    assert(all.take(done + 1) =~= all.take(done).push(i));
                    assert forall|b: int| 0 <= b < start.len() implies buckets.cells()[b]
                        == written(start, all.take(done + 1), v)[b] by {
                        lemma_touches_push(all.take(done), i, b);
                    }
                    assert(buckets.cells() =~= written(start, all.take(done + 1), v));
                    assert(it.remaining() =~= all.subrange(done + 1, all.len() as int));
                    done = done + 1;
                }
            },
            None => {
                proof {
                    assert(all.take(done) =~= all);
                }
                break ;
            },
        }
    }
}


/// Adds `delta` to the bucket of every probe, within the range from zero to
/// the limit.
pub fn bump_each<B: BucketArray, I: HashIter>(buckets: &mut B, probes: I, delta: i8)
    requires
        in_range(probes.remaining(), old(buckets).cells().len()),
        bounded(old(buckets).cells(), old(buckets).limit()),
    ensures
        final(buckets).limit() == old(buckets).limit(),
        final(buckets).cells() == bumped(
            old(buckets).cells(),
            probes.remaining(),
            delta as int,
            old(buckets).limit(),
        ),
        bounded(final(buckets).cells(), old(buckets).limit()),
{
    let ghost all = probes.remaining();
    let mut it = probes;
    let ghost start = buckets.cells();
    let ghost max = buckets.limit();
    let ghost mut done: int = 0;
    proof {
        assert forall|b: int| 0 <= b < start.len() implies start[b] == bumped(
            start,
            all.take(0),
            delta as int,
            max,
        )[b] by {
            assert(delta * occurrences(all.take(0), b) == 0) by (nonlinear_arith)
                requires
                    occurrences(all.take(0), b) == 0,
            ;
        }
        assert(buckets.cells() =~= bumped(start, all.take(0), delta as int, max));
    }
    loop
        invariant_except_break
            0 <= done <= all.len(),
            it.remaining() == all.subrange(done, all.len() as int),
            buckets.cells() == bumped(start, all.take(done), delta as int, max),
        invariant
            in_range(all, start.len()),
            forall|b: int| 0 <= b < start.len() ==> start[b] <= max,
            buckets.limit() == max,
        ensures
            buckets.cells() == bumped(start, all, delta as int, max),
        decreases all.len() - done,
    {
        match it.next() {
            Some(i) => {
                buckets.increment(i, delta);
                proof {
                    assert(i == all[done]);
                    assert(all.take(done + 1) =~= all.take(done).push(i));
                    assert forall|b: int| 0 <= b < start.len() implies buckets.cells()[b]
                        == bumped(start, all.take(done + 1), delta as int, max)[b] by {
                        lemma_occurrences_push(all.take(done), i, b);
                        if b == i {
                            lemma_bump_step(
                                start[b] as int,
                                delta as int,
                                occurrences(all.take(done), b),
                                max as int,
                            );
                        }
                    }
                    assert(buckets.cells() =~= bumped(
                        start,
                        all.take(done + 1),
                        delta as int,
                        max,
                    ));
                    assert(it.remaining() =~= all.subrange(done + 1, all.len() as int));
                    done = done + 1;
                }
            },
            None => {
                proof {
                    assert(all.take(done) =~= all);
                }
                break ;
            },
        }
    }
}

/// Whether the bucket of every probe holds `value`.
pub fn all_at<B: BucketArray, I: HashIter>(buckets: &B, probes: I, value: u8) -> (r: bool)
    requires
        in_range(probes.remaining(), buckets.cells().len()),
    ensures
        r == every_at(buckets.cells(), probes.remaining(), value),
{
    let ghost all = probes.remaining();
    let mut it = probes;
    let ghost mut done: int = 0;
    loop
        invariant
            0 <= done <= all.len(),
            it.remaining() == all.subrange(done, all.len() as int),
            in_range(all, buckets.cells().len()),
            all == probes.remaining(),
            forall|i: int| 0 <= i < done ==> buckets.cells()[all[i] as int] == value,
        decreases all.len() - done,
    {
        match it.next() {
            Some(i) => {
                assert(i == all[done]);
                if buckets.get(i) != value {
                    return false;
                }
                proof {
                    assert(it.remaining() =~= all.subrange(done + 1, all.len() as int));
                    done = done + 1;
                }
            },
            None => {
                return true;
            },
        }
    }
}

/// Whether the bucket of every probe holds more than zero.
pub fn all_positive<B: BucketArray, I: HashIter>(buckets: &B, probes: I) -> (r: bool)
    requires
        in_range(probes.remaining(), buckets.cells().len()),
    ensures
        r == every_positive(buckets.cells(), probes.remaining()),
{
    let ghost all = probes.remaining();
    let mut it = probes;
    let ghost mut done: int = 0;
    loop
        invariant
            0 <= done <= all.len(),
            it.remaining() == all.subrange(done, all.len() as int),
            in_range(all, buckets.cells().len()),
            all == probes.remaining(),
            forall|i: int| 0 <= i < done ==> buckets.cells()[all[i] as int] > 0,
        decreases all.len() - done,
    {
        match it.next() {
            Some(i) => {
                assert(i == all[done]);
                if buckets.get(i) == 0 {
                    return false;
                }
                proof {
                    assert(it.remaining() =~= all.subrange(done + 1, all.len() as int));
                    done = done + 1;
                }
            },
            None => {
                return true;
            },
        }
    }
}


proof fn lemma_next_round(x: int, m: int)
    requires
        0 <= x,
        0 < m,
    ensures
        (x + 1) % m == if x % m + 1 == m {
            0
        } else {
            x % m + 1
        },
{
    lemma_fundamental_div_mod(x, m);
    let q = x / m;
    let r = x % m;
    if r + 1 == m {
        assert(x + 1 == (q + 1) * m + 0) by (nonlinear_arith)
            requires
                x == m * q + r,
                r + 1 == m,
        ;
        lemma_fundamental_div_mod_converse(x + 1, m, q + 1, 0);
    } else {
        assert(x + 1 == q * m + (r + 1)) by (nonlinear_arith)
            requires
                x == m * q + r,
        ;
        lemma_fundamental_div_mod_converse(x + 1, m, q, r + 1);
    }
}

proof fn lemma_apart_modulo(x: int, i: int, j: int, m: int)
    requires
        0 <= x,
        0 <= i < j,
        j - i < m,
    ensures
        (x + i) % m != (x + j) % m,
{
    lemma_fundamental_div_mod(x + i, m);
    lemma_fundamental_div_mod(x + j, m);
    let qi = (x + i) / m;
    let qj = (x + j) / m;
    if (x + i) % m == (x + j) % m {
        assert(false) by (nonlinear_arith)
            requires
                j - i == m * qj - m * qi,
                0 < j - i < m,
        ;
    }
}

/// A row of no more buckets than the array has touches no bucket twice.
pub proof fn lemma_decay_once(start: usize, p: usize, m: usize, b: int)
    requires
        0 < m,
        p <= m,
    ensures
        occurrences(decay_positions(start, p, m), b) <= 1,
    decreases p,
{
    if p > 0 {
        let row = decay_positions(start, p, m);
        let shorter = decay_positions(start, (p - 1) as usize, m);
        assert(row.drop_last() =~= shorter);
        lemma_decay_once(start, (p - 1) as usize, m, b);
        if row.last() == b && occurrences(shorter, b) > 0 {
            lemma_occurrences_touches(shorter, b);
            let i = choose|i: int| 0 <= i < shorter.len() && shorter[i] == b;
            lemma_apart_modulo(start as int, i, p - 1, m as int);
        }
    }
}

/// Takes one off each of `p` buckets in a row, going round at the end of the
/// array; the row starts at bucket `start`, reduced modulo the number of
/// buckets. No bucket falls under zero.
pub fn decay<B: BucketArray>(buckets: &mut B, start: usize, p: usize)
    requires
        old(buckets).cells().len() > 0,
        bounded(old(buckets).cells(), old(buckets).limit()),
    ensures
        final(buckets).limit() == old(buckets).limit(),
        final(buckets).cells() == bumped(
            old(buckets).cells(),
            decay_positions(start, p, old(buckets).cells().len() as usize),
            -1,
            old(buckets).limit(),
        ),
        bounded(final(buckets).cells(), old(buckets).limit()),
{
    let m = buckets.len();
    let ghost all = decay_positions(start, p, m);
    let ghost before = buckets.cells();
    let ghost max = buckets.limit();
    let mut pos = start % m;
    let mut i: usize = 0;
    proof {
        assert forall|b: int| 0 <= b < before.len() implies before[b] == bumped(
            before,
            all.take(0),
            -1,
            max,
        )[b] by {
            assert(-1 * occurrences(all.take(0), b) == 0) by (nonlinear_arith)
                requires
                    occurrences(all.take(0), b) == 0,
            ;
        }
        assert(buckets.cells() =~= bumped(before, all.take(0), -1, max));
    }
    while i < p
        invariant
            i <= p,
            0 < m == before.len(),
            pos == (start + i) % (m as int),
            all == decay_positions(start, p, m),
            forall|b: int| 0 <= b < before.len() ==> before[b] <= max,
            buckets.limit() == max,
            buckets.cells() == bumped(before, all.take(i as int), -1, max),
        decreases p - i,
    {
        buckets.increment(pos, -1);
        proof {
            assert(all[i as int] == pos);
            assert(all.take(i + 1) =~= all.take(i as int).push(pos));
            assert forall|b: int| 0 <= b < before.len() implies buckets.cells()[b] == bumped(
                before,
                all.take(i + 1),
                -1,
                max,
            )[b] by {
                lemma_occurrences_push(all.take(i as int), pos, b);
                if b == pos {
                    lemma_bump_step(
                        before[b] as int,
                        -1,
                        occurrences(all.take(i as int), b),
                        max as int,
                    );
                }
            }
            assert(buckets.cells() =~= bumped(before, all.take(i + 1), -1, max));
            lemma_next_round(start + i, m as int);
        }
        pos = pos + 1;
        if pos == m {
            pos = 0;
        }
        i += 1;
    }
    proof {
        assert(all.take(p as int) =~= all);
    }
}

} // verus!
