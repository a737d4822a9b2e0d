//! The conflict-free pairing scheduler.
//!
//! For `n` siblings the scheduler yields a sequence of rounds. A round is a
//! list of index pairs that share no index, so the pairs of one round may be
//! worked on at the same time. Over all rounds every unordered pair of
//! distinct siblings occurs exactly once.
//!
//! The rounds follow a circular tournament. For every rotation offset
//! `o = 1, ..., n / 2` index `k` is paired with `k + o` (modulo `n`). One
//! sweep over `k = 0, ..., n - 1` greedily collects pairs whose indices are
//! still free in the round under construction; sweeps repeat until every
//! pair of the offset has been emitted. When `n` is even, the offset `n / 2`
//! pairs each index with its mirror image, and only the lower half emits.
//!
//! A dispatcher that hands the pairs of a round to tasks checks the round
//! before it starts them, joins all of them, and settles the round by what
//! came back.

use crate::error::EngineError;
use vstd::prelude::*;

verus! {

/// The index paired with `k` under rotation offset `o` among `n` siblings.
pub open spec fn partner(n: int, o: int, k: int) -> int {
    if k + o < n {
        k + o
    } else {
        k + o - n
    }
}

/// A sequence of `n` flags, all unset.
pub open spec fn all_clear(n: int) -> Seq<bool> {
    Seq::new(n as nat, |i: int| false)
}

/// The number of unset flags.
pub open spec fn pending(flags: Seq<bool>) -> nat
    decreases flags.len(),
{
    if flags.len() == 0 {
        0
    } else {
        pending(flags.drop_last()) + if flags.last() {
            0nat
        } else {
            1nat
        }
    }
}

/// The pairs that one greedy sweep emits from index `k` on. `done` flags the
/// indices whose pair was emitted by an earlier sweep of this offset, `busy`
/// the indices already used in this sweep.
pub open spec fn sweep(n: int, o: int, done: Seq<bool>, busy: Seq<bool>, k: int) -> Seq<(int, int)>
    decreases n - k,
{
    if k < 0 || k >= n {
        Seq::empty()
    } else {
        let p = partner(n, o, k);
        if !done[k] && !busy[k] && !busy[p] {
            seq![(k, p)] + sweep(n, o, done, busy.update(k, true).update(p, true), k + 1)
        } else {
            sweep(n, o, done, busy, k + 1)
        }
    }
}

/// `done` with the flag of every first index of `round` set.
pub open spec fn marked(done: Seq<bool>, round: Seq<(int, int)>) -> Seq<bool>
    decreases round.len(),
{
    if round.len() == 0 {
        done
    } else {
        marked(done, round.drop_last()).update(round.last().0, true)
    }
}

/// Whether two pairs have an index in common.
pub open spec fn shares_index(x: (int, int), y: (int, int)) -> bool {
    x.0 == y.0 || x.0 == y.1 || x.1 == y.0 || x.1 == y.1
}

/// Whether `round` holds a pair whose first index is `k`.
pub open spec fn leads(round: Seq<(int, int)>, k: int) -> bool {
    exists|t: int| 0 <= t < round.len() && (#[trigger] round[t]).0 == k
}

/// The rounds that the sweeps of offset `o` emit once the pairs flagged in
/// `done` are out.
pub open spec fn sweeps(n: int, o: int, done: Seq<bool>) -> Seq<Seq<(int, int)>>
    decreases pending(done),
    when 0 < o < n && done.len() == n
    via sweeps_decreases
{
    if pending(done) == 0 {
        Seq::empty()
    } else {
        let round = sweep(n, o, done, all_clear(n), 0);
        seq![round] + sweeps(n, o, marked(done, round))
    }
}

/// Every sweep that has something left to do marks at least one index.
#[via_fn]
proof fn sweeps_decreases(n: int, o: int, done: Seq<bool>) {
    if pending(done) != 0 {
        let round = sweep(n, o, done, all_clear(n), 0);
        lemma_pending_witness(done);
        let j = choose|j: int| 0 <= j < done.len() && !done[j];
        lemma_sweep_progress(n, o, done, all_clear(n), 0, j);
        lemma_sweep(n, o, done, all_clear(n), 0);
        lemma_marked(done, round);
    }
}

/// Where a flag is pending, one is unset.
proof fn lemma_pending_witness(flags: Seq<bool>)
    requires
        pending(flags) > 0,
    ensures
        exists|i: int| 0 <= i < flags.len() && !flags[i],
    decreases flags.len(),
{
    if flags.len() > 0 {
        if flags.last() {
            lemma_pending_witness(flags.drop_last());
        }
    }
}

/// Where no flag is pending, all are set.
proof fn lemma_pending_none(flags: Seq<bool>)
    requires
        pending(flags) == 0,
    ensures
        forall|i: int| 0 <= i < flags.len() ==> flags[i],
    decreases flags.len(),
{
    if flags.len() > 0 {
        lemma_pending_none(flags.drop_last());
        assert forall|i: int| 0 <= i < flags.len() implies flags[i] by {
            if i < flags.len() - 1 {
                assert(flags[i] == flags.drop_last()[i]);
            }
        }
    }
}

/// Of `n` unset flags all are pending.
proof fn lemma_pending_all_clear(n: int)
    requires
        0 <= n,
    ensures
        pending(all_clear(n)) == n,
    decreases n,
{
    if n > 0 {
        lemma_pending_all_clear(n - 1);
        assert(all_clear(n).drop_last() =~= all_clear(n - 1));
    }
}

/// Setting an unset flag leaves one flag less pending.
proof fn lemma_pending_update(flags: Seq<bool>, k: int)
    requires
        0 <= k < flags.len(),
        !flags[k],
    ensures
        pending(flags.update(k, true)) == pending(flags) - 1,
    decreases flags.len(),
{
    let set = flags.update(k, true);
    if k == flags.len() - 1 {
        assert(set.drop_last() =~= flags.drop_last());
    } else {
        lemma_pending_update(flags.drop_last(), k);
        assert(set.drop_last() =~= flags.drop_last().update(k, true));
    }
}

/// Every pair of a sweep starts at an index that was neither done nor busy,
/// ends at its partner, and shares no index with another pair of the sweep.
proof fn lemma_sweep(n: int, o: int, done: Seq<bool>, busy: Seq<bool>, k: int)
    requires
        0 < o < n,
        done.len() == n,
        busy.len() == n,
        0 <= k <= n,
    ensures
        forall|t: int|
            0 <= t < sweep(n, o, done, busy, k).len() ==> {
                let pair = #[trigger] sweep(n, o, done, busy, k)[t];
                &&& k <= pair.0 < n
                &&& !done[pair.0]
                &&& !busy[pair.0]
                &&& !busy[pair.1]
                &&& pair.1 == partner(n, o, pair.0)
            },
        forall|s: int, t: int|
            0 <= s < t < sweep(n, o, done, busy, k).len() ==> {
                let first = #[trigger] sweep(n, o, done, busy, k)[s];
                let second = #[trigger] sweep(n, o, done, busy, k)[t];
                first.0 < second.0 && !shares_index(first, second)
            },
    decreases n - k,
{
    if k < n {
        let p = partner(n, o, k);
        let round = sweep(n, o, done, busy, k);
        if !done[k] && !busy[k] && !busy[p] {
            let taken = busy.update(k, true).update(p, true);
            let rest = sweep(n, o, done, taken, k + 1);
            lemma_sweep(n, o, done, taken, k + 1);
        } else {
            lemma_sweep(n, o, done, busy, k + 1);
            assert(round == sweep(n, o, done, busy, k + 1));
        }
    }
}

/// A sweep that starts with no index busy emits a pair as soon as one is
/// still to be done.
proof fn lemma_sweep_progress(n: int, o: int, done: Seq<bool>, busy: Seq<bool>, k: int, j: int)
    requires
        0 < o < n,
        done.len() == n,
        busy == all_clear(n),
        0 <= k <= j < n,
        !done[j],
    ensures
        sweep(n, o, done, busy, k).len() > 0,
    decreases n - k,
{
    if done[k] {
        lemma_sweep_progress(n, o, done, busy, k + 1, j);
    }
}

/// Marking a round whose first indices are distinct and not yet done sets
/// exactly their flags.
proof fn lemma_marked(done: Seq<bool>, round: Seq<(int, int)>)
    requires
        forall|t: int| 0 <= t < round.len() ==> 0 <= (#[trigger] round[t]).0 < done.len() && !done[round[t].0],
        forall|s: int, t: int| 0 <= s < t < round.len() ==> (#[trigger] round[s]).0 < (#[trigger] round[t]).0,
    ensures
        marked(done, round).len() == done.len(),
        forall|i: int| 0 <= i < done.len() ==> (#[trigger] marked(done, round)[i] <==> done[i] || leads(round, i)),
        pending(marked(done, round)) == pending(done) - round.len(),
    decreases round.len(),
{
    if round.len() > 0 {
        let front = round.drop_last();
        let k = round.last().0;
        lemma_marked(done, front);
        let before = marked(done, front);
        lemma_pending_update(before, k);
        assert forall|i: int| 0 <= i < done.len() implies (#[trigger] marked(done, round)[i] <==> done[i] || leads(
            round,
            i,
        )) by {
            if leads(round, i) && i != k {
                let t = choose|t: int| 0 <= t < round.len() && (#[trigger] round[t]).0 == i;
                assert(front[t] == round[t]);
            }
        }
    }
}

/// The single round of the offset `o` among `2 * o` siblings: every index
/// of the lower half with its mirror image in the upper half.
pub open spec fn mirror_round(o: int) -> Seq<(int, int)> {
    Seq::new(o as nat, |k: int| (k, k + o))
}

/// The rounds of rotation offset `o` among `n` siblings.
pub open spec fn offset_rounds(n: int, o: int) -> Seq<Seq<(int, int)>> {
    if 2 * o == n {
        seq![mirror_round(o)]
    } else {
        sweeps(n, o, all_clear(n))
    }
}

/// The rounds of the offsets `1, ..., m`, in this order.
pub open spec fn schedule_upto(n: int, m: int) -> Seq<Seq<(int, int)>>
    decreases m,
{
    if m <= 0 {
        Seq::empty()
    } else {
        schedule_upto(n, m - 1) + offset_rounds(n, m)
    }
}

/// The full schedule for `n` siblings: the rounds of the offsets
/// `1, ..., n / 2`.
pub open spec fn schedule(n: int) -> Seq<Seq<(int, int)>> {
    schedule_upto(n, n / 2)
}

/// Whether `(r, t)` is the place of a pair in `rounds`.
pub open spec fn in_rounds(rounds: Seq<Seq<(int, int)>>, r: int, t: int) -> bool {
    0 <= r < rounds.len() && 0 <= t < rounds[r].len()
}

/// Whether the pairs of `round` share no index with one another.
pub open spec fn conflict_free(round: Seq<(int, int)>) -> bool {
    forall|s: int, t: int|
        0 <= s < round.len() && 0 <= t < round.len() && s != t ==> !shares_index(
            #[trigger] round[s],
            #[trigger] round[t],
        )
}

/// Whether `pair` joins `i` and `j`, in either order.
pub open spec fn joins(pair: (int, int), i: int, j: int) -> bool {
    (pair.0 == i && pair.1 == j) || (pair.0 == j && pair.1 == i)
}

/// The distance from `a` forward to `b` on the circle of `n` indices.
pub open spec fn gap(n: int, a: int, b: int) -> int {
    if b >= a {
        b - a
    } else {
        b - a + n
    }
}

/// Whether the schedule writes the pair of `a` and `b` in this order: the
/// way forward from `a` to `b` is the shorter one, or `a` is the smaller of
/// two mirror images.
pub open spec fn oriented(n: int, a: int, b: int) -> bool {
    &&& 0 <= a < n
    &&& 0 <= b < n
    &&& a != b
    &&& (2 * gap(n, a, b) < n || (2 * gap(n, a, b) == n && a < b))
}

/// What the sweeps of one offset emit: for every index not yet done exactly
/// one pair, from that index to its partner, in rounds free of conflicts.
proof fn lemma_sweeps(n: int, o: int, done: Seq<bool>)
    requires
        0 < o,
        2 * o < n,
        done.len() == n,
    ensures
        forall|r: int, t: int|
            in_rounds(sweeps(n, o, done), r, t) ==> {
                let pair = #[trigger] sweeps(n, o, done)[r][t];
                0 <= pair.0 < n && !done[pair.0] && pair.1 == partner(n, o, pair.0)
            },
        forall|k: int|
            0 <= k < n && !#[trigger] done[k] ==> exists|r: int, t: int|
                in_rounds(sweeps(n, o, done), r, t) && (#[trigger] sweeps(n, o, done)[r][t]).0 == k,
        forall|r1: int, t1: int, r2: int, t2: int|
            in_rounds(sweeps(n, o, done), r1, t1) && in_rounds(sweeps(n, o, done), r2, t2) && (
            #[trigger] sweeps(n, o, done)[r1][t1]).0 == (#[trigger] sweeps(n, o, done)[r2][t2]).0 ==> r1
                == r2 && t1 == t2,
        forall|r: int|
            0 <= r < sweeps(n, o, done).len() ==> (#[trigger] sweeps(n, o, done)[r]).len() > 0
                && conflict_free(sweeps(n, o, done)[r]),
    decreases pending(done),
{
    let all = sweeps(n, o, done);
    if pending(done) == 0 {
        lemma_pending_none(done);
    } else {
        let round = sweep(n, o, done, all_clear(n), 0);
        let next = marked(done, round);
        let rest = sweeps(n, o, next);
        lemma_sweep(n, o, done, all_clear(n), 0);
        lemma_marked(done, round);
        lemma_sweeps(n, o, next);
        assert(all[0] == round);
        assert forall|k: int| 0 <= k < n && !#[trigger] done[k] implies exists|r: int, t: int|
            in_rounds(all, r, t) && (#[trigger] all[r][t]).0 == k by {
            if !leads(round, k) {
                assert(!next[k]);
                let (r, t) = choose|r: int, t: int|
                    in_rounds(rest, r, t) && (#[trigger] rest[r][t]).0 == k;
                assert(in_rounds(all, r + 1, t) && all[r + 1][t].0 == k);
            }
        }
        assert forall|r1: int, t1: int, r2: int, t2: int|
            in_rounds(all, r1, t1) && in_rounds(all, r2, t2) && (#[trigger] all[r1][t1]).0 == (
            #[trigger] all[r2][t2]).0 implies r1 == r2 && t1 == t2 by {
        }
    }
}

/// Whether `rounds` holds the pair `(a, b)`, in this order.
pub open spec fn occurs(rounds: Seq<Seq<(int, int)>>, a: int, b: int) -> bool {
    exists|r: int, t: int| in_rounds(rounds, r, t) && #[trigger] rounds[r][t] == (a, b)
}

/// Whether some pair of `rounds` joins `i` and `j`.
pub open spec fn pairs_up(rounds: Seq<Seq<(int, int)>>, i: int, j: int) -> bool {
    exists|r: int, t: int| in_rounds(rounds, r, t) && joins(#[trigger] rounds[r][t], i, j)
}

/// Whether `rounds` realizes the offsets `lo + 1, ..., hi` among `n`
/// siblings: its pairs are the oriented pairs with a gap in that range, each
/// at exactly one place, and no round is empty or holds an index twice.
pub open spec fn realizes(n: int, lo: int, hi: int, rounds: Seq<Seq<(int, int)>>) -> bool {
    &&& forall|r: int, t: int|
        in_rounds(rounds, r, t) ==> {
            let pair = #[trigger] rounds[r][t];
            oriented(n, pair.0, pair.1) && lo < gap(n, pair.0, pair.1) <= hi
        }
    &&& forall|a: int, b: int|
        #[trigger] oriented(n, a, b) && lo < gap(n, a, b) <= hi ==> occurs(rounds, a, b)
    &&& forall|r1: int, t1: int, r2: int, t2: int|
        in_rounds(rounds, r1, t1) && in_rounds(rounds, r2, t2) && #[trigger] rounds[r1][t1]
            == #[trigger] rounds[r2][t2] ==> r1 == r2 && t1 == t2
    &&& forall|r: int|
        0 <= r < rounds.len() ==> (#[trigger] rounds[r]).len() > 0 && conflict_free(rounds[r])
}

/// The rounds of one offset realize that offset.
proof fn lemma_offset_rounds(n: int, o: int)
    requires
        0 < o,
        2 * o <= n,
    ensures
        realizes(n, o - 1, o, offset_rounds(n, o)),
{
    let rounds = offset_rounds(n, o);
    if 2 * o == n {
        assert forall|a: int, b: int| #[trigger]
            oriented(n, a, b) && o - 1 < gap(n, a, b) <= o implies occurs(rounds, a, b) by {
            assert(in_rounds(rounds, 0, a) && rounds[0][a] == (a, b));
        }
    } else {
        let done = all_clear(n);
        lemma_sweeps(n, o, done);
        assert forall|a: int, b: int| #[trigger]
            oriented(n, a, b) && o - 1 < gap(n, a, b) <= o implies occurs(rounds, a, b) by {
            assert(!done[a]);
        }
    }
}

/// The rounds of the offsets `1, ..., m` realize these offsets.
proof fn lemma_schedule_upto(n: int, m: int)
    requires
        0 <= m,
        2 * m <= n,
    ensures
        realizes(n, 0, m, schedule_upto(n, m)),
    decreases m,
{
    if m > 0 {
        let before = schedule_upto(n, m - 1);
        let added = offset_rounds(n, m);
        let rounds = schedule_upto(n, m);
        lemma_schedule_upto(n, m - 1);
        lemma_offset_rounds(n, m);
        assert forall|a: int, b: int| #[trigger] oriented(n, a, b) && 0 < gap(n, a, b) <= m implies occurs(
            rounds,
            a,
            b,
        ) by {
            if gap(n, a, b) < m {
                let (r, t) = choose|r: int, t: int| in_rounds(before, r, t) && #[trigger] before[r][t] == (a, b);
                assert(in_rounds(rounds, r, t) && rounds[r][t] == (a, b));
            } else {
                let (r, t) = choose|r: int, t: int| in_rounds(added, r, t) && #[trigger] added[r][t] == (a, b);
                assert(in_rounds(rounds, r + before.len(), t) && rounds[r + before.len()][t] == (a, b));
            }
        }
        assert forall|r1: int, t1: int, r2: int, t2: int|
            in_rounds(rounds, r1, t1) && in_rounds(rounds, r2, t2) && #[trigger] rounds[r1][t1]
                == #[trigger] rounds[r2][t2] implies r1 == r2 && t1 == t2 by {
        }
    }
}

/// Every unordered pair of distinct siblings occurs in the schedule, at
/// exactly one place, and the schedule holds nothing else: each of its
/// pairs joins two distinct indices below `n`.
pub proof fn lemma_schedule_covers_each_pair_once(n: int)
    requires
        0 <= n,
    ensures
        forall|r: int, t: int|
            in_rounds(schedule(n), r, t) ==> {
                let pair = #[trigger] schedule(n)[r][t];
                0 <= pair.0 < n && 0 <= pair.1 < n && pair.0 != pair.1
            },
        forall|i: int, j: int| 0 <= i < n && 0 <= j < n && i != j ==> #[trigger] pairs_up(schedule(n), i, j),
        forall|r1: int, t1: int, r2: int, t2: int|
            in_rounds(schedule(n), r1, t1) && in_rounds(schedule(n), r2, t2) && joins(
                #[trigger] schedule(n)[r1][t1],
                (#[trigger] schedule(n)[r2][t2]).0,
                schedule(n)[r2][t2].1,
            ) ==> r1 == r2 && t1 == t2,
{
    let rounds = schedule(n);
    lemma_schedule_upto(n, n / 2);
    assert forall|i: int, j: int| 0 <= i < n && 0 <= j < n && i != j implies #[trigger] pairs_up(
        rounds,
        i,
        j,
    ) by {
        if !oriented(n, i, j) {
            assert(oriented(n, j, i));
        }
    }
    assert forall|r1: int, t1: int, r2: int, t2: int|
        in_rounds(rounds, r1, t1) && in_rounds(rounds, r2, t2) && joins(
            #[trigger] rounds[r1][t1],
            (#[trigger] rounds[r2][t2]).0,
            rounds[r2][t2].1,
        ) implies r1 == r2 && t1 == t2 by {
    }
}

/// Within a round of the schedule no index occurs twice, and no round is
/// empty.
pub proof fn lemma_schedule_rounds_are_conflict_free(n: int)
    requires
        0 <= n,
    ensures
        forall|r: int|
            0 <= r < schedule(n).len() ==> (#[trigger] schedule(n)[r]).len() > 0 && conflict_free(
                schedule(n)[r],
            ),
        forall|r: int, t: int|
            in_rounds(schedule(n), r, t) ==> (#[trigger] schedule(n)[r][t]).0 != schedule(n)[r][t].1,
{
    lemma_schedule_upto(n, n / 2);
}

/// A round as the scheduler hands it out, read as pairs of integers.
pub open spec fn pairs_view(round: Seq<(usize, usize)>) -> Seq<(int, int)> {
    Seq::new(round.len(), |t: int| (round[t].0 as int, round[t].1 as int))
}

/// The rounds as the scheduler hands them out, read as pairs of integers.
pub open spec fn rounds_view(rounds: Seq<Vec<(usize, usize)>>) -> Seq<Seq<(int, int)>> {
    Seq::new(rounds.len(), |r: int| pairs_view(rounds[r]@))
}

/// One greedy sweep of offset `o`: collects the pairs still to be done whose
/// indices are free, and flags their first indices in `done`.
fn sweep_round(n: usize, o: usize, done: &mut Vec<bool>) -> (round: Vec<(usize, usize)>)
    requires
        0 < o < n,
        old(done)@.len() == n,
    ensures
        pairs_view(round@) == sweep(n as int, o as int, old(done)@, all_clear(n as int), 0),
        final(done)@ == marked(old(done)@, pairs_view(round@)),
{
    let ghost before = done@;
    let mut busy: Vec<bool> = vec![false; n];
    let mut round: Vec<(usize, usize)> = Vec::new();
    let mut k: usize = 0;
    assert(busy@ =~= all_clear(n as int));
    while k < n
        invariant
            0 < o < n,
            k <= n,
            busy@.len() == n,
            done@.len() == n,
            before.len() == n,
            sweep(n as int, o as int, before, all_clear(n as int), 0) == pairs_view(round@) + sweep(
                n as int,
                o as int,
                before,
                busy@,
                k as int,
            ),
            done@ == marked(before, pairs_view(round@)),
            forall|j: int| k <= j < n ==> done@[j] == before[j],
        decreases n - k,
    {
        let p: usize = if k < n - o {
            k + o
        } else {
            k - (n - o)
        };
        if !done[k] && !busy[k] && !busy[p] {
            proof {
                let emitted = pairs_view(round@);
                assert(pairs_view(round@.push((k, p))).drop_last() =~= emitted);
            }
            round.push((k, p));
            busy.set(k, true);
            busy.set(p, true);
            done.set(k, true);
        }
        k += 1;
    }
    round
}

/// The round of the mirror offset `o` among `2 * o` siblings.
fn mirror_pairs(o: usize) -> (round: Vec<(usize, usize)>)
    requires
        2 * o <= usize::MAX,
    ensures
        pairs_view(round@) == mirror_round(o as int),
{
    let mut round: Vec<(usize, usize)> = Vec::new();
    let mut k: usize = 0;
    while k < o
        invariant
            k <= o,
            2 * o <= usize::MAX,
            round@.len() == k,
            forall|t: int| 0 <= t < k ==> #[trigger] round@[t] == (t as usize, (t + o) as usize),
        decreases o - k,
    {
        round.push((k, k + o));
        k += 1;
    }
    round
}

/// The schedule for `n` siblings: rounds of index pairs, to be worked off
/// round after round. The pairs of one round share no index, and over all
/// rounds every unordered pair of distinct indices below `n` occurs exactly
/// once.
pub fn pairing_schedule(n: usize) -> (rounds: Vec<Vec<(usize, usize)>>)
    ensures
        rounds_view(rounds@) == schedule(n as int),
        forall|r: int, t: int|
            0 <= r < rounds@.len() && 0 <= t < rounds@[r]@.len() ==> {
                let pair = #[trigger] rounds@[r]@[t];
                pair.0 < n && pair.1 < n && pair.0 != pair.1
            },
        forall|r: int|
            0 <= r < rounds@.len() ==> (#[trigger] rounds_view(rounds@)[r]).len() > 0 && dispatchable(
                rounds_view(rounds@)[r],
                n as int,
            ),
        forall|i: int, j: int| 0 <= i < n && 0 <= j < n && i != j ==> #[trigger] pairs_up(rounds_view(rounds@), i, j),
        forall|r1: int, t1: int, r2: int, t2: int|
            in_rounds(rounds_view(rounds@), r1, t1) && in_rounds(rounds_view(rounds@), r2, t2) && joins(
                #[trigger] rounds_view(rounds@)[r1][t1],
                (#[trigger] rounds_view(rounds@)[r2][t2]).0,
                rounds_view(rounds@)[r2][t2].1,
            ) ==> r1 == r2 && t1 == t2,
{
    let mut rounds: Vec<Vec<(usize, usize)>> = Vec::new();
    let half: usize = n / 2;
    let mut o: usize = 1;
    while o <= half
        invariant
            1 <= o <= half + 1,
            half == n / 2,
            rounds_view(rounds@) == schedule_upto(n as int, o - 1),
        decreases half + 1 - o,
    {
        let ghost earlier = rounds_view(rounds@);
        if o == n - o {
            let round = mirror_pairs(o);
            rounds.push(round);
        } else {
            let mut done: Vec<bool> = vec![false; n];
            let mut left: usize = n;
            proof {
                assert(done@ =~= all_clear(n as int));
                lemma_pending_all_clear(n as int);
            }
            while left > 0
                invariant
                    0 < o,
                    2 * o < n,
                    done@.len() == n,
                    left == pending(done@),
                    rounds_view(rounds@) + sweeps(n as int, o as int, done@) == earlier + sweeps(
                        n as int,
                        o as int,
                        all_clear(n as int),
                    ),
                decreases left,
            {
                let ghost before = done@;
                let round = sweep_round(n, o, &mut done);
                proof {
                    lemma_sweep(n as int, o as int, before, all_clear(n as int), 0);
                    lemma_marked(before, pairs_view(round@));
                }
                left = left - round.len();
                rounds.push(round);
            }
        }
        o += 1;
    }
    proof {
        lemma_schedule_covers_each_pair_once(n as int);
        lemma_schedule_rounds_are_conflict_free(n as int);
        assert forall|r: int, t: int| 0 <= r < rounds@.len() && 0 <= t < rounds@[r]@.len() implies {
            let pair = #[trigger] rounds@[r]@[t];
            pair.0 < n && pair.1 < n && pair.0 != pair.1
        } by {
            assert(schedule(n as int)[r][t] == (rounds@[r]@[t].0 as int, rounds@[r]@[t].1 as int));
        }
    }
    rounds
}

/// Whether `round` may be dispatched among `n` siblings: every pair joins
/// two distinct indices below `n`, and no index occurs in two pairs.
pub open spec fn dispatchable(round: Seq<(int, int)>, n: int) -> bool {
    &&& forall|t: int|
        0 <= t < round.len() ==> 0 <= (#[trigger] round[t]).0 < n && 0 <= round[t].1 < n && round[t].0
            != round[t].1
    &&& conflict_free(round)
}

/// Whether one of the first `k` pairs of `round` names the index `i`.
pub open spec fn named_upto(round: Seq<(int, int)>, k: int, i: int) -> bool {
    exists|t: int| 0 <= t < k && t < round.len() && ((#[trigger] round[t]).0 == i || round[t].1 == i)
}

/// Every round of the schedule may be dispatched.
pub proof fn lemma_schedule_is_dispatchable(n: int)
    requires
        0 <= n,
    ensures
        forall|r: int| 0 <= r < schedule(n).len() ==> dispatchable(#[trigger] schedule(n)[r], n),
{
    lemma_schedule_covers_each_pair_once(n);
    lemma_schedule_rounds_are_conflict_free(n);
}

/// Tells whether `round` may be dispatched among `n` siblings, each pair to
/// a task of its own. Fails with `SchedulingInvariantViolation` where a
/// pair names an index that is no sibling or one index twice, or where two
/// pairs name the same index.
pub fn check_round(round: &Vec<(usize, usize)>, n: usize) -> (result: Result<(), EngineError>)
    ensures
        result == if dispatchable(pairs_view(round@), n as int) {
            Ok::<(), EngineError>(())
        } else {
            Err::<(), EngineError>(EngineError::SchedulingInvariantViolation)
        },
{
    let ghost pairs = pairs_view(round@);
    let mut named: Vec<bool> = vec![false; n];
    let mut k: usize = 0;
    while k < round.len()
        invariant
            k <= round@.len(),
            named@.len() == n,
            pairs == pairs_view(round@),
            forall|i: int| 0 <= i < n ==> (#[trigger] named@[i] <==> named_upto(pairs, k as int, i)),
            forall|t: int|
                0 <= t < k ==> 0 <= (#[trigger] pairs[t]).0 < n && 0 <= pairs[t].1 < n && pairs[t].0 != pairs[t].1,
            forall|s: int, t: int|
                0 <= s < k && 0 <= t < k && s != t ==> !shares_index(#[trigger] pairs[s], #[trigger] pairs[t]),
        decreases round@.len() - k,
    {
        let pair = round[k];
        assert(pairs[k as int] == (pair.0 as int, pair.1 as int));
        if pair.0 >= n || pair.1 >= n || pair.0 == pair.1 {
            return Err(EngineError::SchedulingInvariantViolation);
        }
        if named[pair.0] || named[pair.1] {
            return Err(EngineError::SchedulingInvariantViolation);
        }
        named.set(pair.0, true);
        named.set(pair.1, true);
        k += 1;
    }
    Ok(())
}

/// Whether all of the first `k` of `joined` are set.
pub open spec fn all_back_upto(joined: Seq<bool>, k: int) -> bool {
    forall|i: int| 0 <= i < k && i < joined.len() ==> #[trigger] joined[i]
}

/// Settles a fan-out whose tasks have all been joined: `joined` tells of
/// each task whether it came back. Fails with `TaskFailure` where one did
/// not.
pub fn settle_round(joined: &Vec<bool>) -> (result: Result<(), EngineError>)
    ensures
        result == if all_back_upto(joined@, joined@.len() as int) {
            Ok::<(), EngineError>(())
        } else {
            Err::<(), EngineError>(EngineError::TaskFailure)
        },
{
    let mut i: usize = 0;
    while i < joined.len()
        invariant
            i <= joined@.len(),
            all_back_upto(joined@, i as int),
        decreases joined@.len() - i,
    {
        if !joined[i] {
            return Err(EngineError::TaskFailure);
        }
        i += 1;
    }
    Ok(())
}

} // verus!
