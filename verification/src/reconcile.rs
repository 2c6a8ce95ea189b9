//! Keyed list reconciliation.
//!
//! `reconcile` compares two snapshots of a keyed ordered collection — the
//! previous render and the next one — and produces the ordered sequence of
//! `Op` edits that turns the first into the second: inserts for new keys,
//! removals for vanished keys, updates for kept keys whose item changed, and
//! moves for kept keys whose relative order changed. The longest strictly
//! increasing contiguous run of previous indices (taken over the kept keys in
//! next order) is treated as unmoved, so only the keys outside that run are
//! moved; this bounds the number of `Move` operations without solving a
//! minimum-edit problem. Duplicate keys in either snapshot are a caller
//! contract violation and are reported, never resolved by guessing.

use vstd::prelude::*;

use crate::error::ReactiveError;

verus! {

/// One edit step produced by the keyed reconciler. Entries are `(key, item)`
/// pairs; indices refer to positions in the next snapshot.
#[derive(Clone, Copy, Debug, PartialEq, Eq, Structural)]
pub enum Op {
    /// The key is new: its item enters at this position of the next snapshot.
    Insert { index: usize, key: u64, item: u64 },
    /// The key left the collection.
    Remove { key: u64 },
    /// The key is kept but stands outside the unmoved run.
    Move { key: u64, new_index: usize },
    /// The key is kept but its item changed.
    Update { key: u64, item: u64 },
}

/// No key occurs twice in the snapshot.
pub open spec fn keys_distinct(s: Seq<(u64, u64)>) -> bool {
    forall|i: int, j: int| 0 <= i < j < s.len() ==> s[i].0 != s[j].0
}

/// Some entry of `s` carries the key `k`.
pub open spec fn has_key(s: Seq<(u64, u64)>, k: u64) -> bool {
    exists|i: int| 0 <= i < s.len() && s[i].0 == k
}

/// The position of the entry with key `k`; meaningful when `has_key(s, k)`
/// holds and the keys of `s` are distinct.
pub open spec fn index_of_key(s: Seq<(u64, u64)>, k: u64) -> int {
    choose|i: int| 0 <= i < s.len() && s[i].0 == k
}

/// With distinct keys, any position holding key `k` is the position of `k`.
pub proof fn lemma_index_of_key_unique(s: Seq<(u64, u64)>, k: u64, j: int)
    requires
        keys_distinct(s),
        0 <= j < s.len(),
        s[j].0 == k,
    ensures
        index_of_key(s, k) == j,
        has_key(s, k),
{
    assert(has_key(s, k));
    let i = index_of_key(s, k);
    assert(0 <= i < s.len() && s[i].0 == k);
    if i < j {
        assert(s[i].0 != s[j].0);
    } else if j < i {
        assert(s[j].0 != s[i].0);
    }
}

/// The slice `xs[a..b]` is strictly increasing.
pub open spec fn inc_run(xs: Seq<usize>, a: int, b: int) -> bool {
    forall|i: int| a <= i && i + 1 < b ==> xs[i] < #[trigger] xs[i + 1]
}

/// Reports whether the snapshot holds some key twice.
fn has_duplicate_key(s: &Vec<(u64, u64)>) -> (r: bool)
    ensures
        r <==> !keys_distinct(s@),
{
    let n = s.len();
    let mut i: usize = 0;
    while i < n
        invariant
            i <= n,
            n == s@.len(),
            forall|a: int, b: int| 0 <= a < b < n && a < i ==> s@[a].0 != s@[b].0,
        decreases n - i,
    {
        let mut j: usize = i + 1;
        while j < n
            invariant
                i < j <= n,
                i < n,
                n == s@.len(),
                forall|b: int| i < b < j ==> s@[i as int].0 != s@[b].0,
            decreases n - j,
        {
            if s[i].0 == s[j].0 {
                assert(!keys_distinct(s@));
                return true;
            }
            j = j + 1;
        }
        i = i + 1;
    }
    false
}

/// Looks up the position of key `k` in the snapshot.
fn find_key(s: &Vec<(u64, u64)>, k: u64) -> (r: Option<usize>)
    ensures
        r is Some <==> has_key(s@, k),
        r matches Some(i) ==> i < s@.len() && s@[i as int].0 == k,
        r matches Some(i) ==> (keys_distinct(s@) ==> i as int == index_of_key(s@, k)),
{
    let n = s.len();
    let mut i: usize = 0;
    while i < n
        invariant
            i <= n,
            n == s@.len(),
            forall|a: int| 0 <= a < i ==> s@[a].0 != k,
        decreases n - i,
    {
        if s[i].0 == k {
            proof {
                if keys_distinct(s@) {
                    lemma_index_of_key_unique(s@, k, i as int);
                }
            }
            return Some(i);
        }
        i = i + 1;
    }
    None
}

/// Finds the longest strictly increasing contiguous run of `xs`, returned as
/// `(start, length)`. Among runs of equal length the earliest wins, though
/// callers should rely only on the stated maximality.
fn longest_increasing_run(xs: &Vec<usize>) -> (r: (usize, usize))
    ensures
        r.0 + r.1 <= xs@.len(),
        xs@.len() == 0 ==> r.0 == 0 && r.1 == 0,
        xs@.len() > 0 ==> r.1 >= 1,
        inc_run(xs@, r.0 as int, r.0 + r.1),
        forall|a: int, b: int|
            0 <= a <= b <= xs@.len() && inc_run(xs@, a, b) ==> b - a <= r.1,
{
    let n = xs.len();
    if n == 0 {
        return (0, 0);
    }
    let mut best_s: usize = 0;
    let mut best_l: usize = 1;
    let mut cur_s: usize = 0;
    let mut i: usize = 1;
    while i < n
        invariant
            1 <= i <= n,
            n == xs@.len(),
            cur_s < i,
            inc_run(xs@, cur_s as int, i as int),
            cur_s > 0 ==> xs@[cur_s - 1] >= xs@[cur_s as int],
            best_s + best_l <= i,
            1 <= best_l,
            best_l >= i - cur_s,
            inc_run(xs@, best_s as int, best_s + best_l),
            forall|a: int, b: int|
                0 <= a <= b <= i && inc_run(xs@, a, b)
                    ==> b - a <= best_l || (b == i && cur_s <= a),
        decreases n - i,
    {
        if xs[i - 1] < xs[i] {
            assert(inc_run(xs@, cur_s as int, i + 1));
        } else {
            cur_s = i;
        }
        assert forall|a: int, b: int|
            0 <= a <= b <= i + 1 && inc_run(xs@, a, b)
                implies b - a <= best_l || (b == i + 1 && cur_s <= a) by {
            if b <= i {
                if b - a > best_l {
                    assert(b == i && cur_s <= a);
                    assert(b - a <= i - cur_s);
                }
            } else if a < i + 1 && a < cur_s {
                // A run reaching position i from before cur_s would cross the
                // break just left of cur_s.
                assert(cur_s > 0);
                let cm1 = cur_s - 1 as int;
                assert(a <= cm1 && cm1 + 1 < b);
                assert(xs@[cm1] < xs@[cm1 + 1]);
                assert(false);
            }
        }
        let cur_len = i + 1 - cur_s;
        if cur_len > best_l {
            best_s = cur_s;
            best_l = cur_len;
        }
        i = i + 1;
    }
    assert forall|a: int, b: int|
        0 <= a <= b <= xs@.len() && inc_run(xs@, a, b) implies b - a <= best_l by {
        if b - a > best_l {
            assert(b == n && cur_s <= a);
            assert(b - a <= n - cur_s);
        }
    }
    (best_s, best_l)
}

/// The positions of `next[..j]` whose key also stands in `prev`, in order.
pub open spec fn kept_upto(prev: Seq<(u64, u64)>, next: Seq<(u64, u64)>, j: int) -> Seq<int>
    decreases j,
{
    if j <= 0 {
        Seq::empty()
    } else if has_key(prev, next[j - 1].0) {
        kept_upto(prev, next, j - 1).push(j - 1)
    } else {
        kept_upto(prev, next, j - 1)
    }
}

/// The rank of position `j` of `next` among the kept keys: how many kept
/// positions stand strictly before it.
pub open spec fn kept_rank(prev: Seq<(u64, u64)>, next: Seq<(u64, u64)>, j: int) -> int {
    kept_upto(prev, next, j).len() as int
}

/// The previous index of the kept key of rank `i`.
pub open spec fn kept_prev_index(prev: Seq<(u64, u64)>, next: Seq<(u64, u64)>, i: int) -> int {
    index_of_key(prev, next[kept_upto(prev, next, next.len() as int)[i]].0)
}

/// Among the kept keys of `next`, the previous indices of ranks `[a, b)` are
/// strictly increasing.
pub open spec fn prev_inc(prev: Seq<(u64, u64)>, next: Seq<(u64, u64)>, a: int, b: int) -> bool {
    forall|i: int|
        a <= i && i + 1 < b ==> kept_prev_index(prev, next, i) < #[trigger] kept_prev_index(
            prev,
            next,
            i + 1,
        )
}

/// `[s, s+l)` is a window of kept ranks that the reconciler may treat as
/// unmoved: its previous indices increase, and no longer window of strictly
/// increasing previous indices exists.
pub open spec fn unmoved_run_ok(
    prev: Seq<(u64, u64)>,
    next: Seq<(u64, u64)>,
    s: int,
    l: int,
) -> bool {
    let kn = kept_rank(prev, next, next.len() as int);
    &&& 0 <= s
    &&& 0 <= l
    &&& s + l <= kn
    &&& (kn > 0 ==> l >= 1)
    &&& (kn == 0 ==> s == 0 && l == 0)
    &&& prev_inc(prev, next, s, s + l)
    &&& (forall|a: int, b: int|
        0 <= a <= b <= kn && #[trigger] prev_inc(prev, next, a, b) ==> b - a <= l)
}

/// The edits emitted for position `j` of `next`: an `Insert` for a new key;
/// for a kept key, an `Update` when the item changed and a `Move` when its
/// kept rank falls outside the unmoved window `[s, s+l)`.
pub open spec fn op_at(
    prev: Seq<(u64, u64)>,
    next: Seq<(u64, u64)>,
    j: int,
    s: int,
    l: int,
) -> Seq<Op> {
    let k = next[j].0;
    if !has_key(prev, k) {
        seq![Op::Insert { index: j as usize, key: k, item: next[j].1 }]
    } else {
        let upd: Seq<Op> = if prev[index_of_key(prev, k)].1 != next[j].1 {
            seq![Op::Update { key: k, item: next[j].1 }]
        } else {
            Seq::empty()
        };
        let mov: Seq<Op> = if s <= kept_rank(prev, next, j) < s + l {
            Seq::empty()
        } else {
            seq![Op::Move { key: k, new_index: j as usize }]
        };
        upd + mov
    }
}

/// The edits emitted while walking `next[..j]` in order.
pub open spec fn walk_ops(
    prev: Seq<(u64, u64)>,
    next: Seq<(u64, u64)>,
    j: int,
    s: int,
    l: int,
) -> Seq<Op>
    decreases j,
{
    if j <= 0 {
        Seq::empty()
    } else {
        walk_ops(prev, next, j - 1, s, l) + op_at(prev, next, j - 1, s, l)
    }
}

/// The removals emitted for the keys of `prev[..i]` that left the collection.
pub open spec fn remove_ops_upto(
    prev: Seq<(u64, u64)>,
    next: Seq<(u64, u64)>,
    i: int,
) -> Seq<Op>
    decreases i,
{
    if i <= 0 {
        Seq::empty()
    } else {
        remove_ops_upto(prev, next, i - 1) + (if has_key(next, prev[i - 1].0) {
            Seq::empty()
        } else {
            seq![Op::Remove { key: prev[i - 1].0 }]
        })
    }
}

/// Every edit of one reconciliation pass: the walk of `next` in order, then
/// the removals in `prev` order, given the unmoved window `[s, s+l)`.
pub open spec fn reconcile_ops(
    prev: Seq<(u64, u64)>,
    next: Seq<(u64, u64)>,
    s: int,
    l: int,
) -> Seq<Op> {
    walk_ops(prev, next, next.len() as int, s, l) + remove_ops_upto(
        prev,
        next,
        prev.len() as int,
    )
}

/// Computes the ordered edit sequence that turns `prev` into `next`.
///
/// Duplicate keys in either snapshot are reported as `DuplicateKey` and no
/// partial result is produced. On success the result is exactly
/// `reconcile_ops` for the unmoved window the reconciler chose, and that
/// window always satisfies `unmoved_run_ok`: it is a longest window of kept
/// keys whose previous indices strictly increase.
pub fn reconcile(prev: &Vec<(u64, u64)>, next: &Vec<(u64, u64)>) -> (r: Result<
    Vec<Op>,
    ReactiveError,
>)
    ensures
        r is Err <==> !(keys_distinct(prev@) && keys_distinct(next@)),
        r is Err ==> r == Err::<Vec<Op>, ReactiveError>(ReactiveError::DuplicateKey),
        r matches Ok(ops) ==> exists|s: int, l: int|
            #[trigger] unmoved_run_ok(prev@, next@, s, l) && ops@ == reconcile_ops(
                prev@,
                next@,
                s,
                l,
            ),
{
    if has_duplicate_key(prev) || has_duplicate_key(next) {
        return Err(ReactiveError::DuplicateKey);
    }
    let n = next.len();

    // Previous indices of the kept keys, in next order.
    let mut prev_idx: Vec<usize> = Vec::new();
    let mut j: usize = 0;
    while j < n
        invariant
            j <= n,
            n == next@.len(),
            keys_distinct(prev@),
            keys_distinct(next@),
            prev_idx@.len() <= j,
            prev_idx@.len() == kept_rank(prev@, next@, j as int),
            forall|i: int|
                0 <= i < prev_idx@.len() ==> #[trigger] prev_idx@[i] as int == index_of_key(
                    prev@,
                    next@[kept_upto(prev@, next@, j as int)[i]].0,
                ),
        decreases n - j,
    {
        match find_key(prev, next[j].0) {
            Some(pi) => {
                prev_idx.push(pi);
            },
            None => {},
        }
        j = j + 1;
    }
    assert forall|i: int| 0 <= i < prev_idx@.len() implies #[trigger] prev_idx@[i] as int
        == kept_prev_index(prev@, next@, i) by {}

    let run = longest_increasing_run(&prev_idx);
    let s = run.0;
    let l = run.1;
    proof {
        let kn = kept_rank(prev@, next@, next@.len() as int);
        assert(kn == prev_idx@.len());
        assert(prev_inc(prev@, next@, s as int, s + l)) by {
            assert forall|i: int|
                s <= i && i + 1 < s + l implies kept_prev_index(prev@, next@, i)
                < #[trigger] kept_prev_index(prev@, next@, i + 1) by {
                assert(prev_idx@[i] < prev_idx@[i + 1]);
            }
        }
        assert forall|a: int, b: int|
            0 <= a <= b <= kn && #[trigger] prev_inc(prev@, next@, a, b) implies b - a
            <= l by {
            assert(inc_run(prev_idx@, a, b)) by {
                assert forall|i: int| a <= i && i + 1 < b implies prev_idx@[i]
                    < #[trigger] prev_idx@[i + 1] by {
                    assert(kept_prev_index(prev@, next@, i) < kept_prev_index(
                        prev@,
                        next@,
                        i + 1,
                    ));
                }
            }
        }
        assert(unmoved_run_ok(prev@, next@, s as int, l as int));
    }

    // Walk `next` in order, emitting inserts, updates and moves.
    let mut ops: Vec<Op> = Vec::new();
    let mut rr: usize = 0;
    let mut j: usize = 0;
    while j < n
        invariant
            j <= n,
            rr <= j,
            s + l <= n,
            n == next@.len(),
            keys_distinct(prev@),
            keys_distinct(next@),
            rr as int == kept_rank(prev@, next@, j as int),
            ops@ == walk_ops(prev@, next@, j as int, s as int, l as int),
        decreases n - j,
    {
        let k = next[j].0;
        let it = next[j].1;
        let ghost ops_pre = ops@;
        match find_key(prev, k) {
            None => {
                ops.push(Op::Insert { index: j, key: k, item: it });
                assert(ops@ =~= ops_pre + op_at(prev@, next@, j as int, s as int, l as int));
            },
            Some(pi) => {
                if prev[pi].1 != it {
                    ops.push(Op::Update { key: k, item: it });
                }
                if !(s <= rr && rr < s + l) {
                    ops.push(Op::Move { key: k, new_index: j });
                }
                assert(ops@ =~= ops_pre + op_at(prev@, next@, j as int, s as int, l as int));
                rr = rr + 1;
            },
        }
        assert(ops@ =~= walk_ops(prev@, next@, j + 1 as int, s as int, l as int));
        j = j + 1;
    }

    // Emit removals for the keys of `prev` that left.
    let np = prev.len();
    let mut i: usize = 0;
    while i < np
        invariant
            i <= np,
            np == prev@.len(),
            n == next@.len(),
            keys_distinct(prev@),
            keys_distinct(next@),
            ops@ == walk_ops(prev@, next@, n as int, s as int, l as int) + remove_ops_upto(
                prev@,
                next@,
                i as int,
            ),
        decreases np - i,
    {
        let ghost ops_pre = ops@;
        match find_key(next, prev[i].0) {
            None => {
                ops.push(Op::Remove { key: prev[i].0 });
            },
            Some(_) => {},
        }
        assert(ops@ =~= walk_ops(prev@, next@, n as int, s as int, l as int) + remove_ops_upto(
            prev@,
            next@,
            i + 1 as int,
        ));
        i = i + 1;
    }
    proof {
        assert(ops@ =~= reconcile_ops(prev@, next@, s as int, l as int));
        assert(unmoved_run_ok(prev@, next@, s as int, l as int) && ops@ == reconcile_ops(
            prev@,
            next@,
            s as int,
            l as int,
        ));
    }
    Ok(ops)
}

/// The kept positions of a snapshot reconciled against itself are all of its
/// positions, in order.
proof fn lemma_kept_self(s: Seq<(u64, u64)>, j: int)
    requires
        0 <= j <= s.len(),
    ensures
        kept_upto(s, s, j).len() == j,
        forall|i: int| 0 <= i < j ==> #[trigger] kept_upto(s, s, j)[i] == i,
    decreases j,
{
    if j > 0 {
        lemma_kept_self(s, j - 1);
        assert(has_key(s, s[j - 1].0));
    }
}

/// The walk of a snapshot against itself emits nothing, provided the unmoved
/// window covers every kept rank.
proof fn lemma_walk_self_empty(s: Seq<(u64, u64)>, j: int)
    requires
        keys_distinct(s),
        0 <= j <= s.len(),
    ensures
        walk_ops(s, s, j, 0, s.len() as int) =~= Seq::<Op>::empty(),
    decreases j,
{
    if j > 0 {
        lemma_walk_self_empty(s, j - 1);
        lemma_kept_self(s, s.len() as int);
        lemma_kept_self(s, j - 1);
        lemma_index_of_key_unique(s, s[j - 1].0, j - 1);
        assert(op_at(s, s, j - 1, 0, s.len() as int) =~= Seq::<Op>::empty());
    }
}

/// No key of a snapshot reconciled against itself is removed.
proof fn lemma_removes_self_empty(s: Seq<(u64, u64)>, i: int)
    requires
        0 <= i <= s.len(),
    ensures
        remove_ops_upto(s, s, i) =~= Seq::<Op>::empty(),
    decreases i,
{
    if i > 0 {
        lemma_removes_self_empty(s, i - 1);
        assert(has_key(s, s[i - 1].0));
    }
}

/// Law: reconciling a snapshot against itself — same keys, same items, same
/// order — yields an empty edit sequence, for every unmoved window the
/// reconciler may choose.
pub proof fn lemma_reconcile_self_empty(s: Seq<(u64, u64)>, s0: int, l0: int)
    requires
        keys_distinct(s),
        unmoved_run_ok(s, s, s0, l0),
    ensures
        reconcile_ops(s, s, s0, l0) == Seq::<Op>::empty(),
{
    let n = s.len() as int;
    lemma_kept_self(s, n);
    assert(kept_rank(s, s, n) == n);
    // The previous indices of the kept keys are 0, 1, ..., n-1, so the whole
    // range is strictly increasing and maximality forces the window to be all
    // of it.
    assert forall|i: int| 0 <= i < n implies #[trigger] kept_prev_index(s, s, i) == i by {
        lemma_index_of_key_unique(s, s[i].0, i);
    }
    assert(prev_inc(s, s, 0, n));
    if n > 0 {
        assert(n - 0 <= l0);
        assert(s0 == 0 && l0 == n);
    } else {
        assert(s0 == 0 && l0 == 0);
    }
    lemma_walk_self_empty(s, n);
    lemma_removes_self_empty(s, n);
    assert(reconcile_ops(s, s, s0, l0) =~= Seq::<Op>::empty());
}

} // verus!
