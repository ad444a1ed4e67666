//! The banker's safety check over per-thread `need` / `allocation` matrices.
use vstd::prelude::*;
use vstd::set_lib::*;

verus! {

/// The rows of a matrix, each by its contents.
pub open spec fn rows(m: Seq<Vec<usize>>) -> Seq<Seq<usize>> {
    m.map_values(|row: Vec<usize>| row@)
}

/// The entry of a (possibly ragged) matrix; entries outside it count as zero.
pub open spec fn entry(m: Seq<Seq<usize>>, t: int, r: int) -> int {
    if 0 <= t < m.len() && 0 <= r < m[t].len() {
        m[t][r] as int
    } else {
        0
    }
}

/// How much of resource `r` the threads of `order` hand back once they all finish.
pub open spec fn released(alloc: Seq<Seq<usize>>, order: Seq<int>, r: int) -> int
    decreases order.len(),
{
    if order.len() == 0 {
        0
    } else {
        released(alloc, order.drop_last(), r) + entry(alloc, order.last(), r)
    }
}

/// The thread at position `k` of `order` can obtain everything it still needs
/// once the threads before it have finished and released what they hold.
pub open spec fn can_finish_after(
    available: Seq<usize>,
    need: Seq<Seq<usize>>,
    alloc: Seq<Seq<usize>>,
    order: Seq<int>,
    k: int,
) -> bool {
    forall|r: int|
        0 <= r < available.len() ==> #[trigger] entry(need, order[k], r) <= available[r]
            + released(alloc, order.take(k), r)
}

/// `order` runs every one of the `n` threads exactly once, each to completion.
pub open spec fn is_safe_sequence(
    available: Seq<usize>,
    need: Seq<Seq<usize>>,
    alloc: Seq<Seq<usize>>,
    n: nat,
    order: Seq<int>,
) -> bool {
    &&& order.len() == n
    &&& order.no_duplicates()
    &&& forall|k: int| 0 <= k < n ==> 0 <= #[trigger] order[k] < n
    &&& forall|k: int| 0 <= k < n ==> #[trigger] can_finish_after(available, need, alloc, order, k)
}

/// The threads the matrices speak of: every row of either of them.
pub open spec fn thread_count(need: Seq<Seq<usize>>, alloc: Seq<Seq<usize>>) -> nat {
    if need.len() >= alloc.len() {
        need.len()
    } else {
        alloc.len()
    }
}

/// The threads the safety check ranges over are those of the longer matrix:
/// every thread with a row of need, and every thread with a row of
/// allocation, whose held units it releases when it finishes.
pub proof fn lemma_thread_count(need: Seq<Seq<usize>>, alloc: Seq<Seq<usize>>)
    ensures
        need.len() <= thread_count(need, alloc),
        alloc.len() <= thread_count(need, alloc),
        thread_count(need, alloc) == need.len() || thread_count(need, alloc) == alloc.len(),
{
}

/// Some order lets every thread run to completion.
pub open spec fn is_safe_state(
    available: Seq<usize>,
    need: Seq<Seq<usize>>,
    alloc: Seq<Seq<usize>>,
) -> bool {
    exists|order: Seq<int>|
        is_safe_sequence(available, need, alloc, thread_count(need, alloc), order)
}

/// Thread `t` cannot get all it needs out of `work`.
spec fn blocked(need: Seq<Seq<usize>>, t: int, work: Seq<u128>) -> bool {
    exists|r: int| 0 <= r < work.len() && entry(need, t, r) > work[r] as int
}

/// What the search keeps true: `order` lists the finished threads in the order
/// they finished, each could finish when it did, and `work` is what is free.
spec fn search_inv(
    available: Seq<usize>,
    need: Seq<Seq<usize>>,
    alloc: Seq<Seq<usize>>,
    n: int,
    work: Seq<u128>,
    finish: Seq<bool>,
    order: Seq<int>,
) -> bool {
    &&& work.len() == available.len()
    &&& finish.len() == n
    &&& order.no_duplicates()
    &&& forall|k: int| 0 <= k < order.len() ==> 0 <= #[trigger] order[k] < n
    &&& forall|t: int|
        #![trigger finish[t]]
        #![trigger order.contains(t)]
        0 <= t < n ==> (finish[t] <==> order.contains(t))
    &&& forall|r: int|
        0 <= r < work.len() ==> #[trigger] work[r] == available[r] + released(alloc, order, r)
    &&& forall|k: int|
        0 <= k < order.len() ==> #[trigger] can_finish_after(available, need, alloc, order, k)
}

/// What threads release is never negative and at most the most a `usize`
/// can hold per thread.
proof fn lemma_released_bounds(alloc: Seq<Seq<usize>>, order: Seq<int>, r: int)
    ensures
        0 <= released(alloc, order, r) <= order.len() * 0xffff_ffff_ffff_ffff,
    decreases order.len(),
{
    if order.len() > 0 {
        lemma_released_bounds(alloc, order.drop_last(), r);
        assert(entry(alloc, order.last(), r) <= 0xffff_ffff_ffff_ffff);
    }
}

/// Taking one thread out of a sequence takes exactly its share out of what
/// the sequence releases.
proof fn lemma_released_remove(alloc: Seq<Seq<usize>>, s: Seq<int>, i: int, r: int)
    requires
        0 <= i < s.len(),
    ensures
        released(alloc, s, r) == released(alloc, s.remove(i), r) + entry(alloc, s[i], r),
    decreases s.len(),
{
    if i == s.len() - 1 {
        assert(s.remove(i) =~= s.drop_last());
    } else {
        lemma_released_remove(alloc, s.drop_last(), i, r);
        assert(s.remove(i).drop_last() =~= s.drop_last().remove(i));
        assert(s.remove(i).last() == s.last());
    }
}

/// What a set of distinct threads releases is at most what a larger one does.
proof fn lemma_released_subset(alloc: Seq<Seq<usize>>, s1: Seq<int>, s2: Seq<int>, r: int)
    requires
        s1.no_duplicates(),
        s2.no_duplicates(),
        forall|i: int| 0 <= i < s1.len() ==> s2.contains(#[trigger] s1[i]),
    ensures
        released(alloc, s1, r) <= released(alloc, s2, r),
    decreases s1.len(),
{
    if s1.len() == 0 {
        lemma_released_bounds(alloc, s2, r);
    } else {
        let x = s1.last();
        assert(s2.contains(s1[s1.len() - 1]));
        let i = choose|i: int| 0 <= i < s2.len() && s2[i] == x;
        let s2r = s2.remove(i);
        let s1d = s1.drop_last();
        assert forall|j: int| 0 <= j < s1d.len() implies s2r.contains(#[trigger] s1d[j]) by {
            assert(s1d[j] == s1[j]);
            assert(s2.contains(s1[j]));
            let l = choose|l: int| 0 <= l < s2.len() && s2[l] == s1[j];
            assert(l != i);
            if l < i {
                assert(s2r[l] == s2[l]);
            } else {
                assert(s2r[l - 1] == s2[l]);
            }
        }
        assert(s2r.no_duplicates()) by {
            assert forall|a: int, b: int| 0 <= a < s2r.len() && 0 <= b < s2r.len() && a != b
                implies s2r[a] != s2r[b] by {
                let a2 = if a < i { a } else { a + 1 };
                let b2 = if b < i { b } else { b + 1 };
                assert(s2r[a] == s2[a2]);
                assert(s2r[b] == s2[b2]);
            }
        }
        lemma_released_subset(alloc, s1d, s2r, r);
        lemma_released_remove(alloc, s2, i, r);
    }
}

/// A duplicate-free sequence of numbers below `n` has at most `n` elements,
/// and holds each of them when it has exactly `n`.
proof fn lemma_distinct_below(s: Seq<int>, n: int)
    requires
        0 <= n,
        s.no_duplicates(),
        forall|k: int| 0 <= k < s.len() ==> 0 <= #[trigger] s[k] < n,
    ensures
        s.len() <= n,
        s.len() == n ==> forall|t: int| 0 <= t < n ==> #[trigger] s.contains(t),
{
    s.unique_seq_to_set();
    lemma_int_range(0, n);
    assert(s.to_set().subset_of(set_int_range(0, n))) by {
        assert forall|t: int| s.to_set().contains(t) implies set_int_range(0, n).contains(t) by {
            assert(s.contains(t));
            let k = choose|k: int| 0 <= k < s.len() && s[k] == t;
            assert(0 <= s[k] < n);
        }
    }
    lemma_len_subset(s.to_set(), set_int_range(0, n));
    if s.len() == n {
        lemma_subset_equality(s.to_set(), set_int_range(0, n));
        assert forall|t: int| 0 <= t < n implies #[trigger] s.contains(t) by {
            assert(set_int_range(0, n).contains(t));
            assert(s.to_set().contains(t));
        }
    }
}

/// When every thread of a safe sequence before position `k` has finished,
/// the search has finished the thread at `k` as well.
proof fn lemma_prefix_finished(
    available: Seq<usize>,
    need: Seq<Seq<usize>>,
    alloc: Seq<Seq<usize>>,
    n: int,
    work: Seq<u128>,
    finish: Seq<bool>,
    order: Seq<int>,
    p: Seq<int>,
    k: int,
)
    requires
        search_inv(available, need, alloc, n, work, finish, order),
        forall|t: int| 0 <= t < n ==> finish[t] || #[trigger] blocked(need, t, work),
        is_safe_sequence(available, need, alloc, n as nat, p),
        0 <= k <= n,
    ensures
        forall|j: int| 0 <= j < k ==> finish[#[trigger] p[j]],
    decreases k,
{
    if k > 0 {
        lemma_prefix_finished(available, need, alloc, n, work, finish, order, p, k - 1);
        let j = k - 1;
        let pre = p.take(j);
        assert(pre.no_duplicates()) by {
            assert forall|a: int, b: int| 0 <= a < pre.len() && 0 <= b < pre.len() && a != b
                implies pre[a] != pre[b] by {
                assert(pre[a] == p[a] && pre[b] == p[b]);
            }
        }
        assert forall|i: int| 0 <= i < pre.len() implies order.contains(#[trigger] pre[i]) by {
            assert(pre[i] == p[i]);
            assert(finish[p[i]]);
            assert(0 <= p[i] < n);
        }
        assert(can_finish_after(available, need, alloc, p, j));
        assert(0 <= p[j] < n);
        if !finish[p[j]] {
            assert(blocked(need, p[j], work));
            let r = choose|r: int| 0 <= r < work.len() && entry(need, p[j], r) > work[r] as int;
            lemma_released_subset(alloc, pre, order, r);
            assert(entry(need, p[j], r) <= available[r] + released(alloc, pre, r));
            assert(false);
        }
    }
}

/// A search that can make no more progress while some thread is unfinished
/// proves that no safe sequence exists.
proof fn lemma_stuck_is_unsafe(
    available: Seq<usize>,
    need: Seq<Seq<usize>>,
    alloc: Seq<Seq<usize>>,
    work: Seq<u128>,
    finish: Seq<bool>,
    order: Seq<int>,
    t0: int,
)
    requires
        search_inv(available, need, alloc, thread_count(need, alloc) as int, work, finish, order),
        forall|t: int|
            0 <= t < thread_count(need, alloc) ==> finish[t] || #[trigger] blocked(need, t, work),
        0 <= t0 < thread_count(need, alloc),
        !finish[t0],
    ensures
        !is_safe_state(available, need, alloc),
{
    let n = thread_count(need, alloc);
    if is_safe_state(available, need, alloc) {
        let p = choose|p: Seq<int>| is_safe_sequence(available, need, alloc, n, p);
        lemma_distinct_below(p, n as int);
        assert(p.contains(t0));
        let i = choose|i: int| 0 <= i < p.len() && p[i] == t0;
        lemma_prefix_finished(available, need, alloc, n as int, work, finish, order, p, n as int);
        assert(finish[p[i]]);
    }
}

/// Entry (`t`, `r`) of `m`, zero where `m` has none.
fn matrix_entry(m: &[Vec<usize>], t: usize, r: usize) -> (v: usize)
    ensures
        v == entry(rows(m@), t as int, r as int),
{
    if t < m.len() && r < m[t].len() {
        m[t][r]
    } else {
        0
    }
}

/// Reports whether the threads are deadlocked: whether no order exists in
/// which each thread can obtain what it still needs (`need`) from what is
/// free (`available`) plus what the threads before it have released
/// (`allocation`). Rows may be ragged; missing entries count as zero.
///
/// The search finishes, pass after pass, every thread whose need the free
/// units cover, adding what it holds to them, until a pass finishes none.
/// Free units are summed in 128 bits, wide enough that no sum overflows.
pub fn detect_deadlock(available: &[usize], need: &[Vec<usize>], allocation: &[Vec<usize>]) -> (deadlocked: bool)
    ensures
        deadlocked == !is_safe_state(available@, rows(need@), rows(allocation@)),
{
    let n_threads = if need.len() >= allocation.len() {
        need.len()
    } else {
        allocation.len()
    };
    let res_count = available.len();
    let ghost n = n_threads as int;
    let mut work: Vec<u128> = Vec::new();
    let mut i: usize = 0;
    while i < res_count
        invariant
            res_count == available@.len(),
            i <= res_count,
            work@.len() == i,
            forall|r: int| 0 <= r < i ==> #[trigger] work@[r] == available@[r] as u128,
        decreases res_count - i,
    {
        work.push(available[i] as u128);
        i = i + 1;
    }
    let mut finish: Vec<bool> = Vec::new();
    let mut i: usize = 0;
    while i < n_threads
        invariant
            i <= n_threads,
            finish@.len() == i,
            forall|t: int| 0 <= t < i ==> !#[trigger] finish@[t],
        decreases n_threads - i,
    {
        finish.push(false);
        i = i + 1;
    }
    let ghost mut order: Seq<int> = Seq::empty();
    assert(search_inv(available@, rows(need@), rows(allocation@), n, work@, finish@, order)) by {
        assert forall|t: int| 0 <= t < n implies (finish@[t] <==> order.contains(t)) by {}
    }
    loop
        invariant
            n == n_threads as int,
            n == thread_count(rows(need@), rows(allocation@)),
            res_count == available@.len(),
            search_inv(available@, rows(need@), rows(allocation@), n, work@, finish@, order),
        ensures
            search_inv(available@, rows(need@), rows(allocation@), n, work@, finish@, order),
            forall|t: int| 0 <= t < n ==> finish@[t] || #[trigger] blocked(rows(need@), t, work@),
        decreases n - order.len(),
    {
        let ghost start_len = order.len();
        proof {
            lemma_distinct_below(order, n);
        }
        let mut progressed = false;
        let mut tid: usize = 0;
        while tid < n_threads
            invariant
                n == n_threads as int,
                res_count == available@.len(),
                tid <= n_threads,
                search_inv(available@, rows(need@), rows(allocation@), n, work@, finish@, order),
                start_len <= order.len() <= n,
                progressed ==> order.len() > start_len,
                !progressed ==> order.len() == start_len && forall|t: int|
                    0 <= t < tid ==> finish@[t] || #[trigger] blocked(rows(need@), t, work@),
            decreases n_threads - tid,
        {
            if !finish[tid] {
                let mut can_finish = true;
                let mut res: usize = 0;
                while res < res_count
                    invariant
                        res_count == available@.len(),
                        work@.len() == res_count,
                        res <= res_count,
                        can_finish <==> forall|r: int|
                            0 <= r < res ==> entry(rows(need@), tid as int, r) <= #[trigger] work@[r] as int,
                    decreases res_count - res,
                {
                    let req = matrix_entry(need, tid, res);
                    if !(req as u128 <= work[res]) {
                        can_finish = false;
                    }
                    res = res + 1;
                }
                if can_finish {
                    let ghost old_work = work@;
                    let ghost new_order = order.push(tid as int);
                    proof {
                        assert(!order.contains(tid as int));
                        assert(new_order.no_duplicates()) by {
                            assert forall|a: int, b: int|
                                0 <= a < new_order.len() && 0 <= b < new_order.len() && a != b
                                implies new_order[a] != new_order[b] by {
                                if a < order.len() && b < order.len() {
                                    assert(new_order[a] == order[a] && new_order[b] == order[b]);
                                } else if a < order.len() {
                                    assert(new_order[a] == order[a]);
                                } else if b < order.len() {
                                    assert(new_order[b] == order[b]);
                                }
                            }
                        }
                        assert forall|k: int| 0 <= k < new_order.len() implies 0 <= #[trigger] new_order[k] < n by {
                            if k < order.len() {
                                assert(new_order[k] == order[k]);
                            }
                        }
                        lemma_distinct_below(new_order, n);
                        assert(new_order.drop_last() =~= order);
                    }
                    let mut res: usize = 0;
                    while res < res_count
                        invariant
                            res_count == available@.len(),
                            work@.len() == res_count,
                            old_work.len() == res_count,
                            res <= res_count,
                            n == n_threads as int,
                            new_order.len() <= n,
                            new_order.len() == order.len() + 1,
                            new_order.drop_last() == order,
                            new_order.last() == tid as int,
                            forall|r: int| 0 <= r < res_count ==> #[trigger] old_work[r] == available@[r] + released(rows(allocation@), order, r),
                            forall|r: int| 0 <= r < res ==> #[trigger] work@[r] == available@[r] + released(rows(allocation@), new_order, r),
                            forall|r: int| res <= r < res_count ==> #[trigger] work@[r] == old_work[r],
                        decreases res_count - res,
                    {
                        let a = matrix_entry(allocation, tid, res);
                        proof {
                            lemma_released_bounds(rows(allocation@), order, res as int);
                            assert(available@[res as int] <= 0xffff_ffff_ffff_ffff);
                            assert(n <= 0xffff_ffff_ffff_ffff);
                            assert((n + 1) * 0xffff_ffff_ffff_ffff < 0xffff_ffff_ffff_ffff_ffff_ffff_ffff_ffffu128) by (nonlinear_arith)
                                requires 0 <= n <= 0xffff_ffff_ffff_ffff;
                            assert(order.len() * 0xffff_ffff_ffff_ffff + 0xffff_ffff_ffff_ffff <= n * 0xffff_ffff_ffff_ffff) by (nonlinear_arith)
                                requires order.len() + 1 <= n;
                        }
                        work.set(res, work[res] + a as u128);
                        res = res + 1;
                    }
                    finish.set(tid, true);
                    proof {
                        let old_order = order;
                        order = new_order;
                        assert forall|k: int| 0 <= k < order.len() implies #[trigger] can_finish_after(
                            available@, rows(need@), rows(allocation@), order, k) by {
                            if k < old_order.len() {
                                assert(order.take(k) =~= old_order.take(k));
                                assert(order[k] == old_order[k]);
                                assert(can_finish_after(available@, rows(need@), rows(allocation@), old_order, k));
                            } else {
                                assert(order.take(k) =~= old_order);
                                assert forall|r: int| 0 <= r < available@.len() implies #[trigger] entry(rows(need@), order[k], r)
                                    <= available@[r] + released(rows(allocation@), order.take(k), r) by {
                                    assert(entry(rows(need@), tid as int, r) <= old_work[r] as int);
                                }
                            }
                        }
                        assert forall|t: int| 0 <= t < n implies (finish@[t] <==> order.contains(t)) by {
                            if t == tid as int {
                                assert(order[order.len() - 1] == t);
                            } else {
                                if old_order.contains(t) {
                                    let k = choose|k: int| 0 <= k < old_order.len() && old_order[k] == t;
                                    assert(order[k] == t);
                                }
                                if order.contains(t) {
                                    let k = choose|k: int| 0 <= k < order.len() && order[k] == t;
                                    assert(k < old_order.len());
                                    assert(old_order[k] == t);
                                }
                            }
                        }
                        assert forall|k: int| 0 <= k < order.len() implies 0 <= #[trigger] order[k] < n by {
                            assert(0 <= new_order[k] < n);
                        }
                    }
                    progressed = true;
                }
            }
            tid = tid + 1;
        }
        if !progressed {
            break;
        }
    }
    let mut deadlocked = false;
    let mut i: usize = 0;
    while i < n_threads
        invariant
            i <= n_threads,
            finish@.len() == n_threads,
            deadlocked <==> exists|t: int| 0 <= t < i && !#[trigger] finish@[t],
        decreases n_threads - i,
    {
        if !finish[i] {
            deadlocked = true;
        }
        i = i + 1;
    }
    proof {
        if deadlocked {
            let t0 = choose|t: int| 0 <= t < n && !#[trigger] finish@[t];
            lemma_stuck_is_unsafe(available@, rows(need@), rows(allocation@), work@, finish@, order, t0);
        } else {
            assert forall|t: int| 0 <= t < n implies order.to_set().contains(t) by {
                assert(finish@[t]);
                assert(order.contains(t));
            }
            lemma_distinct_below(order, n);
            order.unique_seq_to_set();
            lemma_int_range(0, n);
            assert(set_int_range(0, n).subset_of(order.to_set()));
            lemma_len_subset(set_int_range(0, n), order.to_set());
            assert(is_safe_sequence(available@, rows(need@), rows(allocation@), n as nat, order));
        }
    }
    deadlocked
}

} // verus!
