//! Per-thread bookkeeping of one kind of resource (mutexes or semaphores):
//! what is free, what each thread waits for, and what each thread holds.
use vstd::prelude::*;
use crate::banker::{detect_deadlock, entry, is_safe_state, rows};

verus! {

/// `row` lengthened with zeros to `width` entries, or left as it is when it
/// already has as many.
pub open spec fn padded(row: Seq<usize>, width: int) -> Seq<usize> {
    if row.len() < width {
        row + Seq::new((width - row.len()) as nat, |i: int| 0usize)
    } else {
        row
    }
}

/// The matrix `m` with a row for every thread up to `tid` and every row at
/// least `width` wide, new places holding zero.
pub open spec fn grow(m: Seq<Seq<usize>>, tid: int, width: int) -> Seq<Seq<usize>> {
    Seq::new(
        if m.len() <= tid { (tid + 1) as nat } else { m.len() },
        |t: int| padded(if t < m.len() { m[t] } else { Seq::<usize>::empty() }, width),
    )
}

/// Gives `matrix` a row for thread `tid` and makes every row at least
/// `res_count` wide; what was there stays, what is added is zero.
pub fn ensure_thread_row(matrix: &mut Vec<Vec<usize>>, tid: usize, res_count: usize)
    requires
        tid < usize::MAX,
    ensures
        rows(final(matrix)@) == grow(rows(old(matrix)@), tid as int, res_count as int),
{
    let ghost old_rows = rows(matrix@);
    let ghost base = Seq::new(
        if old_rows.len() <= tid { (tid + 1) as nat } else { old_rows.len() },
        |t: int| if t < old_rows.len() { old_rows[t] } else { Seq::<usize>::empty() },
    );
    while matrix.len() <= tid
        invariant
            tid < usize::MAX,
            base.len() == (if old_rows.len() <= tid { (tid + 1) as nat } else { old_rows.len() }),
            old_rows.len() <= matrix@.len(),
            matrix@.len() <= tid + 1 || matrix@.len() == old_rows.len(),
            forall|t: int| 0 <= t < old_rows.len() ==> #[trigger] matrix@[t]@ == old_rows[t],
            forall|t: int|
                old_rows.len() <= t < matrix@.len() ==> #[trigger] matrix@[t]@ == padded(
                    Seq::<usize>::empty(),
                    res_count as int,
                ),
        decreases tid + 1 - matrix@.len(),
    {
        let row: Vec<usize> = vec![0usize; res_count];
        assert(row@ =~= padded(Seq::<usize>::empty(), res_count as int));
        matrix.push(row);
    }
    assert(matrix@.len() == base.len());
    let len = matrix.len();
    let mut i: usize = 0;
    while i < len
        invariant
            len == matrix@.len(),
            len == base.len(),
            forall|t: int| 0 <= t < base.len() ==> #[trigger] base[t] == (if t < old_rows.len() { old_rows[t] } else { Seq::<usize>::empty() }),
            i <= len,
            old_rows.len() <= len,
            forall|t: int| 0 <= t < i ==> #[trigger] matrix@[t]@ == padded(base[t], res_count as int),
            forall|t: int| i <= t < old_rows.len() ==> #[trigger] matrix@[t]@ == old_rows[t],
            forall|t: int|
                old_rows.len() <= t < len ==> #[trigger] matrix@[t]@ == padded(
                    Seq::<usize>::empty(),
                    res_count as int,
                ),
        decreases len - i,
    {
        if matrix[i].len() < res_count {
            let ghost before = matrix@[i as int]@;
            matrix[i].resize(res_count, 0);
            assert(matrix@[i as int]@ =~= padded(before, res_count as int));
        }
        assert(matrix@[i as int]@ == padded(base[i as int], res_count as int));
        i = i + 1;
    }
    assert(rows(matrix@) =~= grow(old_rows, tid as int, res_count as int));
}


/// The bookkeeping of one kind of resource, by its contents.
#[verifier::ext_equal]
pub struct Books {
    /// Free units of each resource.
    pub available: Seq<usize>,
    /// Units of each resource each thread waits for.
    pub need: Seq<Seq<usize>>,
    /// Units of each resource each thread holds.
    pub allocation: Seq<Seq<usize>>,
}

/// `x` less one, but never below zero.
pub open spec fn dec(x: usize) -> usize {
    if x > 0 {
        (x - 1) as usize
    } else {
        x
    }
}

/// `m` with entry (`t`, `r`) replaced by `v`.
pub open spec fn set_entry(m: Seq<Seq<usize>>, t: int, r: int, v: usize) -> Seq<Seq<usize>> {
    m.update(t, m[t].update(r, v))
}

impl Books {
    /// The number of resources of this kind.
    pub open spec fn width(self) -> int {
        self.available.len() as int
    }

    /// Every row of both matrices has an entry for every resource.
    pub open spec fn wf(self) -> bool {
        &&& forall|t: int| 0 <= t < self.need.len() ==> #[trigger] self.need[t].len() == self.width()
        &&& forall|t: int|
            0 <= t < self.allocation.len() ==> #[trigger] self.allocation[t].len() == self.width()
    }

    /// What thread `t` waits for of resource `r` (zero where no row or column records it).
    pub open spec fn need_of(self, t: int, r: int) -> int {
        entry(self.need, t, r)
    }

    /// What thread `t` holds of resource `r` (zero where no row or column records it).
    pub open spec fn allocation_of(self, t: int, r: int) -> int {
        entry(self.allocation, t, r)
    }

    /// Some order lets every thread obtain what it waits for and finish.
    pub open spec fn safe(self) -> bool {
        is_safe_state(self.available, self.need, self.allocation)
    }

    /// Both record the same free units, and the same need and allocation for
    /// every thread and resource (rows of zeros aside).
    pub open spec fn same_counts(self, other: Books) -> bool {
        &&& self.available == other.available
        &&& forall|t: int, r: int| #[trigger] self.need_of(t, r) == other.need_of(t, r)
        &&& forall|t: int, r: int| #[trigger] self.allocation_of(t, r) == other.allocation_of(t, r)
    }

    /// Both matrices given a row for thread `tid`.
    pub open spec fn grown(self, tid: int) -> Books {
        Books {
            available: self.available,
            need: grow(self.need, tid, self.width()),
            allocation: grow(self.allocation, tid, self.width()),
        }
    }

    /// A new resource `id` with `initial` free units, held and awaited by no
    /// thread: appended when `id` is the next index, else in place of `id`.
    pub open spec fn with_resource(self, id: int, initial: usize) -> Books {
        if id == self.width() {
            Books {
                available: self.available.push(initial),
                need: Seq::new(self.need.len(), |t: int| self.need[t].push(0usize)),
                allocation: Seq::new(self.allocation.len(), |t: int| self.allocation[t].push(0usize)),
            }
        } else {
            Books {
                available: self.available.update(id, initial),
                need: Seq::new(self.need.len(), |t: int| self.need[t].update(id, 0usize)),
                allocation: Seq::new(
                    self.allocation.len(),
                    |t: int| self.allocation[t].update(id, 0usize),
                ),
            }
        }
    }

    /// Thread `tid` comes to wait for one more unit of resource `id`.
    pub open spec fn after_request(self, tid: int, id: int) -> Books {
        let g = self.grown(tid);
        Books { need: set_entry(g.need, tid, id, (g.need[tid][id] + 1) as usize), ..g }
    }

    /// Thread `tid` obtains one unit of resource `id`: it waits for one less,
    /// holds one more, and one less is free (counts that are zero stay so).
    pub open spec fn after_grant(self, tid: int, id: int) -> Books {
        let g = self.grown(tid);
        Books {
            available: g.available.update(id, dec(g.available[id])),
            need: set_entry(g.need, tid, id, dec(g.need[tid][id])),
            allocation: set_entry(g.allocation, tid, id, (g.allocation[tid][id] + 1) as usize),
        }
    }

    /// Thread `tid` gives back one unit of resource `id`: it holds one less
    /// (a zero stays zero) and one more is free.
    pub open spec fn after_release(self, tid: int, id: int) -> Books {
        let g = self.grown(tid);
        Books {
            available: g.available.update(id, (g.available[id] + 1) as usize),
            allocation: set_entry(g.allocation, tid, id, dec(g.allocation[tid][id])),
            ..g
        }
    }
}

/// The bookkeeping of one kind of resource.
pub struct ResourceTable {
    /// Free units of each resource.
    pub available: Vec<usize>,
    /// Units of each resource each thread waits for, one row per thread.
    pub need: Vec<Vec<usize>>,
    /// Units of each resource each thread holds, one row per thread.
    pub allocation: Vec<Vec<usize>>,
}

impl View for ResourceTable {
    type V = Books;

    open spec fn view(&self) -> Books {
        Books {
            available: self.available@,
            need: rows(self.need@),
            allocation: rows(self.allocation@),
        }
    }
}

impl ResourceTable {
    /// A table with no resources and no threads.
    pub fn new() -> (t: ResourceTable)
        ensures
            t@.available == Seq::<usize>::empty(),
            t@.need == Seq::<Seq<usize>>::empty(),
            t@.allocation == Seq::<Seq<usize>>::empty(),
            t@.wf(),
    {
        ResourceTable { available: Vec::new(), need: Vec::new(), allocation: Vec::new() }
    }

    /// Records resource `id` with `initial` free units and clears its column.
    pub fn add_resource(&mut self, id: usize, initial: usize)
        requires
            old(self)@.wf(),
            id <= old(self)@.width(),
        ensures
            final(self)@ == old(self)@.with_resource(id as int, initial),
            final(self)@.wf(),
    {
        let ghost old_books = self@;
        let appended = id == self.available.len();
        if appended {
            self.available.push(initial);
        } else {
            self.available.set(id, initial);
        }
        let res_count = self.available.len();
        assert forall|t: int| 0 <= t < self.need@.len() implies #[trigger] self.need@[t]@.len() == (
            if appended { res_count - 1 } else { res_count as int }) by {
            assert(rows(self.need@)[t] == self.need@[t]@);
            assert(old_books.need[t].len() == old_books.width());
        }
        assert forall|t: int| 0 <= t < self.allocation@.len() implies #[trigger] self.allocation@[t]@.len() == (
            if appended { res_count - 1 } else { res_count as int }) by {
            assert(rows(self.allocation@)[t] == self.allocation@[t]@);
            assert(old_books.allocation[t].len() == old_books.width());
        }
        set_column(&mut self.need, id, res_count, appended);
        set_column(&mut self.allocation, id, res_count, appended);
        assert(self@ =~= old_books.with_resource(id as int, initial));
    }

    /// Gives both matrices a row for thread `tid`.
    pub fn ensure_thread(&mut self, tid: usize)
        requires
            tid < usize::MAX,
        ensures
            final(self)@ == old(self)@.grown(tid as int),
    {
        let res_count = self.available.len();
        ensure_thread_row(&mut self.need, tid, res_count);
        ensure_thread_row(&mut self.allocation, tid, res_count);
    }

    /// Thread `tid` comes to wait for one more unit of resource `id`.
    pub fn request(&mut self, tid: usize, id: usize)
        requires
            old(self)@.wf(),
            tid < usize::MAX,
            id < old(self)@.width(),
            old(self)@.need_of(tid as int, id as int) < usize::MAX,
        ensures
            final(self)@ == old(self)@.after_request(tid as int, id as int),
            final(self)@.wf(),
    {
        let ghost b = self@;
        proof {
            lemma_grown(b, tid as int);
        }
        self.ensure_thread(tid);
        assert(rows(self.need@)[tid as int] == self.need@[tid as int]@);
        let v = self.need[tid][id];
        self.need[tid].set(id, v + 1);
        assert(self@ =~= b.after_request(tid as int, id as int));
    }

    /// Takes back a request just made: thread `tid` waits for one less unit
    /// of resource `id`.
    fn withdraw(&mut self, tid: usize, id: usize)
        requires
            old(self)@.wf(),
            tid < old(self)@.need.len(),
            id < old(self)@.width(),
            old(self)@.need[tid as int][id as int] > 0,
        ensures
            final(self)@ == (Books {
                need: set_entry(
                    old(self)@.need,
                    tid as int,
                    id as int,
                    (old(self)@.need[tid as int][id as int] - 1) as usize,
                ),
                ..old(self)@
            }),
    {
        let ghost b = self@;
        assert(rows(self.need@)[tid as int] == self.need@[tid as int]@);
        let v = self.need[tid][id];
        self.need[tid].set(id, v - 1);
        assert(self@ =~= Books {
            need: set_entry(b.need, tid as int, id as int, (b.need[tid as int][id as int] - 1) as usize),
            ..b
        });
    }

    /// Thread `tid` asks for one unit of resource `id`. When `check` is set and
    /// granting the request would leave no safe order, the request is refused
    /// and nothing but the rows for `tid` is added; otherwise it is recorded.
    pub fn try_request(&mut self, tid: usize, id: usize, check: bool) -> (refused: bool)
        requires
            old(self)@.wf(),
            tid < usize::MAX,
            id < old(self)@.width(),
            old(self)@.need_of(tid as int, id as int) < usize::MAX,
        ensures
            refused == (check && !old(self)@.after_request(tid as int, id as int).safe()),
            refused ==> final(self)@ == old(self)@.grown(tid as int),
            !refused ==> final(self)@ == old(self)@.after_request(tid as int, id as int),
            final(self)@.wf(),
    {
        let ghost b = self@;
        proof {
            lemma_grown(b, tid as int);
        }
        self.request(tid, id);
        if check && detect_deadlock(
            self.available.as_slice(),
            self.need.as_slice(),
            self.allocation.as_slice(),
        ) {
            self.withdraw(tid, id);
            proof {
                let g = b.grown(tid as int);
                let row = g.need[tid as int];
                let v = row[id as int];
                assert(row.update(id as int, (v + 1) as usize).update(id as int, v) =~= row);
                assert(self@.need =~= g.need);
            }
            return true;
        }
        false
    }

    /// Thread `tid` has obtained one unit of resource `id`.
    pub fn grant(&mut self, tid: usize, id: usize)
        requires
            old(self)@.wf(),
            tid < usize::MAX,
            id < old(self)@.width(),
            old(self)@.allocation_of(tid as int, id as int) < usize::MAX,
        ensures
            final(self)@ == old(self)@.after_grant(tid as int, id as int),
            final(self)@.wf(),
    {
        let ghost b = self@;
        proof {
            lemma_grown(b, tid as int);
        }
        self.ensure_thread(tid);
        assert(rows(self.need@)[tid as int] == self.need@[tid as int]@);
        assert(rows(self.allocation@)[tid as int] == self.allocation@[tid as int]@);
        let ghost g = self@;
        if self.need[tid][id] > 0 {
            let v = self.need[tid][id];
            self.need[tid].set(id, v - 1);
        }
        assert(rows(self.need@)[tid as int] =~= g.need[tid as int].update(id as int, dec(g.need[tid as int][id as int])));
        assert(rows(self.need@) =~= set_entry(g.need, tid as int, id as int, dec(g.need[tid as int][id as int])));
        let a = self.allocation[tid][id];
        self.allocation[tid].set(id, a + 1);
        assert(rows(self.allocation@) =~= set_entry(g.allocation, tid as int, id as int, (g.allocation[tid as int][id as int] + 1) as usize));
        if self.available[id] > 0 {
            let v = self.available[id];
            self.available.set(id, v - 1);
        }
        assert(self.available@ =~= g.available.update(id as int, dec(g.available[id as int])));
        assert(self@ =~= b.after_grant(tid as int, id as int));
    }

    /// Thread `tid` has given back one unit of resource `id`.
    pub fn release(&mut self, tid: usize, id: usize)
        requires
            old(self)@.wf(),
            tid < usize::MAX,
            id < old(self)@.width(),
            old(self)@.available[id as int] < usize::MAX,
        ensures
            final(self)@ == old(self)@.after_release(tid as int, id as int),
            final(self)@.wf(),
    {
        let ghost b = self@;
        proof {
            lemma_grown(b, tid as int);
        }
        self.ensure_thread(tid);
        assert(rows(self.allocation@)[tid as int] == self.allocation@[tid as int]@);
        let ghost g = self@;
        if self.allocation[tid][id] > 0 {
            let a = self.allocation[tid][id];
            self.allocation[tid].set(id, a - 1);
        }
        assert(rows(self.allocation@)[tid as int] =~= g.allocation[tid as int].update(id as int, dec(g.allocation[tid as int][id as int])));
        assert(rows(self.allocation@) =~= set_entry(g.allocation, tid as int, id as int, dec(g.allocation[tid as int][id as int])));
        let v = self.available[id];
        self.available.set(id, v + 1);
        assert(self@ =~= b.after_release(tid as int, id as int));
    }
}

/// Growing the matrices keeps every count and the width of every row.
pub proof fn lemma_grown(b: Books, tid: int)
    requires
        b.wf(),
        0 <= tid,
    ensures
        b.grown(tid).wf(),
        b.grown(tid).width() == b.width(),
        tid < b.grown(tid).need.len(),
        tid < b.grown(tid).allocation.len(),
        b.grown(tid).same_counts(b),
        forall|t: int, r: int|
            0 <= t < b.grown(tid).need.len() && 0 <= r < b.width() ==> #[trigger] b.grown(
                tid,
            ).need[t][r] == b.need_of(t, r),
        forall|t: int, r: int|
            0 <= t < b.grown(tid).allocation.len() && 0 <= r < b.width() ==> #[trigger] b.grown(
                tid,
            ).allocation[t][r] == b.allocation_of(t, r),
{
    let g = b.grown(tid);
    assert forall|t: int| 0 <= t < g.need.len() implies #[trigger] g.need[t].len() == g.width() by {
        if t < b.need.len() {
            assert(b.need[t].len() == b.width());
        }
    }
    assert forall|t: int| 0 <= t < g.allocation.len() implies #[trigger] g.allocation[t].len()
        == g.width() by {
        if t < b.allocation.len() {
            assert(b.allocation[t].len() == b.width());
        }
    }
    assert forall|t: int, r: int| #[trigger] g.need_of(t, r) == b.need_of(t, r) by {
        if 0 <= t < b.need.len() {
            assert(b.need[t].len() == b.width());
        }
    }
    assert forall|t: int, r: int| #[trigger] g.allocation_of(t, r) == b.allocation_of(t, r) by {
        if 0 <= t < b.allocation.len() {
            assert(b.allocation[t].len() == b.width());
        }
    }
    assert forall|t: int, r: int|
        0 <= t < g.need.len() && 0 <= r < b.width() implies #[trigger] g.need[t][r] == b.need_of(t, r) by {
        assert(g.need_of(t, r) == b.need_of(t, r));
    }
    assert forall|t: int, r: int|
        0 <= t < g.allocation.len() && 0 <= r < b.width() implies #[trigger] g.allocation[t][r]
        == b.allocation_of(t, r) by {
        assert(g.allocation_of(t, r) == b.allocation_of(t, r));
    }
}

/// Each step of the bookkeeping keeps every row as wide as the number of
/// resources, leaves a row for the thread that took it, and changes only the
/// entry of that thread and resource (and the free count of that resource).
pub proof fn lemma_steps(b: Books, tid: int, id: int)
    requires
        b.wf(),
        0 <= tid,
        0 <= id < b.width(),
    ensures
        b.after_request(tid, id).wf(),
        b.after_grant(tid, id).wf(),
        b.after_release(tid, id).wf(),
        b.after_request(tid, id).width() == b.width(),
        b.after_grant(tid, id).width() == b.width(),
        b.after_release(tid, id).width() == b.width(),
        b.after_request(tid, id).available == b.available,
        b.after_grant(tid, id).available == b.available.update(id, dec(b.available[id])),
        b.after_release(tid, id).available == b.available.update(id, (b.available[id] + 1) as usize),
        forall|t: int, r: int|
            #![trigger b.after_request(tid, id).need_of(t, r)]
            b.after_request(tid, id).need_of(t, r) == if t == tid && r == id {
                (b.need_of(t, r) + 1) as usize as int
            } else {
                b.need_of(t, r)
            },
        forall|t: int, r: int|
            #![trigger b.after_request(tid, id).allocation_of(t, r)]
            b.after_request(tid, id).allocation_of(t, r) == b.allocation_of(t, r),
        forall|t: int, r: int|
            #![trigger b.after_grant(tid, id).need_of(t, r)]
            b.after_grant(tid, id).need_of(t, r) == if t == tid && r == id {
                dec(b.need_of(t, r) as usize) as int
            } else {
                b.need_of(t, r)
            },
        forall|t: int, r: int|
            #![trigger b.after_grant(tid, id).allocation_of(t, r)]
            b.after_grant(tid, id).allocation_of(t, r) == if t == tid && r == id {
                (b.allocation_of(t, r) + 1) as usize as int
            } else {
                b.allocation_of(t, r)
            },
        forall|t: int, r: int|
            #![trigger b.after_release(tid, id).need_of(t, r)]
            b.after_release(tid, id).need_of(t, r) == b.need_of(t, r),
        forall|t: int, r: int|
            #![trigger b.after_release(tid, id).allocation_of(t, r)]
            b.after_release(tid, id).allocation_of(t, r) == if t == tid && r == id {
                dec(b.allocation_of(t, r) as usize) as int
            } else {
                b.allocation_of(t, r)
            },
{
    lemma_grown(b, tid);
    let g = b.grown(tid);
    let q = b.after_request(tid, id);
    let gr = b.after_grant(tid, id);
    let rl = b.after_release(tid, id);
    assert(g.need[tid].len() == b.width());
    assert(g.allocation[tid].len() == b.width());
    assert(g.need[tid][id] == b.need_of(tid, id));
    assert(g.allocation[tid][id] == b.allocation_of(tid, id));
    assert forall|t: int| 0 <= t < q.need.len() implies #[trigger] q.need[t].len() == q.width() by {
        assert(g.need[t].len() == g.width());
    }
    assert forall|t: int| 0 <= t < gr.need.len() implies #[trigger] gr.need[t].len() == gr.width() by {
        assert(g.need[t].len() == g.width());
    }
    assert forall|t: int| 0 <= t < gr.allocation.len() implies #[trigger] gr.allocation[t].len()
        == gr.width() by {
        assert(g.allocation[t].len() == g.width());
    }
    assert forall|t: int| 0 <= t < rl.allocation.len() implies #[trigger] rl.allocation[t].len()
        == rl.width() by {
        assert(g.allocation[t].len() == g.width());
    }
    assert forall|t: int, r: int| #[trigger] q.need_of(t, r) == if t == tid && r == id {
        (b.need_of(t, r) + 1) as usize as int
    } else {
        b.need_of(t, r)
    } by {
        assert(g.need_of(t, r) == b.need_of(t, r));
    }
    assert forall|t: int, r: int| #[trigger] q.allocation_of(t, r) == b.allocation_of(t, r) by {
        assert(g.allocation_of(t, r) == b.allocation_of(t, r));
    }
    assert forall|t: int, r: int| #[trigger] gr.need_of(t, r) == if t == tid && r == id {
        dec(b.need_of(t, r) as usize) as int
    } else {
        b.need_of(t, r)
    } by {
        assert(g.need_of(t, r) == b.need_of(t, r));
    }
    assert forall|t: int, r: int| #[trigger] gr.allocation_of(t, r) == if t == tid && r == id {
        (b.allocation_of(t, r) + 1) as usize as int
    } else {
        b.allocation_of(t, r)
    } by {
        assert(g.allocation_of(t, r) == b.allocation_of(t, r));
    }
    assert forall|t: int, r: int| #[trigger] rl.need_of(t, r) == b.need_of(t, r) by {
        assert(g.need_of(t, r) == b.need_of(t, r));
    }
    assert forall|t: int, r: int| #[trigger] rl.allocation_of(t, r) == if t == tid && r == id {
        dec(b.allocation_of(t, r) as usize) as int
    } else {
        b.allocation_of(t, r)
    } by {
        assert(g.allocation_of(t, r) == b.allocation_of(t, r));
    }
}

/// A resource just recorded has its initial units free and is held and
/// awaited by no thread; every other count is as it was.
pub proof fn lemma_new_resource_is_free(b: Books, id: int, initial: usize)
    requires
        b.wf(),
        0 <= id <= b.width(),
    ensures
        b.with_resource(id, initial).wf(),
        b.with_resource(id, initial).width() == if id == b.width() { b.width() + 1 } else { b.width() },
        b.with_resource(id, initial).available[id] == initial,
        forall|r: int|
            0 <= r < b.width() && r != id ==> #[trigger] b.with_resource(id, initial).available[r]
                == b.available[r],
        forall|t: int|
            #![trigger b.with_resource(id, initial).need_of(t, id)]
            b.with_resource(id, initial).need_of(t, id) == 0 && b.with_resource(id, initial).allocation_of(t, id) == 0,
        forall|t: int, r: int|
            r != id ==> #[trigger] b.with_resource(id, initial).need_of(t, r) == b.need_of(t, r),
        forall|t: int, r: int|
            r != id ==> #[trigger] b.with_resource(id, initial).allocation_of(t, r) == b.allocation_of(t, r),
{
    let n = b.with_resource(id, initial);
    assert forall|t: int| 0 <= t < n.need.len() implies #[trigger] n.need[t].len() == n.width() by {
        assert(b.need[t].len() == b.width());
    }
    assert forall|t: int| 0 <= t < n.allocation.len() implies #[trigger] n.allocation[t].len() == n.width() by {
        assert(b.allocation[t].len() == b.width());
    }
    assert forall|t: int| #[trigger] n.need_of(t, id) == 0 && n.allocation_of(t, id) == 0 by {
        if 0 <= t < b.need.len() {
            assert(b.need[t].len() == b.width());
        }
        if 0 <= t < b.allocation.len() {
            assert(b.allocation[t].len() == b.width());
        }
    }
    assert forall|t: int, r: int| r != id implies #[trigger] n.need_of(t, r) == b.need_of(t, r) by {
        if 0 <= t < b.need.len() {
            assert(b.need[t].len() == b.width());
        }
    }
    assert forall|t: int, r: int| r != id implies #[trigger] n.allocation_of(t, r) == b.allocation_of(t, r) by {
        if 0 <= t < b.allocation.len() {
            assert(b.allocation[t].len() == b.width());
        }
    }
}

/// The units of resource `r` that the first `n` threads of `m` account for.
pub open spec fn column_sum(m: Seq<Seq<usize>>, r: int, n: int) -> int
    decreases n,
{
    if n <= 0 {
        0
    } else {
        column_sum(m, r, n - 1) + entry(m, n - 1, r)
    }
}

/// All units of resource `r`: the free ones and those every thread holds.
pub open spec fn total_units(b: Books, r: int) -> int {
    b.available[r] + column_sum(b.allocation, r, b.allocation.len() as int)
}

/// Two matrices that agree in column `r` everywhere but at thread `t` have
/// column sums that differ by exactly the difference at `t`.
proof fn lemma_column_sum_change(m1: Seq<Seq<usize>>, m2: Seq<Seq<usize>>, r: int, t: int, n: int)
    requires
        forall|u: int| u != t ==> #[trigger] entry(m1, u, r) == entry(m2, u, r),
    ensures
        column_sum(m2, r, n) == column_sum(m1, r, n) + if 0 <= t < n {
            entry(m2, t, r) - entry(m1, t, r)
        } else {
            0
        },
    decreases n,
{
    if n > 0 {
        lemma_column_sum_change(m1, m2, r, t, n - 1);
    }
}

/// Beyond the last row a column sum adds nothing.
proof fn lemma_column_sum_tail(m: Seq<Seq<usize>>, r: int, n: int)
    requires
        m.len() <= n,
    ensures
        column_sum(m, r, n) == column_sum(m, r, m.len() as int),
    decreases n,
{
    if n > m.len() {
        lemma_column_sum_tail(m, r, n - 1);
    }
}

/// `b2` counts for resource `r` what `b1` counts, but for thread `t`'s
/// holding and the free units of `r`: the totals differ by those changes.
proof fn lemma_total_change(b1: Books, b2: Books, r: int, t: int)
    requires
        0 <= t < b2.allocation.len(),
        0 <= r < b1.available.len(),
        0 <= r < b2.available.len(),
        b1.allocation.len() <= b2.allocation.len(),
        forall|u: int| u != t ==> #[trigger] b2.allocation_of(u, r) == b1.allocation_of(u, r),
    ensures
        total_units(b2, r) == total_units(b1, r) + (b2.available[r] - b1.available[r]) + (
        b2.allocation_of(t, r) - b1.allocation_of(t, r)),
{
    let n = b2.allocation.len() as int;
    assert forall|u: int| u != t implies #[trigger] entry(b1.allocation, u, r) == entry(b2.allocation, u, r) by {
        assert(b2.allocation_of(u, r) == b1.allocation_of(u, r));
    }
    lemma_column_sum_change(b1.allocation, b2.allocation, r, t, n);
    lemma_column_sum_tail(b1.allocation, r, n);
}

/// The units of a resource are neither made nor lost by the bookkeeping:
/// free units plus the units all threads hold stay the same when a thread
/// asks for a unit, is refused, obtains a unit while one is free, or gives
/// back a unit it holds.
pub proof fn lemma_units_conserved(b: Books, tid: int, id: int)
    requires
        b.wf(),
        0 <= tid,
        0 <= id < b.width(),
    ensures
        forall|r: int|
            0 <= r < b.width() ==> #[trigger] total_units(b.after_request(tid, id), r)
                == total_units(b, r),
        forall|r: int| 0 <= r < b.width() ==> #[trigger] total_units(b.grown(tid), r) == total_units(b, r),
        b.available[id] > 0 && b.allocation_of(tid, id) < usize::MAX ==> forall|r: int|
            0 <= r < b.width() ==> #[trigger] total_units(b.after_grant(tid, id), r) == total_units(b, r),
        b.allocation_of(tid, id) > 0 && b.available[id] < usize::MAX ==> forall|r: int|
            0 <= r < b.width() ==> #[trigger] total_units(b.after_release(tid, id), r) == total_units(b, r),
{
    lemma_grown(b, tid);
    lemma_steps(b, tid, id);
    let g = b.grown(tid);
    assert(b.allocation.len() <= g.allocation.len());
    assert forall|r: int| 0 <= r < b.width() implies #[trigger] total_units(g, r) == total_units(b, r) by {
        lemma_total_change(b, g, r, tid);
    }
    assert forall|r: int| 0 <= r < b.width() implies #[trigger] total_units(b.after_request(tid, id), r)
        == total_units(b, r) by {
        lemma_total_change(b, b.after_request(tid, id), r, tid);
    }
    if b.available[id] > 0 && b.allocation_of(tid, id) < usize::MAX {
        let a = b.after_grant(tid, id);
        assert forall|r: int| 0 <= r < b.width() implies #[trigger] total_units(a, r) == total_units(b, r) by {
            assert forall|u: int| u != tid implies #[trigger] a.allocation_of(u, r) == b.allocation_of(u, r) by {}
            lemma_total_change(b, a, r, tid);
        }
    }
    if b.allocation_of(tid, id) > 0 && b.available[id] < usize::MAX {
        let a = b.after_release(tid, id);
        assert forall|r: int| 0 <= r < b.width() implies #[trigger] total_units(a, r) == total_units(b, r) by {
            assert forall|u: int| u != tid implies #[trigger] a.allocation_of(u, r) == b.allocation_of(u, r) by {}
            lemma_total_change(b, a, r, tid);
        }
    }
}

/// A thread that locks a free resource (asks, obtains it) and then gives
/// it back leaves every count as it was before it asked.
pub proof fn lemma_acquire_then_release_restores(b: Books, tid: int, id: int)
    requires
        b.wf(),
        0 <= tid,
        0 <= id < b.width(),
        b.available[id] > 0,
        b.need_of(tid, id) < usize::MAX,
        b.allocation_of(tid, id) < usize::MAX,
    ensures
        b.after_request(tid, id).after_grant(tid, id).after_release(tid, id).same_counts(b),
{
    let q = b.after_request(tid, id);
    lemma_steps(b, tid, id);
    let g = q.after_grant(tid, id);
    lemma_steps(q, tid, id);
    let f = g.after_release(tid, id);
    lemma_steps(g, tid, id);
    assert(q.need_of(tid, id) == b.need_of(tid, id) + 1);
    assert(g.need_of(tid, id) == b.need_of(tid, id));
    assert(g.allocation_of(tid, id) == b.allocation_of(tid, id) + 1);
    assert(f.available =~= b.available);
    assert forall|t: int, r: int| #[trigger] f.need_of(t, r) == b.need_of(t, r) by {
        assert(g.need_of(t, r) == q.need_of(t, r) || (t == tid && r == id));
    }
    assert forall|t: int, r: int| #[trigger] f.allocation_of(t, r) == b.allocation_of(t, r) by {
        assert(g.allocation_of(t, r) == q.allocation_of(t, r) || (t == tid && r == id));
    }
}

/// Clears column `id` of `matrix`: when the column was just `appended`,
/// every row (then `res_count - 1` wide) is lengthened by a zero; otherwise
/// every row (then `res_count` wide) has its entry `id` set to zero.
fn set_column(matrix: &mut Vec<Vec<usize>>, id: usize, res_count: usize, appended: bool)
    requires
        id < res_count,
        appended ==> id + 1 == res_count,
        forall|t: int|
            0 <= t < old(matrix)@.len() ==> #[trigger] old(matrix)@[t]@.len() == (if appended {
                res_count - 1
            } else {
                res_count as int
            }),
    ensures
        rows(final(matrix)@) == Seq::new(
            old(matrix)@.len(),
            |t: int|
                if appended {
                    old(matrix)@[t]@.push(0usize)
                } else {
                    old(matrix)@[t]@.update(id as int, 0usize)
                },
        ),
{
    let ghost old_m = matrix@;
    let len = matrix.len();
    let mut i: usize = 0;
    while i < len
        invariant
            len == matrix@.len(),
            len == old_m.len(),
            id < res_count,
            appended ==> id + 1 == res_count,
            i <= len,
            forall|t: int|
                0 <= t < len ==> #[trigger] old_m[t]@.len() == (if appended {
                    res_count - 1
                } else {
                    res_count as int
                }),
            forall|t: int|
                0 <= t < i ==> #[trigger] matrix@[t]@ == (if appended {
                    old_m[t]@.push(0usize)
                } else {
                    old_m[t]@.update(id as int, 0usize)
                }),
            forall|t: int| i <= t < len ==> #[trigger] matrix@[t] == old_m[t],
        decreases len - i,
    {
        matrix[i].resize(res_count, 0);
        if !appended {
            matrix[i].set(id, 0);
        }
        proof {
            let r = old_m[i as int]@;
            if appended {
                assert(matrix@[i as int]@ =~= r.push(0usize));
            } else {
                assert(matrix@[i as int]@ =~= r.update(id as int, 0usize));
            }
        }
        i = i + 1;
    }
    assert(rows(matrix@) =~= Seq::new(
        old_m.len(),
        |t: int|
            if appended {
                old_m[t]@.push(0usize)
            } else {
                old_m[t]@.update(id as int, 0usize)
            },
    ));
}

} // verus!
