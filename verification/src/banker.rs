//! The banker's tables (available vector, allocation and need matrices) and
//! the safety check that decides whether every thread can still run to the end.
use vstd::prelude::*;

verus! {

/// Resource bookkeeping of one process: how many units of each resource are
/// free, how many each thread holds, and how many each thread is waiting for.
pub struct Banker {
    /// Free units of each resource.
    pub available: Vec<i32>,
    /// `allocation[t][r]`: units of resource `r` held by thread `t`.
    pub allocation: Vec<Vec<i32>>,
    /// `need[t][r]`: units of resource `r` thread `t` is waiting for.
    pub need: Vec<Vec<i32>>,
}

/// `n` zeros.
pub open spec fn zeros(n: nat) -> Seq<i32> {
    Seq::new(n, |i: int| 0i32)
}

/// A row extended with zeros up to `cols` entries (never shortened).
pub open spec fn pad_row(row: Seq<i32>, cols: nat) -> Seq<i32> {
    if row.len() >= cols {
        row
    } else {
        row + zeros((cols - row.len()) as nat)
    }
}

/// A matrix grown to at least `rows` rows, each row grown to at least `cols`
/// columns, new cells holding zero.
pub open spec fn expand(m: Seq<Seq<i32>>, rows: nat, cols: nat) -> Seq<Seq<i32>> {
    let n = if m.len() >= rows { m.len() } else { rows };
    Seq::new(n, |i: int| pad_row(if i < m.len() { m[i] } else { Seq::<i32>::empty() }, cols))
}

/// The cell `(i, j)` of a ragged matrix, zero where the matrix has no such cell.
pub open spec fn entry(m: Seq<Seq<i32>>, i: int, j: int) -> int {
    if 0 <= i < m.len() && 0 <= j < m[i].len() {
        m[i][j] as int
    } else {
        0
    }
}

/// The matrix with the cell `(i, j)` replaced by `v`.
pub open spec fn set_entry(m: Seq<Seq<i32>>, i: int, j: int, v: i32) -> Seq<Seq<i32>> {
    m.update(i, m[i].update(j, v))
}

/// The matrix after adding `delta` to cell `(tid, rid)`, once it has been grown
/// to hold row `tid` and `cols` columns.
pub open spec fn add_entry(m: Seq<Seq<i32>>, tid: nat, rid: nat, cols: nat, delta: int) -> Seq<
    Seq<i32>,
> {
    set_entry(expand(m, tid + 1, cols), tid as int, rid as int, (entry(m, tid as int, rid as int) + delta) as i32)
}

/// The vector with slot `idx` set to `val`, grown with zeros first if it is too short.
pub open spec fn set_slot(v: Seq<i32>, idx: nat, val: i32) -> Seq<i32> {
    if idx < v.len() {
        v.update(idx as int, val)
    } else {
        (v + zeros((idx - v.len()) as nat)).push(val)
    }
}

/// Sum of column `j` over the rows listed in `order`.
pub open spec fn col_sum(alloc: Seq<Seq<i32>>, order: Seq<int>, j: int) -> int
    decreases order.len(),
{
    if order.len() == 0 {
        0
    } else {
        col_sum(alloc, order.drop_last(), j) + alloc[order.last()][j] as int
    }
}

/// The thread at position `p` of `order` can get everything it waits for once
/// the threads before it have finished and returned what they hold.
pub open spec fn can_finish_at(
    avail: Seq<i32>,
    alloc: Seq<Seq<i32>>,
    need: Seq<Seq<i32>>,
    order: Seq<int>,
    p: int,
) -> bool {
    forall|j: int|
        0 <= j < avail.len() ==> #[trigger] need[order[p]][j] <= avail[j] + col_sum(
            alloc,
            order.take(p),
            j,
        )
}

/// `order` runs each of the threads `0..n` exactly once, and each can finish
/// in its turn.
pub open spec fn is_safe_sequence(
    avail: Seq<i32>,
    alloc: Seq<Seq<i32>>,
    need: Seq<Seq<i32>>,
    n: nat,
    order: Seq<int>,
) -> bool {
    &&& order.len() == n
    &&& order.no_duplicates()
    &&& forall|p: int| 0 <= p < n ==> 0 <= #[trigger] order[p] < n
    &&& forall|p: int| 0 <= p < n ==> #[trigger] can_finish_at(avail, alloc, need, order, p)
}

/// Some order lets all `n` threads finish: the state is safe.
pub open spec fn is_safe_state(
    avail: Seq<i32>,
    alloc: Seq<Seq<i32>>,
    need: Seq<Seq<i32>>,
    n: nat,
) -> bool {
    exists|order: Seq<int>| is_safe_sequence(avail, alloc, need, n, order)
}

/// Thread `i` waits for no more of any resource than is free once the
/// threads in `g` have finished and returned what they hold.
pub open spec fn covered(
    avail: Seq<i32>,
    alloc: Seq<Seq<i32>>,
    need: Seq<Seq<i32>>,
    g: Seq<int>,
    i: int,
) -> bool {
    forall|j: int| 0 <= j < avail.len() ==> #[trigger] need[i][j] <= avail[j] + col_sum(alloc, g, j)
}

/// The first thread, from index `i` up to `n`, that is not in `g` and is
/// covered once `g` has finished.
pub open spec fn first_candidate_from(
    avail: Seq<i32>,
    alloc: Seq<Seq<i32>>,
    need: Seq<Seq<i32>>,
    n: nat,
    g: Seq<int>,
    i: int,
) -> Option<int>
    decreases n - i,
{
    if i >= n {
        None
    } else if !g.contains(i) && covered(avail, alloc, need, g, i) {
        Some(i)
    } else {
        first_candidate_from(avail, alloc, need, n, g, i + 1)
    }
}

/// The threads a first-fit run lets finish in `k` rounds, in order: each
/// round lets the first covered thread not yet finished finish, if any.
pub open spec fn first_fit_order(
    avail: Seq<i32>,
    alloc: Seq<Seq<i32>>,
    need: Seq<Seq<i32>>,
    n: nat,
    k: nat,
) -> Seq<int>
    decreases k,
{
    if k == 0 {
        Seq::empty()
    } else {
        let g = first_fit_order(avail, alloc, need, n, (k - 1) as nat);
        match first_candidate_from(avail, alloc, need, n, g, 0) {
            Some(i) => g.push(i),
            None => g,
        }
    }
}

/// A first-fit run lets all `n` threads finish.
pub open spec fn first_fit_safe(
    avail: Seq<i32>,
    alloc: Seq<Seq<i32>>,
    need: Seq<Seq<i32>>,
    n: nat,
) -> bool {
    first_fit_order(avail, alloc, need, n, n).len() == n
}

/// The first candidate is `c` when `c` qualifies and nothing before it does.
proof fn lemma_first_candidate_is(
    avail: Seq<i32>,
    alloc: Seq<Seq<i32>>,
    need: Seq<Seq<i32>>,
    n: nat,
    g: Seq<int>,
    i: int,
    c: int,
)
    requires
        0 <= i <= c < n,
        !g.contains(c) && covered(avail, alloc, need, g, c),
        forall|k: int| i <= k < c ==> !(!g.contains(k) && #[trigger] covered(avail, alloc, need, g, k)),
    ensures
        first_candidate_from(avail, alloc, need, n, g, i) == Some(c),
    decreases c - i,
{
    if i < c {
        lemma_first_candidate_is(avail, alloc, need, n, g, i + 1, c);
    }
}

/// There is no first candidate when nothing from `i` on qualifies.
proof fn lemma_no_candidate(
    avail: Seq<i32>,
    alloc: Seq<Seq<i32>>,
    need: Seq<Seq<i32>>,
    n: nat,
    g: Seq<int>,
    i: int,
)
    requires
        0 <= i,
        forall|k: int| i <= k < n ==> !(!g.contains(k) && #[trigger] covered(avail, alloc, need, g, k)),
    ensures
        first_candidate_from(avail, alloc, need, n, g, i) is None,
    decreases n - i,
{
    if i < n {
        lemma_no_candidate(avail, alloc, need, n, g, i + 1);
    }
}

/// Once a round finds no thread, the run stays where it is.
proof fn lemma_first_fit_stuck(
    avail: Seq<i32>,
    alloc: Seq<Seq<i32>>,
    need: Seq<Seq<i32>>,
    n: nat,
    k: nat,
    k2: nat,
)
    requires
        k <= k2,
        first_candidate_from(avail, alloc, need, n, first_fit_order(avail, alloc, need, n, k), 0) is None,
    ensures
        first_fit_order(avail, alloc, need, n, k2) == first_fit_order(avail, alloc, need, n, k),
    decreases k2 - k,
{
    if k2 > k {
        lemma_first_fit_stuck(avail, alloc, need, n, k, (k2 - 1) as nat);
    }
}

/// Every thread holds a non-negative amount of every resource.
pub open spec fn nonneg_matrix(m: Seq<Seq<i32>>, n: nat, cols: nat) -> bool {
    forall|i: int, j: int| 0 <= i < n && 0 <= j < cols ==> #[trigger] m[i][j] >= 0
}

/// A row of `n` zeros.
fn zero_row(n: usize) -> (v: Vec<i32>)
    ensures
        v@ == zeros(n as nat),
{
    let mut v: Vec<i32> = Vec::new();
    while v.len() < n
        invariant
            v@.len() <= n,
            v@ == zeros(v@.len()),
        decreases n - v.len(),
    {
        v.push(0);
        assert(v@ =~= zeros(v@.len()));
    }
    v
}

/// Grows `row` with zeros until it has at least `cols` entries.
fn pad_vec(row: &mut Vec<i32>, cols: usize)
    ensures
        final(row)@ == pad_row(old(row)@, cols as nat),
{
    let ghost orig = row@;
    while row.len() < cols
        invariant
            orig.len() <= row@.len(),
            orig.len() < cols ==> row@.len() <= cols,
            orig.len() >= cols ==> row@.len() == orig.len(),
            row@ == orig + zeros((row@.len() - orig.len()) as nat),
        decreases cols - row.len(),
    {
        row.push(0);
        assert(row@ =~= orig + zeros((row@.len() - orig.len()) as nat));
    }
    proof {
        if orig.len() >= cols {
            assert(row@ =~= orig);
        } else {
            assert(row@ =~= pad_row(orig, cols as nat));
        }
    }
}

impl Banker {
    /// The allocation matrix as a sequence of rows.
    pub open spec fn alloc_m(&self) -> Seq<Seq<i32>> {
        self.allocation.deep_view()
    }

    /// The need matrix as a sequence of rows.
    pub open spec fn need_m(&self) -> Seq<Seq<i32>> {
        self.need.deep_view()
    }

    /// Both matrices have one row per known thread.
    pub open spec fn wf(&self) -> bool {
        self.allocation@.len() == self.need@.len()
    }

    /// Every row of both matrices covers every resource: the tables can be checked.
    pub open spec fn tables_cover(&self) -> bool {
        &&& self.wf()
        &&& forall|i: int|
            0 <= i < self.allocation@.len() ==> (#[trigger] self.allocation@[i])@.len()
                >= self.available@.len()
        &&& forall|i: int|
            0 <= i < self.need@.len() ==> (#[trigger] self.need@[i])@.len()
                >= self.available@.len()
    }

    /// The current state is safe.
    pub open spec fn is_safe(&self) -> bool {
        is_safe_state(self.available@, self.alloc_m(), self.need_m(), self.allocation@.len())
    }

    /// A first-fit run over the current tables lets every thread finish.
    pub open spec fn first_fit_passes(&self) -> bool {
        first_fit_safe(self.available@, self.alloc_m(), self.need_m(), self.allocation@.len())
    }

    /// No thread holds a negative amount of any resource.
    pub open spec fn alloc_nonneg(&self) -> bool {
        nonneg_matrix(self.alloc_m(), self.allocation@.len(), self.available@.len())
    }

    /// Empty tables.
    pub fn new() -> (b: Self)
        ensures
            b.wf(),
            b.available@ == Seq::<i32>::empty(),
            b.alloc_m() == Seq::<Seq<i32>>::empty(),
            b.need_m() == Seq::<Seq<i32>>::empty(),
    {
        let b = Self { available: Vec::new(), allocation: Vec::new(), need: Vec::new() };
        assert(b.alloc_m() =~= Seq::<Seq<i32>>::empty());
        assert(b.need_m() =~= Seq::<Seq<i32>>::empty());
        b
    }

    /// Registers resource `rid` with `cnt` free units, growing the available
    /// vector with zeros if needed; the matrices grow lazily later.
    pub fn add_new_resouce(&mut self, rid: usize, cnt: usize)
        requires
            rid < usize::MAX,
        ensures
            final(self).available@ == set_slot(old(self).available@, rid as nat, cnt as i32),
            final(self).allocation == old(self).allocation,
            final(self).need == old(self).need,
    {
        let ghost old_avail = self.available@;
        while self.available.len() <= rid
            invariant
                rid < usize::MAX,
                self.allocation == old(self).allocation,
                self.need == old(self).need,
                old_avail.len() <= self.available@.len() <= if old_avail.len() > rid {
                    old_avail.len() as int
                } else {
                    rid as int + 1
                },
                self.available@ == old_avail + zeros((self.available@.len() - old_avail.len()) as nat),
            decreases rid + 1 - self.available.len(),
        {
            self.available.push(0);
            assert(self.available@ =~= old_avail + zeros((self.available@.len() - old_avail.len()) as nat));
        }
        self.available.set(rid, #[verifier::truncate] (cnt as i32));
        assert(self.available@ =~= set_slot(old_avail, rid as nat, cnt as i32));
    }

    /// Grows both matrices so that thread `tid` has a row and every row
    /// covers `max(rid, available.len())` resources.
    fn expand_table(&mut self, tid: usize, rid: usize)
        requires
            old(self).wf(),
            tid < usize::MAX,
        ensures
            final(self).wf(),
            final(self).available == old(self).available,
            final(self).alloc_m() == expand(
                old(self).alloc_m(),
                tid as nat + 1,
                if rid > old(self).available@.len() { rid as nat } else { old(self).available@.len() },
            ),
            final(self).need_m() == expand(
                old(self).need_m(),
                tid as nat + 1,
                if rid > old(self).available@.len() { rid as nat } else { old(self).available@.len() },
            ),
    {
        let resource_count = if rid > self.available.len() { rid } else { self.available.len() };
        let ghost rc = resource_count as nat;
        let ghost a0 = self.alloc_m();
        let ghost n0 = self.need_m();
        let ghost rows: nat = if a0.len() >= tid + 1 { a0.len() } else { tid as nat + 1 };
        while self.allocation.len() <= tid
            invariant
                self.available == old(self).available,
                self.need == old(self).need,
                a0 == old(self).alloc_m(),
                rc == resource_count,
                rows == (if a0.len() >= tid + 1 { a0.len() } else { tid as nat + 1 }),
                a0.len() <= self.allocation@.len() <= rows,
                forall|i: int| 0 <= i < a0.len() ==> (#[trigger] self.allocation@[i])@ == a0[i],
                forall|i: int|
                    a0.len() <= i < self.allocation@.len() ==> (#[trigger] self.allocation@[i])@ == zeros(rc),
            decreases tid + 1 - self.allocation.len(),
        {
            let row = zero_row(resource_count);
            self.allocation.push(row);
        }
        let ghost a_mid = self.allocation@;
        while self.need.len() <= tid
            invariant
                self.available == old(self).available,
                self.allocation@ == a_mid,
                self.allocation@.len() == rows,
                n0 == old(self).need_m(),
                n0.len() == a0.len(),
                rc == resource_count,
                rows == (if a0.len() >= tid + 1 { a0.len() } else { tid as nat + 1 }),
                n0.len() <= self.need@.len() <= rows,
                forall|i: int| 0 <= i < n0.len() ==> (#[trigger] self.need@[i])@ == n0[i],
                forall|i: int|
                    n0.len() <= i < self.need@.len() ==> (#[trigger] self.need@[i])@ == zeros(rc),
            decreases tid + 1 - self.need.len(),
        {
            let row = zero_row(resource_count);
            self.need.push(row);
        }
        let ghost a1 = self.alloc_m();
        let ghost n1 = self.need_m();
        let len = self.allocation.len();
        let mut i: usize = 0;
        while i < len
            invariant
                self.available == old(self).available,
                len == self.allocation@.len(),
                len == self.need@.len(),
                a1.len() == len,
                n1.len() == len,
                i <= len,
                rc == resource_count,
                forall|k: int| 0 <= k < i ==> (#[trigger] self.allocation@[k])@ == pad_row(a1[k], rc),
                forall|k: int| i <= k < len ==> (#[trigger] self.allocation@[k])@ == a1[k],
                forall|k: int| 0 <= k < i ==> (#[trigger] self.need@[k])@ == pad_row(n1[k], rc),
                forall|k: int| i <= k < len ==> (#[trigger] self.need@[k])@ == n1[k],
            decreases len - i,
        {
            pad_vec(&mut self.allocation[i], resource_count);
            pad_vec(&mut self.need[i], resource_count);
            i += 1;
        }
        proof {
            assert(pad_row(Seq::<i32>::empty(), rc) =~= zeros(rc));
            assert(pad_row(zeros(rc), rc) =~= zeros(rc));
            let e = expand(a0, tid as nat + 1, rc);
            assert forall|k: int| 0 <= k < len implies #[trigger] self.alloc_m()[k] == e[k] by {
                assert(a1[k] == a_mid[k]@);
            }
            assert(self.alloc_m() =~= e);
            let f = expand(n0, tid as nat + 1, rc);
            assert forall|k: int| 0 <= k < len implies #[trigger] self.need_m()[k] == f[k] by {}
            assert(self.need_m() =~= f);
        }
    }

    /// Adds `delta` (possibly negative) to the free units of resource `rid`.
    pub fn add_available(&mut self, rid: usize, delta: i32)
        requires
            rid < old(self).available@.len(),
            i32::MIN <= old(self).available@[rid as int] + delta <= i32::MAX,
        ensures
            final(self).available@ == old(self).available@.update(
                rid as int,
                (old(self).available@[rid as int] + delta) as i32,
            ),
            final(self).allocation == old(self).allocation,
            final(self).need == old(self).need,
    {
        let v = self.available[rid] + delta;
        self.available.set(rid, v);
    }

    /// Adds `delta` to the units of resource `rid` held by thread `tid`,
    /// growing the matrices first.
    pub fn add_allocation(&mut self, tid: usize, rid: usize, delta: i32)
        requires
            old(self).wf(),
            tid < usize::MAX,
            rid < old(self).available@.len(),
            i32::MIN <= entry(old(self).alloc_m(), tid as int, rid as int) + delta <= i32::MAX,
        ensures
            final(self).tables_cover(),
            final(self).available == old(self).available,
            final(self).alloc_m() == add_entry(
                old(self).alloc_m(),
                tid as nat,
                rid as nat,
                old(self).available@.len(),
                delta as int,
            ),
            final(self).need_m() == expand(
                old(self).need_m(),
                tid as nat + 1,
                old(self).available@.len(),
            ),
    {
        self.expand_table(tid, rid);
        proof {
            lemma_expand_entry(old(self).alloc_m(), tid as nat + 1, self.available@.len(), tid as int, rid as int);
        }
        let ghost mid = self.allocation@;
        let ghost e = self.alloc_m();
        let v = self.allocation[tid][rid] + delta;
        self.allocation[tid].set(rid, v);
        proof {
            assert(self.allocation@[tid as int]@ =~= mid[tid as int]@.update(rid as int, v));
            assert forall|k: int| 0 <= k < mid.len() implies #[trigger] self.alloc_m()[k] == set_entry(e, tid as int, rid as int, v)[k] by {
                if k != tid {
                    assert(self.allocation@[k]@ == mid[k]@);
                }
            }
            assert(self.alloc_m() =~= set_entry(e, tid as int, rid as int, v));
            assert forall|k: int| 0 <= k < self.allocation@.len() implies (#[trigger] self.allocation@[k])@.len() >= self.available@.len() by {
                assert(self.alloc_m()[k] == self.allocation@[k]@);
            }
            assert forall|k: int| 0 <= k < self.need@.len() implies (#[trigger] self.need@[k])@.len() >= self.available@.len() by {
                assert(self.need_m()[k] == self.need@[k]@);
            }
            assert(self.alloc_m() =~= add_entry(
                old(self).alloc_m(), tid as nat, rid as nat, old(self).available@.len(), delta as int));
        }
    }

    /// Adds `delta` to the units of resource `rid` thread `tid` waits for,
    /// growing the matrices first.
    pub fn add_need(&mut self, tid: usize, rid: usize, delta: i32)
        requires
            old(self).wf(),
            tid < usize::MAX,
            rid < old(self).available@.len(),
            i32::MIN <= entry(old(self).need_m(), tid as int, rid as int) + delta <= i32::MAX,
        ensures
            final(self).tables_cover(),
            final(self).available == old(self).available,
            final(self).alloc_m() == expand(
                old(self).alloc_m(),
                tid as nat + 1,
                old(self).available@.len(),
            ),
            final(self).need_m() == add_entry(
                old(self).need_m(),
                tid as nat,
                rid as nat,
                old(self).available@.len(),
                delta as int,
            ),
    {
        self.expand_table(tid, rid);
        proof {
            lemma_expand_entry(old(self).need_m(), tid as nat + 1, self.available@.len(), tid as int, rid as int);
        }
        let ghost mid = self.need@;
        let ghost e = self.need_m();
        let v = self.need[tid][rid] + delta;
        self.need[tid].set(rid, v);
        proof {
            assert(self.need@[tid as int]@ =~= mid[tid as int]@.update(rid as int, v));
            assert forall|k: int| 0 <= k < mid.len() implies #[trigger] self.need_m()[k] == set_entry(e, tid as int, rid as int, v)[k] by {
                if k != tid {
                    assert(self.need@[k]@ == mid[k]@);
                }
            }
            assert(self.need_m() =~= set_entry(e, tid as int, rid as int, v));
            assert forall|k: int| 0 <= k < self.allocation@.len() implies (#[trigger] self.allocation@[k])@.len() >= self.available@.len() by {
                assert(self.alloc_m()[k] == self.allocation@[k]@);
            }
            assert forall|k: int| 0 <= k < self.need@.len() implies (#[trigger] self.need@[k])@.len() >= self.available@.len() by {
                assert(self.need_m()[k] == self.need@[k]@);
            }
            assert(self.need_m() =~= add_entry(
                old(self).need_m(), tid as nat, rid as nat, old(self).available@.len(), delta as int));
        }
    }
}

/// Growing a matrix keeps every cell and fills the new ones with zero.
pub proof fn lemma_expand_entry(m: Seq<Seq<i32>>, rows: nat, cols: nat, i: int, j: int)
    requires
        0 <= i < rows,
        0 <= j < cols,
    ensures
        i < expand(m, rows, cols).len(),
        j < expand(m, rows, cols)[i].len(),
        expand(m, rows, cols)[i][j] as int == entry(m, i, j),
{
    let r = if i < m.len() { m[i] } else { Seq::<i32>::empty() };
    if j < r.len() {
    } else {
        assert(pad_row(r, cols)[j] == zeros((cols - r.len()) as nat)[j - r.len()]);
    }
}

/// `row[j] <= work[j]` for every resource `j < r`.
pub open spec fn fits(row: Seq<i32>, work: Seq<i128>, r: nat) -> bool {
    forall|j: int| 0 <= j < r ==> (#[trigger] row[j]) as int <= work[j] as int
}

/// The sum over `order` extended by `x` adds row `x`.
pub proof fn lemma_col_sum_push(alloc: Seq<Seq<i32>>, order: Seq<int>, x: int, j: int)
    ensures
        col_sum(alloc, order.push(x), j) == col_sum(alloc, order, j) + alloc[x][j] as int,
{
    assert(order.push(x).drop_last() =~= order);
}

/// Column sums add up over a concatenation.
pub proof fn lemma_col_sum_append(alloc: Seq<Seq<i32>>, a: Seq<int>, b: Seq<int>, j: int)
    ensures
        col_sum(alloc, a + b, j) == col_sum(alloc, a, j) + col_sum(alloc, b, j),
    decreases b.len(),
{
    if b.len() == 0 {
        assert(a + b =~= a);
    } else {
        lemma_col_sum_append(alloc, a, b.drop_last(), j);
        assert((a + b).drop_last() =~= a + b.drop_last());
    }
}

/// A column sum over `order` stays within what `order.len()` 32-bit values can reach.
pub proof fn lemma_col_sum_bound(alloc: Seq<Seq<i32>>, order: Seq<int>, j: int)
    ensures
        -(order.len() * 2147483648) <= col_sum(alloc, order, j) <= order.len() * 2147483648,
    decreases order.len(),
{
    if order.len() > 0 {
        lemma_col_sum_bound(alloc, order.drop_last(), j);
    }
}

/// Over rows holding nothing negative, a column sum is never negative.
pub proof fn lemma_col_sum_nonneg(alloc: Seq<Seq<i32>>, order: Seq<int>, n: nat, cols: nat, j: int)
    requires
        nonneg_matrix(alloc, n, cols),
        0 <= j < cols,
        forall|p: int| 0 <= p < order.len() ==> 0 <= #[trigger] order[p] < n,
    ensures
        col_sum(alloc, order, j) >= 0,
    decreases order.len(),
{
    if order.len() > 0 {
        let o = order.drop_last();
        assert forall|p: int| 0 <= p < o.len() implies 0 <= #[trigger] o[p] < n by {
            assert(o[p] == order[p]);
        }
        lemma_col_sum_nonneg(alloc, o, n, cols, j);
        assert(alloc[order.last()][j] >= 0);
    }
}

/// A sequence of `n` distinct values taken from `0..n` holds every value of `0..n`.
pub proof fn lemma_permutation_contains(order: Seq<int>, n: nat, x: int)
    requires
        order.len() == n,
        order.no_duplicates(),
        forall|p: int| 0 <= p < n ==> 0 <= #[trigger] order[p] < n,
        0 <= x < n,
    ensures
        order.contains(x),
{
    broadcast use vstd::seq_lib::seq_to_set_is_finite;
    order.unique_seq_to_set();
    vstd::set_lib::lemma_int_range(0, n as int);
    let range = vstd::set_lib::set_int_range(0, n as int);
    assert forall|y: int| order.to_set().contains(y) implies range.contains(y) by {
        let p = choose|p: int| 0 <= p < order.len() && order[p] == y;
    }
    vstd::set_lib::lemma_subset_equality(order.to_set(), range);
    assert(range.contains(x));
    assert(order.to_set().contains(x));
}

/// The position in the old order of the thread standing at position `p` once
/// the thread at position `q` has been moved forward to position `m`.
pub open spec fn moved_index(p: int, m: int, q: int) -> int {
    if p < m || p > q {
        p
    } else if p == m {
        q
    } else {
        p - 1
    }
}

/// Exchange step of the safety argument: if a safe order starts with `g`,
/// and thread `t`, not in `g`, can finish right after `g`, then some safe
/// order starts with `g` followed by `t`.
pub proof fn lemma_exchange(
    avail: Seq<i32>,
    alloc: Seq<Seq<i32>>,
    need: Seq<Seq<i32>>,
    n: nat,
    order: Seq<int>,
    g: Seq<int>,
    t: int,
)
    requires
        is_safe_sequence(avail, alloc, need, n, order),
        g.len() < n,
        order.take(g.len() as int) == g,
        0 <= t < n,
        !g.contains(t),
        nonneg_matrix(alloc, n, avail.len()),
        forall|j: int|
            0 <= j < avail.len() ==> #[trigger] need[t][j] <= avail[j] + col_sum(alloc, g, j),
    ensures
        exists|order2: Seq<int>|
            is_safe_sequence(avail, alloc, need, n, order2) && order2.take(g.len() + 1int) == g.push(
                t,
            ),
{
    let m = g.len() as int;
    lemma_permutation_contains(order, n, t);
    let q = choose|q: int| 0 <= q < order.len() && order[q] == t;
    if q < m {
        assert(g[q] == order[q]);
        assert(g.contains(t));
    }
    let order2 = Seq::new(n, |p: int| order[moved_index(p, m, q)]);
    assert forall|i: int, k: int| 0 <= i < n && 0 <= k < n && i != k implies order2[i] != order2[k] by {
        assert(moved_index(i, m, q) != moved_index(k, m, q));
    }
    assert(order2.no_duplicates());
    assert forall|p: int| 0 <= p < n implies 0 <= #[trigger] order2[p] < n by {
        assert(order2[p] == order[moved_index(p, m, q)]);
    }
    assert(order2.take(m + 1) =~= g.push(t));
    assert forall|p: int| 0 <= p < n implies #[trigger] can_finish_at(avail, alloc, need, order2, p) by {
        if p < m {
            assert(order2.take(p) =~= order.take(p));
            assert(can_finish_at(avail, alloc, need, order, p));
        } else if p == m {
            assert(order2.take(p) =~= g);
        } else if p <= q {
            // t moved in front of the threads between m and q: they see more.
            assert(can_finish_at(avail, alloc, need, order, p - 1));
            let mid = order.subrange(m, p - 1);
            assert(order.take(p - 1) =~= g + mid);
            assert(order2.take(p) =~= g.push(t) + mid);
            assert forall|j: int| 0 <= j < avail.len() implies #[trigger] need[order2[p]][j] <= avail[j]
                + col_sum(alloc, order2.take(p), j) by {
                lemma_col_sum_append(alloc, g, mid, j);
                lemma_col_sum_append(alloc, g.push(t), mid, j);
                lemma_col_sum_push(alloc, g, t, j);
                assert(alloc[t][j] >= 0);
            }
        } else {
            // past q the same threads have finished, in another order.
            assert(can_finish_at(avail, alloc, need, order, p));
            let mid = order.subrange(m, q);
            let rest = order.subrange(q + 1, p);
            assert(order.take(p) =~= (g + mid).push(t) + rest);
            assert(order2.take(p) =~= (g.push(t) + mid) + rest);
            assert forall|j: int| 0 <= j < avail.len() implies #[trigger] need[order2[p]][j] <= avail[j]
                + col_sum(alloc, order2.take(p), j) by {
                lemma_col_sum_append(alloc, (g + mid).push(t), rest, j);
                lemma_col_sum_append(alloc, g.push(t) + mid, rest, j);
                lemma_col_sum_push(alloc, g + mid, t, j);
                lemma_col_sum_append(alloc, g, mid, j);
                lemma_col_sum_append(alloc, g.push(t), mid, j);
                lemma_col_sum_push(alloc, g, t, j);
            }
        }
    }
    assert(is_safe_sequence(avail, alloc, need, n, order2));
}

/// Whether `row[j] <= work[j]` for every resource `j < r`.
fn row_fits(row: &Vec<i32>, work: &Vec<i128>, r: usize) -> (b: bool)
    requires
        row@.len() >= r,
        work@.len() >= r,
    ensures
        b == fits(row@, work@, r as nat),
{
    let mut j: usize = 0;
    while j < r
        invariant
            j <= r,
            row@.len() >= r,
            work@.len() >= r,
            forall|k: int| 0 <= k < j ==> (#[trigger] row@[k]) as int <= work@[k] as int,
        decreases r - j,
    {
        if (row[j] as i128) > work[j] {
            return false;
        }
        j += 1;
    }
    true
}

/// The free units as wide integers, so that adding returned units never overflows.
fn widen(v: &Vec<i32>) -> (w: Vec<i128>)
    ensures
        w@.len() == v@.len(),
        forall|j: int| 0 <= j < v@.len() ==> #[trigger] w@[j] as int == v@[j] as int,
{
    let mut w: Vec<i128> = Vec::new();
    let mut j: usize = 0;
    while j < v.len()
        invariant
            j <= v@.len(),
            w@.len() == j,
            forall|k: int| 0 <= k < j ==> #[trigger] w@[k] as int == v@[k] as int,
        decreases v@.len() - j,
    {
        w.push(v[j] as i128);
        j += 1;
    }
    w
}

/// `n` times `false`.
fn all_false(n: usize) -> (v: Vec<bool>)
    ensures
        v@.len() == n,
        forall|i: int| 0 <= i < n ==> !(#[trigger] v@[i]),
{
    let mut v: Vec<bool> = Vec::new();
    while v.len() < n
        invariant
            v@.len() <= n,
            forall|i: int| 0 <= i < v@.len() ==> !(#[trigger] v@[i]),
        decreases n - v.len(),
    {
        v.push(false);
    }
    v
}

/// Adds `row[j]` to `work[j]` for every resource `j < r`.
fn add_row(work: &mut Vec<i128>, row: &Vec<i32>, r: usize)
    requires
        old(work)@.len() == r,
        row@.len() >= r,
        forall|j: int|
            0 <= j < r ==> -0x1_0000_0000_0000_0000_0000_0000 <= #[trigger] old(work)@[j]
                <= 0x1_0000_0000_0000_0000_0000_0000,
    ensures
        final(work)@.len() == r,
        forall|j: int|
            0 <= j < r ==> #[trigger] final(work)@[j] as int == old(work)@[j] as int + row@[j] as int,
{
    let mut j: usize = 0;
    while j < r
        invariant
            j <= r,
            work@.len() == r,
            row@.len() >= r,
            forall|k: int|
                0 <= k < j ==> #[trigger] work@[k] as int == old(work)@[k] as int + row@[k] as int,
            forall|k: int| j <= k < r ==> #[trigger] work@[k] == old(work)@[k],
            forall|k: int|
                0 <= k < r ==> -0x1_0000_0000_0000_0000_0000_0000 <= #[trigger] old(work)@[k]
                    <= 0x1_0000_0000_0000_0000_0000_0000,
        decreases r - j,
    {
        let v = work[j] + row[j] as i128;
        work.set(j, v);
        j += 1;
    }
}

impl Banker {
    /// The first thread, in index order, that has not finished and whose
    /// need `work` covers; `None` when there is none.
    fn find_candidate(&self, work: &Vec<i128>, finish: &Vec<bool>) -> (r: Option<usize>)
        requires
            self.tables_cover(),
            work@.len() == self.available@.len(),
            finish@.len() == self.allocation@.len(),
        ensures
            match r {
                Some(i) => {
                    &&& i < self.allocation@.len()
                    &&& !finish@[i as int]
                    &&& fits(self.need_m()[i as int], work@, self.available@.len())
                    &&& forall|k: int|
                        0 <= k < i ==> #[trigger] finish@[k] || !fits(
                            self.need_m()[k],
                            work@,
                            self.available@.len(),
                        )
                },
                None => forall|k: int|
                    0 <= k < self.allocation@.len() ==> #[trigger] finish@[k] || !fits(
                        self.need_m()[k],
                        work@,
                        self.available@.len(),
                    ),
            },
    {
        let n = self.allocation.len();
        let r = self.available.len();
        let mut i: usize = 0;
        while i < n
            invariant
                i <= n,
                n == self.allocation@.len(),
                r == self.available@.len(),
                self.tables_cover(),
                work@.len() == r,
                finish@.len() == n,
                forall|k: int|
                    0 <= k < i ==> #[trigger] finish@[k] || !fits(self.need_m()[k], work@, r as nat),
            decreases n - i,
        {
            if !finish[i] {
                assert(self.need_m()[i as int] == self.need@[i as int]@);
                if row_fits(&self.need[i], work, r) {
                    return Some(i);
                }
            }
            i += 1;
        }
        None
    }

    /// The banker's safety check: repeatedly lets the first thread whose need
    /// the free units cover run to the end and return what it holds; the
    /// state is safe when every thread gets to run.
    pub fn banker_check(&self) -> (res: bool)
        requires
            self.tables_cover(),
        ensures
            res == self.first_fit_passes(),
            res ==> self.is_safe(),
            self.alloc_nonneg() && self.is_safe() ==> res,
    {
        let resource_count = self.available.len();
        let thread_count = self.allocation.len();
        let mut cnt: usize = 0;
        let mut work = widen(&self.available);
        let mut finish = all_false(thread_count);
        let ghost avail = self.available@;
        let ghost alloc = self.alloc_m();
        let ghost need = self.need_m();
        let ghost n = thread_count as nat;
        let ghost mut g: Seq<int> = Seq::empty();
        proof {
            assert forall|j: int| 0 <= j < resource_count implies #[trigger] work@[j] as int == avail[j]
                + col_sum(alloc, g, j) by {}
            if self.alloc_nonneg() && self.is_safe() {
                let order = choose|order: Seq<int>| is_safe_sequence(avail, alloc, need, n, order);
                assert(order.take(0) =~= g);
            }
        }
        while cnt < thread_count
            invariant
                self.tables_cover(),
                avail == self.available@,
                alloc == self.alloc_m(),
                need == self.need_m(),
                n == thread_count,
                thread_count == self.allocation@.len(),
                resource_count == avail.len(),
                cnt == g.len(),
                cnt <= thread_count,
                g == first_fit_order(avail, alloc, need, n, cnt as nat),
                finish@.len() == n,
                forall|i: int| 0 <= i < n ==> (#[trigger] finish@[i] <==> g.contains(i)),
                g.no_duplicates(),
                forall|p: int| 0 <= p < g.len() ==> 0 <= #[trigger] g[p] < n,
                forall|p: int| 0 <= p < g.len() ==> #[trigger] can_finish_at(avail, alloc, need, g, p),
                work@.len() == resource_count,
                forall|j: int|
                    0 <= j < resource_count ==> #[trigger] work@[j] as int == avail[j] + col_sum(
                        alloc,
                        g,
                        j,
                    ),
                self.alloc_nonneg() && self.is_safe() ==> exists|order: Seq<int>|
                    is_safe_sequence(avail, alloc, need, n, order) && order.take(g.len() as int) == g,
            decreases thread_count - cnt,
        {
            let found = self.find_candidate(&work, &finish);
            match found {
                None => {
                    proof {
                        if self.alloc_nonneg() && self.is_safe() {
                            let order = choose|order: Seq<int>|
                                is_safe_sequence(avail, alloc, need, n, order) && order.take(
                                    g.len() as int,
                                ) == g;
                            let m = g.len() as int;
                            let t = order[m];
                            assert(can_finish_at(avail, alloc, need, order, m));
                            if g.contains(t) {
                                let p = choose|p: int| 0 <= p < g.len() && g[p] == t;
                                assert(order[p] == g[p]);
                            }
                            assert(finish@[t] || !fits(need[t], work@, resource_count as nat));
                            assert forall|j: int| 0 <= j < resource_count implies (#[trigger] need[t][j]) as int
                                <= work@[j] as int by {
                                assert(need[order[m]][j] <= avail[j] + col_sum(alloc, order.take(m), j));
                            }
                            assert(fits(need[t], work@, resource_count as nat));
                        }
                        assert forall|k: int| 0 <= k < n implies !(!g.contains(k) && #[trigger] covered(
                            avail,
                            alloc,
                            need,
                            g,
                            k,
                        )) by {
                            if !g.contains(k) && covered(avail, alloc, need, g, k) {
                                assert(!finish@[k]);
                                assert forall|j: int| 0 <= j < resource_count implies (#[trigger] need[k][j]) as int
                                    <= work@[j] as int by {
                                    assert(need[k][j] <= avail[j] + col_sum(alloc, g, j));
                                }
                                assert(fits(need[k], work@, resource_count as nat));
                            }
                        }
                        lemma_no_candidate(avail, alloc, need, n, g, 0);
                        lemma_first_fit_stuck(avail, alloc, need, n, cnt as nat, n);
                    }
                    return false;
                },
                Some(i) => {
                    let ghost gi = g.push(i as int);
                    proof {
                        assert(!g.contains(i as int));
                        assert forall|j: int| 0 <= j < resource_count implies -0x1_0000_0000_0000_0000_0000_0000
                            <= #[trigger] work@[j] <= 0x1_0000_0000_0000_0000_0000_0000 by {
                            lemma_col_sum_bound(alloc, g, j);
                            assert(g.len() * 2147483648 <= 0x1_0000_0000_0000_0000_0000_0000 - 0x1_0000_0000)
                                by (nonlinear_arith)
                                requires
                                    g.len() <= usize::MAX,
                            ;
                        }
                        if self.alloc_nonneg() && self.is_safe() {
                            let order = choose|order: Seq<int>|
                                is_safe_sequence(avail, alloc, need, n, order) && order.take(
                                    g.len() as int,
                                ) == g;
                            assert forall|j: int| 0 <= j < avail.len() implies #[trigger] need[i as int][j]
                                <= avail[j] + col_sum(alloc, g, j) by {
                                assert(need[i as int][j] as int <= work@[j] as int);
                            }
                            lemma_exchange(avail, alloc, need, n, order, g, i as int);
                        }
                        assert(self.allocation@[i as int]@ == alloc[i as int]);
                    }
                    let ghost w0 = work@;
                    let ghost finish_before = finish@;
                    add_row(&mut work, &self.allocation[i], resource_count);
                    finish.set(i, true);
                    cnt += 1;
                    proof {
                        assert forall|j: int| 0 <= j < resource_count implies #[trigger] work@[j] as int
                            == avail[j] + col_sum(alloc, gi, j) by {
                            lemma_col_sum_push(alloc, g, i as int, j);
                        }
                        assert forall|p: int| 0 <= p < gi.len() implies #[trigger] can_finish_at(
                            avail,
                            alloc,
                            need,
                            gi,
                            p,
                        ) by {
                            if p < g.len() {
                                assert(gi.take(p) =~= g.take(p));
                                assert(can_finish_at(avail, alloc, need, g, p));
                            } else {
                                assert(gi.take(p) =~= g);
                                assert forall|j: int| 0 <= j < avail.len() implies #[trigger] need[gi[p]][j]
                                    <= avail[j] + col_sum(alloc, gi.take(p), j) by {
                                    assert(need[i as int][j] as int <= w0[j] as int);
                                }
                            }
                        }
                        assert forall|k: int| 0 <= k < n implies (#[trigger] finish@[k] <==> gi.contains(k)) by {
                            if k == i {
                                assert(gi[g.len() as int] == k);
                            } else {
                                if gi.contains(k) {
                                    let p = choose|p: int| 0 <= p < gi.len() && gi[p] == k;
                                    assert(g[p] == k);
                                }
                                if g.contains(k) {
                                    let p = choose|p: int| 0 <= p < g.len() && g[p] == k;
                                    assert(gi[p] == k);
                                }
                            }
                        }
                        if self.alloc_nonneg() && self.is_safe() {
                            let o2 = choose|o: Seq<int>|
                                is_safe_sequence(avail, alloc, need, n, o) && o.take(g.len() + 1int)
                                    == g.push(i as int);
                            assert(o2.take(gi.len() as int) == gi);
                        }
                        assert(covered(avail, alloc, need, g, i as int)) by {
                            assert forall|j: int| 0 <= j < avail.len() implies #[trigger] need[i as int][j]
                                <= avail[j] + col_sum(alloc, g, j) by {
                                assert(need[i as int][j] as int <= w0[j] as int);
                            }
                        }
                        assert forall|k: int| 0 <= k < i implies !(!g.contains(k) && #[trigger] covered(
                            avail,
                            alloc,
                            need,
                            g,
                            k,
                        )) by {
                            if !g.contains(k) && covered(avail, alloc, need, g, k) {
                                assert(!finish_before[k]);
                                assert forall|j: int| 0 <= j < resource_count implies (#[trigger] need[k][j]) as int
                                    <= w0[j] as int by {
                                    assert(need[k][j] <= avail[j] + col_sum(alloc, g, j));
                                }
                                assert(fits(need[k], w0, resource_count as nat));
                            }
                        }
                        lemma_first_candidate_is(avail, alloc, need, n, g, 0, i as int);
                        g = gi;
                    }
                },
            }
        }
        proof {
            assert forall|p: int| 0 <= p < n implies 0 <= #[trigger] g[p] < n by {}
            assert(is_safe_sequence(avail, alloc, need, n, g));
        }
        true
    }
}

/// A thread that waits for no unit of resource `r` asks for one unit of it
/// while a unit is free: a safe state stays safe with the new request.
pub proof fn lemma_request_of_free_unit_keeps_safe(
    avail: Seq<i32>,
    alloc: Seq<Seq<i32>>,
    need: Seq<Seq<i32>>,
    n: nat,
    t: int,
    r: int,
)
    requires
        is_safe_state(avail, alloc, need, n),
        nonneg_matrix(alloc, n, avail.len()),
        0 <= t < n,
        0 <= r < avail.len(),
        need.len() == n,
        need[t].len() >= avail.len(),
        need[t][r] == 0,
        avail[r] >= 1,
    ensures
        is_safe_state(avail, alloc, set_entry(need, t, r, 1), n),
{
    let order = choose|order: Seq<int>| is_safe_sequence(avail, alloc, need, n, order);
    let need2 = set_entry(need, t, r, 1);
    assert forall|p: int| 0 <= p < n implies #[trigger] can_finish_at(avail, alloc, need2, order, p) by {
        assert(can_finish_at(avail, alloc, need, order, p));
        assert forall|j: int| 0 <= j < avail.len() implies #[trigger] need2[order[p]][j] <= avail[j]
            + col_sum(alloc, order.take(p), j) by {
            assert(need[order[p]][j] <= avail[j] + col_sum(alloc, order.take(p), j));
            if order[p] == t && j == r {
                let pre = order.take(p);
                assert forall|k: int| 0 <= k < pre.len() implies 0 <= #[trigger] pre[k] < n by {
                    assert(pre[k] == order[k]);
                }
                lemma_col_sum_nonneg(alloc, pre, n, avail.len(), j);
            }
        }
    }
    assert(is_safe_sequence(avail, alloc, need2, n, order));
}

/// Adding `delta` to a cell and then `-delta` to the same cell leaves the
/// matrix as it was, apart from the zero rows and columns added on the way.
pub proof fn lemma_add_entry_undone(m: Seq<Seq<i32>>, tid: nat, rid: nat, cols: nat, delta: int)
    requires
        rid < cols,
        i32::MIN <= entry(m, tid as int, rid as int) + delta <= i32::MAX,
    ensures
        add_entry(add_entry(m, tid, rid, cols, delta), tid, rid, cols, -delta) == expand(
            m,
            tid + 1,
            cols,
        ),
{
    let e = expand(m, tid + 1, cols);
    lemma_expand_entry(m, tid + 1, cols, tid as int, rid as int);
    let m1 = add_entry(m, tid, rid, cols, delta);
    assert(expand(m1, tid + 1, cols) =~= m1) by {
        assert forall|i: int| 0 <= i < m1.len() implies #[trigger] pad_row(m1[i], cols) == m1[i] by {
            assert(m1[i].len() >= cols);
        }
    }
    assert(entry(m1, tid as int, rid as int) == entry(m, tid as int, rid as int) + delta);
    let m2 = add_entry(m1, tid, rid, cols, -delta);
    assert(m2[tid as int] =~= e[tid as int]);
    assert(m2 =~= e);
}

/// Growing an already grown matrix changes nothing, and adding to a cell of
/// the grown matrix is adding to the same cell of the matrix before growing.
pub proof fn lemma_add_entry_expanded(m: Seq<Seq<i32>>, tid: nat, rid: nat, cols: nat, delta: int)
    requires
        rid < cols,
    ensures
        expand(expand(m, tid + 1, cols), tid + 1, cols) == expand(m, tid + 1, cols),
        add_entry(expand(m, tid + 1, cols), tid, rid, cols, delta) == add_entry(m, tid, rid, cols, delta),
{
    let e = expand(m, tid + 1, cols);
    assert forall|i: int| 0 <= i < e.len() implies #[trigger] pad_row(e[i], cols) == e[i] by {
        assert(e[i].len() >= cols);
    }
    assert(expand(e, tid + 1, cols) =~= e);
    lemma_expand_entry(m, tid + 1, cols, tid as int, rid as int);
    assert(entry(e, tid as int, rid as int) == entry(m, tid as int, rid as int));
}

/// The cell a value was added to holds the sum, and the grown matrix has
/// the row and the columns.
pub proof fn lemma_add_entry_entry(m: Seq<Seq<i32>>, tid: nat, rid: nat, cols: nat, delta: int)
    requires
        rid < cols,
    ensures
        entry(add_entry(m, tid, rid, cols, delta), tid as int, rid as int) == ((entry(m, tid as int, rid as int) + delta) as i32) as int,
        add_entry(m, tid, rid, cols, delta).len() == expand(m, tid + 1, cols).len(),
        add_entry(m, tid, rid, cols, delta).len() > tid,
{
    lemma_expand_entry(m, tid + 1, cols, tid as int, rid as int);
}

/// Column sums only read the rows listed in the order.
pub proof fn lemma_col_sum_agree(a: Seq<Seq<i32>>, b: Seq<Seq<i32>>, order: Seq<int>, j: int)
    requires
        forall|p: int| 0 <= p < order.len() ==> a[#[trigger] order[p]][j] == b[order[p]][j],
    ensures
        col_sum(a, order, j) == col_sum(b, order, j),
    decreases order.len(),
{
    if order.len() > 0 {
        let o = order.drop_last();
        assert forall|p: int| 0 <= p < o.len() implies a[#[trigger] o[p]][j] == b[o[p]][j] by {
            assert(o[p] == order[p]);
        }
        lemma_col_sum_agree(a, b, o, j);
        assert(a[order[order.len() - 1]][j] == b[order[order.len() - 1]][j]);
    }
}

/// Lazy growth of the tables does not make a safe state unsafe: with
/// nothing negative free or held, adding threads that hold and wait for
/// nothing keeps a safe state safe (they can run last).
pub proof fn lemma_expand_keeps_safe(
    avail: Seq<i32>,
    alloc: Seq<Seq<i32>>,
    need: Seq<Seq<i32>>,
    n: nat,
    rows: nat,
)
    requires
        is_safe_state(avail, alloc, need, n),
        alloc.len() == n,
        need.len() == n,
        forall|i: int| 0 <= i < n ==> (#[trigger] alloc[i]).len() >= avail.len(),
        forall|i: int| 0 <= i < n ==> (#[trigger] need[i]).len() >= avail.len(),
        nonneg_matrix(alloc, n, avail.len()),
        forall|j: int| 0 <= j < avail.len() ==> avail[j] >= 0,
    ensures
        is_safe_state(
            avail,
            expand(alloc, rows, avail.len()),
            expand(need, rows, avail.len()),
            if n >= rows { n } else { rows },
        ),
{
    let r = avail.len();
    let m = if n >= rows { n } else { rows };
    let a2 = expand(alloc, rows, r);
    let n2 = expand(need, rows, r);
    let order = choose|order: Seq<int>| is_safe_sequence(avail, alloc, need, n, order);
    let extra = Seq::new((m - n) as nat, |k: int| n + k);
    let order2 = order + extra;
    assert(pad_row(Seq::<i32>::empty(), r) =~= zeros(r));
    assert forall|i: int| 0 <= i < n implies #[trigger] a2[i] == alloc[i] && n2[i] == need[i] by {}
    assert(nonneg_matrix(a2, m, r)) by {
        assert forall|i: int, j: int| 0 <= i < m && 0 <= j < r implies #[trigger] a2[i][j] >= 0 by {
            if i < n {
                assert(a2[i] == alloc[i]);
            }
        }
    }
    assert forall|p: int| 0 <= p < m implies 0 <= #[trigger] order2[p] < m by {
        if p < n {
            assert(order2[p] == order[p]);
        } else {
            assert(order2[p] == extra[p - n]);
        }
    }
    assert forall|i: int, k: int| 0 <= i < m && 0 <= k < m && i != k implies order2[i] != order2[k] by {
        if i < n && k < n {
            assert(order2[i] == order[i] && order2[k] == order[k]);
        } else if i < n {
            assert(order2[i] == order[i] && order2[k] == extra[k - n]);
        } else if k < n {
            assert(order2[k] == order[k] && order2[i] == extra[i - n]);
        } else {
            assert(order2[i] == extra[i - n] && order2[k] == extra[k - n]);
        }
    }
    assert(order2.no_duplicates());
    assert forall|p: int| 0 <= p < m implies #[trigger] can_finish_at(avail, a2, n2, order2, p) by {
        let pre = order2.take(p);
        assert forall|q: int| 0 <= q < pre.len() implies 0 <= #[trigger] pre[q] < m by {
            assert(pre[q] == order2[q]);
        }
        if p < n {
            assert(pre =~= order.take(p));
            assert(order2[p] == order[p]);
            assert(can_finish_at(avail, alloc, need, order, p));
            assert forall|j: int| 0 <= j < r implies #[trigger] n2[order2[p]][j] <= avail[j] + col_sum(a2, pre, j) by {
                assert forall|q: int| 0 <= q < pre.len() implies a2[#[trigger] pre[q]][j] == alloc[pre[q]][j] by {
                    assert(pre[q] == order[q]);
                }
                lemma_col_sum_agree(a2, alloc, pre, j);
            }
        } else {
            assert(order2[p] == p);
            assert forall|j: int| 0 <= j < r implies #[trigger] n2[order2[p]][j] <= avail[j] + col_sum(a2, pre, j) by {
                lemma_col_sum_nonneg(a2, pre, m, r, j);
                assert(n2[p] == zeros(r));
            }
        }
    }
    assert(is_safe_sequence(avail, a2, n2, m, order2));
}

/// Growing a matrix changes no cell: cells it adds read as zero, as missing cells do.
pub proof fn lemma_entry_expand(m: Seq<Seq<i32>>, rows: nat, cols: nat, i: int, j: int)
    ensures
        entry(expand(m, rows, cols), i, j) == entry(m, i, j),
{
    let e = expand(m, rows, cols);
    if 0 <= i < e.len() {
        let r = if i < m.len() { m[i] } else { Seq::<i32>::empty() };
        if 0 <= j < e[i].len() && j >= r.len() {
            assert(pad_row(r, cols)[j] == zeros((cols - r.len()) as nat)[j - r.len()]);
        }
    }
}

/// Adding `delta` to cell `(tid, rid)` changes that cell by `delta` and no other.
pub proof fn lemma_entry_add_entry(m: Seq<Seq<i32>>, tid: nat, rid: nat, cols: nat, delta: int, i: int, j: int)
    requires
        rid < cols,
        i32::MIN <= entry(m, tid as int, rid as int) + delta <= i32::MAX,
    ensures
        entry(add_entry(m, tid, rid, cols, delta), i, j) == if i == tid && j == rid {
            entry(m, i, j) + delta
        } else {
            entry(m, i, j)
        },
{
    lemma_expand_entry(m, tid + 1, cols, tid as int, rid as int);
    lemma_entry_expand(m, tid + 1, cols, i, j);
}

/// A need added and then withdrawn: the first step changes exactly the one
/// need cell by `delta`; after the second every cell of both matrices, and
/// the free units, are as they were (cells added by growth read as zero).
pub proof fn lemma_add_need_then_withdraw(b0: Banker, b1: Banker, b2: Banker, tid: nat, rid: nat, delta: int)
    requires
        rid < b0.available@.len(),
        i32::MIN <= entry(b0.need_m(), tid as int, rid as int) + delta <= i32::MAX,
        b1.available == b0.available,
        b1.alloc_m() == expand(b0.alloc_m(), tid + 1, b0.available@.len()),
        b1.need_m() == add_entry(b0.need_m(), tid, rid, b0.available@.len(), delta),
        b2.available == b1.available,
        b2.alloc_m() == expand(b1.alloc_m(), tid + 1, b1.available@.len()),
        b2.need_m() == add_entry(b1.need_m(), tid, rid, b1.available@.len(), -delta),
    ensures
        forall|i: int, j: int| #[trigger] entry(b1.need_m(), i, j) == if i == tid && j == rid {
            entry(b0.need_m(), i, j) + delta
        } else {
            entry(b0.need_m(), i, j)
        },
        forall|i: int, j: int| #[trigger] entry(b1.alloc_m(), i, j) == entry(b0.alloc_m(), i, j),
        forall|i: int, j: int| #[trigger] entry(b2.need_m(), i, j) == entry(b0.need_m(), i, j),
        forall|i: int, j: int| #[trigger] entry(b2.alloc_m(), i, j) == entry(b0.alloc_m(), i, j),
        b2.available == b0.available,
{
    let r = b0.available@.len();
    assert forall|i: int, j: int| #[trigger] entry(b1.need_m(), i, j) == if i == tid && j == rid {
        entry(b0.need_m(), i, j) + delta
    } else {
        entry(b0.need_m(), i, j)
    } by {
        lemma_entry_add_entry(b0.need_m(), tid, rid, r, delta, i, j);
    }
    assert forall|i: int, j: int| #[trigger] entry(b1.alloc_m(), i, j) == entry(b0.alloc_m(), i, j) by {
        lemma_entry_expand(b0.alloc_m(), tid + 1, r, i, j);
    }
    assert forall|i: int, j: int| #[trigger] entry(b2.need_m(), i, j) == entry(b0.need_m(), i, j) by {
        lemma_entry_add_entry(b0.need_m(), tid, rid, r, delta, tid as int, rid as int);
        lemma_entry_add_entry(b1.need_m(), tid, rid, r, -delta, i, j);
        lemma_entry_add_entry(b0.need_m(), tid, rid, r, delta, i, j);
    }
    assert forall|i: int, j: int| #[trigger] entry(b2.alloc_m(), i, j) == entry(b0.alloc_m(), i, j) by {
        lemma_entry_expand(b1.alloc_m(), tid + 1, r, i, j);
        lemma_entry_expand(b0.alloc_m(), tid + 1, r, i, j);
    }
}

/// `q` lists each of the threads `0..n` exactly once.
pub open spec fn is_permutation(q: Seq<int>, n: nat) -> bool {
    &&& q.len() == n
    &&& q.no_duplicates()
    &&& forall|p: int| 0 <= p < n ==> 0 <= #[trigger] q[p] < n
}

/// The matrix with its rows renamed: row `i` of the result is row `q[i]`.
pub open spec fn relabel(m: Seq<Seq<i32>>, q: Seq<int>) -> Seq<Seq<i32>> {
    Seq::new(q.len(), |i: int| m[q[i]])
}

/// The order `s` with every thread renamed by `q`.
pub open spec fn rename_order(s: Seq<int>, q: Seq<int>) -> Seq<int> {
    Seq::new(s.len(), |k: int| q[s[k]])
}

/// Summing a renamed matrix over an order is summing the matrix over the
/// renamed order.
proof fn lemma_col_sum_relabel(m: Seq<Seq<i32>>, q: Seq<int>, s: Seq<int>, j: int)
    requires
        forall|k: int| 0 <= k < s.len() ==> 0 <= #[trigger] s[k] < q.len(),
    ensures
        col_sum(relabel(m, q), s, j) == col_sum(m, rename_order(s, q), j),
    decreases s.len(),
{
    if s.len() > 0 {
        let s0 = s.drop_last();
        assert forall|k: int| 0 <= k < s0.len() implies 0 <= #[trigger] s0[k] < q.len() by {
            assert(s0[k] == s[k]);
        }
        lemma_col_sum_relabel(m, q, s0, j);
        assert(rename_order(s, q).drop_last() =~= rename_order(s0, q));
    }
}

/// If the renamed tables are safe, so are the tables themselves.
proof fn lemma_relabel_safe_back(
    avail: Seq<i32>,
    alloc: Seq<Seq<i32>>,
    need: Seq<Seq<i32>>,
    n: nat,
    q: Seq<int>,
)
    requires
        is_permutation(q, n),
        is_safe_state(avail, relabel(alloc, q), relabel(need, q), n),
    ensures
        is_safe_state(avail, alloc, need, n),
{
    let a2 = relabel(alloc, q);
    let n2 = relabel(need, q);
    let o2 = choose|o: Seq<int>| is_safe_sequence(avail, a2, n2, n, o);
    let o = rename_order(o2, q);
    assert forall|x: int, y: int| 0 <= x < n && 0 <= y < n && x != y implies o[x] != o[y] by {
        assert(o2[x] != o2[y]);
        assert(q[o2[x]] != q[o2[y]]);
    }
    assert(o.no_duplicates());
    assert forall|p: int| 0 <= p < n implies 0 <= #[trigger] o[p] < n by {
        assert(0 <= o2[p] < n);
    }
    assert forall|p: int| 0 <= p < n implies #[trigger] can_finish_at(avail, alloc, need, o, p) by {
        assert(can_finish_at(avail, a2, n2, o2, p));
        let pre = o2.take(p);
        assert forall|k: int| 0 <= k < pre.len() implies 0 <= #[trigger] pre[k] < q.len() by {
            assert(pre[k] == o2[k]);
        }
        assert forall|j: int| 0 <= j < avail.len() implies #[trigger] need[o[p]][j] <= avail[j]
            + col_sum(alloc, o.take(p), j) by {
            assert(n2[o2[p]][j] <= avail[j] + col_sum(a2, pre, j));
            lemma_col_sum_relabel(alloc, q, pre, j);
            assert(rename_order(pre, q) =~= o.take(p));
        }
    }
    assert(is_safe_sequence(avail, alloc, need, n, o));
}

/// Renaming the threads by a permutation neither makes a safe state unsafe
/// nor an unsafe one safe.
pub proof fn lemma_relabel_keeps_safety(
    avail: Seq<i32>,
    alloc: Seq<Seq<i32>>,
    need: Seq<Seq<i32>>,
    n: nat,
    q: Seq<int>,
)
    requires
        is_permutation(q, n),
        alloc.len() == n,
        need.len() == n,
    ensures
        is_safe_state(avail, relabel(alloc, q), relabel(need, q), n) == is_safe_state(avail, alloc, need, n),
{
    if is_safe_state(avail, relabel(alloc, q), relabel(need, q), n) {
        lemma_relabel_safe_back(avail, alloc, need, n, q);
    }
    if is_safe_state(avail, alloc, need, n) {
        let qi = Seq::new(n, |x: int| choose|i: int| 0 <= i < n && q[i] == x);
        assert forall|x: int| 0 <= x < n implies 0 <= #[trigger] qi[x] < n && q[qi[x]] == x by {
            lemma_permutation_contains(q, n, x);
            let i = choose|i: int| 0 <= i < q.len() && q[i] == x;
            assert(0 <= i < n && q[i] == x);
        }
        assert forall|x: int, y: int| 0 <= x < n && 0 <= y < n && x != y implies qi[x] != qi[y] by {
            assert(q[qi[x]] == x && q[qi[y]] == y);
        }
        assert(qi.no_duplicates());
        assert(relabel(relabel(alloc, q), qi) =~= alloc);
        assert(relabel(relabel(need, q), qi) =~= need);
        lemma_relabel_safe_back(avail, relabel(alloc, q), relabel(need, q), n, qi);
    }
}

/// The answer of the safety check does not depend on how the threads are
/// numbered: tables whose rows are the rows of `b` renamed by a permutation
/// hold nothing negative when `b` holds nothing negative, and are safe
/// exactly when `b` is; so `banker_check` answers alike on both.
pub proof fn lemma_banker_check_ignores_thread_order(b: Banker, c: Banker, q: Seq<int>)
    requires
        b.wf(),
        b.alloc_nonneg(),
        is_permutation(q, b.allocation@.len()),
        c.available@ == b.available@,
        c.alloc_m() == relabel(b.alloc_m(), q),
        c.need_m() == relabel(b.need_m(), q),
    ensures
        c.alloc_nonneg(),
        c.is_safe() == b.is_safe(),
{
    let n = b.allocation@.len();
    assert(c.allocation@.len() == c.alloc_m().len());
    assert(b.alloc_m().len() == n && b.need_m().len() == n);
    assert forall|i: int, j: int| 0 <= i < n && 0 <= j < c.available@.len() implies #[trigger] c.alloc_m()[i][j] >= 0 by {
        assert(c.alloc_m()[i] == b.alloc_m()[q[i]]);
        assert(0 <= q[i] < n);
    }
    lemma_relabel_keeps_safety(b.available@, b.alloc_m(), b.need_m(), n, q);
}

/// What booking a granted unit of `rid` to thread `tid` needs: consistent
/// tables, an existing resource, and counters that can move by one.
pub open spec fn grant_ready(b: Banker, tid: nat, rid: nat) -> bool {
    &&& b.wf()
    &&& tid < usize::MAX
    &&& rid < b.available@.len()
    &&& i32::MIN < b.available@[rid as int]
    &&& entry(b.alloc_m(), tid as int, rid as int) < i32::MAX
    &&& i32::MIN < entry(b.need_m(), tid as int, rid as int)
}

/// What booking a unit of `rid` given back by thread `tid` needs.
pub open spec fn release_ready(b: Banker, tid: nat, rid: nat) -> bool {
    &&& b.wf()
    &&& tid < usize::MAX
    &&& rid < b.available@.len()
    &&& b.available@[rid as int] < i32::MAX
    &&& i32::MIN < entry(b.alloc_m(), tid as int, rid as int)
}

/// What booking a unit of `rid` passed on by thread `tid` needs.
pub open spec fn pass_on_ready(b: Banker, tid: nat, rid: nat) -> bool {
    &&& b.wf()
    &&& tid < usize::MAX
    &&& rid < b.available@.len()
    &&& i32::MIN < entry(b.alloc_m(), tid as int, rid as int)
}

/// What booking a unit of `rid` received by waiting thread `tid` needs.
pub open spec fn take_over_ready(b: Banker, tid: nat, rid: nat) -> bool {
    &&& b.wf()
    &&& tid < usize::MAX
    &&& rid < b.available@.len()
    &&& entry(b.alloc_m(), tid as int, rid as int) < i32::MAX
    &&& i32::MIN < entry(b.need_m(), tid as int, rid as int)
}

/// `post` is `pre` after thread `tid` got one unit of `rid` it waited for:
/// one unit leaves `available`, joins `allocation` and leaves `need`.
pub open spec fn granted(pre: Banker, post: Banker, tid: nat, rid: nat) -> bool {
    let r = pre.available@.len();
    &&& post.wf()
    &&& post.available@ == pre.available@.update(rid as int, (pre.available@[rid as int] - 1) as i32)
    &&& post.alloc_m() == add_entry(pre.alloc_m(), tid, rid, r, 1)
    &&& post.need_m() == add_entry(pre.need_m(), tid, rid, r, -1)
}

/// `post` is `pre` after thread `tid` gave back one unit of `rid`.
pub open spec fn released(pre: Banker, post: Banker, tid: nat, rid: nat) -> bool {
    let r = pre.available@.len();
    &&& post.wf()
    &&& post.available@ == pre.available@.update(rid as int, (pre.available@[rid as int] + 1) as i32)
    &&& post.alloc_m() == add_entry(pre.alloc_m(), tid, rid, r, -1)
    &&& post.need_m() == expand(pre.need_m(), tid + 1, r)
}

/// `post` is `pre` after thread `tid` passed its unit of `rid` straight to
/// a waiting thread: the unit leaves `tid`'s allocation without becoming free.
pub open spec fn passed_on(pre: Banker, post: Banker, tid: nat, rid: nat) -> bool {
    let r = pre.available@.len();
    &&& post.wf()
    &&& post.available == pre.available
    &&& post.alloc_m() == add_entry(pre.alloc_m(), tid, rid, r, -1)
    &&& post.need_m() == expand(pre.need_m(), tid + 1, r)
}

/// `post` is `pre` after waiting thread `tid` received a unit of `rid`
/// passed on to it: the unit joins its allocation and leaves its need.
pub open spec fn taken_over(pre: Banker, post: Banker, tid: nat, rid: nat) -> bool {
    let r = pre.available@.len();
    &&& post.wf()
    &&& post.available == pre.available
    &&& post.alloc_m() == add_entry(pre.alloc_m(), tid, rid, r, 1)
    &&& post.need_m() == add_entry(pre.need_m(), tid, rid, r, -1)
}

/// Growing a matrix that already had a cell added changes nothing.
pub proof fn lemma_expand_add_entry(m: Seq<Seq<i32>>, tid: nat, rid: nat, cols: nat, delta: int)
    requires
        rid < cols,
    ensures
        expand(add_entry(m, tid, rid, cols, delta), tid + 1, cols) == add_entry(m, tid, rid, cols, delta),
{
    let m1 = add_entry(m, tid, rid, cols, delta);
    lemma_expand_entry(m, tid + 1, cols, tid as int, rid as int);
    assert forall|i: int| 0 <= i < m1.len() implies #[trigger] pad_row(m1[i], cols) == m1[i] by {
        assert(m1[i].len() >= cols);
    }
    assert(expand(m1, tid + 1, cols) =~= m1);
}

/// Books that `tid` now holds one more unit of `rid` it was waiting for.
pub(crate) fn grant_unit(b: &mut Banker, tid: usize, rid: usize)
    requires
        grant_ready(*old(b), tid as nat, rid as nat),
    ensures
        granted(*old(b), *final(b), tid as nat, rid as nat),
{
    b.add_available(rid, -1);
    b.add_allocation(tid, rid, 1);
    proof {
        lemma_expand_entry(old(b).need_m(), tid as nat + 1, old(b).available@.len(), tid as int, rid as int);
    }
    b.add_need(tid, rid, -1);
    proof {
        lemma_expand_add_entry(old(b).alloc_m(), tid as nat, rid as nat, old(b).available@.len(), 1);
        lemma_add_entry_expanded(old(b).need_m(), tid as nat, rid as nat, old(b).available@.len(), -1);
    }
}

/// Books that `tid` gave back one unit of `rid`.
pub(crate) fn release_unit(b: &mut Banker, tid: usize, rid: usize)
    requires
        release_ready(*old(b), tid as nat, rid as nat),
    ensures
        released(*old(b), *final(b), tid as nat, rid as nat),
{
    b.add_available(rid, 1);
    b.add_allocation(tid, rid, -1);
}

/// Books that `tid` passed its unit of `rid` on to a waiting thread.
pub(crate) fn pass_on_unit(b: &mut Banker, tid: usize, rid: usize)
    requires
        pass_on_ready(*old(b), tid as nat, rid as nat),
    ensures
        passed_on(*old(b), *final(b), tid as nat, rid as nat),
{
    b.add_allocation(tid, rid, -1);
}

/// Books that waiting thread `tid` received a unit of `rid` passed on to it.
pub(crate) fn take_over_unit(b: &mut Banker, tid: usize, rid: usize)
    requires
        take_over_ready(*old(b), tid as nat, rid as nat),
    ensures
        taken_over(*old(b), *final(b), tid as nat, rid as nat),
{
    b.add_allocation(tid, rid, 1);
    proof {
        lemma_expand_entry(old(b).need_m(), tid as nat + 1, old(b).available@.len(), tid as int, rid as int);
    }
    b.add_need(tid, rid, -1);
    proof {
        lemma_expand_add_entry(old(b).alloc_m(), tid as nat, rid as nat, old(b).available@.len(), 1);
        lemma_add_entry_expanded(old(b).need_m(), tid as nat, rid as nat, old(b).available@.len(), -1);
    }
}

/// A thread that gets a unit and gives it back leaves `available` and its
/// allocation as they were and has one unit less in `need`.
pub proof fn lemma_grant_then_release(pre: Banker, mid: Banker, post: Banker, tid: nat, rid: nat)
    requires
        grant_ready(pre, tid, rid),
        granted(pre, mid, tid, rid),
        released(mid, post, tid, rid),
    ensures
        post.available@ == pre.available@,
        post.alloc_m() == expand(pre.alloc_m(), tid + 1, pre.available@.len()),
        post.need_m() == add_entry(pre.need_m(), tid, rid, pre.available@.len(), -1),
{
    let r = pre.available@.len();
    assert(post.available@ =~= pre.available@);
    lemma_add_entry_entry(pre.alloc_m(), tid, rid, r, 1);
    lemma_add_entry_undone(pre.alloc_m(), tid, rid, r, 1);
    lemma_add_entry_expanded(pre.need_m(), tid, rid, r, -1);
    let m1 = add_entry(pre.need_m(), tid, rid, r, -1);
    assert forall|i: int| 0 <= i < m1.len() implies #[trigger] pad_row(m1[i], r) == m1[i] by {
        lemma_expand_entry(pre.need_m(), tid + 1, r, tid as int, rid as int);
        assert(m1[i].len() >= r);
    }
    assert(expand(m1, tid + 1, r) =~= m1);
}

} // verus!
