use vstd::prelude::*;

verus! {

/// An equality table as plain sequences: entry `[i][j]` tells whether the
/// `i`-th handle of one list describes the same subscription as the `j`-th of
/// another.
pub open spec fn table_view(eq: &Vec<Vec<bool>>) -> Seq<Seq<bool>> {
    eq@.map_values(|row: Vec<bool>| row@)
}

/// Entry `[i][j]` of a table; a missing row or entry counts as "not equal".
pub open spec fn equal_at(table: Seq<Seq<bool>>, i: int, j: int) -> bool {
    0 <= i < table.len() && 0 <= j < table[i].len() && table[i][j]
}

/// Running handle `i` keeps running: some desired subscription equals it.
pub open spec fn is_kept(table: Seq<Seq<bool>>, m: int, i: int) -> bool {
    exists|j: int| 0 <= j < m && equal_at(table, i, j)
}

/// Desired subscription `j` must be started: none of the `n` running handles
/// equals it, and no earlier desired subscription equals it (`among[j][k]`
/// compares desired `j` with desired `k`).
pub open spec fn is_fresh(table: Seq<Seq<bool>>, among: Seq<Seq<bool>>, n: int, j: int) -> bool {
    &&& forall|i: int| 0 <= i < n ==> !equal_at(table, i, j)
    &&& forall|k: int| 0 <= k < j ==> !equal_at(among, j, k)
}

pub open spec fn kept_test(table: Seq<Seq<bool>>, m: int) -> spec_fn(int) -> bool {
    |i: int| is_kept(table, m, i)
}

pub open spec fn stopped_test(table: Seq<Seq<bool>>, m: int) -> spec_fn(int) -> bool {
    |i: int| !is_kept(table, m, i)
}

pub open spec fn fresh_test(table: Seq<Seq<bool>>, among: Seq<Seq<bool>>, n: int) -> spec_fn(int) -> bool {
    |j: int| is_fresh(table, among, n, j)
}

/// The positions below `k` that pass `test`, in increasing order.
pub open spec fn positions(test: spec_fn(int) -> bool, k: int) -> Seq<int>
    decreases k,
{
    if k <= 0 {
        Seq::empty()
    } else if test(k - 1) {
        positions(test, k - 1).push(k - 1)
    } else {
        positions(test, k - 1)
    }
}

/// The elements of `s` at the positions `idx`, in that order.
pub open spec fn pick<H>(s: Seq<H>, idx: Seq<int>) -> Seq<H> {
    idx.map_values(|a: int| s[a])
}

/// The positions below `k` that pass `test` are increasing, below `k`, pass
/// `test`, and include every position below `k` that passes it.
pub proof fn lemma_positions(test: spec_fn(int) -> bool, k: int)
    requires
        0 <= k,
    ensures
        positions(test, k).len() <= k,
        forall|u: int| 0 <= u < positions(test, k).len() ==> 0 <= #[trigger] positions(test, k)[u] < k && test(positions(test, k)[u]),
        forall|u: int, v: int| 0 <= u < v < positions(test, k).len() ==> #[trigger] positions(test, k)[u] < #[trigger] positions(test, k)[v],
        forall|a: int| 0 <= a < k && #[trigger] test(a) ==> positions(test, k).contains(a),
    decreases k,
{
    if k > 0 {
        lemma_positions(test, k - 1);
        let p = positions(test, k - 1);
        if test(k - 1) {
            let q = p.push(k - 1);
            assert forall|a: int| 0 <= a < k && #[trigger] test(a) implies q.contains(a) by {
                if a < k - 1 {
                    let w = choose|w: int| 0 <= w < p.len() && p[w] == a;
                    assert(q[w] == a);
                } else {
                    assert(q[p.len() as int] == a);
                }
            }
        }
    }
}

fn entry(eq: &Vec<Vec<bool>>, i: usize, j: usize) -> (r: bool)
    ensures
        r == equal_at(table_view(eq), i as int, j as int),
{
    if i < eq.len() && j < eq[i].len() {
        eq[i][j]
    } else {
        false
    }
}

fn kept_at(eq: &Vec<Vec<bool>>, m: usize, i: usize) -> (r: bool)
    ensures
        r == is_kept(table_view(eq), m as int, i as int),
{
    let mut j: usize = 0;
    while j < m
        invariant
            j <= m,
            forall|x: int| 0 <= x < j ==> !equal_at(table_view(eq), i as int, x),
        decreases m - j,
    {
        if entry(eq, i, j) {
            return true;
        }
        j = j + 1;
    }
    false
}

fn fresh_at(eq: &Vec<Vec<bool>>, among: &Vec<Vec<bool>>, n: usize, j: usize) -> (r: bool)
    ensures
        r == is_fresh(table_view(eq), table_view(among), n as int, j as int),
{
    let mut i: usize = 0;
    while i < n
        invariant
            i <= n,
            forall|x: int| 0 <= x < i ==> !equal_at(table_view(eq), x, j as int),
        decreases n - i,
    {
        if entry(eq, i, j) {
            return false;
        }
        i = i + 1;
    }
    let mut k: usize = 0;
    while k < j
        invariant
            k <= j,
            forall|x: int| 0 <= x < n ==> !equal_at(table_view(eq), x, j as int),
            forall|x: int| 0 <= x < k ==> !equal_at(table_view(among), j as int, x),
        decreases j - k,
    {
        if entry(among, j, k) {
            return false;
        }
        k = k + 1;
    }
    true
}

/// The equality table of `left` against `right`: entry `[i][j]` is what
/// `same` answers for `left[i]` and `right[j]`.
pub fn table_of<H, F: Fn(&H, &H) -> bool>(left: &Vec<H>, right: &Vec<H>, same: F) -> (r: Vec<Vec<bool>>)
    requires
        forall|a: &H, b: &H| call_requires(same, (a, b)),
    ensures
        r@.len() == left@.len(),
        forall|i: int| 0 <= i < r@.len() ==> (#[trigger] r@[i])@.len() == right@.len(),
        forall|i: int, j: int|
            0 <= i < left@.len() && 0 <= j < right@.len() ==> call_ensures(
                same,
                (&left@[i], &right@[j]),
                #[trigger] r@[i]@[j],
            ),
{
    let n = left.len();
    let m = right.len();
    let mut table: Vec<Vec<bool>> = Vec::new();
    let mut i: usize = 0;
    while i < n
        invariant
            i <= n,
            n == left@.len(),
            m == right@.len(),
            forall|a: &H, b: &H| call_requires(same, (a, b)),
            table@.len() == i,
            forall|x: int| 0 <= x < i ==> (#[trigger] table@[x])@.len() == m,
            forall|x: int, y: int|
                0 <= x < i && 0 <= y < m ==> call_ensures(same, (&left@[x], &right@[y]), #[trigger] table@[x]@[y]),
        decreases n - i,
    {
        let mut row: Vec<bool> = Vec::new();
        let mut j: usize = 0;
        while j < m
            invariant
                j <= m,
                i < n,
                n == left@.len(),
                m == right@.len(),
                forall|a: &H, b: &H| call_requires(same, (a, b)),
                row@.len() == j,
                forall|y: int| 0 <= y < j ==> call_ensures(same, (&left@[i as int], &right@[y]), #[trigger] row@[y]),
            decreases m - j,
        {
            let e = same(&left[i], &right[j]);
            row.push(e);
            j = j + 1;
        }
        table.push(row);
        i = i + 1;
    }
    table
}

/// What one reconciliation pass hands back: the handles to stop, and the
/// handles to start (then give back to the registry with `adopt`).
pub struct Reconciled<H> {
    pub stopped: Vec<H>,
    pub started: Vec<H>,
}

/// The running subscription handles, in the order they were adopted.
pub struct Registry<H> {
    running: Vec<H>,
}

impl<H> Registry<H> {
    pub closed spec fn view(&self) -> Seq<H> {
        self.running@
    }

    /// A registry with nothing running.
    pub fn new() -> (r: Registry<H>)
        ensures
            r@ == Seq::<H>::empty(),
    {
        Registry { running: Vec::new() }
    }

    /// How many handles are running.
    pub fn len(&self) -> (r: usize)
        ensures
            r == self@.len(),
    {
        self.running.len()
    }

    /// The running handle at position `i`.
    pub fn get(&self, i: usize) -> (r: &H)
        requires
            i < self@.len(),
        ensures
            *r == self@[i as int],
    {
        &self.running[i]
    }

    /// The equality table of the running handles against `desired`.
    pub fn equality_table<F: Fn(&H, &H) -> bool>(&self, desired: &Vec<H>, same: F) -> (r: Vec<Vec<bool>>)
        requires
            forall|a: &H, b: &H| call_requires(same, (a, b)),
        ensures
            r@.len() == self@.len(),
            forall|i: int| 0 <= i < r@.len() ==> (#[trigger] r@[i])@.len() == desired@.len(),
            forall|i: int, j: int|
                0 <= i < self@.len() && 0 <= j < desired@.len() ==> call_ensures(
                    same,
                    (&self@[i], &desired@[j]),
                    #[trigger] r@[i]@[j],
                ),
    {
        table_of(&self.running, desired, same)
    }

    /// Reconciles the running handles against a newly desired set.
    ///
    /// `eq[i][j]` tells whether running handle `i` and desired handle `j`
    /// describe the same subscription, and `among[j][k]` whether desired
    /// handles `j` and `k` do. A running handle that some desired one equals
    /// stays in the registry as itself; the others are handed back in
    /// `stopped`. A desired handle is handed back in `started` when no running
    /// handle and no earlier desired handle equals it, so each new subscription
    /// is started once however often the desired set names it.
    pub fn reconcile(&mut self, eq: &Vec<Vec<bool>>, among: &Vec<Vec<bool>>, desired: Vec<H>) -> (r: Reconciled<H>)
        ensures
            final(self)@ == pick(old(self)@, positions(kept_test(table_view(eq), desired@.len() as int), old(self)@.len() as int)),
            r.stopped@ == pick(old(self)@, positions(stopped_test(table_view(eq), desired@.len() as int), old(self)@.len() as int)),
            r.started@ == pick(desired@, positions(fresh_test(table_view(eq), table_view(among), old(self)@.len() as int), desired@.len() as int)),
            forall|j: int, k: int|
                0 <= k < j < desired@.len() && is_fresh(table_view(eq), table_view(among), old(self)@.len() as int, j)
                    ==> !equal_at(table_view(among), j, k),
            forall|i: int, j: int|
                0 <= i < old(self)@.len() && 0 <= j < desired@.len() && is_fresh(table_view(eq), table_view(among), old(self)@.len() as int, j)
                    ==> !equal_at(table_view(eq), i, j),
    {
        let ghost table = table_view(eq);
        let ghost before = self.running@;
        let ghost wanted = desired@;
        let n = self.running.len();
        let m = desired.len();
        let ghost kt = kept_test(table, m as int);
        let ghost st = stopped_test(table, m as int);
        let ghost ft = fresh_test(table, table_view(among), n as int);
        let mut old_running: Vec<H> = Vec::new();
        std::mem::swap(&mut old_running, &mut self.running);
        let mut stopped: Vec<H> = Vec::new();
        let mut i: usize = 0;
        while i < n
            invariant
                i <= n,
                n == before.len(),
                m == wanted.len(),
                kt == kept_test(table, m as int),
                st == stopped_test(table, m as int),
                table == table_view(eq),
                old_running@ == before.subrange(i as int, n as int),
                self.running@ == pick(before, positions(kt, i as int)),
                stopped@ == pick(before, positions(st, i as int)),
            decreases n - i,
        {
            let h = old_running.remove(0);
            assert(h == before[i as int]);
            let keep = kept_at(eq, m, i);
            proof {
                lemma_positions(kt, i as int);
                lemma_positions(st, i as int);
            }
            if keep {
                assert(kt(i as int));
                self.running.push(h);
                assert(pick(before, positions(kt, i + 1)) =~= pick(before, positions(kt, i as int)).push(before[i as int]));
                assert(pick(before, positions(st, i + 1)) =~= pick(before, positions(st, i as int)));
            } else {
                assert(st(i as int));
                stopped.push(h);
                assert(pick(before, positions(st, i + 1)) =~= pick(before, positions(st, i as int)).push(before[i as int]));
                assert(pick(before, positions(kt, i + 1)) =~= pick(before, positions(kt, i as int)));
            }
            assert(old_running@ =~= before.subrange(i + 1, n as int));
            i = i + 1;
        }
        let mut rest = desired;
        let mut started: Vec<H> = Vec::new();
        let mut j: usize = 0;
        while j < m
            invariant
                j <= m,
                n == before.len(),
                m == wanted.len(),
                ft == fresh_test(table, table_view(among), n as int),
                table == table_view(eq),
                rest@ == wanted.subrange(j as int, m as int),
                started@ == pick(wanted, positions(ft, j as int)),
            decreases m - j,
        {
            let h = rest.remove(0);
            assert(h == wanted[j as int]);
            let fresh = fresh_at(eq, among, n, j);
            proof {
                lemma_positions(ft, j as int);
            }
            if fresh {
                assert(ft(j as int));
                started.push(h);
                assert(pick(wanted, positions(ft, j + 1)) =~= pick(wanted, positions(ft, j as int)).push(wanted[j as int]));
            } else {
                assert(pick(wanted, positions(ft, j + 1)) =~= pick(wanted, positions(ft, j as int)));
            }
            assert(rest@ =~= wanted.subrange(j + 1, m as int));
            j = j + 1;
        }
        Reconciled { stopped, started }
    }

    /// Adds handles that were just started to the running ones, after them.
    pub fn adopt(&mut self, started: Vec<H>)
        ensures
            final(self)@ == old(self)@ + started@,
    {
        let mut started = started;
        self.running.append(&mut started);
    }

    /// Empties the registry, handing back every running handle to stop.
    pub fn stop_all(&mut self) -> (r: Vec<H>)
        ensures
            final(self)@ == Seq::<H>::empty(),
            r@ == old(self)@,
    {
        let mut all: Vec<H> = Vec::new();
        std::mem::swap(&mut all, &mut self.running);
        all
    }
}

} // verus!
