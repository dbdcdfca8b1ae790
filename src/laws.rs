use vstd::prelude::*;
use crate::reconcile::{
    equal_at, fresh_test, is_fresh, is_kept, kept_test, lemma_positions, pick, positions, stopped_test,
};
use crate::runtime::{actions, next, Action, Event, LoopState, Phase};

verus! {

/// `same` is an equivalence: the equality of subscription descriptors.
pub open spec fn is_equivalence<H>(same: spec_fn(H, H) -> bool) -> bool {
    &&& forall|a: H| #[trigger] same(a, a)
    &&& forall|a: H, b: H| #[trigger] same(a, b) ==> same(b, a)
    &&& forall|a: H, b: H, c: H| #[trigger] same(a, b) && #[trigger] same(b, c) ==> same(a, c)
}

/// The two tables handed to a pass say what `same` says: `table` of running
/// against desired handles, `among` of desired against desired.
pub open spec fn tables_agree<H>(
    same: spec_fn(H, H) -> bool,
    running: Seq<H>,
    desired: Seq<H>,
    table: Seq<Seq<bool>>,
    among: Seq<Seq<bool>>,
) -> bool {
    &&& forall|i: int, j: int| 0 <= i < running.len() && 0 <= j < desired.len()
        ==> (#[trigger] equal_at(table, i, j) == same(running[i], desired[j]))
    &&& forall|j: int, k: int| 0 <= j < desired.len() && 0 <= k < desired.len()
        ==> (#[trigger] equal_at(among, j, k) == same(desired[j], desired[k]))
}

/// No two handles of `s` describe the same subscription.
pub open spec fn one_per_descriptor<H>(same: spec_fn(H, H) -> bool, s: Seq<H>) -> bool {
    forall|u: int, v: int| 0 <= u < s.len() && 0 <= v < s.len() && u != v ==> !same(#[trigger] s[u], #[trigger] s[v])
}

/// The handles a pass keeps running.
pub open spec fn kept_of<H>(running: Seq<H>, desired: Seq<H>, table: Seq<Seq<bool>>) -> Seq<H> {
    pick(running, positions(kept_test(table, desired.len() as int), running.len() as int))
}

/// The handles a pass stops.
pub open spec fn stopped_of<H>(running: Seq<H>, desired: Seq<H>, table: Seq<Seq<bool>>) -> Seq<H> {
    pick(running, positions(stopped_test(table, desired.len() as int), running.len() as int))
}

/// The handles a pass starts.
pub open spec fn started_of<H>(running: Seq<H>, desired: Seq<H>, table: Seq<Seq<bool>>, among: Seq<Seq<bool>>) -> Seq<H> {
    pick(desired, positions(fresh_test(table, among, running.len() as int), desired.len() as int))
}

/// After a pass, and after the started handles are adopted, the registry still
/// runs at most one handle per subscription.
pub proof fn law_one_worker_per_descriptor<H>(
    same: spec_fn(H, H) -> bool,
    running: Seq<H>,
    desired: Seq<H>,
    table: Seq<Seq<bool>>,
    among: Seq<Seq<bool>>,
)
    requires
        is_equivalence(same),
        tables_agree(same, running, desired, table, among),
        one_per_descriptor(same, running),
    ensures
        one_per_descriptor(same, kept_of(running, desired, table) + started_of(running, desired, table, among)),
{
    let n = running.len() as int;
    let m = desired.len() as int;
    let kp = positions(kept_test(table, m), n);
    let fp = positions(fresh_test(table, among, n), m);
    lemma_positions(kept_test(table, m), n);
    lemma_positions(fresh_test(table, among, n), m);
    let ks = kept_of(running, desired, table);
    let fs = started_of(running, desired, table, among);
    let all = ks + fs;
    assert forall|u: int, v: int| 0 <= u < all.len() && 0 <= v < all.len() && u != v implies !same(#[trigger] all[u], #[trigger] all[v]) by {
        if u < ks.len() && v < ks.len() {
            assert(kp[u] != kp[v]) by {
                if u < v { assert(kp[u] < kp[v]); } else { assert(kp[v] < kp[u]); }
            }
            assert(all[u] == running[kp[u]] && all[v] == running[kp[v]]);
        } else if u >= ks.len() && v >= ks.len() {
            let a = fp[u - ks.len()];
            let b = fp[v - ks.len()];
            assert(all[u] == desired[a] && all[v] == desired[b]);
            assert(is_fresh(table, among, n, a) && is_fresh(table, among, n, b));
            if u < v {
                assert(a < b);
                assert(!equal_at(among, b, a));
                if same(desired[a], desired[b]) { assert(same(desired[b], desired[a])); }
            } else {
                assert(b < a);
                assert(!equal_at(among, a, b));
            }
        } else if u < ks.len() {
            let i = kp[u];
            let b = fp[v - ks.len()];
            assert(all[u] == running[i] && all[v] == desired[b]);
            assert(is_fresh(table, among, n, b));
            assert(!equal_at(table, i, b));
        } else {
            let a = fp[u - ks.len()];
            let i = kp[v];
            assert(all[u] == desired[a] && all[v] == running[i]);
            assert(is_fresh(table, among, n, a));
            assert(!equal_at(table, i, a));
            if same(desired[a], running[i]) { assert(same(running[i], desired[a])); }
        }
    }
}

/// A running handle whose subscription is still desired is kept: the registry
/// holds on to that very handle, does not stop it, and starts no other handle
/// of the same subscription.
pub proof fn law_unchanged_keeps_running<H>(
    same: spec_fn(H, H) -> bool,
    running: Seq<H>,
    desired: Seq<H>,
    table: Seq<Seq<bool>>,
    among: Seq<Seq<bool>>,
    i: int,
    j: int,
)
    requires
        is_equivalence(same),
        tables_agree(same, running, desired, table, among),
        one_per_descriptor(same, running),
        0 <= i < running.len(),
        0 <= j < desired.len(),
        same(running[i], desired[j]),
    ensures
        kept_of(running, desired, table).contains(running[i]),
        !stopped_of(running, desired, table).contains(running[i]),
        forall|u: int| 0 <= u < started_of(running, desired, table, among).len()
            ==> !same(#[trigger] started_of(running, desired, table, among)[u], running[i]),
{
    let n = running.len() as int;
    let m = desired.len() as int;
    assert(equal_at(table, i, j));
    assert(is_kept(table, m, i));
    let kp = positions(kept_test(table, m), n);
    let sp = positions(stopped_test(table, m), n);
    let fp = positions(fresh_test(table, among, n), m);
    lemma_positions(kept_test(table, m), n);
    lemma_positions(stopped_test(table, m), n);
    lemma_positions(fresh_test(table, among, n), m);
    assert(kept_test(table, m)(i));
    let w = choose|w: int| 0 <= w < kp.len() && kp[w] == i;
    assert(kept_of(running, desired, table)[w] == running[i]);
    let ss = stopped_of(running, desired, table);
    if ss.contains(running[i]) {
        let w2 = choose|w2: int| 0 <= w2 < ss.len() && ss[w2] == running[i];
        let a = sp[w2];
        assert(!is_kept(table, m, a));
        assert(running[a] == running[i]);
        assert(same(running[a], running[i]));
    }
    let fs = started_of(running, desired, table, among);
    assert forall|u: int| 0 <= u < fs.len() implies !same(#[trigger] fs[u], running[i]) by {
        let b = fp[u];
        assert(is_fresh(table, among, n, b));
        assert(!equal_at(table, i, b));
        assert(fs[u] == desired[b]);
        if same(desired[b], running[i]) { assert(same(running[i], desired[b])); }
    }
}

/// The first desired handle of the same subscription as desired handle `j`.
proof fn first_equal<H>(same: spec_fn(H, H) -> bool, desired: Seq<H>, j: int, k: int) -> (r: int)
    requires
        is_equivalence(same),
        0 <= k <= j < desired.len(),
        forall|x: int| 0 <= x < k ==> !same(#[trigger] desired[x], desired[j]),
    ensures
        k <= r <= j,
        same(desired[r], desired[j]),
        forall|x: int| 0 <= x < r ==> !same(#[trigger] desired[x], desired[j]),
    decreases j - k,
{
    if same(desired[k], desired[j]) {
        k
    } else {
        first_equal(same, desired, j, k + 1)
    }
}

/// A desired subscription that no running handle has is started exactly once,
/// however often the desired set names it.
pub proof fn law_new_starts_once<H>(
    same: spec_fn(H, H) -> bool,
    running: Seq<H>,
    desired: Seq<H>,
    table: Seq<Seq<bool>>,
    among: Seq<Seq<bool>>,
    j: int,
)
    requires
        is_equivalence(same),
        tables_agree(same, running, desired, table, among),
        0 <= j < desired.len(),
        forall|i: int| 0 <= i < running.len() ==> !same(#[trigger] running[i], desired[j]),
    ensures
        exists|u: int| 0 <= u < started_of(running, desired, table, among).len()
            && same(#[trigger] started_of(running, desired, table, among)[u], desired[j]),
        forall|u: int, v: int|
            0 <= u < started_of(running, desired, table, among).len()
            && 0 <= v < started_of(running, desired, table, among).len()
            && same(#[trigger] started_of(running, desired, table, among)[u], desired[j])
            && same(#[trigger] started_of(running, desired, table, among)[v], desired[j]) ==> u == v,
{
    let n = running.len() as int;
    let m = desired.len() as int;
    let fp = positions(fresh_test(table, among, n), m);
    lemma_positions(fresh_test(table, among, n), m);
    let fs = started_of(running, desired, table, among);
    let r = first_equal(same, desired, j, 0);
    assert forall|i: int| 0 <= i < n implies !equal_at(table, i, r) by {
        if same(running[i], desired[r]) {
            assert(same(running[i], desired[j]));
        }
    }
    assert forall|x: int| 0 <= x < r implies !equal_at(among, r, x) by {
        if same(desired[r], desired[x]) {
            assert(same(desired[x], desired[r]));
            assert(same(desired[x], desired[j]));
        }
    }
    assert(fresh_test(table, among, n)(r));
    let w = choose|w: int| 0 <= w < fp.len() && fp[w] == r;
    assert(fs[w] == desired[r]);
    assert forall|u: int, v: int|
        0 <= u < fs.len() && 0 <= v < fs.len() && same(#[trigger] fs[u], desired[j]) && same(#[trigger] fs[v], desired[j]) implies u == v by {
        if u != v {
            let (a, b) = if u < v { (fp[u], fp[v]) } else { (fp[v], fp[u]) };
            assert(a < b);
            assert(is_fresh(table, among, n, b));
            assert(!equal_at(among, b, a));
            assert(same(desired[a], desired[j]) && same(desired[b], desired[j]));
            assert(same(desired[j], desired[a]));
            assert(same(desired[b], desired[a]));
        }
    }
}

/// A running handle whose subscription is no longer desired is stopped exactly
/// once: it appears once among the handles to stop and leaves the registry, so
/// no later pass can stop it again.
pub proof fn law_dropped_stops_once<H>(
    same: spec_fn(H, H) -> bool,
    running: Seq<H>,
    desired: Seq<H>,
    table: Seq<Seq<bool>>,
    among: Seq<Seq<bool>>,
    i: int,
)
    requires
        is_equivalence(same),
        tables_agree(same, running, desired, table, among),
        one_per_descriptor(same, running),
        0 <= i < running.len(),
        forall|j: int| 0 <= j < desired.len() ==> !same(running[i], #[trigger] desired[j]),
    ensures
        stopped_of(running, desired, table).contains(running[i]),
        stopped_of(running, desired, table).no_duplicates(),
        !kept_of(running, desired, table).contains(running[i]),
{
    let n = running.len() as int;
    let m = desired.len() as int;
    assert forall|j: int| 0 <= j < m implies !equal_at(table, i, j) by {
        assert(!same(running[i], desired[j]));
    }
    assert(!is_kept(table, m, i));
    let kp = positions(kept_test(table, m), n);
    let sp = positions(stopped_test(table, m), n);
    lemma_positions(kept_test(table, m), n);
    lemma_positions(stopped_test(table, m), n);
    assert(stopped_test(table, m)(i));
    let ss = stopped_of(running, desired, table);
    let w = choose|w: int| 0 <= w < sp.len() && sp[w] == i;
    assert(ss[w] == running[i]);
    assert forall|u: int, v: int| 0 <= u < ss.len() && 0 <= v < ss.len() && u != v implies ss[u] != ss[v] by {
        assert(sp[u] != sp[v]) by {
            if u < v { assert(sp[u] < sp[v]); } else { assert(sp[v] < sp[u]); }
        }
        if ss[u] == ss[v] {
            assert(running[sp[u]] == running[sp[v]]);
            assert(same(running[sp[u]], running[sp[u]]));
        }
    }
    let ks = kept_of(running, desired, table);
    if ks.contains(running[i]) {
        let w2 = choose|w2: int| 0 <= w2 < ks.len() && ks[w2] == running[i];
        let a = kp[w2];
        assert(is_kept(table, m, a));
        assert(running[a] == running[i]);
        assert(same(running[a], running[i]));
    }
}

/// A pass only ever stops or keeps handles that were in the registry.
pub proof fn law_pass_touches_registry_only<H>(running: Seq<H>, desired: Seq<H>, table: Seq<Seq<bool>>, x: H)
    ensures
        stopped_of(running, desired, table).contains(x) ==> running.contains(x),
        kept_of(running, desired, table).contains(x) ==> running.contains(x),
{
    let n = running.len() as int;
    let m = desired.len() as int;
    lemma_positions(kept_test(table, m), n);
    lemma_positions(stopped_test(table, m), n);
    let ss = stopped_of(running, desired, table);
    let ks = kept_of(running, desired, table);
    if ss.contains(x) {
        let w = choose|w: int| 0 <= w < ss.len() && ss[w] == x;
        assert(running[positions(stopped_test(table, m), n)[w]] == x);
    }
    if ks.contains(x) {
        let w = choose|w: int| 0 <= w < ks.len() && ks[w] == x;
        assert(running[positions(kept_test(table, m), n)[w]] == x);
    }
}

proof fn lemma_after_quit(s: LoopState, es: Seq<Event>)
    requires
        s.phase == Phase::Terminated || (s.phase == Phase::Reconciling && s.quitting),
    ensures
        actions(s, es).len() == es.len(),
        forall|k: int| 0 <= k < es.len() ==> #[trigger] actions(s, es)[k] == Action::Idle
            || actions(s, es)[k] == Action::Shutdown,
        forall|k: int, l: int| 0 <= k < l < es.len() && #[trigger] actions(s, es)[k] == Action::Shutdown
            ==> #[trigger] actions(s, es)[l] == Action::Idle,
        s.phase == Phase::Terminated ==> forall|k: int| 0 <= k < es.len() ==> #[trigger] actions(s, es)[k] == Action::Idle,
    decreases es.len(),
{
    if es.len() > 0 {
        let (t, a) = next(s, es[0]);
        lemma_after_quit(t, es.drop_first());
        let tail = actions(t, es.drop_first());
        assert(actions(s, es) == seq![a] + tail);
        assert forall|k: int| 1 <= k < es.len() implies actions(s, es)[k] == tail[k - 1] by {}
    }
}

/// Raising the quit flag during an update leads to exactly one more
/// reconciliation pass, then to shutdown (which stops every remaining
/// subscription), and then to nothing at all: whatever events follow, no
/// render, receive or update is asked for again, and shutdown happens once.
pub proof fn law_quit_ends_loop(s: LoopState, es: Seq<Event>)
    requires
        s.phase == Phase::Updating,
    ensures
        next(s, Event::Updated(true)).1 == Action::Reconcile,
        next(next(s, Event::Updated(true)).0, Event::Reconciled).1 == Action::Shutdown,
        next(next(s, Event::Updated(true)).0, Event::Reconciled).0.phase == Phase::Terminated,
        forall|k: int| 0 <= k < es.len() ==> #[trigger] actions(next(s, Event::Updated(true)).0, es)[k]
            == Action::Idle || actions(next(s, Event::Updated(true)).0, es)[k] == Action::Shutdown,
        forall|k: int, l: int| 0 <= k < l < es.len() && #[trigger] actions(next(s, Event::Updated(true)).0, es)[k]
            == Action::Shutdown ==> #[trigger] actions(next(s, Event::Updated(true)).0, es)[l] == Action::Idle,
{
    lemma_after_quit(next(s, Event::Updated(true)).0, es);
}

} // verus!
