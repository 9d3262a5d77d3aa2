use vstd::prelude::*;
use crate::runner::{
    extended, finish_spec, fresh, query_spec, start_spec, step_spec, successors, RunnerView,
};
use crate::section::{active_sections, lookup, n_active, Entry, PathView, SectionView};

verus! {

/// A test body, seen through the branch points it reaches on one pass, in
/// order, for each path it may run on. Since every answer of the runner
/// depends on the path alone, a body without other sources of change reaches
/// the same points whenever it runs on the same path.
pub type BodyModel = spec_fn(PathView) -> Seq<SectionView>;

/// The state after the branch points `qs` were asked, in order.
pub open spec fn run_queries(m: RunnerView, qs: Seq<SectionView>) -> RunnerView
    decreases qs.len(),
{
    if qs.len() == 0 {
        m
    } else {
        query_spec(run_queries(m, qs.drop_last()), qs.last()).1
    }
}

/// One complete pass of a top-level test: the next path is taken, the body
/// runs on it to its end, and the pass is closed.
pub open spec fn next_pass(m: RunnerView, body: BodyModel) -> RunnerView {
    let m1 = step_spec(m).1;
    finish_spec(run_queries(m1, body(m1.current)), true, true)
}

/// The state after `n` passes (or fewer, if the queue runs out).
pub open spec fn after(m: RunnerView, body: BodyModel, n: nat) -> RunnerView
    decreases n,
{
    if n == 0 || m.queue.len() == 0 {
        m
    } else {
        after(next_pass(m, body), body, (n - 1) as nat)
    }
}

/// The sections that run on each of the next passes, at most `n` of them, in
/// the order the passes run: for each pass, outermost first.
pub open spec fn explore(m: RunnerView, body: BodyModel, n: nat) -> Seq<Seq<SectionView>>
    decreases n,
{
    if n == 0 || m.queue.len() == 0 {
        Seq::empty()
    } else {
        seq![active_sections(m.queue[0])] + explore(next_pass(m, body), body, (n - 1) as nat)
    }
}

/// Asking about the same branch point twice within one pass gives the same
/// answer, and the second question changes nothing: the point is noted as
/// found at most once.
pub proof fn law_same_section_twice(m: RunnerView, s: SectionView)
    ensures
        query_spec(query_spec(m, s).1, s) == (query_spec(m, s).0, query_spec(m, s).1),
{
    let m1 = query_spec(m, s).1;
    if lookup(m.current, s) is None {
        assert(m1.new.contains(s)) by {
            if !m.new.contains(s) {
                assert(m1.new[m1.new.len() - 1] == s);
            }
        }
    }
}

/// Replaying a path gives the same answers: whether a section runs depends
/// only on the path being replayed and on the section, and is the decision
/// the path records for it.
pub proof fn law_replay(m1: RunnerView, m2: RunnerView, s: SectionView)
    requires
        m1.current == m2.current,
    ensures
        query_spec(m1, s).0 == query_spec(m2, s).0,
        query_spec(m1, s).0 == (match lookup(m1.current, s) {
            Some(e) => e.should_enter,
            None => false,
        }),
{
}

/// A test explores the same passes, in the same order, whatever the runner
/// held before it started.
pub proof fn law_deterministic(m1: RunnerView, m2: RunnerView, body: BodyModel, n: nat)
    requires
        !m1.running,
        !m2.running,
    ensures
        start_spec(m1).0 && start_spec(m2).0,
        explore(start_spec(m1).1, body, n) == explore(start_spec(m2).1, body, n),
        after(start_spec(m1).1, body, n) == after(start_spec(m2).1, body, n),
{
}

/// Every branch point of `qs` is known to path `p`.
pub open spec fn knows_all(p: PathView, qs: Seq<SectionView>) -> bool {
    forall|j: int| 0 <= j < qs.len() ==> lookup(p, #[trigger] qs[j]) is Some
}

proof fn lemma_queries_frame(m: RunnerView, qs: Seq<SectionView>)
    ensures
        run_queries(m, qs).running == m.running,
        run_queries(m, qs).queue == m.queue,
        run_queries(m, qs).current == m.current,
    decreases qs.len(),
{
    if qs.len() > 0 {
        lemma_queries_frame(m, qs.drop_last());
    }
}

proof fn lemma_queries_known(m: RunnerView, qs: Seq<SectionView>)
    requires
        knows_all(m.current, qs),
    ensures
        run_queries(m, qs) == m,
    decreases qs.len(),
{
    if qs.len() > 0 {
        assert(lookup(m.current, qs[qs.len() - 1]) is Some);
        lemma_queries_known(m, qs.drop_last());
    }
}

proof fn lemma_queries_fresh(m: RunnerView, qs: Seq<SectionView>)
    requires
        qs.no_duplicates(),
        forall|j: int| 0 <= j < qs.len() ==> lookup(m.current, #[trigger] qs[j]) is None,
        forall|j: int| 0 <= j < qs.len() ==> !m.new.contains(#[trigger] qs[j]),
    ensures
        run_queries(m, qs) == (RunnerView { new: m.new + qs, ..m }),
    decreases qs.len(),
{
    if qs.len() == 0 {
        assert(m.new + qs =~= m.new);
    } else {
        let q = qs.drop_last();
        lemma_queries_fresh(m, q);
        let x = qs.last();
        assert(lookup(m.current, qs[qs.len() - 1]) is None);
        assert(!m.new.contains(qs[qs.len() - 1]));
        assert(!(m.new + q).contains(x)) by {
            if (m.new + q).contains(x) {
                let j = choose|j: int| 0 <= j < (m.new + q).len() && (m.new + q)[j] == x;
                if j >= m.new.len() {
                    assert(qs[j - m.new.len()] == qs[qs.len() - 1]);
                } else {
                    assert(m.new.contains(x));
                }
            }
        }
        assert((m.new + q).push(x) =~= m.new + qs);
    }
}

proof fn lemma_queries_concat(m: RunnerView, a: Seq<SectionView>, b: Seq<SectionView>)
    ensures
        run_queries(m, a + b) == run_queries(run_queries(m, a), b),
    decreases b.len(),
{
    if b.len() == 0 {
        assert(a + b =~= a);
    } else {
        assert((a + b).drop_last() =~= a + b.drop_last());
        assert((a + b).last() == b.last());
        lemma_queries_concat(m, a, b.drop_last());
    }
}

/// Where each queued path already knows every branch point the body reaches
/// on it, the queue drains one path per pass and nothing is added.
proof fn lemma_drain(m: RunnerView, body: BodyModel, n: nat)
    requires
        n >= m.queue.len(),
        forall|i: int| 0 <= i < m.queue.len() ==> knows_all(#[trigger] m.queue[i], body(m.queue[i])),
    ensures
        explore(m, body, n) == m.queue.map_values(|p: PathView| active_sections(p)),
        after(m, body, n).queue.len() == 0,
    decreases m.queue.len(),
{
    if m.queue.len() == 0 {
        assert(explore(m, body, n) =~= m.queue.map_values(|p: PathView| active_sections(p)));
    } else {
        let m1 = step_spec(m).1;
        let q0 = m.queue[0];
        assert(knows_all(q0, body(q0)));
        lemma_queries_known(m1, body(q0));
        let m2 = next_pass(m, body);
        assert(successors(q0, Seq::empty()) =~= Seq::<PathView>::empty());
        assert(m2.queue =~= m.queue.drop_first());
        assert forall|i: int| 0 <= i < m2.queue.len() implies knows_all(#[trigger] m2.queue[i], body(m2.queue[i])) by {
            assert(m2.queue[i] == m.queue[i + 1]);
        }
        lemma_drain(m2, body, (n - 1) as nat);
        assert(explore(m, body, n) =~= m.queue.map_values(|p: PathView| active_sections(p)));
    }
}

/// What a path extended by the sections `new` records for a section `x`.
proof fn lemma_lookup_extended(cur: PathView, new: Seq<SectionView>, c: SectionView, x: SectionView)
    ensures
        lookup(extended(cur, new, c), x) == if new.contains(x) {
            Some(Entry { should_enter: x == c, index: n_active(cur) as usize })
        } else {
            lookup(cur, x)
        },
    decreases new.len(),
{
    if new.len() == 0 {
        assert(extended(cur, new, c) =~= cur);
    } else {
        let d = new.drop_last();
        assert(extended(cur, new, c).drop_last() =~= extended(cur, d, c));
        lemma_lookup_extended(cur, d, c, x);
        if new.last() != x {
            assert(new.contains(x) == d.contains(x)) by {
                if new.contains(x) {
                    let j = choose|j: int| 0 <= j < new.len() && new[j] == x;
                    assert(d[j] == x);
                }
                if d.contains(x) {
                    let j = choose|j: int| 0 <= j < d.len() && d[j] == x;
                    assert(new[j] == x);
                }
            }
        } else {
            assert(new[new.len() - 1] == x);
        }
    }
}

/// The sections that run on a path extended by the sections `new`: those of
/// the path it extends, then `c` if it is one of `new`.
proof fn lemma_active_extended(cur: PathView, new: Seq<SectionView>, c: SectionView)
    requires
        new.no_duplicates(),
    ensures
        active_sections(extended(cur, new, c)) == if new.contains(c) {
            active_sections(cur).push(c)
        } else {
            active_sections(cur)
        },
    decreases new.len(),
{
    if new.len() == 0 {
        assert(extended(cur, new, c) =~= cur);
    } else {
        let d = new.drop_last();
        assert(extended(cur, new, c).drop_last() =~= extended(cur, d, c));
        assert(d.no_duplicates()) by {
            assert forall|i: int, j: int| 0 <= i < j < d.len() implies d[i] != d[j] by {
                assert(new[i] != new[j]);
            }
        }
        lemma_active_extended(cur, d, c);
        if new.last() == c {
            assert(new[new.len() - 1] == c);
            assert(!d.contains(c)) by {
                if d.contains(c) {
                    let j = choose|j: int| 0 <= j < d.len() && d[j] == c;
                    assert(new[j] == new[new.len() - 1]);
                }
            }
        } else {
            assert(new.contains(c) == d.contains(c)) by {
                if new.contains(c) {
                    let j = choose|j: int| 0 <= j < new.len() && new[j] == c;
                    assert(d[j] == c);
                }
                if d.contains(c) {
                    let j = choose|j: int| 0 <= j < d.len() && d[j] == c;
                    assert(new[j] == c);
                }
            }
        }
    }
}

/// A body whose branch points are all reached on every pass, none inside
/// another, runs one pass that finds them all with none running, then one
/// pass for each of them in the order they were found, with that one alone
/// running; then no path is left.
pub proof fn law_independent_sections(secs: Seq<SectionView>, body: BodyModel)
    requires
        secs.no_duplicates(),
        forall|p: PathView| #[trigger] body(p) == secs,
    ensures
        explore(fresh(), body, secs.len() + 1) == seq![Seq::<SectionView>::empty()] + secs.map_values(
            |s: SectionView| seq![s],
        ),
        after(fresh(), body, secs.len() + 1).queue.len() == 0,
{
    let m0 = fresh();
    let m1 = step_spec(m0).1;
    let e = Seq::<(SectionView, Entry)>::empty();
    assert(m1.current == e);
    assert(body(e) == secs);
    assert forall|j: int| 0 <= j < secs.len() implies lookup(m1.current, #[trigger] secs[j]) is None by {}
    lemma_queries_fresh(m1, secs);
    assert(m1.new + secs =~= secs);
    let m2 = next_pass(m0, body);
    assert(m2.queue =~= successors(e, secs));
    assert forall|i: int| 0 <= i < m2.queue.len() implies knows_all(#[trigger] m2.queue[i], body(m2.queue[i])) by {
        let q = m2.queue[i];
        assert(q == extended(e, secs, secs[i]));
        assert forall|j: int| 0 <= j < secs.len() implies lookup(q, #[trigger] secs[j]) is Some by {
            lemma_lookup_extended(e, secs, secs[i], secs[j]);
            assert(secs.contains(secs[j]));
        }
        assert(body(q) == secs);
    }
    lemma_drain(m2, body, secs.len());
    assert(m2.queue.map_values(|p: PathView| active_sections(p)) =~= secs.map_values(|s: SectionView| seq![s])) by {
        assert forall|i: int| 0 <= i < secs.len() implies #[trigger] active_sections(m2.queue[i]) == seq![secs[i]] by {
            lemma_active_extended(e, secs, secs[i]);
            assert(secs.contains(secs[i]));
            assert(active_sections(e) =~= Seq::<SectionView>::empty());
        }
    }
    assert(active_sections(m0.queue[0]) =~= Seq::<SectionView>::empty());
}

/// Whether path `p` runs section `s`.
pub open spec fn runs(p: PathView, s: SectionView) -> bool {
    match lookup(p, s) {
        Some(e) => e.should_enter,
        None => false,
    }
}

/// Branch points in two levels: the outer ones in order, each followed, when
/// path `p` runs it, by the inner ones written inside it.
pub open spec fn nested_queries(branches: Seq<(SectionView, Seq<SectionView>)>, p: PathView) -> Seq<
    SectionView,
>
    decreases branches.len(),
{
    if branches.len() == 0 {
        Seq::empty()
    } else {
        let b = branches.last();
        nested_queries(branches.drop_last(), p) + seq![b.0] + if runs(p, b.0) {
            b.1
        } else {
            Seq::empty()
        }
    }
}

/// The outer branch points.
pub open spec fn outers(branches: Seq<(SectionView, Seq<SectionView>)>) -> Seq<SectionView> {
    branches.map_values(|b: (SectionView, Seq<SectionView>)| b.0)
}

/// Each inner branch point with the outer one it is written in, outer first,
/// in the order of the outer ones and then of the inner ones.
pub open spec fn nested_passes(branches: Seq<(SectionView, Seq<SectionView>)>) -> Seq<Seq<SectionView>>
    decreases branches.len(),
{
    if branches.len() == 0 {
        Seq::empty()
    } else {
        let b = branches.last();
        nested_passes(branches.drop_last()) + b.1.map_values(|t: SectionView| seq![b.0, t])
    }
}

/// The path that runs the `i`-th outer branch point alone.
pub open spec fn outer_path(branches: Seq<(SectionView, Seq<SectionView>)>, i: int) -> PathView {
    extended(Seq::empty(), outers(branches), outers(branches)[i])
}

/// The paths queued by the passes on the first `j` outer paths.
pub open spec fn inner_paths(branches: Seq<(SectionView, Seq<SectionView>)>, j: nat) -> Seq<PathView>
    decreases j,
{
    if j == 0 {
        Seq::empty()
    } else {
        inner_paths(branches, (j - 1) as nat) + successors(
            outer_path(branches, j - 1),
            branches[j - 1].1,
        )
    }
}

/// Branches whose outer points are distinct, whose inner points are distinct
/// within each outer one, and where no inner point is also an outer one.
pub open spec fn nested_wf(branches: Seq<(SectionView, Seq<SectionView>)>) -> bool {
    &&& outers(branches).no_duplicates()
    &&& forall|i: int| 0 <= i < branches.len() ==> (#[trigger] branches[i]).1.no_duplicates()
    &&& forall|i: int, j: int, l: int|
        0 <= i < branches.len() && 0 <= j < branches.len() && 0 <= l < branches[i].1.len()
            ==> #[trigger] branches[i].1[l] != #[trigger] branches[j].0
}

proof fn lemma_nested_none(b: Seq<(SectionView, Seq<SectionView>)>, p: PathView)
    requires
        forall|j: int| 0 <= j < b.len() ==> !runs(p, #[trigger] b[j].0),
    ensures
        nested_queries(b, p) == outers(b),
    decreases b.len(),
{
    if b.len() > 0 {
        let d = b.drop_last();
        assert forall|j: int| 0 <= j < d.len() implies !runs(p, #[trigger] d[j].0) by {
            assert(d[j] == b[j]);
        }
        lemma_nested_none(d, p);
        assert(!runs(p, b[b.len() - 1].0));
        assert(outers(d).push(b.last().0) =~= outers(b));
        assert(nested_queries(b, p) =~= outers(d) + seq![b.last().0]);
    } else {
        assert(outers(b) =~= Seq::<SectionView>::empty());
    }
}

proof fn lemma_nested_one(b: Seq<(SectionView, Seq<SectionView>)>, p: PathView, i: int)
    requires
        0 <= i < b.len(),
        forall|j: int| 0 <= j < b.len() ==> runs(p, #[trigger] b[j].0) == (j == i),
    ensures
        nested_queries(b, p) == outers(b).take(i + 1) + b[i].1 + outers(b).subrange(i + 1, b.len() as int),
    decreases b.len(),
{
    let d = b.drop_last();
    let o = outers(b);
    assert(outers(d) =~= o.take(b.len() - 1));
    if i == b.len() - 1 {
        assert forall|j: int| 0 <= j < d.len() implies !runs(p, #[trigger] d[j].0) by {
            assert(d[j] == b[j]);
        }
        lemma_nested_none(d, p);
        assert(runs(p, b[i].0));
        assert(nested_queries(b, p) =~= o.take(i + 1) + b[i].1 + o.subrange(i + 1, b.len() as int));
    } else {
        assert forall|j: int| 0 <= j < d.len() implies runs(p, #[trigger] d[j].0) == (j == i) by {
            assert(d[j] == b[j]);
        }
        lemma_nested_one(d, p, i);
        assert(!runs(p, b[b.len() - 1].0));
        assert(d[i] == b[i]);
        assert(nested_queries(b, p) =~= o.take(i + 1) + b[i].1 + o.subrange(i + 1, b.len() as int));
    }
}

proof fn lemma_outer_path_lookup(b: Seq<(SectionView, Seq<SectionView>)>, i: int, x: SectionView)
    requires
        0 <= i < b.len(),
    ensures
        lookup(outer_path(b, i), x) == if outers(b).contains(x) {
            Some(Entry { should_enter: x == b[i].0, index: 0 })
        } else {
            None::<Entry>
        },
{
    let e = Seq::<(SectionView, Entry)>::empty();
    lemma_lookup_extended(e, outers(b), outers(b)[i], x);
}

/// On a path that runs the `i`-th outer point and no other, the body reaches
/// the outer points and the inner ones of the `i`-th.
proof fn lemma_runs_only(b: Seq<(SectionView, Seq<SectionView>)>, p: PathView, i: int)
    requires
        nested_wf(b),
        0 <= i < b.len(),
        forall|j: int| 0 <= j < b.len() ==> lookup(p, #[trigger] b[j].0) == lookup(outer_path(b, i), b[j].0),
    ensures
        nested_queries(b, p) == outers(b).take(i + 1) + b[i].1 + outers(b).subrange(i + 1, b.len() as int),
{
    assert forall|j: int| 0 <= j < b.len() implies runs(p, #[trigger] b[j].0) == (j == i) by {
        lemma_outer_path_lookup(b, i, b[j].0);
        assert(outers(b)[j] == b[j].0);
        if j != i {
            assert(outers(b)[j] != outers(b)[i]);
        }
    }
    lemma_nested_one(b, p, i);
}

/// The pass on the `i`-th outer path finds the inner points of the `i`-th
/// outer one and queues one path for each.
proof fn lemma_outer_pass(b: Seq<(SectionView, Seq<SectionView>)>, body: BodyModel, m: RunnerView, i: int)
    requires
        nested_wf(b),
        0 <= i < b.len(),
        forall|p: PathView| #[trigger] body(p) == nested_queries(b, p),
        m.queue.len() > 0,
        m.queue[0] == outer_path(b, i),
    ensures
        next_pass(m, body).queue == m.queue.drop_first() + successors(outer_path(b, i), b[i].1),
{
    let p = outer_path(b, i);
    let o = outers(b);
    let m1 = step_spec(m).1;
    let a = o.take(i + 1);
    let c = o.subrange(i + 1, b.len() as int);
    let inner = b[i].1;
    assert forall|j: int| 0 <= j < b.len() implies lookup(p, #[trigger] b[j].0) == lookup(outer_path(b, i), b[j].0) by {}
    lemma_runs_only(b, p, i);
    assert(body(p) == a + inner + c);
    assert forall|j: int| 0 <= j < o.len() implies lookup(p, #[trigger] o[j]) is Some by {
        lemma_outer_path_lookup(b, i, o[j]);
        assert(o.contains(o[j]));
    }
    assert(knows_all(p, a)) by {
        assert forall|j: int| 0 <= j < a.len() implies lookup(p, #[trigger] a[j]) is Some by {
            assert(a[j] == o[j]);
        }
    }
    assert(knows_all(p, c)) by {
        assert forall|j: int| 0 <= j < c.len() implies lookup(p, #[trigger] c[j]) is Some by {
            assert(c[j] == o[j + i + 1]);
        }
    }
    lemma_queries_concat(m1, a + inner, c);
    lemma_queries_concat(m1, a, inner);
    lemma_queries_known(m1, a);
    assert forall|j: int| 0 <= j < inner.len() implies lookup(m1.current, #[trigger] inner[j]) is None by {
        lemma_outer_path_lookup(b, i, inner[j]);
        if o.contains(inner[j]) {
            let l = choose|l: int| 0 <= l < o.len() && o[l] == inner[j];
            assert(b[i].1[j] != b[l].0);
        }
    }
    assert forall|j: int| 0 <= j < inner.len() implies !m1.new.contains(#[trigger] inner[j]) by {}
    lemma_queries_fresh(m1, inner);
    let m3 = run_queries(m1, inner);
    assert(m3.new =~= inner);
    lemma_queries_known(m3, c);
}

/// A path queued by the pass on the `i`-th outer path knows every point the
/// body reaches on it, and runs the `i`-th outer point and the chosen inner one.
proof fn lemma_inner_path(b: Seq<(SectionView, Seq<SectionView>)>, body: BodyModel, i: int, l: int)
    requires
        nested_wf(b),
        0 <= i < b.len(),
        0 <= l < b[i].1.len(),
        forall|p: PathView| #[trigger] body(p) == nested_queries(b, p),
    ensures
        knows_all(extended(outer_path(b, i), b[i].1, b[i].1[l]), body(extended(outer_path(b, i), b[i].1, b[i].1[l]))),
        active_sections(extended(outer_path(b, i), b[i].1, b[i].1[l])) == seq![b[i].0, b[i].1[l]],
{
    let e = Seq::<(SectionView, Entry)>::empty();
    let o = outers(b);
    let p = outer_path(b, i);
    let inner = b[i].1;
    let q = extended(p, inner, inner[l]);
    assert forall|j: int| 0 <= j < b.len() implies lookup(q, #[trigger] b[j].0) == lookup(outer_path(b, i), b[j].0) by {
        lemma_lookup_extended(p, inner, inner[l], b[j].0);
        if inner.contains(b[j].0) {
            let x = choose|x: int| 0 <= x < inner.len() && inner[x] == b[j].0;
            assert(b[i].1[x] != b[j].0);
        }
    }
    lemma_runs_only(b, q, i);
    let qs = o.take(i + 1) + inner + o.subrange(i + 1, b.len() as int);
    assert forall|j: int| 0 <= j < qs.len() implies lookup(q, #[trigger] qs[j]) is Some by {
        lemma_lookup_extended(p, inner, inner[l], qs[j]);
        if i + 1 <= j < i + 1 + inner.len() {
            assert(qs[j] == inner[j - i - 1]);
            assert(inner.contains(qs[j]));
        } else {
            let k = if j < i + 1 { j } else { j - inner.len() };
            assert(qs[j] == o[k]);
            lemma_outer_path_lookup(b, i, o[k]);
            assert(o.contains(o[k]));
        }
    }
    lemma_active_extended(p, inner, inner[l]);
    assert(inner.contains(inner[l]));
    lemma_active_extended(e, o, o[i]);
    assert(o.contains(o[i]));
    assert(active_sections(e) =~= Seq::<SectionView>::empty());
    assert(active_sections(q) =~= seq![b[i].0, b[i].1[l]]);
}

proof fn lemma_inner_paths(b: Seq<(SectionView, Seq<SectionView>)>, body: BodyModel, j: nat)
    requires
        nested_wf(b),
        j <= b.len(),
        forall|p: PathView| #[trigger] body(p) == nested_queries(b, p),
    ensures
        forall|x: int| 0 <= x < inner_paths(b, j).len() ==> knows_all(
            #[trigger] inner_paths(b, j)[x],
            body(inner_paths(b, j)[x]),
        ),
        inner_paths(b, j).map_values(|p: PathView| active_sections(p)) == nested_passes(b.take(j as int)),
    decreases j,
{
    if j == 0 {
        assert(inner_paths(b, j).map_values(|p: PathView| active_sections(p)) =~= nested_passes(b.take(0)));
    } else {
        let i = j - 1;
        lemma_inner_paths(b, body, (j - 1) as nat);
        let prev = inner_paths(b, (j - 1) as nat);
        let s = successors(outer_path(b, i), b[i].1);
        assert(inner_paths(b, j) == prev + s);
        assert forall|x: int| 0 <= x < inner_paths(b, j).len() implies knows_all(
            #[trigger] inner_paths(b, j)[x],
            body(inner_paths(b, j)[x]),
        ) by {
            if x >= prev.len() {
                lemma_inner_path(b, body, i, x - prev.len());
            } else {
                assert(inner_paths(b, j)[x] == prev[x]);
            }
        }
        assert(b.take(j as int).drop_last() =~= b.take(i));
        assert(b.take(j as int).last() == b[i]);
        assert forall|x: int| 0 <= x < s.len() implies #[trigger] active_sections(s[x]) == seq![b[i].0, b[i].1[x]] by {
            lemma_inner_path(b, body, i, x);
        }
        assert(inner_paths(b, j).map_values(|p: PathView| active_sections(p)) =~= nested_passes(b.take(j as int)));
    }
}

proof fn lemma_outer_phase(b: Seq<(SectionView, Seq<SectionView>)>, body: BodyModel, m: RunnerView, j: nat, n: nat)
    requires
        nested_wf(b),
        j <= b.len(),
        forall|p: PathView| #[trigger] body(p) == nested_queries(b, p),
        m.queue == successors(Seq::empty(), outers(b)).subrange(j as int, b.len() as int) + inner_paths(b, j),
        n >= (b.len() - j) + inner_paths(b, b.len()).len(),
    ensures
        explore(m, body, n) == outers(b).subrange(j as int, b.len() as int).map_values(|o: SectionView| seq![o])
            + nested_passes(b),
        after(m, body, n).queue.len() == 0,
    decreases b.len() - j,
{
    let o = outers(b);
    let k = b.len();
    if j == k {
        lemma_inner_paths(b, body, j);
        assert(m.queue =~= inner_paths(b, j));
        lemma_drain(m, body, n);
        assert(b.take(k as int) =~= b);
        assert(o.subrange(j as int, k as int).map_values(|o: SectionView| seq![o]) =~= Seq::<Seq<SectionView>>::empty());
        assert(explore(m, body, n) =~= o.subrange(j as int, k as int).map_values(|o: SectionView| seq![o]) + nested_passes(b));
    } else {
        let e = Seq::<(SectionView, Entry)>::empty();
        assert(m.queue[0] == outer_path(b, j as int));
        lemma_outer_pass(b, body, m, j as int);
        let m2 = next_pass(m, body);
        assert(m2.queue =~= successors(e, o).subrange((j + 1) as int, k as int) + inner_paths(b, j + 1));
        lemma_outer_phase(b, body, m2, j + 1, (n - 1) as nat);
        lemma_active_extended(e, o, o[j as int]);
        assert(o.contains(o[j as int]));
        assert(active_sections(e) =~= Seq::<SectionView>::empty());
        assert(active_sections(m.queue[0]) == seq![o[j as int]]);
        assert(o.subrange(j as int, k as int).map_values(|o: SectionView| seq![o]) =~= seq![seq![o[j as int]]]
            + o.subrange((j + 1) as int, k as int).map_values(|o: SectionView| seq![o]));
        assert(explore(m, body, n) =~= o.subrange(j as int, k as int).map_values(|o: SectionView| seq![o]) + nested_passes(b));
    }
}

/// A body with outer branch points, each holding inner ones that it reaches
/// only when it runs, runs one pass that finds the outer points with none
/// running, one pass for each outer point alone, and then one pass for each
/// pair of an outer point and an inner one written in it: every such pair
/// exactly once, in the order found; then no path is left.
pub proof fn law_nested_sections(branches: Seq<(SectionView, Seq<SectionView>)>, body: BodyModel)
    requires
        nested_wf(branches),
        forall|p: PathView| #[trigger] body(p) == nested_queries(branches, p),
    ensures
        explore(fresh(), body, 1 + branches.len() + nested_passes(branches).len()) == seq![
            Seq::<SectionView>::empty(),
        ] + outers(branches).map_values(|o: SectionView| seq![o]) + nested_passes(branches),
        after(fresh(), body, 1 + branches.len() + nested_passes(branches).len()).queue.len() == 0,
{
    let b = branches;
    let o = outers(b);
    let n = 1 + b.len() + nested_passes(b).len();
    let m0 = fresh();
    let m1 = step_spec(m0).1;
    let e = Seq::<(SectionView, Entry)>::empty();
    assert(m1.current == e);
    assert forall|j: int| 0 <= j < b.len() implies !runs(e, #[trigger] b[j].0) by {}
    lemma_nested_none(b, e);
    assert forall|j: int| 0 <= j < o.len() implies lookup(m1.current, #[trigger] o[j]) is None by {}
    lemma_queries_fresh(m1, o);
    assert(m1.new + o =~= o);
    let m2 = next_pass(m0, body);
    assert(m2.queue =~= successors(e, o).subrange(0, b.len() as int) + inner_paths(b, 0));
    lemma_inner_paths(b, body, b.len());
    assert(b.take(b.len() as int) =~= b);
    assert(inner_paths(b, b.len()).len() == nested_passes(b).len());
    lemma_outer_phase(b, body, m2, 0, (n - 1) as nat);
    assert(o.subrange(0, b.len() as int) =~= o);
    assert(active_sections(m0.queue[0]) =~= Seq::<SectionView>::empty());
    assert(explore(m0, body, n) =~= seq![Seq::<SectionView>::empty()] + o.map_values(|o: SectionView| seq![o])
        + nested_passes(b));
}

} // verus!
