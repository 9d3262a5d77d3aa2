use vstd::prelude::*;
use std::collections::VecDeque;
use crate::report::{failure_report, report_text};
use crate::section::{
    active_sections, lemma_active_rank, lemma_lookup_none, lemma_n_active_bound, lookup, n_active,
    path_wf, Entry, Path, PathView, Section, SectionView,
};

verus! {

/// The exploration state seen as values.
pub struct RunnerView {
    /// A pass is in progress.
    pub running: bool,
    /// The paths still to be run, first to run first.
    pub queue: Seq<PathView>,
    /// The path of the pass in progress (or of the last pass).
    pub current: PathView,
    /// The sections that the pass in progress found and `current` does not know.
    pub new: Seq<SectionView>,
}

/// The state of a runner that starts a test: one empty path to run.
pub open spec fn fresh() -> RunnerView {
    RunnerView {
        running: false,
        queue: seq![Seq::empty()],
        current: Seq::empty(),
        new: Seq::empty(),
    }
}

/// Starting a test: refused while a pass is in progress (the caller is then
/// nested inside a test that drives the passes), else a reset.
pub open spec fn start_spec(m: RunnerView) -> (bool, RunnerView) {
    if m.running {
        (false, m)
    } else {
        (true, fresh())
    }
}

/// Starting a pass: the first queued path becomes the current one.
pub open spec fn step_spec(m: RunnerView) -> (bool, RunnerView) {
    if m.queue.len() == 0 {
        (false, m)
    } else {
        (true, RunnerView { running: true, queue: m.queue.drop_first(), current: m.queue[0], new: Seq::empty() })
    }
}

/// Asking whether section `s` runs on this pass: the current path's decision
/// where it has one; else no, and `s` is noted as found (once).
pub open spec fn query_spec(m: RunnerView, s: SectionView) -> (bool, RunnerView) {
    match lookup(m.current, s) {
        Some(e) => (e.should_enter, m),
        None => (false, if m.new.contains(s) { m } else { RunnerView { new: m.new.push(s), ..m } }),
    }
}

/// The path that runs `chosen` among the sections `new` found on path `cur`:
/// `cur` with every section of `new` added, `chosen` alone marked to run, all
/// ranked after the sections that `cur` runs.
pub open spec fn extended(cur: PathView, new: Seq<SectionView>, chosen: SectionView) -> PathView {
    cur + new.map_values(
        |t: SectionView| (t, Entry { should_enter: t == chosen, index: n_active(cur) as usize }),
    )
}

/// The paths that a completed pass on `cur` that found `new` adds to the queue:
/// one for each found section, in the order they were found.
pub open spec fn successors(cur: PathView, new: Seq<SectionView>) -> Seq<PathView> {
    new.map_values(|s: SectionView| extended(cur, new, s))
}

/// Ending a pass: only a top-level pass changes the state. It is no longer
/// in progress; if it completed, the paths for the sections it found are queued.
pub open spec fn finish_spec(m: RunnerView, top: bool, success: bool) -> RunnerView {
    if !top {
        m
    } else if success {
        RunnerView {
            running: false,
            queue: m.queue + successors(m.current, m.new),
            current: m.current,
            new: Seq::empty(),
        }
    } else {
        RunnerView { running: false, ..m }
    }
}

/// The states a runner can be in.
pub open spec fn runner_wf(m: RunnerView) -> bool {
    &&& path_wf(m.current)
    &&& forall|i: int| 0 <= i < m.queue.len() ==> path_wf(#[trigger] m.queue[i])
    &&& m.new.no_duplicates()
    &&& forall|i: int| 0 <= i < m.new.len() ==> lookup(m.current, #[trigger] m.new[i]) is None
}

proof fn lemma_n_active_inactive_tail(p: PathView, t: PathView)
    requires
        forall|i: int| 0 <= i < t.len() ==> !(#[trigger] t[i]).1.should_enter,
    ensures
        n_active(p + t) == n_active(p),
    decreases t.len(),
{
    if t.len() > 0 {
        assert((p + t).drop_last() =~= p + t.drop_last());
        lemma_n_active_inactive_tail(p, t.drop_last());
    } else {
        assert(p + t =~= p);
    }
}

pub proof fn lemma_extended_wf(cur: PathView, new: Seq<SectionView>, k: int)
    requires
        path_wf(cur),
        new.no_duplicates(),
        forall|i: int| 0 <= i < new.len() ==> lookup(cur, #[trigger] new[i]) is None,
        0 <= k < new.len(),
        cur.len() <= usize::MAX,
    ensures
        path_wf(extended(cur, new, new[k])),
{
    let p = extended(cur, new, new[k]);
    let c = cur.len() as int;
    lemma_n_active_bound(cur);
    assert forall|i: int, j: int| 0 <= i < j < p.len() implies p[i].0 != p[j].0 by {
        if j >= c && i < c {
            lemma_lookup_none(cur, new[j - c]);
        }
    }
    assert forall|i: int| 0 <= i < p.len() && #[trigger] p[i].1.should_enter implies p[i].1.index
        == n_active(p.subrange(0, i)) by {
        if i < c {
            assert(p.subrange(0, i) =~= cur.subrange(0, i));
        } else {
            let t = p.subrange(c, i);
            assert(p.subrange(0, i) =~= cur + t);
            assert(new[i - c] == new[k]);
            assert(i - c == k);
            assert forall|m: int| 0 <= m < t.len() implies !(#[trigger] t[m]).1.should_enter by {
                assert(t[m] == p[c + m]);
                assert(new[m] != new[k]);
            }
            lemma_n_active_inactive_tail(cur, t);
        }
    }
}

/// Exploration state for one test, owned by the thread that runs it.
pub struct Runner {
    running: bool,
    queue: VecDeque<Path>,
    current: Path,
    new: Vec<Section>,
}

impl View for Runner {
    type V = RunnerView;

    closed spec fn view(&self) -> RunnerView {
        RunnerView {
            running: self.running,
            queue: self.queue@.map_values(|p: Path| p@),
            current: self.current@,
            new: self.new@.map_values(|s: Section| s@),
        }
    }
}

impl Runner {
    pub open spec fn wf(&self) -> bool {
        runner_wf(self@)
    }

    pub fn new() -> (r: Runner)
        ensures
            r@ == fresh(),
            r.wf(),
    {
        let mut queue: VecDeque<Path> = VecDeque::new();
        queue.push_back(Path::empty());
        let r = Runner { running: false, queue, current: Path::empty(), new: Vec::new() };
        assert(r@.queue =~= fresh().queue);
        assert(r@.new =~= fresh().new);
        r
    }
}

/// Begins a test. Returns true, after resetting `r` to a fresh state, when no
/// pass is in progress: the caller then drives the passes. Returns false, with
/// `r` unchanged, inside a pass: the caller is nested in a test already driven.
pub fn enable_sections_start(r: &mut Runner) -> (top: bool)
    requires
        old(r).wf(),
    ensures
        final(r).wf(),
        (top, final(r)@) == start_spec(old(r)@),
{
    if r.running {
        false
    } else {
        *r = Runner::new();
        true
    }
}

/// Begins the next pass: takes the first queued path as the current one and
/// returns true, or returns false when no path is left.
pub fn enable_sections_step(r: &mut Runner) -> (more: bool)
    requires
        old(r).wf(),
    ensures
        final(r).wf(),
        (more, final(r)@) == step_spec(old(r)@),
{
    match r.queue.pop_front() {
        Some(current) => {
            r.current = current;
            r.new = Vec::new();
            r.running = true;
            assert(r@.queue =~= old(r)@.queue.drop_first());
            assert(r@.new =~= Seq::<SectionView>::empty());
            assert(path_wf(old(r)@.queue[0]));
            assert forall|i: int| 0 <= i < r@.queue.len() implies path_wf(#[trigger] r@.queue[i]) by {
                assert(r@.queue[i] == old(r)@.queue[i + 1]);
                assert(path_wf(old(r)@.queue[i + 1]));
            }
            true
        },
        None => false,
    }
}

/// Whether the branch point `name` at `file:line` runs on this pass.
pub fn enter_section(r: &mut Runner, name: &str, file: &str, line: u32) -> (go: bool)
    requires
        old(r).wf(),
    ensures
        final(r).wf(),
        (go, final(r)@) == query_spec(old(r)@, (name@, file@, line)),
{
    let section = Section::new(name, file, line);
    match r.current.find(&section) {
        Some(e) => e.should_enter,
        None => {
            let n = r.new.len();
            let mut i: usize = 0;
            while i < n
                invariant
                    n == r.new@.len(),
                    i <= n,
                    r.wf(),
                    r@ == old(r)@,
                    section@ == (name@, file@, line),
                    lookup(r@.current, section@) is None,
                    forall|j: int| 0 <= j < i ==> r@.new[j] != section@,
                decreases n - i,
            {
                if r.new[i].same(&section) {
                    assert(r@.new[i as int] == section@);
                    assert(r@.new.contains(section@));
                    return false;
                }
                i = i + 1;
            }
            let ghost s = section@;
            r.new.push(section);
            proof {
                let m = old(r)@;
                assert(r@.new =~= m.new.push(s));
                assert(!m.new.contains(s));
                assert forall|a: int| 0 <= a < r@.queue.len() implies path_wf(#[trigger] r@.queue[a]) by {
                    assert(r@.queue[a] == m.queue[a]);
                }
                assert forall|a: int| 0 <= a < r@.new.len() implies lookup(r@.current, #[trigger] r@.new[a]) is None by {
                    if a < m.new.len() {
                        assert(r@.new[a] == m.new[a]);
                    }
                }
                assert(r@.new.no_duplicates()) by {
                    assert forall|a: int, b: int| 0 <= a < b < r@.new.len() implies r@.new[a] != r@.new[b] by {
                        if b == r@.new.len() - 1 {
                            assert(m.new[a] != s);
                        } else {
                            assert(m.new[a] != m.new[b]);
                        }
                    }
                }
            }
            false
        },
    }
}

/// Whether a pass is in progress.
pub fn is_running(r: &Runner) -> (b: bool)
    ensures
        b == r@.running,
{
    r.running
}

/// Closes one pass of a test body: `is_top_level` tells whether the body
/// drives the passes, `was_success` whether it ran to its end.
pub struct DropHandler {
    pub is_top_level: bool,
    pub was_success: bool,
}

/// The sections that run on the current path, ordered by rank: the `i`-th of
/// them has rank `i`, so the outermost comes first.
pub fn failure_sections(r: &Runner) -> (secs: Vec<Section>)
    requires
        r.wf(),
    ensures
        secs@.map_values(|s: Section| s@) == active_sections(r@.current),
        forall|i: int|
            0 <= i < secs@.len() ==> lookup(r@.current, #[trigger] secs@[i]@) == Some(
                Entry { should_enter: true, index: i as usize },
            ),
{
    let secs = r.current.active();
    proof {
        assert forall|i: int| 0 <= i < secs@.len() implies lookup(r@.current, #[trigger] secs@[i]@)
            == Some(Entry { should_enter: true, index: i as usize }) by {
            assert(secs@.map_values(|s: Section| s@)[i] == secs@[i]@);
            lemma_active_rank(r@.current, i);
        }
    }
    secs
}

impl DropHandler {
    /// Ends the pass in `r` as `finish_spec` describes. Returns the report of
    /// a top-level pass that aborted (empty when no section was running), and
    /// an empty text otherwise.
    pub fn finish(&self, r: &mut Runner) -> (report: String)
        requires
            old(r).wf(),
        ensures
            final(r).wf(),
            final(r)@ == finish_spec(old(r)@, self.is_top_level, self.was_success),
            report@ == if self.is_top_level && !self.was_success {
                report_text(active_sections(old(r)@.current))
            } else {
                Seq::<char>::empty()
            },
    {
        if !self.is_top_level {
            return String::new();
        }
        if !self.was_success {
            let secs = failure_sections(r);
            let report = failure_report(&secs);
            r.running = false;
            assert forall|i: int| 0 <= i < r@.queue.len() implies path_wf(#[trigger] r@.queue[i]) by {
                assert(r@.queue[i] == old(r)@.queue[i]);
            }
            assert forall|i: int| 0 <= i < r@.new.len() implies lookup(r@.current, #[trigger] r@.new[i]) is None by {
                assert(r@.new[i] == old(r)@.new[i]);
            }
            return report;
        }
        r.running = false;
        assert forall|i: int| 0 <= i < r@.queue.len() implies path_wf(#[trigger] r@.queue[i]) by {
            assert(r@.queue[i] == old(r)@.queue[i]);
        }
        assert forall|i: int| 0 <= i < r@.new.len() implies lookup(r@.current, #[trigger] r@.new[i]) is None by {
            assert(r@.new[i] == old(r)@.new[i]);
        }
        {
            let mut new: Vec<Section> = Vec::new();
            std::mem::swap(&mut r.new, &mut new);
            proof {
                assert(new@.map_values(|s: Section| s@) == old(r)@.new);
                assert forall|i: int| 0 <= i < new@.len() implies lookup(r@.current, #[trigger] new@[i]@) is None by {
                    assert(old(r)@.new[i] == new@[i]@);
                }
            }
            queue_successors(r, &new);
            assert(r@.new =~= Seq::<SectionView>::empty());
        }
        String::new()
    }
}

/// Queues one path for each section of `new`, found on the current path.
fn queue_successors(r: &mut Runner, new: &Vec<Section>)
    requires
        path_wf(old(r)@.current),
        forall|i: int| 0 <= i < old(r)@.queue.len() ==> path_wf(#[trigger] old(r)@.queue[i]),
        new@.map_values(|s: Section| s@).no_duplicates(),
        forall|i: int| 0 <= i < new@.len() ==> lookup(old(r)@.current, #[trigger] new@[i]@) is None,
    ensures
        final(r)@ == (RunnerView {
            queue: old(r)@.queue + successors(old(r)@.current, new@.map_values(|s: Section| s@)),
            ..old(r)@
        }),
        forall|i: int| 0 <= i < final(r)@.queue.len() ==> path_wf(#[trigger] final(r)@.queue[i]),
{
    let ghost nv = new@.map_values(|s: Section| s@);
    let ghost cur = r@.current;
    let ghost q0 = r@.queue;
    let clen = r.current.entries.len();
    assert(cur.len() == clen);
    let count = r.current.count_active();
    let n = new.len();
    let mut i: usize = 0;
    while i < n
        invariant
            n == new@.len(),
            i <= n,
            nv == new@.map_values(|s: Section| s@),
            nv.no_duplicates(),
            forall|k: int| 0 <= k < nv.len() ==> lookup(cur, #[trigger] nv[k]) is None,
            path_wf(cur),
            cur == r@.current,
            count == n_active(cur),
            r@ == (RunnerView { queue: q0 + successors(cur, nv).take(i as int), ..old(r)@ }),
                cur.len() <= usize::MAX,
        decreases n - i,
    {
        let mut path = r.current.copy();
        let mut j: usize = 0;
        while j < n
            invariant
                n == new@.len(),
                i < n,
                j <= n,
                nv == new@.map_values(|s: Section| s@),
                nv.no_duplicates(),
                count == n_active(cur),
                path@ == cur + nv.take(j as int).map_values(
                    |t: SectionView| (t, Entry { should_enter: t == nv[i as int], index: n_active(cur) as usize }),
                ),
            decreases n - j,
        {
            let ghost before = path@;
            path.entries.push((new[j].copy(), Entry { should_enter: i == j, index: count }));
            proof {
                assert(path@ =~= before.push((nv[j as int], Entry { should_enter: i == j, index: count })));
                assert(nv[j as int] == nv[i as int] ==> i == j);
                assert(nv.take(j as int + 1) =~= nv.take(j as int).push(nv[j as int]));
            }
            j = j + 1;
        }
        proof {
            assert(nv.take(n as int) =~= nv);
            assert(path@ == extended(cur, nv, nv[i as int]));
            assert(successors(cur, nv).take(i as int + 1) =~= successors(cur, nv).take(i as int).push(path@));
        }
        let ghost pv = path@;
        let ghost before = r.queue@;
        r.queue.push_back(path);
        proof {
            assert(r.queue@ == before.push(path));
            assert(r@.queue =~= before.map_values(|p: Path| p@).push(pv));
            assert(r@.queue =~= q0 + successors(cur, nv).take(i as int + 1));
        }
        i = i + 1;
    }
    proof {
        assert(successors(cur, nv).take(n as int) =~= successors(cur, nv));
        assert forall|k: int| 0 <= k < r@.queue.len() implies path_wf(#[trigger] r@.queue[k]) by {
            if k >= q0.len() {
                lemma_extended_wf(cur, nv, k - q0.len());
            }
        }
    }
}

} // verus!
