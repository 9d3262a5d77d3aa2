use vstd::prelude::*;

verus! {

/// What a [`Section`] is identified by: its label, its file and its line.
pub type SectionView = (Seq<char>, Seq<char>, u32);

/// The identity of one branch point: a label and the source location where it
/// is written. Two branch points are the same section exactly when all three
/// parts agree.
pub struct Section {
    pub name: String,
    pub file: String,
    pub line: u32,
}

impl View for Section {
    type V = SectionView;

    open spec fn view(&self) -> SectionView {
        (self.name@, self.file@, self.line)
    }
}

impl Section {
    pub fn new(name: &str, file: &str, line: u32) -> (s: Section)
        ensures
            s@ == (name@, file@, line),
    {
        Section { name: name.to_owned(), file: file.to_owned(), line }
    }

    pub fn same(&self, other: &Section) -> (r: bool)
        ensures
            r == (self@ == other@),
    {
        self.line == other.line && self.name == other.name && self.file == other.file
    }

    pub fn copy(&self) -> (s: Section)
        ensures
            s@ == self@,
    {
        Section { name: self.name.clone(), file: self.file.clone(), line: self.line }
    }
}

/// The decision recorded for one section on one path: whether it runs, and
/// its rank among the sections of the path that run.
#[derive(Clone, Copy, PartialEq, Eq, Structural)]
pub struct Entry {
    pub should_enter: bool,
    pub index: usize,
}

/// A path seen as a sequence: each known section with its decision, in the
/// order the sections were discovered.
pub type PathView = Seq<(SectionView, Entry)>;

/// One combination of decisions, for every section discovered so far.
pub struct Path {
    pub entries: Vec<(Section, Entry)>,
}

impl View for Path {
    type V = PathView;

    open spec fn view(&self) -> PathView {
        self.entries@.map_values(|p: (Section, Entry)| (p.0@, p.1))
    }
}

/// The decision that `p` records for `s`, if `s` is known to it.
pub open spec fn lookup(p: PathView, s: SectionView) -> Option<Entry>
    decreases p.len(),
{
    if p.len() == 0 {
        None
    } else if p.last().0 == s {
        Some(p.last().1)
    } else {
        lookup(p.drop_last(), s)
    }
}

/// No section occurs twice in `p`.
pub open spec fn keys_unique(p: PathView) -> bool {
    forall|i: int, j: int| 0 <= i < j < p.len() ==> p[i].0 != p[j].0
}

/// The number of sections that `p` marks to run.
pub open spec fn n_active(p: PathView) -> nat
    decreases p.len(),
{
    if p.len() == 0 {
        0
    } else {
        n_active(p.drop_last()) + if p.last().1.should_enter { 1nat } else { 0nat }
    }
}

/// Each section that runs is ranked by the number of running sections
/// before it, so the ranks of the running sections count up from zero in
/// the order of the path.
pub open spec fn ranks_ordered(p: PathView) -> bool {
    forall|i: int|
        0 <= i < p.len() && #[trigger] p[i].1.should_enter ==> p[i].1.index == n_active(
            p.subrange(0, i),
        )
}

/// A path that the runner can hold: no section twice, ranks in order.
pub open spec fn path_wf(p: PathView) -> bool {
    keys_unique(p) && ranks_ordered(p)
}

/// The sections that run on path `p`, in the order of the path.
pub open spec fn active_sections(p: PathView) -> Seq<SectionView>
    decreases p.len(),
{
    if p.len() == 0 {
        Seq::empty()
    } else if p.last().1.should_enter {
        active_sections(p.drop_last()).push(p.last().0)
    } else {
        active_sections(p.drop_last())
    }
}

/// The set of sections that run on path `p`.
pub open spec fn active_set(p: PathView) -> Set<SectionView> {
    active_sections(p).to_set()
}

pub proof fn lemma_lookup_none(p: PathView, s: SectionView)
    ensures
        lookup(p, s) is None <==> forall|i: int| 0 <= i < p.len() ==> p[i].0 != s,
    decreases p.len(),
{
    if p.len() > 0 {
        lemma_lookup_none(p.drop_last(), s);
        assert(forall|i: int| 0 <= i < p.len() - 1 ==> p.drop_last()[i] == p[i]);
    }
}

pub proof fn lemma_lookup_at(p: PathView, i: int)
    requires
        keys_unique(p),
        0 <= i < p.len(),
    ensures
        lookup(p, p[i].0) == Some(p[i].1),
    decreases p.len(),
{
    if i < p.len() - 1 {
        lemma_lookup_at(p.drop_last(), i);
    }
}

pub proof fn lemma_n_active_bound(p: PathView)
    ensures
        n_active(p) <= p.len(),
    decreases p.len(),
{
    if p.len() > 0 {
        lemma_n_active_bound(p.drop_last());
    }
}

pub proof fn lemma_active_len(p: PathView)
    ensures
        active_sections(p).len() == n_active(p),
    decreases p.len(),
{
    if p.len() > 0 {
        lemma_active_len(p.drop_last());
    }
}

/// Every section that runs is known to the path and marked to run.
pub proof fn lemma_active_known(p: PathView, i: int)
    requires
        0 <= i < active_sections(p).len(),
    ensures
        exists|j: int| 0 <= j < p.len() && p[j].0 == active_sections(p)[i] && p[j].1.should_enter,
    decreases p.len(),
{
    let q = p.drop_last();
    if p.last().1.should_enter && i == active_sections(q).len() {
        assert(p[p.len() - 1].0 == active_sections(p)[i]);
    } else {
        lemma_active_known(q, i);
        let j = choose|j: int| 0 <= j < q.len() && q[j].0 == active_sections(q)[i] && q[j].1.should_enter;
        assert(p[j] == q[j]);
    }
}

/// On a well-formed path, the `i`-th running section has rank `i`.
pub proof fn lemma_active_rank(p: PathView, i: int)
    requires
        path_wf(p),
        0 <= i < active_sections(p).len(),
    ensures
        lookup(p, active_sections(p)[i]) == Some(Entry { should_enter: true, index: i as usize }),
    decreases p.len(),
{
    let q = p.drop_last();
    let x = p.last();
    assert(path_wf(q)) by {
        assert forall|a: int| 0 <= a < q.len() && #[trigger] q[a].1.should_enter implies q[a].1.index
            == n_active(q.subrange(0, a)) by {
            assert(q.subrange(0, a) =~= p.subrange(0, a));
            assert(q[a] == p[a]);
        }
    }
    lemma_active_len(q);
    if x.1.should_enter && i == active_sections(q).len() {
        assert(p.subrange(0, p.len() - 1) =~= q);
        assert(p[p.len() - 1] == x);
    } else {
        lemma_active_rank(q, i);
        lemma_active_known(q, i);
        let j = choose|j: int| 0 <= j < q.len() && q[j].0 == active_sections(q)[i] && q[j].1.should_enter;
        assert(p[j] == q[j]);
        assert(x.0 != active_sections(q)[i]) by {
            assert(p[p.len() - 1] == x);
        }
    }
}

impl Path {
    pub fn empty() -> (p: Path)
        ensures
            p@ == Seq::<(SectionView, Entry)>::empty(),
    {
        Path { entries: Vec::new() }
    }

    /// The decision recorded for `s`, if any.
    pub fn find(&self, s: &Section) -> (r: Option<Entry>)
        requires
            keys_unique(self@),
        ensures
            r == lookup(self@, s@),
    {
        let n = self.entries.len();
        let mut i: usize = 0;
        while i < n
            invariant
                n == self.entries@.len(),
                i <= n,
                keys_unique(self@),
                forall|j: int| 0 <= j < i ==> self@[j].0 != s@,
            decreases n - i,
        {
            if self.entries[i].0.same(s) {
                proof {
                    lemma_lookup_at(self@, i as int);
                }
                return Some(self.entries[i].1);
            }
            i = i + 1;
        }
        proof {
            lemma_lookup_none(self@, s@);
        }
        None
    }

    /// The number of sections marked to run.
    pub fn count_active(&self) -> (n: usize)
        ensures
            n == n_active(self@),
    {
        let len = self.entries.len();
        let mut i: usize = 0;
        let mut n: usize = 0;
        while i < len
            invariant
                len == self.entries@.len(),
                i <= len,
                n == n_active(self@.subrange(0, i as int)),
                n <= i,
            decreases len - i,
        {
            proof {
                assert(self@.subrange(0, i as int + 1).drop_last() =~= self@.subrange(0, i as int));
            }
            if self.entries[i].1.should_enter {
                n = n + 1;
            }
            i = i + 1;
        }
        proof {
            assert(self@.subrange(0, len as int) =~= self@);
        }
        n
    }

    /// The sections marked to run, in the order of the path.
    pub fn active(&self) -> (r: Vec<Section>)
        ensures
            r@.map_values(|s: Section| s@) == active_sections(self@),
    {
        let len = self.entries.len();
        let mut r: Vec<Section> = Vec::new();
        let mut i: usize = 0;
        while i < len
            invariant
                len == self.entries@.len(),
                i <= len,
                r@.map_values(|s: Section| s@) =~= active_sections(self@.subrange(0, i as int)),
            decreases len - i,
        {
            proof {
                assert(self@.subrange(0, i as int + 1).drop_last() =~= self@.subrange(0, i as int));
            }
            if self.entries[i].1.should_enter {
                r.push(self.entries[i].0.copy());
            }
            i = i + 1;
        }
        proof {
            assert(self@.subrange(0, len as int) =~= self@);
        }
        r
    }

    pub fn copy(&self) -> (p: Path)
        ensures
            p@ == self@,
    {
        let len = self.entries.len();
        let mut entries: Vec<(Section, Entry)> = Vec::new();
        let mut i: usize = 0;
        while i < len
            invariant
                len == self.entries@.len(),
                i <= len,
                entries@.map_values(|p: (Section, Entry)| (p.0@, p.1)) =~= self@.subrange(0, i as int),
            decreases len - i,
        {
            let e = &self.entries[i];
            let ghost before = entries@;
            entries.push((e.0.copy(), e.1));
            proof {
                assert(entries@ == before.push(entries@.last()));
                assert(self@.subrange(0, i as int + 1) =~= self@.subrange(0, i as int).push(
                    self@[i as int],
                ));
            }
            i = i + 1;
        }
        Path { entries }
    }
}

} // verus!
