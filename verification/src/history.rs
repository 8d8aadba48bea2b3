//! The history walker's per-commit step: what facts a single commit
//! contributes for the directory being listed.
//!
//! A commit with one parent contributes one fact per changed path that
//! lies under the listed directory; the root commit (no parents)
//! contributes one fact per direct entry of the listed directory's
//! snapshot; a merge commit (two or more parents) contributes nothing.

use vstd::prelude::*;
use crate::model::{FileType, LastCommit, LastCommitView};
use crate::paths::{delta_fact, classify_delta, fact_view};

verus! {

/// One direct entry of a tree snapshot: its name and whether it is
/// itself a subtree.
pub struct TreeEntry {
    pub name: String,
    pub kind: FileType,
}

impl View for TreeEntry {
    type V = (Seq<char>, FileType);

    open spec fn view(&self) -> (Seq<char>, FileType) {
        (self.name@, self.kind)
    }
}

/// What a commit changed, already keyed by its parent count: the changed
/// paths of its diff against its single parent, the direct entries of the
/// listed directory's snapshot for the parentless root commit, or nothing
/// for a merge.
pub enum CommitChanges {
    Changed(Vec<String>),
    Initial(Vec<TreeEntry>),
    Merge,
}

/// Mathematical value of [`CommitChanges`].
pub enum ChangesView {
    Changed(Seq<Seq<char>>),
    Initial(Seq<(Seq<char>, FileType)>),
    Merge,
}

impl View for CommitChanges {
    type V = ChangesView;

    open spec fn view(&self) -> ChangesView {
        match self {
            CommitChanges::Changed(ps) => ChangesView::Changed(ps.deep_view()),
            CommitChanges::Initial(es) => ChangesView::Initial(
                es@.map_values(|e: TreeEntry| e@),
            ),
            CommitChanges::Merge => ChangesView::Merge,
        }
    }
}

/// Everything the walker reads of one commit: its summary line, its
/// timestamp in signed seconds since the epoch, and its changes.
pub struct CommitRecord {
    pub summary: String,
    pub time: i64,
    pub changes: CommitChanges,
}

/// Mathematical value of a [`CommitRecord`].
pub struct CommitView {
    pub summary: Seq<char>,
    pub time: int,
    pub changes: ChangesView,
}

impl View for CommitRecord {
    type V = CommitView;

    open spec fn view(&self) -> CommitView {
        CommitView { summary: self.summary@, time: self.time as int, changes: self.changes@ }
    }
}

impl DeepView for CommitRecord {
    type V = CommitView;

    open spec fn deep_view(&self) -> CommitView {
        self.view()
    }
}

/// How the walker treats a commit, decided by its parent count alone.
#[derive(Clone, Copy, PartialEq, Eq, Structural, Debug)]
pub enum CommitHandling {
    DiffAgainstParent,
    EnumerateRoot,
    Skip,
}

/// The handling a given parent count selects: one parent is diffed,
/// zero parents enumerate the root snapshot, two or more are skipped.
pub open spec fn spec_commit_handling(parent_count: int) -> CommitHandling {
    if parent_count == 1 {
        CommitHandling::DiffAgainstParent
    } else if parent_count == 0 {
        CommitHandling::EnumerateRoot
    } else {
        CommitHandling::Skip
    }
}

/// Decide how a commit is handled from its parent count.
pub fn commit_handling(parent_count: usize) -> (h: CommitHandling)
    ensures
        h == spec_commit_handling(parent_count as int),
{
    if parent_count == 1 {
        CommitHandling::DiffAgainstParent
    } else if parent_count == 0 {
        CommitHandling::EnumerateRoot
    } else {
        CommitHandling::Skip
    }
}

/// Mathematical value of a sequence of (component, attribution) facts.
pub open spec fn facts_view(v: Seq<(String, LastCommit)>) -> Seq<(Seq<char>, LastCommitView)> {
    v.map_values(|f: (String, LastCommit)| (f.0@, f.1@))
}

/// The facts an ordinary (single-parent) commit's changed paths
/// contribute, in diff order.
pub open spec fn spec_ordinary_facts(
    paths: Seq<Seq<char>>,
    dir: Seq<char>,
    summary: Seq<char>,
    time: int,
) -> Seq<(Seq<char>, LastCommitView)>
    decreases paths.len(),
{
    if paths.len() == 0 {
        Seq::empty()
    } else {
        let head = match delta_fact(paths[0], dir) {
            Some(f) => seq![
                (f.0, LastCommitView { summary, time, file_type: f.1 }),
            ],
            None => Seq::empty(),
        };
        head + spec_ordinary_facts(paths.drop_first(), dir, summary, time)
    }
}

/// The facts the root commit's snapshot entries contribute, one per
/// direct entry of the listed directory, in enumeration order.
pub open spec fn spec_initial_facts(
    entries: Seq<(Seq<char>, FileType)>,
    summary: Seq<char>,
    time: int,
) -> Seq<(Seq<char>, LastCommitView)> {
    entries.map_values(
        |e: (Seq<char>, FileType)|
            (e.0, LastCommitView { summary, time, file_type: e.1 }),
    )
}

/// All facts one commit contributes for the directory `dir`.
pub open spec fn spec_commit_facts(c: CommitView, dir: Seq<char>) -> Seq<
    (Seq<char>, LastCommitView),
> {
    match c.changes {
        ChangesView::Changed(ps) => spec_ordinary_facts(ps, dir, c.summary, c.time),
        ChangesView::Initial(es) => spec_initial_facts(es, c.summary, c.time),
        ChangesView::Merge => Seq::empty(),
    }
}

/// Every fact of a commit carries that commit's own summary and time.
pub proof fn lemma_facts_carry_commit(c: CommitView, dir: Seq<char>)
    ensures
        forall|i: int|
            0 <= i < spec_commit_facts(c, dir).len() ==> {
                &&& (#[trigger] spec_commit_facts(c, dir)[i]).1.summary == c.summary
                &&& spec_commit_facts(c, dir)[i].1.time == c.time
            },
{
    match c.changes {
        ChangesView::Changed(ps) => {
            lemma_ordinary_facts_carry(ps, dir, c.summary, c.time);
        },
        ChangesView::Initial(es) => {},
        ChangesView::Merge => {},
    }
}

proof fn lemma_ordinary_facts_carry(
    paths: Seq<Seq<char>>,
    dir: Seq<char>,
    summary: Seq<char>,
    time: int,
)
    ensures
        forall|i: int|
            0 <= i < spec_ordinary_facts(paths, dir, summary, time).len() ==> {
                &&& (#[trigger] spec_ordinary_facts(paths, dir, summary, time)[i]).1.summary
                    == summary
                &&& spec_ordinary_facts(paths, dir, summary, time)[i].1.time == time
            },
    decreases paths.len(),
{
    if paths.len() == 0 {
    } else {
        lemma_ordinary_facts_carry(paths.drop_first(), dir, summary, time);
    }
}

/// A component attributed from a diff never contains a separator.
pub proof fn lemma_changed_facts_components(
    paths: Seq<Seq<char>>,
    dir: Seq<char>,
    summary: Seq<char>,
    time: int,
)
    ensures
        forall|i: int|
            0 <= i < spec_ordinary_facts(paths, dir, summary, time).len() ==> crate::paths::no_slash(
                (#[trigger] spec_ordinary_facts(paths, dir, summary, time)[i]).0,
            ),
    decreases paths.len(),
{
    if paths.len() == 0 {
    } else {
        crate::paths::lemma_fact_component_no_slash(paths[0], dir);
        lemma_changed_facts_components(paths.drop_first(), dir, summary, time);
        let facts = spec_ordinary_facts(paths, dir, summary, time);
        let rest = spec_ordinary_facts(paths.drop_first(), dir, summary, time);
        assert forall|i: int| 0 <= i < facts.len() implies crate::paths::no_slash(
            (#[trigger] facts[i]).0,
        ) by {
            let head_len = facts.len() - rest.len();
            if i >= head_len {
                assert(facts[i] == rest[i - head_len]);
            }
        }
    }
}

/// Fact emission treats the changed paths one by one, left to right.
proof fn lemma_ordinary_facts_concat(
    a: Seq<Seq<char>>,
    b: Seq<Seq<char>>,
    dir: Seq<char>,
    summary: Seq<char>,
    time: int,
)
    ensures
        spec_ordinary_facts(a + b, dir, summary, time) == spec_ordinary_facts(
            a,
            dir,
            summary,
            time,
        ) + spec_ordinary_facts(b, dir, summary, time),
    decreases a.len(),
{
    if a.len() == 0 {
        assert(a + b =~= b);
        assert(Seq::empty() + spec_ordinary_facts(b, dir, summary, time) =~= spec_ordinary_facts(
            b,
            dir,
            summary,
            time,
        ));
    } else {
        assert((a + b).drop_first() =~= a.drop_first() + b);
        assert((a + b)[0] == a[0]);
        lemma_ordinary_facts_concat(a.drop_first(), b, dir, summary, time);
        assert(spec_ordinary_facts(a + b, dir, summary, time) =~= spec_ordinary_facts(
            a,
            dir,
            summary,
            time,
        ) + spec_ordinary_facts(b, dir, summary, time));
    }
}

/// The facts of a single changed path, written out.
proof fn lemma_ordinary_facts_single(p: Seq<char>, dir: Seq<char>, summary: Seq<char>, time: int)
    ensures
        spec_ordinary_facts(seq![p], dir, summary, time) == (match delta_fact(p, dir) {
            Some(f) => seq![(f.0, LastCommitView { summary, time, file_type: f.1 })],
            None => Seq::<(Seq<char>, LastCommitView)>::empty(),
        }),
{
    reveal_with_fuel(spec_ordinary_facts, 2);
    let single = seq![p];
    assert(single[0] == p);
    assert(single.len() == 1);
    assert(single.drop_first() =~= Seq::<Seq<char>>::empty());
    assert(single.drop_first().len() == 0);
    match delta_fact(p, dir) {
        Some(f) => {
            assert(spec_ordinary_facts(single, dir, summary, time) =~= seq![
                (f.0, LastCommitView { summary, time, file_type: f.1 }),
            ]);
        },
        None => {
            assert(spec_ordinary_facts(single, dir, summary, time) =~= Seq::<
                (Seq<char>, LastCommitView),
            >::empty());
        },
    }
}

/// Compute the facts `commit` contributes for the listed directory `dir`,
/// in the order the commit's changes enumerate them.
pub fn commit_facts(commit: &CommitRecord, dir: &str) -> (facts: Vec<(String, LastCommit)>)
    ensures
        facts_view(facts@) == spec_commit_facts(commit@, dir@),
{
    match &commit.changes {
        CommitChanges::Changed(ps) => {
            let mut out: Vec<(String, LastCommit)> = Vec::new();
            let mut i: usize = 0;
            while i < ps.len()
                invariant
                    i <= ps.len(),
                    facts_view(out@) == spec_ordinary_facts(
                        ps.deep_view().take(i as int),
                        dir@,
                        commit.summary@,
                        commit.time as int,
                    ),
                decreases ps.len() - i,
            {
                let ghost pre = ps.deep_view().take(i as int);
                let ghost p = ps.deep_view()[i as int];
                proof {
                    assert(p == ps@[i as int]@);
                    assert(ps.deep_view().take(i as int + 1) =~= pre + seq![p]);
                    lemma_ordinary_facts_concat(
                        pre,
                        seq![p],
                        dir@,
                        commit.summary@,
                        commit.time as int,
                    );
                    lemma_ordinary_facts_single(p, dir@, commit.summary@, commit.time as int);
                }
                match classify_delta(ps[i].as_str(), dir) {
                    Some(f) => {
                        let lc = LastCommit {
                            summary: commit.summary.clone(),
                            time: commit.time,
                            file_type: f.1,
                        };
                        let ghost old_out = out@;
                        out.push((f.0, lc));
                        proof {
                            assert(delta_fact(p, dir@) == Some((f.0@, f.1)));
                            assert(facts_view(out@) =~= facts_view(old_out) + seq![
                                (
                                    f.0@,
                                    LastCommitView {
                                        summary: commit.summary@,
                                        time: commit.time as int,
                                        file_type: f.1,
                                    },
                                ),
                            ]);
                            assert(facts_view(out@) =~= spec_ordinary_facts(
                                ps.deep_view().take(i as int + 1),
                                dir@,
                                commit.summary@,
                                commit.time as int,
                            ));
                        }
                    },
                    None => {
                        proof {
                            assert(delta_fact(p, dir@) is None);
                            assert(facts_view(out@) =~= spec_ordinary_facts(
                                ps.deep_view().take(i as int + 1),
                                dir@,
                                commit.summary@,
                                commit.time as int,
                            ));
                        }
                    },
                }
                i += 1;
            }
            proof {
                assert(ps.deep_view().take(ps.deep_view().len() as int) =~= ps.deep_view());
            }
            out
        },
        CommitChanges::Initial(es) => {
            let mut out: Vec<(String, LastCommit)> = Vec::new();
            let mut i: usize = 0;
            while i < es.len()
                invariant
                    i <= es.len(),
                    facts_view(out@) == spec_initial_facts(
                        es@.map_values(|e: TreeEntry| e@).take(i as int),
                        commit.summary@,
                        commit.time as int,
                    ),
                decreases es.len() - i,
            {
                let lc = LastCommit {
                    summary: commit.summary.clone(),
                    time: commit.time,
                    file_type: es[i].kind,
                };
                let ghost old_out = out@;
                out.push((es[i].name.clone(), lc));
                proof {
                    let evs = es@.map_values(|e: TreeEntry| e@);
                    let goal = spec_initial_facts(
                        evs.take(i as int + 1),
                        commit.summary@,
                        commit.time as int,
                    );
                    assert(evs.len() == es@.len());
                    assert(facts_view(old_out).len() == old_out.len());
                    assert(spec_initial_facts(
                        evs.take(i as int),
                        commit.summary@,
                        commit.time as int,
                    ).len() == i as int);
                    assert(old_out.len() == i as int);
                    assert(out@ == old_out.push((es@[i as int].name, lc)));
                    assert(facts_view(out@).len() == out@.len());
                    assert(goal.len() == i as int + 1);
                    assert(facts_view(out@).len() == goal.len());
                    assert forall|k: int| 0 <= k < goal.len() implies facts_view(out@)[k]
                        == goal[k] by {
                        if k < i as int {
                            assert(facts_view(old_out)[k] == spec_initial_facts(
                                evs.take(i as int),
                                commit.summary@,
                                commit.time as int,
                            )[k]);
                            assert(out@[k] == old_out[k]);
                            assert(evs.take(i as int)[k] == evs.take(i as int + 1)[k]);
                        } else {
                            assert(evs[i as int] == es@[i as int]@);
                        }
                    }
                    assert(facts_view(out@) =~= goal);
                }
                i += 1;
            }
            proof {
                assert(es@.map_values(|e: TreeEntry| e@).take(es@.len() as int) =~= es@.map_values(
                    |e: TreeEntry| e@,
                ));
            }
            out
        },
        CommitChanges::Merge => {
            let out: Vec<(String, LastCommit)> = Vec::new();
            proof {
                assert(facts_view(out@) =~= Seq::<(Seq<char>, LastCommitView)>::empty());
            }
            out
        },
    }
}

} // verus!
