//! The attribution resolver: a first-write-wins fold of the fact stream
//! the history walker emits, the restriction of the result to the entries
//! actually present in the listed directory, and the final ordered rows.
//!
//! The walk hands facts over newest commit first, so the first fact
//! recorded for a path component permanently wins: the resolved mapping
//! holds the most recent qualifying commit for every component.

use vstd::prelude::*;
use crate::model::{FileType, LastCommit, LastCommitView, Row, RowView};
use crate::history::{CommitRecord, CommitView, commit_facts, spec_commit_facts, facts_view,
    lemma_facts_carry_commit};
use crate::paths::str_eq;
use crate::render::{age_seconds, duration_to_time_since, spec_age, spec_time_since};
use crate::sorting::{rows_view, sort_rows, spec_sort_rows};

verus! {

/// Whether the entry sequence `m` holds a binding for the component `k`.
pub open spec fn has_key(m: Seq<(Seq<char>, LastCommitView)>, k: Seq<char>) -> bool {
    exists|i: int| 0 <= i < m.len() && m[i].0 == k
}

/// Index of the first binding for `k` in `m`, or `m.len()` when there is
/// none.
pub open spec fn first_key_index(m: Seq<(Seq<char>, LastCommitView)>, k: Seq<char>) -> int
    decreases m.len(),
{
    if m.len() == 0 {
        0
    } else if m[0].0 == k {
        0
    } else {
        1 + first_key_index(m.drop_first(), k)
    }
}

/// The attribution the first binding for `k` carries.
pub open spec fn lookup(m: Seq<(Seq<char>, LastCommitView)>, k: Seq<char>) -> LastCommitView
    recommends
        has_key(m, k),
{
    m[first_key_index(m, k)].1
}

/// No component is bound twice.
pub open spec fn keys_distinct(m: Seq<(Seq<char>, LastCommitView)>) -> bool {
    forall|i: int, j: int| 0 <= i < j < m.len() ==> m[i].0 != m[j].0
}

/// First-write-wins insertion of one fact: a component already bound
/// keeps its binding, an unbound one is bound at the end.
pub open spec fn insert_fact(
    m: Seq<(Seq<char>, LastCommitView)>,
    f: (Seq<char>, LastCommitView),
) -> Seq<(Seq<char>, LastCommitView)> {
    if has_key(m, f.0) {
        m
    } else {
        m.push(f)
    }
}

/// First-write-wins insertion of a fact sequence, in order.
pub open spec fn fold_facts(
    m: Seq<(Seq<char>, LastCommitView)>,
    fs: Seq<(Seq<char>, LastCommitView)>,
) -> Seq<(Seq<char>, LastCommitView)>
    decreases fs.len(),
{
    if fs.len() == 0 {
        m
    } else {
        fold_facts(insert_fact(m, fs[0]), fs.drop_first())
    }
}

/// The mapping after folding in every commit of `h`, in sequence order,
/// starting from `m`.
pub open spec fn resolve_from(
    m: Seq<(Seq<char>, LastCommitView)>,
    h: Seq<CommitView>,
    dir: Seq<char>,
) -> Seq<(Seq<char>, LastCommitView)>
    decreases h.len(),
{
    if h.len() == 0 {
        m
    } else {
        resolve_from(fold_facts(m, spec_commit_facts(h[0], dir)), h.drop_first(), dir)
    }
}

/// The resolved mapping of a history `h`, handed over newest commit
/// first, for the listed directory `dir`.
pub open spec fn spec_resolve(h: Seq<CommitView>, dir: Seq<char>) -> Seq<
    (Seq<char>, LastCommitView),
> {
    resolve_from(Seq::empty(), h, dir)
}

// ------------------------------------------------------------------
// Facts about the first binding of a component.
// ------------------------------------------------------------------

proof fn lemma_first_key_index(m: Seq<(Seq<char>, LastCommitView)>, k: Seq<char>)
    ensures
        has_key(m, k) ==> {
            &&& 0 <= first_key_index(m, k) < m.len()
            &&& m[first_key_index(m, k)].0 == k
            &&& forall|j: int| 0 <= j < first_key_index(m, k) ==> m[j].0 != k
        },
        !has_key(m, k) ==> first_key_index(m, k) == m.len(),
    decreases m.len(),
{
    if m.len() == 0 {
    } else if m[0].0 == k {
    } else {
        lemma_first_key_index(m.drop_first(), k);
        assert(has_key(m, k) ==> has_key(m.drop_first(), k)) by {
            if has_key(m, k) {
                let i = choose|i: int| 0 <= i < m.len() && m[i].0 == k;
                assert(m.drop_first()[i - 1] == m[i]);
            }
        }
        if has_key(m, k) {
            assert forall|j: int| 0 <= j < first_key_index(m, k) implies m[j].0 != k by {
                if j > 0 {
                    assert(m.drop_first()[j - 1] == m[j]);
                }
            }
        } else {
            assert(!has_key(m.drop_first(), k)) by {
                if has_key(m.drop_first(), k) {
                    let i = choose|i: int|
                        0 <= i < m.drop_first().len() && m.drop_first()[i].0 == k;
                    assert(m[i + 1].0 == k);
                }
            }
        }
    }
}

/// The first binding for `k` lies at `i` exactly when `i` is the first
/// index holding `k`.
proof fn lemma_first_key_index_char(m: Seq<(Seq<char>, LastCommitView)>, k: Seq<char>, i: int)
    requires
        0 <= i <= m.len(),
        forall|j: int| 0 <= j < i ==> m[j].0 != k,
        i < m.len() ==> m[i].0 == k,
    ensures
        first_key_index(m, k) == i,
    decreases m.len(),
{
    if i == 0 {
        if m.len() == 0 {
        }
    } else {
        assert(m[0].0 != k);
        lemma_first_key_index_char(m.drop_first(), k, i - 1);
    }
}

/// Appending a fact does not move or change the first binding of a
/// component that is already bound.
proof fn lemma_lookup_push(
    m: Seq<(Seq<char>, LastCommitView)>,
    f: (Seq<char>, LastCommitView),
    k: Seq<char>,
)
    requires
        has_key(m, k),
    ensures
        has_key(m.push(f), k),
        lookup(m.push(f), k) == lookup(m, k),
{
    lemma_first_key_index(m, k);
    let i = first_key_index(m, k);
    assert(m.push(f)[i] == m[i]);
    assert forall|j: int| 0 <= j < i implies m.push(f)[j].0 != k by {
        assert(m.push(f)[j] == m[j]);
    }
    lemma_first_key_index_char(m.push(f), k, i);
}

/// A component bound in `m` keeps its binding under any insertion.
proof fn lemma_insert_preserves(
    m: Seq<(Seq<char>, LastCommitView)>,
    f: (Seq<char>, LastCommitView),
    k: Seq<char>,
)
    requires
        has_key(m, k),
    ensures
        has_key(insert_fact(m, f), k),
        lookup(insert_fact(m, f), k) == lookup(m, k),
{
    if !has_key(m, f.0) {
        lemma_lookup_push(m, f, k);
    }
}

/// Inserting a fact for another component binds nothing for `k`.
proof fn lemma_insert_absent(
    m: Seq<(Seq<char>, LastCommitView)>,
    f: (Seq<char>, LastCommitView),
    k: Seq<char>,
)
    requires
        !has_key(m, k),
        f.0 != k,
    ensures
        !has_key(insert_fact(m, f), k),
{
    if !has_key(m, f.0) {
        assert(!has_key(m.push(f), k)) by {
            if has_key(m.push(f), k) {
                let i = choose|i: int| 0 <= i < m.push(f).len() && m.push(f)[i].0 == k;
                if i < m.len() {
                    assert(m[i].0 == k);
                }
            }
        }
    }
}

/// Inserting a fact for a fresh component binds it to that fact.
proof fn lemma_insert_new(m: Seq<(Seq<char>, LastCommitView)>, f: (Seq<char>, LastCommitView))
    requires
        !has_key(m, f.0),
    ensures
        has_key(insert_fact(m, f), f.0),
        lookup(insert_fact(m, f), f.0) == f.1,
{
    lemma_first_key_index(m, f.0);
    assert(m.push(f)[m.len() as int] == f);
    assert forall|j: int| 0 <= j < m.len() implies m.push(f)[j].0 != f.0 by {
        assert(m.push(f)[j] == m[j]);
    }
    lemma_first_key_index_char(m.push(f), f.0, m.len() as int);
}

/// A component bound in `m` keeps its binding under any fold.
proof fn lemma_fold_preserves(
    m: Seq<(Seq<char>, LastCommitView)>,
    fs: Seq<(Seq<char>, LastCommitView)>,
    k: Seq<char>,
)
    requires
        has_key(m, k),
    ensures
        has_key(fold_facts(m, fs), k),
        lookup(fold_facts(m, fs), k) == lookup(m, k),
    decreases fs.len(),
{
    if fs.len() == 0 {
    } else {
        lemma_insert_preserves(m, fs[0], k);
        lemma_fold_preserves(insert_fact(m, fs[0]), fs.drop_first(), k);
    }
}

/// A fold of facts for other components binds nothing for `k`.
proof fn lemma_fold_absent(
    m: Seq<(Seq<char>, LastCommitView)>,
    fs: Seq<(Seq<char>, LastCommitView)>,
    k: Seq<char>,
)
    requires
        !has_key(m, k),
        !has_key(fs, k),
    ensures
        !has_key(fold_facts(m, fs), k),
    decreases fs.len(),
{
    if fs.len() == 0 {
    } else {
        assert(fs[0].0 != k);
        lemma_insert_absent(m, fs[0], k);
        assert(!has_key(fs.drop_first(), k)) by {
            if has_key(fs.drop_first(), k) {
                let i = choose|i: int|
                    0 <= i < fs.drop_first().len() && fs.drop_first()[i].0 == k;
                assert(fs[i + 1].0 == k);
            }
        }
        lemma_fold_absent(insert_fact(m, fs[0]), fs.drop_first(), k);
    }
}

/// When `k` is unbound, folding a fact sequence binds it to the first
/// fact for it in the sequence.
proof fn lemma_fold_first(
    m: Seq<(Seq<char>, LastCommitView)>,
    fs: Seq<(Seq<char>, LastCommitView)>,
    k: Seq<char>,
)
    requires
        !has_key(m, k),
        has_key(fs, k),
    ensures
        has_key(fold_facts(m, fs), k),
        lookup(fold_facts(m, fs), k) == fs[first_key_index(fs, k)].1,
    decreases fs.len(),
{
    lemma_first_key_index(fs, k);
    if fs[0].0 == k {
        assert(!has_key(m, fs[0].0));
        lemma_insert_new(m, fs[0]);
        lemma_fold_preserves(insert_fact(m, fs[0]), fs.drop_first(), k);
    } else {
        lemma_insert_absent(m, fs[0], k);
        assert(has_key(fs.drop_first(), k)) by {
            let i = choose|i: int| 0 <= i < fs.len() && fs[i].0 == k;
            assert(fs.drop_first()[i - 1] == fs[i]);
        }
        lemma_fold_first(insert_fact(m, fs[0]), fs.drop_first(), k);
        lemma_first_key_index(fs.drop_first(), k);
        assert(fs[first_key_index(fs, k)] == fs.drop_first()[first_key_index(fs.drop_first(), k)]);
    }
}

/// Facts fold in one by one, left to right.
proof fn lemma_fold_concat(
    m: Seq<(Seq<char>, LastCommitView)>,
    a: Seq<(Seq<char>, LastCommitView)>,
    b: Seq<(Seq<char>, LastCommitView)>,
)
    ensures
        fold_facts(m, a + b) == fold_facts(fold_facts(m, a), b),
    decreases a.len(),
{
    if a.len() == 0 {
        assert(a + b =~= b);
    } else {
        assert((a + b)[0] == a[0]);
        assert((a + b).drop_first() =~= a.drop_first() + b);
        lemma_fold_concat(insert_fact(m, a[0]), a.drop_first(), b);
    }
}

proof fn lemma_fold_push(
    m: Seq<(Seq<char>, LastCommitView)>,
    fs: Seq<(Seq<char>, LastCommitView)>,
    f: (Seq<char>, LastCommitView),
)
    ensures
        fold_facts(m, fs.push(f)) == insert_fact(fold_facts(m, fs), f),
{
    reveal_with_fuel(fold_facts, 2);
    assert(fs.push(f) =~= fs + seq![f]);
    lemma_fold_concat(m, fs, seq![f]);
    assert(seq![f].drop_first() =~= Seq::<(Seq<char>, LastCommitView)>::empty());
    assert(fold_facts(fold_facts(m, fs), seq![f]) == insert_fact(fold_facts(m, fs), f));
}

/// Commits fold in one by one, in walk order.
proof fn lemma_resolve_from_push(
    m: Seq<(Seq<char>, LastCommitView)>,
    h: Seq<CommitView>,
    c: CommitView,
    dir: Seq<char>,
)
    ensures
        resolve_from(m, h.push(c), dir) == fold_facts(
            resolve_from(m, h, dir),
            spec_commit_facts(c, dir),
        ),
    decreases h.len(),
{
    reveal_with_fuel(resolve_from, 2);
    if h.len() == 0 {
        assert(h.push(c)[0] == c);
        assert(h.push(c).drop_first() =~= Seq::<CommitView>::empty());
    } else {
        assert(h.push(c)[0] == h[0]);
        assert(h.push(c).drop_first() =~= h.drop_first().push(c));
        lemma_resolve_from_push(
            fold_facts(m, spec_commit_facts(h[0], dir)),
            h.drop_first(),
            c,
            dir,
        );
    }
}

// ------------------------------------------------------------------
// Uniqueness: no component is ever bound twice.
// ------------------------------------------------------------------

proof fn lemma_insert_distinct(m: Seq<(Seq<char>, LastCommitView)>, f: (Seq<char>, LastCommitView))
    requires
        keys_distinct(m),
    ensures
        keys_distinct(insert_fact(m, f)),
{
    if !has_key(m, f.0) {
        assert forall|i: int, j: int| 0 <= i < j < m.push(f).len() implies m.push(f)[i].0
            != m.push(f)[j].0 by {
            if j < m.len() {
                assert(m.push(f)[i] == m[i]);
                assert(m.push(f)[j] == m[j]);
            } else {
                assert(m.push(f)[i] == m[i]);
                if m.push(f)[i].0 == f.0 {
                    assert(has_key(m, f.0));
                }
            }
        }
    }
}

proof fn lemma_fold_distinct(
    m: Seq<(Seq<char>, LastCommitView)>,
    fs: Seq<(Seq<char>, LastCommitView)>,
)
    requires
        keys_distinct(m),
    ensures
        keys_distinct(fold_facts(m, fs)),
    decreases fs.len(),
{
    if fs.len() == 0 {
    } else {
        lemma_insert_distinct(m, fs[0]);
        lemma_fold_distinct(insert_fact(m, fs[0]), fs.drop_first());
    }
}

proof fn lemma_resolve_from_distinct(
    m: Seq<(Seq<char>, LastCommitView)>,
    h: Seq<CommitView>,
    dir: Seq<char>,
)
    requires
        keys_distinct(m),
    ensures
        keys_distinct(resolve_from(m, h, dir)),
    decreases h.len(),
{
    if h.len() == 0 {
    } else {
        lemma_fold_distinct(m, spec_commit_facts(h[0], dir));
        lemma_resolve_from_distinct(
            fold_facts(m, spec_commit_facts(h[0], dir)),
            h.drop_first(),
            dir,
        );
    }
}

/// The resolved mapping binds every path component at most once.
pub proof fn lemma_resolved_component_unique(h: Seq<CommitView>, dir: Seq<char>)
    ensures
        keys_distinct(spec_resolve(h, dir)),
{
    lemma_resolve_from_distinct(Seq::empty(), h, dir);
}

// ------------------------------------------------------------------
// First-write-wins: the first commit of the walk that emits a fact for a
// component decides its attribution.
// ------------------------------------------------------------------

proof fn lemma_resolve_from_preserves(
    m: Seq<(Seq<char>, LastCommitView)>,
    h: Seq<CommitView>,
    dir: Seq<char>,
    k: Seq<char>,
)
    requires
        has_key(m, k),
    ensures
        has_key(resolve_from(m, h, dir), k),
        lookup(resolve_from(m, h, dir), k) == lookup(m, k),
    decreases h.len(),
{
    if h.len() == 0 {
    } else {
        lemma_fold_preserves(m, spec_commit_facts(h[0], dir), k);
        lemma_resolve_from_preserves(
            fold_facts(m, spec_commit_facts(h[0], dir)),
            h.drop_first(),
            dir,
            k,
        );
    }
}

proof fn lemma_resolve_from_first(
    m: Seq<(Seq<char>, LastCommitView)>,
    h: Seq<CommitView>,
    dir: Seq<char>,
    i: int,
    k: Seq<char>,
)
    requires
        !has_key(m, k),
        0 <= i < h.len(),
        has_key(spec_commit_facts(h[i], dir), k),
        forall|j: int| 0 <= j < i ==> !has_key(#[trigger] spec_commit_facts(h[j], dir), k),
    ensures
        has_key(resolve_from(m, h, dir), k),
        lookup(resolve_from(m, h, dir), k) == lookup(spec_commit_facts(h[i], dir), k),
        lookup(resolve_from(m, h, dir), k).summary == h[i].summary,
        lookup(resolve_from(m, h, dir), k).time == h[i].time,
    decreases h.len(),
{
    let facts0 = spec_commit_facts(h[0], dir);
    if i == 0 {
        lemma_fold_first(m, facts0, k);
        lemma_first_key_index(facts0, k);
        lemma_facts_carry_commit(h[0], dir);
        lemma_resolve_from_preserves(fold_facts(m, facts0), h.drop_first(), dir, k);
    } else {
        lemma_fold_absent(m, facts0, k);
        assert(h.drop_first()[i - 1] == h[i]);
        assert forall|j: int| 0 <= j < i - 1 implies !has_key(
            #[trigger] spec_commit_facts(h.drop_first()[j], dir),
            k,
        ) by {
            assert(h.drop_first()[j] == h[j + 1]);
        }
        lemma_resolve_from_first(fold_facts(m, facts0), h.drop_first(), dir, i - 1, k);
    }
}

/// First-write-wins correctness: when the commit at walk position `i` is
/// the first of the walk to emit a fact for the component `k`, the
/// resolved mapping binds `k` to that commit's own first fact for it —
/// its classification included — and the binding carries that commit's
/// summary and time. With the walk ordered newest first, `k` is thus
/// attributed to the most recent commit that touched it, and no later
/// (older) classification is ever reconciled in.
pub proof fn lemma_first_write_wins(h: Seq<CommitView>, dir: Seq<char>, i: int, k: Seq<char>)
    requires
        0 <= i < h.len(),
        has_key(spec_commit_facts(h[i], dir), k),
        forall|j: int| 0 <= j < i ==> !has_key(#[trigger] spec_commit_facts(h[j], dir), k),
    ensures
        has_key(spec_resolve(h, dir), k),
        lookup(spec_resolve(h, dir), k) == lookup(spec_commit_facts(h[i], dir), k),
        lookup(spec_resolve(h, dir), k).summary == h[i].summary,
        lookup(spec_resolve(h, dir), k).time == h[i].time,
{
    lemma_resolve_from_first(Seq::empty(), h, dir, i, k);
}

// ------------------------------------------------------------------
// Completeness: exactly the components some commit emits a fact for are
// resolved.
// ------------------------------------------------------------------

proof fn lemma_insert_has_key(
    m: Seq<(Seq<char>, LastCommitView)>,
    f: (Seq<char>, LastCommitView),
    k: Seq<char>,
)
    ensures
        has_key(insert_fact(m, f), k) <==> (has_key(m, k) || f.0 == k),
{
    if !has_key(m, f.0) {
        if has_key(m, k) {
            let i = choose|i: int| 0 <= i < m.len() && m[i].0 == k;
            assert(m.push(f)[i].0 == k);
        }
        if f.0 == k {
            assert(m.push(f)[m.len() as int].0 == k);
        }
        if has_key(m.push(f), k) {
            let i = choose|i: int| 0 <= i < m.push(f).len() && m.push(f)[i].0 == k;
            if i < m.len() {
                assert(m[i].0 == k);
            }
        }
    }
}

proof fn lemma_fold_has_key(
    m: Seq<(Seq<char>, LastCommitView)>,
    fs: Seq<(Seq<char>, LastCommitView)>,
    k: Seq<char>,
)
    ensures
        has_key(fold_facts(m, fs), k) <==> (has_key(m, k) || has_key(fs, k)),
    decreases fs.len(),
{
    if fs.len() == 0 {
    } else {
        lemma_insert_has_key(m, fs[0], k);
        lemma_fold_has_key(insert_fact(m, fs[0]), fs.drop_first(), k);
        assert(has_key(fs, k) <==> (fs[0].0 == k || has_key(fs.drop_first(), k))) by {
            if has_key(fs, k) {
                let i = choose|i: int| 0 <= i < fs.len() && fs[i].0 == k;
                if i > 0 {
                    assert(fs.drop_first()[i - 1].0 == k);
                }
            }
            if has_key(fs.drop_first(), k) {
                let i = choose|i: int|
                    0 <= i < fs.drop_first().len() && fs.drop_first()[i].0 == k;
                assert(fs[i + 1].0 == k);
            }
        }
    }
}

proof fn lemma_resolve_from_has_key(
    m: Seq<(Seq<char>, LastCommitView)>,
    h: Seq<CommitView>,
    dir: Seq<char>,
    k: Seq<char>,
)
    ensures
        has_key(resolve_from(m, h, dir), k) <==> (has_key(m, k) || exists|i: int|
            0 <= i < h.len() && has_key(#[trigger] spec_commit_facts(h[i], dir), k)),
    decreases h.len(),
{
    if h.len() == 0 {
    } else {
        lemma_fold_has_key(m, spec_commit_facts(h[0], dir), k);
        lemma_resolve_from_has_key(fold_facts(m, spec_commit_facts(h[0], dir)), h.drop_first(), dir, k);
        assert((exists|i: int|
            0 <= i < h.len() && has_key(#[trigger] spec_commit_facts(h[i], dir), k)) <==> (has_key(
            spec_commit_facts(h[0], dir),
            k,
        ) || exists|i: int|
            0 <= i < h.drop_first().len() && has_key(
                #[trigger] spec_commit_facts(h.drop_first()[i], dir),
                k,
            ))) by {
            if exists|i: int|
                0 <= i < h.len() && has_key(#[trigger] spec_commit_facts(h[i], dir), k) {
                let i = choose|i: int|
                    0 <= i < h.len() && has_key(#[trigger] spec_commit_facts(h[i], dir), k);
                if i > 0 {
                    assert(h.drop_first()[i - 1] == h[i]);
                    assert(has_key(spec_commit_facts(h.drop_first()[i - 1], dir), k));
                }
            }
            if exists|i: int|
                0 <= i < h.drop_first().len() && has_key(
                    #[trigger] spec_commit_facts(h.drop_first()[i], dir),
                    k,
                ) {
                let i = choose|i: int|
                    0 <= i < h.drop_first().len() && has_key(
                        #[trigger] spec_commit_facts(h.drop_first()[i], dir),
                        k,
                    );
                assert(h.drop_first()[i] == h[i + 1]);
                assert(has_key(spec_commit_facts(h[i + 1], dir), k));
            }
        }
    }
}

/// Completeness of the resolution: a path component is bound in the
/// resolved mapping exactly when some commit of the walk emits a fact
/// for it.
pub proof fn lemma_resolved_iff_emitted(h: Seq<CommitView>, dir: Seq<char>, k: Seq<char>)
    ensures
        has_key(spec_resolve(h, dir), k) <==> exists|i: int|
            0 <= i < h.len() && has_key(#[trigger] spec_commit_facts(h[i], dir), k),
{
    lemma_resolve_from_has_key(Seq::empty(), h, dir, k);
}

// ------------------------------------------------------------------
// Merge commits contribute nothing.
// ------------------------------------------------------------------

proof fn lemma_resolve_from_skip_merge(
    m: Seq<(Seq<char>, LastCommitView)>,
    h: Seq<CommitView>,
    dir: Seq<char>,
    i: int,
)
    requires
        0 <= i < h.len(),
        h[i].changes is Merge,
    ensures
        resolve_from(m, h, dir) == resolve_from(m, h.remove(i), dir),
    decreases h.len(),
{
    if i == 0 {
        assert(spec_commit_facts(h[0], dir) =~= Seq::<(Seq<char>, LastCommitView)>::empty());
        assert(fold_facts(m, spec_commit_facts(h[0], dir)) == m);
        assert(h.remove(0) =~= h.drop_first());
    } else {
        assert(h.remove(i)[0] == h[0]);
        assert(h.remove(i).len() == h.len() - 1);
        assert(h.remove(i).drop_first() =~= h.drop_first().remove(i - 1));
        assert(h.drop_first()[i - 1] == h[i]);
        lemma_resolve_from_skip_merge(
            fold_facts(m, spec_commit_facts(h[0], dir)),
            h.drop_first(),
            dir,
            i - 1,
        );
    }
}

/// A merge commit never produces an attribution: the resolved mapping of
/// a history equals that of the same history with the merge left out.
pub proof fn lemma_merge_commits_ignored(h: Seq<CommitView>, dir: Seq<char>, i: int)
    requires
        0 <= i < h.len(),
        h[i].changes is Merge,
    ensures
        spec_resolve(h, dir) == spec_resolve(h.remove(i), dir),
{
    lemma_resolve_from_skip_merge(Seq::empty(), h, dir, i);
}

// ------------------------------------------------------------------
// The resolved mapping as an executable value.
// ------------------------------------------------------------------

/// The mapping from path component to attribution built by one
/// resolution pass, with first-write-wins insertion.
pub struct AttributionMap {
    entries: Vec<(String, LastCommit)>,
}

impl View for AttributionMap {
    type V = Seq<(Seq<char>, LastCommitView)>;

    closed spec fn view(&self) -> Seq<(Seq<char>, LastCommitView)> {
        facts_view(self.entries@)
    }
}

impl AttributionMap {
    /// The empty mapping.
    pub fn new() -> (m: AttributionMap)
        ensures
            m@ == Seq::<(Seq<char>, LastCommitView)>::empty(),
    {
        let m = AttributionMap { entries: Vec::new() };
        proof {
            assert(m@ =~= Seq::<(Seq<char>, LastCommitView)>::empty());
        }
        m
    }

    /// How many components are bound.
    pub fn len(&self) -> (n: usize)
        ensures
            n == self@.len(),
    {
        self.entries.len()
    }

    /// Whether `name` is bound.
    pub fn contains_component(&self, name: &str) -> (b: bool)
        ensures
            b == has_key(self@, name@),
    {
        let mut i: usize = 0;
        while i < self.entries.len()
            invariant
                i <= self.entries.len(),
                forall|j: int| 0 <= j < i ==> self@[j].0 != name@,
            decreases self.entries.len() - i,
        {
            if str_eq(self.entries[i].0.as_str(), name) {
                proof {
                    assert(self@[i as int].0 == name@);
                }
                return true;
            }
            i += 1;
        }
        false
    }

    /// The attribution bound to `name`, if any.
    pub fn get(&self, name: &str) -> (r: Option<&LastCommit>)
        ensures
            match r {
                Some(lc) => has_key(self@, name@) && lc@ == lookup(self@, name@),
                None => !has_key(self@, name@),
            },
    {
        let mut i: usize = 0;
        while i < self.entries.len()
            invariant
                i <= self.entries.len(),
                forall|j: int| 0 <= j < i ==> self@[j].0 != name@,
            decreases self.entries.len() - i,
        {
            if str_eq(self.entries[i].0.as_str(), name) {
                proof {
                    assert(self@[i as int].0 == name@);
                    lemma_first_key_index_char(self@, name@, i as int);
                }
                return Some(&self.entries[i].1);
            }
            i += 1;
        }
        None
    }

    /// Record one fact: bind `name` unless it is already bound.
    pub fn insert_if_absent(&mut self, name: String, lc: LastCommit)
        ensures
            final(self)@ == insert_fact(old(self)@, (name@, lc@)),
    {
        if !self.contains_component(name.as_str()) {
            let ghost pre = self.entries@;
            self.entries.push((name, lc));
            proof {
                assert(self@ =~= facts_view(pre).push((name@, lc@)));
            }
        }
    }

    /// Record every fact of one commit, in order.
    pub fn absorb_commit(&mut self, commit: &CommitRecord, dir: &str)
        ensures
            final(self)@ == fold_facts(old(self)@, spec_commit_facts(commit@, dir@)),
    {
        let facts = commit_facts(commit, dir);
        let ghost fv = facts_view(facts@);
        let mut i: usize = 0;
        proof {
            assert(fv.take(0) =~= Seq::<(Seq<char>, LastCommitView)>::empty());
        }
        while i < facts.len()
            invariant
                i <= facts.len(),
                fv == facts_view(facts@),
                self@ == fold_facts(old(self)@, fv.take(i as int)),
            decreases facts.len() - i,
        {
            proof {
                assert(fv.take(i as int + 1) =~= fv.take(i as int).push(fv[i as int]));
                lemma_fold_push(old(self)@, fv.take(i as int), fv[i as int]);
                assert(fv[i as int] == (facts@[i as int].0@, facts@[i as int].1@));
            }
            let name = facts[i].0.clone();
            let lc = facts[i].1.duplicate();
            self.insert_if_absent(name, lc);
            i += 1;
        }
        proof {
            assert(fv.take(facts@.len() as int) =~= fv);
        }
    }

    /// Restrict the mapping to the components named in `live`: the entry
    /// names actually present in the directory right now. A component
    /// without history keeps no binding, and a binding whose component is
    /// gone from the directory is dropped silently.
    pub fn filter_live(&self, live: &Vec<String>) -> (r: AttributionMap)
        ensures
            r@ == spec_filter_live(self@, live.deep_view()),
    {
        let ghost pred = |f: (Seq<char>, LastCommitView)| live.deep_view().contains(f.0);
        let mut out: Vec<(String, LastCommit)> = Vec::new();
        let mut i: usize = 0;
        proof {
            reveal(Seq::filter);
            assert(self@.take(0) =~= Seq::<(Seq<char>, LastCommitView)>::empty());
            assert(facts_view(out@) =~= self@.take(0).filter(pred));
        }
        while i < self.entries.len()
            invariant
                i <= self.entries.len(),
                self@.len() == self.entries@.len(),
                facts_view(out@) == self@.take(i as int).filter(
                    |f: (Seq<char>, LastCommitView)| live.deep_view().contains(f.0),
                ),
            decreases self.entries.len() - i,
        {
            proof {
                reveal(Seq::filter);
                assert(self@.take(i as int + 1).drop_last() =~= self@.take(i as int));
                assert(self@.take(i as int + 1).last() == self@[i as int]);
            }
            let ghost pre = out@;
            if contains_name(live, self.entries[i].0.as_str()) {
                let name = self.entries[i].0.clone();
                let lc = self.entries[i].1.duplicate();
                out.push((name, lc));
                proof {
                    reveal(Seq::filter);
                    assert(self@[i as int] == (self.entries@[i as int].0@,
                        self.entries@[i as int].1@));
                    assert(facts_view(out@) =~= facts_view(pre).push(self@[i as int]));
                }
            } else {
                proof {
                    reveal(Seq::filter);
                    assert(self@[i as int] == (self.entries@[i as int].0@,
                        self.entries@[i as int].1@));
                }
            }
            i += 1;
        }
        let r = AttributionMap { entries: out };
        proof {
            assert(self@.take(self.entries@.len() as int) =~= self@);
        }
        r
    }
}

/// The mapping restricted to the components named in `names`, in order.
pub open spec fn spec_filter_live(
    m: Seq<(Seq<char>, LastCommitView)>,
    names: Seq<Seq<char>>,
) -> Seq<(Seq<char>, LastCommitView)> {
    m.filter(|f: (Seq<char>, LastCommitView)| names.contains(f.0))
}

fn contains_name(names: &Vec<String>, x: &str) -> (b: bool)
    ensures
        b == names.deep_view().contains(x@),
{
    let mut i: usize = 0;
    while i < names.len()
        invariant
            i <= names.len(),
            forall|j: int| 0 <= j < i ==> names.deep_view()[j] != x@,
        decreases names.len() - i,
    {
        if str_eq(names[i].as_str(), x) {
            proof {
                assert(names.deep_view()[i as int] == x@);
            }
            return true;
        }
        i += 1;
    }
    proof {
        if names.deep_view().contains(x@) {
            let j = choose|j: int| 0 <= j < names.deep_view().len() && names.deep_view()[j] == x@;
        }
    }
    false
}

/// Resolve a whole history, handed over newest commit first, into the
/// mapping from path component to most recent attribution.
pub fn resolve_history(commits: &Vec<CommitRecord>, dir: &str) -> (m: AttributionMap)
    ensures
        m@ == spec_resolve(commits.deep_view(), dir@),
{
    let ghost h = commits.deep_view();
    let mut m = AttributionMap::new();
    let mut i: usize = 0;
    proof {
        assert(h.take(0) =~= Seq::<CommitView>::empty());
    }
    while i < commits.len()
        invariant
            i <= commits.len(),
            h == commits.deep_view(),
            h.len() == commits@.len(),
            m@ == spec_resolve(h.take(i as int), dir@),
        decreases commits.len() - i,
    {
        proof {
            assert(h.take(i as int + 1) =~= h.take(i as int).push(h[i as int]));
            lemma_resolve_from_push(
                Seq::<(Seq<char>, LastCommitView)>::empty(),
                h.take(i as int),
                h[i as int],
                dir@,
            );
            assert(h[i as int] == commits@[i as int]@);
        }
        m.absorb_commit(&commits[i], dir);
        i += 1;
    }
    proof {
        assert(h.take(commits@.len() as int) =~= h);
    }
    m
}

// ------------------------------------------------------------------
// The ordered output rows.
// ------------------------------------------------------------------

/// The row one resolved entry renders to at the moment `now`.
pub open spec fn spec_row(f: (Seq<char>, LastCommitView), now: u64) -> RowView {
    RowView {
        file_type: f.1.file_type,
        file_name: f.0,
        time_since: spec_time_since(spec_age(now, f.1.time)),
        summary: f.1.summary,
    }
}

/// The rows of the resolved mapping `m` at the moment `now`: directories
/// first, each group sorted by name.
pub open spec fn spec_sort_file(m: Seq<(Seq<char>, LastCommitView)>, now: u64) -> Seq<RowView> {
    let all = m.map_values(|f: (Seq<char>, LastCommitView)| spec_row(f, now));
    spec_sort_rows(all.filter(|r: RowView| r.file_type == FileType::Directory)) + spec_sort_rows(
        all.filter(|r: RowView| r.file_type == FileType::File),
    )
}

/// Render the resolved mapping as ordered rows: directories before
/// files, each group sorted by name, each row carrying the entry name,
/// the bucketed age of its last commit at the moment `current_time`, and
/// that commit's summary.
pub fn sort_file(unorder_files: &AttributionMap, current_time: u64) -> (rows: Vec<Row>)
    ensures
        rows_view(rows@) == spec_sort_file(unorder_files@, current_time),
{
    let ghost all = unorder_files@.map_values(
        |f: (Seq<char>, LastCommitView)| spec_row(f, current_time),
    );
    let mut directory_rows: Vec<Row> = Vec::new();
    let mut file_rows: Vec<Row> = Vec::new();
    let mut i: usize = 0;
    proof {
        reveal(Seq::filter);
        assert(all.take(0) =~= Seq::<RowView>::empty());
        assert(rows_view(directory_rows@) =~= all.take(0).filter(
            |r: RowView| r.file_type == FileType::Directory,
        ));
        assert(rows_view(file_rows@) =~= all.take(0).filter(
            |r: RowView| r.file_type == FileType::File,
        ));
    }
    while i < unorder_files.entries.len()
        invariant
            i <= unorder_files.entries.len(),
            all == unorder_files@.map_values(
                |f: (Seq<char>, LastCommitView)| spec_row(f, current_time),
            ),
            all.len() == unorder_files.entries@.len(),
            rows_view(directory_rows@) == all.take(i as int).filter(
                |r: RowView| r.file_type == FileType::Directory,
            ),
            rows_view(file_rows@) == all.take(i as int).filter(
                |r: RowView| r.file_type == FileType::File,
            ),
        decreases unorder_files.entries.len() - i,
    {
        proof {
            reveal(Seq::filter);
            assert(all.take(i as int + 1).drop_last() =~= all.take(i as int));
            assert(all.take(i as int + 1).last() == all[i as int]);
            assert(unorder_files@[i as int] == (unorder_files.entries@[i as int].0@,
                unorder_files.entries@[i as int].1@));
        }
        let entry = &unorder_files.entries[i];
        let age = age_seconds(current_time, entry.1.time);
        let row = Row {
            file_type: entry.1.file_type,
            file_name: entry.0.clone(),
            time_since: duration_to_time_since(age),
            summary: entry.1.summary.clone(),
        };
        proof {
            assert(row@ == all[i as int]);
        }
        match entry.1.file_type {
            FileType::File => {
                let ghost pre = file_rows@;
                file_rows.push(row);
                proof {
                    reveal(Seq::filter);
                    assert(rows_view(file_rows@) =~= rows_view(pre).push(all[i as int]));
                }
            },
            FileType::Directory => {
                let ghost pre = directory_rows@;
                directory_rows.push(row);
                proof {
                    reveal(Seq::filter);
                    assert(rows_view(directory_rows@) =~= rows_view(pre).push(all[i as int]));
                }
            },
        }
        i += 1;
    }
    proof {
        assert(all.take(unorder_files.entries@.len() as int) =~= all);
    }
    let mut rows = sort_rows(directory_rows);
    let mut sorted_files = sort_rows(file_rows);
    let ghost dirs_sorted = rows_view(rows@);
    rows.append(&mut sorted_files);
    proof {
        assert(rows_view(rows@) =~= dirs_sorted + spec_sort_rows(
            all.filter(|r: RowView| r.file_type == FileType::File),
        ));
    }
    rows
}

/// One resolution is as good as two: the listing drawn from a history, a
/// directory, a live entry set and a moment is a single value, so running
/// the resolution twice over the same immutable inputs yields identical
/// output.
pub open spec fn spec_listing(
    h: Seq<CommitView>,
    dir: Seq<char>,
    live: Seq<Seq<char>>,
    now: u64,
) -> Seq<RowView> {
    spec_sort_file(spec_filter_live(spec_resolve(h, dir), live), now)
}

/// Idempotence of the resolution: two outputs of the same inputs are
/// equal.
pub proof fn lemma_resolution_idempotent(
    h: Seq<CommitView>,
    dir: Seq<char>,
    live: Seq<Seq<char>>,
    now: u64,
    r1: Seq<RowView>,
    r2: Seq<RowView>,
)
    requires
        r1 == spec_listing(h, dir, live, now),
        r2 == spec_listing(h, dir, live, now),
    ensures
        r1 == r2,
{
}

} // verus!
