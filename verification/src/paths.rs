//! Path component handling: splitting a slash-separated repository path
//! into components, and classifying a changed path relative to the
//! directory being listed.

use vstd::prelude::*;
use vstd::string::StrSliceExecFns;
use crate::model::FileType;

verus! {

/// Whether two strings hold the same characters.
pub fn str_eq(a: &str, b: &str) -> (r: bool)
    ensures
        r == (a@ == b@),
{
    let n = a.unicode_len();
    let m = b.unicode_len();
    if n != m {
        return false;
    }
    let mut i: usize = 0;
    while i < n
        invariant
            i <= n,
            n == a@.len(),
            n == b@.len(),
            forall|j: int| 0 <= j < i ==> a@[j] == b@[j],
        decreases n - i,
    {
        if a.get_char(i) != b.get_char(i) {
            return false;
        }
        i += 1;
    }
    proof {
        assert(a@ =~= b@);
    }
    true
}

/// Index of the first `'/'` in `p`, or `p.len()` when `p` has none.
pub open spec fn first_slash(p: Seq<char>) -> int
    decreases p.len(),
{
    if p.len() == 0 {
        0
    } else if p[0] == '/' {
        0
    } else {
        1 + first_slash(p.drop_first())
    }
}

pub proof fn lemma_first_slash(p: Seq<char>)
    ensures
        0 <= first_slash(p) <= p.len(),
        first_slash(p) < p.len() ==> p[first_slash(p)] == '/',
        forall|j: int| 0 <= j < first_slash(p) ==> p[j] != '/',
    decreases p.len(),
{
    if p.len() == 0 {
    } else if p[0] == '/' {
    } else {
        lemma_first_slash(p.drop_first());
        assert forall|j: int| 0 <= j < first_slash(p) implies p[j] != '/' by {
            if j > 0 {
                assert(p.drop_first()[j - 1] != '/');
            }
        }
    }
}

/// `first_slash` is the unique index that has a slash with none before it.
proof fn lemma_first_slash_char(p: Seq<char>, i: int)
    requires
        0 <= i <= p.len(),
        forall|j: int| 0 <= j < i ==> p[j] != '/',
        i < p.len() ==> p[i] == '/',
    ensures
        first_slash(p) == i,
    decreases p.len(),
{
    if i == 0 {
    } else {
        assert(p[0] != '/');
        lemma_first_slash_char(p.drop_first(), i - 1);
    }
}

/// The components of `p` split on `'/'`; an empty path yields one empty
/// component, as splitting an exec string does.
pub open spec fn split_path(p: Seq<char>) -> Seq<Seq<char>>
    decreases p.len(),
{
    let i = first_slash(p);
    if 0 <= i && i < p.len() {
        seq![p.take(i)] + split_path(p.skip(i + 1))
    } else {
        seq![p]
    }
}

fn find_first_slash(s: &str) -> (i: usize)
    ensures
        i == first_slash(s@),
        i <= s@.len(),
{
    let n = s.unicode_len();
    let mut i: usize = 0;
    while i < n
        invariant
            i <= n,
            n == s@.len(),
            forall|j: int| 0 <= j < i ==> s@[j] != '/',
        decreases n - i,
    {
        let c = s.get_char(i);
        if c == '/' {
            proof {
                lemma_first_slash_char(s@, i as int);
            }
            return i;
        }
        i += 1;
    }
    proof {
        lemma_first_slash_char(s@, i as int);
    }
    i
}

/// Split `s` into its slash-separated components.
pub fn split_str(s: &str) -> (v: Vec<String>)
    ensures
        v.deep_view() == split_path(s@),
    decreases s@.len(),
{
    let n = s.unicode_len();
    let i = find_first_slash(s);
    proof {
        lemma_first_slash(s@);
    }
    if i == n {
        let mut v: Vec<String> = Vec::new();
        v.push(s.to_owned());
        proof {
            assert(v.deep_view() =~= split_path(s@));
        }
        v
    } else {
        let head = s.substring_char(0, i);
        let tail = s.substring_char(i + 1, n);
        let mut rest = split_str(tail);
        let ghost rest0 = rest.deep_view();
        rest.insert(0, head.to_owned());
        proof {
            assert forall|k: int| 0 <= k < rest.deep_view().len() implies rest.deep_view()[k]
                == (seq![s@.take(i as int)] + split_path(s@.skip(i + 1)))[k] by {
                assert(tail@ =~= s@.skip(i + 1));
                if k == 0 {
                    assert(rest@[0]@ =~= s@.take(i as int));
                } else {
                    assert(rest.deep_view()[k] == rest0[k - 1]);
                }
            }
            assert(tail@ =~= s@.skip(i + 1));
            assert(rest.deep_view() =~= split_path(s@));
        }
        rest
    }
}

/// A name free of path separators.
pub open spec fn no_slash(s: Seq<char>) -> bool {
    forall|i: int| 0 <= i < s.len() ==> s[i] != '/'
}

/// Splitting on `'/'` leaves no separator inside any component.
pub proof fn lemma_split_path_components(p: Seq<char>)
    ensures
        forall|i: int| 0 <= i < split_path(p).len() ==> no_slash(#[trigger] split_path(p)[i]),
    decreases p.len(),
{
    lemma_first_slash(p);
    let fs = first_slash(p);
    if 0 <= fs && fs < p.len() {
        lemma_split_path_components(p.skip(fs + 1));
        assert forall|i: int| 0 <= i < split_path(p).len() implies no_slash(
            #[trigger] split_path(p)[i],
        ) by {
            if i == 0 {
                assert forall|j: int| 0 <= j < p.take(fs).len() implies p.take(fs)[j] != '/' by {
                    assert(p.take(fs)[j] == p[j]);
                }
            } else {
                assert(split_path(p)[i] == split_path(p.skip(fs + 1))[i - 1]);
            }
        }
    } else {
        assert(no_slash(p));
    }
}

/// The component list the listed directory contributes as a prefix: a
/// directory given as the empty path (the repository root) contributes no
/// components.
pub open spec fn dir_components(dir: Seq<char>) -> Seq<Seq<char>> {
    if dir.len() == 0 {
        Seq::empty()
    } else {
        split_path(dir)
    }
}

/// The fact a single changed path contributes for the directory `dir`:
/// nothing when the change lies outside `dir`, otherwise the first path
/// component below `dir`, classified as a directory when the change lies
/// deeper than one level and as a file otherwise.
pub open spec fn delta_fact(path: Seq<char>, dir: Seq<char>) -> Option<(Seq<char>, FileType)> {
    let comps = split_path(path);
    let dc = dir_components(dir);
    if dc.is_prefix_of(comps) && comps.len() > dc.len() {
        let rest = comps.skip(dc.len() as int);
        if rest.len() > 1 {
            Some((rest[0], FileType::Directory))
        } else {
            Some((rest[0], FileType::File))
        }
    } else {
        None
    }
}

/// The component a changed path is attributed to never contains a
/// separator: it is one component of the path's split.
pub proof fn lemma_fact_component_no_slash(path: Seq<char>, dir: Seq<char>)
    ensures
        delta_fact(path, dir) matches Some(f) ==> no_slash(f.0),
{
    lemma_split_path_components(path);
    let comps = split_path(path);
    let dc = dir_components(dir);
    if dc.is_prefix_of(comps) && comps.len() > dc.len() {
        assert(comps.skip(dc.len() as int)[0] == comps[dc.len() as int]);
    }
}

/// Mathematical value of an optional (component, classification) fact.
pub open spec fn fact_view(r: Option<(String, FileType)>) -> Option<(Seq<char>, FileType)> {
    match r {
        Some(f) => Some((f.0@, f.1)),
        None => None,
    }
}

fn is_string_prefix(a: &Vec<String>, b: &Vec<String>) -> (r: bool)
    requires
        a.len() <= b.len(),
    ensures
        r == a.deep_view().is_prefix_of(b.deep_view()),
{
    let mut i: usize = 0;
    while i < a.len()
        invariant
            i <= a.len() <= b.len(),
            forall|j: int| 0 <= j < i ==> a.deep_view()[j] == b.deep_view()[j],
        decreases a.len() - i,
    {
        if !(a[i] == b[i]) {
            proof {
                assert(a.deep_view()[i as int] != b.deep_view()[i as int]);
                assert(!a.deep_view().is_prefix_of(b.deep_view()));
            }
            return false;
        }
        i += 1;
    }
    proof {
        assert(a.deep_view() =~= b.deep_view().subrange(0, a.len() as int));
    }
    true
}

/// Classify the changed path `path` against the listed directory `dir`,
/// returning the attributed path component and its kind, or `None` when
/// the change lies outside `dir`.
pub fn classify_delta(path: &str, dir: &str) -> (r: Option<(String, FileType)>)
    ensures
        fact_view(r) == delta_fact(path@, dir@),
{
    let comps = split_str(path);
    let dc: Vec<String> = if dir.unicode_len() == 0 {
        Vec::new()
    } else {
        split_str(dir)
    };
    proof {
        assert(dc.deep_view() =~= dir_components(dir@));
    }
    if comps.len() > dc.len() && is_string_prefix(&dc, &comps) {
        let rest_len = comps.len() - dc.len();
        let name = comps[dc.len()].clone();
        proof {
            let rest = split_path(path@).skip(dc.len() as int);
            assert(rest.len() == rest_len);
            assert(rest[0] == comps.deep_view()[dc.len() as int]);
            assert(name@ == comps.deep_view()[dc.len() as int]);
        }
        if rest_len > 1 {
            Some((name, FileType::Directory))
        } else {
            Some((name, FileType::File))
        }
    } else {
        None
    }
}

} // verus!
