//! Ordering of output rows: a lexicographic order on names by Unicode
//! scalar value, and an insertion sort of rows by entry name with a
//! deterministic specification.

use vstd::prelude::*;
use vstd::string::StrSliceExecFns;
use crate::model::{Row, RowView};

verus! {

/// Lexicographic order on character sequences, comparing characters by
/// their Unicode scalar value; a prefix orders before its extensions.
pub open spec fn lex_leq(a: Seq<char>, b: Seq<char>) -> bool
    decreases a.len(),
{
    if a.len() == 0 {
        true
    } else if b.len() == 0 {
        false
    } else if (a[0] as u32) < (b[0] as u32) {
        true
    } else if (b[0] as u32) < (a[0] as u32) {
        false
    } else {
        lex_leq(a.drop_first(), b.drop_first())
    }
}

/// Any two names are comparable.
pub proof fn lemma_lex_leq_total(a: Seq<char>, b: Seq<char>)
    ensures
        lex_leq(a, b) || lex_leq(b, a),
    decreases a.len(),
{
    if a.len() == 0 || b.len() == 0 {
    } else if (a[0] as u32) < (b[0] as u32) || (b[0] as u32) < (a[0] as u32) {
    } else {
        lemma_lex_leq_total(a.drop_first(), b.drop_first());
    }
}

/// The order is transitive.
pub proof fn lemma_lex_leq_trans(a: Seq<char>, b: Seq<char>, c: Seq<char>)
    requires
        lex_leq(a, b),
        lex_leq(b, c),
    ensures
        lex_leq(a, c),
    decreases a.len(),
{
    if a.len() == 0 {
    } else if b.len() == 0 {
    } else if c.len() == 0 {
    } else {
        if (a[0] as u32) < (c[0] as u32) {
        } else if (a[0] as u32) == (c[0] as u32) {
            if (a[0] as u32) < (b[0] as u32) || (b[0] as u32) < (c[0] as u32) {
                assert(false);
            } else {
                lemma_lex_leq_trans(a.drop_first(), b.drop_first(), c.drop_first());
            }
        } else {
            assert(false);
        }
    }
}

/// Compare two names in the lexicographic order.
pub fn lex_le(a: &str, b: &str) -> (r: bool)
    ensures
        r == lex_leq(a@, b@),
    decreases a@.len(),
{
    let an = a.unicode_len();
    let bn = b.unicode_len();
    if an == 0 {
        true
    } else if bn == 0 {
        false
    } else {
        let ca = a.get_char(0);
        let cb = b.get_char(0);
        if (ca as u32) < (cb as u32) {
            true
        } else if (cb as u32) < (ca as u32) {
            false
        } else {
            let ar = a.substring_char(1, an);
            let br = b.substring_char(1, bn);
            proof {
                assert(ar@ =~= a@.drop_first());
                assert(br@ =~= b@.drop_first());
            }
            lex_le(ar, br)
        }
    }
}

/// Mathematical value of a sequence of rows.
pub open spec fn rows_view(s: Seq<Row>) -> Seq<RowView> {
    s.map_values(|r: Row| r@)
}

/// Insertion of a row into a sequence sorted by name: the row lands just
/// before the first row whose name does not order strictly below it.
pub open spec fn insort(s: Seq<RowView>, r: RowView) -> Seq<RowView>
    decreases s.len(),
{
    if s.len() == 0 {
        seq![r]
    } else if lex_leq(r.file_name, s[0].file_name) {
        seq![r] + s
    } else {
        seq![s[0]] + insort(s.drop_first(), r)
    }
}

/// Sorting a row sequence by entry name: each row in turn is inserted
/// into the sorted rows before it.
pub open spec fn spec_sort_rows(s: Seq<RowView>) -> Seq<RowView>
    decreases s.len(),
{
    if s.len() == 0 {
        s
    } else {
        insort(spec_sort_rows(s.drop_last()), s.last())
    }
}

/// Rows sorted by name, in sequence order.
pub open spec fn rows_sorted(s: Seq<RowView>) -> bool {
    forall|i: int, j: int| 0 <= i < j < s.len() ==> lex_leq(s[i].file_name, s[j].file_name)
}

proof fn lemma_insort_len(s: Seq<RowView>, r: RowView)
    ensures
        insort(s, r).len() == s.len() + 1,
    decreases s.len(),
{
    if s.len() == 0 {
    } else if lex_leq(r.file_name, s[0].file_name) {
    } else {
        lemma_insort_len(s.drop_first(), r);
    }
}

/// Inserting into a sorted sequence keeps it sorted.
proof fn lemma_insort_sorted(s: Seq<RowView>, r: RowView)
    requires
        rows_sorted(s),
    ensures
        rows_sorted(insort(s, r)),
    decreases s.len(),
{
    if s.len() == 0 {
    } else if lex_leq(r.file_name, s[0].file_name) {
        let t = seq![r] + s;
        assert forall|i: int, j: int| 0 <= i < j < t.len() implies lex_leq(
            t[i].file_name,
            t[j].file_name,
        ) by {
            if i == 0 {
                if j > 1 {
                    lemma_lex_leq_trans(r.file_name, s[0].file_name, s[j - 1].file_name);
                }
            }
        }
    } else {
        assert(rows_sorted(s.drop_first()));
        lemma_insort_sorted(s.drop_first(), r);
        lemma_insort_len(s.drop_first(), r);
        lemma_lex_leq_total(r.file_name, s[0].file_name);
        let rest = insort(s.drop_first(), r);
        let t = seq![s[0]] + rest;
        // every element of `rest` is either `r` or an element of the tail,
        // and `s[0]` orders below both
        assert forall|j: int| 0 <= j < rest.len() implies lex_leq(
            s[0].file_name,
            rest[j].file_name,
        ) by {
            lemma_insort_membership(s.drop_first(), r, j);
            if rest[j] == r {
            } else {
                let k = choose|k: int|
                    0 <= k < s.drop_first().len() && rest[j] == s.drop_first()[k];
                assert(s.drop_first()[k] == s[k + 1]);
            }
        }
        assert forall|i: int, j: int| 0 <= i < j < t.len() implies lex_leq(
            t[i].file_name,
            t[j].file_name,
        ) by {
            if i > 0 {
                assert(t[i] == rest[i - 1]);
                assert(t[j] == rest[j - 1]);
            }
        }
    }
}

/// Every row of an insertion result is the inserted row or one of the
/// original rows.
proof fn lemma_insort_membership(s: Seq<RowView>, r: RowView, j: int)
    requires
        0 <= j < insort(s, r).len(),
    ensures
        insort(s, r)[j] == r || exists|k: int| 0 <= k < s.len() && insort(s, r)[j] == s[k],
    decreases s.len(),
{
    lemma_insort_len(s, r);
    if s.len() == 0 {
    } else if lex_leq(r.file_name, s[0].file_name) {
        if j > 0 {
            assert(insort(s, r)[j] == s[j - 1]);
        }
    } else {
        if j == 0 {
            assert(insort(s, r)[0] == s[0]);
        } else {
            lemma_insort_membership(s.drop_first(), r, j - 1);
            let rest = insort(s.drop_first(), r);
            assert(insort(s, r)[j] == rest[j - 1]);
            if rest[j - 1] == r {
            } else {
                let k = choose|k: int|
                    0 <= k < s.drop_first().len() && rest[j - 1] == s.drop_first()[k];
                assert(s.drop_first()[k] == s[k + 1]);
            }
        }
    }
}

/// The sorting specification really sorts.
pub proof fn lemma_spec_sort_rows_sorted(s: Seq<RowView>)
    ensures
        rows_sorted(spec_sort_rows(s)),
    decreases s.len(),
{
    if s.len() == 0 {
    } else {
        lemma_spec_sort_rows_sorted(s.drop_last());
        lemma_insort_sorted(spec_sort_rows(s.drop_last()), s.last());
    }
}

/// Where a scan that skipped every name ordering strictly below the new
/// row stops is where the insertion specification puts it.
proof fn lemma_insort_at(s: Seq<RowView>, r: RowView, i: int)
    requires
        0 <= i <= s.len(),
        forall|j: int| 0 <= j < i ==> !lex_leq(r.file_name, s[j].file_name),
        i < s.len() ==> lex_leq(r.file_name, s[i].file_name),
    ensures
        insort(s, r) == s.take(i) + seq![r] + s.skip(i),
    decreases s.len(),
{
    if s.len() == 0 {
        assert(insort(s, r) =~= s.take(0) + seq![r] + s.skip(0));
    } else if i == 0 {
        assert(lex_leq(r.file_name, s[0].file_name));
        assert(insort(s, r) =~= s.take(0) + seq![r] + s.skip(0));
    } else {
        assert(!lex_leq(r.file_name, s[0].file_name));
        lemma_insort_at(s.drop_first(), r, i - 1);
        assert(s.drop_first().take(i - 1) =~= s.take(i).drop_first());
        assert(s.drop_first().skip(i - 1) =~= s.skip(i));
        assert(seq![s[0]] + (s.drop_first().take(i - 1) + seq![r] + s.drop_first().skip(i - 1))
            =~= s.take(i) + seq![r] + s.skip(i));
    }
}

/// Insert `r` into `v`, which is sorted by name, keeping it sorted.
fn insert_row(v: &mut Vec<Row>, r: Row)
    ensures
        rows_view(final(v)@) == insort(rows_view(old(v)@), r@),
{
    let mut i: usize = 0;
    while i < v.len()
        invariant
            i <= v.len(),
            v == old(v),
            forall|j: int| 0 <= j < i ==> !lex_leq(r@.file_name, rows_view(v@)[j].file_name),
        decreases v.len() - i,
    {
        if lex_le(r.file_name.as_str(), v[i].file_name.as_str()) {
            proof {
                assert(v@[i as int]@ == rows_view(v@)[i as int]);
                lemma_insort_at(rows_view(v@), r@, i as int);
            }
            let ghost oldv = v@;
            v.insert(i, r);
            proof {
                assert(rows_view(v@) =~= rows_view(oldv).take(i as int) + seq![r@] + rows_view(
                    oldv,
                ).skip(i as int));
            }
            return ;
        }
        i += 1;
    }
    proof {
        lemma_insort_at(rows_view(v@), r@, v@.len() as int);
    }
    let ghost oldv = v@;
    v.push(r);
    proof {
        assert(rows_view(v@) =~= rows_view(oldv).take(oldv.len() as int) + seq![r@] + rows_view(
            oldv,
        ).skip(oldv.len() as int));
    }
}

/// Sort rows by entry name in the lexicographic order.
pub fn sort_rows(rows: Vec<Row>) -> (out: Vec<Row>)
    ensures
        rows_view(out@) == spec_sort_rows(rows_view(rows@)),
        rows_sorted(rows_view(out@)),
{
    let ghost all = rows_view(rows@);
    let mut rows = rows;
    let mut out: Vec<Row> = Vec::new();
    let ghost mut k: int = 0;
    proof {
        assert(rows_view(out@) =~= spec_sort_rows(all.take(0)));
    }
    while rows.len() > 0
        invariant
            0 <= k <= all.len(),
            rows_view(rows@) =~= all.skip(k),
            rows_view(out@) == spec_sort_rows(all.take(k)),
        decreases rows.len(),
    {
        let ghost pre = rows@;
        let r = rows.remove(0);
        proof {
            assert(rows_view(pre).len() == pre.len());
            assert(k < all.len());
            pre.remove_ensures(0);
            assert(rows_view(pre)[0] == all.skip(k)[0]);
            assert(all.skip(k)[0] == all[k]);
            assert(r@ == all[k]);
            assert forall|j: int| 0 <= j < rows@.len() implies rows_view(rows@)[j] == all.skip(
                k + 1,
            )[j] by {
                assert(rows@[j] == pre[j + 1]);
                assert(rows_view(pre)[j + 1] == all.skip(k)[j + 1]);
                assert(all.skip(k)[j + 1] == all[k + 1 + j]);
            }
            assert(rows_view(rows@).len() == all.skip(k + 1).len());
            assert(rows_view(rows@) =~= all.skip(k + 1));
            assert(all.take(k + 1).drop_last() =~= all.take(k));
            assert(all.take(k + 1).last() == all[k]);
        }
        insert_row(&mut out, r);
        proof {
            k = k + 1;
        }
    }
    proof {
        assert(all.take(all.len() as int) =~= all);
        lemma_spec_sort_rows_sorted(all);
    }
    out
}

} // verus!
