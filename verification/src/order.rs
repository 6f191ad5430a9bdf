//! The sort engine: each group is reordered stably by ascending date key.
//!
//! The functional specification is an insertion sort that inserts each
//! directive after every directive with an equal or smaller date, which is
//! what makes the sort stable: directives sharing a date keep their original
//! relative order. A no-op fast path asks whether every group is already
//! non-decreasing by date, so that an already-canonical file can be returned
//! byte for byte without rebuilding it.

use vstd::multiset::Multiset;
use vstd::prelude::*;

use crate::directive::DatedDirective;
use crate::directive::DirectiveModel;
use crate::directive::SortableGroup;
use crate::directive::dirs_view;
use crate::text::date_lt;
use crate::text::lemma_lex_lt_asymmetric;
use crate::text::lemma_lex_lt_total;
use crate::text::lemma_lex_lt_transitive;
use crate::text::lex_lt;

verus! {

/// Non-strict date order: `a` sorts no later than `b`.
pub open spec fn date_le(a: Seq<char>, b: Seq<char>) -> bool {
    !lex_lt(b, a)
}

pub proof fn lemma_date_le_trans(a: Seq<char>, b: Seq<char>, c: Seq<char>)
    requires
        date_le(a, b),
        date_le(b, c),
    ensures
        date_le(a, c),
{
    if lex_lt(c, a) {
        lemma_lex_lt_total(b, c);
        if lex_lt(b, c) {
            lemma_lex_lt_transitive(b, c, a);
        }
    }
}

/// A group is sorted when no directive carries a date smaller than that of
/// an earlier directive.
pub open spec fn sorted_by_date(s: Seq<DirectiveModel>) -> bool {
    forall|i: int, j: int| 0 <= i < j < s.len() ==> date_le(s[i].date, s[j].date)
}

/// Adjacent order is enough.
pub proof fn lemma_adjacent_sorted(s: Seq<DirectiveModel>)
    requires
        forall|k: int| 0 <= k < s.len() - 1 ==> date_le((#[trigger] s[k]).date, s[k + 1].date),
    ensures
        sorted_by_date(s),
{
    assert forall|i: int, j: int| 0 <= i < j < s.len() implies date_le(s[i].date, s[j].date) by {
        lemma_date_le_chain(s, i, j);
    }
}

proof fn lemma_date_le_chain(s: Seq<DirectiveModel>, i: int, j: int)
    requires
        forall|k: int| 0 <= k < s.len() - 1 ==> date_le((#[trigger] s[k]).date, s[k + 1].date),
        0 <= i <= j < s.len(),
    ensures
        date_le(s[i].date, s[j].date),
    decreases j - i,
{
    if i < j {
        lemma_date_le_chain(s, i, j - 1);
        lemma_date_le_trans(s[i].date, s[j - 1].date, s[j].date);
    } else {
        lemma_lex_lt_asymmetric(s[i].date, s[i].date);
    }
}

/// Whether a group's directives are already in non-decreasing date order.
pub fn is_sorted(group: &SortableGroup) -> (r: bool)
    ensures
        r == sorted_by_date(group.model()),
{
    let ghost m = group.model();
    let n = group.directives.len();
    let mut i: usize = 0;
    while i + 1 < n
        invariant
            0 <= i <= n == group.directives@.len(),
            m == group.model(),
            i < n || n == 0,
            forall|k: int| 0 <= k < i ==> date_le((#[trigger] m[k]).date, m[k + 1].date),
        decreases n - i,
    {
        if date_lt(&group.directives[i + 1].date, &group.directives[i].date) {
            proof {
                assert(m[i as int].date == group.directives@[i as int].date@);
                assert(m[i + 1].date == group.directives@[i + 1].date@);
                assert(!date_le(m[i as int].date, m[i + 1].date));
            }
            return false;
        }
        proof {
            assert(m[i as int].date == group.directives@[i as int].date@);
            assert(m[i + 1].date == group.directives@[i + 1].date@);
        }
        i += 1;
    }
    proof {
        lemma_adjacent_sorted(m);
    }
    true
}

/// Whether every group is already sorted; when this holds the caller
/// returns the original text byte for byte.
pub open spec fn all_sorted(gs: Seq<Seq<DirectiveModel>>) -> bool {
    forall|g: int| 0 <= g < gs.len() ==> sorted_by_date(#[trigger] gs[g])
}

pub fn all_groups_sorted(groups: &Vec<SortableGroup>) -> (r: bool)
    ensures
        r == all_sorted(crate::directive::groups_view(*groups)),
{
    let ghost gv = crate::directive::groups_view(*groups);
    let mut g: usize = 0;
    while g < groups.len()
        invariant
            0 <= g <= groups@.len(),
            gv == crate::directive::groups_view(*groups),
            forall|k: int| 0 <= k < g ==> sorted_by_date(#[trigger] gv[k]),
        decreases groups@.len() - g,
    {
        let sorted = is_sorted(&groups[g]);
        proof {
            assert(gv[g as int] == groups@[g as int].model());
        }
        if !sorted {
            return false;
        }
        g += 1;
    }
    true
}

/// Inserts `d` after every directive whose date is not greater: the stable
/// insertion position.
pub open spec fn insert_sorted(t: Seq<DirectiveModel>, d: DirectiveModel) -> Seq<DirectiveModel>
    decreases t.len(),
{
    if t.len() == 0 {
        seq![d]
    } else if lex_lt(d.date, t.last().date) {
        insert_sorted(t.drop_last(), d).push(t.last())
    } else {
        t.push(d)
    }
}

/// The stable insertion sort of a group, by ascending date key.
pub open spec fn sort_group_spec(s: Seq<DirectiveModel>) -> Seq<DirectiveModel>
    decreases s.len(),
{
    if s.len() == 0 {
        seq![]
    } else {
        insert_sorted(sort_group_spec(s.drop_last()), s.last())
    }
}

pub proof fn lemma_insert_sorted_len(t: Seq<DirectiveModel>, d: DirectiveModel)
    ensures
        insert_sorted(t, d).len() == t.len() + 1,
    decreases t.len(),
{
    if t.len() > 0 && lex_lt(d.date, t.last().date) {
        lemma_insert_sorted_len(t.drop_last(), d);
    }
}

pub proof fn lemma_sort_group_len(s: Seq<DirectiveModel>)
    ensures
        sort_group_spec(s).len() == s.len(),
    decreases s.len(),
{
    if s.len() > 0 {
        lemma_sort_group_len(s.drop_last());
        lemma_insert_sorted_len(sort_group_spec(s.drop_last()), s.last());
    }
}

pub proof fn lemma_insert_sorted_multiset(t: Seq<DirectiveModel>, d: DirectiveModel)
    ensures
        insert_sorted(t, d).to_multiset() == t.to_multiset().insert(d),
    decreases t.len(),
{
    broadcast use vstd::seq_lib::group_to_multiset_ensures;

    if t.len() == 0 {
        assert(seq![d] =~= Seq::<DirectiveModel>::empty().push(d));
        assert(Seq::<DirectiveModel>::empty().push(d).to_multiset() =~= Seq::<
            DirectiveModel,
        >::empty().to_multiset().insert(d));
        assert(t.to_multiset() =~= Multiset::<DirectiveModel>::empty());
    } else if lex_lt(d.date, t.last().date) {
        lemma_insert_sorted_multiset(t.drop_last(), d);
        assert(insert_sorted(t, d).to_multiset() =~= insert_sorted(
            t.drop_last(),
            d,
        ).to_multiset().insert(t.last()));
        assert(t.drop_last().push(t.last()) =~= t);
        assert(t.to_multiset() =~= t.drop_last().to_multiset().insert(t.last()));
        assert(t.drop_last().to_multiset().insert(d).insert(t.last()) =~= t.drop_last()
            .to_multiset().insert(t.last()).insert(d));
    } else {
        assert(t.push(d).to_multiset() =~= t.to_multiset().insert(d));
    }
}

pub proof fn lemma_sort_group_multiset(s: Seq<DirectiveModel>)
    ensures
        sort_group_spec(s).to_multiset() == s.to_multiset(),
    decreases s.len(),
{
    broadcast use vstd::seq_lib::group_to_multiset_ensures;

    if s.len() > 0 {
        lemma_sort_group_multiset(s.drop_last());
        lemma_insert_sorted_multiset(sort_group_spec(s.drop_last()), s.last());
        assert(s.drop_last().push(s.last()) =~= s);
        assert(s.to_multiset() =~= s.drop_last().to_multiset().insert(s.last()));
    }
}

pub proof fn lemma_insert_sorted_sorted(t: Seq<DirectiveModel>, d: DirectiveModel)
    requires
        sorted_by_date(t),
    ensures
        sorted_by_date(insert_sorted(t, d)),
    decreases t.len(),
{
    let r = insert_sorted(t, d);
    if t.len() == 0 {
    } else if lex_lt(d.date, t.last().date) {
        assert(sorted_by_date(t.drop_last()));
        lemma_insert_sorted_sorted(t.drop_last(), d);
        let q = insert_sorted(t.drop_last(), d);
        lemma_insert_sorted_len(t.drop_last(), d);
        // every element of q sorts no later than t.last()
        assert forall|i: int, j: int| 0 <= i < j < r.len() implies date_le(r[i].date, r[j].date) by {
            if j < r.len() - 1 {
                assert(r[i] == q[i] && r[j] == q[j]);
            } else {
                assert(r[j] == t.last());
                assert(r[i] == q[i]);
                lemma_insert_sorted_members(t.drop_last(), d, i);
                if q[i] == d {
                    lemma_lex_lt_asymmetric(d.date, t.last().date);
                } else {
                    let k = choose|k: int|
                        0 <= k < t.drop_last().len() && q[i] == t.drop_last()[k];
                    assert(q[i] == t[k]);
                    assert(date_le(t[k].date, t.last().date));
                }
            }
        }
    } else {
        assert forall|i: int, j: int| 0 <= i < j < r.len() implies date_le(r[i].date, r[j].date) by {
            if j == r.len() - 1 {
                assert(r[j] == d);
                if i == t.len() - 1 {
                    lemma_lex_lt_asymmetric(d.date, t.last().date);
                } else {
                    assert(date_le(t[i].date, t.last().date));
                    assert(!lex_lt(d.date, t.last().date));
                    lemma_lex_lt_total(t.last().date, d.date);
                    lemma_date_le_trans(t[i].date, t.last().date, d.date);
                }
            }
        }
    }
}

/// Every element of the inserted sequence is either `d` itself or one of
/// the elements of `t`.
proof fn lemma_insert_sorted_members(t: Seq<DirectiveModel>, d: DirectiveModel, i: int)
    requires
        sorted_by_date(t),
        0 <= i < insert_sorted(t, d).len(),
    ensures
        insert_sorted(t, d)[i] == d || exists|k: int|
            0 <= k < t.len() && insert_sorted(t, d)[i] == t[k],
    decreases t.len(),
{
    let r = insert_sorted(t, d);
    if t.len() == 0 {
    } else if lex_lt(d.date, t.last().date) {
        lemma_insert_sorted_len(t.drop_last(), d);
        if i < r.len() - 1 {
            assert(sorted_by_date(t.drop_last()));
            lemma_insert_sorted_members(t.drop_last(), d, i);
            if r[i] != d {
                let k = choose|k: int|
                    0 <= k < t.drop_last().len() && insert_sorted(t.drop_last(), d)[i]
                        == t.drop_last()[k];
                assert(r[i] == t[k]);
            }
        } else {
            assert(r[i] == t.last());
            assert(r[i] == t[t.len() - 1]);
        }
    } else {
        if i < t.len() {
            assert(r[i] == t[i]);
        }
    }
}

pub proof fn lemma_sort_group_sorted(s: Seq<DirectiveModel>)
    ensures
        sorted_by_date(sort_group_spec(s)),
    decreases s.len(),
{
    if s.len() > 0 {
        lemma_sort_group_sorted(s.drop_last());
        lemma_insert_sorted_sorted(sort_group_spec(s.drop_last()), s.last());
    }
}

/// Sorting a sorted group changes nothing.
pub proof fn lemma_sort_of_sorted(s: Seq<DirectiveModel>)
    requires
        sorted_by_date(s),
    ensures
        sort_group_spec(s) == s,
    decreases s.len(),
{
    if s.len() > 0 {
        assert(sorted_by_date(s.drop_last()));
        lemma_sort_of_sorted(s.drop_last());
        if s.len() > 1 {
            assert(date_le(s.drop_last().last().date, s.last().date));
            assert(!lex_lt(s.last().date, s.drop_last().last().date));
        }
        assert(insert_sorted(s.drop_last(), s.last()) == s.drop_last().push(s.last()));
        assert(s.drop_last().push(s.last()) =~= s);
    } else {
        assert(sort_group_spec(s) =~= s);
    }
}

/// Characterizes the insertion point, to relate the loop below to the
/// specification.
proof fn lemma_insert_sorted_at(t: Seq<DirectiveModel>, d: DirectiveModel, pos: int)
    requires
        0 <= pos <= t.len(),
        forall|k: int| pos <= k < t.len() ==> lex_lt(d.date, (#[trigger] t[k]).date),
        pos > 0 ==> !lex_lt(d.date, t[pos - 1].date),
    ensures
        insert_sorted(t, d) == t.take(pos).push(d) + t.skip(pos),
    decreases t.len(),
{
    if t.len() == 0 {
        assert(insert_sorted(t, d) =~= t.take(pos).push(d) + t.skip(pos));
    } else if lex_lt(d.date, t.last().date) {
        assert(pos < t.len());
        lemma_insert_sorted_at(t.drop_last(), d, pos);
        assert(t.drop_last().take(pos) =~= t.take(pos));
        assert(insert_sorted(t, d) == (t.take(pos).push(d) + t.drop_last().skip(pos)).push(
            t.last(),
        ));
        assert((t.take(pos).push(d) + t.drop_last().skip(pos)).push(t.last()) =~= t.take(pos).push(
            d,
        ) + t.skip(pos));
    } else {
        assert(pos == t.len());
        assert(t.take(pos) =~= t);
        assert(t.skip(pos) =~= Seq::<DirectiveModel>::empty());
        assert(insert_sorted(t, d) =~= t.take(pos).push(d) + t.skip(pos));
    }
}

/// Stably sorts one group by ascending date key.
pub fn sort_group(group: &SortableGroup) -> (r: Vec<DatedDirective>)
    ensures
        dirs_view(r) == sort_group_spec(group.model()),
{
    let ghost m = group.model();
    let n = group.directives.len();
    let mut out: Vec<DatedDirective> = Vec::new();
    let mut i: usize = 0;
    proof {
        assert(m.take(0) =~= Seq::<DirectiveModel>::empty());
        assert(dirs_view(out) =~= sort_group_spec(m.take(0)));
    }
    while i < n
        invariant
            0 <= i <= n == group.directives@.len(),
            m == group.model(),
            dirs_view(out) == sort_group_spec(m.take(i as int)),
        decreases n - i,
    {
        let d = group.directives[i].duplicate();
        proof {
            assert(d.model() == m[i as int]);
        }
        let mut pos: usize = out.len();
        while pos > 0 && date_lt(&d.date, &out[pos - 1].date)
            invariant
                0 <= pos <= out@.len(),
                dirs_view(out).len() == out@.len(),
                forall|k: int|
                    pos <= k < out@.len() ==> lex_lt(d.model().date, (#[trigger] dirs_view(
                        out,
                    )[k]).date),
            decreases pos,
        {
            proof {
                assert(dirs_view(out)[pos - 1].date == out@[pos - 1].date@);
            }
            pos -= 1;
        }
        proof {
            if pos > 0 {
                assert(dirs_view(out)[pos - 1].date == out@[pos - 1].date@);
            }
        }
        let ghost old_out = dirs_view(out);
        out.insert(pos, d);
        i += 1;
        proof {
            lemma_insert_sorted_at(old_out, d.model(), pos as int);
            assert(dirs_view(out) =~= old_out.take(pos as int).push(d.model()) + old_out.skip(
                pos as int,
            ));
            assert(m.take(i as int).drop_last() =~= m.take(i - 1));
            assert(m.take(i as int).last() == m[i - 1]);
            assert(sort_group_spec(m.take(i as int)) == insert_sorted(
                sort_group_spec(m.take(i - 1)),
                m[i - 1],
            ));
        }
    }
    proof {
        assert(m.take(i as int) =~= m);
    }
    out
}

} // verus!
