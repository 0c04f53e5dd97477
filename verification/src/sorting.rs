//! Ordering strategies over tasks, and a verified sort.

use vstd::prelude::*;
use vstd::multiset::Multiset;
use crate::task::{Task, TaskV, SortType, views};

verus! {

/// Lexicographic order on character sequences, by scalar value, with a
/// prefix ordered before its extensions.
pub open spec fn chars_le(a: Seq<char>, b: Seq<char>) -> bool
    decreases a.len(),
{
    if a.len() == 0 {
        true
    } else if b.len() == 0 {
        false
    } else if a[0] == b[0] {
        chars_le(a.drop_first(), b.drop_first())
    } else {
        a[0] < b[0]
    }
}

/// The order a strategy asks for: `a` may stand at or before `b`.
pub open spec fn task_le(st: SortType, a: TaskV, b: TaskV) -> bool {
    match st {
        SortType::Alphabetical => chars_le(a.name, b.name),
        SortType::ClosestToDeadline => a.due_date <= b.due_date,
        SortType::FurthestFromDeadline => b.due_date <= a.due_date,
    }
}

/// A sequence ordered under the strategy: every element stands at or
/// before every later one.
pub open spec fn sorted_by_strategy(st: SortType, s: Seq<TaskV>) -> bool {
    forall|i: int, j: int| 0 <= i <= j < s.len() ==> task_le(st, s[i], s[j])
}

/// Any two character sequences are comparable under `chars_le`.
pub proof fn lemma_chars_le_total(a: Seq<char>, b: Seq<char>)
    ensures
        chars_le(a, b) || chars_le(b, a),
    decreases a.len(),
{
    if a.len() > 0 && b.len() > 0 {
        if a[0] == b[0] {
            lemma_chars_le_total(a.drop_first(), b.drop_first());
        }
    }
}

/// `chars_le` carries over a middle element.
pub proof fn lemma_chars_le_trans(a: Seq<char>, b: Seq<char>, c: Seq<char>)
    requires
        chars_le(a, b),
        chars_le(b, c),
    ensures
        chars_le(a, c),
    decreases a.len(),
{
    if a.len() > 0 && b.len() > 0 && c.len() > 0 {
        if a[0] == b[0] && b[0] == c[0] {
            lemma_chars_le_trans(a.drop_first(), b.drop_first(), c.drop_first());
        }
    }
}

/// Any two tasks are comparable under every strategy.
pub proof fn lemma_task_le_total(st: SortType, a: TaskV, b: TaskV)
    ensures
        task_le(st, a, b) || task_le(st, b, a),
{
    if st is Alphabetical {
        lemma_chars_le_total(a.name, b.name);
    }
}

/// The strategy order carries over a middle task.
pub proof fn lemma_task_le_trans(st: SortType, a: TaskV, b: TaskV, c: TaskV)
    requires
        task_le(st, a, b),
        task_le(st, b, c),
    ensures
        task_le(st, a, c),
{
    if st is Alphabetical {
        lemma_chars_le_trans(a.name, b.name, c.name);
    }
}

/// When the first `i` characters agree, the order is settled by the rest.
proof fn lemma_chars_le_skip(a: Seq<char>, b: Seq<char>, i: int)
    requires
        0 <= i <= a.len(),
        i <= b.len(),
        forall|j: int| 0 <= j < i ==> a[j] == b[j],
    ensures
        chars_le(a, b) == chars_le(a.skip(i), b.skip(i)),
    decreases i,
{
    if i > 0 {
        assert(a.len() > 0 && b.len() > 0 && a[0] == b[0]);
        lemma_chars_le_skip(a.drop_first(), b.drop_first(), i - 1);
        assert(a.drop_first().skip(i - 1) =~= a.skip(i));
        assert(b.drop_first().skip(i - 1) =~= b.skip(i));
    } else {
        assert(a.skip(0) =~= a);
        assert(b.skip(0) =~= b);
    }
}

/// Compares two strings under `chars_le`.
fn str_le(a: &str, b: &str) -> (r: bool)
    ensures
        r == chars_le(a@, b@),
{
    let alen = a.unicode_len();
    let blen = b.unicode_len();
    let mut i: usize = 0;
    loop
        invariant
            i <= alen,
            i <= blen,
            alen == a@.len(),
            blen == b@.len(),
            forall|j: int| 0 <= j < i ==> a@[j] == b@[j],
        decreases alen - i,
    {
        proof {
            lemma_chars_le_skip(a@, b@, i as int);
        }
        if i >= alen {
            return true;
        }
        if i >= blen {
            return false;
        }
        let ca = a.get_char(i);
        let cb = b.get_char(i);
        if ca != cb {
            return ca < cb;
        }
        i = i + 1;
    }
}

/// Compares two tasks under the strategy's order.
fn task_le_exec(st: SortType, a: &Task, b: &Task) -> (r: bool)
    ensures
        r == task_le(st, a@, b@),
{
    match st {
        SortType::Alphabetical => str_le(a.name.as_str(), b.name.as_str()),
        SortType::ClosestToDeadline => a.due_date <= b.due_date,
        SortType::FurthestFromDeadline => b.due_date <= a.due_date,
    }
}

/// The multiset of an empty sequence holds nothing.
proof fn lemma_empty_multiset<A>(s: Seq<A>)
    requires
        s.len() == 0,
    ensures
        s.to_multiset() =~= Multiset::<A>::empty(),
{
    broadcast use vstd::seq_lib::group_to_multiset_ensures;
    broadcast use vstd::multiset::group_multiset_axioms;

    assert forall|x: A| s.to_multiset().count(x) == 0 by {
        assert(!s.contains(x));
    }
}

/// The values of a sequence with an inserted task.
proof fn lemma_views_insert(s: Seq<Task>, i: int, x: Task)
    requires
        0 <= i <= s.len(),
    ensures
        views(s.insert(i, x)) =~= views(s).insert(i, x@),
{
    let a = views(s.insert(i, x));
    let b = views(s).insert(i, x@);
    s.insert_ensures(i, x);
    views(s).insert_ensures(i, x@);
    assert forall|k: int| 0 <= k < a.len() implies a[k] == b[k] by {
        if k < i {
            assert(s.insert(i, x)[k] == s[k]);
        } else if k == i {
            assert(s.insert(i, x)[k] == x);
        } else {
            assert(s.insert(i, x)[(k - 1) + 1] == s[k - 1]);
        }
    }
}

/// The place where a task belongs in an ordered collection: everything
/// before it stands at or before the task, everything from it on at or
/// after.
fn insert_pos(out: &Vec<Task>, st: SortType, t: &Task) -> (j: usize)
    requires
        sorted_by_strategy(st, views(out@)),
    ensures
        j <= out@.len(),
        forall|k: int| 0 <= k < j ==> task_le(st, views(out@)[k], t@),
        forall|k: int| j <= k < out@.len() ==> task_le(st, t@, views(out@)[k]),
{
    let mut j: usize = 0;
    while j < out.len()
        invariant
            j <= out@.len(),
            sorted_by_strategy(st, views(out@)),
            forall|k: int| 0 <= k < j ==> task_le(st, views(out@)[k], t@),
        decreases out@.len() - j,
    {
        if !task_le_exec(st, &out[j], t) {
            proof {
                let ov = views(out@);
                lemma_task_le_total(st, ov[j as int], t@);
                assert forall|k: int| (j as int) <= k < ov.len() implies task_le(st, t@, ov[k]) by {
                    assert(task_le(st, ov[j as int], ov[k]));
                    lemma_task_le_trans(st, t@, ov[j as int], ov[k]);
                }
            }
            return j;
        }
        j = j + 1;
    }
    j
}

/// Reorders the tasks under the chosen strategy. The result holds the same
/// task values, each standing at or before every later one.
pub fn sort_tasks(tasks: &mut Vec<Task>, st: SortType)
    ensures
        sorted_by_strategy(st, views(final(tasks)@)),
        views(final(tasks)@).to_multiset() == views(old(tasks)@).to_multiset(),
        final(tasks)@.len() == old(tasks)@.len(),
{
    broadcast use vstd::seq_lib::group_to_multiset_ensures;
    broadcast use vstd::multiset::group_multiset_axioms;

    let mut out: Vec<Task> = Vec::new();
    let ghost total: Seq<TaskV> = views(tasks@);
    proof {
        assert(views(out@) =~= Seq::<TaskV>::empty());
        lemma_empty_multiset(views(out@));
        assert(views(out@).to_multiset().add(views(tasks@).to_multiset()) =~= total.to_multiset());
    }
    while tasks.len() > 0
        invariant
            sorted_by_strategy(st, views(out@)),
            views(out@).to_multiset().add(views(tasks@).to_multiset()) == total.to_multiset(),
            out@.len() + tasks@.len() == total.len(),
        decreases tasks@.len(),
    {
        let ghost pre = tasks@;
        let t = tasks.pop().unwrap();
        proof {
            assert(pre =~= tasks@.push(t));
            assert(views(pre) =~= views(tasks@).push(t@));
            assert(views(pre).to_multiset() == views(tasks@).push(t@).to_multiset());
        }
        let j = insert_pos(&out, st, &t);
        proof {
            lemma_views_insert(out@, j as int, t);
            vstd::seq_lib::to_multiset_insert(views(out@), j as int, t@);
            views(out@).insert_ensures(j as int, t@);
        }
        let ghost out_pre = views(out@);
        let ghost tv = t@;
        out.insert(j, t);
        proof {
            let ov = views(out@);
            assert(ov =~= out_pre.insert(j as int, tv));
            assert forall|p: int, q: int| 0 <= p <= q < ov.len() implies task_le(st, ov[p], ov[q])
            by {
                lemma_task_le_total(st, tv, tv);
                if p < j && q < j {
                    assert(ov[p] == out_pre[p] && ov[q] == out_pre[q]);
                } else if p < j && q == j {
                    assert(ov[p] == out_pre[p] && ov[q] == tv);
                } else if p < j && q > j {
                    assert(ov[p] == out_pre[p] && ov[q] == out_pre[q - 1]);
                } else if p == j && q == j {
                } else if p == j && q > j {
                    assert(ov[p] == tv && ov[q] == out_pre[q - 1]);
                } else {
                    assert(ov[p] == out_pre[p - 1] && ov[q] == out_pre[q - 1]);
                }
            }
            assert(ov.to_multiset() == out_pre.to_multiset().insert(tv));
            let tm = views(tasks@).to_multiset();
            assert forall|x: TaskV| ov.to_multiset().add(tm).count(x) == total.to_multiset().count(
                x,
            ) by {
                assert(out_pre.to_multiset().add(views(pre).to_multiset()).count(x)
                    == total.to_multiset().count(x));
                assert(views(pre) == views(tasks@).push(tv));
                vstd::seq_lib::to_multiset_build(views(tasks@), tv);
                assert(views(tasks@).push(tv).to_multiset() == tm.insert(tv));
                assert(ov.to_multiset().count(x) == out_pre.to_multiset().insert(tv).count(x));
            }
            assert(ov.to_multiset().add(views(tasks@).to_multiset()) =~= total.to_multiset());
        }
    }
    proof {
        assert(views(tasks@) =~= Seq::<TaskV>::empty());
        lemma_empty_multiset(views(tasks@));
        assert(views(out@).to_multiset().add(views(tasks@).to_multiset()) =~= views(
            out@,
        ).to_multiset());
    }
    *tasks = out;
}

} // verus!
