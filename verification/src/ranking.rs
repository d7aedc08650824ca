use vstd::prelude::*;

use crate::protocol::{message_readable, read_message, tcp_to_typemessage};
use crate::text::{chars_of, contains_text, has_text};
use crate::types::{stats_models, MessageModel, StatsMessage, StatsModel, TypeMessage};

verus! {

broadcast use vstd::seq_lib::group_to_multiset_ensures, vstd::string::group_string_axioms;

/// Places `x` after every value of `s`, going back from the end past the
/// values whose time is greater than the time of `x`.
pub open spec fn insert_by_time(s: Seq<StatsMessage>, x: StatsMessage) -> Seq<StatsMessage>
    decreases s.len(),
{
    if s.len() == 0 || s.last().result.0 <= x.result.0 {
        s.push(x)
    } else {
        insert_by_time(s.drop_last(), x).push(s.last())
    }
}

/// The stable sort of `s` by time: equal times keep their order.
pub open spec fn sort_by_time(s: Seq<StatsMessage>) -> Seq<StatsMessage>
    decreases s.len(),
{
    if s.len() == 0 {
        s
    } else {
        insert_by_time(sort_by_time(s.drop_last()), s.last())
    }
}

/// `s` is ordered by time, fastest first.
pub open spec fn sorted_by_time(s: Seq<StatsMessage>) -> bool {
    forall|i: int, j: int| 0 <= i <= j < s.len() ==> s[i].result.0 <= s[j].result.0
}

/// Inserting at the place that `insert_by_time` finds.
proof fn lemma_insert_at(s: Seq<StatsMessage>, x: StatsMessage, pos: int)
    requires
        0 <= pos <= s.len(),
        pos == 0 || s[pos - 1].result.0 <= x.result.0,
        forall|k: int| pos <= k < s.len() ==> s[k].result.0 > x.result.0,
    ensures
        insert_by_time(s, x) == s.insert(pos, x),
    decreases s.len(),
{
    if s.len() == 0 {
        assert(s.insert(pos, x) =~= s.push(x));
    } else if s.last().result.0 <= x.result.0 {
        assert(pos == s.len());
        assert(s.insert(pos, x) =~= s.push(x));
    } else {
        lemma_insert_at(s.drop_last(), x, pos);
        assert(s.drop_last().insert(pos, x).push(s.last()) =~= s.insert(pos, x));
    }
}

proof fn lemma_insert_by_time(s: Seq<StatsMessage>, x: StatsMessage)
    requires
        sorted_by_time(s),
    ensures
        sorted_by_time(insert_by_time(s, x)),
        insert_by_time(s, x).to_multiset() == s.to_multiset().insert(x),
        insert_by_time(s, x).len() == s.len() + 1,
        forall|k: int| 0 <= k < insert_by_time(s, x).len() ==>
            (#[trigger] insert_by_time(s, x)[k] == x || s.contains(insert_by_time(s, x)[k])),
    decreases s.len(),
{
    if s.len() > 0 && s.last().result.0 > x.result.0 {
        let s0 = s.drop_last();
        lemma_insert_by_time(s0, x);
        let r0 = insert_by_time(s0, x);
        let r = insert_by_time(s, x);
        assert(s =~= s0.push(s.last()));
        assert forall|k: int| 0 <= k < r0.len() implies r0[k].result.0 <= s.last().result.0 by {
            if r0[k] != x {
                let j = choose|j: int| 0 <= j < s0.len() && s0[j] == r0[k];
                assert(s[j] == s0[j]);
            }
        }
        assert forall|k: int| 0 <= k < r.len() implies (#[trigger] r[k] == x || s.contains(r[k])) by {
            if k < r0.len() {
                assert(r[k] == r0[k]);
                if r0[k] != x {
                    let j = choose|j: int| 0 <= j < s0.len() && s0[j] == r0[k];
                    assert(s[j] == s0[j]);
                }
            } else {
                assert(r[k] == s[s.len() - 1]);
            }
        }
    } else {
        let r = insert_by_time(s, x);
        assert forall|k: int| 0 <= k < r.len() implies (#[trigger] r[k] == x || s.contains(r[k])) by {
            if k < s.len() {
                assert(r[k] == s[k]);
            }
        }
    }
}

/// The ranking is ordered by time and holds exactly the statistics it was given.
pub proof fn lemma_sort_by_time(s: Seq<StatsMessage>)
    ensures
        sorted_by_time(sort_by_time(s)),
        sort_by_time(s).to_multiset() == s.to_multiset(),
        sort_by_time(s).len() == s.len(),
    decreases s.len(),
{
    if s.len() > 0 {
        lemma_sort_by_time(s.drop_last());
        lemma_insert_by_time(sort_by_time(s.drop_last()), s.last());
        assert(s =~= s.drop_last().push(s.last()));
    }
}

/// The entries of `s` whose time is `t`, in their order in `s`.
pub open spec fn with_time(s: Seq<StatsMessage>, t: u128) -> Seq<StatsMessage>
    decreases s.len(),
{
    if s.len() == 0 {
        s
    } else if s.last().result.0 == t {
        with_time(s.drop_last(), t).push(s.last())
    } else {
        with_time(s.drop_last(), t)
    }
}

proof fn lemma_insert_with_time(s: Seq<StatsMessage>, x: StatsMessage, t: u128)
    ensures
        with_time(insert_by_time(s, x), t) == (if x.result.0 == t {
            with_time(s, t).push(x)
        } else {
            with_time(s, t)
        }),
    decreases s.len(),
{
    if s.len() == 0 || s.last().result.0 <= x.result.0 {
        assert(s.push(x).drop_last() =~= s);
    } else {
        let s0 = s.drop_last();
        lemma_insert_with_time(s0, x, t);
        let r0 = insert_by_time(s0, x);
        assert(r0.push(s.last()).drop_last() =~= r0);
    }
}

/// The ranking is stable: for every time, the entries with that time come
/// in the same order as in the input.
pub proof fn lemma_sort_by_time_stable(s: Seq<StatsMessage>, t: u128)
    ensures
        with_time(sort_by_time(s), t) == with_time(s, t),
    decreases s.len(),
{
    if s.len() > 0 {
        lemma_sort_by_time_stable(s.drop_last(), t);
        lemma_insert_with_time(sort_by_time(s.drop_last()), s.last(), t);
    }
}

/// Orders the statistics by time, fastest first; equal times keep their order.
pub fn tri_tri(vec: &mut Vec<StatsMessage>)
    ensures
        final(vec)@ == sort_by_time(old(vec)@),
{
    let ghost orig = vec@;
    let n = vec.len();
    if n == 0 {
        return;
    }
    assert(orig.take(1).drop_last() =~= Seq::<StatsMessage>::empty());
    assert(orig.take(1) =~= seq![orig[0]]);
    assert(vec@.take(1) =~= seq![orig[0]]);
    assert(sort_by_time(Seq::<StatsMessage>::empty()) == Seq::<StatsMessage>::empty());
    assert(insert_by_time(Seq::<StatsMessage>::empty(), orig[0]) =~= seq![orig[0]]);
    assert(sort_by_time(orig.take(1)) == seq![orig[0]]);
    for i in 1..n
        invariant
            n == vec.len(),
            n == orig.len(),
            vec@.take(i as int) == sort_by_time(orig.take(i as int)),
            vec@.skip(i as int) == orig.skip(i as int),
    {
        let ghost pre = vec@;
        let ghost p = pre.take(i as int);
        let key = vec[i].result.0;
        assert(pre[i as int] == orig[i as int]) by {
            assert(pre.skip(i as int)[0] == orig.skip(i as int)[0]);
        }
        let mut pos = i;
        while pos > 0 && vec[pos - 1].result.0 > key
            invariant
                0 <= pos <= i < n == vec.len(),
                vec@ == pre,
                key == pre[i as int].result.0,
                forall|k: int| pos <= k < i ==> pre[k].result.0 > key,
            decreases pos,
        {
            pos -= 1;
        }
        let x = vec.remove(i);
        vec.insert(pos, x);
        proof {
            assert(p.len() == i);
            assert forall|k: int| pos <= k < p.len() implies p[k].result.0 > x.result.0 by {
                assert(p[k] == pre[k]);
            }
            if pos > 0 {
                assert(p[pos - 1] == pre[pos - 1]);
            }
            lemma_insert_at(p, x, pos as int);
            assert(orig.take(i + 1).drop_last() =~= orig.take(i as int));
            assert(orig.take(i + 1).last() == orig[i as int]);
            assert(vec@.take(i + 1) =~= p.insert(pos as int, x));
            assert(vec@.skip(i + 1) =~= orig.skip(i + 1)) by {
                assert forall|k: int| 0 <= k < vec@.skip(i + 1).len() implies
                    #[trigger] vec@.skip(i + 1)[k] == orig.skip(i + 1)[k] by {
                    assert(pre.skip(i as int)[k + 1] == orig.skip(i as int)[k + 1]);
                }
            }
        }
    }
    assert(vec@.take(n as int) =~= vec@);
    assert(orig.take(n as int) =~= orig);
}

/// A line the dashboard can handle: one that mentions `STAT` holds a message.
pub open spec fn dashboard_line_ok(s: Seq<char>) -> bool {
    has_text(s, "STAT"@) ==> message_readable(s) && read_message(s) is Some
}

/// The statistics a message hands the dashboard: those of a `STAT` message,
/// none for any other.
pub open spec fn shown_stats(m: Option<MessageModel>) -> Seq<StatsModel> {
    match m {
        Some(MessageModel::Stats(v)) => v,
        _ => Seq::empty(),
    }
}

/// The statistics that a line from the server sets on the dashboard: `None`
/// (keep what is shown) unless the line mentions `STAT`.
pub fn dashboard_stats(line: &String) -> (r: Option<Vec<StatsMessage>>)
    requires
        dashboard_line_ok(line@),
    ensures
        !has_text(line@, "STAT"@) ==> r is None,
        has_text(line@, "STAT"@) ==> r is Some && stats_models(r->0@) == shown_stats(read_message(line@)),
{
    let chars = chars_of(line.as_str());
    if !contains_text(&chars, "STAT") {
        return None;
    }
    match tcp_to_typemessage(line.clone()) {
        Some(TypeMessage::Stats(vec)) => Some(vec),
        _ => {
            let empty: Vec<StatsMessage> = Vec::new();
            assert(stats_models(empty@) =~= Seq::<StatsModel>::empty());
            Some(empty)
        },
    }
}

} // verus!
