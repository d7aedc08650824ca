use vstd::prelude::*;

use crate::protocol::{
    connect_algo, message_readable, read_message, tcp_to_typemessage, typemessage_to_tcp,
    write_message,
};
use crate::sorting::{
    bubble_comparisons, insertion_comparisons, lemma_comparisons_bounded, merge_sort_comparisons,
    BubbleSorter, InsertionSorter, MergeSorter, Sorter,
};
use crate::text::{chars_of, contains_text, has_text, range_equals};
use crate::types::{AlgoType, MessageModel, TypeMessage};

verus! {

broadcast use vstd::string::group_string_axioms;

/// The algorithm a worker is started with: `BUBBLE`, `INSERTION` or `MERGE`;
/// anything else means bubble sort.
pub fn algo_from_name(name: &str) -> (a: AlgoType)
    ensures
        a == connect_algo(name@),
{
    let chars = chars_of(name);
    let n = chars.len();
    assert(chars@.subrange(0, n as int) =~= name@);
    if range_equals(&chars, 0, n, "BUBBLE") {
        AlgoType::Bubblesort
    } else if range_equals(&chars, 0, n, "INSERTION") {
        AlgoType::Insertionsort
    } else if range_equals(&chars, 0, n, "MERGE") {
        AlgoType::Mergesort
    } else {
        AlgoType::Bubblesort
    }
}

/// The arrays that algorithm `a` sorts without its comparison counter overflowing.
pub open spec fn algo_accepts(a: AlgoType, v: Seq<u64>) -> bool {
    match a {
        AlgoType::Bubblesort => v.len() >= 1 && bubble_comparisons(v.len()) <= u64::MAX,
        AlgoType::Insertionsort => insertion_comparisons(v) <= u64::MAX,
        AlgoType::Mergesort => v.len() >= 1 && merge_sort_comparisons(v) <= u64::MAX,
    }
}

/// The comparisons that algorithm `a` makes on `v`.
pub open spec fn algo_comparisons(a: AlgoType, v: Seq<u64>) -> nat {
    match a {
        AlgoType::Bubblesort => bubble_comparisons(v.len()),
        AlgoType::Insertionsort => insertion_comparisons(v),
        AlgoType::Mergesort => merge_sort_comparisons(v),
    }
}

/// A cheap test that algorithm `algo` sorts every array of `len` values:
/// at least one value where the algorithm needs it, and `len * len` within `u64`
/// (`len` below `2^32`).
pub fn algo_fits(algo: AlgoType, len: usize) -> (r: bool)
    ensures
        r == (if len == 0 { algo == AlgoType::Insertionsort } else { len <= 4294967295 }),
        r ==> forall|v: Seq<u64>| v.len() == len ==> #[trigger] algo_accepts(algo, v),
{
    if len == 0 {
        return match algo {
            AlgoType::Insertionsort => true,
            _ => false,
        };
    }
    if len > 4294967295 {
        return false;
    }
    assert(len * len <= u64::MAX) by (nonlinear_arith)
        requires
            len <= 4294967295,
    ;
    assert forall|v: Seq<u64>| v.len() == len implies #[trigger] algo_accepts(algo, v) by {
        lemma_comparisons_bounded(v);
    }
    true
}

/// A line the worker can handle: one that mentions `TAB` holds a message,
/// and an array in it can be sorted by the worker's algorithm.
pub open spec fn worker_line_ok(s: Seq<char>, a: AlgoType) -> bool {
    has_text(s, "TAB"@) ==> {
        &&& message_readable(s)
        &&& read_message(s) is Some
        &&& (read_message(s) matches Some(MessageModel::Tab(v)) ==> algo_accepts(a, v))
    }
}

/// The array that a line from the server hands a worker: the line mentions
/// `TAB` and holds an array.
pub open spec fn line_array(s: Seq<char>) -> Option<Seq<u64>> {
    if has_text(s, "TAB"@) {
        match read_message(s) {
            Some(MessageModel::Tab(v)) => Some(v),
            _ => None,
        }
    } else {
        None
    }
}

/// A worker's answer to a line from the server: for an array, the line
/// reporting the time that sorting it with `algo` took and the comparisons it made;
/// `None` for any other line.
pub fn worker_reply(line: &String, algo: AlgoType, name: &String) -> (r: Option<String>)
    requires
        worker_line_ok(line@, algo),
    ensures
        line_array(line@) is None ==> r is None,
        line_array(line@) is Some ==> r is Some && exists|t: u128|
            r->0@ == #[trigger] write_message(
                MessageModel::Resultmessage(t, algo_comparisons(algo, line_array(line@)->0) as u64),
            ),
{
    let chars = chars_of(line.as_str());
    if !contains_text(&chars, "TAB") {
        return None;
    }
    let msgtype = tcp_to_typemessage(line.clone());
    let ghost v = line_array(line@)->0;
    let stat_msg = match msgtype {
        Some(TypeMessage::Tab(mut vec)) => {
            assert(vec@ == v);
            match algo {
                AlgoType::Bubblesort => BubbleSorter.sorting(&mut vec, name),
                AlgoType::Insertionsort => InsertionSorter.sorting(&mut vec, name),
                AlgoType::Mergesort => MergeSorter.sorting(&mut vec, name),
            }
        },
        _ => {
            return None;
        },
    };
    let msgtypesend = TypeMessage::Resultmessage((stat_msg.result.0, stat_msg.result.1));
    let reply = typemessage_to_tcp(&msgtypesend);
    proof {
        let t = stat_msg.result.0;
        assert(stat_msg.result.1 == algo_comparisons(algo, v));
        assert(msgtypesend@ == MessageModel::Resultmessage(t, stat_msg.result.1));
        assert(reply->0@ == write_message(MessageModel::Resultmessage(t, algo_comparisons(algo, v) as u64)));
    }
    reply
}

} // verus!
