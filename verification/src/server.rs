use vstd::prelude::*;

use crate::protocol::{connect_algo, lemma_read_written, write_message};
use crate::sorting::time_millis;
use crate::text::{
    chars_of, parse_unsigned, pieces_at, range_equals, split, split_bounds, string_of_range, trim,
    trim_bounds, unsigned_value, unsigned_within,
};
use crate::types::{AlgoType, MessageModel, StatsMessage, StatsModel};

verus! {

broadcast use vstd::string::group_string_axioms;

/// One step of the linear congruential generator behind the arrays:
/// `seed * 1664525 + 1013904223` modulo `2^32`.
pub open spec fn lcg_step(seed: int) -> int {
    (seed * 1664525 + 1013904223) % 4294967296
}

/// The generator's state after `k` steps from `seed`.
pub open spec fn lcg_state(seed: int, k: nat) -> int
    decreases k,
{
    if k == 0 {
        seed
    } else {
        lcg_step(lcg_state(seed, (k - 1) as nat))
    }
}

/// `r` holds the first values that the generator gives from `seed`, each modulo 1000.
pub open spec fn generated_from(r: Seq<u64>, seed: int) -> bool {
    forall|k: int| 0 <= k < r.len() ==> #[trigger] r[k] == lcg_state(seed, (k + 1) as nat) % 1000
}

/// Advances the generator and returns its new state modulo 1000.
pub fn find_random(seed: &mut u128) -> (r: u64)
    requires
        *old(seed) * 1664525 + 1013904223 <= u128::MAX,
    ensures
        *final(seed) == lcg_step(*old(seed) as int),
        r == *final(seed) % 1000,
{
    let a: u128 = 1664525;
    let c: u128 = 1013904223;
    let m: u128 = 4294967296;
    *seed = (*seed * a + c) % m;
    let number = *seed % 1000;
    number as u64
}

/// The `nb` values that the generator gives from `seed`, each below 1000.
pub fn random_vector(nb: usize, seed: u128) -> (r: Vec<u64>)
    requires
        seed * 1664525 + 1013904223 <= u128::MAX,
    ensures
        r@.len() == nb,
        generated_from(r@, seed as int),
        forall|k: int| 0 <= k < nb ==> #[trigger] r@[k] < 1000,
{
    let mut state = seed;
    let mut r: Vec<u64> = Vec::new();
    for k in 0..nb
        invariant
            r@.len() == k,
            state == lcg_state(seed as int, k as nat),
            k == 0 ==> state == seed,
            k > 0 ==> state < 4294967296,
            seed * 1664525 + 1013904223 <= u128::MAX,
            forall|j: int| 0 <= j < k ==> #[trigger] r@[j] == lcg_state(seed as int, (j + 1) as nat) % 1000,
    {
        let v = find_random(&mut state);
        r.push(v);
        assert(lcg_state(seed as int, (k + 1) as nat) == lcg_step(lcg_state(seed as int, k as nat)));
    }
    r
}

/// A random array of `nb` values below 1000, seeded with the clock in milliseconds.
pub fn create_vector(nb: i32) -> (r: Vec<u64>)
    requires
        nb >= 0,
    ensures
        r@.len() == nb,
        exists|seed: int| #[trigger] generated_from(r@, seed),
        forall|k: int| 0 <= k < nb ==> #[trigger] r@[k] < 1000,
{
    let seed = time_millis();
    let r = random_vector(nb as usize, seed);
    assert(generated_from(r@, seed as int));
    r
}

/// The name under which the dashboard connects: its entry is no worker.
pub open spec fn is_dashboard(name: Seq<char>) -> bool {
    name == "Dash"@
}

/// The worker that a connection line registers: the second field names it,
/// the third (without surrounding white space) names its algorithm; no run yet.
pub open spec fn connect_entry(s: Seq<char>) -> StatsModel {
    let g = split(s, '|');
    StatsModel { name: g[1], type_algo: connect_algo(trim(g[2])), result: (0, 0) }
}

/// The entry that the first line of a connection registers.
pub fn worker_from_connect_line(line: &String) -> (r: StatsMessage)
    requires
        split(line@, '|').len() >= 3,
    ensures
        r@ == connect_entry(line@),
{
    let text = line.as_str();
    let chars = chars_of(text);
    let b = split_bounds(&chars, '|');
    let ghost g = split(line@, '|');
    assert(pieces_at(chars@, b@) == g);
    assert(g[1] == chars@.subrange(b@[1].0 as int, b@[1].1 as int));
    assert(g[2] == chars@.subrange(b@[2].0 as int, b@[2].1 as int));
    let nom = string_of_range(text, b[1].0, b[1].1);
    let (lo, hi) = trim_bounds(&chars, b[2].0, b[2].1);
    let typ_algo = if range_equals(&chars, lo, hi, "BUBBLE") {
        AlgoType::Bubblesort
    } else if range_equals(&chars, lo, hi, "INSERTION") {
        AlgoType::Insertionsort
    } else if range_equals(&chars, lo, hi, "MERGE") {
        AlgoType::Mergesort
    } else {
        AlgoType::Bubblesort
    };
    StatsMessage { name: nom, type_algo: typ_algo, result: (0, 0) }
}

/// A line from a worker can be handled: a `RESULT` line has a time and a
/// count that parse; any other line is ignored.
pub open spec fn result_line_readable(s: Seq<char>) -> bool {
    let g = split(s, '|');
    g[0] == "RESULT"@ ==> {
        &&& g.len() >= 3
        &&& unsigned_within(g[1], u128::MAX as nat)
        &&& unsigned_within(trim(g[2]), u64::MAX as nat)
    }
}

/// The `(time, count)` that a `RESULT` line reports; `None` for other lines.
pub open spec fn line_result(s: Seq<char>) -> Option<(u128, u64)> {
    let g = split(s, '|');
    if g[0] == "RESULT"@ {
        Some((unsigned_value(g[1]) as u128, unsigned_value(trim(g[2])) as u64))
    } else {
        None
    }
}

/// Reads the `(time, count)` of a `RESULT` line from a worker.
pub fn result_of_line(line: &String) -> (r: Option<(u128, u64)>)
    requires
        result_line_readable(line@),
    ensures
        r == line_result(line@),
{
    let text = line.as_str();
    let chars = chars_of(text);
    let b = split_bounds(&chars, '|');
    let ghost g = split(line@, '|');
    assert(pieces_at(chars@, b@) == g);
    assert(g[0] == chars@.subrange(b@[0].0 as int, b@[0].1 as int));
    if !range_equals(&chars, b[0].0, b[0].1, "RESULT") {
        return None;
    }
    assert(g[1] == chars@.subrange(b@[1].0 as int, b@[1].1 as int));
    assert(g[2] == chars@.subrange(b@[2].0 as int, b@[2].1 as int));
    let time = match parse_unsigned(&chars, b[1].0, b[1].1) {
        Some(t) => t,
        None => {
            return None;
        },
    };
    let (lo, hi) = trim_bounds(&chars, b[2].0, b[2].1);
    let count = match parse_unsigned(&chars, lo, hi) {
        Some(c) => c,
        None => {
            return None;
        },
    };
    Some((time, count as u64))
}

/// The entry with its result replaced.
pub open spec fn with_run(e: StatsMessage, res: (u128, u64)) -> StatsMessage {
    StatsMessage { name: e.name, type_algo: e.type_algo, result: res }
}

/// `list` with the result of the first worker named `name` replaced by `res`
/// (unchanged where no worker has that name).
pub open spec fn with_result<T>(list: Seq<(StatsMessage, T)>, name: Seq<char>, res: (u128, u64)) -> Seq<
    (StatsMessage, T),
>
    decreases list.len(),
{
    if list.len() == 0 {
        list
    } else if list[0].0.name@ == name {
        list.update(0, (with_run(list[0].0, res), list[0].1))
    } else {
        seq![list[0]] + with_result(list.drop_first(), name, res)
    }
}

proof fn lemma_with_result_at<T>(list: Seq<(StatsMessage, T)>, name: Seq<char>, res: (u128, u64), i: int)
    requires
        0 <= i <= list.len(),
        forall|j: int| 0 <= j < i ==> (#[trigger] list[j]).0.name@ != name,
        i < list.len() ==> list[i].0.name@ == name,
    ensures
        with_result(list, name, res) == (if i < list.len() {
            list.update(i, (with_run(list[i].0, res), list[i].1))
        } else {
            list
        }),
    decreases list.len(),
{
    if list.len() > 0 && i > 0 {
        let rest = list.drop_first();
        assert forall|j: int| 0 <= j < i - 1 implies (#[trigger] rest[j]).0.name@ != name by {
            assert(rest[j] == list[j + 1]);
        }
        if i < list.len() {
            assert(rest[i - 1] == list[i]);
        }
        lemma_with_result_at(rest, name, res, i - 1);
        assert(list[0].0.name@ != name);
        if i < list.len() {
            assert(seq![list[0]] + rest.update(i - 1, (with_run(rest[i - 1].0, res), rest[i - 1].1))
                =~= list.update(i, (with_run(list[i].0, res), list[i].1)));
        } else {
            assert(seq![list[0]] + rest =~= list);
        }
    }
}

/// Records `result` as the last run of the first worker named `name`.
pub fn record_result<T>(list: &mut Vec<(StatsMessage, T)>, name: &String, result: (u128, u64))
    ensures
        final(list)@ == with_result(old(list)@, name@, result),
{
    let n = list.len();
    let mut i: usize = 0;
    while i < n && !(list[i].0.name == *name)
        invariant
            n == list.len(),
            i <= n,
            forall|j: int| 0 <= j < i ==> (#[trigger] list@[j]).0.name@ != name@,
        decreases n - i,
    {
        i += 1;
    }
    proof {
        lemma_with_result_at(list@, name@, result, i as int);
    }
    if i < n {
        let (mut stat, slot) = list.remove(i);
        stat.result = result;
        list.insert(i, (stat, slot));
    }
}

/// The statistics of the workers in `list`, the dashboard left out.
pub open spec fn listed_stats<T>(list: Seq<(StatsMessage, T)>) -> Seq<StatsMessage>
    decreases list.len(),
{
    if list.len() == 0 {
        Seq::empty()
    } else if is_dashboard(list.last().0.name@) {
        listed_stats(list.drop_last())
    } else {
        listed_stats(list.drop_last()).push(list.last().0)
    }
}

/// The statistics that are broadcast: every entry but the dashboard's, in order.
pub fn stats_snapshot<T>(list: &Vec<(StatsMessage, T)>) -> (r: Vec<StatsMessage>)
    ensures
        r@ == listed_stats(list@),
{
    let dash = String::from_str("Dash");
    let n = list.len();
    let mut r: Vec<StatsMessage> = Vec::new();
    for i in 0..n
        invariant
            n == list.len(),
            dash@ == "Dash"@,
            r@ == listed_stats(list@.take(i as int)),
    {
        assert(list@.take(i + 1).drop_last() =~= list@.take(i as int));
        assert(list@.take(i + 1).last() == list@[i as int]);
        if !(list[i].0.name == dash) {
            r.push(list[i].0.clone());
        }
    }
    assert(list@.take(n as int) =~= list@);
    r
}

/// `list` without the entries named `name`, in order.
pub open spec fn without_name<T>(list: Seq<(StatsMessage, T)>, name: Seq<char>) -> Seq<(StatsMessage, T)>
    decreases list.len(),
{
    if list.len() == 0 {
        list
    } else if list.last().0.name@ == name {
        without_name(list.drop_last(), name)
    } else {
        without_name(list.drop_last(), name).push(list.last())
    }
}

/// Drops every entry named `name`, keeping the order of the others.
pub fn remove_worker<T>(list: &mut Vec<(StatsMessage, T)>, name: &String)
    ensures
        final(list)@ == without_name(old(list)@, name@),
{
    let ghost orig = list@;
    let mut i: usize = 0;
    let ghost mut j: int = 0;
    assert(orig.take(0) =~= Seq::<(StatsMessage, T)>::empty());
    assert(list@.take(0) =~= Seq::<(StatsMessage, T)>::empty());
    assert(orig.skip(0) =~= orig);
    while i < list.len()
        invariant
            0 <= j <= orig.len(),
            i <= list.len(),
            list@.take(i as int) == without_name(orig.take(j), name@),
            list@.skip(i as int) == orig.skip(j),
        decreases list.len() - i,
    {
        let ghost pre = list@;
        assert(pre.skip(i as int).len() == orig.skip(j).len());
        assert(j < orig.len());
        assert(pre[i as int] == orig[j]) by {
            assert(pre.skip(i as int)[0] == orig.skip(j)[0]);
        }
        assert(orig.take(j + 1).drop_last() =~= orig.take(j));
        assert(orig.take(j + 1).last() == orig[j]);
        if list[i].0.name == *name {
            let _gone = list.remove(i);
            assert(list@.take(i as int) =~= pre.take(i as int));
            assert(list@.skip(i as int) =~= orig.skip(j + 1)) by {
                assert forall|k: int| 0 <= k < list@.skip(i as int).len() implies
                    #[trigger] list@.skip(i as int)[k] == orig.skip(j + 1)[k] by {
                    assert(pre.skip(i as int)[k + 1] == orig.skip(j)[k + 1]);
                }
            }
        } else {
            i += 1;
            assert(list@.take(i as int) =~= pre.take(i - 1).push(pre[i - 1]));
            assert(list@.skip(i as int) =~= orig.skip(j + 1)) by {
                assert forall|k: int| 0 <= k < list@.skip(i as int).len() implies
                    #[trigger] list@.skip(i as int)[k] == orig.skip(j + 1)[k] by {
                    assert(pre.skip(i - 1)[k + 1] == orig.skip(j)[k + 1]);
                }
            }
        }
        proof {
            j = j + 1;
        }
    }
    assert(list@.take(i as int) =~= list@);
    assert(orig.skip(j).len() == 0);
    assert(orig.take(j) =~= orig);
}

/// Handles one line from a worker: a `RESULT` line records its run; then the
/// statistics to broadcast.
pub fn on_worker_line<T>(list: &mut Vec<(StatsMessage, T)>, name: &String, line: &String) -> (r: Vec<StatsMessage>)
    requires
        result_line_readable(line@),
    ensures
        final(list)@ == (match line_result(line@) {
            Some(res) => with_result(old(list)@, name@, res),
            None => old(list)@,
        }),
        r@ == listed_stats(final(list)@),
{
    match result_of_line(line) {
        Some(res) => record_result(list, name, res),
        None => {},
    }
    stats_snapshot(list)
}

/// The broadcast statistics never hold the dashboard, and hold every worker.
pub proof fn lemma_listed_stats<T>(list: Seq<(StatsMessage, T)>)
    ensures
        forall|k: int| 0 <= k < listed_stats(list).len() ==> !is_dashboard(#[trigger] listed_stats(list)[k].name@),
        forall|k: int| 0 <= k < list.len() && !is_dashboard((#[trigger] list[k]).0.name@)
            ==> listed_stats(list).contains(list[k].0),
    decreases list.len(),
{
    if list.len() > 0 {
        let l0 = list.drop_last();
        lemma_listed_stats(l0);
        let r = listed_stats(list);
        assert forall|k: int| 0 <= k < list.len() && !is_dashboard((#[trigger] list[k]).0.name@)
            implies r.contains(list[k].0) by {
            if k < list.len() - 1 {
                assert(l0[k] == list[k]);
                let w = choose|w: int| 0 <= w < listed_stats(l0).len() && listed_stats(l0)[w] == list[k].0;
                assert(r[w] == listed_stats(l0)[w]);
            } else {
                assert(r[r.len() - 1] == list[k].0);
            }
        }
    }
}

/// After a worker leaves, no entry carries its name, and every entry of
/// another name stays.
pub proof fn lemma_without_name<T>(list: Seq<(StatsMessage, T)>, name: Seq<char>)
    ensures
        forall|k: int| 0 <= k < without_name(list, name).len() ==> (#[trigger] without_name(list, name)[k]).0.name@ != name,
        forall|k: int| 0 <= k < list.len() && (#[trigger] list[k]).0.name@ != name ==> without_name(list, name).contains(list[k]),
    decreases list.len(),
{
    if list.len() > 0 {
        let l0 = list.drop_last();
        lemma_without_name(l0, name);
        let r = without_name(list, name);
        assert forall|k: int| 0 <= k < list.len() && (#[trigger] list[k]).0.name@ != name
            implies r.contains(list[k]) by {
            if k < list.len() - 1 {
                assert(l0[k] == list[k]);
                let w = choose|w: int| 0 <= w < without_name(l0, name).len() && without_name(l0, name)[w] == list[k];
                assert(r[w] == without_name(l0, name)[w]);
            } else {
                assert(r[r.len() - 1] == list[k]);
            }
        }
    }
}

/// Recording a run changes only the result of the first worker of that name.
pub proof fn lemma_with_result<T>(list: Seq<(StatsMessage, T)>, name: Seq<char>, res: (u128, u64))
    ensures
        with_result(list, name, res).len() == list.len(),
        forall|k: int| 0 <= k < list.len() ==> {
            &&& (#[trigger] with_result(list, name, res)[k]).0.name == list[k].0.name
            &&& with_result(list, name, res)[k].0.type_algo == list[k].0.type_algo
            &&& with_result(list, name, res)[k].1 == list[k].1
        },
        forall|k: int| 0 <= k < list.len() && (#[trigger] with_result(list, name, res)[k]).0.result != list[k].0.result
            ==> list[k].0.name@ == name && forall|j: int| 0 <= j < k ==> list[j].0.name@ != name,
    decreases list.len(),
{
    if list.len() > 0 && list[0].0.name@ != name {
        let rest = list.drop_first();
        lemma_with_result(rest, name, res);
        let r = with_result(list, name, res);
        assert forall|k: int| 0 < k < list.len() implies #[trigger] r[k] == with_result(rest, name, res)[k - 1] by {}
        assert forall|k: int| 0 <= k < list.len() && (#[trigger] r[k]).0.result != list[k].0.result
            implies list[k].0.name@ == name && forall|j: int| 0 <= j < k ==> list[j].0.name@ != name by {
            assert(k > 0);
            assert(rest[k - 1] == list[k]);
            assert forall|j: int| 0 <= j < k implies list[j].0.name@ != name by {
                if j > 0 {
                    assert(rest[j - 1] == list[j]);
                }
            }
        }
    }
}

/// A worker that connects with the line `CONNECT|<name>|<algorithm>` is
/// registered under that name with that algorithm and no run yet.
pub proof fn lemma_connect_registers(name: Seq<char>, a: AlgoType)
    requires
        !name.contains('|'),
    ensures
        connect_entry(write_message(MessageModel::Connexion(name, a))) == (StatsModel {
            name: name,
            type_algo: a,
            result: (0, 0),
        }),
{
    lemma_read_written(MessageModel::Connexion(name, a));
}

} // verus!
