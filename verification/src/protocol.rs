use vstd::prelude::*;

use crate::text::{
    decimal, join, lemma_join_push, lemma_split_join, lemma_split_extend, lemma_trim_plain,
    lemma_decimal_roundtrip, pieces_free_of, is_whitespace, unsigned_digits, push_decimal, bounds_within, chars_of, parse_unsigned, pieces_at, range_equals, split, split_bounds,
    string_of_range, trim, trim_bounds, unsigned_value, unsigned_within,
};
use crate::types::{algo_label, stats_models, AlgoType, MessageModel, StatsMessage, StatsModel, TypeMessage};

verus! {

broadcast use vstd::string::group_string_axioms;

/// The algorithm a `CONNECT` line names; an unknown name means bubble sort.
pub open spec fn connect_algo(s: Seq<char>) -> AlgoType {
    if s == "BUBBLE"@ {
        AlgoType::Bubblesort
    } else if s == "INSERTION"@ {
        AlgoType::Insertionsort
    } else if s == "MERGE"@ {
        AlgoType::Mergesort
    } else {
        AlgoType::Bubblesort
    }
}

/// The algorithm a `STAT` entry names; an unknown name means merge sort.
pub open spec fn stat_algo(s: Seq<char>) -> AlgoType {
    if s == "BUBBLE"@ {
        AlgoType::Bubblesort
    } else if s == "INSERTION"@ {
        AlgoType::Insertionsort
    } else if s == "MERGE"@ {
        AlgoType::Mergesort
    } else {
        AlgoType::Mergesort
    }
}

/// The text of the `k`-th value of a `TAB` line split at `|`: the last value
/// is read without surrounding white space (the line end).
pub open spec fn tab_value_text(g: Seq<Seq<char>>, k: int) -> Seq<char> {
    if k == g.len() - 1 {
        trim(g[k])
    } else {
        g[k]
    }
}

/// How many complete entries of four fields follow the keyword of a `STAT` line.
pub open spec fn stat_entries(g: Seq<Seq<char>>) -> int {
    (g.len() - 1) / 4
}

/// The `i`-th entry of a `STAT` line split at `|`.
pub open spec fn stat_entry(g: Seq<Seq<char>>, i: int) -> StatsModel {
    StatsModel {
        name: g[1 + 4 * i],
        type_algo: stat_algo(g[2 + 4 * i]),
        result: (
            unsigned_value(g[3 + 4 * i]) as u128,
            unsigned_value(trim(g[4 + 4 * i])) as u64,
        ),
    }
}

/// The lines that can be read: a known keyword with all the fields it needs,
/// each number within its type. Any other first field is readable (as no message).
pub open spec fn message_readable(s: Seq<char>) -> bool {
    let g = split(s, '|');
    if g[0] == "CONNECT"@ {
        g.len() >= 3
    } else if g[0] == "TAB"@ {
        forall|k: int| 1 <= k < g.len() ==> unsigned_within(#[trigger] tab_value_text(g, k), u64::MAX as nat)
    } else if g[0] == "RESULT"@ {
        &&& g.len() >= 3
        &&& unsigned_within(g[1], u128::MAX as nat)
        &&& unsigned_within(trim(g[2]), u64::MAX as nat)
    } else if g[0] == "STAT"@ {
        forall|i: int|
            0 <= i < stat_entries(g) ==> {
                &&& unsigned_within(#[trigger] g[3 + 4 * i], u128::MAX as nat)
                &&& unsigned_within(trim(g[4 + 4 * i]), u64::MAX as nat)
            }
    } else {
        true
    }
}

/// The message a line holds: its fields are the pieces between `|`; the first
/// is the keyword.
pub open spec fn read_message(s: Seq<char>) -> Option<MessageModel> {
    let g = split(s, '|');
    if g[0] == "CONNECT"@ {
        Some(MessageModel::Connexion(g[1], connect_algo(trim(g[2]))))
    } else if g[0] == "TAB"@ {
        Some(
            MessageModel::Tab(
                Seq::new(
                    (g.len() - 1) as nat,
                    |k: int| unsigned_value(tab_value_text(g, k + 1)) as u64,
                ),
            ),
        )
    } else if g[0] == "RESULT"@ {
        Some(
            MessageModel::Resultmessage(
                unsigned_value(g[1]) as u128,
                unsigned_value(trim(g[2])) as u64,
            ),
        )
    } else if g[0] == "STAT"@ {
        Some(MessageModel::Stats(Seq::new(stat_entries(g) as nat, |i: int| stat_entry(g, i))))
    } else {
        None
    }
}

/// The model of an optional message.
pub open spec fn message_option_view(m: Option<TypeMessage>) -> Option<MessageModel> {
    match m {
        Some(x) => Some(x@),
        None => None,
    }
}

fn algo_of_connect(s: &Vec<char>, lo: usize, hi: usize) -> (a: AlgoType)
    requires
        lo <= hi <= s.len(),
    ensures
        a == connect_algo(s@.subrange(lo as int, hi as int)),
{
    if range_equals(s, lo, hi, "BUBBLE") {
        AlgoType::Bubblesort
    } else if range_equals(s, lo, hi, "INSERTION") {
        AlgoType::Insertionsort
    } else if range_equals(s, lo, hi, "MERGE") {
        AlgoType::Mergesort
    } else {
        AlgoType::Bubblesort
    }
}

fn algo_of_stat(s: &Vec<char>, lo: usize, hi: usize) -> (a: AlgoType)
    requires
        lo <= hi <= s.len(),
    ensures
        a == stat_algo(s@.subrange(lo as int, hi as int)),
{
    if range_equals(s, lo, hi, "BUBBLE") {
        AlgoType::Bubblesort
    } else if range_equals(s, lo, hi, "INSERTION") {
        AlgoType::Insertionsort
    } else if range_equals(s, lo, hi, "MERGE") {
        AlgoType::Mergesort
    } else {
        AlgoType::Mergesort
    }
}

/// Reads a `u64` field as `str::parse` does; `None` where that fails.
fn read_u64(s: &Vec<char>, lo: usize, hi: usize) -> (r: Option<u64>)
    requires
        lo <= hi <= s.len(),
    ensures
        r == (if unsigned_within(s@.subrange(lo as int, hi as int), u64::MAX as nat) {
            Some(unsigned_value(s@.subrange(lo as int, hi as int)) as u64)
        } else {
            None::<u64>
        }),
{
    match parse_unsigned(s, lo, hi) {
        Some(v) => {
            if v <= u64::MAX as u128 {
                Some(v as u64)
            } else {
                None
            }
        },
        None => None,
    }
}

/// Reads a line: `None` where the line cannot be read (a field missing or a
/// number that does not parse), else the message it holds, if any.
pub fn decode_message(log: &String) -> (r: Option<Option<TypeMessage>>)
    ensures
        r is None <==> !message_readable(log@),
        r matches Some(m) ==> message_option_view(m) == read_message(log@),
{
    let text = log.as_str();
    let chars = chars_of(text);
    let b = split_bounds(&chars, '|');
    let ghost g = split(log@, '|');
    assert(pieces_at(chars@, b@) == g);
    assert(g[0] == chars@.subrange(b@[0].0 as int, b@[0].1 as int));
    let n = b.len();
    let (lo0, hi0) = b[0];
    if range_equals(&chars, lo0, hi0, "CONNECT") {
        if n < 3 {
            return None;
        }
        assert(g[1] == chars@.subrange(b@[1].0 as int, b@[1].1 as int));
        assert(g[2] == chars@.subrange(b@[2].0 as int, b@[2].1 as int));
        let name = string_of_range(text, b[1].0, b[1].1);
        let (a, z) = trim_bounds(&chars, b[2].0, b[2].1);
        let algo = algo_of_connect(&chars, a, z);
        return Some(Some(TypeMessage::Connexion((name, algo))));
    }
    if range_equals(&chars, lo0, hi0, "TAB") {
        let mut vec: Vec<u64> = Vec::new();
        for k in 1..n
            invariant
                n == b@.len(),
                n == g.len(),
                n >= 1,
                bounds_within(b@, chars@.len()),
                pieces_at(chars@, b@) == g,
                g[0] == "TAB"@,
                g[0] != "CONNECT"@,
                g == split(log@, '|'),
                vec@ =~= Seq::new(
                    (k - 1) as nat,
                    |j: int| unsigned_value(tab_value_text(g, j + 1)) as u64,
                ),
                forall|j: int| 1 <= j < k ==> unsigned_within(#[trigger] tab_value_text(g, j), u64::MAX as nat),
        {
            let (mut lo, mut hi) = b[k];
            assert(g[k as int] == chars@.subrange(lo as int, hi as int));
            if k == n - 1 {
                let t = trim_bounds(&chars, lo, hi);
                lo = t.0;
                hi = t.1;
            }
            assert(tab_value_text(g, k as int) == chars@.subrange(lo as int, hi as int));
            match read_u64(&chars, lo, hi) {
                Some(v) => vec.push(v),
                None => {
                    return None;
                },
            }
        }
        return Some(Some(TypeMessage::Tab(vec)));
    }
    if range_equals(&chars, lo0, hi0, "RESULT") {
        if n < 3 {
            return None;
        }
        assert(g[1] == chars@.subrange(b@[1].0 as int, b@[1].1 as int));
        assert(g[2] == chars@.subrange(b@[2].0 as int, b@[2].1 as int));
        let time = match parse_unsigned(&chars, b[1].0, b[1].1) {
            Some(t) => t,
            None => {
                return None;
            },
        };
        let (a, z) = trim_bounds(&chars, b[2].0, b[2].1);
        let count = match read_u64(&chars, a, z) {
            Some(c) => c,
            None => {
                return None;
            },
        };
        return Some(Some(TypeMessage::Resultmessage((time, count))));
    }
    if range_equals(&chars, lo0, hi0, "STAT") {
        let mut vec: Vec<StatsMessage> = Vec::new();
        let size = (n - 1) / 4;
        for i in 0..size
            invariant
                n == b@.len(),
                n == g.len(),
                n >= 1,
                size == stat_entries(g),
                bounds_within(b@, chars@.len()),
                pieces_at(chars@, b@) == g,
                text@ == chars@,
                g[0] == "STAT"@,
                g[0] != "CONNECT"@,
                g[0] != "TAB"@,
                g[0] != "RESULT"@,
                g == split(log@, '|'),
                stats_models(vec@) =~= Seq::new(i as nat, |j: int| stat_entry(g, j)),
                forall|j: int|
                    0 <= j < i ==> {
                        &&& unsigned_within(#[trigger] g[3 + 4 * j], u128::MAX as nat)
                        &&& unsigned_within(trim(g[4 + 4 * j]), u64::MAX as nat)
                    },
        {
            let base = 4 * i;
            assert(g[base + 1] == chars@.subrange(b@[base + 1].0 as int, b@[base + 1].1 as int));
            assert(g[base + 2] == chars@.subrange(b@[base + 2].0 as int, b@[base + 2].1 as int));
            assert(g[base + 3] == chars@.subrange(b@[base + 3].0 as int, b@[base + 3].1 as int));
            assert(g[base + 4] == chars@.subrange(b@[base + 4].0 as int, b@[base + 4].1 as int));
            let name = string_of_range(text, b[base + 1].0, b[base + 1].1);
            let algo = algo_of_stat(&chars, b[base + 2].0, b[base + 2].1);
            let time = match parse_unsigned(&chars, b[base + 3].0, b[base + 3].1) {
                Some(t) => t,
                None => {
                    return None;
                },
            };
            let (a, z) = trim_bounds(&chars, b[base + 4].0, b[base + 4].1);
            let count = match read_u64(&chars, a, z) {
                Some(c) => c,
                None => {
                    assert(unsigned_within(g[3 + 4 * i], u128::MAX as nat));
                    return None;
                },
            };
            let ghost before = vec@;
            vec.push(StatsMessage { name, type_algo: algo, result: (time, count) });
            assert(stats_models(vec@) =~= stats_models(before).push(stat_entry(g, i as int)));
        }
        return Some(Some(TypeMessage::Stats(vec)));
    }
    Some(None)
}

/// Reads a line of the protocol into the message it holds; `None` where its
/// first field is no keyword.
pub fn tcp_to_typemessage(log: String) -> (r: Option<TypeMessage>)
    requires
        message_readable(log@),
    ensures
        message_option_view(r) == read_message(log@),
{
    match decode_message(&log) {
        Some(m) => m,
        None => None,
    }
}

/// The `j`-th of the four fields that carry a worker's statistics.
pub open spec fn stat_piece(e: StatsModel, j: int) -> Seq<char> {
    if j == 0 {
        e.name
    } else if j == 1 {
        algo_label(e.type_algo)
    } else if j == 2 {
        decimal(e.result.0 as nat)
    } else {
        decimal(e.result.1 as nat)
    }
}

/// The fields of the line that carries `m`: its keyword, then its values.
pub open spec fn message_fields(m: MessageModel) -> Seq<Seq<char>> {
    match m {
        MessageModel::Connexion(name, algo) => seq!["CONNECT"@, name, algo_label(algo)],
        MessageModel::Tab(v) => seq!["TAB"@] + Seq::new(v.len(), |k: int| decimal(v[k] as nat)),
        MessageModel::Resultmessage(time, count) => seq![
            "RESULT"@,
            decimal(time as nat),
            decimal(count as nat),
        ],
        MessageModel::Stats(v) => seq!["STAT"@] + Seq::new(
            4 * v.len(),
            |k: int| stat_piece(v[k / 4], k % 4),
        ),
    }
}

/// The line that carries `m`: its fields separated by `|`, ended by a newline.
pub open spec fn write_message(m: MessageModel) -> Seq<char> {
    join(message_fields(m), '|') + "\n"@
}

/// Appends `|` and then `piece`.
fn append_field(out: &mut String, piece: &str)
    ensures
        final(out)@ == old(out)@ + seq!['|'] + piece@,
{
    proof {
        reveal_strlit("|");
    }
    out.append("|");
    out.append(piece);
}

/// Appends `|` and then the decimal representation of `n`.
fn append_number_field(out: &mut String, n: u128)
    ensures
        final(out)@ == old(out)@ + seq!['|'] + decimal(n as nat),
{
    proof {
        reveal_strlit("|");
    }
    out.append("|");
    push_decimal(out, n);
}

/// The line of the protocol that carries `msg`: always `Some`.
pub fn typemessage_to_tcp(msg: &TypeMessage) -> (r: Option<String>)
    ensures
        r matches Some(s) && s@ == write_message(msg@),
{
    let mut texte: String;
    let ghost fields = message_fields(msg@);
    match msg {
        TypeMessage::Connexion((a, b)) => {
            texte = String::from_str("CONNECT");
            let ghost f1 = seq!["CONNECT"@];
            append_field(&mut texte, a.as_str());
            proof {
                lemma_join_push(f1, a@, '|');
            }
            let label = b.to_string();
            append_field(&mut texte, label.as_str());
            proof {
                lemma_join_push(f1.push(a@), label@, '|');
                assert(f1.push(a@).push(label@) =~= fields);
            }
        },
        TypeMessage::Tab(vec) => {
            texte = String::from_str("TAB");
            let n = vec.len();
            for i in 0..n
                invariant
                    n == vec@.len(),
                    texte@ == join(
                        seq!["TAB"@] + Seq::new(i as nat, |k: int| decimal(vec@[k] as nat)),
                        '|',
                    ),
            {
                let ghost before = seq!["TAB"@] + Seq::new(i as nat, |k: int| decimal(vec@[k] as nat));
                append_number_field(&mut texte, vec[i] as u128);
                proof {
                    lemma_join_push(before, decimal(vec@[i as int] as nat), '|');
                    assert(before.push(decimal(vec@[i as int] as nat)) =~= seq!["TAB"@] + Seq::new(
                        (i + 1) as nat,
                        |k: int| decimal(vec@[k] as nat),
                    ));
                }
            }
            assert(seq!["TAB"@] + Seq::new(n as nat, |k: int| decimal(vec@[k] as nat)) =~= fields);
        },
        TypeMessage::Resultmessage((a, b)) => {
            texte = String::from_str("RESULT");
            let ghost f1 = seq!["RESULT"@];
            append_number_field(&mut texte, *a);
            proof {
                lemma_join_push(f1, decimal(*a as nat), '|');
            }
            append_number_field(&mut texte, *b as u128);
            proof {
                lemma_join_push(f1.push(decimal(*a as nat)), decimal(*b as nat), '|');
                assert(f1.push(decimal(*a as nat)).push(decimal(*b as nat)) =~= fields);
            }
        },
        TypeMessage::Stats(vec) => {
            texte = String::from_str("STAT");
            let n = vec.len();
            let ghost v = stats_models(vec@);
            for i in 0..n
                invariant
                    n == vec@.len(),
                    v == stats_models(vec@),
                    texte@ == join(
                        seq!["STAT"@] + Seq::new(4 * i as nat, |k: int| stat_piece(v[k / 4], k % 4)),
                        '|',
                    ),
            {
                let ghost f0 = seq!["STAT"@] + Seq::new(4 * i as nat, |k: int| stat_piece(v[k / 4], k % 4));
                let stat_msg = &vec[i];
                let ghost e = v[i as int];
                assert(e == stat_msg@);
                append_field(&mut texte, stat_msg.name.as_str());
                let label = stat_msg.type_algo.to_string();
                append_field(&mut texte, label.as_str());
                append_number_field(&mut texte, stat_msg.result.0);
                append_number_field(&mut texte, stat_msg.result.1 as u128);
                proof {
                    let f1 = f0.push(stat_piece(e, 0));
                    let f2 = f1.push(stat_piece(e, 1));
                    let f3 = f2.push(stat_piece(e, 2));
                    let f4 = f3.push(stat_piece(e, 3));
                    lemma_join_push(f0, stat_piece(e, 0), '|');
                    lemma_join_push(f1, stat_piece(e, 1), '|');
                    lemma_join_push(f2, stat_piece(e, 2), '|');
                    lemma_join_push(f3, stat_piece(e, 3), '|');
                    let g = seq!["STAT"@] + Seq::new(4 * (i + 1) as nat, |k: int| stat_piece(v[k / 4], k % 4));
                    assert forall|k: int| 0 <= k < g.len() implies #[trigger] g[k] == f4[k] by {
                        if k >= 1 + 4 * i {
                            assert((k - 1) / 4 == i);
                        }
                    }
                    assert(g =~= f4);
                }
            }
            assert(seq!["STAT"@] + Seq::new(4 * n as nat, |k: int| stat_piece(v[k / 4], k % 4)) =~= fields);
        },
    }
    texte.append("\n");
    Some(texte)
}

/// The messages that a line carries faithfully: no name holds `|`, and an
/// array or a list of statistics is not empty.
pub open spec fn message_writable(m: MessageModel) -> bool {
    match m {
        MessageModel::Connexion(name, _) => !name.contains('|'),
        MessageModel::Tab(v) => v.len() > 0,
        MessageModel::Resultmessage(_, _) => true,
        MessageModel::Stats(v) => {
            &&& v.len() > 0
            &&& forall|i: int| 0 <= i < v.len() ==> !(#[trigger] v[i]).name.contains('|')
        },
    }
}

proof fn lemma_literal_free(s: Seq<char>)
    requires
        forall|k: int| 0 <= k < s.len() ==> s[k] != '|',
    ensures
        !s.contains('|'),
{
}

proof fn lemma_label(a: AlgoType)
    ensures
        algo_label(a).len() > 0,
        !algo_label(a).contains('|'),
        !is_whitespace(algo_label(a)[0]),
        !is_whitespace(algo_label(a).last()),
        connect_algo(algo_label(a)) == a,
        stat_algo(algo_label(a)) == a,
{
    reveal_strlit("BUBBLE");
    reveal_strlit("INSERTION");
    reveal_strlit("MERGE");
    lemma_literal_free("BUBBLE"@);
    lemma_literal_free("INSERTION"@);
    lemma_literal_free("MERGE"@);
}

proof fn lemma_number_field(n: nat, max: nat)
    requires
        n <= max,
    ensures
        unsigned_within(decimal(n), max),
        unsigned_value(decimal(n)) == n,
        trim(decimal(n)) == decimal(n),
        trim(decimal(n) + seq!['\n']) == decimal(n),
        !decimal(n).contains('|'),
{
    lemma_decimal_roundtrip(n);
    assert(unsigned_digits(decimal(n)) == decimal(n));
    lemma_trim_plain(decimal(n));
}

proof fn lemma_keywords()
    ensures
        "CONNECT"@ != "TAB"@,
        "CONNECT"@ != "RESULT"@,
        "CONNECT"@ != "STAT"@,
        "TAB"@ != "RESULT"@,
        "TAB"@ != "STAT"@,
        "RESULT"@ != "STAT"@,
        !"CONNECT"@.contains('|'),
        !"TAB"@.contains('|'),
        !"RESULT"@.contains('|'),
        !"STAT"@.contains('|'),
        "\n"@ == seq!['\n'],
{
    reveal_strlit("CONNECT");
    reveal_strlit("TAB");
    reveal_strlit("RESULT");
    reveal_strlit("STAT");
    reveal_strlit("\n");
    lemma_literal_free("CONNECT"@);
    lemma_literal_free("TAB"@);
    lemma_literal_free("RESULT"@);
    lemma_literal_free("STAT"@);
    assert("CONNECT"@.len() == 7);
    assert("TAB"@.len() == 3);
    assert("RESULT"@.len() == 6);
    assert("STAT"@.len() == 4);
}

/// The pieces of a written line are its fields, the last one followed by the newline.
proof fn lemma_written_pieces(m: MessageModel)
    requires
        message_writable(m),
    ensures
        message_fields(m).len() >= 2,
        split(write_message(m), '|') == message_fields(m).update(
            message_fields(m).len() - 1,
            message_fields(m).last() + seq!['\n'],
        ),
{
    lemma_keywords();
    let fs = message_fields(m);
    match m {
        MessageModel::Connexion(name, algo) => {
            lemma_label(algo);
            assert(pieces_free_of(fs, '|'));
        },
        MessageModel::Tab(v) => {
            assert forall|k: int| 0 <= k < fs.len() implies !(#[trigger] fs[k]).contains('|') by {
                if k > 0 {
                    lemma_number_field(v[k - 1] as nat, u64::MAX as nat);
                }
            }
        },
        MessageModel::Resultmessage(time, count) => {
            lemma_number_field(time as nat, u128::MAX as nat);
            lemma_number_field(count as nat, u64::MAX as nat);
            assert(pieces_free_of(fs, '|'));
        },
        MessageModel::Stats(v) => {
            assert forall|k: int| 0 <= k < fs.len() implies !(#[trigger] fs[k]).contains('|') by {
                if k > 0 {
                    let e = v[(k - 1) / 4];
                    lemma_label(e.type_algo);
                    lemma_number_field(e.result.0 as nat, u128::MAX as nat);
                    lemma_number_field(e.result.1 as nat, u64::MAX as nat);
                }
            }
        },
    }
    lemma_split_join(fs, '|');
    lemma_split_extend(join(fs, '|'), seq!['\n'], '|');
}

proof fn lemma_read_written_tab(v: Seq<u64>, g: Seq<Seq<char>>)
    requires
        v.len() > 0,
        g == message_fields(MessageModel::Tab(v)).update(
            v.len() as int,
            message_fields(MessageModel::Tab(v)).last() + seq!['\n'],
        ),
    ensures
        forall|k: int| 1 <= k < g.len() ==> unsigned_within(#[trigger] tab_value_text(g, k), u64::MAX as nat),
        Seq::new((g.len() - 1) as nat, |k: int| unsigned_value(tab_value_text(g, k + 1)) as u64) == v,
{
    assert forall|k: int| 1 <= k < g.len() implies unsigned_within(
        #[trigger] tab_value_text(g, k),
        u64::MAX as nat,
    ) && unsigned_value(tab_value_text(g, k)) == v[k - 1] by {
        lemma_number_field(v[k - 1] as nat, u64::MAX as nat);
        if k == g.len() - 1 {
            assert(g[k] == decimal(v[k - 1] as nat) + seq!['\n']);
        } else {
            assert(g[k] == decimal(v[k - 1] as nat));
        }
    }
    let r = Seq::new((g.len() - 1) as nat, |k: int| unsigned_value(tab_value_text(g, k + 1)) as u64);
    assert forall|k: int| 0 <= k < v.len() implies #[trigger] r[k] == v[k] by {
        assert(unsigned_value(tab_value_text(g, k + 1)) == v[k]);
    }
    assert(r =~= v);
}

proof fn lemma_read_written_stats(v: Seq<StatsModel>, g: Seq<Seq<char>>)
    requires
        message_writable(MessageModel::Stats(v)),
        g == message_fields(MessageModel::Stats(v)).update(
            4 * v.len() as int,
            message_fields(MessageModel::Stats(v)).last() + seq!['\n'],
        ),
    ensures
        stat_entries(g) == v.len(),
        forall|i: int|
            0 <= i < stat_entries(g) ==> {
                &&& unsigned_within(#[trigger] g[3 + 4 * i], u128::MAX as nat)
                &&& unsigned_within(trim(g[4 + 4 * i]), u64::MAX as nat)
            },
        Seq::new(stat_entries(g) as nat, |i: int| stat_entry(g, i)) == v,
{
    assert(stat_entries(g) == v.len());
    assert forall|i: int| 0 <= i < stat_entries(g) implies {
        &&& unsigned_within(#[trigger] g[3 + 4 * i], u128::MAX as nat)
        &&& unsigned_within(trim(g[4 + 4 * i]), u64::MAX as nat)
        &&& stat_entry(g, i) == v[i]
    } by {
        let e = v[i];
        lemma_label(e.type_algo);
        lemma_number_field(e.result.0 as nat, u128::MAX as nat);
        lemma_number_field(e.result.1 as nat, u64::MAX as nat);
        assert((4 * i) / 4 == i && (4 * i) % 4 == 0);
        assert((4 * i + 1) / 4 == i && (4 * i + 1) % 4 == 1);
        assert((4 * i + 2) / 4 == i && (4 * i + 2) % 4 == 2);
        assert((4 * i + 3) / 4 == i && (4 * i + 3) % 4 == 3);
        assert(g[1 + 4 * i] == e.name);
        assert(g[2 + 4 * i] == algo_label(e.type_algo));
        assert(g[3 + 4 * i] == decimal(e.result.0 as nat));
        if i == v.len() - 1 {
            assert(g[4 + 4 * i] == decimal(e.result.1 as nat) + seq!['\n']);
        } else {
            assert(g[4 + 4 * i] == decimal(e.result.1 as nat));
        }
    }
    let r = Seq::new(stat_entries(g) as nat, |i: int| stat_entry(g, i));
    assert(r =~= v);
}

/// Reading back a written line gives the message: `tcp_to_typemessage`
/// undoes `typemessage_to_tcp` on every message that a line carries faithfully.
pub proof fn lemma_read_written(m: MessageModel)
    requires
        message_writable(m),
    ensures
        message_readable(write_message(m)),
        read_message(write_message(m)) == Some(m),
{
    lemma_keywords();
    lemma_written_pieces(m);
    let g = split(write_message(m), '|');
    match m {
        MessageModel::Connexion(name, algo) => {
            lemma_label(algo);
            assert(g[0] == "CONNECT"@);
            assert(g[1] == name);
            assert(g[2] == algo_label(algo) + seq!['\n']);
            lemma_trim_plain(algo_label(algo));
        },
        MessageModel::Tab(v) => {
            assert(g[0] == "TAB"@);
            lemma_read_written_tab(v, g);
        },
        MessageModel::Resultmessage(time, count) => {
            lemma_number_field(time as nat, u128::MAX as nat);
            lemma_number_field(count as nat, u64::MAX as nat);
            assert(g[0] == "RESULT"@);
            assert(g[1] == decimal(time as nat));
            assert(g[2] == decimal(count as nat) + seq!['\n']);
        },
        MessageModel::Stats(v) => {
            assert(g[0] == "STAT"@);
            lemma_read_written_stats(v, g);
        },
    }
}

/// Every algorithm is read back from its own name: the `CONNECT` and `STAT`
/// fields, and a worker's argument, naming `a` mean `a`.
pub proof fn lemma_algo_names_read_back(a: AlgoType)
    ensures
        connect_algo(algo_label(a)) == a,
        stat_algo(algo_label(a)) == a,
{
    lemma_label(a);
}

} // verus!
