use vstd::prelude::*;

verus! {

broadcast use vstd::string::group_string_axioms;

/// The characters of `s`, in a vector.
pub fn chars_of(s: &str) -> (r: Vec<char>)
    ensures
        r@ == s@,
{
    let mut r: Vec<char> = Vec::new();
    for c in it: s.chars()
        invariant
            it.seq() == s@,
            r@ == it.seq().take(it.index()),
    {
        r.push(c);
        assert(r@ =~= it.seq().take(it.index() + 1));
    }
    assert(r@ =~= s@);
    r
}

/// The pieces of `s` between occurrences of `sep`, as `str::split` yields them:
/// always at least one piece, empty pieces included.
pub open spec fn split(s: Seq<char>, sep: char) -> Seq<Seq<char>>
    decreases s.len(),
{
    if s.len() == 0 {
        seq![Seq::<char>::empty()]
    } else {
        let r = split(s.drop_last(), sep);
        if s.last() == sep {
            r.push(Seq::<char>::empty())
        } else {
            r.update(r.len() - 1, r.last().push(s.last()))
        }
    }
}

/// The pieces `fs` with `sep` between consecutive ones.
pub open spec fn join(fs: Seq<Seq<char>>, sep: char) -> Seq<char>
    decreases fs.len(),
{
    if fs.len() == 0 {
        Seq::<char>::empty()
    } else if fs.len() == 1 {
        fs[0]
    } else {
        join(fs.drop_last(), sep) + seq![sep] + fs.last()
    }
}

/// No piece of `fs` holds `sep`.
pub open spec fn pieces_free_of(fs: Seq<Seq<char>>, sep: char) -> bool {
    forall|k: int| 0 <= k < fs.len() ==> !(#[trigger] fs[k]).contains(sep)
}

pub proof fn lemma_split_nonempty(s: Seq<char>, sep: char)
    ensures
        split(s, sep).len() >= 1,
    decreases s.len(),
{
    if s.len() > 0 {
        lemma_split_nonempty(s.drop_last(), sep);
    }
}

/// Text free of the separator is one piece.
pub proof fn lemma_split_plain(s: Seq<char>, sep: char)
    requires
        !s.contains(sep),
    ensures
        split(s, sep) == seq![s],
    decreases s.len(),
{
    if s.len() > 0 {
        assert(!s.drop_last().contains(sep)) by {
            if s.drop_last().contains(sep) {
                let k = choose|k: int| 0 <= k < s.drop_last().len() && s.drop_last()[k] == sep;
                assert(s[k] == sep);
            }
        }
        lemma_split_plain(s.drop_last(), sep);
        assert(s[s.len() - 1] != sep);
        assert(s.drop_last().push(s.last()) =~= s);
        assert(split(s, sep) =~= seq![s]);
    } else {
        assert(s =~= Seq::<char>::empty());
    }
}

/// Appending text free of the separator extends the last piece.
pub proof fn lemma_split_extend(s: Seq<char>, t: Seq<char>, sep: char)
    requires
        !t.contains(sep),
    ensures
        split(s + t, sep) == split(s, sep).update(
            split(s, sep).len() - 1,
            split(s, sep).last() + t,
        ),
    decreases t.len(),
{
    lemma_split_nonempty(s, sep);
    if t.len() == 0 {
        assert(s + t =~= s);
        assert(split(s, sep).last() + t =~= split(s, sep).last());
        assert(split(s, sep).update(split(s, sep).len() - 1, split(s, sep).last())
            =~= split(s, sep));
    } else {
        let t0 = t.drop_last();
        assert(!t0.contains(sep)) by {
            if t0.contains(sep) {
                let k = choose|k: int| 0 <= k < t0.len() && t0[k] == sep;
                assert(t[k] == sep);
            }
        }
        assert(t[t.len() - 1] != sep);
        lemma_split_extend(s, t0, sep);
        assert((s + t).drop_last() =~= s + t0);
        assert((s + t).last() == t.last());
        let a = split(s, sep);
        let b = split(s + t0, sep);
        assert(b.len() == a.len());
        assert(b.last() == a.last() + t0);
        assert(b.last().push(t.last()) =~= a.last() + t);
        assert(split(s + t, sep) == b.update(b.len() - 1, b.last().push(t.last())));
        assert(split(s + t, sep) =~= split(s, sep).update(
            split(s, sep).len() - 1,
            split(s, sep).last() + t,
        ));
    }
}

/// Splitting around a separator splits each side.
pub proof fn lemma_split_concat(x: Seq<char>, y: Seq<char>, sep: char)
    ensures
        split(x + seq![sep] + y, sep) == split(x, sep) + split(y, sep),
    decreases y.len(),
{
    lemma_split_nonempty(x, sep);
    lemma_split_nonempty(y, sep);
    if y.len() == 0 {
        assert(x + seq![sep] + y =~= x + seq![sep]);
        assert((x + seq![sep]).drop_last() =~= x);
        assert(split(x, sep) + split(y, sep) =~= split(x, sep).push(Seq::<char>::empty()));
    } else {
        let y0 = y.drop_last();
        lemma_split_concat(x, y0, sep);
        lemma_split_nonempty(y0, sep);
        assert((x + seq![sep] + y).drop_last() =~= x + seq![sep] + y0);
        assert((x + seq![sep] + y).last() == y.last());
        if y.last() == sep {
            assert(split(x, sep) + split(y, sep) =~= (split(x, sep) + split(y0, sep)).push(
                Seq::<char>::empty(),
            ));
        } else {
            let a = split(x, sep);
            let b = split(y0, sep);
            assert((a + b).last() == b.last());
            assert(a + b.update(b.len() - 1, b.last().push(y.last())) =~= (a + b).update(
                (a + b).len() - 1,
                (a + b).last().push(y.last()),
            ));
        }
    }
}

/// Splitting text that was joined from separator-free pieces gives the pieces back.
pub proof fn lemma_split_join(fs: Seq<Seq<char>>, sep: char)
    requires
        fs.len() >= 1,
        pieces_free_of(fs, sep),
    ensures
        split(join(fs, sep), sep) == fs,
    decreases fs.len(),
{
    if fs.len() == 1 {
        assert(!fs[0].contains(sep));
        lemma_split_plain(fs[0], sep);
        assert(fs =~= seq![fs[0]]);
    } else {
        let f0 = fs.drop_last();
        assert(pieces_free_of(f0, sep)) by {
            assert forall|k: int| 0 <= k < f0.len() implies !(#[trigger] f0[k]).contains(sep) by {
                assert(f0[k] == fs[k]);
            }
        }
        lemma_split_join(f0, sep);
        assert(!fs.last().contains(sep)) by {
            assert(fs[fs.len() - 1] == fs.last());
        }
        lemma_split_plain(fs.last(), sep);
        lemma_split_concat(join(f0, sep), fs.last(), sep);
        assert(f0 + seq![fs.last()] =~= fs);
    }
}

/// Joining pieces and appending text gives the same as appending it to the last piece.
pub proof fn lemma_join_extend(fs: Seq<Seq<char>>, t: Seq<char>, sep: char)
    requires
        fs.len() >= 1,
    ensures
        join(fs, sep) + t == join(fs.update(fs.len() - 1, fs.last() + t), sep),
{
    let g = fs.update(fs.len() - 1, fs.last() + t);
    if fs.len() == 1 {
        assert(g[0] == fs[0] + t);
    } else {
        assert(g.drop_last() =~= fs.drop_last());
        assert(join(fs, sep) + t =~= join(fs.drop_last(), sep) + seq![sep] + (fs.last() + t));
    }
}

/// Joining one more piece appends the separator and the piece.
pub proof fn lemma_join_push(fs: Seq<Seq<char>>, f: Seq<char>, sep: char)
    requires
        fs.len() >= 1,
    ensures
        join(fs.push(f), sep) == join(fs, sep) + seq![sep] + f,
{
    assert(fs.push(f).drop_last() =~= fs);
}

/// The bounds `b` cut out of `s`.
pub open spec fn pieces_at(s: Seq<char>, b: Seq<(usize, usize)>) -> Seq<Seq<char>> {
    Seq::new(b.len(), |k: int| s.subrange(b[k].0 as int, b[k].1 as int))
}

/// Bounds that lie within `s`, in order.
pub open spec fn bounds_within(b: Seq<(usize, usize)>, n: nat) -> bool {
    forall|k: int| 0 <= k < b.len() ==> (#[trigger] b[k]).0 <= b[k].1 <= n
}

/// The bounds of the pieces of `s` between occurrences of `sep`.
pub fn split_bounds(s: &Vec<char>, sep: char) -> (r: Vec<(usize, usize)>)
    ensures
        bounds_within(r@, s@.len()),
        pieces_at(s@, r@) == split(s@, sep),
        r@.len() >= 1,
{
    let mut r: Vec<(usize, usize)> = Vec::new();
    let mut start: usize = 0;
    let n = s.len();
    let mut i: usize = 0;
    assert(s@.take(0) =~= Seq::<char>::empty());
    while i < n
        invariant
            n == s.len(),
            start <= i <= n,
            bounds_within(r@, n as nat),
            pieces_at(s@, r@).push(s@.subrange(start as int, i as int)) == split(s@.take(i as int), sep),
        decreases n - i,
    {
        let ghost before = pieces_at(s@, r@);
        assert(s@.take(i + 1).drop_last() =~= s@.take(i as int));
        assert(s@.take(i + 1).last() == s@[i as int]);
        if s[i] == sep {
            r.push((start, i));
            start = i + 1;
            assert(pieces_at(s@, r@) =~= before.push(s@.subrange(r@.last().0 as int, i as int)));
            assert(s@.subrange(start as int, i + 1) =~= Seq::<char>::empty());
        } else {
            assert(s@.subrange(start as int, i + 1) =~= s@.subrange(start as int, i as int).push(s@[i as int]));
        }
        i += 1;
        assert(pieces_at(s@, r@).push(s@.subrange(start as int, i as int)) =~= split(s@.take(i as int), sep));
    }
    let ghost before = pieces_at(s@, r@);
    r.push((start, n));
    assert(pieces_at(s@, r@) =~= before.push(s@.subrange(start as int, n as int)));
    assert(s@.take(n as int) =~= s@);
    r
}

/// Unicode white space, as `char::is_whitespace` decides it.
pub open spec fn is_whitespace(c: char) -> bool {
    ||| '\t' <= c <= '\r'
    ||| c == ' '
    ||| c == '\u{85}'
    ||| c == '\u{a0}'
    ||| c == '\u{1680}'
    ||| '\u{2000}' <= c <= '\u{200a}'
    ||| c == '\u{2028}'
    ||| c == '\u{2029}'
    ||| c == '\u{202f}'
    ||| c == '\u{205f}'
    ||| c == '\u{3000}'
}

/// `s` without its leading white space.
pub open spec fn trim_start(s: Seq<char>) -> Seq<char>
    decreases s.len(),
{
    if s.len() > 0 && is_whitespace(s[0]) {
        trim_start(s.drop_first())
    } else {
        s
    }
}

/// `s` without its trailing white space.
pub open spec fn trim_end(s: Seq<char>) -> Seq<char>
    decreases s.len(),
{
    if s.len() > 0 && is_whitespace(s.last()) {
        trim_end(s.drop_last())
    } else {
        s
    }
}

/// `s` without leading and trailing white space, as `str::trim` gives it.
pub open spec fn trim(s: Seq<char>) -> Seq<char> {
    trim_end(trim_start(s))
}

fn char_is_whitespace(c: char) -> (r: bool)
    ensures
        r == is_whitespace(c),
{
    ('\t' <= c && c <= '\r') || c == ' ' || c == '\u{85}' || c == '\u{a0}' || c == '\u{1680}'
        || ('\u{2000}' <= c && c <= '\u{200a}') || c == '\u{2028}' || c == '\u{2029}'
        || c == '\u{202f}' || c == '\u{205f}' || c == '\u{3000}'
}

/// The bounds of `s[lo..hi]` with its leading and trailing white space cut off.
pub fn trim_bounds(s: &Vec<char>, lo: usize, hi: usize) -> (r: (usize, usize))
    requires
        lo <= hi <= s.len(),
    ensures
        lo <= r.0 <= r.1 <= hi,
        s@.subrange(r.0 as int, r.1 as int) == trim(s@.subrange(lo as int, hi as int)),
{
    let mut a = lo;
    while a < hi && char_is_whitespace(s[a])
        invariant
            lo <= a <= hi <= s.len(),
            trim_start(s@.subrange(lo as int, hi as int)) == trim_start(s@.subrange(a as int, hi as int)),
        decreases hi - a,
    {
        assert(s@.subrange(a as int, hi as int).drop_first() =~= s@.subrange(a + 1, hi as int));
        assert(s@.subrange(a as int, hi as int)[0] == s@[a as int]);
        a += 1;
    }
    let mut b = hi;
    while b > a && char_is_whitespace(s[b - 1])
        invariant
            lo <= a <= b <= hi <= s.len(),
            trim_start(s@.subrange(lo as int, hi as int)) == s@.subrange(a as int, hi as int),
            trim_end(s@.subrange(a as int, hi as int)) == trim_end(s@.subrange(a as int, b as int)),
        decreases b - a,
    {
        assert(s@.subrange(a as int, b as int).drop_last() =~= s@.subrange(a as int, b - 1));
        assert(s@.subrange(a as int, b as int).last() == s@[b - 1]);
        b -= 1;
    }
    (a, b)
}

/// The decimal digits `0` to `9`.
pub open spec fn is_digit(c: char) -> bool {
    '0' <= c <= '9'
}

/// The value of a decimal digit.
pub open spec fn digit_value(c: char) -> nat {
    (c as int - '0' as int) as nat
}

/// The character of a digit value below ten.
pub open spec fn digit_char(d: nat) -> char {
    if d == 0 {
        '0'
    } else if d == 1 {
        '1'
    } else if d == 2 {
        '2'
    } else if d == 3 {
        '3'
    } else if d == 4 {
        '4'
    } else if d == 5 {
        '5'
    } else if d == 6 {
        '6'
    } else if d == 7 {
        '7'
    } else if d == 8 {
        '8'
    } else {
        '9'
    }
}

pub open spec fn all_digits(s: Seq<char>) -> bool {
    forall|k: int| 0 <= k < s.len() ==> is_digit(#[trigger] s[k])
}

/// The number that a string of decimal digits writes.
pub open spec fn decimal_value(s: Seq<char>) -> nat
    decreases s.len(),
{
    if s.len() == 0 {
        0
    } else {
        decimal_value(s.drop_last()) * 10 + digit_value(s.last())
    }
}

/// The decimal representation of `n`, without leading zeros.
pub open spec fn decimal(n: nat) -> Seq<char>
    decreases n,
{
    if n < 10 {
        seq![digit_char(n)]
    } else {
        decimal(n / 10).push(digit_char(n % 10))
    }
}

/// The digits of an unsigned number as `u64::from_str` reads it: an optional
/// leading `+` is skipped.
pub open spec fn unsigned_digits(s: Seq<char>) -> Seq<char> {
    if s.len() > 0 && s[0] == '+' {
        s.drop_first()
    } else {
        s
    }
}

/// `s` reads as an unsigned number of at most `max`: one or more digits,
/// after an optional `+`.
pub open spec fn unsigned_within(s: Seq<char>, max: nat) -> bool {
    let d = unsigned_digits(s);
    &&& d.len() > 0
    &&& all_digits(d)
    &&& decimal_value(d) <= max
}

/// The number that `s` reads as.
pub open spec fn unsigned_value(s: Seq<char>) -> nat {
    decimal_value(unsigned_digits(s))
}

proof fn lemma_digit_char(d: nat)
    requires
        d < 10,
    ensures
        is_digit(digit_char(d)),
        digit_value(digit_char(d)) == d,
{
}

/// Decimal representations read back as their number.
pub proof fn lemma_decimal_roundtrip(n: nat)
    ensures
        decimal(n).len() >= 1,
        all_digits(decimal(n)),
        decimal_value(decimal(n)) == n,
        !is_whitespace(decimal(n)[0]),
        !is_whitespace(decimal(n).last()),
        decimal(n)[0] != '+',
        !decimal(n).contains('|'),
    decreases n,
{
    lemma_digit_char(n % 10);
    if n >= 10 {
        lemma_decimal_roundtrip(n / 10);
        let d = decimal(n);
        assert(d.last() == digit_char(n % 10));
        assert(d.drop_last() =~= decimal(n / 10));
        assert(decimal_value(d) == decimal_value(decimal(n / 10)) * 10 + n % 10);
        assert(d[0] == decimal(n / 10)[0]);
        assert(all_digits(d)) by {
            assert forall|k: int| 0 <= k < d.len() implies is_digit(#[trigger] d[k]) by {
                if k < d.len() - 1 {
                    assert(d[k] == decimal(n / 10)[k]);
                }
            }
        }
        assert(!d.contains('|')) by {
            if d.contains('|') {
                let k = choose|k: int| 0 <= k < d.len() && d[k] == '|';
                assert(is_digit(d[k]));
            }
        }
    } else {
        let d = decimal(n);
        assert(d.drop_last() =~= Seq::<char>::empty());
        assert(decimal_value(Seq::<char>::empty()) == 0);
        assert(d.last() == digit_char(n));
        assert(decimal_value(d) == n);
        assert(!d.contains('|')) by {
            if d.contains('|') {
                let k = choose|k: int| 0 <= k < d.len() && d[k] == '|';
                assert(k == 0);
            }
        }
    }
}

/// A prefix of a digit string never writes a larger number.
proof fn lemma_decimal_prefix(s: Seq<char>, k: int)
    requires
        0 <= k <= s.len(),
    ensures
        decimal_value(s.take(k)) <= decimal_value(s),
    decreases s.len(),
{
    if k < s.len() {
        lemma_decimal_prefix(s.drop_last(), k);
        assert(s.drop_last().take(k) =~= s.take(k));
    } else {
        assert(s.take(k) =~= s);
    }
}

fn digit_of(c: char) -> (r: Option<u8>)
    ensures
        r == (if is_digit(c) { Some(digit_value(c) as u8) } else { None::<u8> }),
{
    match c {
        '0' => Some(0),
        '1' => Some(1),
        '2' => Some(2),
        '3' => Some(3),
        '4' => Some(4),
        '5' => Some(5),
        '6' => Some(6),
        '7' => Some(7),
        '8' => Some(8),
        '9' => Some(9),
        _ => None,
    }
}

/// Reads `s[lo..hi]` as `u128::from_str` does: `None` where it is not one or
/// more decimal digits after an optional `+`, or writes a number above `u128::MAX`.
pub fn parse_unsigned(s: &Vec<char>, lo: usize, hi: usize) -> (r: Option<u128>)
    requires
        lo <= hi <= s.len(),
    ensures
        r == (if unsigned_within(s@.subrange(lo as int, hi as int), u128::MAX as nat) {
            Some(unsigned_value(s@.subrange(lo as int, hi as int)) as u128)
        } else {
            None::<u128>
        }),
{
    let ghost sub = s@.subrange(lo as int, hi as int);
    let mut start = lo;
    if lo < hi && s[lo] == '+' {
        start = lo + 1;
    }
    let ghost d = s@.subrange(start as int, hi as int);
    assert(d =~= unsigned_digits(sub));
    if start == hi {
        return None;
    }
    let mut value: u128 = 0;
    let mut k = start;
    assert(d.take(0) =~= Seq::<char>::empty());
    while k < hi
        invariant
            lo <= start <= k <= hi <= s.len(),
            d == s@.subrange(start as int, hi as int),
            d == unsigned_digits(s@.subrange(lo as int, hi as int)),
            all_digits(d.take(k - start)),
            value == decimal_value(d.take(k - start)),
        decreases hi - k,
    {
        let ghost i = k - start;
        assert(d.take(i + 1).drop_last() =~= d.take(i));
        assert(d.take(i + 1).last() == s@[k as int]);
        match digit_of(s[k]) {
            None => {
                assert(!all_digits(d)) by {
                    assert(d[i] == s@[k as int]);
                    assert(!is_digit(d[i]));
                }
                return None;
            },
            Some(dv) => {
                assert(decimal_value(d.take(i + 1)) == value * 10 + dv);
                let next = match value.checked_mul(10) {
                    Some(v) => v.checked_add(dv as u128),
                    None => None,
                };
                match next {
                    Some(v) => {
                        value = v;
                    },
                    None => {
                        proof {
                            if all_digits(d) {
                                lemma_decimal_prefix(d, i + 1);
                            }
                        }
                        return None;
                    },
                }
            },
        }
        k += 1;
        assert(all_digits(d.take(k - start))) by {
            assert forall|j: int| 0 <= j < d.take(k - start).len() implies is_digit(
                #[trigger] d.take(k - start)[j],
            ) by {
                if j < i {
                    assert(d.take(k - start)[j] == d.take(i)[j]);
                }
            }
        }
    }
    assert(d.take(hi - start) =~= d);
    Some(value)
}

fn digit_str(d: u128) -> (r: &'static str)
    requires
        d < 10,
    ensures
        r@ == seq![digit_char(d as nat)],
{
    if d == 0 {
        proof { reveal_strlit("0"); }
        "0"
    } else if d == 1 {
        proof { reveal_strlit("1"); }
        "1"
    } else if d == 2 {
        proof { reveal_strlit("2"); }
        "2"
    } else if d == 3 {
        proof { reveal_strlit("3"); }
        "3"
    } else if d == 4 {
        proof { reveal_strlit("4"); }
        "4"
    } else if d == 5 {
        proof { reveal_strlit("5"); }
        "5"
    } else if d == 6 {
        proof { reveal_strlit("6"); }
        "6"
    } else if d == 7 {
        proof { reveal_strlit("7"); }
        "7"
    } else if d == 8 {
        proof { reveal_strlit("8"); }
        "8"
    } else {
        proof { reveal_strlit("9"); }
        "9"
    }
}

/// Appends the decimal representation of `n` to `out`.
pub fn push_decimal(out: &mut String, n: u128)
    ensures
        final(out)@ == old(out)@ + decimal(n as nat),
    decreases n,
{
    if n >= 10 {
        push_decimal(out, n / 10);
    }
    out.append(digit_str(n % 10));
    assert(decimal(n as nat) == (if n < 10 { seq![digit_char(n as nat)] } else { decimal((n / 10) as nat).push(digit_char((n % 10) as nat)) }));
    assert(n < 10 ==> n % 10 == n);
}

/// Text with no white space at either end is its own trim, also with a
/// line end appended.
pub proof fn lemma_trim_plain(x: Seq<char>)
    requires
        x.len() > 0,
        !is_whitespace(x[0]),
        !is_whitespace(x.last()),
    ensures
        trim(x) == x,
        trim(x + seq!['\n']) == x,
{
    let y = x + seq!['\n'];
    assert(y[0] == x[0]);
    assert(trim_start(x) == x);
    assert(trim_start(y) == y);
    assert(y.drop_last() =~= x);
    assert(y.last() == '\n');
    assert(trim_end(y) == trim_end(x));
}

/// Whether `s[lo..hi]` is the text `lit`.
pub fn range_equals(s: &Vec<char>, lo: usize, hi: usize, lit: &str) -> (r: bool)
    requires
        lo <= hi <= s.len(),
    ensures
        r == (s@.subrange(lo as int, hi as int) == lit@),
{
    let n = lit.unicode_len();
    if hi - lo != n {
        assert(s@.subrange(lo as int, hi as int).len() != lit@.len());
        return false;
    }
    let mut k: usize = 0;
    while k < n
        invariant
            n == lit@.len(),
            hi - lo == n,
            lo <= hi <= s.len(),
            k <= n,
            forall|j: int| 0 <= j < k ==> s@[lo + j] == lit@[j],
        decreases n - k,
    {
        if s[lo + k] != lit.get_char(k) {
            assert(s@.subrange(lo as int, hi as int)[k as int] != lit@[k as int]);
            return false;
        }
        k += 1;
    }
    assert(s@.subrange(lo as int, hi as int) =~= lit@);
    true
}

/// The text `text[lo..hi]`, counted in characters, as a new string.
pub fn string_of_range(text: &str, lo: usize, hi: usize) -> (r: String)
    requires
        lo <= hi <= text@.len(),
    ensures
        r@ == text@.subrange(lo as int, hi as int),
{
    String::from_str(text.substring_char(lo, hi))
}

/// `p` occurs in `s`, as `str::contains` decides it.
pub open spec fn has_text(s: Seq<char>, p: Seq<char>) -> bool {
    exists|i: int| 0 <= i <= s.len() - p.len() && #[trigger] s.subrange(i, i + p.len()) == p
}

/// Whether `pat` occurs in `s`.
pub fn contains_text(s: &Vec<char>, pat: &str) -> (r: bool)
    ensures
        r == has_text(s@, pat@),
{
    let m = pat.unicode_len();
    let n = s.len();
    if m > n {
        return false;
    }
    let mut i: usize = 0;
    while i < n - m
        invariant
            m == pat@.len(),
            n == s@.len(),
            m <= n,
            i <= n - m,
            forall|j: int| 0 <= j < i ==> #[trigger] s@.subrange(j, j + m) != pat@,
        decreases n - m - i,
    {
        if range_equals(s, i, i + m, pat) {
            return true;
        }
        i += 1;
    }
    if range_equals(s, n - m, n, pat) {
        assert(s@.subrange((n - m) as int, (n - m) + pat@.len()) == pat@);
        return true;
    }
    assert forall|j: int| 0 <= j <= n - m implies #[trigger] s@.subrange(j, j + m) != pat@ by {}
    false
}

} // verus!
