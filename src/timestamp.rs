//! Timestamp files, named by date and time as `YYMMDD_hhmmss.eif`, with one timestamp in
//! seconds on each line.
use vstd::prelude::*;
use crate::Error;
use crate::grammar::{ascii_bytes, byte_is_digit, digit, is_digit};
use crate::select::{bound_ok, contains_key, names_in_range, selected_names};

verus! {

/// The value of the six decimal digits of `s` that start at `o`, if they are digits.
pub open spec fn six_digits(s: Seq<char>, o: int) -> Option<u64> {
    if is_digit(s[o]) && is_digit(s[o + 1]) && is_digit(s[o + 2]) && is_digit(s[o + 3]) && is_digit(
        s[o + 4],
    ) && is_digit(s[o + 5]) {
        Some(
            (digit(s[o]) * 100000 + digit(s[o + 1]) * 10000 + digit(s[o + 2]) * 1000 + digit(
                s[o + 3],
            ) * 100 + digit(s[o + 4]) * 10 + digit(s[o + 5])) as u64,
        )
    } else {
        None
    }
}

/// The key of a timestamp file name, if it is one: its twelve digits read as one number.
/// On timestamp file names it is one-to-one and orders them as their text does (see
/// `timestamp_key_orders_as_text` and `timestamp_key_is_one_to_one`).
pub open spec fn timestamp_key_of(s: Seq<char>) -> Option<u64> {
    if s.len() == 17 && s[6] == '_' && s[13] == '.' && s[14] == 'e' && s[15] == 'i' && s[16] == 'f' {
        match (six_digits(s, 0), six_digits(s, 7)) {
            (Some(d), Some(t)) => Some((d * 1_000_000 + t) as u64),
            _ => None,
        }
    } else {
        None
    }
}

/// Where two timestamp file names first differ at `i`, the one with the smaller character there
/// has the smaller key: keys order the names as their text does.
pub proof fn timestamp_key_orders_as_text(a: Seq<char>, b: Seq<char>, i: int)
    requires
        timestamp_key_of(a) is Some,
        timestamp_key_of(b) is Some,
        0 <= i < a.len(),
        a.take(i) == b.take(i),
        a[i] < b[i],
    ensures
        timestamp_key_of(a)->0 < timestamp_key_of(b)->0,
{
    assert forall|j: int| 0 <= j < i implies a[j] == b[j] by {
        assert(a.take(i)[j] == a[j]);
        assert(b.take(i)[j] == b[j]);
    }
}

/// The first position below `n` at which `a` and `b` differ, given that they differ there.
proof fn lemma_first_difference(a: Seq<char>, b: Seq<char>, n: int) -> (i: int)
    requires
        0 <= n <= a.len(),
        n <= b.len(),
        a.take(n) != b.take(n),
    ensures
        0 <= i < n,
        a.take(i) == b.take(i),
        a[i] != b[i],
    decreases n,
{
    if n == 0 {
        assert(a.take(0) =~= b.take(0));
    }
    if a.take(n - 1) != b.take(n - 1) {
        let i = lemma_first_difference(a, b, n - 1);
        i
    } else {
        if a[n - 1] == b[n - 1] {
            assert(a.take(n) =~= b.take(n)) by {
                assert forall|j: int| 0 <= j < n implies a.take(n)[j] == b.take(n)[j] by {
                    if j < n - 1 {
                        assert(a.take(n - 1)[j] == b.take(n - 1)[j]);
                    }
                }
            }
        }
        n - 1
    }
}

/// Two timestamp file names with the same key are the same name.
pub proof fn timestamp_key_is_one_to_one(a: Seq<char>, b: Seq<char>)
    requires
        timestamp_key_of(a) is Some,
        timestamp_key_of(a) == timestamp_key_of(b),
    ensures
        a == b,
{
    if a != b {
        assert(a.take(17) =~= a && b.take(17) =~= b);
        let i = lemma_first_difference(a, b, 17);
        if a[i] < b[i] {
            timestamp_key_orders_as_text(a, b, i);
        } else {
            timestamp_key_orders_as_text(b, a, i);
        }
    }
}

/// The keys of a list of file names, `None` where a name is no timestamp file name.
pub open spec fn timestamp_keys(names: Seq<String>) -> Seq<Option<u64>> {
    names.map_values(|n: String| timestamp_key_of(n@))
}

/// A configured bound name as a key; `None` where it is unset.
pub open spec fn key_of_name(b: Option<String>) -> Option<u64> {
    match b {
        Some(n) => timestamp_key_of(n@),
        None => None,
    }
}

/// Whether a configured bound name, if set, is the name of one of the timestamp files.
pub open spec fn name_bound_ok(keys: Seq<Option<u64>>, b: Option<String>) -> bool {
    b matches Some(n) ==> timestamp_key_of(n@) is Some && bound_ok(keys, timestamp_key_of(n@))
}

fn six_digits_at(b: &[u8], o: usize) -> (r: Option<u64>)
    requires
        o + 6 <= b@.len(),
    ensures
        forall|s: Seq<char>|
            s.len() == b@.len() && (forall|i: int| 0 <= i < s.len() ==> s[i] as int == b@[i] as int)
                ==> r == six_digits(s, o as int),
{
    if byte_is_digit(b[o]) && byte_is_digit(b[o + 1]) && byte_is_digit(b[o + 2]) && byte_is_digit(
        b[o + 3],
    ) && byte_is_digit(b[o + 4]) && byte_is_digit(b[o + 5]) {
        Some(
            (b[o] - 48) as u64 * 100000 + (b[o + 1] - 48) as u64 * 10000 + (b[o + 2] - 48) as u64
                * 1000 + (b[o + 3] - 48) as u64 * 100 + (b[o + 4] - 48) as u64 * 10 + (b[o + 5]
                - 48) as u64,
        )
    } else {
        None
    }
}

/// The key of a file name, if it is a timestamp file name.
pub fn timestamp_key(file_name: &str) -> (r: Option<u64>)
    ensures
        r == timestamp_key_of(file_name@),
{
    let s = Ghost(file_name@);
    match ascii_bytes(file_name) {
        None => {
            assert(timestamp_key_of(s@) is None) by {
                if timestamp_key_of(s@) is Some {
                    assert(vstd::utf8::is_ascii_chars(s@));
                }
            }
            None
        },
        Some(b) => {
            if b.len() == 17 && b[6] == 95 && b[13] == 46 && b[14] == 101 && b[15] == 105 && b[16]
                == 102 {
                match (six_digits_at(b, 0), six_digits_at(b, 7)) {
                    (Some(d), Some(t)) => Some(d * 1_000_000 + t),
                    _ => None,
                }
            } else {
                None
            }
        },
    }
}

/// Whether a file name is a timestamp file name.
pub fn file_name_is_match(file_name: &str) -> (r: bool)
    ensures
        r == (timestamp_key_of(file_name@) is Some),
{
    timestamp_key(file_name).is_some()
}

/// The value of a string of decimal digits.
pub open spec fn digits_value(s: Seq<char>) -> int
    decreases s.len(),
{
    if s.len() == 0 {
        0
    } else {
        digits_value(s.drop_last()) * 10 + digit(s.last())
    }
}

/// Every character is a decimal digit.
pub open spec fn all_digits(s: Seq<char>) -> bool {
    forall|i: int| 0 <= i < s.len() ==> is_digit(#[trigger] s[i])
}

proof fn lemma_prefix_value_le(s: Seq<char>, k: int)
    requires
        0 <= k <= s.len(),
        all_digits(s),
    ensures
        0 <= digits_value(s.take(k)) <= digits_value(s),
    decreases s.len(),
{
    if k == s.len() {
        assert(s.take(k) =~= s);
        lemma_value_nonneg(s);
    } else {
        assert(s.drop_last().take(k) =~= s.take(k));
        lemma_prefix_value_le(s.drop_last(), k);
        assert(is_digit(s[s.len() - 1]));
    }
}

proof fn lemma_value_nonneg(s: Seq<char>)
    requires
        all_digits(s),
    ensures
        0 <= digits_value(s),
    decreases s.len(),
{
    if s.len() > 0 {
        lemma_value_nonneg(s.drop_last());
        assert(is_digit(s[s.len() - 1]));
    }
}

/// The characters of `s` are those of `b`.
pub open spec fn same_text(s: Seq<char>, b: Seq<u8>) -> bool {
    s.len() == b.len() && forall|i: int| 0 <= i < s.len() ==> s[i] as int == b[i] as int
}

/// The number of digits in the run of decimal digits of `s` that starts at `i`.
pub open spec fn run(s: Seq<char>, i: int) -> nat
    decreases s.len() - i,
{
    if 0 <= i < s.len() && is_digit(s[i]) {
        1 + run(s, i + 1)
    } else {
        0
    }
}

/// The digits of an unsigned floating-point literal, and how many of them stand before the
/// point once the exponent is applied; `None` where `s` is no such literal.
///
/// The literal is digits, optionally a point and digits, with at least one digit in all,
/// optionally followed by `e` or `E`, an optional sign and at least one digit.
pub open spec fn float_parts(s: Seq<char>) -> Option<(Seq<char>, int)> {
    let a = run(s, 0) as int;
    let dot = a < s.len() && s[a] == '.';
    let b = if dot { run(s, a + 1) as int } else { 0 };
    let end = if dot { a + 1 + b } else { a };
    let d = if dot { s.subrange(0, a) + s.subrange(a + 1, end) } else { s.subrange(0, a) };
    if a + b == 0 {
        None
    } else if end == s.len() {
        Some((d, a))
    } else if s[end] == 'e' || s[end] == 'E' {
        let j = end + 1;
        let neg = j < s.len() && s[j] == '-';
        let j2 = if j < s.len() && (s[j] == '-' || s[j] == '+') { j + 1 } else { j };
        let c = run(s, j2) as int;
        if c > 0 && j2 + c == s.len() {
            let e = digits_value(s.subrange(j2, s.len() as int));
            Some((d, if neg { a - e } else { a + e }))
        } else {
            None
        }
    } else {
        None
    }
}

/// The first `k` digits of `d`, padded with zeros where `d` is shorter.
pub open spec fn padded(d: Seq<char>, k: nat) -> Seq<char> {
    Seq::new(k, |j: int| if j < d.len() { d[j] } else { '0' })
}

/// One where the digit of `d` at `l` is five or more, else zero.
pub open spec fn round_up(d: Seq<char>, l: int) -> int {
    if 0 <= l < d.len() && d[l] >= '5' {
        1
    } else {
        0
    }
}

/// The digits `d`, with the point after the first `p` of them, read as seconds and given in
/// microseconds, rounded to the nearest one (halves away from zero).
pub open spec fn micros_of(d: Seq<char>, p: int) -> int {
    let l = p + 6;
    digits_value(padded(d, if l > 0 { l as nat } else { 0 })) + round_up(d, l)
}

/// The number of microseconds that an unsigned floating-point literal of seconds stands for.
pub open spec fn unsigned_micros(s: Seq<char>) -> Option<int> {
    match float_parts(s) {
        Some((d, p)) => Some(micros_of(d, p)),
        None => None,
    }
}

/// The number of microseconds that a floating-point literal of seconds with an optional sign
/// stands for.
pub open spec fn signed_micros(s: Seq<char>) -> Option<int> {
    if s.len() > 0 && s[0] == '-' {
        match unsigned_micros(s.skip(1)) {
            Some(v) => Some(-v),
            None => None,
        }
    } else if s.len() > 0 && s[0] == '+' {
        unsigned_micros(s.skip(1))
    } else {
        unsigned_micros(s)
    }
}

/// The timestamp that a line of a timestamp file holds, if it holds one that fits an `i64`.
pub open spec fn timestamp_of_line(s: Seq<char>) -> Option<i64> {
    if !vstd::utf8::is_ascii_chars(s) {
        None
    } else {
        match signed_micros(s) {
            Some(v) => if i64::MIN <= v <= i64::MAX {
                Some(v as i64)
            } else {
                None
            },
            None => None,
        }
    }
}

/// Ten to the power `k`.
pub open spec fn ten_to(k: nat) -> int
    decreases k,
{
    if k == 0 {
        1
    } else {
        10 * ten_to((k - 1) as nat)
    }
}

/// Largest magnitude, in microseconds, that a timestamp of either sign can have.
pub const BOUND: u128 = 9_223_372_036_854_775_808;

proof fn lemma_zero_extend(d: Seq<char>, k: nat, l: nat)
    requires
        d.len() <= k <= l,
        digits_value(padded(d, k)) == 0,
    ensures
        digits_value(padded(d, l)) == 0,
    decreases l - k,
{
    if k < l {
        assert(padded(d, k + 1).drop_last() =~= padded(d, k));
        lemma_zero_extend(d, k + 1, l);
    }
}

proof fn lemma_padded_prefix(d: Seq<char>, k: nat, l: nat)
    requires
        k <= l,
        all_digits(d),
    ensures
        0 <= digits_value(padded(d, k)) <= digits_value(padded(d, l)),
{
    assert(padded(d, l).take(k as int) =~= padded(d, k));
    assert(all_digits(padded(d, l)));
    lemma_prefix_value_le(padded(d, l), k as int);
}

/// The index just past the run of digits of `t` that starts at `from`.
fn run_end(t: &Vec<u8>, from: usize, ts: Ghost<Seq<char>>) -> (e: usize)
    requires
        from <= t@.len(),
        same_text(ts@, t@),
    ensures
        from <= e <= t@.len(),
        e - from == run(ts@, from as int),
        forall|k: int| from <= k < e ==> is_digit(#[trigger] ts@[k]),
{
    let mut i: usize = from;
    while i < t.len() && byte_is_digit(t[i])
        invariant
            from <= i <= t@.len(),
            same_text(ts@, t@),
            run(ts@, from as int) == (i - from) + run(ts@, i as int),
            forall|k: int| from <= k < i ==> is_digit(#[trigger] ts@[k]),
        decreases t.len() - i,
    {
        i = i + 1;
    }
    i
}

/// The value of the digits of `t` from `from` on, and whether it exceeds `10^29`; the value
/// is exact where it does not.
fn parse_exponent(t: &Vec<u8>, from: usize, ts: Ghost<Seq<char>>) -> (r: (u128, bool))
    requires
        from <= t@.len(),
        same_text(ts@, t@),
        forall|k: int| from <= k < t@.len() ==> is_digit(#[trigger] ts@[k]),
    ensures
        r.1 ==> digits_value(ts@.subrange(from as int, t@.len() as int)) > 100_000_000_000_000_000_000_000_000_000,
        !r.1 ==> r.0 == digits_value(ts@.subrange(from as int, t@.len() as int)) && r.0
            <= 100_000_000_000_000_000_000_000_000_000,
{
    let ghost s = ts@;
    let n0 = t.len();
    let ghost es = s.subrange(from as int, n0 as int);
    assert(all_digits(es)) by {
        assert forall|k: int| 0 <= k < es.len() implies is_digit(#[trigger] es[k]) by {
            assert(es[k] == s[from + k]);
        }
    }
    let mut e: u128 = 0;
    let mut huge = false;
    let mut q: usize = from;
    while q < n0
        invariant
            from <= q <= n0,
            n0 == t@.len(),
            same_text(s, t@),
            es == s.subrange(from as int, n0 as int),
            all_digits(es),
            !huge ==> e == digits_value(es.take(q - from)),
            !huge ==> e <= 100_000_000_000_000_000_000_000_000_000,
            huge ==> digits_value(es) > 100_000_000_000_000_000_000_000_000_000,
        decreases n0 - q,
    {
        if !huge {
            assert(es.take(q - from + 1).drop_last() =~= es.take(q - from));
            assert(es[q - from] == s[q as int]);
            let next = e * 10 + (t[q] - 48) as u128;
            if next > 100_000_000_000_000_000_000_000_000_000 {
                huge = true;
                proof {
                    lemma_prefix_value_le(es, q - from + 1);
                }
            } else {
                e = next;
            }
        }
        q = q + 1;
    }
    proof {
        if !huge {
            assert(es.take(n0 - from) =~= es);
        }
    }
    (e, huge)
}

/// The microseconds that the unsigned literal `t` stands for; `None` where it is no literal,
/// or where its value exceeds `BOUND`.
#[verifier::rlimit(60)]
fn parse_unsigned(t: &Vec<u8>, ts: Ghost<Seq<char>>) -> (r: Option<u128>)
    requires
        same_text(ts@, t@),
    ensures
        match r {
            Some(v) => unsigned_micros(ts@) == Some(v as int),
            None => match unsigned_micros(ts@) {
                Some(v) => v > BOUND,
                None => true,
            },
        },
{
    let ghost s = ts@;
    let n0 = t.len();
    let a = run_end(t, 0, ts);
    let dot = a < n0 && t[a] == 46;
    let end = if dot { run_end(t, a + 1, ts) } else { a };
    let n = if dot { end - 1 } else { a };
    if n == 0 {
        return None;
    }
    let ghost d = if dot { s.subrange(0, a as int) + s.subrange(a + 1, end as int) } else { s.subrange(0, a as int) };
    assert(d.len() == n);
    assert(all_digits(d)) by {
        assert forall|k: int| 0 <= k < d.len() implies is_digit(#[trigger] d[k]) by {
            if k < a {
                assert(d[k] == s[k]);
            } else {
                assert(d[k] == s[k + 1]);
            }
        }
    }
    // The exponent, its sign, and whether it is beyond any length.
    let mut e: u128 = 0;
    let mut neg = false;
    let mut huge = false;
    let ghost mut ev: int = 0;
    if end < n0 {
        if t[end] != 101 && t[end] != 69 {
            return None;
        }
        let j = end + 1;
        neg = j < n0 && t[j] == 45;
        let j2 = if j < n0 && (t[j] == 45 || t[j] == 43) { j + 1 } else { j };
        let c_end = run_end(t, j2, ts);
        if c_end == j2 || c_end != n0 {
            return None;
        }
        let r = parse_exponent(t, j2, ts);
        e = r.0;
        huge = r.1;
        proof {
            ev = digits_value(s.subrange(j2 as int, n0 as int));
        }
    }
    assert(float_parts(s) == Some((d, if neg { a - ev } else { a + ev })));
    if huge && neg {
        return Some(0);
    }
    let lx: i128 = if huge {
        n as i128 + 25
    } else if neg {
        a as i128 - e as i128 + 6
    } else {
        a as i128 + e as i128 + 6
    };
    let ghost l: int = if neg { a - ev + 6 } else { a + ev + 6 };
    let mut acc: u128 = 0;
    let mut k: i128 = 0;
    while k < lx
        invariant
            0 <= k,
            k <= lx || lx < 0,
            lx < 0 ==> k == 0,
            s == ts@,
            float_parts(s) == Some((d, l - 6)),
            k <= l || l < 0,
            lx <= l,
            huge ==> lx == n + 25,
            !huge ==> lx == l,
            n == d.len(),
            all_digits(d),
            same_text(s, t@),
            n0 == t@.len(),
            d == (if dot { s.subrange(0, a as int) + s.subrange(a + 1, end as int) } else { s.subrange(0, a as int) }),
            a <= n,
            dot ==> end == n + 1 && a < n0 && end <= n0,
            !dot ==> a == n && a <= n0,
            acc == digits_value(padded(d, k as nat)),
            acc <= BOUND * 10 + 9,
            n <= k ==> (acc == 0 || acc >= ten_to((k - n) as nat)),
        decreases lx - k,
    {
        if acc > BOUND {
            proof {
                lemma_padded_prefix(d, k as nat, l as nat);
            }
            return None;
        }
        if k >= n as i128 && acc == 0 {
            proof {
                lemma_zero_extend(d, k as nat, l as nat);
            }
            return Some(0);
        }
        let dg: u128 = if k < n as i128 {
            let idx: usize = if (k as usize) < a { k as usize } else { k as usize + 1 };
            proof {
                if k < a {
                    assert(d[k as int] == s[k as int]);
                } else {
                    assert(d[k as int] == s[k + 1]);
                }
            }
            (t[idx] - 48) as u128
        } else {
            0
        };
        assert(padded(d, (k + 1) as nat).drop_last() =~= padded(d, k as nat));
        acc = acc * 10 + dg;
        k = k + 1;
    }
    if huge {
        if acc == 0 {
            proof {
                lemma_zero_extend(d, k as nat, l as nat);
            }
            return Some(0);
        }
        proof {
            reveal_with_fuel(ten_to, 26);
            lemma_padded_prefix(d, k as nat, l as nat);
        }
        return None;
    }
    let ghost lk: nat = if l > 0 { l as nat } else { 0 };
    assert(k == lk);
    let up: u128 = if 0 <= lx && lx < n as i128 {
        let li = lx as usize;
        let idx: usize = if li < a { li } else { li + 1 };
        proof {
            if li < a {
                assert(d[li as int] == s[li as int]);
            } else {
                assert(d[li as int] == s[li + 1]);
            }
        }
        if t[idx] >= 53 { 1 } else { 0 }
    } else {
        0
    };
    Some(acc + up)
}

/// The timestamp, in microseconds, that a line of a timestamp file holds: a floating-point
/// literal of seconds with an optional sign, rounded to the nearest microsecond.
pub fn parse_timestamp(line: &str) -> (r: Option<i64>)
    ensures
        r == timestamp_of_line(line@),
{
    let ghost s = line@;
    let b = match ascii_bytes(line) {
        Some(b) => b,
        None => return None,
    };
    let neg = b.len() > 0 && b[0] == 45;
    let start: usize = if b.len() > 0 && (b[0] == 45 || b[0] == 43) {
        1
    } else {
        0
    };
    let mut t: Vec<u8> = Vec::new();
    let mut i: usize = start;
    while i < b.len()
        invariant
            start <= i <= b@.len(),
            b@.len() == s.len(),
            forall|q: int| 0 <= q < s.len() ==> s[q] as int == b@[q] as int,
            t@.len() == i - start,
            forall|q: int| 0 <= q < t@.len() ==> t@[q] == b@[q + start],
        decreases b.len() - i,
    {
        t.push(b[i]);
        i = i + 1;
    }
    let ghost u = s.skip(start as int);
    assert(same_text(u, t@));
    assert(s.skip(0) =~= s);
    match parse_unsigned(&t, Ghost(u)) {
        None => None,
        Some(v) => {
            if neg {
                if v <= BOUND {
                    Some((-(v as i128)) as i64)
                } else {
                    None
                }
            } else if v < BOUND {
                Some(v as i64)
            } else {
                None
            }
        },
    }
}

/// What parsing the lines of a timestamp file gives: the timestamps of its non-empty lines in
/// order, or an error that names the first line that holds none.
pub open spec fn parse_lines(lines: Seq<String>) -> Result<Seq<i64>, Error>
    decreases lines.len(),
{
    if lines.len() == 0 {
        Ok(seq![])
    } else {
        match parse_lines(lines.drop_last()) {
            Err(e) => Err(e),
            Ok(v) => {
                let l = lines.last();
                if l@.len() == 0 {
                    Ok(v)
                } else {
                    match timestamp_of_line(l@) {
                        Some(t) => Ok(v.push(t)),
                        None => Err(Error::ParseTimestamp(l)),
                    }
                }
            },
        }
    }
}

/// The timestamps that the lines of a timestamp file hold, one for each non-empty line, in
/// file order.
pub fn parse_timestamps(lines: &Vec<String>) -> (r: Result<Vec<i64>, Error>)
    ensures
        match r {
            Ok(v) => parse_lines(lines@) == Ok::<Seq<i64>, Error>(v@),
            Err(e) => parse_lines(lines@) == Err::<Seq<i64>, Error>(e),
        },
{
    let mut out: Vec<i64> = Vec::new();
    let mut i: usize = 0;
    while i < lines.len()
        invariant
            i <= lines.len(),
            parse_lines(lines@.take(i as int)) == Ok::<Seq<i64>, Error>(out@),
        decreases lines.len() - i,
    {
        assert(lines@.take(i + 1).drop_last() =~= lines@.take(i as int));
        let line = &lines[i];
        if !line.as_str().is_empty() {
            match parse_timestamp(line.as_str()) {
                Some(t) => out.push(t),
                None => {
                    proof {
                        assert(lines@.take(i + 1) =~= lines@.take(i as int).push(lines@[i as int]));
                        assert(parse_lines(lines@.take(i + 1)) is Err);
                        lemma_parse_err_stays(lines@, i + 1);
                    }
                    return Err(Error::ParseTimestamp(line.clone()));
                },
            }
        }
        i = i + 1;
    }
    assert(lines@.take(lines.len() as int) =~= lines@);
    Ok(out)
}

/// Once a prefix of the lines fails, every longer prefix fails with the same error.
proof fn lemma_parse_err_stays(lines: Seq<String>, k: int)
    requires
        0 <= k <= lines.len(),
        parse_lines(lines.take(k)) is Err,
    ensures
        parse_lines(lines) == parse_lines(lines.take(k)),
    decreases lines.len() - k,
{
    if k < lines.len() {
        assert(lines.take(k + 1).drop_last() =~= lines.take(k));
        lemma_parse_err_stays(lines, k + 1);
    } else {
        assert(lines.take(k) =~= lines);
    }
}

/// Configuration for timestamps.
pub type Config = crate::TimestampConfig;

impl Config {
    /// Creates a configuration with an empty path and no bounds.
    pub fn new() -> (r: Config)
        ensures
            r.path@ == Seq::<char>::empty(),
            r.start is None,
            r.end is None,
    {
        Config { path: String::new(), start: None, end: None }
    }

    /// What selecting among the file names `names` gives.
    pub open spec fn paths_result(&self, names: Seq<String>, r: Result<Vec<String>, Error>) -> bool {
        let keys = timestamp_keys(names);
        match r {
            Ok(out) => name_bound_ok(keys, self.start) && name_bound_ok(keys, self.end)
                && selected_names(
                names,
                keys,
                key_of_name(self.start),
                key_of_name(self.end),
                out@,
            ),
            Err(e) => if !name_bound_ok(keys, self.start) {
                e == Error::InvalidTimestampFileName(self.start->0)
            } else {
                !name_bound_ok(keys, self.end) && e == Error::InvalidTimestampFileName(
                    self.end->0,
                )
            },
        }
    }

    /// Selects, from the names of the files in the timestamp directory, the timestamp file names
    /// that lie within `start..=end`, in order of their names.
    ///
    /// A bound that is not the name of one of the timestamp files is an error, whatever the
    /// other bound.
    pub fn paths(&self, file_names: &Vec<String>) -> (r: Result<Vec<String>, Error>)
        ensures
            self.paths_result(file_names@, r),
    {
        let mut keys: Vec<Option<u64>> = Vec::new();
        let mut i: usize = 0;
        while i < file_names.len()
            invariant
                i <= file_names.len(),
                keys@ == timestamp_keys(file_names@).take(i as int),
            decreases file_names.len() - i,
        {
            let k = timestamp_key(file_names[i].as_str());
            keys.push(k);
            assert(keys@ =~= timestamp_keys(file_names@).take(i + 1));
            i = i + 1;
        }
        assert(keys@ =~= timestamp_keys(file_names@));
        let first = match &self.start {
            Some(n) => timestamp_key(n.as_str()),
            None => None,
        };
        let last = match &self.end {
            Some(n) => timestamp_key(n.as_str()),
            None => None,
        };
        if let Some(n) = &self.start {
            let ok = match first {
                Some(k) => contains_key(&keys, k),
                None => false,
            };
            if !ok {
                return Err(Error::InvalidTimestampFileName(n.clone()));
            }
        }
        if let Some(n) = &self.end {
            let ok = match last {
                Some(k) => contains_key(&keys, k),
                None => false,
            };
            if !ok {
                return Err(Error::InvalidTimestampFileName(n.clone()));
            }
        }
        Ok(names_in_range(file_names, &keys, first, last))
    }
}

} // verus!
