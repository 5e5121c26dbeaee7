//! Decimal text for the integers that appear in journal lines and reports:
//! spec-level digit sequences, executable rendering and parsing, and the
//! round-trip lemmas that connect them.

use vstd::prelude::*;

verus! {

/// The value of a decimal digit character, or `-1` for any other character.
pub open spec fn digit_val(c: char) -> int {
    if c == '0' {
        0
    } else if c == '1' {
        1
    } else if c == '2' {
        2
    } else if c == '3' {
        3
    } else if c == '4' {
        4
    } else if c == '5' {
        5
    } else if c == '6' {
        6
    } else if c == '7' {
        7
    } else if c == '8' {
        8
    } else if c == '9' {
        9
    } else {
        -1
    }
}

pub open spec fn is_digit_char(c: char) -> bool {
    digit_val(c) >= 0
}

/// The decimal digit character for a value in `0..=9`.
pub open spec fn digit_char(d: int) -> char {
    if d == 0 {
        '0'
    } else if d == 1 {
        '1'
    } else if d == 2 {
        '2'
    } else if d == 3 {
        '3'
    } else if d == 4 {
        '4'
    } else if d == 5 {
        '5'
    } else if d == 6 {
        '6'
    } else if d == 7 {
        '7'
    } else if d == 8 {
        '8'
    } else {
        '9'
    }
}

/// The decimal rendering of a natural number, most significant digit first,
/// without leading zeros (`0` renders as `"0"`).
pub open spec fn dec_digits(n: nat) -> Seq<char>
    decreases n,
{
    if n < 10 {
        seq![digit_char(n as int)]
    } else {
        dec_digits(n / 10).push(digit_char((n % 10) as int))
    }
}

/// The decimal rendering of a signed number: a minus sign before the
/// magnitude when negative.
pub open spec fn dec_i64(v: int) -> Seq<char> {
    if v < 0 {
        seq!['-'] + dec_digits((-v) as nat)
    } else {
        dec_digits(v as nat)
    }
}

/// The number a sequence of digit characters denotes.
pub open spec fn digits_val(s: Seq<char>) -> int
    decreases s.len(),
{
    if s.len() == 0 {
        0
    } else {
        digits_val(s.drop_last()) * 10 + digit_val(s.last())
    }
}

pub open spec fn all_digits(s: Seq<char>) -> bool {
    forall|i: int| 0 <= i < s.len() ==> is_digit_char(#[trigger] s[i])
}

pub open spec fn pow10(k: nat) -> nat
    decreases k,
{
    if k == 0 {
        1
    } else {
        10 * pow10((k - 1) as nat)
    }
}

/// A run of at most 19 digit characters denotes that number; anything else is
/// not a digit run.
pub open spec fn spec_parse_digits(s: Seq<char>) -> Option<int> {
    if 1 <= s.len() <= 19 && all_digits(s) {
        Some(digits_val(s))
    } else {
        None
    }
}

/// A signed decimal field: an optional minus sign, then a digit run, with the
/// value required to fit in an `i64`.
pub open spec fn spec_parse_i64(s: Seq<char>) -> Option<int> {
    if s.len() >= 1 && s[0] == '-' {
        match spec_parse_digits(s.skip(1)) {
            Some(v) => if v <= 0x8000_0000_0000_0000 {
                Some(-v)
            } else {
                None
            },
            None => None,
        }
    } else {
        match spec_parse_digits(s) {
            Some(v) => if v <= 0x7fff_ffff_ffff_ffff {
                Some(v)
            } else {
                None
            },
            None => None,
        }
    }
}

pub proof fn lemma_pow10_monotone(j: nat, k: nat)
    requires
        j <= k,
    ensures
        pow10(j) <= pow10(k),
    decreases k,
{
    if j < k {
        lemma_pow10_monotone(j, (k - 1) as nat);
    }
}

/// Every digit run denotes a value bounded by `pow10` of its length.
pub proof fn lemma_digits_val_bound(s: Seq<char>)
    requires
        all_digits(s),
    ensures
        0 <= digits_val(s) < pow10(s.len()),
    decreases s.len(),
{
    if s.len() > 0 {
        assert(all_digits(s.drop_last())) by {
            assert(forall|i: int|
                0 <= i < s.len() - 1 ==> s.drop_last()[i] == #[trigger] s[i]);
        }
        lemma_digits_val_bound(s.drop_last());
        assert(digit_val(s.last()) <= 9);
    }
}

/// The decimal rendering of `n` is made of digits, is non-empty, and denotes
/// `n` again.
pub proof fn lemma_dec_digits_val(n: nat)
    ensures
        all_digits(dec_digits(n)),
        dec_digits(n).len() >= 1,
        digits_val(dec_digits(n)) == n,
        dec_digits(n)[0] != '-',
    decreases n,
{
    if n < 10 {
        let w = dec_digits(n);
        assert(w =~= seq![digit_char(n as int)]);
        assert(w.drop_last() =~= Seq::<char>::empty());
        assert(digits_val(w) == digits_val(w.drop_last()) * 10 + digit_val(w.last()));
        assert(digit_val(digit_char(n as int)) == n);
    } else {
        lemma_dec_digits_val(n / 10);
        let p = dec_digits(n / 10);
        let w = p.push(digit_char((n % 10) as int));
        assert(w.drop_last() =~= p);
        assert(w.last() == digit_char((n % 10) as int));
        assert(digits_val(w) == digits_val(p) * 10 + digit_val(digit_char((n % 10) as int)));
        assert(forall|i: int| 0 <= i < w.len() ==> is_digit_char(#[trigger] w[i]));
    }
}

/// A number below `pow10(k)` renders in at most `k` digits.
pub proof fn lemma_dec_digits_len(n: nat, k: nat)
    requires
        k >= 1,
        n < pow10(k),
    ensures
        dec_digits(n).len() <= k,
    decreases n,
{
    if n >= 10 {
        assert(pow10(k) == 10 * pow10((k - 1) as nat));
        lemma_dec_digits_len(n / 10, (k - 1) as nat);
    }
}

/// Round trip for signed fields: rendering an `i64` value and parsing it back
/// yields the same value.
pub proof fn lemma_i64_roundtrip(v: int)
    requires
        -0x8000_0000_0000_0000 <= v <= 0x7fff_ffff_ffff_ffff,
    ensures
        spec_parse_i64(dec_i64(v)) == Some(v),
{
    assert(pow10(19) == 10_000_000_000_000_000_000) by {
        reveal_with_fuel(pow10, 20);
    }
    if v < 0 {
        let m = (-v) as nat;
        lemma_dec_digits_val(m);
        lemma_dec_digits_len(m, 19);
        let s = seq!['-'] + dec_digits(m);
        assert(s[0] == '-');
        assert(s.skip(1) =~= dec_digits(m));
    } else {
        let m = v as nat;
        lemma_dec_digits_val(m);
        lemma_dec_digits_len(m, 19);
        let s = dec_digits(m);
        assert(s[0] != '-');
    }
}

/// A two-digit zero-padded rendering of a value in `0..=99`.
pub open spec fn pad2(n: int) -> Seq<char> {
    seq![digit_char(n / 10), digit_char(n % 10)]
}

/// A four-digit zero-padded rendering of a value in `0..=9999`.
pub open spec fn pad4(n: int) -> Seq<char> {
    seq![
        digit_char(n / 1000),
        digit_char((n / 100) % 10),
        digit_char((n / 10) % 10),
        digit_char(n % 10),
    ]
}

/// The value of the two characters at `at`, when both are digits.
pub open spec fn spec_read2(s: Seq<char>, at: int) -> Option<int>
    recommends
        0 <= at && at + 2 <= s.len(),
{
    if is_digit_char(s[at]) && is_digit_char(s[at + 1]) {
        Some(digit_val(s[at]) * 10 + digit_val(s[at + 1]))
    } else {
        None
    }
}

/// The value of the four characters at `at`, when all are digits.
pub open spec fn spec_read4(s: Seq<char>, at: int) -> Option<int>
    recommends
        0 <= at && at + 4 <= s.len(),
{
    if is_digit_char(s[at]) && is_digit_char(s[at + 1]) && is_digit_char(s[at + 2])
        && is_digit_char(s[at + 3]) {
        Some(
            digit_val(s[at]) * 1000 + digit_val(s[at + 1]) * 100 + digit_val(s[at + 2]) * 10
                + digit_val(s[at + 3]),
        )
    } else {
        None
    }
}

/// A two-digit padded rendering is digits and denotes its value again.
pub proof fn lemma_pad2_val(n: int)
    requires
        0 <= n < 100,
    ensures
        is_digit_char(pad2(n)[0]),
        is_digit_char(pad2(n)[1]),
        digit_val(pad2(n)[0]) * 10 + digit_val(pad2(n)[1]) == n,
{
    vstd::arithmetic::div_mod::lemma_fundamental_div_mod(n, 10);
}

/// A four-digit padded rendering is digits and denotes its value again.
pub proof fn lemma_pad4_val(n: int)
    requires
        0 <= n < 10000,
    ensures
        is_digit_char(pad4(n)[0]),
        is_digit_char(pad4(n)[1]),
        is_digit_char(pad4(n)[2]),
        is_digit_char(pad4(n)[3]),
        digit_val(pad4(n)[0]) * 1000 + digit_val(pad4(n)[1]) * 100 + digit_val(pad4(n)[2]) * 10
            + digit_val(pad4(n)[3]) == n,
{
    let d3 = n / 1000;
    let d2 = (n / 100) % 10;
    let d1 = (n / 10) % 10;
    let d0 = n % 10;
    assert(n == 10 * (n / 10) + d0) by {
        vstd::arithmetic::div_mod::lemma_fundamental_div_mod(n, 10);
    }
    assert(n / 10 == 10 * (n / 100) + d1) by {
        vstd::arithmetic::div_mod::lemma_fundamental_div_mod(n / 10, 10);
        vstd::arithmetic::div_mod::lemma_div_denominator(n, 10, 10);
    }
    assert(n / 100 == 10 * d3 + d2) by {
        vstd::arithmetic::div_mod::lemma_fundamental_div_mod(n / 100, 10);
        vstd::arithmetic::div_mod::lemma_div_denominator(n, 100, 10);
    }
    assert(0 <= d3 <= 9 && 0 <= d2 <= 9 && 0 <= d1 <= 9 && 0 <= d0 <= 9);
    assert(d3 * 1000 + d2 * 100 + d1 * 10 + d0 == n);
    assert(digit_val(digit_char(d3)) == d3);
    assert(digit_val(digit_char(d2)) == d2);
    assert(digit_val(digit_char(d1)) == d1);
    assert(digit_val(digit_char(d0)) == d0);
}

/// The position of the first occurrence of `c` in `s`, or `-1` if absent.
pub open spec fn first_index_of(s: Seq<char>, c: char) -> int
    decreases s.len(),
{
    if s.len() == 0 {
        -1
    } else if s[0] == c {
        0
    } else {
        let r = first_index_of(s.skip(1), c);
        if r == -1 {
            -1
        } else {
            r + 1
        }
    }
}

/// `first_index_of` finds the first occurrence: the result is in range and
/// points at `c`, nothing before it is `c`, and `-1` means `c` is absent.
pub proof fn lemma_first_index_props(s: Seq<char>, c: char)
    ensures
        first_index_of(s, c) == -1 ==> forall|j: int| 0 <= j < s.len() ==> s[j] != c,
        first_index_of(s, c) != -1 ==> {
            let r = first_index_of(s, c);
            &&& 0 <= r < s.len()
            &&& s[r] == c
            &&& forall|j: int| 0 <= j < r ==> s[j] != c
        },
    decreases s.len(),
{
    if s.len() > 0 && s[0] != c {
        let t = s.skip(1);
        lemma_first_index_props(t, c);
        assert(forall|j: int| 0 <= j < t.len() ==> #[trigger] t[j] == s[j + 1]);
        let rt = first_index_of(t, c);
        if rt == -1 {
            assert forall|j: int| 0 <= j < s.len() implies s[j] != c by {
                if j > 0 {
                    assert(t[j - 1] != c);
                }
            }
        } else {
            let r = first_index_of(s, c);
            assert(r == rt + 1);
            assert(s[r] == t[rt]);
            assert forall|j: int| 0 <= j < r implies s[j] != c by {
                if j > 0 {
                    assert(t[j - 1] != c);
                }
            }
        }
    }
}

/// A position holding `c` with no earlier occurrence is the first one.
pub proof fn lemma_first_index_is(s: Seq<char>, c: char, i: int)
    requires
        0 <= i < s.len(),
        s[i] == c,
        forall|j: int| 0 <= j < i ==> s[j] != c,
    ensures
        first_index_of(s, c) == i,
{
    lemma_first_index_props(s, c);
    let fi = first_index_of(s, c);
    if fi == -1 {
        assert(s[i] != c);
    } else if fi < i {
        assert(s[fi] != c);
    } else if fi > i {
        assert(s[i] != c);
    }
}

/// Every character of a signed decimal rendering is a digit or the sign.
pub proof fn lemma_dec_i64_class(v: int)
    ensures
        dec_i64(v).len() >= 1,
        forall|i: int| 0 <= i < dec_i64(v).len() ==> is_digit_char(#[trigger] dec_i64(v)[i])
            || dec_i64(v)[i] == '-',
{
    if v < 0 {
        lemma_dec_digits_val((-v) as nat);
        let s = dec_i64(v);
        assert(forall|i: int|
            1 <= i < s.len() ==> #[trigger] s[i] == dec_digits((-v) as nat)[i - 1]);
    } else {
        lemma_dec_digits_val(v as nat);
    }
}

/// The single-character string for a decimal digit value.
pub fn digit_str(d: u8) -> (s: &'static str)
    requires
        d <= 9,
    ensures
        s@ =~= seq![digit_char(d as int)],
{
    proof {
        reveal_strlit("0");
        reveal_strlit("1");
        reveal_strlit("2");
        reveal_strlit("3");
        reveal_strlit("4");
        reveal_strlit("5");
        reveal_strlit("6");
        reveal_strlit("7");
        reveal_strlit("8");
        reveal_strlit("9");
    }
    if d == 0 {
        "0"
    } else if d == 1 {
        "1"
    } else if d == 2 {
        "2"
    } else if d == 3 {
        "3"
    } else if d == 4 {
        "4"
    } else if d == 5 {
        "5"
    } else if d == 6 {
        "6"
    } else if d == 7 {
        "7"
    } else if d == 8 {
        "8"
    } else {
        "9"
    }
}

/// Appends the decimal rendering of `n` to `out`.
pub fn append_u64(out: &mut String, n: u64)
    ensures
        final(out)@ == old(out)@ + dec_digits(n as nat),
    decreases n,
{
    if n < 10 {
        out.append(digit_str(n as u8));
        assert(final(out)@ =~= old(out)@ + dec_digits(n as nat));
    } else {
        append_u64(out, n / 10);
        out.append(digit_str((n % 10) as u8));
        assert(final(out)@ =~= old(out)@ + dec_digits(n as nat));
    }
}

/// Appends the decimal rendering of a signed value to `out`.
pub fn append_i64(out: &mut String, v: i64)
    ensures
        final(out)@ == old(out)@ + dec_i64(v as int),
{
    proof {
        reveal_strlit("-");
    }
    if v < 0 {
        out.append("-");
        let m: u64 = if v == i64::MIN {
            9_223_372_036_854_775_808u64
        } else {
            (-v) as u64
        };
        assert(m == -(v as int));
        append_u64(out, m);
        assert(final(out)@ =~= old(out)@ + dec_i64(v as int));
    } else {
        append_u64(out, v as u64);
    }
}

/// Appends the two-digit zero-padded rendering of `n` to `out`.
pub fn append_pad2(out: &mut String, n: u8)
    requires
        n < 100,
    ensures
        final(out)@ == old(out)@ + pad2(n as int),
{
    out.append(digit_str(n / 10));
    out.append(digit_str(n % 10));
    assert(final(out)@ =~= old(out)@ + pad2(n as int));
}

/// Appends the four-digit zero-padded rendering of `n` to `out`.
pub fn append_pad4(out: &mut String, n: u16)
    requires
        n < 10000,
    ensures
        final(out)@ == old(out)@ + pad4(n as int),
{
    out.append(digit_str((n / 1000) as u8));
    out.append(digit_str(((n / 100) % 10) as u8));
    out.append(digit_str(((n / 10) % 10) as u8));
    out.append(digit_str((n % 10) as u8));
    assert(final(out)@ =~= old(out)@ + pad4(n as int));
}

/// Reads the two characters at `at` as a zero-padded number.
pub fn read2(s: &str, at: usize) -> (r: Option<u8>)
    requires
        at <= usize::MAX - 2,
        at + 2 <= s@.len(),
    ensures
        match spec_read2(s@, at as int) {
            Some(v) => r matches Some(u) && u == v,
            None => r is None,
        },
{
    let c0 = char_digit(s.get_char(at));
    let c1 = char_digit(s.get_char(at + 1));
    match (c0, c1) {
        (Some(d0), Some(d1)) => Some(d0 * 10 + d1),
        _ => None,
    }
}

/// Reads the four characters at `at` as a zero-padded number.
pub fn read4(s: &str, at: usize) -> (r: Option<u16>)
    requires
        at <= usize::MAX - 4,
        at + 4 <= s@.len(),
    ensures
        match spec_read4(s@, at as int) {
            Some(v) => r matches Some(u) && u == v,
            None => r is None,
        },
{
    let c0 = char_digit(s.get_char(at));
    let c1 = char_digit(s.get_char(at + 1));
    let c2 = char_digit(s.get_char(at + 2));
    let c3 = char_digit(s.get_char(at + 3));
    match (c0, c1, c2, c3) {
        (Some(d0), Some(d1), Some(d2), Some(d3)) => Some(
            (d0 as u16) * 1000 + (d1 as u16) * 100 + (d2 as u16) * 10 + (d3 as u16),
        ),
        _ => None,
    }
}

/// The digit value of a character, or `None` when it is not a digit.
pub fn char_digit(c: char) -> (r: Option<u8>)
    ensures
        is_digit_char(c) <==> r is Some,
        r matches Some(d) ==> d == digit_val(c),
{
    if c == '0' {
        Some(0)
    } else if c == '1' {
        Some(1)
    } else if c == '2' {
        Some(2)
    } else if c == '3' {
        Some(3)
    } else if c == '4' {
        Some(4)
    } else if c == '5' {
        Some(5)
    } else if c == '6' {
        Some(6)
    } else if c == '7' {
        Some(7)
    } else if c == '8' {
        Some(8)
    } else if c == '9' {
        Some(9)
    } else {
        None
    }
}

/// Parses the characters `s[from..to]` as an unsigned digit run.
pub fn parse_digits_range(s: &str, from: usize, to: usize) -> (r: Option<u64>)
    requires
        from <= to <= s@.len(),
    ensures
        match spec_parse_digits(s@.subrange(from as int, to as int)) {
            Some(v) => r matches Some(u) && u == v,
            None => r is None,
        },
{
    let ghost sub = s@.subrange(from as int, to as int);
    let n = to - from;
    if n < 1 || n > 19 {
        return None;
    }
    let mut i: usize = 0;
    let mut acc: u64 = 0;
    while i < n
        invariant
            0 <= i <= n,
            1 <= n <= 19,
            from + n <= s@.len(),
            sub == s@.subrange(from as int, to as int),
            n == to - from,
            all_digits(sub.subrange(0, i as int)),
            acc == digits_val(sub.subrange(0, i as int)),
            acc < pow10(i as nat),
        decreases n - i,
    {
        let c = s.get_char(from + i);
        assert(c == sub[i as int]);
        match char_digit(c) {
            None => {
                return None;
            },
            Some(d) => {
                proof {
                    lemma_pow10_monotone(i as nat, 18);
                    assert(pow10(18) == 1_000_000_000_000_000_000) by {
                        reveal_with_fuel(pow10, 19);
                    }
                }
                acc = acc * 10 + (d as u64);
                proof {
                    let pre = sub.subrange(0, i as int);
                    let cur = sub.subrange(0, i as int + 1);
                    assert(cur.drop_last() =~= pre);
                    assert(cur.last() == c);
                }
                i = i + 1;
            },
        }
    }
    proof {
        assert(sub.subrange(0, n as int) =~= sub);
    }
    Some(acc)
}

/// Parses the characters `s[from..to]` as a signed decimal field.
pub fn parse_i64_range(s: &str, from: usize, to: usize) -> (r: Option<i64>)
    requires
        from <= to <= s@.len(),
    ensures
        match spec_parse_i64(s@.subrange(from as int, to as int)) {
            Some(v) => r matches Some(u) && u == v,
            None => r is None,
        },
{
    let ghost sub = s@.subrange(from as int, to as int);
    if from < to && s.get_char(from) == '-' {
        proof {
            assert(sub.skip(1) =~= s@.subrange(from as int + 1, to as int));
        }
        match parse_digits_range(s, from + 1, to) {
            Some(v) => {
                if v <= 9_223_372_036_854_775_807u64 {
                    Some(-(v as i64))
                } else if v == 9_223_372_036_854_775_808u64 {
                    Some(i64::MIN)
                } else {
                    None
                }
            },
            None => None,
        }
    } else {
        match parse_digits_range(s, from, to) {
            Some(v) => {
                if v <= 9_223_372_036_854_775_807u64 {
                    Some(v as i64)
                } else {
                    None
                }
            },
            None => None,
        }
    }
}

/// Finds the first occurrence of `c` at or after `from`.
pub fn find_char_from(s: &str, from: usize, c: char) -> (r: Option<usize>)
    requires
        from <= s@.len(),
    ensures
        match r {
            Some(i) => from <= i < s@.len() && first_index_of(s@.skip(from as int), c) == i - from,
            None => first_index_of(s@.skip(from as int), c) == -1,
        },
{
    let ghost t = s@.skip(from as int);
    let len = s.unicode_len();
    let mut i = from;
    while i < len
        invariant
            from <= i <= len,
            len == s@.len(),
            t == s@.skip(from as int),
            forall|j: int| from <= j < i ==> #[trigger] s@[j] != c,
        decreases len - i,
    {
        if s.get_char(i) == c {
            proof {
                lemma_first_index_props(t, c);
                assert(forall|j: int| 0 <= j < t.len() ==> #[trigger] t[j] == s@[from + j]);
                assert(t[i - from] == c);
                let fi = first_index_of(t, c);
                if fi == -1 {
                    assert(t[i - from] != c);
                } else if fi < i - from {
                    assert(t[fi] == c);
                    assert(s@[from + fi] == t[fi]);
                    assert(s@[from + fi] != c);
                } else if fi > i - from {
                    assert(t[i - from] != c);
                }
            }
            return Some(i);
        }
        i = i + 1;
    }
    proof {
        lemma_first_index_props(t, c);
        assert(forall|j: int| 0 <= j < t.len() ==> #[trigger] t[j] == s@[from + j]);
        let fi = first_index_of(t, c);
        if fi != -1 {
            assert(t[fi] == c);
            assert(s@[from + fi] == t[fi]);
            assert(s@[from + fi] != c);
        }
    }
    None
}


/// Character-wise equality of two text slices.
pub fn str_eq(a: &str, b: &str) -> (r: bool)
    ensures
        r == (a@ == b@),
{
    let la = a.unicode_len();
    let lb = b.unicode_len();
    if la != lb {
        return false;
    }
    let mut i: usize = 0;
    while i < la
        invariant
            0 <= i <= la,
            la == a@.len(),
            la == b@.len(),
            forall|j: int| 0 <= j < i ==> a@[j] == b@[j],
        decreases la - i,
    {
        if a.get_char(i) != b.get_char(i) {
            return false;
        }
        i = i + 1;
    }
    proof {
        assert(a@ =~= b@);
    }
    true
}

} // verus!
