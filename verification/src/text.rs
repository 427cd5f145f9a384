//! Text: decimal numbers, the `%d` format of debug prints, and register
//! initial values.
use vstd::prelude::*;
use vstd::string::{StrSliceExecFns, StringExecFns};

verus! {

pub open spec fn digit_char(d: int) -> char {
    if d == 0 { '0' }
    else if d == 1 { '1' }
    else if d == 2 { '2' }
    else if d == 3 { '3' }
    else if d == 4 { '4' }
    else if d == 5 { '5' }
    else if d == 6 { '6' }
    else if d == 7 { '7' }
    else if d == 8 { '8' }
    else { '9' }
}

/// The decimal digits of `n`, most significant first, without leading zeros.
pub open spec fn digits(n: nat) -> Seq<char>
    decreases n,
{
    if n < 10 {
        seq![digit_char(n as int)]
    } else {
        digits(n / 10) + seq![digit_char((n % 10) as int)]
    }
}

/// The decimal text of an integer, with a leading `-` when it is negative.
pub open spec fn decimal(v: int) -> Seq<char> {
    if v < 0 { seq!['-'] + digits((-v) as nat) } else { digits(v as nat) }
}

/// Right-aligned in a field of width 2.
pub open spec fn pad2(s: Seq<char>) -> Seq<char> {
    if s.len() < 2 { seq![' '] + s } else { s }
}

fn digit_str(d: u64) -> (s: &'static str)
    requires
        d < 10,
    ensures
        s@ == seq![digit_char(d as int)],
{
    if d == 0 {
        proof { reveal_strlit("0"); }
        "0"
    } else if d == 1 {
        proof { reveal_strlit("1"); }
        "1"
    } else if d == 2 {
        proof { reveal_strlit("2"); }
        "2"
    } else if d == 3 {
        proof { reveal_strlit("3"); }
        "3"
    } else if d == 4 {
        proof { reveal_strlit("4"); }
        "4"
    } else if d == 5 {
        proof { reveal_strlit("5"); }
        "5"
    } else if d == 6 {
        proof { reveal_strlit("6"); }
        "6"
    } else if d == 7 {
        proof { reveal_strlit("7"); }
        "7"
    } else if d == 8 {
        proof { reveal_strlit("8"); }
        "8"
    } else {
        proof { reveal_strlit("9"); }
        "9"
    }
}

fn push_digits(out: &mut String, n: u64)
    ensures
        final(out)@ == old(out)@ + digits(n as nat),
    decreases n,
{
    if n >= 10 {
        push_digits(out, n / 10);
    }
    out.append(digit_str(n % 10));
    proof {
        if n >= 10 {
            assert(final(out)@ =~= old(out)@ + digits(n as nat));
        }
    }
}

/// The decimal text of `v`.
pub fn decimal_string(v: i64) -> (s: String)
    ensures
        s@ == decimal(v as int),
{
    let mut out = String::new();
    if v < 0 {
        proof { reveal_strlit("-"); }
        out.append("-");
        let mag: u64 = if v == i64::MIN { 9223372036854775808u64 } else { (0 - v) as u64 };
        push_digits(&mut out, mag);
    } else {
        push_digits(&mut out, v as u64);
    }
    out
}


pub open spec fn prefixed(p: Seq<char>, o: Option<Seq<char>>) -> Option<Seq<char>> {
    match o {
        Some(r) => Some(p + r),
        None => None,
    }
}

/// A debug-print format filled in: each `%d` (read left to right, a `%`
/// always taking the next character with it) becomes the next value in
/// decimal, right-aligned to width 2; any other `%x` pair and a final `%`
/// stay as they are. `None` when there are more `%d` than values.
pub open spec fn dprint(fmt: Seq<char>, vals: Seq<i64>) -> Option<Seq<char>>
    decreases fmt.len(),
{
    if fmt.len() == 0 {
        Some(Seq::empty())
    } else if fmt[0] == '%' {
        if fmt.len() == 1 {
            Some(seq!['%'])
        } else if fmt[1] == 'd' {
            if vals.len() == 0 {
                None
            } else {
                prefixed(pad2(decimal(vals[0] as int)), dprint(fmt.skip(2), vals.drop_first()))
            }
        } else {
            prefixed(fmt.subrange(0, 2), dprint(fmt.skip(2), vals))
        }
    } else {
        prefixed(seq![fmt[0]], dprint(fmt.drop_first(), vals))
    }
}

/// Fill in a debug-print format (see `dprint`); `None` when the format asks
/// for more values than there are.
pub fn format_dprint(fmt: &str, values: &[i64]) -> (r: Option<String>)
    ensures
        r is None <==> dprint(fmt@, values@) is None,
        r matches Some(s) ==> dprint(fmt@, values@) == Some(s@),
{
    let n = fmt.unicode_len();
    let mut res = String::new();
    let mut i: usize = 0;
    let mut k: usize = 0;
    assert(fmt@.skip(0) =~= fmt@);
    assert(values@.skip(0) =~= values@);
    assert(res@ + Seq::<char>::empty() =~= res@);
    while i < n
        invariant
            n == fmt@.len(),
            i <= n,
            k <= values@.len(),
            dprint(fmt@, values@) == prefixed(res@, dprint(fmt@.skip(i as int), values@.skip(k as int))),
        decreases n - i,
    {
        let ghost rest = fmt@.skip(i as int);
        let ghost vrest = values@.skip(k as int);
        let ghost before = res@;
        let c = fmt.get_char(i);
        assert(rest[0] == c);
        if c == '%' && i + 1 < n {
            let c2 = fmt.get_char(i + 1);
            assert(rest[1] == c2);
            assert(rest.skip(2) =~= fmt@.skip(i + 2));
            if c2 == 'd' {
                if k >= values.len() {
                    return None;
                }
                let s = decimal_string(values[k]);
                if s.as_str().unicode_len() < 2 {
                    proof { reveal_strlit(" "); }
                    res.append(" ");
                }
                res.append(s.as_str());
                proof {
                    assert(vrest[0] == values@[k as int]);
                    assert(vrest.drop_first() =~= values@.skip(k + 1));
                    assert(res@ =~= before + pad2(decimal(values@[k as int] as int)));
                    match dprint(fmt@.skip(i + 2), values@.skip(k + 1)) {
                        Some(r) => {
                            assert(before + (pad2(decimal(values@[k as int] as int)) + r) =~= res@ + r);
                        },
                        None => {},
                    }
                }
                k = k + 1;
            } else {
                let pair = fmt.substring_char(i, i + 2);
                res.append(pair);
                proof {
                    assert(rest.subrange(0, 2) =~= pair@);
                    match dprint(fmt@.skip(i + 2), values@.skip(k as int)) {
                        Some(r) => {
                            assert(before + (pair@ + r) =~= res@ + r);
                        },
                        None => {},
                    }
                }
            }
            i = i + 2;
        } else {
            let one = fmt.substring_char(i, i + 1);
            res.append(one);
            proof {
                assert(one@ =~= seq![c]);
                if c == '%' {
                    assert(rest.len() == 1);
                    assert(fmt@.skip(i + 1).len() == 0);
                    assert(res@ + Seq::<char>::empty() =~= res@);
                } else {
                    assert(rest.drop_first() =~= fmt@.skip(i + 1));
                    match dprint(fmt@.skip(i + 1), values@.skip(k as int)) {
                        Some(r) => {
                            assert(before + (seq![c] + r) =~= res@ + r);
                        },
                        None => {},
                    }
                }
            }
            i = i + 1;
        }
    }
    proof {
        assert(fmt@.skip(i as int).len() == 0);
        assert(res@ + Seq::<char>::empty() =~= res@);
    }
    Some(res)
}

pub open spec fn is_digit(c: char) -> bool {
    '0' <= c && c <= '9'
}

pub open spec fn all_digits(s: Seq<char>) -> bool {
    forall|i: int| 0 <= i < s.len() ==> is_digit(#[trigger] s[i])
}

/// The number a string of decimal digits denotes.
pub open spec fn digits_value(s: Seq<char>) -> nat
    decreases s.len(),
{
    if s.len() == 0 {
        0
    } else {
        digits_value(s.drop_last()) * 10 + ((s.last() as int) - ('0' as int)) as nat
    }
}

/// The integer that decimal text denotes, the way Rust parses a signed
/// 64-bit integer: an optional `+` or `-`, then one or more ASCII digits,
/// and a value in range; `None` otherwise.
pub open spec fn parse_i64(s: Seq<char>) -> Option<i64> {
    let neg = s.len() > 0 && s[0] == '-';
    let body = if s.len() > 0 && (s[0] == '-' || s[0] == '+') { s.drop_first() } else { s };
    if body.len() == 0 || !all_digits(body) {
        None
    } else if neg {
        if digits_value(body) <= 0x8000_0000_0000_0000 { Some((0 - digits_value(body)) as i64) } else { None }
    } else {
        if digits_value(body) <= 0x7fff_ffff_ffff_ffff { Some(digits_value(body) as i64) } else { None }
    }
}

pub open spec fn cap(x: int) -> int {
    if x < 0x1_0000_0000_0000_0000 { x } else { 0x1_0000_0000_0000_0000 }
}

/// Parse decimal text as a signed 64-bit integer (see `parse_i64`).
pub fn parse_int(s: &str) -> (r: Option<i64>)
    ensures
        r == parse_i64(s@),
{
    let n = s.unicode_len();
    let mut start: usize = 0;
    let mut neg = false;
    if n > 0 {
        let c0 = s.get_char(0);
        if c0 == '-' {
            neg = true;
            start = 1;
        } else if c0 == '+' {
            start = 1;
        }
    }
    let ghost body = s@.subrange(start as int, n as int);
    proof {
        if start == 1 {
            assert(body =~= s@.drop_first());
        } else {
            assert(body =~= s@);
        }
    }
    if start >= n {
        return None;
    }
    let mut acc: u128 = 0;
    let mut ok = true;
    let mut i: usize = start;
    while i < n
        invariant
            start <= i <= n,
            n == s@.len(),
            body == s@.subrange(start as int, n as int),
            ok == all_digits(s@.subrange(start as int, i as int)),
            ok ==> acc == cap(digits_value(s@.subrange(start as int, i as int)) as int),
        decreases n - i,
    {
        let c = s.get_char(i);
        let ghost pre = s@.subrange(start as int, i as int);
        let ghost next = s@.subrange(start as int, i + 1);
        proof {
            assert(next.drop_last() =~= pre);
            assert(next.last() == c);
        }
        if '0' <= c && c <= '9' {
            if ok {
                let d = (c as u32 - '0' as u32) as u128;
                let v = acc * 10 + d;
                acc = if v < 0x1_0000_0000_0000_0000u128 { v } else { 0x1_0000_0000_0000_0000u128 };
                proof {
                    assert(all_digits(next)) by {
                        assert forall|j: int| 0 <= j < next.len() implies is_digit(#[trigger] next[j]) by {
                            if j < pre.len() {
                                assert(next[j] == pre[j]);
                            }
                        }
                    }
                }
            }
        } else {
            ok = false;
            proof {
                assert(!is_digit(next[next.len() - 1]));
            }
        }
        proof {
            if !ok {
                if all_digits(next) {
                    assert(is_digit(next[(i - start) as int]));
                    assert forall|j: int| 0 <= j < pre.len() implies is_digit(#[trigger] pre[j]) by {
                        assert(pre[j] == next[j]);
                    }
                }
            }
        }
        i = i + 1;
    }
    if !ok {
        return None;
    }
    if neg {
        if acc <= 0x8000_0000_0000_0000u128 {
            Some((0 - (acc as i128)) as i64)
        } else {
            None
        }
    } else {
        if acc <= 0x7fff_ffff_ffff_ffffu128 {
            Some(acc as i64)
        } else {
            None
        }
    }
}

proof fn lemma_digit_char(d: int)
    requires
        0 <= d < 10,
    ensures
        is_digit(digit_char(d)),
        (digit_char(d) as int) - ('0' as int) == d,
{
}

proof fn lemma_digits_value(n: nat)
    ensures
        digits(n).len() > 0,
        all_digits(digits(n)),
        digits_value(digits(n)) == n,
    decreases n,
{
    lemma_digit_char((n % 10) as int);
    if n >= 10 {
        lemma_digits_value(n / 10);
        let s = digits(n);
        assert(s.drop_last() =~= digits(n / 10));
        assert(s.last() == digit_char((n % 10) as int));
        assert(digits_value(s) == digits_value(digits(n / 10)) * 10 + (n % 10));
        assert((n / 10) * 10 + n % 10 == n);
        assert(all_digits(s)) by {
            assert forall|i: int| 0 <= i < s.len() implies is_digit(#[trigger] s[i]) by {
                if i < s.len() - 1 {
                    assert(s[i] == digits(n / 10)[i]);
                }
            }
        }
    } else {
        lemma_digit_char(n as int);
        let s = digits(n);
        assert(s.drop_last() =~= Seq::<char>::empty());
        assert(s.last() == digit_char(n as int));
        assert(digits_value(s) == digits_value(s.drop_last()) * 10 + n);
    }
}

/// Law (decimal text reads back): the decimal text of a 64-bit integer, as
/// debug prints show it, parses back to the same integer, as register
/// initial values are read.
pub proof fn lemma_parse_decimal(v: i64)
    ensures
        parse_i64(decimal(v as int)) == Some(v),
{
    if v < 0 {
        let m = (-(v as int)) as nat;
        lemma_digits_value(m);
        let s = decimal(v as int);
        assert(s.drop_first() =~= digits(m));
    } else {
        let m = v as nat;
        lemma_digits_value(m);
        let s = decimal(v as int);
        assert(is_digit(s[0]));
    }
}

/// Law (plain text prints as it is): a debug-print format without `%` is
/// printed unchanged, whatever the values.
pub proof fn lemma_dprint_plain(fmt: Seq<char>, vals: Seq<i64>)
    requires
        forall|i: int| 0 <= i < fmt.len() ==> fmt[i] != '%',
    ensures
        dprint(fmt, vals) == Some(fmt),
    decreases fmt.len(),
{
    if fmt.len() > 0 {
        assert(fmt[0] != '%');
        let rest = fmt.drop_first();
        assert forall|i: int| 0 <= i < rest.len() implies rest[i] != '%' by {
            assert(rest[i] == fmt[i + 1]);
        }
        lemma_dprint_plain(rest, vals);
        assert(seq![fmt[0]] + rest =~= fmt);
    }
}

/// Law (a `%d` prints the value in decimal, at least two wide): a format
/// made of text without `%`, one `%d` and text without `%`, filled with one
/// value, is the first text, the value's decimal text (after one space when
/// it is a single character), then the second text, and that decimal text
/// reads back as the value. With no value the format cannot be filled.
pub proof fn lemma_dprint_directive(pre: Seq<char>, post: Seq<char>, v: i64)
    requires
        forall|i: int| 0 <= i < pre.len() ==> pre[i] != '%',
        forall|i: int| 0 <= i < post.len() ==> post[i] != '%',
    ensures
        dprint(pre + seq!['%', 'd'] + post, seq![v])
            == Some(pre + (if decimal(v as int).len() < 2 { seq![' '] + decimal(v as int) } else { decimal(v as int) }) + post),
        dprint(pre + seq!['%', 'd'] + post, Seq::<i64>::empty()) is None,
        parse_i64(decimal(v as int)) == Some(v),
    decreases pre.len(),
{
    lemma_parse_decimal(v);
    let f = pre + seq!['%', 'd'] + post;
    if pre.len() == 0 {
        assert(f =~= seq!['%', 'd'] + post);
        assert(f.skip(2) =~= post);
        assert(f[0] == '%' && f[1] == 'd');
        assert(seq![v].drop_first() =~= Seq::<i64>::empty());
        assert(seq![v][0] == v);
        lemma_dprint_plain(post, Seq::<i64>::empty());
        assert(pre + (if decimal(v as int).len() < 2 { seq![' '] + decimal(v as int) } else { decimal(v as int) }) + post
            =~= pad2(decimal(v as int)) + post);
    } else {
        let rest = pre.drop_first();
        assert forall|i: int| 0 <= i < rest.len() implies rest[i] != '%' by {
            assert(rest[i] == pre[i + 1]);
        }
        lemma_dprint_directive(rest, post, v);
        assert(f[0] == pre[0]);
        assert(f[0] != '%');
        assert(f.drop_first() =~= rest + seq!['%', 'd'] + post);
        let mid = if decimal(v as int).len() < 2 { seq![' '] + decimal(v as int) } else { decimal(v as int) };
        assert(seq![pre[0]] + (rest + mid + post) =~= pre + mid + post);
    }
}
} // verus!
