//! Decimal numerals, byte search and UTF-8 text, as the encodings use them.
use vstd::prelude::*;
use vstd::utf8::*;

verus! {

broadcast use vstd::seq_lib::group_seq_properties;

/// A byte that is an ASCII decimal digit.
pub open spec fn is_digit(b: u8) -> bool {
    48 <= b <= 57
}

/// A non-empty run of ASCII decimal digits.
pub open spec fn is_digits(s: Seq<u8>) -> bool {
    s.len() > 0 && forall|i: int| 0 <= i < s.len() ==> is_digit(#[trigger] s[i])
}

/// The value of a run of decimal digits.
pub open spec fn digits_value(s: Seq<u8>) -> nat
    decreases s.len(),
{
    if s.len() == 0 {
        0
    } else {
        digits_value(s.drop_last()) * 10 + (s.last() - 48) as nat
    }
}

/// The canonical decimal numeral of a natural number.
pub open spec fn dec(n: nat) -> Seq<u8>
    decreases n,
{
    if n < 10 {
        seq![(48 + n) as u8]
    } else {
        dec(n / 10).push((48 + n % 10) as u8)
    }
}

/// The decimal numeral of an integer, with a leading minus sign when negative.
pub open spec fn dec_signed(n: int) -> Seq<u8> {
    if n < 0 {
        seq![45u8] + dec((-n) as nat)
    } else {
        dec(n as nat)
    }
}

/// The value of a signed numeral: an optional sign, then digits.
pub open spec fn signed_value(s: Seq<u8>) -> int {
    if s.len() > 0 && s[0] == 45 {
        -(digits_value(s.drop_first()) as int)
    } else if s.len() > 0 && s[0] == 43 {
        digits_value(s.drop_first()) as int
    } else {
        digits_value(s) as int
    }
}

/// A numeral that `signed_value` reads: digits, or a plus or minus sign
/// and digits.
pub open spec fn is_signed_numeral(s: Seq<u8>) -> bool {
    is_digits(s) || (s.len() > 0 && (s[0] == 45 || s[0] == 43) && is_digits(s.drop_first()))
}

pub proof fn lemma_dec(n: nat)
    ensures
        is_digits(dec(n)),
        digits_value(dec(n)) == n,
    decreases n,
{
    if n >= 10 {
        lemma_dec(n / 10);
        let d = dec(n / 10);
        assert(dec(n).drop_last() =~= d);
        assert(dec(n).last() == (48 + n % 10) as u8);
        assert((n / 10) * 10 + n % 10 == n) by (nonlinear_arith);
        assert(digits_value(dec(n)) == digits_value(d) * 10 + (n % 10));
        assert forall|i: int| 0 <= i < dec(n).len() implies is_digit(#[trigger] dec(n)[i]) by {
            if i < d.len() {
                assert(dec(n)[i] == d[i]);
            }
        }
    } else {
        assert(dec(n).drop_last() =~= Seq::<u8>::empty());
        assert(digits_value(dec(n)) == digits_value(Seq::<u8>::empty()) * 10 + n);
    }
}

/// The first position at or after `from` where `s` holds `b`, or -1.
pub open spec fn find_from(s: Seq<u8>, b: u8, from: int) -> int
    decreases s.len() - from,
{
    if from < 0 || from >= s.len() {
        -1
    } else if s[from] == b {
        from
    } else {
        find_from(s, b, from + 1)
    }
}

pub proof fn lemma_find_from(s: Seq<u8>, b: u8, from: int, k: int)
    requires
        0 <= from <= k <= s.len(),
        forall|j: int| from <= j < k ==> s[j] != b,
    ensures
        k < s.len() && s[k] == b ==> find_from(s, b, from) == k,
        k == s.len() ==> find_from(s, b, from) == -1,
    decreases k - from,
{
    if from < k {
        lemma_find_from(s, b, from + 1, k);
    }
}

pub proof fn lemma_find_from_result(s: Seq<u8>, b: u8, from: int)
    requires
        0 <= from,
    ensures
        find_from(s, b, from) == -1 || (from <= find_from(s, b, from) < s.len() && s[find_from(s, b, from)] == b),
        forall|j: int| from <= j < (if find_from(s, b, from) == -1 { s.len() as int } else { find_from(s, b, from) }) ==> s[j] != b,
    decreases s.len() - from,
{
    if from < s.len() && s[from] != b {
        lemma_find_from_result(s, b, from + 1);
    }
}

/// Finds the first `b` at or after `from`.
pub fn find_byte(s: &[u8], b: u8, from: usize) -> (r: Option<usize>)
    ensures
        match r {
            Some(k) => find_from(s@, b, from as int) == k as int && from <= k < s@.len() && s@[k as int] == b,
            None => find_from(s@, b, from as int) == -1,
        },
{
    let mut k = from;
    if k >= s.len() {
        return None;
    }
    while k < s.len()
        invariant
            from <= k <= s@.len(),
            find_from(s@, b, from as int) == find_from(s@, b, k as int),
        decreases s@.len() - k,
    {
        if s[k] == b {
            return Some(k);
        }
        k = k + 1;
    }
    None
}

/// Appends the canonical decimal numeral of `n`.
pub fn push_dec(out: &mut Vec<u8>, n: u64)
    ensures
        final(out)@ == old(out)@ + dec(n as nat),
    decreases n,
{
    if n >= 10 {
        push_dec(out, n / 10);
    }
    out.push(48u8 + (n % 10) as u8);
}

/// Appends the decimal numeral of a signed integer.
pub fn push_dec_signed(out: &mut Vec<u8>, n: i64)
    ensures
        final(out)@ == old(out)@ + dec_signed(n as int),
{
    if n < 0 {
        out.push(45u8);
        let m: u64 = if n == i64::MIN {
            9_223_372_036_854_775_808u64
        } else {
            (-n) as u64
        };
        push_dec(out, m);
    } else {
        push_dec(out, n as u64);
    }
}

/// Reads a run of decimal digits as a `u64`; `None` if it is not one or
/// does not fit.
pub fn parse_u64(s: &[u8]) -> (r: Option<u64>)
    ensures
        r is Some <==> is_digits(s@) && digits_value(s@) <= u64::MAX,
        r is Some ==> r->0 == digits_value(s@),
{
    if s.len() == 0 {
        return None;
    }
    let mut v: u64 = 0;
    let mut i: usize = 0;
    while i < s.len()
        invariant
            i <= s@.len(),
            is_digits(s@.subrange(0, i as int)) || i == 0,
            v == digits_value(s@.subrange(0, i as int)),
        decreases s@.len() - i,
    {
        assert(s@.subrange(0, i + 1).drop_last() =~= s@.subrange(0, i as int));
        let c = s[i];
        if c < 48 || c > 57 {
            assert(!is_digit(s@[i as int]));
            return None;
        }
        let d = (c - 48) as u64;
        if v > (u64::MAX - d) / 10 {
            proof {
                assert(digits_value(s@.subrange(0, i + 1)) == v * 10 + d);
                if is_digits(s@) {
                    lemma_digits_value_prefix(s@, i as int + 1);
                }
            }
            return None;
        }
        v = v * 10 + d;
        i = i + 1;
    }
    assert(s@.subrange(0, s@.len() as int) =~= s@);
    Some(v)
}

pub proof fn lemma_digits_value_prefix(s: Seq<u8>, k: int)
    requires
        0 <= k <= s.len(),
        is_digits(s),
    ensures
        digits_value(s.subrange(0, k)) <= digits_value(s),
    decreases s.len() - k,
{
    if k < s.len() {
        lemma_digits_value_prefix(s, k + 1);
        assert(s.subrange(0, k + 1).drop_last() =~= s.subrange(0, k));
        let x = digits_value(s.subrange(0, k));
        assert(x * 10 >= x) by (nonlinear_arith)
            requires
                x >= 0,
        ;
    } else {
        assert(s.subrange(0, k) =~= s);
    }
}

/// Reads a signed numeral as an `i64`; `None` if it is not one or does not fit.
pub fn parse_i64(s: &[u8]) -> (r: Option<i64>)
    ensures
        r is Some <==> is_signed_numeral(s@) && i64::MIN <= signed_value(s@) <= i64::MAX,
        r is Some ==> r->0 == signed_value(s@),
{
    if s.len() > 0 && s[0] == 45u8 {
        let rest = parse_u64(slice_from(s, 1));
        assert(s@.subrange(1, s@.len() as int) =~= s@.drop_first());
        match rest {
            Some(m) => {
                if m <= 9_223_372_036_854_775_807u64 {
                    Some(-(m as i64))
                } else if m == 9_223_372_036_854_775_808u64 {
                    Some(i64::MIN)
                } else {
                    None
                }
            },
            None => {
                proof {
                    if is_digits(s@.drop_first()) {
                        assert(digits_value(s@.drop_first()) > u64::MAX);
                    }
                }
                None
            },
        }
    } else {
        let plus = s.len() > 0 && s[0] == 43u8;
        let digits = if plus {
            slice_from(s, 1)
        } else {
            s
        };
        assert(plus ==> s@.subrange(1, s@.len() as int) =~= s@.drop_first());
        proof {
            if !plus && s@.len() > 0 {
                assert(!is_digit(s@[0]) ==> !is_digits(s@));
            }
        }
        match parse_u64(digits) {
            Some(m) => {
                if m <= 9_223_372_036_854_775_807u64 {
                    Some(m as i64)
                } else {
                    None
                }
            },
            None => {
                proof {
                    if plus && is_digits(s@.drop_first()) {
                        assert(digits_value(s@.drop_first()) > u64::MAX);
                    }
                }
                None
            },
        }
    }
}

/// The bytes of `s` from `start` on.
pub fn slice_from(s: &[u8], start: usize) -> (r: &[u8])
    requires
        start <= s@.len(),
    ensures
        r@ == s@.subrange(start as int, s@.len() as int),
{
    slice_range(s, start, s.len())
}

/// The bytes of `s` in `[start, end)`.
pub fn slice_range(s: &[u8], start: usize, end: usize) -> (r: &[u8])
    requires
        start <= end <= s@.len(),
    ensures
        r@ == s@.subrange(start as int, end as int),
{
    vstd::slice::slice_subrange(s, start, end)
}

/// The UTF-8 bytes of a string.
pub open spec fn utf8(s: Seq<char>) -> Seq<u8> {
    encode_utf8(s)
}

/// Appends the UTF-8 bytes of `s`.
pub fn push_str(out: &mut Vec<u8>, s: &str)
    ensures
        final(out)@ == old(out)@ + utf8(s@),
{
    let b = s.as_bytes();
    let mut i: usize = 0;
    let ghost start = out@;
    while i < b.len()
        invariant
            i <= b@.len(),
            b@ == utf8(s@),
            out@ == start + b@.subrange(0, i as int),
        decreases b@.len() - i,
    {
        out.push(b[i]);
        i = i + 1;
        assert(out@ =~= start + b@.subrange(0, i as int));
    }
    assert(b@.subrange(0, b@.len() as int) =~= b@);
}

/// Relies on String::from_utf8: the text that the bytes spell, when they
/// are valid UTF-8.
#[verifier::external_body]
fn string_from_utf8(bytes: Vec<u8>) -> (r: Option<String>)
    ensures
        r is Some <==> valid_utf8(bytes@),
        r is Some ==> r->0@ == decode_utf8(bytes@),
{
    String::from_utf8(bytes).ok()
}

/// The text that a byte range spells, if it is valid UTF-8.
pub fn text_of(s: &[u8]) -> (r: Option<String>)
    ensures
        r is Some <==> valid_utf8(s@),
        r is Some ==> utf8(r->0@) == s@,
{
    let v = copy_bytes(s);
    let r = string_from_utf8(v);
    proof {
        if valid_utf8(s@) {
            decode_utf8_encode_utf8(s@);
        }
    }
    r
}

/// A fresh vector with the bytes of `s`.
pub fn copy_bytes(s: &[u8]) -> (r: Vec<u8>)
    ensures
        r@ == s@,
{
    let mut v: Vec<u8> = Vec::new();
    let mut i: usize = 0;
    while i < s.len()
        invariant
            i <= s@.len(),
            v@ == s@.subrange(0, i as int),
        decreases s@.len() - i,
    {
        v.push(s[i]);
        i = i + 1;
        assert(v@ =~= s@.subrange(0, i as int));
    }
    assert(s@.subrange(0, s@.len() as int) =~= s@);
    v
}

} // verus!

verus! {

/// Byte-wise equality of two slices.
pub fn bytes_eq(a: &[u8], b: &[u8]) -> (r: bool)
    ensures
        r == (a@ == b@),
{
    if a.len() != b.len() {
        return false;
    }
    let mut i: usize = 0;
    while i < a.len()
        invariant
            a@.len() == b@.len(),
            i <= a@.len(),
            forall|j: int| 0 <= j < i ==> a@[j] == b@[j],
        decreases a@.len() - i,
    {
        if a[i] != b[i] {
            return false;
        }
        i = i + 1;
    }
    assert(a@ =~= b@);
    true
}

} // verus!

verus! {

/// Whether `s` holds `tag` at `start`.
pub open spec fn has_at(s: Seq<u8>, start: int, tag: Seq<u8>) -> bool {
    0 <= start && start + tag.len() <= s.len() && s.subrange(start, start + tag.len()) == tag
}

/// Tests whether `s` holds `tag` at `start`.
pub fn bytes_at(s: &[u8], start: usize, tag: &[u8]) -> (r: bool)
    ensures
        r == has_at(s@, start as int, tag@),
{
    if start > s.len() || tag.len() > s.len() - start {
        return false;
    }
    let r = bytes_eq(slice_range(s, start, start + tag.len()), tag);
    r
}

} // verus!

verus! {

/// Bytes cut into newline-terminated lines, or `None` when the last line
/// has no newline.
pub open spec fn split_lines(body: Seq<u8>) -> Option<Seq<Seq<u8>>>
    decreases body.len(),
{
    if body.len() == 0 {
        Some(Seq::empty())
    } else {
        let nl = find_from(body, 10, 0);
        if nl < 0 {
            None
        } else {
            proof {
                lemma_find_from_result(body, 10, 0);
            }
            match split_lines(body.subrange(nl + 1, body.len() as int)) {
                None => None,
                Some(rest) => Some(seq![body.subrange(0, nl)] + rest),
            }
        }
    }
}

/// Bytes cut at every `sep`.
pub open spec fn split_on(line: Seq<u8>, sep: u8) -> Seq<Seq<u8>>
    decreases line.len(),
{
    let sp = find_from(line, sep, 0);
    if sp < 0 {
        seq![line]
    } else {
        proof {
            lemma_find_from_result(line, sep, 0);
        }
        seq![line.subrange(0, sp)] + split_on(line.subrange(sp + 1, line.len() as int), sep)
    }
}

/// A line cut at every space.
pub open spec fn split_spaces(line: Seq<u8>) -> Seq<Seq<u8>> {
    split_on(line, 32)
}

pub proof fn lemma_find_shift(s: Seq<u8>, b: u8, from: int)
    requires
        0 <= from <= s.len(),
    ensures
        find_from(s, b, from) == -1 <==> find_from(s.subrange(from, s.len() as int), b, 0) == -1,
        find_from(s, b, from) >= 0 ==> find_from(s.subrange(from, s.len() as int), b, 0) == find_from(s, b, from) - from,
{
    let t = s.subrange(from, s.len() as int);
    lemma_find_from_result(s, b, from);
    lemma_find_from_result(t, b, 0);
    let k = find_from(s, b, from);
    if k >= 0 {
        assert forall|j: int| 0 <= j < k - from implies t[j] != b by {
            assert(t[j] == s[j + from]);
        }
        assert(t[k - from] == s[k]);
        lemma_find_from(t, b, 0, k - from);
    } else {
        assert forall|j: int| 0 <= j < t.len() implies t[j] != b by {
            assert(t[j] == s[j + from]);
        }
        lemma_find_from(t, b, 0, t.len() as int);
    }
}

/// Cuts bytes at every `sep`: the start and end of each piece.
pub fn field_bounds(line: &[u8], sep: u8) -> (r: Vec<(usize, usize)>)
    ensures
        r@.len() == split_on(line@, sep).len(),
        forall|i: int| 0 <= i < r@.len() ==> (#[trigger] r@[i]).0 <= r@[i].1 <= line@.len()
            && line@.subrange(r@[i].0 as int, r@[i].1 as int) == split_on(line@, sep)[i],
{
    let mut out: Vec<(usize, usize)> = Vec::new();
    let mut pos: usize = 0;
    let n = line.len();
    proof {
        assert(line@.subrange(0, n as int) =~= line@);
        assert(split_on(line@, sep) =~= Seq::<Seq<u8>>::empty() + split_on(line@, sep));
    }
    loop
        invariant_except_break
            split_on(line@, sep) == out@.map_values(|p: (usize, usize)| line@.subrange(p.0 as int, p.1 as int)) + split_on(
                line@.subrange(pos as int, n as int),
                sep,
            ),
        invariant
            pos <= n,
            n == line@.len(),
            forall|i: int| 0 <= i < out@.len() ==> (#[trigger] out@[i]).0 <= out@[i].1 <= n,
        ensures
            split_on(line@, sep) == out@.map_values(|p: (usize, usize)| line@.subrange(p.0 as int, p.1 as int)),
            forall|i: int| 0 <= i < out@.len() ==> (#[trigger] out@[i]).0 <= out@[i].1 <= n,
        decreases n - pos,
    {
        let ghost rest = line@.subrange(pos as int, n as int);
        let ghost before = out@.map_values(|p: (usize, usize)| line@.subrange(p.0 as int, p.1 as int));
        proof {
            lemma_find_shift(line@, sep, pos as int);
        }
        match find_byte(line, sep, pos) {
            Some(sp) => {
                out.push((pos, sp));
                proof {
                    assert(rest.subrange(0, sp - pos) =~= line@.subrange(pos as int, sp as int));
                    assert(rest.subrange(sp - pos + 1, rest.len() as int) =~= line@.subrange(sp + 1, n as int));
                    assert(out@.map_values(|p: (usize, usize)| line@.subrange(p.0 as int, p.1 as int)) =~= before.push(
                        line@.subrange(pos as int, sp as int),
                    ));
                }
                pos = sp + 1;
            },
            None => {
                out.push((pos, n));
                proof {
                    assert(out@.map_values(|p: (usize, usize)| line@.subrange(p.0 as int, p.1 as int)) =~= before.push(rest));
                    assert(split_on(rest, sep) == seq![rest]);
                    assert(before + seq![rest] =~= before.push(rest));
                }
                break ;
            },
        }
    }
    proof {
        let m = out@.map_values(|p: (usize, usize)| line@.subrange(p.0 as int, p.1 as int));
        assert forall|i: int| 0 <= i < out@.len() implies line@.subrange(out@[i].0 as int, out@[i].1 as int) == split_on(line@, sep)[i] by {
            assert(m[i] == line@.subrange(out@[i].0 as int, out@[i].1 as int));
        }
    }
    out
}

} // verus!

verus! {

/// Whether two strings are equal.
pub fn str_eq(a: &str, b: &str) -> (r: bool)
    ensures
        r == (a@ == b@),
{
    let r = bytes_eq(a.as_bytes(), b.as_bytes());
    proof {
        if utf8(a@) == utf8(b@) {
            vstd::utf8::encode_utf8_decode_utf8(a@);
            vstd::utf8::encode_utf8_decode_utf8(b@);
        }
    }
    r
}

} // verus!

verus! {

/// Cutting valid UTF-8 at an ASCII byte leaves valid UTF-8 on both sides.
pub proof fn lemma_ascii_split(b: Seq<u8>, i: int)
    requires
        vstd::utf8::valid_utf8(b),
        0 <= i < b.len(),
        b[i] < 128,
    ensures
        vstd::utf8::valid_utf8(b.subrange(0, i)),
        vstd::utf8::valid_utf8(b.subrange(i + 1, b.len() as int)),
{
    vstd::utf8::is_char_boundary_iff_not_is_continuation_byte(b, i);
    vstd::utf8::valid_utf8_split(b, i);
    let t = b.subrange(i, b.len() as int);
    assert(t[0] == b[i]);
    assert(vstd::utf8::length_of_first_scalar(t) == 1);
    assert(vstd::utf8::pop_first_scalar(t) =~= b.subrange(i + 1, b.len() as int));
}

/// Every piece of valid UTF-8 cut at an ASCII separator is valid UTF-8.
pub proof fn lemma_split_valid(line: Seq<u8>, sep: u8)
    requires
        vstd::utf8::valid_utf8(line),
        sep < 128,
    ensures
        forall|i: int| 0 <= i < split_on(line, sep).len() ==> vstd::utf8::valid_utf8(#[trigger] split_on(line, sep)[i]),
    decreases line.len(),
{
    let sp = find_from(line, sep, 0);
    lemma_find_from_result(line, sep, 0);
    if sp >= 0 {
        lemma_ascii_split(line, sp);
        let rest = line.subrange(sp + 1, line.len() as int);
        lemma_split_valid(rest, sep);
        assert forall|i: int| 0 <= i < split_on(line, sep).len() implies vstd::utf8::valid_utf8(#[trigger] split_on(line, sep)[i]) by {
            if i > 0 {
                assert(split_on(line, sep)[i] == split_on(rest, sep)[i - 1]);
            }
        }
    }
}

} // verus!
