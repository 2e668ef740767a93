//! A plain-text serialization of limit masks.
//!
//! [`encode_standard`] renders a mask as a string of length-prefixed text
//! fields and semicolon-terminated decimal numbers; [`decode_standard`] parses
//! it back. Decoding an encoded mask reproduces every field exactly, so a
//! mask survives the round trip and evaluates to identical limits afterwards.

use vstd::prelude::*;

verus! {

use crate::mask::EMCStandard;
use vstd::string::StrSliceExecFns;
use vstd::string::StringExecFns;

/// The character of one decimal digit.
pub open spec fn digit_char(d: nat) -> char {
    if d == 0 {
        '0'
    } else if d == 1 {
        '1'
    } else if d == 2 {
        '2'
    } else if d == 3 {
        '3'
    } else if d == 4 {
        '4'
    } else if d == 5 {
        '5'
    } else if d == 6 {
        '6'
    } else if d == 7 {
        '7'
    } else if d == 8 {
        '8'
    } else {
        '9'
    }
}

/// The numeric value of a digit character, or 10 for anything else.
pub open spec fn char_digit(c: char) -> nat {
    if c == '0' {
        0
    } else if c == '1' {
        1
    } else if c == '2' {
        2
    } else if c == '3' {
        3
    } else if c == '4' {
        4
    } else if c == '5' {
        5
    } else if c == '6' {
        6
    } else if c == '7' {
        7
    } else if c == '8' {
        8
    } else if c == '9' {
        9
    } else {
        10
    }
}

/// The decimal digits of `n`, most significant first.
pub open spec fn dec_digits(n: nat) -> Seq<char>
    decreases n,
{
    if n < 10 {
        seq![digit_char(n)]
    } else {
        dec_digits(n / 10).push(digit_char(n % 10))
    }
}

/// One encoded unsigned number: its decimal digits and a terminator.
pub open spec fn enc_u64(n: nat) -> Seq<char> {
    dec_digits(n).push(';')
}

/// One encoded signed number: a sign for negatives, then the magnitude.
pub open spec fn enc_i64(v: int) -> Seq<char> {
    if v < 0 {
        seq!['-'] + enc_u64((-v) as nat)
    } else {
        enc_u64(v as nat)
    }
}

/// Every character of the digit string is a digit.
pub proof fn lemma_dec_digits_are_digits(n: nat)
    ensures
        dec_digits(n).len() >= 1,
        forall|i: int| 0 <= i < dec_digits(n).len() ==> char_digit(#[trigger] dec_digits(n)[i]) < 10,
    decreases n,
{
    if n < 10 {
    } else {
        lemma_dec_digits_are_digits(n / 10);
        assert(forall|i: int|
            0 <= i < dec_digits(n).len() - 1 ==> dec_digits(n)[i] == dec_digits(n / 10)[i]);
    }
}

/// The value read back from a digit string, most significant first.
pub open spec fn digits_val(s: Seq<char>) -> nat
    decreases s.len(),
{
    if s.len() == 0 {
        0
    } else {
        digits_val(s.drop_last()) * 10 + char_digit(s.last())
    }
}

/// Reading the digit string of `n` yields `n` again.
pub proof fn lemma_digits_val_inverse(n: nat)
    ensures
        digits_val(dec_digits(n)) == n,
    decreases n,
{
    if n < 10 {
        assert(dec_digits(n) =~= seq![digit_char(n)]);
        assert(dec_digits(n).drop_last() =~= Seq::<char>::empty());
        assert(digits_val(Seq::<char>::empty()) == 0);
        assert(char_digit(digit_char(n)) == n);
    } else {
        lemma_digits_val_inverse(n / 10);
        assert(dec_digits(n) =~= dec_digits(n / 10).push(digit_char(n % 10)));
        assert(dec_digits(n).drop_last() =~= dec_digits(n / 10));
        assert(dec_digits(n).last() == digit_char(n % 10));
        assert(char_digit(digit_char(n % 10)) == n % 10);
        vstd::arithmetic::div_mod::lemma_fundamental_div_mod(n as int, 10);
    }
}

/// A digit-string value grows with every appended digit, so every prefix of
/// the digits of `n` reads back as at most `n`.
pub proof fn lemma_digits_val_prefix(s: Seq<char>, j: int)
    requires
        0 <= j <= s.len(),
    ensures
        digits_val(s.take(j)) <= digits_val(s),
    decreases s.len() - j,
{
    if j == s.len() {
        assert(s.take(j) =~= s);
    } else {
        lemma_digits_val_prefix(s, j + 1);
        assert(s.take(j + 1).drop_last() =~= s.take(j));
        assert(digits_val(s.take(j + 1)) == digits_val(s.take(j)) * 10 + char_digit(
            s.take(j + 1).last(),
        ));
    }
}

/// Appends one decimal digit.
fn digit_str(d: u64) -> (r: &'static str)
    requires
        d < 10,
    ensures
        r@ =~= seq![digit_char(d as nat)],
{
    proof {
        reveal_strlit("0");
        reveal_strlit("1");
        reveal_strlit("2");
        reveal_strlit("3");
        reveal_strlit("4");
        reveal_strlit("5");
        reveal_strlit("6");
        reveal_strlit("7");
        reveal_strlit("8");
        reveal_strlit("9");
    }
    if d == 0 {
        "0"
    } else if d == 1 {
        "1"
    } else if d == 2 {
        "2"
    } else if d == 3 {
        "3"
    } else if d == 4 {
        "4"
    } else if d == 5 {
        "5"
    } else if d == 6 {
        "6"
    } else if d == 7 {
        "7"
    } else if d == 8 {
        "8"
    } else {
        "9"
    }
}

/// The digit characters of a digit-value list, last value first.
spec fn rev_chars(ds: Seq<u64>) -> Seq<char>
    decreases ds.len(),
{
    if ds.len() == 0 {
        Seq::empty()
    } else {
        seq![digit_char(ds.last() as nat)] + rev_chars(ds.drop_last())
    }
}

/// `rev_chars` can also be peeled from the front of the value list.
proof fn lemma_rev_chars_first(ds: Seq<u64>)
    requires
        ds.len() >= 1,
    ensures
        rev_chars(ds) =~= rev_chars(ds.drop_first()) + seq![digit_char(ds.first() as nat)],
    decreases ds.len(),
{
    if ds.len() == 1 {
        assert(rev_chars(ds.drop_first()) =~= Seq::<char>::empty());
        assert(rev_chars(ds) =~= seq![digit_char(ds.last() as nat)] + rev_chars(ds.drop_last()));
        assert(rev_chars(ds.drop_last()) =~= Seq::<char>::empty());
        assert(rev_chars(ds) =~= seq![digit_char(ds.last() as nat)]);
        assert(ds.last() == ds.first());
    } else {
        lemma_rev_chars_first(ds.drop_last());
        assert(ds.drop_last().drop_first() =~= ds.drop_first().drop_last());
        assert(ds.drop_first().last() == ds.last());
        assert(ds.drop_last().first() == ds.first());
        assert(rev_chars(ds) =~= seq![digit_char(ds.last() as nat)] + rev_chars(ds.drop_last()));
        assert(rev_chars(ds.drop_first()) =~= seq![digit_char(ds.last() as nat)] + rev_chars(
            ds.drop_first().drop_last(),
        ));
    }
}

/// Appends the encoding of an unsigned number.
#[verifier::loop_isolation(false)]
fn append_u64(out: &mut String, n: u64)
    ensures
        final(out)@ == old(out)@ + enc_u64(n as nat),
{
    let mut ds: Vec<u64> = Vec::new();
    let mut cur: u64 = n;
    while cur >= 10
        invariant
            dec_digits(n as nat) =~= dec_digits(cur as nat) + rev_chars(ds@),
            forall|k: int| 0 <= k < ds@.len() ==> #[trigger] ds@[k] < 10,
        decreases cur,
    {
        let d = cur % 10;
        proof {
            assert(dec_digits(cur as nat) =~= dec_digits((cur / 10) as nat).push(digit_char(
                (cur % 10) as nat,
            )));
            assert(ds@.push(d).drop_last() =~= ds@);
            assert(ds@.push(d).last() == d);
            assert(rev_chars(ds@.push(d)) =~= seq![digit_char(d as nat)] + rev_chars(ds@));
            assert(dec_digits((cur / 10) as nat) + rev_chars(ds@.push(d)) =~= dec_digits(cur as nat)
                + rev_chars(ds@));
        }
        ds.push(d);
        cur = cur / 10;
    }
    proof {
        assert(dec_digits(cur as nat) =~= seq![digit_char(cur as nat)]);
        assert(ds@.push(cur).drop_last() =~= ds@);
        assert(ds@.push(cur).last() == cur);
        assert(rev_chars(ds@.push(cur)) =~= seq![digit_char(cur as nat)] + rev_chars(ds@));
        assert(dec_digits(n as nat) =~= rev_chars(ds@.push(cur)));
    }
    ds.push(cur);
    let m = ds.len();
    let mut i: usize = m;
    while i > 0
        invariant
            0 <= i <= m,
            m == ds@.len(),
            forall|k: int| 0 <= k < ds@.len() ==> #[trigger] ds@[k] < 10,
            out@ == old(out)@ + rev_chars(ds@.skip(i as int)),
        decreases i,
    {
        proof {
            assert(ds@.skip(i as int) =~= ds@.skip(i - 1).drop_first());
            lemma_rev_chars_first(ds@.skip(i - 1));
            assert(ds@.skip(i - 1).first() == ds@[i - 1]);
        }
        out.append(digit_str(ds[i - 1]));
        i = i - 1;
    }
    proof {
        assert(ds@.skip(0) =~= ds@);
    }
    out.append(";");
    proof {
        reveal_strlit(";");
        assert(";"@ =~= seq![';']);
        assert(old(out)@ + rev_chars(ds@) + seq![';'] =~= old(out)@ + enc_u64(n as nat));
    }
}

/// Appends the encoding of a signed number.
fn append_i64(out: &mut String, v: i64)
    ensures
        final(out)@ == old(out)@ + enc_i64(v as int),
{
    if v < 0 {
        out.append("-");
        proof {
            reveal_strlit("-");
            assert("-"@ =~= seq!['-']);
        }
        let m: u64 = if v == i64::MIN {
            9_223_372_036_854_775_808u64
        } else {
            (-v) as u64
        };
        append_u64(out, m);
        proof {
            assert(old(out)@ + seq!['-'] + enc_u64(m as nat) =~= old(out)@ + enc_i64(v as int));
        }
    } else {
        append_u64(out, v as u64);
    }
}

/// Parses one encoded unsigned number starting at character `pos`.
///
/// On any text whose tail at `pos` begins with a well-formed encoded number,
/// this returns exactly that number and the position after its terminator;
/// it returns `None` on anything else (no digits, a missing terminator, or a
/// value beyond 64 bits).
fn parse_u64(s: &str, pos: usize) -> (r: Option<(u64, usize)>)
    requires
        pos <= s@.len(),
    ensures
        forall|n: u64, rest: Seq<char>|
            s@.skip(pos as int) =~= #[trigger] (enc_u64(n as nat) + rest) ==> (r matches Some(x)
                && x.0 == n && x.1 == pos + enc_u64(n as nat).len()),
        r matches Some((n, p)) ==> pos < p <= s@.len(),
{
    let len = s.unicode_len();
    let mut p = pos;
    let mut acc: u64 = 0;
    let mut any = false;
    loop
        invariant
            pos <= p <= len,
            len == s@.len(),
            any ==> p > pos,
            !any ==> p == pos && acc == 0,
            acc == digits_val(s@.subrange(pos as int, p as int)),
            forall|i: int| pos <= i < p ==> char_digit(s@[i]) < 10,
        ensures
            pos <= p <= len,
            any ==> p > pos,
            !any ==> p == pos,
            acc == digits_val(s@.subrange(pos as int, p as int)),
            forall|i: int| pos <= i < p ==> char_digit(s@[i]) < 10,
            p == len || char_digit(s@[p as int]) >= 10,
        decreases len - p,
    {
        if p >= len {
            break;
        }
        let c = s.get_char(p);
        let d: u64 = match c {
            '0' => 0,
            '1' => 1,
            '2' => 2,
            '3' => 3,
            '4' => 4,
            '5' => 5,
            '6' => 6,
            '7' => 7,
            '8' => 8,
            '9' => 9,
            _ => 10,
        };
        proof {
            assert(d < 10 ==> char_digit(c) == d);
            assert(d >= 10 ==> char_digit(c) >= 10);
        }
        if d >= 10 {
            break;
        }
        if acc > 0x1999_9999_9999_9999 || (acc == 0x1999_9999_9999_9999 && d > 5) {
            // The number would not fit 64 bits; no well-formed encoding of a
            // 64-bit value reaches this state.
            proof {
                lemma_parse_overflow(s@, pos as int, p as int, acc, d);
            }
            return None;
        }
        proof {
            assert(s@.subrange(pos as int, p + 1).drop_last() =~= s@.subrange(
                pos as int,
                p as int,
            ));
        }
        acc = acc * 10 + d;
        p = p + 1;
        any = true;
    }
    if !any {
        proof {
            lemma_parse_no_digit(s@, pos as int);
        }
        return None;
    }
    if p >= len {
        proof {
            lemma_parse_no_terminator(s@, pos as int, p as int);
        }
        return None;
    }
    let c = s.get_char(p);
    if c != ';' {
        proof {
            lemma_parse_no_terminator(s@, pos as int, p as int);
        }
        return None;
    }
    proof {
        lemma_parse_u64_agrees(s@, pos as int, p as int);
    }
    Some((acc, p + 1))
}

/// What the text looks like where an encoded number sits: digits, then the
/// terminator.
proof fn lemma_enc_prefix_chars(s: Seq<char>, pos: int, n: u64, rest: Seq<char>)
    requires
        0 <= pos <= s.len(),
        s.skip(pos) == enc_u64(n as nat) + rest,
    ensures
        pos + dec_digits(n as nat).len() < s.len() || rest.len() == 0,
        pos + dec_digits(n as nat).len() + 1 <= s.len(),
        forall|i: int|
            0 <= i < dec_digits(n as nat).len() ==> s[pos + i] == #[trigger] dec_digits(
                n as nat,
            )[i],
        s[pos + dec_digits(n as nat).len()] == ';',
{
    let enc = enc_u64(n as nat);
    let digits = dec_digits(n as nat);
    let k = digits.len() as int;
    assert(s.skip(pos).len() == enc.len() + rest.len());
    assert(enc.len() == k + 1);
    assert forall|i: int| 0 <= i < k implies s[pos + i] == #[trigger] digits[i] by {
        assert(s.skip(pos)[i] == s[pos + i]);
        assert((enc + rest)[i] == enc[i]);
        assert(enc[i] == digits[i]);
    }
    assert(s.skip(pos)[k] == s[pos + k]);
    assert((enc + rest)[k] == enc[k]);
    assert(enc[k] == ';');
}

/// No encoded number starts with a non-digit.
proof fn lemma_parse_no_digit(s: Seq<char>, pos: int)
    requires
        0 <= pos <= s.len(),
        pos == s.len() || char_digit(s[pos]) >= 10,
    ensures
        forall|n: u64, rest: Seq<char>| !(s.skip(pos) =~= #[trigger] (enc_u64(n as nat) + rest)),
{
    assert forall|n: u64, rest: Seq<char>| !(s.skip(pos) =~= #[trigger] (enc_u64(n as nat) + rest)) by {
        if s.skip(pos) =~= enc_u64(n as nat) + rest {
            lemma_enc_prefix_chars(s, pos, n, rest);
            lemma_dec_digits_are_digits(n as nat);
            assert(s[pos + 0] == dec_digits(n as nat)[0]);
            assert(char_digit(s[pos]) < 10);
            assert(false);
        }
    }
}

/// A digit run that ends without a terminator is no encoded number.
proof fn lemma_parse_no_terminator(s: Seq<char>, pos: int, p: int)
    requires
        0 <= pos < p <= s.len(),
        forall|i: int| pos <= i < p ==> char_digit(#[trigger] s[i]) < 10,
        p == s.len() || (char_digit(s[p]) >= 10 && s[p] != ';'),
    ensures
        forall|n: u64, rest: Seq<char>| !(s.skip(pos) =~= #[trigger] (enc_u64(n as nat) + rest)),
{
    assert forall|n: u64, rest: Seq<char>| !(s.skip(pos) =~= #[trigger] (enc_u64(n as nat) + rest)) by {
        if s.skip(pos) =~= enc_u64(n as nat) + rest {
            lemma_enc_prefix_chars(s, pos, n, rest);
            let digits = dec_digits(n as nat);
            let k = digits.len() as int;
            lemma_dec_digits_are_digits(n as nat);
            assert(char_digit(';') >= 10);
            if p < pos + k {
                assert(s[p] == digits[p - pos]);
                assert(char_digit(digits[p - pos]) < 10);
                assert(false);
            }
            if p == pos + k {
                assert(s[p] == ';');
                assert(false);
            }
            assert(char_digit(s[pos + k]) < 10);
            assert(false);
        }
    }
}

/// A digit run whose next digit would overflow 64 bits is no encoding of a
/// 64-bit value.
proof fn lemma_parse_overflow(s: Seq<char>, pos: int, p: int, acc: u64, d: u64)
    requires
        0 <= pos <= p < s.len(),
        forall|i: int| pos <= i < p ==> char_digit(#[trigger] s[i]) < 10,
        char_digit(s[p]) == d,
        d < 10,
        acc == digits_val(s.subrange(pos, p)),
        acc * 10 + d > 0xffff_ffff_ffff_ffff,
    ensures
        forall|n: u64, rest: Seq<char>| !(s.skip(pos) =~= #[trigger] (enc_u64(n as nat) + rest)),
{
    assert forall|n: u64, rest: Seq<char>| !(s.skip(pos) =~= #[trigger] (enc_u64(n as nat) + rest)) by {
        if s.skip(pos) =~= enc_u64(n as nat) + rest {
            lemma_enc_prefix_chars(s, pos, n, rest);
            let digits = dec_digits(n as nat);
            let k = digits.len() as int;
            lemma_dec_digits_are_digits(n as nat);
            assert(char_digit(';') >= 10);
            if p == pos + k {
                assert(s[p] == ';');
                assert(false);
            }
            if p > pos + k {
                assert(char_digit(s[pos + k]) < 10);
                assert(false);
            }
            assert(s.subrange(pos, p) =~= digits.take(p - pos));
            assert(digits.take(p - pos + 1).drop_last() =~= digits.take(p - pos));
            assert(digits.take(p - pos + 1).last() == digits[p - pos]);
            assert(digits[p - pos] == s[p]);
            assert(char_digit(digits[p - pos]) == d);
            assert(digits_val(digits.take(p - pos + 1)) == acc * 10 + d);
            lemma_digits_val_prefix(digits, p - pos + 1);
            lemma_digits_val_inverse(n as nat);
            assert(acc * 10 + d <= n);
            assert(false);
        }
    }
}

/// If the tail of `s` at `pos` is a well-formed encoded number followed by
/// anything, then the digit run that ends at the first non-digit reads back
/// as exactly that number.
proof fn lemma_parse_u64_agrees(s: Seq<char>, pos: int, p: int)
    requires
        0 <= pos < p <= s.len(),
        forall|i: int| pos <= i < p ==> char_digit(#[trigger] s[i]) < 10,
        p < s.len(),
        char_digit(s[p]) >= 10,
    ensures
        forall|n: u64, rest: Seq<char>|
            s.skip(pos) =~= enc_u64(n as nat) + rest ==> digits_val(s.subrange(pos, p)) == n && p + 1
                - pos == enc_u64(n as nat).len(),
{
    assert forall|n: u64, rest: Seq<char>|
        s.skip(pos) =~= enc_u64(n as nat) + rest implies digits_val(s.subrange(pos, p)) == n && p + 1
        - pos == enc_u64(n as nat).len() by {
        lemma_enc_prefix_chars(s, pos, n, rest);
        let digits = dec_digits(n as nat);
        let k = digits.len() as int;
        lemma_dec_digits_are_digits(n as nat);
        // The terminator of the encoding is the first non-digit after pos,
        // so the digit run has exactly the encoding's length.
        assert(char_digit(';') >= 10);
        if p < pos + k {
            assert(s[p] == digits[p - pos]);
            assert(char_digit(digits[p - pos]) < 10);
            assert(false);
        }
        if p > pos + k {
            assert(char_digit(s[pos + k]) < 10);
            assert(false);
        }
        assert(s.subrange(pos, p) =~= digits);
        lemma_digits_val_inverse(n as nat);
    }
}


/// One encoded text field: its character count, then its characters.
pub open spec fn enc_str_field(t: Seq<char>) -> Seq<char> {
    enc_u64(t.len()) + t
}

/// The encoded elements of an unsigned list, in order.
pub open spec fn enc_u64_elems(s: Seq<u64>) -> Seq<char>
    decreases s.len(),
{
    if s.len() == 0 {
        Seq::empty()
    } else {
        enc_u64_elems(s.drop_last()) + enc_u64(s.last() as nat)
    }
}

/// One encoded unsigned list: its length, then its elements.
pub open spec fn enc_u64_list(s: Seq<u64>) -> Seq<char> {
    enc_u64(s.len()) + enc_u64_elems(s)
}

/// The encoded elements of a signed list, in order.
pub open spec fn enc_i64_elems(s: Seq<i64>) -> Seq<char>
    decreases s.len(),
{
    if s.len() == 0 {
        Seq::empty()
    } else {
        enc_i64_elems(s.drop_last()) + enc_i64(s.last() as int)
    }
}

/// One encoded signed list: its length, then its elements.
pub open spec fn enc_i64_list(s: Seq<i64>) -> Seq<char> {
    enc_u64(s.len()) + enc_i64_elems(s)
}

/// An optional unsigned list: a presence flag, then the list if present.
pub open spec fn enc_opt_u64_list(o: Option<Seq<u64>>) -> Seq<char> {
    match o {
        Option::None => enc_u64(0),
        Option::Some(s) => enc_u64(1) + enc_u64_list(s),
    }
}

/// An optional signed list: a presence flag, then the list if present.
pub open spec fn enc_opt_i64_list(o: Option<Seq<i64>>) -> Seq<char> {
    match o {
        Option::None => enc_u64(0),
        Option::Some(s) => enc_u64(1) + enc_i64_list(s),
    }
}

/// The view of an optional breakpoint list.
pub open spec fn opt_u64_view(o: Option<Vec<u64>>) -> Option<Seq<u64>> {
    match o {
        Option::None => Option::None,
        Option::Some(v) => Option::Some(v@),
    }
}

/// The view of an optional amplitude list.
pub open spec fn opt_i64_view(o: Option<Vec<i64>>) -> Option<Seq<i64>> {
    match o {
        Option::None => Option::None,
        Option::Some(v) => Option::Some(v@),
    }
}

/// The serialized text of a whole mask: name, description, the average
/// breakpoint lists, then the optional quasi-peak and peak lists.
pub open spec fn encode_spec(m: &EMCStandard) -> Seq<char> {
    enc_str_field(m.name@) + enc_str_field(m.description@) + enc_u64_list(m.f_avg_limit_mask@)
        + enc_i64_list(m.dbuv_avg_limit_mask@) + enc_opt_u64_list(opt_u64_view(m.f_qp_limit_mask))
        + enc_opt_i64_list(opt_i64_view(m.dbuv_qp_limit_mask)) + enc_opt_u64_list(
        opt_u64_view(m.f_pk_limit_mask),
    ) + enc_opt_i64_list(opt_i64_view(m.dbuv_pk_limit_mask))
}

/// An element encoding can be peeled from the front as well.
proof fn lemma_enc_u64_elems_first(s: Seq<u64>)
    requires
        s.len() >= 1,
    ensures
        enc_u64_elems(s) =~= enc_u64(s.first() as nat) + enc_u64_elems(s.drop_first()),
    decreases s.len(),
{
    if s.len() == 1 {
        assert(enc_u64_elems(s.drop_last()) =~= Seq::empty());
        assert(enc_u64_elems(s.drop_first()) =~= Seq::empty());
        assert(s.first() == s.last());
    } else {
        lemma_enc_u64_elems_first(s.drop_last());
        assert(s.drop_last().drop_first() =~= s.drop_first().drop_last());
        assert(s.drop_last().first() == s.first());
        assert(s.drop_first().last() == s.last());
        assert(enc_u64_elems(s.drop_first()) =~= enc_u64_elems(s.drop_first().drop_last())
            + enc_u64(s.last() as nat));
    }
}

/// An element encoding can be peeled from the front as well.
proof fn lemma_enc_i64_elems_first(s: Seq<i64>)
    requires
        s.len() >= 1,
    ensures
        enc_i64_elems(s) =~= enc_i64(s.first() as int) + enc_i64_elems(s.drop_first()),
    decreases s.len(),
{
    if s.len() == 1 {
        assert(enc_i64_elems(s.drop_last()) =~= Seq::empty());
        assert(enc_i64_elems(s.drop_first()) =~= Seq::empty());
        assert(s.first() == s.last());
    } else {
        lemma_enc_i64_elems_first(s.drop_last());
        assert(s.drop_last().drop_first() =~= s.drop_first().drop_last());
        assert(s.drop_last().first() == s.first());
        assert(s.drop_first().last() == s.last());
        assert(enc_i64_elems(s.drop_first()) =~= enc_i64_elems(s.drop_first().drop_last())
            + enc_i64(s.last() as int));
    }
}

/// Appends one encoded text field.
fn append_str_field(out: &mut String, t: &str)
    ensures
        final(out)@ == old(out)@ + enc_str_field(t@),
{
    let k = t.unicode_len();
    append_u64(out, k as u64);
    out.append(t);
    proof {
        assert(old(out)@ + enc_u64(t@.len()) + t@ =~= old(out)@ + enc_str_field(t@));
    }
}

/// Appends one encoded unsigned list.
#[verifier::loop_isolation(false)]
fn append_u64_list(out: &mut String, v: &Vec<u64>)
    ensures
        final(out)@ == old(out)@ + enc_u64_list(v@),
{
    append_u64(out, v.len() as u64);
    let ghost base = out@;
    let n = v.len();
    let mut i: usize = 0;
    while i < n
        invariant
            0 <= i <= n,
            out@ == base + enc_u64_elems(v@.take(i as int)),
        decreases n - i,
    {
        proof {
            assert(v@.take(i + 1).drop_last() =~= v@.take(i as int));
            assert(v@.take(i + 1).last() == v@[i as int]);
        }
        append_u64(out, v[i]);
        i = i + 1;
    }
    proof {
        assert(v@.take(n as int) =~= v@);
        assert(base + enc_u64_elems(v@) =~= old(out)@ + enc_u64_list(v@));
    }
}

/// Appends one encoded signed list.
#[verifier::loop_isolation(false)]
fn append_i64_list(out: &mut String, v: &Vec<i64>)
    ensures
        final(out)@ == old(out)@ + enc_i64_list(v@),
{
    append_u64(out, v.len() as u64);
    let ghost base = out@;
    let n = v.len();
    let mut i: usize = 0;
    while i < n
        invariant
            0 <= i <= n,
            out@ == base + enc_i64_elems(v@.take(i as int)),
        decreases n - i,
    {
        proof {
            assert(v@.take(i + 1).drop_last() =~= v@.take(i as int));
            assert(v@.take(i + 1).last() == v@[i as int]);
        }
        append_i64(out, v[i]);
        i = i + 1;
    }
    proof {
        assert(v@.take(n as int) =~= v@);
        assert(base + enc_i64_elems(v@) =~= old(out)@ + enc_i64_list(v@));
    }
}

/// Appends one optional unsigned list.
fn append_opt_u64_list(out: &mut String, v: &Option<Vec<u64>>)
    ensures
        final(out)@ == old(out)@ + enc_opt_u64_list(opt_u64_view(*v)),
{
    match v {
        Option::None => {
            append_u64(out, 0);
        },
        Option::Some(list) => {
            append_u64(out, 1);
            append_u64_list(out, list);
            proof {
                assert(old(out)@ + enc_u64(1) + enc_u64_list(list@) =~= old(out)@
                    + enc_opt_u64_list(opt_u64_view(*v)));
            }
        },
    }
}

/// Appends one optional signed list.
fn append_opt_i64_list(out: &mut String, v: &Option<Vec<i64>>)
    ensures
        final(out)@ == old(out)@ + enc_opt_i64_list(opt_i64_view(*v)),
{
    match v {
        Option::None => {
            append_u64(out, 0);
        },
        Option::Some(list) => {
            append_u64(out, 1);
            append_i64_list(out, list);
            proof {
                assert(old(out)@ + enc_u64(1) + enc_i64_list(list@) =~= old(out)@
                    + enc_opt_i64_list(opt_i64_view(*v)));
            }
        },
    }
}

/// Serializes a mask as text.
pub fn encode_standard(m: &EMCStandard) -> (r: String)
    ensures
        r@ == encode_spec(m),
{
    let mut out = String::new();
    append_str_field(&mut out, m.name.as_str());
    append_str_field(&mut out, m.description.as_str());
    append_u64_list(&mut out, &m.f_avg_limit_mask);
    append_i64_list(&mut out, &m.dbuv_avg_limit_mask);
    append_opt_u64_list(&mut out, &m.f_qp_limit_mask);
    append_opt_i64_list(&mut out, &m.dbuv_qp_limit_mask);
    append_opt_u64_list(&mut out, &m.f_pk_limit_mask);
    append_opt_i64_list(&mut out, &m.dbuv_pk_limit_mask);
    proof {
        assert(out@ =~= encode_spec(m));
    }
    out
}

/// The first character of a signed encoding tells the sign.
proof fn lemma_enc_i64_first(v: int)
    ensures
        enc_i64(v).len() >= 2,
        v < 0 ==> enc_i64(v)[0] == '-',
        v >= 0 ==> char_digit(enc_i64(v)[0]) < 10,
{
    if v < 0 {
        lemma_dec_digits_are_digits((-v) as nat);
    } else {
        lemma_dec_digits_are_digits(v as nat);
        assert(enc_i64(v)[0] == dec_digits(v as nat)[0]);
    }
}

/// Parses one encoded signed number starting at character `pos`.
fn parse_i64(s: &str, pos: usize) -> (r: Option<(i64, usize)>)
    requires
        pos <= s@.len(),
    ensures
        forall|v: i64, rest: Seq<char>|
            s@.skip(pos as int) =~= #[trigger] (enc_i64(v as int) + rest) ==> (r matches Some(x)
                && x.0 == v && x.1 == pos + enc_i64(v as int).len()),
        r matches Some((v, p)) ==> pos < p <= s@.len(),
{
    let len = s.unicode_len();
    if pos < len && s.get_char(pos) == '-' {
        let inner = parse_u64(s, pos + 1);
        proof {
            assert forall|v: i64, rest: Seq<char>|
                s@.skip(pos as int) =~= enc_i64(v as int) + rest implies v < 0 && s@.skip(
                pos + 1,
            ) =~= enc_u64((-v) as nat) + rest by {
                lemma_enc_i64_first(v as int);
                assert(s@.skip(pos as int)[0] == enc_i64(v as int)[0]);
                assert(s@[pos as int] == enc_i64(v as int)[0]);
                if v >= 0 {
                    assert(char_digit('-') >= 10);
                    assert(false);
                }
                assert(s@.skip(pos + 1) =~= s@.skip(pos as int).drop_first());
                assert((enc_i64(v as int) + rest).drop_first() =~= enc_u64((-v) as nat) + rest);
            }
        }
        match inner {
            Option::Some((m, p)) => {
                if m > 0x8000_0000_0000_0000 {
                    // Too large in magnitude for a signed 64-bit value.
                    return Option::None;
                }
                let v: i64 = if m == 0x8000_0000_0000_0000 {
                    i64::MIN
                } else {
                    -(m as i64)
                };
                Option::Some((v, p))
            },
            Option::None => Option::None,
        }
    } else {
        let inner = parse_u64(s, pos);
        proof {
            assert forall|v: i64, rest: Seq<char>|
                s@.skip(pos as int) =~= enc_i64(v as int) + rest implies v >= 0 && s@.skip(
                pos as int,
            ) =~= enc_u64(v as nat) + rest by {
                lemma_enc_i64_first(v as int);
                assert(s@.skip(pos as int).len() >= 2);
                assert(pos < s@.len());
                assert(s@.skip(pos as int)[0] == enc_i64(v as int)[0]);
                assert(s@[pos as int] == enc_i64(v as int)[0]);
                if v < 0 {
                    assert(s@[pos as int] == '-');
                    assert(false);
                }
            }
        }
        match inner {
            Option::Some((m, p)) => {
                if m > 0x7fff_ffff_ffff_ffff {
                    return Option::None;
                }
                Option::Some((m as i64, p))
            },
            Option::None => Option::None,
        }
    }
}

/// Parses one encoded text field starting at character `pos`.
fn parse_str_field(s: &str, pos: usize) -> (r: Option<(String, usize)>)
    requires
        pos <= s@.len(),
    ensures
        forall|t: Seq<char>, rest: Seq<char>|
            t.len() < 0x1_0000_0000_0000_0000 && s@.skip(pos as int) =~= #[trigger] (enc_str_field(
                t,
            ) + rest) ==> (r matches Some(x) && x.0@ == t && x.1 == pos + enc_str_field(t).len()),
        r matches Some(x) ==> pos < x.1 <= s@.len(),
{
    let len = s.unicode_len();
    let first = parse_u64(s, pos);
    proof {
        assert forall|t: Seq<char>, rest: Seq<char>|
            t.len() < 0x1_0000_0000_0000_0000 && s@.skip(pos as int) =~= enc_str_field(t) + rest
            implies s@.skip(pos as int) =~= enc_u64(t.len()) + (t + rest) by {
            assert(enc_str_field(t) + rest =~= enc_u64(t.len()) + (t + rest));
        }
    }
    match first {
        Option::Some((k, p1)) => {
            if k > (len - p1) as u64 {
                proof {
                    assert forall|t: Seq<char>, rest: Seq<char>|
                        !(t.len() < 0x1_0000_0000_0000_0000 && s@.skip(pos as int) =~= enc_str_field(
                            t,
                        ) + rest) by {
                        if t.len() < 0x1_0000_0000_0000_0000 && s@.skip(pos as int)
                            =~= enc_str_field(t) + rest {
                            assert(k == t.len());
                            assert(s@.skip(p1 as int).len() >= t.len());
                            assert(false);
                        }
                    }
                }
                return Option::None;
            }
            let p2 = p1 + (k as usize);
            let sub = s.substring_char(p1, p2);
            let owned = String::from_str(sub);
            proof {
                assert forall|t: Seq<char>, rest: Seq<char>|
                    t.len() < 0x1_0000_0000_0000_0000 && s@.skip(pos as int) =~= enc_str_field(t)
                        + rest implies owned@ == t && p2 == pos + enc_str_field(t).len() by {
                    assert(k == t.len());
                    assert(p1 == pos + enc_u64(t.len()).len());
                    assert forall|i: int| 0 <= i < t.len() implies s@[p1 + i] == t[i] by {
                        assert(s@.skip(pos as int)[(p1 - pos) + i] == s@[p1 + i]);
                        assert((enc_u64(t.len()) + (t + rest))[(p1 - pos) + i] == t[i]);
                    }
                    assert(owned@ =~= t);
                }
            }
            Option::Some((owned, p2))
        },
        Option::None => Option::None,
    }
}

/// Parses `count` encoded unsigned numbers starting at character `pos`.
fn parse_u64_elems(s: &str, pos: usize, count: usize) -> (r: Option<(Vec<u64>, usize)>)
    requires
        pos <= s@.len(),
    ensures
        forall|sv: Seq<u64>, rest: Seq<char>|
            sv.len() == count && s@.skip(pos as int) =~= #[trigger] (enc_u64_elems(sv) + rest) ==> (
            r matches Some(x) && x.0@ == sv && x.1 == pos + enc_u64_elems(sv).len()),
        r matches Some(x) ==> pos <= x.1 <= s@.len(),
    decreases count,
{
    if count == 0 {
        proof {
            assert forall|sv: Seq<u64>, rest: Seq<char>|
                sv.len() == count && s@.skip(pos as int) =~= #[trigger] (enc_u64_elems(sv) + rest)
                implies (Seq::<u64>::empty() == sv && enc_u64_elems(sv).len() == 0) by {
                assert(sv =~= Seq::<u64>::empty());
            }
        }
        return Option::Some((Vec::new(), pos));
    }
    let first = parse_u64(s, pos);
    proof {
        assert forall|sv: Seq<u64>, rest: Seq<char>|
            sv.len() == count && s@.skip(pos as int) =~= #[trigger] (enc_u64_elems(sv) + rest)
            implies s@.skip(pos as int) =~= enc_u64(sv.first() as nat) + (enc_u64_elems(
            sv.drop_first(),
        ) + rest) by {
            lemma_enc_u64_elems_first(sv);
            assert(enc_u64_elems(sv) + rest =~= enc_u64(sv.first() as nat) + (enc_u64_elems(
                sv.drop_first(),
            ) + rest));
        }
    }
    match first {
        Option::Some((x, p1)) => {
            let tail_r = parse_u64_elems(s, p1, count - 1);
            proof {
                assert forall|sv: Seq<u64>, rest: Seq<char>|
                    sv.len() == count && s@.skip(pos as int) =~= #[trigger] (enc_u64_elems(sv)
                        + rest) implies
                    x == sv.first() && sv.drop_first().len() == count - 1 && s@.skip(p1 as int)
                    =~= enc_u64_elems(sv.drop_first()) + rest by {
                    lemma_enc_u64_elems_first(sv);
                    assert(s@.skip(pos as int) =~= enc_u64(sv.first() as nat) + (enc_u64_elems(
                        sv.drop_first(),
                    ) + rest));
                    assert(p1 == pos + enc_u64(sv.first() as nat).len());
                    assert(s@.skip(p1 as int) =~= s@.skip(pos as int).skip(
                        enc_u64(sv.first() as nat).len() as int,
                    ));
                    assert((enc_u64(sv.first() as nat) + (enc_u64_elems(sv.drop_first())
                        + rest)).skip(enc_u64(sv.first() as nat).len() as int) =~= enc_u64_elems(
                        sv.drop_first(),
                    ) + rest);
                }
            }
            match tail_r {
                Option::Some((mut tail_v, p2)) => {
                    let ghost old_tail = tail_v@;
                    tail_v.insert(0, x);
                    proof {
                        assert forall|sv: Seq<u64>, rest: Seq<char>|
                            sv.len() == count && s@.skip(pos as int) =~= #[trigger] (enc_u64_elems(
                                sv,
                            ) + rest) implies tail_v@ == sv && p2 == pos + enc_u64_elems(sv).len() by {
                            lemma_enc_u64_elems_first(sv);
                            assert(s@.skip(pos as int) =~= enc_u64(sv.first() as nat) + (
                            enc_u64_elems(sv.drop_first()) + rest));
                            assert(x == sv.first() && s@.skip(p1 as int) =~= enc_u64_elems(
                                sv.drop_first(),
                            ) + rest);
                            assert(old_tail == sv.drop_first());
                            assert(p2 == p1 + enc_u64_elems(sv.drop_first()).len());
                            assert(tail_v@ =~= sv);
                        }
                    }
                    Option::Some((tail_v, p2))
                },
                Option::None => Option::None,
            }
        },
        Option::None => Option::None,
    }
}

/// Parses `count` encoded signed numbers starting at character `pos`.
fn parse_i64_elems(s: &str, pos: usize, count: usize) -> (r: Option<(Vec<i64>, usize)>)
    requires
        pos <= s@.len(),
    ensures
        forall|sv: Seq<i64>, rest: Seq<char>|
            sv.len() == count && s@.skip(pos as int) =~= #[trigger] (enc_i64_elems(sv) + rest) ==> (
            r matches Some(x) && x.0@ == sv && x.1 == pos + enc_i64_elems(sv).len()),
        r matches Some(x) ==> pos <= x.1 <= s@.len(),
    decreases count,
{
    if count == 0 {
        proof {
            assert forall|sv: Seq<i64>, rest: Seq<char>|
                sv.len() == count && s@.skip(pos as int) =~= #[trigger] (enc_i64_elems(sv) + rest)
                implies (Seq::<i64>::empty() == sv && enc_i64_elems(sv).len() == 0) by {
                assert(sv =~= Seq::<i64>::empty());
            }
        }
        return Option::Some((Vec::new(), pos));
    }
    let first = parse_i64(s, pos);
    proof {
        assert forall|sv: Seq<i64>, rest: Seq<char>|
            sv.len() == count && s@.skip(pos as int) =~= #[trigger] (enc_i64_elems(sv) + rest)
            implies s@.skip(pos as int) =~= enc_i64(sv.first() as int) + (enc_i64_elems(
            sv.drop_first(),
        ) + rest) by {
            lemma_enc_i64_elems_first(sv);
            assert(enc_i64_elems(sv) + rest =~= enc_i64(sv.first() as int) + (enc_i64_elems(
                sv.drop_first(),
            ) + rest));
        }
    }
    match first {
        Option::Some((x, p1)) => {
            let tail_r = parse_i64_elems(s, p1, count - 1);
            proof {
                assert forall|sv: Seq<i64>, rest: Seq<char>|
                    sv.len() == count && s@.skip(pos as int) =~= #[trigger] (enc_i64_elems(sv)
                        + rest) implies
                    x == sv.first() && sv.drop_first().len() == count - 1 && s@.skip(p1 as int)
                    =~= enc_i64_elems(sv.drop_first()) + rest by {
                    lemma_enc_i64_elems_first(sv);
                    assert(s@.skip(pos as int) =~= enc_i64(sv.first() as int) + (enc_i64_elems(
                        sv.drop_first(),
                    ) + rest));
                    assert(p1 == pos + enc_i64(sv.first() as int).len());
                    assert(s@.skip(p1 as int) =~= s@.skip(pos as int).skip(
                        enc_i64(sv.first() as int).len() as int,
                    ));
                    assert((enc_i64(sv.first() as int) + (enc_i64_elems(sv.drop_first())
                        + rest)).skip(enc_i64(sv.first() as int).len() as int) =~= enc_i64_elems(
                        sv.drop_first(),
                    ) + rest);
                }
            }
            match tail_r {
                Option::Some((mut tail_v, p2)) => {
                    let ghost old_tail = tail_v@;
                    tail_v.insert(0, x);
                    proof {
                        assert forall|sv: Seq<i64>, rest: Seq<char>|
                            sv.len() == count && s@.skip(pos as int) =~= #[trigger] (enc_i64_elems(
                                sv,
                            ) + rest) implies tail_v@ == sv && p2 == pos + enc_i64_elems(sv).len() by {
                            lemma_enc_i64_elems_first(sv);
                            assert(s@.skip(pos as int) =~= enc_i64(sv.first() as int) + (
                            enc_i64_elems(sv.drop_first()) + rest));
                            assert(x == sv.first() && s@.skip(p1 as int) =~= enc_i64_elems(
                                sv.drop_first(),
                            ) + rest);
                            assert(old_tail == sv.drop_first());
                            assert(p2 == p1 + enc_i64_elems(sv.drop_first()).len());
                            assert(tail_v@ =~= sv);
                        }
                    }
                    Option::Some((tail_v, p2))
                },
                Option::None => Option::None,
            }
        },
        Option::None => Option::None,
    }
}

/// Parses one encoded unsigned list starting at character `pos`.
fn parse_u64_list(s: &str, pos: usize) -> (r: Option<(Vec<u64>, usize)>)
    requires
        pos <= s@.len(),
    ensures
        forall|sv: Seq<u64>, rest: Seq<char>|
            sv.len() <= usize::MAX && s@.skip(pos as int) =~= #[trigger] (enc_u64_list(sv) + rest)
                ==> (r matches Some(x) && x.0@ == sv && x.1 == pos + enc_u64_list(sv).len()),
        r matches Some(x) ==> pos < x.1 <= s@.len(),
{
    let first = parse_u64(s, pos);
    proof {
        assert forall|sv: Seq<u64>, rest: Seq<char>|
            sv.len() <= usize::MAX && s@.skip(pos as int) =~= enc_u64_list(sv) + rest implies s@.skip(
            pos as int,
        ) =~= enc_u64(sv.len()) + (enc_u64_elems(sv) + rest) by {
            assert(enc_u64_list(sv) + rest =~= enc_u64(sv.len()) + (enc_u64_elems(sv) + rest));
        }
    }
    match first {
        Option::Some((count, p1)) => {
            if count > usize::MAX as u64 {
                return Option::None;
            }
            let elems = parse_u64_elems(s, p1, count as usize);
            proof {
                assert forall|sv: Seq<u64>, rest: Seq<char>|
                    sv.len() <= usize::MAX && s@.skip(pos as int) =~= enc_u64_list(sv) + rest
                    implies count == sv.len() && s@.skip(p1 as int) =~= enc_u64_elems(sv) + rest by {
                    assert(s@.skip(pos as int) =~= enc_u64(sv.len()) + (enc_u64_elems(sv) + rest));
                    assert(p1 == pos + enc_u64(sv.len()).len());
                    assert(s@.skip(p1 as int) =~= s@.skip(pos as int).skip(
                        enc_u64(sv.len()).len() as int,
                    ));
                    assert((enc_u64(sv.len()) + (enc_u64_elems(sv) + rest)).skip(
                        enc_u64(sv.len()).len() as int,
                    ) =~= enc_u64_elems(sv) + rest);
                }
            }
            match elems {
                Option::Some((v, p2)) => Option::Some((v, p2)),
                Option::None => Option::None,
            }
        },
        Option::None => Option::None,
    }
}

/// Parses one encoded signed list starting at character `pos`.
fn parse_i64_list(s: &str, pos: usize) -> (r: Option<(Vec<i64>, usize)>)
    requires
        pos <= s@.len(),
    ensures
        forall|sv: Seq<i64>, rest: Seq<char>|
            sv.len() <= usize::MAX && s@.skip(pos as int) =~= #[trigger] (enc_i64_list(sv) + rest)
                ==> (r matches Some(x) && x.0@ == sv && x.1 == pos + enc_i64_list(sv).len()),
        r matches Some(x) ==> pos < x.1 <= s@.len(),
{
    let first = parse_u64(s, pos);
    proof {
        assert forall|sv: Seq<i64>, rest: Seq<char>|
            sv.len() <= usize::MAX && s@.skip(pos as int) =~= enc_i64_list(sv) + rest implies s@.skip(
            pos as int,
        ) =~= enc_u64(sv.len()) + (enc_i64_elems(sv) + rest) by {
            assert(enc_i64_list(sv) + rest =~= enc_u64(sv.len()) + (enc_i64_elems(sv) + rest));
        }
    }
    match first {
        Option::Some((count, p1)) => {
            if count > usize::MAX as u64 {
                return Option::None;
            }
            let elems = parse_i64_elems(s, p1, count as usize);
            proof {
                assert forall|sv: Seq<i64>, rest: Seq<char>|
                    sv.len() <= usize::MAX && s@.skip(pos as int) =~= enc_i64_list(sv) + rest
                    implies count == sv.len() && s@.skip(p1 as int) =~= enc_i64_elems(sv) + rest by {
                    assert(s@.skip(pos as int) =~= enc_u64(sv.len()) + (enc_i64_elems(sv) + rest));
                    assert(p1 == pos + enc_u64(sv.len()).len());
                    assert(s@.skip(p1 as int) =~= s@.skip(pos as int).skip(
                        enc_u64(sv.len()).len() as int,
                    ));
                    assert((enc_u64(sv.len()) + (enc_i64_elems(sv) + rest)).skip(
                        enc_u64(sv.len()).len() as int,
                    ) =~= enc_i64_elems(sv) + rest);
                }
            }
            match elems {
                Option::Some((v, p2)) => Option::Some((v, p2)),
                Option::None => Option::None,
            }
        },
        Option::None => Option::None,
    }
}

/// Parses one encoded optional unsigned list starting at character `pos`.
fn parse_opt_u64_list(s: &str, pos: usize) -> (r: Option<(Option<Vec<u64>>, usize)>)
    requires
        pos <= s@.len(),
    ensures
        forall|o: Option<Seq<u64>>, rest: Seq<char>|
            (o matches Some(sv) ==> sv.len() <= usize::MAX) && s@.skip(pos as int) =~= #[trigger] (
            enc_opt_u64_list(o) + rest) ==> (r matches Some(x) && (x.0 is Some <==> o is Some) && (
            o matches Some(sv) ==> x.0 matches Some(xv) && xv@ == sv) && x.1 == pos
                + enc_opt_u64_list(o).len()),
        r matches Some(x) ==> pos < x.1 <= s@.len(),
{
    let flag_r = parse_u64(s, pos);
    proof {
        assert forall|o: Option<Seq<u64>>, rest: Seq<char>|
            (o matches Some(sv) ==> sv.len() <= usize::MAX) && s@.skip(pos as int) =~= #[trigger] (
        enc_opt_u64_list(o) + rest) implies (match o {
            Option::None => s@.skip(pos as int) =~= enc_u64(0) + rest,
            Option::Some(sv) => s@.skip(pos as int) =~= enc_u64(1) + (enc_u64_list(sv) + rest),
        }) by {
            match o {
                Option::None => {
                    assert(enc_opt_u64_list(o) + rest =~= enc_u64(0) + rest);
                },
                Option::Some(sv) => {
                    assert(enc_opt_u64_list(o) + rest =~= enc_u64(1) + (enc_u64_list(sv) + rest));
                },
            }
        }
    }
    match flag_r {
        Option::Some((flag, p1)) => {
            if flag == 0 {
                Option::Some((Option::None, p1))
            } else if flag == 1 {
                let list_r = parse_u64_list(s, p1);
                proof {
                    assert forall|o: Option<Seq<u64>>, rest: Seq<char>|
                        (o matches Some(sv) ==> sv.len() <= usize::MAX) && s@.skip(pos as int)
                            =~= #[trigger] (enc_opt_u64_list(o) + rest) implies (o matches Some(sv)
                        && p1 == pos + enc_u64(1).len() && s@.skip(p1 as int) =~= enc_u64_list(sv)
                        + rest) by {
                        match o {
                            Option::None => {
                                assert(s@.skip(pos as int) =~= enc_u64(0) + rest);
                                assert(false);
                            },
                            Option::Some(sv) => {
                                assert(s@.skip(pos as int) =~= enc_u64(1) + (enc_u64_list(sv)
                                    + rest));
                                assert(p1 == pos + enc_u64(1).len());
                                assert(s@.skip(p1 as int) =~= s@.skip(pos as int).skip(
                                    enc_u64(1).len() as int,
                                ));
                                assert((enc_u64(1) + (enc_u64_list(sv) + rest)).skip(
                                    enc_u64(1).len() as int,
                                ) =~= enc_u64_list(sv) + rest);
                            },
                        }
                    }
                }
                match list_r {
                    Option::Some((v, p2)) => Option::Some((Option::Some(v), p2)),
                    Option::None => Option::None,
                }
            } else {
                Option::None
            }
        },
        Option::None => Option::None,
    }
}

/// Parses one encoded optional signed list starting at character `pos`.
fn parse_opt_i64_list(s: &str, pos: usize) -> (r: Option<(Option<Vec<i64>>, usize)>)
    requires
        pos <= s@.len(),
    ensures
        forall|o: Option<Seq<i64>>, rest: Seq<char>|
            (o matches Some(sv) ==> sv.len() <= usize::MAX) && s@.skip(pos as int) =~= #[trigger] (
            enc_opt_i64_list(o) + rest) ==> (r matches Some(x) && (x.0 is Some <==> o is Some) && (
            o matches Some(sv) ==> x.0 matches Some(xv) && xv@ == sv) && x.1 == pos
                + enc_opt_i64_list(o).len()),
        r matches Some(x) ==> pos < x.1 <= s@.len(),
{
    let flag_r = parse_u64(s, pos);
    proof {
        assert forall|o: Option<Seq<i64>>, rest: Seq<char>|
            (o matches Some(sv) ==> sv.len() <= usize::MAX) && s@.skip(pos as int) =~= #[trigger] (
        enc_opt_i64_list(o) + rest) implies (match o {
            Option::None => s@.skip(pos as int) =~= enc_u64(0) + rest,
            Option::Some(sv) => s@.skip(pos as int) =~= enc_u64(1) + (enc_i64_list(sv) + rest),
        }) by {
            match o {
                Option::None => {
                    assert(enc_opt_i64_list(o) + rest =~= enc_u64(0) + rest);
                },
                Option::Some(sv) => {
                    assert(enc_opt_i64_list(o) + rest =~= enc_u64(1) + (enc_i64_list(sv) + rest));
                },
            }
        }
    }
    match flag_r {
        Option::Some((flag, p1)) => {
            if flag == 0 {
                Option::Some((Option::None, p1))
            } else if flag == 1 {
                let list_r = parse_i64_list(s, p1);
                proof {
                    assert forall|o: Option<Seq<i64>>, rest: Seq<char>|
                        (o matches Some(sv) ==> sv.len() <= usize::MAX) && s@.skip(pos as int)
                            =~= #[trigger] (enc_opt_i64_list(o) + rest) implies (o matches Some(sv)
                        && p1 == pos + enc_u64(1).len() && s@.skip(p1 as int) =~= enc_i64_list(sv)
                        + rest) by {
                        match o {
                            Option::None => {
                                assert(s@.skip(pos as int) =~= enc_u64(0) + rest);
                                assert(false);
                            },
                            Option::Some(sv) => {
                                assert(s@.skip(pos as int) =~= enc_u64(1) + (enc_i64_list(sv)
                                    + rest));
                                assert(p1 == pos + enc_u64(1).len());
                                assert(s@.skip(p1 as int) =~= s@.skip(pos as int).skip(
                                    enc_u64(1).len() as int,
                                ));
                                assert((enc_u64(1) + (enc_i64_list(sv) + rest)).skip(
                                    enc_u64(1).len() as int,
                                ) =~= enc_i64_list(sv) + rest);
                            },
                        }
                    }
                }
                match list_r {
                    Option::Some((v, p2)) => Option::Some((Option::Some(v), p2)),
                    Option::None => Option::None,
                }
            } else {
                Option::None
            }
        },
        Option::None => Option::None,
    }
}

/// The hypotheses under which decoding is pinned down: a text that is the
/// encoding of `m`, whose string fields are of encodable length.
pub open spec fn decodes_from(s: Seq<char>, m: &EMCStandard) -> bool {
    &&& m.name@.len() < 0x1_0000_0000_0000_0000
    &&& m.description@.len() < 0x1_0000_0000_0000_0000
    &&& s == encode_spec(m)
}

/// Deserializes a mask from text: the inverse of [`encode_standard`].
///
/// On the encoding of any mask this returns that mask back, field for field;
/// on any other text it returns `None`.
#[verifier::rlimit(100)]
pub fn decode_standard(s: &str) -> (r: Option<EMCStandard>)
    ensures
        forall|m: EMCStandard|
            #[trigger] decodes_from(s@, &m) ==> (r matches Some(d) && d.name@ == m.name@
                && d.description@ == m.description@ && d.f_avg_limit_mask@ == m.f_avg_limit_mask@
                && d.dbuv_avg_limit_mask@ == m.dbuv_avg_limit_mask@ && opt_u64_view(
                d.f_qp_limit_mask,
            ) == opt_u64_view(m.f_qp_limit_mask) && opt_i64_view(d.dbuv_qp_limit_mask)
                == opt_i64_view(m.dbuv_qp_limit_mask) && opt_u64_view(d.f_pk_limit_mask)
                == opt_u64_view(m.f_pk_limit_mask) && opt_i64_view(d.dbuv_pk_limit_mask)
                == opt_i64_view(m.dbuv_pk_limit_mask)),
{
    let r1 = parse_str_field(s, 0);
    proof {
        assert forall|m: EMCStandard| #[trigger] decodes_from(s@, &m) implies (r1 matches Some(x)
            && x.0@ == m.name@ && x.1 == enc_str_field(m.name@).len() && s@.skip(x.1 as int)
            =~= enc_str_field(m.description@) + (enc_u64_list(m.f_avg_limit_mask@) + (enc_i64_list(
            m.dbuv_avg_limit_mask@,
        ) + (enc_opt_u64_list(opt_u64_view(m.f_qp_limit_mask)) + (enc_opt_i64_list(
            opt_i64_view(m.dbuv_qp_limit_mask),
        ) + (enc_opt_u64_list(opt_u64_view(m.f_pk_limit_mask)) + enc_opt_i64_list(
            opt_i64_view(m.dbuv_pk_limit_mask),
        ))))))) by {
            let e1 = enc_str_field(m.name@);
            let rem = enc_str_field(m.description@) + (enc_u64_list(m.f_avg_limit_mask@) + (
            enc_i64_list(m.dbuv_avg_limit_mask@) + (enc_opt_u64_list(
                opt_u64_view(m.f_qp_limit_mask),
            ) + (enc_opt_i64_list(opt_i64_view(m.dbuv_qp_limit_mask)) + (enc_opt_u64_list(
                opt_u64_view(m.f_pk_limit_mask),
            ) + enc_opt_i64_list(opt_i64_view(m.dbuv_pk_limit_mask)))))));
            assert(s@.skip(0) =~= e1 + rem);
            assert(s@.skip(e1.len() as int) =~= (e1 + rem).skip(e1.len() as int));
            assert((e1 + rem).skip(e1.len() as int) =~= rem);
        }
    }
    let (name_v, p1) = match r1 {
        Option::Some(x) => x,
        Option::None => {
            return Option::None;
        },
    };
    let r2 = parse_str_field(s, p1);
    proof {
        assert forall|m: EMCStandard| #[trigger] decodes_from(s@, &m) implies (r2 matches Some(x)
            && x.0@ == m.description@ && x.1 == p1 + enc_str_field(m.description@).len()
            && s@.skip(x.1 as int) =~= enc_u64_list(m.f_avg_limit_mask@) + (enc_i64_list(
            m.dbuv_avg_limit_mask@,
        ) + (enc_opt_u64_list(opt_u64_view(m.f_qp_limit_mask)) + (enc_opt_i64_list(
            opt_i64_view(m.dbuv_qp_limit_mask),
        ) + (enc_opt_u64_list(opt_u64_view(m.f_pk_limit_mask)) + enc_opt_i64_list(
            opt_i64_view(m.dbuv_pk_limit_mask),
        )))))) by {
            let e2 = enc_str_field(m.description@);
            let rem = enc_u64_list(m.f_avg_limit_mask@) + (enc_i64_list(m.dbuv_avg_limit_mask@) + (
            enc_opt_u64_list(opt_u64_view(m.f_qp_limit_mask)) + (enc_opt_i64_list(
                opt_i64_view(m.dbuv_qp_limit_mask),
            ) + (enc_opt_u64_list(opt_u64_view(m.f_pk_limit_mask)) + enc_opt_i64_list(
                opt_i64_view(m.dbuv_pk_limit_mask),
            )))));
            assert(s@.skip(p1 as int) =~= e2 + rem);
            assert(s@.skip(p1 + e2.len()) =~= s@.skip(p1 as int).skip(e2.len() as int));
            assert((e2 + rem).skip(e2.len() as int) =~= rem);
        }
    }
    let (desc_v, p2) = match r2 {
        Option::Some(x) => x,
        Option::None => {
            return Option::None;
        },
    };
    let r3 = parse_u64_list(s, p2);
    proof {
        assert forall|m: EMCStandard| #[trigger] decodes_from(s@, &m) implies (r3 matches Some(x)
            && x.0@ == m.f_avg_limit_mask@ && x.1 == p2 + enc_u64_list(m.f_avg_limit_mask@).len()
            && s@.skip(x.1 as int) =~= enc_i64_list(m.dbuv_avg_limit_mask@) + (enc_opt_u64_list(
            opt_u64_view(m.f_qp_limit_mask),
        ) + (enc_opt_i64_list(opt_i64_view(m.dbuv_qp_limit_mask)) + (enc_opt_u64_list(
            opt_u64_view(m.f_pk_limit_mask),
        ) + enc_opt_i64_list(opt_i64_view(m.dbuv_pk_limit_mask)))))) by {
            assert(m.f_avg_limit_mask@.len() == m.f_avg_limit_mask.len());
            let e3 = enc_u64_list(m.f_avg_limit_mask@);
            let rem = enc_i64_list(m.dbuv_avg_limit_mask@) + (enc_opt_u64_list(
                opt_u64_view(m.f_qp_limit_mask),
            ) + (enc_opt_i64_list(opt_i64_view(m.dbuv_qp_limit_mask)) + (enc_opt_u64_list(
                opt_u64_view(m.f_pk_limit_mask),
            ) + enc_opt_i64_list(opt_i64_view(m.dbuv_pk_limit_mask)))));
            assert(s@.skip(p2 as int) =~= e3 + rem);
            assert(s@.skip(p2 + e3.len()) =~= s@.skip(p2 as int).skip(e3.len() as int));
            assert((e3 + rem).skip(e3.len() as int) =~= rem);
        }
    }
    let (avg_f, p3) = match r3 {
        Option::Some(x) => x,
        Option::None => {
            return Option::None;
        },
    };
    let r4 = parse_i64_list(s, p3);
    proof {
        assert forall|m: EMCStandard| #[trigger] decodes_from(s@, &m) implies (r4 matches Some(x)
            && x.0@ == m.dbuv_avg_limit_mask@ && x.1 == p3 + enc_i64_list(
            m.dbuv_avg_limit_mask@,
        ).len() && s@.skip(x.1 as int) =~= enc_opt_u64_list(opt_u64_view(m.f_qp_limit_mask)) + (
        enc_opt_i64_list(opt_i64_view(m.dbuv_qp_limit_mask)) + (enc_opt_u64_list(
            opt_u64_view(m.f_pk_limit_mask),
        ) + enc_opt_i64_list(opt_i64_view(m.dbuv_pk_limit_mask))))) by {
            assert(m.dbuv_avg_limit_mask@.len() == m.dbuv_avg_limit_mask.len());
            let e4 = enc_i64_list(m.dbuv_avg_limit_mask@);
            let rem = enc_opt_u64_list(opt_u64_view(m.f_qp_limit_mask)) + (enc_opt_i64_list(
                opt_i64_view(m.dbuv_qp_limit_mask),
            ) + (enc_opt_u64_list(opt_u64_view(m.f_pk_limit_mask)) + enc_opt_i64_list(
                opt_i64_view(m.dbuv_pk_limit_mask),
            )));
            assert(s@.skip(p3 as int) =~= e4 + rem);
            assert(s@.skip(p3 + e4.len()) =~= s@.skip(p3 as int).skip(e4.len() as int));
            assert((e4 + rem).skip(e4.len() as int) =~= rem);
        }
    }
    let (avg_a, p4) = match r4 {
        Option::Some(x) => x,
        Option::None => {
            return Option::None;
        },
    };
    let r5 = parse_opt_u64_list(s, p4);
    proof {
        assert forall|m: EMCStandard| #[trigger] decodes_from(s@, &m) implies (r5 matches Some(x)
            && (x.0 is Some <==> m.f_qp_limit_mask is Some) && (opt_u64_view(m.f_qp_limit_mask)
            matches Some(sv) ==> x.0 matches Some(xv) && xv@ == sv) && x.1 == p4 + enc_opt_u64_list(
            opt_u64_view(m.f_qp_limit_mask),
        ).len() && s@.skip(x.1 as int) =~= enc_opt_i64_list(opt_i64_view(m.dbuv_qp_limit_mask)) + (
        enc_opt_u64_list(opt_u64_view(m.f_pk_limit_mask)) + enc_opt_i64_list(
            opt_i64_view(m.dbuv_pk_limit_mask),
        ))) by {
            if m.f_qp_limit_mask is Some {
                let inner = m.f_qp_limit_mask.unwrap();
                assert(inner@.len() == inner.len());
            }
            let e5 = enc_opt_u64_list(opt_u64_view(m.f_qp_limit_mask));
            let rem = enc_opt_i64_list(opt_i64_view(m.dbuv_qp_limit_mask)) + (enc_opt_u64_list(
                opt_u64_view(m.f_pk_limit_mask),
            ) + enc_opt_i64_list(opt_i64_view(m.dbuv_pk_limit_mask)));
            assert(s@.skip(p4 as int) =~= e5 + rem);
            assert(s@.skip(p4 + e5.len()) =~= s@.skip(p4 as int).skip(e5.len() as int));
            assert((e5 + rem).skip(e5.len() as int) =~= rem);
        }
    }
    let (qp_f, p5) = match r5 {
        Option::Some(x) => x,
        Option::None => {
            return Option::None;
        },
    };
    let r6 = parse_opt_i64_list(s, p5);
    proof {
        assert forall|m: EMCStandard| #[trigger] decodes_from(s@, &m) implies (r6 matches Some(x)
            && (x.0 is Some <==> m.dbuv_qp_limit_mask is Some) && (opt_i64_view(
            m.dbuv_qp_limit_mask,
        ) matches Some(sv) ==> x.0 matches Some(xv) && xv@ == sv) && x.1 == p5 + enc_opt_i64_list(
            opt_i64_view(m.dbuv_qp_limit_mask),
        ).len() && s@.skip(x.1 as int) =~= enc_opt_u64_list(opt_u64_view(m.f_pk_limit_mask))
            + enc_opt_i64_list(opt_i64_view(m.dbuv_pk_limit_mask))) by {
            if m.dbuv_qp_limit_mask is Some {
                let inner = m.dbuv_qp_limit_mask.unwrap();
                assert(inner@.len() == inner.len());
            }
            let e6 = enc_opt_i64_list(opt_i64_view(m.dbuv_qp_limit_mask));
            let rem = enc_opt_u64_list(opt_u64_view(m.f_pk_limit_mask)) + enc_opt_i64_list(
                opt_i64_view(m.dbuv_pk_limit_mask),
            );
            assert(s@.skip(p5 as int) =~= e6 + rem);
            assert(s@.skip(p5 + e6.len()) =~= s@.skip(p5 as int).skip(e6.len() as int));
            assert((e6 + rem).skip(e6.len() as int) =~= rem);
        }
    }
    let (qp_a, p6) = match r6 {
        Option::Some(x) => x,
        Option::None => {
            return Option::None;
        },
    };
    let r7 = parse_opt_u64_list(s, p6);
    proof {
        assert forall|m: EMCStandard| #[trigger] decodes_from(s@, &m) implies (r7 matches Some(x)
            && (x.0 is Some <==> m.f_pk_limit_mask is Some) && (opt_u64_view(m.f_pk_limit_mask)
            matches Some(sv) ==> x.0 matches Some(xv) && xv@ == sv) && x.1 == p6 + enc_opt_u64_list(
            opt_u64_view(m.f_pk_limit_mask),
        ).len() && s@.skip(x.1 as int) =~= enc_opt_i64_list(opt_i64_view(m.dbuv_pk_limit_mask))
            + Seq::<char>::empty()) by {
            if m.f_pk_limit_mask is Some {
                let inner = m.f_pk_limit_mask.unwrap();
                assert(inner@.len() == inner.len());
            }
            let e7 = enc_opt_u64_list(opt_u64_view(m.f_pk_limit_mask));
            let rem = enc_opt_i64_list(opt_i64_view(m.dbuv_pk_limit_mask));
            assert(s@.skip(p6 as int) =~= e7 + rem);
            assert(s@.skip(p6 + e7.len()) =~= s@.skip(p6 as int).skip(e7.len() as int));
            assert((e7 + rem).skip(e7.len() as int) =~= rem);
            assert(rem =~= rem + Seq::<char>::empty());
        }
    }
    let (pk_f, p7) = match r7 {
        Option::Some(x) => x,
        Option::None => {
            return Option::None;
        },
    };
    let r8 = parse_opt_i64_list(s, p7);
    proof {
        assert forall|m: EMCStandard| #[trigger] decodes_from(s@, &m) implies (r8 matches Some(x)
            && (x.0 is Some <==> m.dbuv_pk_limit_mask is Some) && (opt_i64_view(
            m.dbuv_pk_limit_mask,
        ) matches Some(sv) ==> x.0 matches Some(xv) && xv@ == sv) && x.1 == p7 + enc_opt_i64_list(
            opt_i64_view(m.dbuv_pk_limit_mask),
        ).len() && x.1 == s@.len()) by {
            if m.dbuv_pk_limit_mask is Some {
                let inner = m.dbuv_pk_limit_mask.unwrap();
                assert(inner@.len() == inner.len());
            }
        }
    }
    let (pk_a, p8) = match r8 {
        Option::Some(x) => x,
        Option::None => {
            return Option::None;
        },
    };
    let len = s.unicode_len();
    if p8 != len {
        return Option::None;
    }
    Option::Some(
        EMCStandard {
            name: name_v,
            description: desc_v,
            f_avg_limit_mask: avg_f,
            dbuv_avg_limit_mask: avg_a,
            f_qp_limit_mask: qp_f,
            dbuv_qp_limit_mask: qp_a,
            f_pk_limit_mask: pk_f,
            dbuv_pk_limit_mask: pk_a,
        },
    )
}

} // verus!
