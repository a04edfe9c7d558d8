use vstd::prelude::*;

verus! {

// Decimal digit strings: the mathematical form of every number that the
// notation grammars read or print, together with parsing and printing
// routines proved against it.

pub open spec fn is_digit_char(c: char) -> bool {
    48 <= c as u32 && c as u32 <= 57
}

/// Numeric value of one digit character.
pub open spec fn digit_val(c: char) -> int {
    c as u32 - 48
}

pub open spec fn digit_char(d: int) -> char {
    if d == 0 {
        '0'
    } else if d == 1 {
        '1'
    } else if d == 2 {
        '2'
    } else if d == 3 {
        '3'
    } else if d == 4 {
        '4'
    } else if d == 5 {
        '5'
    } else if d == 6 {
        '6'
    } else if d == 7 {
        '7'
    } else if d == 8 {
        '8'
    } else {
        '9'
    }
}

pub proof fn lemma_digit_char_val(d: int)
    requires
        0 <= d < 10,
    ensures
        is_digit_char(digit_char(d)),
        digit_val(digit_char(d)) == d,
{
}

pub proof fn lemma_digit_val_char(c: char)
    requires
        is_digit_char(c),
    ensures
        0 <= digit_val(c) < 10,
        digit_char(digit_val(c)) == c,
{
}

pub open spec fn all_digits(s: Seq<char>) -> bool {
    forall|i: int| 0 <= i < s.len() ==> is_digit_char(#[trigger] s[i])
}

/// Value of a digit string, most significant digit first.
pub open spec fn str_val(s: Seq<char>) -> int
    decreases s.len(),
{
    if s.len() == 0 {
        0
    } else {
        str_val(s.drop_last()) * 10 + digit_val(s.last())
    }
}

/// The shortest decimal form of a number: no leading zero except for zero itself.
pub open spec fn dec_digits(n: nat) -> Seq<char>
    decreases n,
{
    if n < 10 {
        seq![digit_char(n as int)]
    } else {
        dec_digits(n / 10).push(digit_char((n % 10) as int))
    }
}

pub open spec fn is_canonical_digits(s: Seq<char>) -> bool {
    &&& all_digits(s)
    &&& s.len() >= 1
    &&& (s.len() > 1 ==> s[0] != '0')
}

pub proof fn lemma_str_val_nonneg(s: Seq<char>)
    requires
        all_digits(s),
    ensures
        str_val(s) >= 0,
    decreases s.len(),
{
    if s.len() > 0 {
        lemma_str_val_nonneg(s.drop_last());
        assert(digit_val(s.last()) >= 0);
        assert(str_val(s.drop_last()) * 10 >= 0) by (nonlinear_arith)
            requires
                str_val(s.drop_last()) >= 0,
        ;
    }
}

pub proof fn lemma_dec_digits(n: nat)
    ensures
        is_canonical_digits(dec_digits(n)),
        str_val(dec_digits(n)) == n,
        n > 0 ==> dec_digits(n)[0] != '0',
        n < 10 <==> dec_digits(n).len() == 1,
    decreases n,
{
    if n < 10 {
        lemma_digit_char_val(n as int);
        let s = dec_digits(n);
        assert(s == seq![digit_char(n as int)]);
        assert(s.drop_last() =~= Seq::<char>::empty());
        assert(str_val(s.drop_last()) == 0);
        assert(s.last() == digit_char(n as int));
    } else {
        lemma_dec_digits(n / 10);
        lemma_digit_char_val((n % 10) as int);
        let t = dec_digits(n / 10);
        let s = t.push(digit_char((n % 10) as int));
        assert(s.drop_last() == t);
        assert(str_val(s) == str_val(t) * 10 + (n % 10));
        assert((n / 10) * 10 + n % 10 == n) by (nonlinear_arith)
            requires
                n >= 0,
        ;
        assert(s[0] == t[0]);
        assert(n / 10 > 0);
    }
}

/// A digit string's value is at least one when it does not start with '0'.
pub proof fn lemma_str_val_pos(s: Seq<char>)
    requires
        all_digits(s),
        s.len() >= 1,
        s[0] != '0',
    ensures
        str_val(s) >= 1,
    decreases s.len(),
{
    if s.len() == 1 {
        lemma_digit_val_char(s[0]);
        assert(digit_val(s[0]) != 0);
        assert(s.drop_last().len() == 0);
        assert(str_val(s.drop_last()) == 0);
        assert(s.last() == s[0]);
    } else {
        lemma_str_val_pos(s.drop_last());
        assert(str_val(s.drop_last()) * 10 >= 10) by (nonlinear_arith)
            requires
                str_val(s.drop_last()) >= 1,
        ;
        assert(digit_val(s.last()) >= 0);
    }
}

/// `dec_digits` inverts `str_val` on canonical digit strings.
pub proof fn lemma_dec_of_str_val(s: Seq<char>)
    requires
        is_canonical_digits(s),
    ensures
        dec_digits(str_val(s) as nat) == s,
    decreases s.len(),
{
    lemma_str_val_nonneg(s);
    if s.len() == 1 {
        lemma_digit_val_char(s[0]);
        assert(s.drop_last().len() == 0);
        assert(str_val(s.drop_last()) == 0);
        assert(s.last() == s[0]);
        assert(str_val(s) == digit_val(s[0]));
        assert(dec_digits(str_val(s) as nat) == seq![digit_char(digit_val(s[0]))]);
        assert(seq![s[0]] == s);
    } else {
        let t = s.drop_last();
        let d = digit_val(s.last());
        assert(t[0] == s[0]);
        lemma_str_val_pos(t);
        lemma_dec_of_str_val(t);
        lemma_digit_val_char(s.last());
        let v = str_val(t);
        assert(str_val(s) == v * 10 + d);
        assert(v * 10 + d >= 10) by (nonlinear_arith)
            requires
                v >= 1,
                d >= 0,
        ;
        assert((v * 10 + d) / 10 == v && (v * 10 + d) % 10 == d) by (nonlinear_arith)
            requires
                v >= 0,
                0 <= d < 10,
        ;
        assert(dec_digits(str_val(s) as nat) == dec_digits(v as nat).push(digit_char(d)));
        assert(t.push(s.last()) == s);
    }
}

/// Appending digits never lowers the value.
pub proof fn lemma_str_val_prefix(s: Seq<char>, i: int)
    requires
        all_digits(s),
        0 <= i <= s.len(),
    ensures
        str_val(s.take(i)) <= str_val(s),
    decreases s.len() - i,
{
    if i < s.len() {
        lemma_str_val_prefix(s, i + 1);
        let t = s.take(i + 1);
        assert(t.drop_last() == s.take(i));
        assert(forall|j: int| 0 <= j < t.len() ==> t[j] == s[j]);
        assert(all_digits(s.take(i)));
        lemma_str_val_nonneg(s.take(i));
        assert(str_val(t) == str_val(s.take(i)) * 10 + digit_val(t.last()));
        assert(str_val(s.take(i)) * 10 >= str_val(s.take(i))) by (nonlinear_arith)
            requires
                str_val(s.take(i)) >= 0,
        ;
        assert(digit_val(t.last()) >= 0);
    } else {
        assert(s.take(i) == s);
    }
}

/// What it means for a span of text to denote a `u64`: nonempty, all digits,
/// and small enough to fit.
pub open spec fn parse_u64_spec(t: Seq<char>) -> Option<u64> {
    if t.len() >= 1 && all_digits(t) && str_val(t) <= u64::MAX {
        Some(str_val(t) as u64)
    } else {
        None
    }
}

pub fn digit_to_char(d: u64) -> (c: char)
    requires
        d < 10,
    ensures
        c == digit_char(d as int),
{
    if d == 0 {
        '0'
    } else if d == 1 {
        '1'
    } else if d == 2 {
        '2'
    } else if d == 3 {
        '3'
    } else if d == 4 {
        '4'
    } else if d == 5 {
        '5'
    } else if d == 6 {
        '6'
    } else if d == 7 {
        '7'
    } else if d == 8 {
        '8'
    } else {
        '9'
    }
}

pub fn char_is_digit(c: char) -> (r: bool)
    ensures
        r == is_digit_char(c),
{
    let u = c as u32;
    48 <= u && u <= 57
}

/// Append the decimal form of `n`.
pub fn append_u64(out: &mut Vec<char>, n: u64)
    ensures
        final(out)@ == old(out)@ + dec_digits(n as nat),
    decreases n,
{
    if n < 10 {
        out.push(digit_to_char(n));
        proof {
            assert(old(out)@ + dec_digits(n as nat) == old(out)@.push(digit_char(n as int)));
        }
    } else {
        append_u64(out, n / 10);
        out.push(digit_to_char(n % 10));
        proof {
            assert(old(out)@ + dec_digits(n as nat) == (old(out)@ + dec_digits(
                n as nat / 10,
            )).push(digit_char((n % 10) as int)));
        }
    }
}

/// Parse the span `[from, to)` as a `u64`.
pub fn parse_u64_chars(s: &Vec<char>, from: usize, to: usize) -> (r: Option<u64>)
    requires
        from <= to <= s.len(),
    ensures
        r == parse_u64_spec(s@.subrange(from as int, to as int)),
{
    let ghost t = s@.subrange(from as int, to as int);
    if from == to {
        return None;
    }
    let mut acc: u64 = 0;
    let mut i: usize = from;
    while i < to
        invariant
            from <= i <= to <= s.len(),
            t == s@.subrange(from as int, to as int),
            all_digits(t.take(i - from)),
            acc == str_val(t.take(i - from)),
        decreases to - i,
    {
        let c = s[i];
        proof {
            assert(c == t[i - from]);
        }
        if !char_is_digit(c) {
            proof {
                assert(!all_digits(t));
            }
            return None;
        }
        let d: u64 = (c as u32 - 48) as u64;
        proof {
            lemma_digit_val_char(c);
            assert(d == digit_val(c));
        }
        let ghost prev = str_val(t.take(i - from));
        proof {
            assert(t.take(i + 1 - from).drop_last() == t.take(i - from));
            assert(t.take(i + 1 - from).last() == t[i - from]);
            assert(str_val(t.take(i + 1 - from)) == prev * 10 + d);
            lemma_str_val_nonneg(t.take(i - from));
        }
        if acc > (u64::MAX - d) / 10 {
            proof {
                assert(prev * 10 + d > u64::MAX) by (nonlinear_arith)
                    requires
                        prev > (u64::MAX - d) / 10,
                        prev >= 0,
                        0 <= d < 10,
                        u64::MAX == 0xffff_ffff_ffff_ffffu64,
                ;
                if all_digits(t) && str_val(t) <= u64::MAX {
                    lemma_str_val_prefix(t, i + 1 - from);
                }
            }
            return None;
        }
        proof {
            assert(prev * 10 + d <= u64::MAX) by (nonlinear_arith)
                requires
                    0 <= prev <= (u64::MAX - d) / 10,
                    0 <= d < 10,
                    u64::MAX == 0xffff_ffff_ffff_ffffu64,
            ;
            assert(forall|j: int|
                0 <= j < i + 1 - from ==> #[trigger] t.take(i + 1 - from)[j] == t.take(i - from + 1)[j]);
        }
        acc = acc * 10 + d;
        i = i + 1;
    }
    proof {
        assert(t.take(to - from) == t);
        lemma_str_val_nonneg(t);
    }
    Some(acc)
}

/// The decimal form of a signed number: a minus sign when negative.
pub open spec fn dec_int(v: int) -> Seq<char> {
    if v < 0 {
        seq!['-'] + dec_digits((-v) as nat)
    } else {
        dec_digits(v as nat)
    }
}

/// What it means for a span of text to denote an `i64`: an optional sign
/// followed by digits, in range.
pub open spec fn parse_i64_spec(t: Seq<char>) -> Option<i64> {
    if t.len() >= 1 && t[0] == '-' {
        match parse_u64_spec(t.drop_first()) {
            Some(v) => if v <= 0x8000_0000_0000_0000u64 {
                Some((-(v as int)) as i64)
            } else {
                None
            },
            None => None,
        }
    } else if t.len() >= 1 && t[0] == '+' {
        match parse_u64_spec(t.drop_first()) {
            Some(v) => if v <= i64::MAX as u64 {
                Some(v as i64)
            } else {
                None
            },
            None => None,
        }
    } else {
        match parse_u64_spec(t) {
            Some(v) => if v <= i64::MAX as u64 {
                Some(v as i64)
            } else {
                None
            },
            None => None,
        }
    }
}

/// Parse the span `[from, to)` as an `i64`.
pub fn parse_i64_chars(s: &Vec<char>, from: usize, to: usize) -> (r: Option<i64>)
    requires
        from <= to <= s.len(),
    ensures
        r == parse_i64_spec(s@.subrange(from as int, to as int)),
{
    let ghost t = s@.subrange(from as int, to as int);
    if from == to {
        return None;
    }
    let c0 = s[from];
    if c0 == '-' {
        proof {
            assert(t.drop_first() == s@.subrange(from + 1 as int, to as int));
        }
        match parse_u64_chars(s, from + 1, to) {
            Some(v) => {
                if v <= 0x8000_0000_0000_0000u64 {
                    if v == 0x8000_0000_0000_0000u64 {
                        Some(i64::MIN)
                    } else {
                        Some(-(v as i64))
                    }
                } else {
                    None
                }
            },
            None => None,
        }
    } else if c0 == '+' {
        proof {
            assert(t.drop_first() == s@.subrange(from + 1 as int, to as int));
        }
        match parse_u64_chars(s, from + 1, to) {
            Some(v) => {
                if v <= (i64::MAX as u64) {
                    Some(v as i64)
                } else {
                    None
                }
            },
            None => None,
        }
    } else {
        match parse_u64_chars(s, from, to) {
            Some(v) => {
                if v <= (i64::MAX as u64) {
                    Some(v as i64)
                } else {
                    None
                }
            },
            None => None,
        }
    }
}

/// Powers of ten.
pub open spec fn pow10(w: nat) -> nat
    decreases w,
{
    if w == 0 {
        1
    } else {
        10 * pow10((w - 1) as nat)
    }
}

/// `n` printed as exactly `w` digits, leading zeros included.
pub open spec fn pad_digits(n: nat, w: nat) -> Seq<char>
    decreases w,
{
    if w == 0 {
        Seq::<char>::empty()
    } else {
        pad_digits(n / 10, (w - 1) as nat).push(digit_char((n % 10) as int))
    }
}

pub proof fn lemma_pad_digits(n: nat, w: nat)
    requires
        n < pow10(w),
    ensures
        pad_digits(n, w).len() == w,
        all_digits(pad_digits(n, w)),
        str_val(pad_digits(n, w)) == n,
    decreases w,
{
    if w > 0 {
        assert(n / 10 < pow10((w - 1) as nat)) by (nonlinear_arith)
            requires
                n < 10 * pow10((w - 1) as nat),
                n >= 0,
                pow10((w - 1) as nat) >= 0,
        ;
        lemma_pad_digits(n / 10, (w - 1) as nat);
        lemma_digit_char_val((n % 10) as int);
        let t = pad_digits(n / 10, (w - 1) as nat);
        let s = t.push(digit_char((n % 10) as int));
        assert(s.drop_last() == t);
        assert(str_val(s) == (n / 10) * 10 + n % 10);
        assert((n / 10) * 10 + n % 10 == n) by (nonlinear_arith)
            requires
                n >= 0,
        ;
    }
}

/// `pad_digits` inverts `str_val` on any all-digit string.
pub proof fn lemma_pad_of_str_val(s: Seq<char>)
    requires
        all_digits(s),
    ensures
        str_val(s) < pow10(s.len() as nat),
        pad_digits(str_val(s) as nat, s.len() as nat) == s,
    decreases s.len(),
{
    lemma_str_val_nonneg(s);
    if s.len() == 0 {
        assert(pad_digits(0, 0) == Seq::<char>::empty());
        assert(s == Seq::<char>::empty());
    } else {
        let t = s.drop_last();
        let d = digit_val(s.last());
        lemma_pad_of_str_val(t);
        lemma_digit_val_char(s.last());
        let v = str_val(t);
        assert(str_val(s) == v * 10 + d);
        assert(v * 10 + d < 10 * pow10(t.len() as nat)) by (nonlinear_arith)
            requires
                v < pow10(t.len() as nat),
                v >= 0,
                0 <= d < 10,
        ;
        assert(pow10(s.len() as nat) == 10 * pow10(t.len() as nat));
        assert((v * 10 + d) / 10 == v && (v * 10 + d) % 10 == d) by (nonlinear_arith)
            requires
                v >= 0,
                0 <= d < 10,
        ;
        assert(pad_digits(str_val(s) as nat, s.len() as nat) == pad_digits(
            v as nat,
            t.len() as nat,
        ).push(digit_char(d)));
        assert(t.push(s.last()) == s);
    }
}

/// Ten to the `w`, computed at run time.
pub fn pow10_u64(w: u32) -> (r: u64)
    requires
        w <= 19,
    ensures
        r == pow10(w as nat),
{
    proof {
        reveal_with_fuel(pow10, 20);
        assert(pow10(19) == 10_000_000_000_000_000_000);
    }
    let mut r: u64 = 1;
    let mut i: u32 = 0;
    while i < w
        invariant
            0 <= i <= w <= 19,
            r == pow10(i as nat),
        decreases w - i,
    {
        proof {
            reveal_with_fuel(pow10, 20);
            assert(pow10(19) == 10_000_000_000_000_000_000);
            lemma_pow10_monotone(i as nat + 1, 19);
            assert(pow10(i as nat + 1) == 10 * pow10(i as nat));
        }
        r = r * 10;
        i = i + 1;
    }
    r
}

pub proof fn lemma_pow10_monotone(a: nat, b: nat)
    requires
        a <= b,
    ensures
        pow10(a) <= pow10(b),
        pow10(a) >= 1,
    decreases b,
{
    if a == b {
        if a > 0 {
            lemma_pow10_monotone((a - 1) as nat, (b - 1) as nat);
        }
    } else {
        lemma_pow10_monotone(a, (b - 1) as nat);
    }
}

/// Append `n` as exactly `w` digits, leading zeros included.
pub fn append_pad(out: &mut Vec<char>, n: u64, w: u32)
    ensures
        final(out)@ == old(out)@ + pad_digits(n as nat, w as nat),
    decreases w,
{
    if w == 0 {
        proof {
            assert(old(out)@ + pad_digits(n as nat, 0) == old(out)@);
        }
    } else {
        append_pad(out, n / 10, w - 1);
        out.push(digit_to_char(n % 10));
        proof {
            assert(old(out)@ + pad_digits(n as nat, w as nat) == (old(out)@ + pad_digits(
                n as nat / 10,
                (w - 1) as nat,
            )).push(digit_char((n as nat % 10) as int)));
        }
    }
}

/// Only one number's canonical digits can stand at a position whose tail
/// starts with something other than a digit.
pub proof fn lemma_dec_digits_unique(
    v: Seq<char>,
    pos: int,
    n1: nat,
    t1: Seq<char>,
    n2: nat,
    t2: Seq<char>,
)
    requires
        0 <= pos <= v.len(),
        v.skip(pos) == dec_digits(n1) + t1,
        v.skip(pos) == dec_digits(n2) + t2,
        t1.len() > 0 ==> !is_digit_char(t1[0]),
        t2.len() > 0 ==> !is_digit_char(t2[0]),
    ensures
        n1 == n2,
        t1 == t2,
{
    let d1 = dec_digits(n1);
    let d2 = dec_digits(n2);
    lemma_dec_digits(n1);
    lemma_dec_digits(n2);
    assert((d1 + t1).len() == d1.len() + t1.len());
    assert((d2 + t2).len() == d2.len() + t2.len());
    if d1.len() < d2.len() {
        assert(t1.len() > 0);
        assert((d1 + t1)[d1.len() as int] == t1[0]);
        assert((d2 + t2)[d1.len() as int] == d2[d1.len() as int]);
        assert(is_digit_char(d2[d1.len() as int]));
    }
    if d1.len() > d2.len() {
        assert(t2.len() > 0);
        assert((d2 + t2)[d2.len() as int] == t2[0]);
        assert((d1 + t1)[d2.len() as int] == d1[d2.len() as int]);
        assert(is_digit_char(d1[d2.len() as int]));
    }
    assert(d1.len() == d2.len());
    assert forall|j: int| 0 <= j < d1.len() implies d1[j] == d2[j] by {
        assert((d1 + t1)[j] == d1[j]);
        assert((d2 + t2)[j] == d2[j]);
    }
    assert(d1 =~= d2);
    assert(str_val(d1) == str_val(d2));
    assert forall|j: int| 0 <= j < t1.len() implies t1[j] == t2[j] by {
        assert((d1 + t1)[d1.len() + j] == t1[j]);
        assert((d2 + t2)[d2.len() + j] == t2[j]);
    }
    assert(t1.len() == t2.len());
    assert(t1 =~= t2);
}

} // verus!
