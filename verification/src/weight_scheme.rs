use vstd::prelude::*;
use crate::digits::{
    all_digits, append_pad, append_u64, dec_digits, dec_int, is_digit_char, lemma_dec_digits,
    lemma_pad_digits, lemma_str_val_nonneg, parse_i64_spec, parse_i64_chars,
    parse_u64_chars, parse_u64_spec, pow10, pow10_u64, str_val,
};
use crate::set::lemma_digits_no_char;
use crate::text::{
    chars_to_string, contains_char, first_index_of, lemma_first_index_of,
    lemma_first_index_unique, str_to_chars,
};
use crate::NotationError;

verus! {

// How a lift's working weight is derived.  The notation grammar, checked in
// this order, first match wins:
//   "any"              lifter's choice
//   "<mult>r<offset>"  derived from the program's reference weight; the
//                      offset may be "+12", "-12", or absent (then 0)
//   "add<amount>"      an independently tracked weight that ratchets up by
//                      `amount` on success
// A lift without any weight concept carries `NoWeight`, which prints as nothing.

/// An exact decimal multiplier: the value `mantissa / 10^scale`.  This is how
/// the crate holds numbers such as `3.14` from the notation text, with no
/// floating-point rounding; at most nineteen fractional digits are kept.
#[derive(Clone, Copy, Debug, PartialEq, Eq, Structural)]
pub struct Multiplier {
    pub mantissa: u64,
    pub scale: u32,
}

impl Multiplier {
    pub open spec fn wf(&self) -> bool {
        self.scale <= 19
    }

    /// A multiplier from a whole part and a fractional part of `scale` digits.
    pub fn new(mantissa: u64, scale: u32) -> (r: Multiplier)
        requires
            scale <= 19,
        ensures
            r == (Multiplier { mantissa, scale }),
            r.wf(),
    {
        Multiplier { mantissa, scale }
    }
}

#[derive(Clone, Copy, Debug, PartialEq, Eq, Structural)]
pub enum WeightScheme {
    BasedOnReference { multiplier: Multiplier, offset: i64 },
    Any,
    NoWeight,
    LinearBasedOnPrevious { amount_to_increase: u64 },
}

/// The canonical text of a multiplier: the fractional digits only when there
/// are any, zero-padded to the scale.
pub open spec fn format_multiplier_spec(m: Multiplier) -> Seq<char> {
    let p = pow10(m.scale as nat);
    if m.scale == 0 {
        dec_digits(m.mantissa as nat)
    } else {
        dec_digits((m.mantissa as nat / p) as nat) + seq!['.'] + pad_frac(m)
    }
}

pub open spec fn pad_frac(m: Multiplier) -> Seq<char> {
    crate::digits::pad_digits((m.mantissa as nat % pow10(m.scale as nat)) as nat, m.scale as nat)
}

/// What a span of text denotes as a multiplier, if anything: digits with at
/// most one decimal point.
pub open spec fn parse_multiplier_spec(t: Seq<char>) -> Option<Multiplier> {
    if contains_char(t, '.') {
        let i = first_index_of(t, '.');
        let l = t.subrange(0, i);
        let r = t.subrange(i + 1, t.len() as int);
        if l.len() >= 1 && all_digits(l) && r.len() >= 1 && all_digits(r) && r.len() <= 19
            && str_val(l) * pow10(r.len() as nat) + str_val(r) <= u64::MAX {
            Some(
                Multiplier {
                    mantissa: (str_val(l) * pow10(r.len() as nat) + str_val(r)) as u64,
                    scale: r.len() as u32,
                },
            )
        } else {
            None
        }
    } else {
        match parse_u64_spec(t) {
            Some(v) => Some(Multiplier { mantissa: v, scale: 0 }),
            None => None,
        }
    }
}

pub open spec fn any_weight_notation() -> Seq<char> {
    seq!['a', 'n', 'y']
}

pub open spec fn add_prefix() -> Seq<char> {
    seq!['a', 'd', 'd']
}

/// The canonical text of a weight scheme; `None` prints as nothing.
pub open spec fn format_weight_scheme_spec(w: WeightScheme) -> Seq<char> {
    match w {
        WeightScheme::BasedOnReference { multiplier, offset } => format_multiplier_spec(multiplier)
            + seq!['r'] + (if offset > 0 {
            seq!['+'] + dec_digits(offset as nat)
        } else if offset == 0 {
            Seq::<char>::empty()
        } else {
            dec_int(offset as int)
        }),
        WeightScheme::Any => any_weight_notation(),
        WeightScheme::NoWeight => Seq::<char>::empty(),
        WeightScheme::LinearBasedOnPrevious { amount_to_increase } => add_prefix() + dec_digits(
            amount_to_increase as nat,
        ),
    }
}

/// The offset read after the `r`: absent or unreadable text counts as zero.
pub open spec fn offset_of(t: Seq<char>) -> i64 {
    match parse_i64_spec(t) {
        Some(v) => v,
        None => 0,
    }
}

/// What a span of text denotes as a weight scheme, if anything.
pub open spec fn parse_weight_scheme_spec(t: Seq<char>) -> Option<WeightScheme> {
    if t == any_weight_notation() {
        Some(WeightScheme::Any)
    } else if contains_char(t, 'r') {
        let i = first_index_of(t, 'r');
        match parse_multiplier_spec(t.subrange(0, i)) {
            Some(m) => Some(
                WeightScheme::BasedOnReference {
                    multiplier: m,
                    offset: offset_of(t.subrange(i + 1, t.len() as int)),
                },
            ),
            None => None,
        }
    } else if t.len() >= 3 && t.subrange(0, 3) == add_prefix() {
        match parse_u64_spec(t.subrange(3, t.len() as int)) {
            Some(a) => Some(WeightScheme::LinearBasedOnPrevious { amount_to_increase: a }),
            None => None,
        }
    } else {
        None
    }
}

impl WeightScheme {
    /// Is this scheme well formed?  Only the multiplier's scale is bounded.
    pub open spec fn wf(&self) -> bool {
        match *self {
            WeightScheme::BasedOnReference { multiplier, offset } => multiplier.wf(),
            _ => true,
        }
    }

    /// Parse a weight scheme notation such as `"any"`, `"3.14r+12"`,
    /// `"3.14r-12"`, `"add10"`.
    pub fn parse(notation: &str) -> (r: Result<WeightScheme, NotationError>)
        ensures
            match parse_weight_scheme_spec(notation@) {
                Some(v) => r == Ok::<WeightScheme, NotationError>(v),
                None => r == Err::<WeightScheme, NotationError>(NotationError),
            },
    {
        let v = str_to_chars(notation);
        proof {
            assert(v@.subrange(0, v@.len() as int) =~= notation@);
        }
        parse_weight_scheme_chars(&v, 0, v.len())
    }

    /// The canonical text of this scheme.
    pub fn format(&self) -> (r: String)
        requires
            self.wf(),
        ensures
            r@ == format_weight_scheme_spec(*self),
    {
        let mut out: Vec<char> = Vec::new();
        append_weight_scheme(&mut out, self);
        chars_to_string(&out)
    }
}

/// Append the canonical text of a multiplier.
pub fn append_multiplier(out: &mut Vec<char>, m: &Multiplier)
    requires
        m.wf(),
    ensures
        final(out)@ == old(out)@ + format_multiplier_spec(*m),
{
    if m.scale == 0 {
        append_u64(out, m.mantissa);
    } else {
        let p = pow10_u64(m.scale);
        proof {
            crate::digits::lemma_pow10_monotone(0, m.scale as nat);
        }
        append_u64(out, m.mantissa / p);
        out.push('.');
        append_pad(out, m.mantissa % p, m.scale);
        proof {
            assert(final(out)@ =~= old(out)@ + format_multiplier_spec(*m));
        }
    }
}

/// Append the canonical text of a weight scheme.
pub fn append_weight_scheme(out: &mut Vec<char>, w: &WeightScheme)
    requires
        w.wf(),
    ensures
        final(out)@ == old(out)@ + format_weight_scheme_spec(*w),
{
    match w {
        WeightScheme::BasedOnReference { multiplier, offset } => {
            append_multiplier(out, multiplier);
            out.push('r');
            let off = *offset;
            if off > 0 {
                out.push('+');
                append_u64(out, off as u64);
            } else if off < 0 {
                out.push('-');
                let mag = (-(off as i128)) as u64;
                proof {
                    assert(mag == -(off as int));
                }
                append_u64(out, mag);
            }
            proof {
                assert(final(out)@ =~= old(out)@ + format_weight_scheme_spec(*w));
            }
        },
        WeightScheme::Any => {
            out.push('a');
            out.push('n');
            out.push('y');
            proof {
                assert(final(out)@ =~= old(out)@ + format_weight_scheme_spec(*w));
            }
        },
        WeightScheme::NoWeight => {
            proof {
                assert(final(out)@ =~= old(out)@ + format_weight_scheme_spec(*w));
            }
        },
        WeightScheme::LinearBasedOnPrevious { amount_to_increase } => {
            out.push('a');
            out.push('d');
            out.push('d');
            append_u64(out, *amount_to_increase);
            proof {
                assert(final(out)@ =~= old(out)@ + format_weight_scheme_spec(*w));
            }
        },
    }
}

/// Parse the span `[from, to)` of `v` as a multiplier.
pub fn parse_multiplier_chars(v: &Vec<char>, from: usize, to: usize) -> (r: Option<Multiplier>)
    requires
        from <= to <= v.len(),
    ensures
        r == parse_multiplier_spec(v@.subrange(from as int, to as int)),
        r is Some ==> r->0.wf(),
{
    let ghost t = v@.subrange(from as int, to as int);
    match crate::set::find_char_span(v, from, to, '.') {
        Some(i) => {
            proof {
                lemma_first_index_unique(t, '.', i - from);
            }
            let ghost l = t.subrange(0, i - from);
            let ghost rr = t.subrange(i - from + 1, t.len() as int);
            proof {
                assert(v@.subrange(from as int, i as int) =~= l);
                assert(v@.subrange(i + 1 as int, to as int) =~= rr);
            }
            let lv = parse_u64_chars(v, from, i);
            let rv = parse_u64_chars(v, i + 1, to);
            let w = to - (i + 1);
            match (lv, rv) {
                (Some(lv), Some(rv)) => {
                    if w > 19 {
                        proof {
                            lemma_no_mult_when_wide(l, rr, lv, rv);
                        }
                        return None;
                    }
                    let p = pow10_u64(w as u32);
                    proof {
                        crate::digits::lemma_pow10_monotone(0, w as nat);
                    }
                    if lv <= (u64::MAX - rv) / p {
                        proof {
                            assert(lv * p + rv <= u64::MAX) by (nonlinear_arith)
                                requires
                                    0 <= lv as int <= (u64::MAX as int - rv as int) / (p as int),
                                    p >= 1,
                                    0 <= rv <= u64::MAX,
                            ;
                            lemma_str_val_nonneg(l);
                            lemma_str_val_nonneg(rr);
                            assert(str_val(l) == lv && str_val(rr) == rv);
                        }
                        let mantissa = lv * p + rv;
                        Some(Multiplier { mantissa, scale: w as u32 })
                    } else {
                        proof {
                            assert(lv * p + rv > u64::MAX) by (nonlinear_arith)
                                requires
                                    lv as int > (u64::MAX as int - rv as int) / (p as int),
                                    lv >= 0,
                                    p >= 1,
                                    0 <= rv <= u64::MAX,
                            ;
                            lemma_str_val_nonneg(l);
                            lemma_str_val_nonneg(rr);
                            assert(str_val(l) == lv && str_val(rr) == rv);
                        }
                        None
                    }
                },
                (None, _) => {
                    proof {
                        lemma_no_mult_when_left_bad(l, rr);
                    }
                    None
                },
                (_, None) => {
                    proof {
                        lemma_no_mult_when_right_bad(l, rr);
                    }
                    None
                },
            }
        },
        None => {
            proof {
                assert(!contains_char(t, '.')) by {
                    if contains_char(t, '.') {
                        let i = choose|i: int| 0 <= i < t.len() && t[i] == '.';
                        assert(v@[from + i] == '.');
                    }
                }
            }
            match parse_u64_chars(v, from, to) {
                Some(n) => Some(Multiplier { mantissa: n, scale: 0 }),
                None => None,
            }
        },
    }
}

proof fn lemma_no_mult_when_wide(l: Seq<char>, rr: Seq<char>, lv: u64, rv: u64)
    requires
        parse_u64_spec(l) == Some(lv),
        parse_u64_spec(rr) == Some(rv),
        rr.len() > 19,
    ensures
        !(l.len() >= 1 && all_digits(l) && rr.len() >= 1 && all_digits(rr) && rr.len() <= 19
            && str_val(l) * pow10(rr.len() as nat) + str_val(rr) <= u64::MAX),
{
}

proof fn lemma_no_mult_when_left_bad(l: Seq<char>, rr: Seq<char>)
    requires
        parse_u64_spec(l) is None,
    ensures
        !(l.len() >= 1 && all_digits(l) && rr.len() >= 1 && all_digits(rr) && rr.len() <= 19
            && str_val(l) * pow10(rr.len() as nat) + str_val(rr) <= u64::MAX),
{
    if l.len() >= 1 && all_digits(l) && rr.len() >= 1 && all_digits(rr) && rr.len() <= 19
        && str_val(l) * pow10(rr.len() as nat) + str_val(rr) <= u64::MAX {
        // parse of the left part failed only because its own value overflows,
        // but then the combined mantissa overflows too
        assert(str_val(l) > u64::MAX);
        crate::digits::lemma_pow10_monotone(0, rr.len() as nat);
        lemma_str_val_nonneg(rr);
        assert(str_val(l) * pow10(rr.len() as nat) >= str_val(l)) by (nonlinear_arith)
            requires
                str_val(l) > 0,
                pow10(rr.len() as nat) >= 1,
        ;
    }
}

proof fn lemma_no_mult_when_right_bad(l: Seq<char>, rr: Seq<char>)
    requires
        parse_u64_spec(rr) is None,
    ensures
        !(l.len() >= 1 && all_digits(l) && rr.len() >= 1 && all_digits(rr) && rr.len() <= 19
            && str_val(l) * pow10(rr.len() as nat) + str_val(rr) <= u64::MAX),
{
    if l.len() >= 1 && all_digits(l) && rr.len() >= 1 && all_digits(rr) && rr.len() <= 19
        && str_val(l) * pow10(rr.len() as nat) + str_val(rr) <= u64::MAX {
        assert(str_val(rr) > u64::MAX);
        lemma_str_val_nonneg(l);
        crate::digits::lemma_pow10_monotone(0, rr.len() as nat);
        assert(str_val(l) * pow10(rr.len() as nat) >= 0) by (nonlinear_arith)
            requires
                str_val(l) >= 0,
                pow10(rr.len() as nat) >= 1,
        ;
    }
}

/// Parse the span `[from, to)` of `v` as a weight scheme notation.
pub fn parse_weight_scheme_chars(v: &Vec<char>, from: usize, to: usize) -> (r: Result<
    WeightScheme,
    NotationError,
>)
    requires
        from <= to <= v.len(),
    ensures
        match parse_weight_scheme_spec(v@.subrange(from as int, to as int)) {
            Some(w) => r == Ok::<WeightScheme, NotationError>(w) && w.wf(),
            None => r == Err::<WeightScheme, NotationError>(NotationError),
        },
{
    let ghost t = v@.subrange(from as int, to as int);
    if to - from == 3 && v[from] == 'a' && v[from + 1] == 'n' && v[from + 2] == 'y' {
        proof {
            assert(t =~= any_weight_notation());
        }
        return Ok(WeightScheme::Any);
    }
    proof {
        assert(t != any_weight_notation());
    }
    match crate::set::find_char_span(v, from, to, 'r') {
        Some(i) => {
            proof {
                lemma_first_index_unique(t, 'r', i - from);
                assert(v@.subrange(from as int, i as int) =~= t.subrange(0, i - from));
                assert(v@.subrange(i + 1 as int, to as int) =~= t.subrange(
                    i - from + 1,
                    t.len() as int,
                ));
            }
            match parse_multiplier_chars(v, from, i) {
                Some(m) => {
                    let off = match parse_i64_chars(v, i + 1, to) {
                        Some(o) => o,
                        None => 0,
                    };
                    Ok(WeightScheme::BasedOnReference { multiplier: m, offset: off })
                },
                None => Err(NotationError),
            }
        },
        None => {
            proof {
                assert(!contains_char(t, 'r')) by {
                    if contains_char(t, 'r') {
                        let i = choose|i: int| 0 <= i < t.len() && t[i] == 'r';
                        assert(v@[from + i] == 'r');
                    }
                }
            }
            if to - from >= 3 && v[from] == 'a' && v[from + 1] == 'd' && v[from + 2] == 'd' {
                proof {
                    assert(t.subrange(0, 3) =~= add_prefix());
                    assert(v@.subrange(from + 3 as int, to as int) =~= t.subrange(
                        3,
                        t.len() as int,
                    ));
                }
                match parse_u64_chars(v, from + 3, to) {
                    Some(a) => Ok(WeightScheme::LinearBasedOnPrevious { amount_to_increase: a }),
                    None => Err(NotationError),
                }
            } else {
                proof {
                    if t.len() >= 3 && t.subrange(0, 3) == add_prefix() {
                        assert(t[0] == 'a' && t[1] == 'd' && t[2] == 'd') by {
                            assert(t.subrange(0, 3)[0] == t[0]);
                            assert(t.subrange(0, 3)[1] == t[1]);
                            assert(t.subrange(0, 3)[2] == t[2]);
                        }
                        assert(v@[from as int] == 'a' && v@[from + 1] == 'd' && v@[from + 2]
                            == 'd');
                    }
                }
                Err(NotationError)
            }
        },
    }
}

/// Every character of a multiplier's canonical text is a digit or the point.
proof fn lemma_multiplier_chars(m: Multiplier)
    requires
        m.wf(),
    ensures
        forall|j: int|
            0 <= j < format_multiplier_spec(m).len() ==> (is_digit_char(
                #[trigger] format_multiplier_spec(m)[j],
            ) || format_multiplier_spec(m)[j] == '.'),
        format_multiplier_spec(m).len() >= 1,
        is_digit_char(format_multiplier_spec(m)[0]),
{
    let s = format_multiplier_spec(m);
    let p = pow10(m.scale as nat);
    if m.scale == 0 {
        lemma_dec_digits(m.mantissa as nat);
    } else {
        let w = dec_digits((m.mantissa as nat / p) as nat);
        lemma_dec_digits((m.mantissa as nat / p) as nat);
        crate::digits::lemma_pow10_monotone(0, m.scale as nat);
        assert(m.mantissa as nat % p < p) by (nonlinear_arith)
            requires
                p == pow10(m.scale as nat),
                p >= 1,
        ;
        lemma_pad_digits((m.mantissa as nat % p) as nat, m.scale as nat);
        assert forall|j: int| 0 <= j < s.len() implies (is_digit_char(s[j]) || s[j] == '.') by {
            if j < w.len() {
                assert(s[j] == w[j]);
            } else if j == w.len() {
                assert(s[j] == '.');
            } else {
                assert(s[j] == pad_frac(m)[j - w.len() - 1]);
            }
        }
        assert(s[0] == w[0]);
    }
}

/// Round trip: parsing the canonical text of any well-formed multiplier gives
/// it back.
pub proof fn lemma_multiplier_round_trip(m: Multiplier)
    requires
        m.wf(),
    ensures
        parse_multiplier_spec(format_multiplier_spec(m)) == Some(m),
{
    let s = format_multiplier_spec(m);
    let p = pow10(m.scale as nat);
    crate::digits::lemma_pow10_monotone(0, m.scale as nat);
    if m.scale == 0 {
        lemma_dec_digits(m.mantissa as nat);
        lemma_digits_no_char(s, '.');
    } else {
        let whole = m.mantissa as nat / p;
        let frac = m.mantissa as nat % p;
        let w = dec_digits(whole);
        lemma_dec_digits(whole);
        assert(frac < p) by (nonlinear_arith)
            requires
                frac == m.mantissa as nat % p,
                p >= 1,
        ;
        lemma_pad_digits(frac, m.scale as nat);
        let k = w.len() as int;
        assert(s[k] == '.');
        assert forall|j: int| 0 <= j < k implies s[j] != '.' by {
            assert(s[j] == w[j]);
        }
        lemma_first_index_unique(s, '.', k);
        let l = s.subrange(0, k);
        let rr = s.subrange(k + 1, s.len() as int);
        assert(l =~= w);
        assert(rr =~= pad_frac(m));
        assert(str_val(l) == whole);
        assert(str_val(rr) == frac);
        assert(rr.len() == m.scale);
        assert(whole * p + frac == m.mantissa) by (nonlinear_arith)
            requires
                whole == m.mantissa as nat / p,
                frac == m.mantissa as nat % p,
                p >= 1,
        ;
    }
}

/// Round trip: parsing the canonical text of any well-formed weight scheme
/// other than `None` gives that scheme back.  (`None` prints as the empty
/// string, which is not a notation; a lift simply omits its weight clause.)
pub proof fn lemma_weight_scheme_round_trip(v: WeightScheme)
    requires
        v.wf(),
        v != WeightScheme::NoWeight,
    ensures
        parse_weight_scheme_spec(format_weight_scheme_spec(v)) == Some(v),
{
    let s = format_weight_scheme_spec(v);
    match v {
        WeightScheme::Any => {},
        WeightScheme::NoWeight => {},
        WeightScheme::BasedOnReference { multiplier, offset } => {
            let fm = format_multiplier_spec(multiplier);
            lemma_multiplier_chars(multiplier);
            lemma_multiplier_round_trip(multiplier);
            let k = fm.len() as int;
            assert(s[0] == fm[0]);
            assert(s != any_weight_notation()) by {
                assert(!is_digit_char('a'));
            }
            assert(s[k] == 'r');
            assert forall|j: int| 0 <= j < k implies s[j] != 'r' by {
                assert(s[j] == fm[j]);
                assert(!is_digit_char('r'));
            }
            lemma_first_index_unique(s, 'r', k);
            assert(s.subrange(0, k) =~= fm);
            let rest = s.subrange(k + 1, s.len() as int);
            if offset > 0 {
                assert(rest =~= seq!['+'] + dec_digits(offset as nat));
                lemma_dec_digits(offset as nat);
                assert(rest[0] == '+');
                assert(rest.drop_first() =~= dec_digits(offset as nat));
                assert(offset_of(rest) == offset);
            } else if offset == 0 {
                assert(rest =~= Seq::<char>::empty());
                assert(offset_of(rest) == 0);
            } else {
                assert(rest =~= seq!['-'] + dec_digits((-offset) as nat));
                lemma_dec_digits((-offset) as nat);
                assert(rest[0] == '-');
                assert(rest.drop_first() =~= dec_digits((-offset) as nat));
                assert((-offset) as nat <= 0x8000_0000_0000_0000u64);
                assert(offset_of(rest) == offset);
            }
        },
        WeightScheme::LinearBasedOnPrevious { amount_to_increase } => {
            let d = dec_digits(amount_to_increase as nat);
            lemma_dec_digits(amount_to_increase as nat);
            assert(s.len() >= 4);
            assert(s != any_weight_notation());
            assert forall|j: int| 0 <= j < s.len() implies s[j] != 'r' by {
                if j < 3 {
                    assert(s[j] == add_prefix()[j]);
                } else {
                    assert(s[j] == d[j - 3]);
                    assert(!is_digit_char('r'));
                }
            }
            assert(!contains_char(s, 'r'));
            assert(s.subrange(0, 3) =~= add_prefix());
            assert(s.subrange(3, s.len() as int) =~= d);
        },
    }
}

/// The same law said of the text: a canonical weight-scheme notation survives
/// a parse followed by a format unchanged.
pub proof fn lemma_weight_scheme_format_parse(s: Seq<char>)
    requires
        exists|v: WeightScheme|
            format_weight_scheme_spec(v) == s && v.wf() && v != WeightScheme::NoWeight,
    ensures
        exists|v: WeightScheme| parse_weight_scheme_spec(s) == Some(v) && format_weight_scheme_spec(
            v,
        ) == s,
{
    let v = choose|v: WeightScheme|
        format_weight_scheme_spec(v) == s && v.wf() && v != WeightScheme::NoWeight;
    lemma_weight_scheme_round_trip(v);
}

/// Every character that can appear in a weight scheme's notation.
pub open spec fn is_weight_text_char(c: char) -> bool {
    is_digit_char(c) || c == '.' || c == 'r' || c == '+' || c == '-' || c == 'a' || c == 'n'
        || c == 'y' || c == 'd'
}

pub proof fn lemma_weight_text_chars(w: WeightScheme)
    requires
        w.wf(),
        w != WeightScheme::NoWeight,
    ensures
        format_weight_scheme_spec(w).len() >= 1,
        forall|j: int|
            0 <= j < format_weight_scheme_spec(w).len() ==> is_weight_text_char(
                #[trigger] format_weight_scheme_spec(w)[j],
            ),
{
    let s = format_weight_scheme_spec(w);
    match w {
        WeightScheme::Any => {
            assert forall|j: int| 0 <= j < s.len() implies is_weight_text_char(s[j]) by {
                assert(s[0] == 'a' && s[1] == 'n' && s[2] == 'y');
            }
        },
        WeightScheme::NoWeight => {},
        WeightScheme::LinearBasedOnPrevious { amount_to_increase } => {
            let d = dec_digits(amount_to_increase as nat);
            lemma_dec_digits(amount_to_increase as nat);
            assert forall|j: int| 0 <= j < s.len() implies is_weight_text_char(s[j]) by {
                if j < 3 {
                    assert(s[j] == add_prefix()[j]);
                } else {
                    assert(s[j] == d[j - 3]);
                }
            }
        },
        WeightScheme::BasedOnReference { multiplier, offset } => {
            let fm = format_multiplier_spec(multiplier);
            lemma_multiplier_chars(multiplier);
            let tail = if offset > 0 {
                seq!['+'] + dec_digits(offset as nat)
            } else if offset == 0 {
                Seq::<char>::empty()
            } else {
                dec_int(offset as int)
            };
            if offset > 0 {
                lemma_dec_digits(offset as nat);
            }
            if offset < 0 {
                lemma_dec_digits((-offset) as nat);
            }
            assert forall|j: int| 0 <= j < s.len() implies is_weight_text_char(s[j]) by {
                if j < fm.len() {
                    assert(s[j] == fm[j]);
                } else if j == fm.len() {
                    assert(s[j] == 'r');
                } else {
                    assert(s[j] == tail[j - fm.len() - 1]);
                    if offset > 0 {
                        if j - fm.len() - 1 >= 1 {
                            assert(tail[j - fm.len() - 1] == dec_digits(offset as nat)[j - fm.len()
                                - 2]);
                        }
                    } else if offset < 0 {
                        if j - fm.len() - 1 >= 1 {
                            assert(tail[j - fm.len() - 1] == dec_digits((-offset) as nat)[j
                                - fm.len() - 2]);
                        }
                    }
                }
            }
        },
    }
}

} // verus!
