use vstd::prelude::*;
use crate::digits::{
    all_digits, dec_digits, is_digit_char, lemma_dec_digits, parse_u64_chars, parse_u64_spec,
    append_u64,
};
use crate::text::{
    chars_to_string, contains_char, first_index_of, lemma_first_index_unique, str_to_chars,
};
use crate::NotationError;

verus! {

// One prescribed set of a lift: how many reps (or seconds) it asks for.
// The notation grammar, checked in this order, first match wins:
//   "Any"          no rep target
//   "min-max"      a rep range
//   "min+"         as many reps as possible, floor only
//   "secs s"       a timed hold, written like "30s"
//   "reps"         an exact count

#[derive(Clone, Copy, Debug, PartialEq, Eq, Structural)]
pub enum RepSet {
    Amrap { minimum_reps: u64 },
    Range { maximum_reps: u64, minimum_reps: u64 },
    Any,
    Defined { reps: u64 },
    Time { seconds: u64 },
}

/// The literal that denotes a set without a rep target.
pub open spec fn any_notation() -> Seq<char> {
    seq!['A', 'n', 'y']
}

/// The canonical text of one set.
pub open spec fn format_set_spec(v: RepSet) -> Seq<char> {
    match v {
        RepSet::Amrap { minimum_reps } => dec_digits(minimum_reps as nat) + seq!['+'],
        RepSet::Range { maximum_reps, minimum_reps } => dec_digits(minimum_reps as nat)
            + seq!['-'] + dec_digits(maximum_reps as nat),
        RepSet::Any => any_notation(),
        RepSet::Defined { reps } => dec_digits(reps as nat),
        RepSet::Time { seconds } => dec_digits(seconds as nat) + seq!['s'],
    }
}

/// What a span of text denotes as a set, if anything.
pub open spec fn parse_set_spec(t: Seq<char>) -> Option<RepSet> {
    if t == any_notation() {
        Some(RepSet::Any)
    } else if contains_char(t, '-') {
        let i = first_index_of(t, '-');
        match (parse_u64_spec(t.subrange(0, i)), parse_u64_spec(
            t.subrange(i + 1, t.len() as int),
        )) {
            (Some(mn), Some(mx)) => Some(RepSet::Range { maximum_reps: mx, minimum_reps: mn }),
            _ => None,
        }
    } else if contains_char(t, '+') {
        let i = first_index_of(t, '+');
        match parse_u64_spec(t.subrange(0, i)) {
            Some(n) => Some(RepSet::Amrap { minimum_reps: n }),
            None => None,
        }
    } else if contains_char(t, 's') {
        let i = first_index_of(t, 's');
        match parse_u64_spec(t.subrange(0, i)) {
            Some(n) => Some(RepSet::Time { seconds: n }),
            None => None,
        }
    } else {
        match parse_u64_spec(t) {
            Some(n) => Some(RepSet::Defined { reps: n }),
            None => None,
        }
    }
}

/// A string of digits contains no other character.
pub proof fn lemma_digits_no_char(s: Seq<char>, c: char)
    requires
        all_digits(s),
        !is_digit_char(c),
    ensures
        !contains_char(s, c),
{
    if contains_char(s, c) {
        let i = choose|i: int| 0 <= i < s.len() && s[i] == c;
        assert(is_digit_char(s[i]));
    }
}

impl RepSet {
    /// Parse a set notation such as `"8-12"`, `"3+"`, `"Any"`, `"10"`, `"5s"`.
    pub fn parse(notation: &str) -> (r: Result<RepSet, NotationError>)
        ensures
            match parse_set_spec(notation@) {
                Some(v) => r == Ok::<RepSet, NotationError>(v),
                None => r == Err::<RepSet, NotationError>(NotationError),
            },
    {
        let v = str_to_chars(notation);
        proof {
            assert(v@.subrange(0, v@.len() as int) =~= notation@);
        }
        parse_set_chars(&v, 0, v.len())
    }

    /// The canonical text of this set.
    pub fn format(&self) -> (r: String)
        ensures
            r@ == format_set_spec(*self),
    {
        let mut out: Vec<char> = Vec::new();
        append_set(&mut out, self);
        chars_to_string(&out)
    }
}

/// Append the canonical text of one set.
pub fn append_set(out: &mut Vec<char>, v: &RepSet)
    ensures
        final(out)@ == old(out)@ + format_set_spec(*v),
{
    match v {
        RepSet::Amrap { minimum_reps } => {
            append_u64(out, *minimum_reps);
            out.push('+');
        },
        RepSet::Range { maximum_reps, minimum_reps } => {
            append_u64(out, *minimum_reps);
            out.push('-');
            append_u64(out, *maximum_reps);
        },
        RepSet::Any => {
            out.push('A');
            out.push('n');
            out.push('y');
        },
        RepSet::Defined { reps } => {
            append_u64(out, *reps);
        },
        RepSet::Time { seconds } => {
            append_u64(out, *seconds);
            out.push('s');
        },
    }
    proof {
        assert(final(out)@ =~= old(out)@ + format_set_spec(*v));
    }
}

/// Parse the span `[from, to)` of `v` as a set notation.
#[verifier::rlimit(30)]
pub fn parse_set_chars(v: &Vec<char>, from: usize, to: usize) -> (r: Result<
    RepSet,
    NotationError,
>)
    requires
        from <= to <= v.len(),
    ensures
        match parse_set_spec(v@.subrange(from as int, to as int)) {
            Some(s) => r == Ok::<RepSet, NotationError>(s),
            None => r == Err::<RepSet, NotationError>(NotationError),
        },
{
    let ghost t = v@.subrange(from as int, to as int);
    if to - from == 3 && v[from] == 'A' && v[from + 1] == 'n' && v[from + 2] == 'y' {
        proof {
            assert(t =~= any_notation());
        }
        return Ok(RepSet::Any);
    }
    proof {
        assert(t != any_notation());
    }
    match find_char_span(v, from, to, '-') {
        Some(i) => {
            proof {
                lemma_first_index_unique(t, '-', i - from);
            }
            let mn = parse_u64_chars(v, from, i);
            let mx = parse_u64_chars(v, i + 1, to);
            proof {
                assert(v@.subrange(from as int, i as int) =~= t.subrange(0, i - from));
                assert(v@.subrange(i + 1 as int, to as int) =~= t.subrange(
                    i - from + 1,
                    t.len() as int,
                ));
            }
            match (mn, mx) {
                (Some(mn), Some(mx)) => Ok(
                    RepSet::Range { maximum_reps: mx, minimum_reps: mn },
                ),
                _ => Err(NotationError),
            }
        },
        None => {
            proof {
                assert(!contains_char(t, '-')) by {
                    if contains_char(t, '-') {
                        let i = choose|i: int| 0 <= i < t.len() && t[i] == '-';
                        assert(v@[from + i] == '-');
                    }
                }
            }
            match find_char_span(v, from, to, '+') {
                Some(i) => {
                    proof {
                        lemma_first_index_unique(t, '+', i - from);
                    }
                    let n = parse_u64_chars(v, from, i);
                    proof {
                        assert(v@.subrange(from as int, i as int) =~= t.subrange(0, i - from));
                    }
                    match n {
                        Some(n) => Ok(RepSet::Amrap { minimum_reps: n }),
                        None => Err(NotationError),
                    }
                },
                None => {
                    proof {
                        assert(!contains_char(t, '+')) by {
                            if contains_char(t, '+') {
                                let i = choose|i: int| 0 <= i < t.len() && t[i] == '+';
                                assert(v@[from + i] == '+');
                            }
                        }
                    }
                    match find_char_span(v, from, to, 's') {
                        Some(i) => {
                            proof {
                                lemma_first_index_unique(t, 's', i - from);
                            }
                            let n = parse_u64_chars(v, from, i);
                            proof {
                                assert(v@.subrange(from as int, i as int) =~= t.subrange(
                                    0,
                                    i - from,
                                ));
                            }
                            match n {
                                Some(n) => Ok(RepSet::Time { seconds: n }),
                                None => Err(NotationError),
                            }
                        },
                        None => {
                            proof {
                                assert(!contains_char(t, 's')) by {
                                    if contains_char(t, 's') {
                                        let i = choose|i: int| 0 <= i < t.len() && t[i] == 's';
                                        assert(v@[from + i] == 's');
                                    }
                                }
                            }
                            match parse_u64_chars(v, from, to) {
                                Some(n) => Ok(RepSet::Defined { reps: n }),
                                None => Err(NotationError),
                            }
                        },
                    }
                },
            }
        },
    }
}

/// Find the first occurrence of `c` inside the span `[from, to)`.
pub fn find_char_span(v: &Vec<char>, from: usize, to: usize, c: char) -> (r: Option<usize>)
    requires
        from <= to <= v.len(),
    ensures
        match r {
            Some(i) => {
                &&& from <= i < to
                &&& v@[i as int] == c
                &&& forall|j: int| from <= j < i ==> v@[j] != c
            },
            None => forall|j: int| from <= j < to ==> v@[j] != c,
        },
{
    let mut i: usize = from;
    while i < to
        invariant
            from <= i <= to <= v.len(),
            forall|j: int| from <= j < i ==> v@[j] != c,
        decreases to - i,
    {
        if v[i] == c {
            return Some(i);
        }
        i = i + 1;
    }
    None
}

/// Round trip: parsing the canonical text of any set gives that set back.
/// Together with the definition of a canonical set notation as the canonical
/// text of some set, this is the law `format(parse(s)) == s`.
pub proof fn lemma_set_round_trip(v: RepSet)
    ensures
        parse_set_spec(format_set_spec(v)) == Some(v),
{
    let s = format_set_spec(v);
    match v {
        RepSet::Any => {},
        RepSet::Amrap { minimum_reps } => {
            let d = dec_digits(minimum_reps as nat);
            lemma_dec_digits(minimum_reps as nat);
            let k = d.len() as int;
            assert(s[0] == d[0]);
            assert(s != any_notation()) by {
                assert(!is_digit_char('A'));
            }
            assert forall|j: int| 0 <= j < s.len() implies s[j] != '-' by {
                if j < k {
                    assert(s[j] == d[j]);
                } else {
                    assert(s[j] == '+');
                }
            }
            assert(!contains_char(s, '-'));
            assert(s[k] == '+');
            assert forall|j: int| 0 <= j < k implies s[j] != '+' by {
                assert(s[j] == d[j]);
            }
            lemma_first_index_unique(s, '+', k);
            assert(s.subrange(0, k) =~= d);
        },
        RepSet::Range { maximum_reps, minimum_reps } => {
            let dmn = dec_digits(minimum_reps as nat);
            let dmx = dec_digits(maximum_reps as nat);
            lemma_dec_digits(minimum_reps as nat);
            lemma_dec_digits(maximum_reps as nat);
            let k = dmn.len() as int;
            assert(s[0] == dmn[0]);
            assert(s != any_notation()) by {
                assert(!is_digit_char('A'));
            }
            assert(s[k] == '-');
            assert forall|j: int| 0 <= j < k implies s[j] != '-' by {
                assert(s[j] == dmn[j]);
            }
            lemma_first_index_unique(s, '-', k);
            assert(s.subrange(0, k) =~= dmn);
            assert(s.subrange(k + 1, s.len() as int) =~= dmx);
        },
        RepSet::Defined { reps } => {
            let d = dec_digits(reps as nat);
            lemma_dec_digits(reps as nat);
            assert(s != any_notation()) by {
                assert(!is_digit_char('A'));
                if s == any_notation() {
                    assert(s[0] == 'A');
                }
            }
            lemma_digits_no_char(s, '-');
            lemma_digits_no_char(s, '+');
            lemma_digits_no_char(s, 's');
        },
        RepSet::Time { seconds } => {
            let d = dec_digits(seconds as nat);
            lemma_dec_digits(seconds as nat);
            let k = d.len() as int;
            assert(s[0] == d[0]);
            assert(s != any_notation()) by {
                assert(!is_digit_char('A'));
            }
            assert forall|j: int| 0 <= j < s.len() implies s[j] != '-' && s[j] != '+' by {
                if j < k {
                    assert(s[j] == d[j]);
                } else {
                    assert(s[j] == 's');
                }
            }
            assert(!contains_char(s, '-'));
            assert(!contains_char(s, '+'));
            assert(s[k] == 's');
            assert forall|j: int| 0 <= j < k implies s[j] != 's' by {
                assert(s[j] == d[j]);
            }
            lemma_first_index_unique(s, 's', k);
            assert(s.subrange(0, k) =~= d);
        },
    }
}

/// The same law said of the text: a canonical set notation survives a
/// parse followed by a format unchanged.
pub proof fn lemma_set_format_parse(s: Seq<char>)
    requires
        exists|v: RepSet| format_set_spec(v) == s,
    ensures
        exists|v: RepSet| parse_set_spec(s) == Some(v) && format_set_spec(v) == s,
{
    let v = choose|v: RepSet| format_set_spec(v) == s;
    lemma_set_round_trip(v);
}

} // verus!
