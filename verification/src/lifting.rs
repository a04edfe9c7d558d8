use vstd::prelude::*;
use crate::digits::{
    all_digits, append_u64, dec_digits, is_digit_char, lemma_dec_digits, parse_u64_chars,
    parse_u64_spec, pow10, str_val,
};
use crate::set::{
    RepSet, format_set_spec, parse_set_spec, parse_set_chars, lemma_set_round_trip,
    lemma_digits_no_char, find_char_span, any_notation,
};
use crate::text::{
    chars_to_string, contains_char, contains_seq, first_index_of, first_match_of, is_match_at,
    lemma_first_index_of, lemma_first_index_unique, str_to_chars, trim_spec,
};
use crate::weight_scheme::{
    Multiplier, WeightScheme, any_weight_notation, format_weight_scheme_spec,
    parse_weight_scheme_spec,
};
use crate::NotationError;

verus! {

// The outcome of one attempted lift.

#[derive(Clone, Copy, Debug, PartialEq, Eq, Structural)]
pub enum LiftAttemptResult {
    NotCompleted,
    Completed { completed_maximum_reps: bool },
}

pub open spec fn not_completed_notation() -> Seq<char> {
    seq!['N', 'o', 't', 'C', 'o', 'm', 'p', 'l', 'e', 't', 'e', 'd']
}

pub open spec fn completed_notation() -> Seq<char> {
    seq!['C', 'o', 'm', 'p', 'l', 'e', 't', 'e', 'd']
}

pub open spec fn completed_max_notation() -> Seq<char> {
    seq!['C', 'o', 'm', 'p', 'l', 'e', 't', 'e', 'd', '+', 'M', 'a', 'x', 'R', 'e', 'p', 's']
}

pub open spec fn format_result_spec(r: LiftAttemptResult) -> Seq<char> {
    match r {
        LiftAttemptResult::NotCompleted => not_completed_notation(),
        LiftAttemptResult::Completed { completed_maximum_reps } => if completed_maximum_reps {
            completed_max_notation()
        } else {
            completed_notation()
        },
    }
}

pub open spec fn parse_result_spec(t: Seq<char>) -> Option<LiftAttemptResult> {
    if t == not_completed_notation() {
        Some(LiftAttemptResult::NotCompleted)
    } else if t == completed_notation() {
        Some(LiftAttemptResult::Completed { completed_maximum_reps: false })
    } else if t == completed_max_notation() {
        Some(LiftAttemptResult::Completed { completed_maximum_reps: true })
    } else {
        None
    }
}

/// Are two character vectors spans equal?
fn chars_eq(a: &Vec<char>, b: &Vec<char>) -> (r: bool)
    ensures
        r == (a@ == b@),
{
    if a.len() != b.len() {
        return false;
    }
    let mut i: usize = 0;
    while i < a.len()
        invariant
            0 <= i <= a.len() == b.len(),
            forall|j: int| 0 <= j < i ==> a@[j] == b@[j],
        decreases a.len() - i,
    {
        if a[i] != b[i] {
            return false;
        }
        i = i + 1;
    }
    proof {
        assert(a@ =~= b@);
    }
    true
}

/// Append the canonical text of a result.
pub fn append_result(out: &mut Vec<char>, r: &LiftAttemptResult)
    ensures
        final(out)@ == old(out)@ + format_result_spec(*r),
{
    let text: &str = match r {
        LiftAttemptResult::NotCompleted => "NotCompleted",
        LiftAttemptResult::Completed { completed_maximum_reps } => {
            if *completed_maximum_reps {
                "Completed+MaxReps"
            } else {
                "Completed"
            }
        },
    };
    proof {
        reveal_strlit("NotCompleted");
        reveal_strlit("Completed+MaxReps");
        reveal_strlit("Completed");
        assert(text@ =~= format_result_spec(*r));
    }
    let v = str_to_chars(text);
    crate::text::append_chars(out, &v);
}

impl LiftAttemptResult {
    /// Parse one of the three result notations: `"NotCompleted"`,
    /// `"Completed"`, `"Completed+MaxReps"`.
    pub fn parse(notation: &str) -> (r: Result<LiftAttemptResult, NotationError>)
        ensures
            match parse_result_spec(notation@) {
                Some(v) => r == Ok::<LiftAttemptResult, NotationError>(v),
                None => r == Err::<LiftAttemptResult, NotationError>(NotationError),
            },
    {
        let v = str_to_chars(notation);
        proof {
            assert(v@.subrange(0, v@.len() as int) =~= notation@);
        }
        parse_result_chars(&v, 0, v.len())
    }

    /// The canonical text of this result.
    pub fn format(&self) -> (r: String)
        ensures
            r@ == format_result_spec(*self),
    {
        let mut out: Vec<char> = Vec::new();
        append_result(&mut out, self);
        chars_to_string(&out)
    }
}

/// Parse the span `[from, to)` of `v` as a result notation.
pub fn parse_result_chars(v: &Vec<char>, from: usize, to: usize) -> (r: Result<
    LiftAttemptResult,
    NotationError,
>)
    requires
        from <= to <= v.len(),
    ensures
        match parse_result_spec(v@.subrange(from as int, to as int)) {
            Some(x) => r == Ok::<LiftAttemptResult, NotationError>(x),
            None => r == Err::<LiftAttemptResult, NotationError>(NotationError),
        },
{
    let ghost t = v@.subrange(from as int, to as int);
    let span = crate::text::char_sub(v, from, to);
    proof {
        reveal_strlit("NotCompleted");
        reveal_strlit("Completed+MaxReps");
        reveal_strlit("Completed");
    }
    let c1 = str_to_chars("NotCompleted");
    proof {
        assert(c1@ =~= not_completed_notation());
    }
    if chars_eq(&span, &c1) {
        return Ok(LiftAttemptResult::NotCompleted);
    }
    let c2 = str_to_chars("Completed");
    proof {
        assert(c2@ =~= completed_notation());
    }
    if chars_eq(&span, &c2) {
        return Ok(LiftAttemptResult::Completed { completed_maximum_reps: false });
    }
    let c3 = str_to_chars("Completed+MaxReps");
    proof {
        assert(c3@ =~= completed_max_notation());
    }
    if chars_eq(&span, &c3) {
        return Ok(LiftAttemptResult::Completed { completed_maximum_reps: true });
    }
    Err(NotationError)
}

/// Round trip: each of the three results survives format and parse.
pub proof fn lemma_result_round_trip(r: LiftAttemptResult)
    ensures
        parse_result_spec(format_result_spec(r)) == Some(r),
{
    assert(not_completed_notation().len() == 12);
    assert(completed_notation().len() == 9);
    assert(completed_max_notation().len() == 17);
}

// Rounding of prescribed weights.

/// Weights are prescribed in multiples of five pounds; anything in between
/// rounds up to the next multiple.
pub open spec fn round5_spec(x: int) -> int {
    if x % 5 == 0 {
        x
    } else {
        x + (5 - x % 5)
    }
}

pub fn round_up_to_nearest5(input: u64) -> (r: u64)
    requires
        round5_spec(input as int) <= u64::MAX,
    ensures
        r == round5_spec(input as int),
{
    let remainder = input % 5;
    if remainder > 0 {
        input + (5 - remainder)
    } else {
        input
    }
}

// The run-length form of a lift's sets: `"2x5,1x5-6,1x6+"` means five reps
// twice, then one rep range, then one as-many-as-possible set.

/// Length of the leading run of structurally equal sets.
pub open spec fn run_len(sets: Seq<RepSet>) -> int
    decreases sets.len(),
{
    if sets.len() == 0 {
        0
    } else if sets.len() == 1 {
        1
    } else if sets[1] == sets[0] {
        1 + run_len(sets.drop_first())
    } else {
        1
    }
}

pub proof fn lemma_run_len(sets: Seq<RepSet>)
    requires
        sets.len() >= 1,
    ensures
        1 <= run_len(sets) <= sets.len(),
        forall|j: int| 0 <= j < run_len(sets) ==> #[trigger] sets[j] == sets[0],
        run_len(sets) < sets.len() ==> sets[run_len(sets)] != sets[0],
    decreases sets.len(),
{
    if sets.len() > 1 && sets[1] == sets[0] {
        let d = sets.drop_first();
        lemma_run_len(d);
        assert forall|j: int| 0 <= j < run_len(sets) implies #[trigger] sets[j] == sets[0] by {
            if j >= 1 {
                assert(d[j - 1] == sets[j]);
                assert(d[j - 1] == d[0]);
            }
        }
        if run_len(sets) < sets.len() {
            assert(sets[run_len(sets)] == d[run_len(d)]);
            assert(d[run_len(d)] != d[0]);
        }
    }
}

/// The first run is wherever equal sets stop.
pub proof fn lemma_run_len_unique(sets: Seq<RepSet>, k: int)
    requires
        1 <= k <= sets.len(),
        forall|j: int| 0 <= j < k ==> #[trigger] sets[j] == sets[0],
        k < sets.len() ==> sets[k] != sets[0],
    ensures
        run_len(sets) == k,
    decreases sets.len(),
{
    if sets.len() == 1 {
    } else if sets[1] == sets[0] {
        let d = sets.drop_first();
        assert(forall|j: int| 0 <= j < d.len() ==> d[j] == sets[j + 1]);
        if k == 1 {
            assert(sets[1] != sets[0]);
        } else {
            lemma_run_len_unique(d, k - 1);
        }
    } else {
        if k > 1 {
            assert(sets[1] == sets[0]);
        }
    }
}

/// The canonical text of a sequence of sets: consecutive equal sets merged
/// into one `countxSet` token, tokens joined with commas.
pub open spec fn format_sets_spec(sets: Seq<RepSet>) -> Seq<char>
    decreases sets.len(),
    via format_sets_spec_dec
{
    if sets.len() == 0 {
        Seq::<char>::empty()
    } else {
        let k = run_len(sets);
        dec_digits(k as nat) + seq!['x'] + format_set_spec(sets[0]) + (if k == sets.len() {
            Seq::<char>::empty()
        } else {
            seq![','] + format_sets_spec(sets.skip(k))
        })
    }
}

#[via_fn]
proof fn format_sets_spec_dec(sets: Seq<RepSet>) {
    if sets.len() > 0 {
        lemma_run_len(sets);
    }
}

/// What one comma-separated token denotes: a count, an `x`, and a set,
/// expanded into `count` copies of the set.
pub open spec fn parse_run_spec(t: Seq<char>) -> Option<Seq<RepSet>> {
    if contains_char(t, 'x') {
        let i = first_index_of(t, 'x');
        match (parse_u64_spec(t.subrange(0, i)), parse_set_spec(t.subrange(i + 1, t.len() as int))) {
            (Some(cnt), Some(st)) => Some(Seq::new(cnt as nat, |j: int| st)),
            _ => None,
        }
    } else {
        None
    }
}

/// What a whole sets notation denotes: the concatenation of its tokens'
/// expansions.
pub open spec fn parse_sets_spec(t: Seq<char>) -> Option<Seq<RepSet>>
    decreases t.len(),
    via parse_sets_spec_dec
{
    if contains_char(t, ',') {
        let i = first_index_of(t, ',');
        match (parse_run_spec(t.subrange(0, i)), parse_sets_spec(t.subrange(i + 1, t.len() as int))) {
            (Some(r1), Some(rest)) => Some(r1 + rest),
            _ => None,
        }
    } else {
        parse_run_spec(t)
    }
}

#[via_fn]
proof fn parse_sets_spec_dec(t: Seq<char>) {
    if contains_char(t, ',') {
        lemma_first_index_of(t, ',');
    }
}

/// Parse the span `[from, to)` of `v` as one `countxSet` token.
fn parse_run_chars(v: &Vec<char>, from: usize, to: usize) -> (r: Result<Vec<RepSet>, NotationError>)
    requires
        from <= to <= v.len(),
    ensures
        match parse_run_spec(v@.subrange(from as int, to as int)) {
            Some(s) => r matches Ok(out) && out@ == s,
            None => r matches Err(e),
        },
{
    let ghost t = v@.subrange(from as int, to as int);
    match find_char_span(v, from, to, 'x') {
        Some(i) => {
            proof {
                lemma_first_index_unique(t, 'x', i - from);
                assert(v@.subrange(from as int, i as int) =~= t.subrange(0, i - from));
                assert(v@.subrange(i + 1 as int, to as int) =~= t.subrange(
                    i - from + 1,
                    t.len() as int,
                ));
            }
            let cnt = parse_u64_chars(v, from, i);
            let st = parse_set_chars(v, i + 1, to);
            match (cnt, st) {
                (Some(cnt), Ok(st)) => {
                    let mut out: Vec<RepSet> = Vec::new();
                    let mut j: u64 = 0;
                    while j < cnt
                        invariant
                            0 <= j <= cnt,
                            out@ =~= Seq::new(j as nat, |q: int| st),
                        decreases cnt - j,
                    {
                        out.push(st);
                        proof {
                            assert(out@ =~= Seq::new(j as nat + 1, |q: int| st));
                        }
                        j = j + 1;
                    }
                    Ok(out)
                },
                _ => Err(NotationError),
            }
        },
        None => {
            proof {
                assert(!contains_char(t, 'x')) by {
                    if contains_char(t, 'x') {
                        let i = choose|i: int| 0 <= i < t.len() && t[i] == 'x';
                        assert(v@[from + i] == 'x');
                    }
                }
            }
            Err(NotationError)
        },
    }
}

/// Parse the span `[from, to)` of `v` as a comma-separated sets notation.
pub fn parse_sets_chars(v: &Vec<char>, from: usize, to: usize) -> (r: Result<
    Vec<RepSet>,
    NotationError,
>)
    requires
        from <= to <= v.len(),
    ensures
        match parse_sets_spec(v@.subrange(from as int, to as int)) {
            Some(s) => r matches Ok(out) && out@ == s,
            None => r matches Err(e),
        },
    decreases to - from,
{
    let ghost t = v@.subrange(from as int, to as int);
    match find_char_span(v, from, to, ',') {
        Some(i) => {
            proof {
                lemma_first_index_unique(t, ',', i - from);
                assert(v@.subrange(from as int, i as int) =~= t.subrange(0, i - from));
                assert(v@.subrange(i + 1 as int, to as int) =~= t.subrange(
                    i - from + 1,
                    t.len() as int,
                ));
            }
            let first = parse_run_chars(v, from, i);
            let rest = parse_sets_chars(v, i + 1, to);
            match (first, rest) {
                (Ok(mut first), Ok(mut rest)) => {
                    first.append(&mut rest);
                    Ok(first)
                },
                _ => Err(NotationError),
            }
        },
        None => {
            proof {
                assert(!contains_char(t, ',')) by {
                    if contains_char(t, ',') {
                        let i = choose|i: int| 0 <= i < t.len() && t[i] == ',';
                        assert(v@[from + i] == ',');
                    }
                }
            }
            parse_run_chars(v, from, to)
        },
    }
}

/// Append the canonical run-length text of the sets from `from` on.
pub fn append_sets(out: &mut Vec<char>, sets: &Vec<RepSet>, from: usize)
    requires
        from <= sets.len(),
    ensures
        final(out)@ == old(out)@ + format_sets_spec(sets@.skip(from as int)),
    decreases sets.len() - from,
{
    if from == sets.len() {
        proof {
            assert(sets@.skip(from as int) =~= Seq::<RepSet>::empty());
            assert(final(out)@ =~= old(out)@ + format_sets_spec(sets@.skip(from as int)));
        }
        return;
    }
    let ghost rest = sets@.skip(from as int);
    let mut j: usize = from + 1;
    while j < sets.len() && sets[j] == sets[from]
        invariant
            from + 1 <= j <= sets.len(),
            forall|m: int| from <= m < j ==> sets@[m] == sets@[from as int],
        decreases sets.len() - j,
    {
        j = j + 1;
    }
    proof {
        assert(forall|m: int| 0 <= m < j - from ==> rest[m] == sets@[m + from]);
        if j < sets.len() {
            assert(rest[j - from] == sets@[j as int]);
        }
        lemma_run_len_unique(rest, j - from);
    }
    let count = j - from;
    append_u64(out, count as u64);
    out.push('x');
    let s0 = sets[from];
    proof {
        assert(s0 == rest[0]);
    }
    crate::set::append_set(out, &s0);
    if j < sets.len() {
        out.push(',');
        append_sets(out, sets, j);
        proof {
            assert(sets@.skip(j as int) =~= rest.skip(j - from));
            assert(final(out)@ =~= old(out)@ + format_sets_spec(rest));
        }
    } else {
        proof {
            assert(final(out)@ =~= old(out)@ + format_sets_spec(rest));
        }
    }
}

/// Every character that can appear in a set's own notation.
pub open spec fn is_set_body_char(c: char) -> bool {
    is_digit_char(c) || c == '+' || c == '-' || c == 's' || c == 'A' || c == 'n' || c == 'y'
}

/// Every character that can appear in a sets notation.
pub open spec fn is_sets_text_char(c: char) -> bool {
    is_set_body_char(c) || c == 'x' || c == ','
}

pub proof fn lemma_set_body_chars(v: RepSet)
    ensures
        format_set_spec(v).len() >= 1,
        forall|j: int|
            0 <= j < format_set_spec(v).len() ==> is_set_body_char(
                #[trigger] format_set_spec(v)[j],
            ),
{
    let s = format_set_spec(v);
    match v {
        RepSet::Any => {
            assert forall|j: int| 0 <= j < s.len() implies is_set_body_char(s[j]) by {
                assert(s[0] == 'A' && s[1] == 'n' && s[2] == 'y');
            }
        },
        RepSet::Amrap { minimum_reps } => {
            let d = dec_digits(minimum_reps as nat);
            lemma_dec_digits(minimum_reps as nat);
            assert forall|j: int| 0 <= j < s.len() implies is_set_body_char(s[j]) by {
                if j < d.len() {
                    assert(s[j] == d[j]);
                } else {
                    assert(s[j] == '+');
                }
            }
        },
        RepSet::Range { maximum_reps, minimum_reps } => {
            let dmn = dec_digits(minimum_reps as nat);
            let dmx = dec_digits(maximum_reps as nat);
            lemma_dec_digits(minimum_reps as nat);
            lemma_dec_digits(maximum_reps as nat);
            assert forall|j: int| 0 <= j < s.len() implies is_set_body_char(s[j]) by {
                if j < dmn.len() {
                    assert(s[j] == dmn[j]);
                } else if j == dmn.len() {
                    assert(s[j] == '-');
                } else {
                    assert(s[j] == dmx[j - dmn.len() - 1]);
                }
            }
        },
        RepSet::Defined { reps } => {
            lemma_dec_digits(reps as nat);
        },
        RepSet::Time { seconds } => {
            let d = dec_digits(seconds as nat);
            lemma_dec_digits(seconds as nat);
            assert forall|j: int| 0 <= j < s.len() implies is_set_body_char(s[j]) by {
                if j < d.len() {
                    assert(s[j] == d[j]);
                } else {
                    assert(s[j] == 's');
                }
            }
        },
    }
}

pub proof fn lemma_sets_text_chars(sets: Seq<RepSet>)
    ensures
        sets.len() >= 1 ==> format_sets_spec(sets).len() >= 1,
        forall|j: int|
            0 <= j < format_sets_spec(sets).len() ==> is_sets_text_char(
                #[trigger] format_sets_spec(sets)[j],
            ),
        sets.len() >= 1 ==> is_digit_char(format_sets_spec(sets)[0]),
        sets.len() >= 1 ==> !is_space_char_l(format_sets_spec(sets).last()),
    decreases sets.len(),
{
    if sets.len() >= 1 {
        let s = format_sets_spec(sets);
        lemma_run_len(sets);
        let k = run_len(sets);
        let d = dec_digits(k as nat);
        lemma_dec_digits(k as nat);
        let f = format_set_spec(sets[0]);
        lemma_set_body_chars(sets[0]);
        if k == sets.len() {
            assert forall|j: int| 0 <= j < s.len() implies is_sets_text_char(s[j]) by {
                if j < d.len() {
                    assert(s[j] == d[j]);
                } else if j == d.len() {
                    assert(s[j] == 'x');
                } else {
                    assert(s[j] == f[j - d.len() - 1]);
                }
            }
            assert(s[0] == d[0]);
            assert(s.last() == f[f.len() - 1]);
        } else {
            lemma_sets_text_chars(sets.skip(k));
            let rest = format_sets_spec(sets.skip(k));
            let head = d + seq!['x'] + f + seq![','];
            assert(s =~= head + rest);
            assert forall|j: int| 0 <= j < s.len() implies is_sets_text_char(s[j]) by {
                if j < d.len() {
                    assert(s[j] == d[j]);
                } else if j == d.len() {
                    assert(s[j] == 'x');
                } else if j < head.len() - 1 {
                    assert(s[j] == f[j - d.len() - 1]);
                } else if j == head.len() - 1 {
                    assert(s[j] == ',');
                } else {
                    assert(s[j] == rest[j - head.len()]);
                }
            }
            assert(s[0] == d[0]);
            assert(s.last() == rest.last());
        }
    }
}

/// A sets-notation character is never whitespace (stated over the trim
/// whitespace set).
pub open spec fn is_space_char_l(c: char) -> bool {
    crate::text::is_space_char(c)
}

/// Round trip for one run token: `count` times a set.
proof fn lemma_run_token_round_trip(st: RepSet, cnt: u64)
    ensures
        parse_run_spec(dec_digits(cnt as nat) + seq!['x'] + format_set_spec(st)) == Some(
            Seq::new(cnt as nat, |j: int| st),
        ),
{
    let d = dec_digits(cnt as nat);
    lemma_dec_digits(cnt as nat);
    let f = format_set_spec(st);
    let t = d + seq!['x'] + f;
    assert(t[d.len() as int] == 'x');
    assert forall|j: int| 0 <= j < d.len() implies t[j] != 'x' by {
        assert(t[j] == d[j]);
    }
    lemma_first_index_unique(t, 'x', d.len() as int);
    assert(t.subrange(0, d.len() as int) =~= d);
    assert(t.subrange(d.len() as int + 1, t.len() as int) =~= f);
    lemma_set_round_trip(st);
}

/// Round trip: parsing the canonical run-length text of a nonempty sequence
/// of sets gives the sequence back.
pub proof fn lemma_sets_round_trip(sets: Seq<RepSet>)
    requires
        sets.len() >= 1,
        sets.len() <= u64::MAX,
    ensures
        parse_sets_spec(format_sets_spec(sets)) == Some(sets),
    decreases sets.len(),
{
    let s = format_sets_spec(sets);
    lemma_run_len(sets);
    let k = run_len(sets);
    let d = dec_digits(k as nat);
    lemma_dec_digits(k as nat);
    let f = format_set_spec(sets[0]);
    lemma_set_body_chars(sets[0]);
    let tok = d + seq!['x'] + f;
    assert(1 <= k <= u64::MAX);
    lemma_run_token_round_trip(sets[0], k as u64);
    if k == sets.len() {
        assert(s =~= tok);
        assert forall|j: int| 0 <= j < s.len() implies s[j] != ',' by {
            if j < d.len() {
                assert(s[j] == d[j]);
            } else if j == d.len() {
                assert(s[j] == 'x');
            } else {
                assert(s[j] == f[j - d.len() - 1]);
            }
        }
        assert(!contains_char(s, ','));
        assert(Seq::new(k as nat, |j: int| sets[0]) =~= sets);
    } else {
        lemma_sets_round_trip(sets.skip(k));
        let rest = format_sets_spec(sets.skip(k));
        assert(s =~= tok + seq![','] + rest);
        assert(s[tok.len() as int] == ',');
        assert forall|j: int| 0 <= j < tok.len() implies s[j] != ',' by {
            assert(s[j] == tok[j]);
            if j < d.len() {
                assert(tok[j] == d[j]);
            } else if j == d.len() {
                assert(tok[j] == 'x');
            } else {
                assert(tok[j] == f[j - d.len() - 1]);
            }
        }
        lemma_first_index_unique(s, ',', tok.len() as int);
        assert(s.subrange(0, tok.len() as int) =~= tok);
        assert(s.subrange(tok.len() as int + 1, s.len() as int) =~= rest);
        assert(Seq::new(k as nat, |j: int| sets[0]) + sets.skip(k) =~= sets);
    }
}

// A lift: a name, an ordered sequence of sets, and a weight scheme.
// Notation: `"name -> sets"` or `"name -> sets @ weight"`.

#[derive(Clone, Debug)]
pub struct Lift {
    pub name: String,
    pub sets: Vec<RepSet>,
    pub weight: WeightScheme,
}

/// The mathematical shape of a lift.
#[verifier::ext_equal]
pub ghost struct LiftView {
    pub name: Seq<char>,
    pub sets: Seq<RepSet>,
    pub weight: WeightScheme,
}

impl View for Lift {
    type V = LiftView;

    open spec fn view(&self) -> LiftView {
        LiftView { name: self.name@, sets: self.sets@, weight: self.weight }
    }
}

pub open spec fn arrow_sep() -> Seq<char> {
    seq![' ', '-', '>', ' ']
}

pub open spec fn arrow_pat() -> Seq<char> {
    seq!['-', '>']
}

pub open spec fn at_sep() -> Seq<char> {
    seq![' ', '@', ' ']
}

/// The canonical text of a lift; the weight clause is omitted when the lift
/// has no weight concept.
pub open spec fn format_lift_spec(l: LiftView) -> Seq<char> {
    l.name + arrow_sep() + format_sets_spec(l.sets) + (if l.weight == WeightScheme::NoWeight {
        Seq::<char>::empty()
    } else {
        at_sep() + format_weight_scheme_spec(l.weight)
    })
}

/// What a span of text denotes as a lift, if anything: a name before the
/// first `->`, then the sets, then an optional `@ weight` clause.
pub open spec fn parse_lift_spec(t: Seq<char>) -> Option<LiftView> {
    if contains_seq(t, arrow_pat()) {
        let i = first_match_of(t, arrow_pat());
        let name = trim_spec(t.subrange(0, i));
        let rest = t.subrange(i + 2, t.len() as int);
        if contains_char(rest, '@') {
            let j = first_index_of(rest, '@');
            match (parse_sets_spec(trim_spec(rest.subrange(0, j))), parse_weight_scheme_spec(
                trim_spec(rest.subrange(j + 1, rest.len() as int)),
            )) {
                (Some(sets), Some(w)) => Some(LiftView { name, sets, weight: w }),
                _ => None,
            }
        } else {
            match parse_sets_spec(trim_spec(rest)) {
                Some(sets) => Some(LiftView { name, sets, weight: WeightScheme::NoWeight }),
                None => None,
            }
        }
    } else {
        None
    }
}

impl Lift {
    pub open spec fn wf(&self) -> bool {
        self.weight.wf()
    }

    /// Parse a lift notation such as
    /// `"Barbell bench press -> 3x5,1x5-6,1x6+ @ 0.8r-10"`.
    pub fn parse(notation: &str) -> (r: Result<Lift, NotationError>)
        ensures
            match parse_lift_spec(notation@) {
                Some(lv) => r matches Ok(l) && l@ == lv && l.wf(),
                None => r matches Err(e),
            },
    {
        let v = str_to_chars(notation);
        parse_lift_chars(&v)
    }

    /// The canonical text of this lift.
    pub fn format(&self) -> (r: String)
        requires
            self.wf(),
        ensures
            r@ == format_lift_spec(self@),
    {
        let mut out: Vec<char> = Vec::new();
        append_lift(&mut out, self);
        chars_to_string(&out)
    }
}

impl core::cmp::PartialEq for Lift {
    /// Two lifts are equal iff name, sets in order, and weight scheme agree.
    fn eq(&self, other: &Self) -> (r: bool) {
        let r = self.name == other.name && sets_eq(&self.sets, &other.sets) && self.weight
            == other.weight;
        proof {
            if r {
                assert(self@ == other@);
            } else {
                assert(self@ != other@);
            }
        }
        r
    }
}

impl vstd::std_specs::cmp::PartialEqSpecImpl for Lift {
    open spec fn obeys_eq_spec() -> bool {
        true
    }

    open spec fn eq_spec(&self, other: &Self) -> bool {
        self@ == other@
    }
}

/// Are two set vectors elementwise equal?
fn sets_eq(a: &Vec<RepSet>, b: &Vec<RepSet>) -> (r: bool)
    ensures
        r == (a@ == b@),
{
    if a.len() != b.len() {
        return false;
    }
    let mut i: usize = 0;
    while i < a.len()
        invariant
            0 <= i <= a.len() == b.len(),
            forall|j: int| 0 <= j < i ==> a@[j] == b@[j],
        decreases a.len() - i,
    {
        if !(a[i] == b[i]) {
            return false;
        }
        i = i + 1;
    }
    proof {
        assert(a@ =~= b@);
    }
    true
}

/// Append the canonical text of a lift.
pub fn append_lift(out: &mut Vec<char>, l: &Lift)
    requires
        l.wf(),
    ensures
        final(out)@ == old(out)@ + format_lift_spec(l@),
{
    let name = str_to_chars(l.name.as_str());
    crate::text::append_chars(out, &name);
    out.push(' ');
    out.push('-');
    out.push('>');
    out.push(' ');
    append_sets(out, &l.sets, 0);
    proof {
        assert(l.sets@.skip(0) =~= l.sets@);
    }
    match &l.weight {
        WeightScheme::NoWeight => {},
        w => {
            out.push(' ');
            out.push('@');
            out.push(' ');
            crate::weight_scheme::append_weight_scheme(out, w);
        },
    }
    proof {
        assert(final(out)@ =~= old(out)@ + format_lift_spec(l@));
    }
}

/// Parse a whole character vector as a lift notation.
pub fn parse_lift_chars(v: &Vec<char>) -> (r: Result<Lift, NotationError>)
    ensures
        match parse_lift_spec(v@) {
            Some(lv) => r matches Ok(l) && l@ == lv && l.wf(),
            None => r matches Err(e),
        },
{
    let mut pat: Vec<char> = Vec::new();
    pat.push('-');
    pat.push('>');
    proof {
        assert(pat@ =~= arrow_pat());
    }
    match crate::text::find_seq(v, 0, &pat) {
        Some(i) => {
            proof {
                crate::text::lemma_first_match_unique(v@, arrow_pat(), i as int);
            }
            let name_part = crate::text::char_sub(v, 0, i);
            let name_trimmed = crate::text::trim_chars(&name_part);
            let name = chars_to_string(&name_trimmed);
            let ghost rest = v@.subrange(i + 2 as int, v@.len() as int);
            match find_char_span(v, i + 2, v.len(), '@') {
                Some(j) => {
                    proof {
                        lemma_first_index_unique(rest, '@', j - (i + 2));
                        assert(v@.subrange(i + 2 as int, j as int) =~= rest.subrange(
                            0,
                            j - (i + 2),
                        ));
                        assert(v@.subrange(j + 1 as int, v@.len() as int) =~= rest.subrange(
                            j - (i + 2) + 1,
                            rest.len() as int,
                        ));
                    }
                    let sets_part = crate::text::char_sub(v, i + 2, j);
                    let sets_trimmed = crate::text::trim_chars(&sets_part);
                    let w_part = crate::text::char_sub(v, j + 1, v.len());
                    let w_trimmed = crate::text::trim_chars(&w_part);
                    let sets = parse_sets_chars(&sets_trimmed, 0, sets_trimmed.len());
                    let w = crate::weight_scheme::parse_weight_scheme_chars(
                        &w_trimmed,
                        0,
                        w_trimmed.len(),
                    );
                    proof {
                        assert(sets_trimmed@.subrange(0, sets_trimmed@.len() as int)
                            =~= sets_trimmed@);
                        assert(w_trimmed@.subrange(0, w_trimmed@.len() as int) =~= w_trimmed@);
                    }
                    match (sets, w) {
                        (Ok(sets), Ok(w)) => Ok(Lift { name, sets, weight: w }),
                        _ => Err(NotationError),
                    }
                },
                None => {
                    proof {
                        assert(!contains_char(rest, '@')) by {
                            if contains_char(rest, '@') {
                                let q = choose|q: int| 0 <= q < rest.len() && rest[q] == '@';
                                assert(v@[i + 2 + q] == '@');
                            }
                        }
                    }
                    let sets_part = crate::text::char_sub(v, i + 2, v.len());
                    let sets_trimmed = crate::text::trim_chars(&sets_part);
                    let sets = parse_sets_chars(&sets_trimmed, 0, sets_trimmed.len());
                    proof {
                        assert(sets_trimmed@.subrange(0, sets_trimmed@.len() as int)
                            =~= sets_trimmed@);
                    }
                    match sets {
                        Ok(sets) => Ok(Lift { name, sets, weight: WeightScheme::NoWeight }),
                        _ => Err(NotationError),
                    }
                },
            }
        },
        None => {
            proof {
                if contains_seq(v@, arrow_pat()) {
                    let q = choose|q: int| is_match_at(v@, arrow_pat(), q);
                }
            }
            Err(NotationError)
        },
    }
}

/// Round trip: parsing the canonical text of a lift gives the lift back.
/// The name must be a trimmed token that does not itself contain the `->`
/// separator, and the lift must prescribe at least one set — exactly the
/// lifts whose notation is run-length compressible text.
#[verifier::rlimit(60)]
pub proof fn lemma_lift_round_trip(l: LiftView)
    requires
        l.weight.wf(),
        l.name.len() > 0 ==> !is_space_char_l(l.name[0]),
        l.name.len() > 0 ==> !is_space_char_l(l.name.last()),
        !contains_seq(l.name, arrow_pat()),
        1 <= l.sets.len() <= u64::MAX,
    ensures
        parse_lift_spec(format_lift_spec(l)) == Some(l),
{
    let s = format_lift_spec(l);
    let fs = format_sets_spec(l.sets);
    lemma_sets_text_chars(l.sets);
    let n = l.name.len() as int;
    assert(is_match_at(s, arrow_pat(), n + 1)) by {
        assert(s.subrange(n + 1, n + 3) =~= arrow_pat());
    }
    assert forall|j: int| 0 <= j < n + 1 implies !is_match_at(s, arrow_pat(), j) by {
        if is_match_at(s, arrow_pat(), j) {
            assert(s.subrange(j, j + 2)[0] == s[j]);
            assert(s.subrange(j, j + 2)[1] == s[j + 1]);
            if j + 2 <= n {
                assert(l.name.subrange(j, j + 2) =~= s.subrange(j, j + 2));
                assert(is_match_at(l.name, arrow_pat(), j));
            } else if j == n - 1 {
                assert(s[j + 1] == ' ');
            } else {
                assert(s[j] == ' ');
            }
        }
    }
    crate::text::lemma_first_match_unique(s, arrow_pat(), n + 1);
    assert(s.subrange(0, n + 1) =~= l.name + seq![' ']);
    crate::text::lemma_trim_trail_space(l.name);
    let rest = s.subrange(n + 3, s.len() as int);
    lemma_sets_round_trip(l.sets);
    if l.weight == WeightScheme::NoWeight {
        assert(rest =~= seq![' '] + fs);
        assert forall|j: int| 0 <= j < rest.len() implies rest[j] != '@' by {
            if j >= 1 {
                assert(rest[j] == fs[j - 1]);
            }
        }
        assert(!contains_char(rest, '@'));
        crate::text::lemma_trim_lead_space(fs);
        assert(parse_lift_spec(s) == Some(LiftView { name: l.name, sets: l.sets, weight: WeightScheme::NoWeight }));
    } else {
        let fw = format_weight_scheme_spec(l.weight);
        crate::weight_scheme::lemma_weight_text_chars(l.weight);
        assert(rest =~= seq![' '] + fs + seq![' ', '@', ' '] + fw);
        let m = fs.len() as int;
        assert(rest[m + 2] == '@');
        assert forall|j: int| 0 <= j < m + 2 implies rest[j] != '@' by {
            if 1 <= j < m + 1 {
                assert(rest[j] == fs[j - 1]);
            } else if j == 0 || j == m + 1 {
                assert(rest[j] == ' ');
            }
        }
        lemma_first_index_unique(rest, '@', m + 2);
        assert(rest.subrange(0, m + 2) =~= seq![' '] + fs + seq![' ']);
        crate::text::lemma_trim_both_spaces(fs);
        assert(rest.subrange(m + 3, rest.len() as int) =~= seq![' '] + fw);
        assert forall|j: int| 0 <= j < fw.len() implies !is_space_char_l(fw[j]) by {
            assert(crate::weight_scheme::is_weight_text_char(fw[j]));
        }
        crate::text::lemma_trim_lead_space(fw);
        crate::weight_scheme::lemma_weight_scheme_round_trip(l.weight);
        assert(parse_lift_spec(s) == Some(LiftView { name: l.name, sets: l.sets, weight: l.weight }));
    }
}

// One concrete prescription of a lift: the lift together with the weight
// resolved for it, when its scheme resolves one.

#[derive(Clone, Debug)]
pub struct LiftAttempt {
    pub lift: Lift,
    pub weight: Option<u64>,
}

/// The mathematical shape of an attempt.
#[verifier::ext_equal]
pub ghost struct LiftAttemptView {
    pub lift: LiftView,
    pub weight: Option<u64>,
}

impl View for LiftAttempt {
    type V = LiftAttemptView;

    open spec fn view(&self) -> LiftAttemptView {
        LiftAttemptView { lift: self.lift@, weight: self.weight }
    }
}

impl core::cmp::PartialEq for LiftAttempt {
    fn eq(&self, other: &Self) -> (r: bool) {
        let lifts = self.lift == other.lift;
        let weights = match (&self.weight, &other.weight) {
            (Some(a), Some(b)) => *a == *b,
            (None, None) => true,
            _ => false,
        };
        let r = lifts && weights;
        proof {
            if r {
                assert(self@ == other@);
            } else {
                assert(self@ != other@);
            }
        }
        r
    }
}

impl vstd::std_specs::cmp::PartialEqSpecImpl for LiftAttempt {
    open spec fn obeys_eq_spec() -> bool {
        true
    }

    open spec fn eq_spec(&self, other: &Self) -> bool {
        self@ == other@
    }
}

/// The least multiple of the divisor at or above the dividend, as division.
pub open spec fn ceil_div(a: int, b: int) -> int {
    (a + b - 1) / b
}

/// The weight printed for a reference-based lift: multiplier times the
/// reference weight plus the offset, taken up to the next whole pound and
/// then to the next multiple of five, never below zero.
pub open spec fn based_on_ref_weight(m: Multiplier, off: int, rw: int) -> int {
    let p = pow10(m.scale as nat) as int;
    let numer = m.mantissa * rw + off * p;
    let raw = if numer <= 0 {
        0
    } else {
        ceil_div(numer, p)
    };
    round5_spec(raw)
}

/// The machine bounds under which an attempt's weight can be printed.
pub open spec fn attempt_arith_ok(a: LiftAttemptView) -> bool {
    match a.lift.weight {
        WeightScheme::BasedOnReference { multiplier, offset } => match a.weight {
            Some(rw) => {
                let p = pow10(multiplier.scale as nat) as int;
                &&& multiplier.mantissa * rw <= i128::MAX
                &&& multiplier.mantissa * rw + offset * p <= i128::MAX
                &&& based_on_ref_weight(multiplier, offset as int, rw as int) <= u64::MAX
            },
            None => false,
        },
        WeightScheme::LinearBasedOnPrevious { amount_to_increase } => match a.weight {
            Some(w) => round5_spec(w as int) <= u64::MAX,
            None => true,
        },
        WeightScheme::Any => match a.weight {
            Some(w) => round5_spec(w as int) <= u64::MAX,
            None => true,
        },
        WeightScheme::NoWeight => true,
    }
}

/// The printed form of an attempt: the lift's name and sets, with the
/// resolved weight where the scheme yields one, `any` where the choice is
/// the lifter's.
pub open spec fn format_attempt_spec(a: LiftAttemptView) -> Seq<char> {
    let base = a.lift.name + arrow_sep() + format_sets_spec(a.lift.sets);
    match a.lift.weight {
        WeightScheme::NoWeight => base,
        WeightScheme::BasedOnReference { multiplier, offset } => base + at_sep() + dec_digits(
            based_on_ref_weight(multiplier, offset as int, (match a.weight {
                Some(rw) => rw as int,
                None => 0,
            })) as nat,
        ),
        WeightScheme::Any => base + at_sep() + (match a.weight {
            Some(w) => dec_digits(round5_spec(w as int) as nat),
            None => any_weight_notation(),
        }),
        WeightScheme::LinearBasedOnPrevious { amount_to_increase } => base + at_sep() + (match a.weight {
            Some(w) => dec_digits(round5_spec(w as int) as nat),
            None => any_weight_notation(),
        }),
    }
}

impl LiftAttempt {
    /// Does any set of this lift carry a rep range?
    pub fn has_rep_range(&self) -> (r: bool)
        ensures
            r == exists|i: int|
                0 <= i < self.lift.sets@.len() && self.lift.sets@[i] is Range,
    {
        let mut i: usize = 0;
        while i < self.lift.sets.len()
            invariant
                0 <= i <= self.lift.sets@.len(),
                forall|j: int| 0 <= j < i ==> !(self.lift.sets@[j] is Range),
            decreases self.lift.sets@.len() - i,
        {
            if matches!(self.lift.sets[i], RepSet::Range { .. }) {
                return true;
            }
            i = i + 1;
        }
        false
    }

    /// The printed form of this attempt.
    pub fn format(&self) -> (r: String)
        requires
            self.lift.wf(),
            attempt_arith_ok(self@),
        ensures
            r@ == format_attempt_spec(self@),
    {
        let mut out: Vec<char> = Vec::new();
        let name = str_to_chars(self.lift.name.as_str());
        crate::text::append_chars(&mut out, &name);
        out.push(' ');
        out.push('-');
        out.push('>');
        out.push(' ');
        append_sets(&mut out, &self.lift.sets, 0);
        proof {
            assert(self.lift.sets@.skip(0) =~= self.lift.sets@);
        }
        match &self.lift.weight {
            WeightScheme::NoWeight => {},
            WeightScheme::BasedOnReference { multiplier, offset } => {
                out.push(' ');
                out.push('@');
                out.push(' ');
                let rw = match &self.weight {
                    Some(rw) => *rw,
                    None => 0,
                };
                let w = resolve_reference_weight(multiplier, *offset, rw);
                append_u64(&mut out, w);
            },
            WeightScheme::Any => {
                out.push(' ');
                out.push('@');
                out.push(' ');
                match &self.weight {
                    Some(w) => {
                        let r5 = round_up_to_nearest5(*w);
                        append_u64(&mut out, r5);
                    },
                    None => {
                        out.push('a');
                        out.push('n');
                        out.push('y');
                    },
                }
            },
            WeightScheme::LinearBasedOnPrevious { amount_to_increase } => {
                out.push(' ');
                out.push('@');
                out.push(' ');
                match &self.weight {
                    Some(w) => {
                        let r5 = round_up_to_nearest5(*w);
                        append_u64(&mut out, r5);
                    },
                    None => {
                        out.push('a');
                        out.push('n');
                        out.push('y');
                    },
                }
            },
        }
        proof {
            assert(out@ =~= format_attempt_spec(self@));
        }
        chars_to_string(&out)
    }
}

/// The weight printed for a reference-based lift, computed exactly.
fn resolve_reference_weight(m: &Multiplier, off: i64, rw: u64) -> (r: u64)
    requires
        m.wf(),
        m.mantissa * rw <= i128::MAX,
        m.mantissa * rw + off * (pow10(m.scale as nat) as int) <= i128::MAX,
        based_on_ref_weight(*m, off as int, rw as int) <= u64::MAX,
    ensures
        r == based_on_ref_weight(*m, off as int, rw as int),
{
    let p64 = crate::digits::pow10_u64(m.scale);
    let p: i128 = p64 as i128;
    proof {
        crate::digits::lemma_pow10_monotone(0, m.scale as nat);
        crate::digits::lemma_pow10_monotone(m.scale as nat, 19);
        reveal_with_fuel(pow10, 20);
        assert(pow10(19) == 10_000_000_000_000_000_000);
        assert((off as int) * (p as int) <= i128::MAX && (off as int) * (p as int)
            >= i128::MIN) by (nonlinear_arith)
            requires
                i64::MIN <= off <= i64::MAX,
                1 <= p <= 10_000_000_000_000_000_000,
        ;
        assert((m.mantissa as int) * (rw as int) >= 0) by (nonlinear_arith)
            requires
                m.mantissa >= 0,
                rw >= 0,
        ;
    }
    let prod: i128 = (m.mantissa as i128) * (rw as i128);
    let offp: i128 = (off as i128) * p;
    let numer: i128 = prod + offp;
    if numer <= 0 {
        proof {
            assert(round5_spec(0) == 0);
        }
        0
    } else {
        let q: i128 = (numer - 1) / p + 1;
        proof {
            assert((numer as int - 1) / (p as int) + 1 == ceil_div(numer as int, p as int))
                by (nonlinear_arith)
                requires
                    numer >= 1,
                    p >= 1,
            ;
            assert((numer as int - 1) / (p as int) <= numer as int - 1) by (nonlinear_arith)
                requires
                    numer >= 1,
                    p >= 1,
            ;
            assert(ceil_div(numer as int, p as int) >= 1) by (nonlinear_arith)
                requires
                    numer >= 1,
                    p >= 1,
            ;
            assert(round5_spec(q as int) >= q);
        }
        let qu: u64 = q as u64;
        round_up_to_nearest5(qu)
    }
}

} // verus!
