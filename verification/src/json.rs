use vstd::prelude::*;
use crate::day::{Day, DayView, format_day_spec, lemma_day_round_trip};
use crate::digits::{append_u64, dec_digits, is_digit_char, parse_u64_chars, parse_u64_spec};
use crate::lifting::{
    LiftAttemptResult, append_result, format_result_spec, lemma_result_round_trip,
    parse_result_spec,
};
use crate::programs::{Program, ProgramView, Weights, program_wf};
use crate::text::{append_chars, chars_to_string, contains_char, is_match_at, str_to_chars};
use crate::NotationError;

verus! {

// The persisted form of a program: one JSON object holding the scalar
// fields, each day as its notation text, the weights keyed by lift
// notation, and each past result as its notation text.

/// One character of a JSON string body: the quote and the backslash are
/// escaped, everything else stands for itself.
pub open spec fn esc1(c: char) -> Seq<char> {
    if c == '"' || c == '\\' {
        seq!['\\', c]
    } else {
        seq![c]
    }
}

pub open spec fn json_escape(s: Seq<char>) -> Seq<char>
    decreases s.len(),
{
    if s.len() == 0 {
        Seq::<char>::empty()
    } else {
        esc1(s[0]) + json_escape(s.drop_first())
    }
}

/// A JSON string: the escaped body between quotes.
pub open spec fn json_string(s: Seq<char>) -> Seq<char> {
    seq!['"'] + json_escape(s) + seq!['"']
}

proof fn lemma_json_escape_app(a: Seq<char>, b: Seq<char>)
    ensures
        json_escape(a + b) == json_escape(a) + json_escape(b),
    decreases a.len(),
{
    if a.len() == 0 {
        assert(a + b =~= b);
        assert(json_escape(a) + json_escape(b) =~= json_escape(b));
    } else {
        lemma_json_escape_app(a.drop_first(), b);
        assert((a + b).drop_first() =~= a.drop_first() + b);
        assert(esc1((a + b)[0]) + (json_escape(a.drop_first()) + json_escape(b)) =~= (esc1(a[0])
            + json_escape(a.drop_first())) + json_escape(b));
    }
}

/// Append the JSON form of a string.
pub fn append_json_string(out: &mut Vec<char>, s: &String)
    ensures
        final(out)@ == old(out)@ + json_string(s@),
{
    out.push('"');
    let v = str_to_chars(s.as_str());
    let mut i: usize = 0;
    while i < v.len()
        invariant
            0 <= i <= v@.len(),
            v@ == s@,
            out@ == old(out)@ + seq!['"'] + json_escape(s@.take(i as int)),
        decreases v@.len() - i,
    {
        let c = v[i];
        if c == '"' || c == '\\' {
            out.push('\\');
        }
        out.push(c);
        proof {
            assert(s@.take(i + 1) =~= s@.take(i as int) + seq![s@[i as int]]);
            lemma_json_escape_app(s@.take(i as int), seq![s@[i as int]]);
            assert(seq![s@[i as int]].drop_first() =~= Seq::<char>::empty());
            assert(json_escape(Seq::<char>::empty()) =~= Seq::<char>::empty());
            assert(json_escape(seq![s@[i as int]]) =~= esc1(s@[i as int]));
            assert(out@ =~= old(out)@ + seq!['"'] + json_escape(s@.take(i + 1)));
        }
        i = i + 1;
    }
    out.push('"');
    proof {
        assert(s@.take(s@.len() as int) =~= s@);
        assert(final(out)@ =~= old(out)@ + json_string(s@));
    }
}

// The object layout, field by field, in the order they are written.

pub open spec fn json_day_items(days: Seq<DayView>) -> Seq<char>
    decreases days.len(),
{
    if days.len() == 0 {
        Seq::<char>::empty()
    } else if days.len() == 1 {
        json_string(format_day_spec(days[0]))
    } else {
        json_string(format_day_spec(days[0])) + seq![','] + json_day_items(days.drop_first())
    }
}

pub open spec fn json_weight_items(ws: Seq<(Seq<char>, int)>) -> Seq<char>
    decreases ws.len(),
{
    if ws.len() == 0 {
        Seq::<char>::empty()
    } else if ws.len() == 1 {
        json_string(ws[0].0) + seq![':'] + dec_digits(ws[0].1 as nat)
    } else {
        json_string(ws[0].0) + seq![':'] + dec_digits(ws[0].1 as nat) + seq![',']
            + json_weight_items(ws.drop_first())
    }
}

pub open spec fn json_result_items(rs: Seq<LiftAttemptResult>) -> Seq<char>
    decreases rs.len(),
{
    if rs.len() == 0 {
        Seq::<char>::empty()
    } else if rs.len() == 1 {
        json_string(format_result_spec(rs[0]))
    } else {
        json_string(format_result_spec(rs[0])) + seq![','] + json_result_items(rs.drop_first())
    }
}

pub open spec fn json_result_lists(rss: Seq<Seq<LiftAttemptResult>>) -> Seq<char>
    decreases rss.len(),
{
    if rss.len() == 0 {
        Seq::<char>::empty()
    } else if rss.len() == 1 {
        seq!['['] + json_result_items(rss[0]) + seq![']']
    } else {
        seq!['['] + json_result_items(rss[0]) + seq![']'] + seq![','] + json_result_lists(
            rss.drop_first(),
        )
    }
}

// The persisted text is defined in stages: each spec names the text from
// one field on, so both the printer and the read-back argument can walk
// the object front to back.

pub open spec fn text_from_results(m: ProgramView) -> Seq<char> {
    ",\"past_attempt_results_in_notation\":["@ + json_result_lists(
        m.current_cycle_attempt_results,
    ) + "]}"@
}

pub open spec fn text_from_day_index(m: ProgramView) -> Seq<char> {
    "},\"current_day\":"@ + dec_digits(m.current_day as nat) + text_from_results(m)
}

pub open spec fn text_from_weights(m: ProgramView) -> Seq<char> {
    "],\"weights\":{"@ + json_weight_items(m.weights) + text_from_day_index(m)
}

pub open spec fn text_from_days(m: ProgramView) -> Seq<char> {
    ",\"days_in_notation\":["@ + json_day_items(m.days) + text_from_weights(m)
}

pub open spec fn text_from_reference(m: ProgramView) -> Seq<char> {
    ",\"reference_weight\":"@ + dec_digits(m.reference_weight as nat)
        + ",\"starting_reference_weight\":"@ + dec_digits(m.starting_reference_weight as nat)
        + text_from_days(m)
}

pub open spec fn text_from_name(m: ProgramView) -> Seq<char> {
    json_string(m.name) + ",\"workouts_completed\":"@ + dec_digits(m.workouts_completed as nat)
        + text_from_reference(m)
}

/// The whole persisted object.
pub open spec fn format_program_json(p: ProgramView) -> Seq<char> {
    "{\"name\":"@ + text_from_name(p)
}

fn append_lit(out: &mut Vec<char>, lit: &str)
    ensures
        final(out)@ == old(out)@ + lit@,
{
    let v = str_to_chars(lit);
    append_chars(out, &v);
}

fn append_day_items(out: &mut Vec<char>, days: &Vec<Day>, from: usize)
    requires
        from <= days.len(),
        forall|d: int, i: int|
            0 <= d < days@.len() && 0 <= i < days@[d].lifts@.len() ==> (#[trigger] days@[d].lifts@[
            i]).wf(),
    ensures
        final(out)@ == old(out)@ + json_day_items(days@.map_values(|d: Day| d@).skip(from as int)),
    decreases days.len() - from,
{
    let ghost rest = days@.map_values(|d: Day| d@).skip(from as int);
    if from == days.len() {
        proof {
            assert(rest =~= Seq::<DayView>::empty());
            assert(final(out)@ =~= old(out)@ + json_day_items(rest));
        }
        return;
    }
    proof {
        assert(rest[0] == days@[from as int]@);
        assert(forall|i: int|
            0 <= i < days@[from as int].lifts@.len() ==> (#[trigger] days@[from as int].lifts@[
            i]).wf());
    }
    let text = days[from].format();
    append_json_string(out, &text);
    if from + 1 < days.len() {
        out.push(',');
        append_day_items(out, days, from + 1);
        proof {
            assert(days@.map_values(|d: Day| d@).skip(from + 1) =~= rest.drop_first());
            assert(final(out)@ =~= old(out)@ + json_day_items(rest));
        }
    } else {
        proof {
            assert(rest.len() == 1);
            assert(final(out)@ =~= old(out)@ + json_day_items(rest));
        }
    }
}

fn append_weight_items(out: &mut Vec<char>, w: &Weights, from: usize)
    requires
        from <= w.entries.len(),
    ensures
        final(out)@ == old(out)@ + json_weight_items(w@.skip(from as int)),
    decreases w.entries.len() - from,
{
    let ghost rest = w@.skip(from as int);
    if from == w.entries.len() {
        proof {
            assert(rest =~= Seq::<(Seq<char>, int)>::empty());
            assert(final(out)@ =~= old(out)@ + json_weight_items(rest));
        }
        return;
    }
    proof {
        assert(rest[0] == (w.entries@[from as int].0@, w.entries@[from as int].1 as int));
    }
    append_json_string(out, &w.entries[from].0);
    out.push(':');
    append_u64(out, w.entries[from].1);
    if from + 1 < w.entries.len() {
        out.push(',');
        append_weight_items(out, w, from + 1);
        proof {
            assert(w@.skip(from + 1) =~= rest.drop_first());
            assert(final(out)@ =~= old(out)@ + json_weight_items(rest));
        }
    } else {
        proof {
            assert(rest.len() == 1);
            assert(final(out)@ =~= old(out)@ + json_weight_items(rest));
        }
    }
}

fn append_result_items(out: &mut Vec<char>, rs: &Vec<LiftAttemptResult>, from: usize)
    requires
        from <= rs.len(),
    ensures
        final(out)@ == old(out)@ + json_result_items(rs@.skip(from as int)),
    decreases rs.len() - from,
{
    let ghost rest = rs@.skip(from as int);
    if from == rs.len() {
        proof {
            assert(rest =~= Seq::<LiftAttemptResult>::empty());
            assert(final(out)@ =~= old(out)@ + json_result_items(rest));
        }
        return;
    }
    out.push('"');
    let r = rs[from];
    append_result(out, &r);
    out.push('"');
    proof {
        assert(rest[0] == rs@[from as int]);
        lemma_result_chars_plain(rs@[from as int]);
        assert(json_string(format_result_spec(rs@[from as int])) =~= seq!['"']
            + format_result_spec(rs@[from as int]) + seq!['"']);
    }
    if from + 1 < rs.len() {
        out.push(',');
        append_result_items(out, rs, from + 1);
        proof {
            assert(rs@.skip(from + 1) =~= rest.drop_first());
            assert(final(out)@ =~= old(out)@ + json_result_items(rest));
        }
    } else {
        proof {
            assert(rest.len() == 1);
            assert(final(out)@ =~= old(out)@ + json_result_items(rest));
        }
    }
}

/// A result notation needs no escaping inside a JSON string.
proof fn lemma_result_chars_plain(r: LiftAttemptResult)
    ensures
        json_escape(format_result_spec(r)) == format_result_spec(r),
{
    lemma_escape_plain(format_result_spec(r));
    assert forall|i: int|
        0 <= i < format_result_spec(r).len() implies #[trigger] format_result_spec(r)[i] != '"'
        && format_result_spec(r)[i] != '\\' by {}
    lemma_escape_plain(format_result_spec(r));
}

/// Text without quotes and backslashes escapes to itself.
pub proof fn lemma_escape_plain(s: Seq<char>)
    requires
        forall|i: int| 0 <= i < s.len() ==> #[trigger] s[i] != '"' && s[i] != '\\',
    ensures
        json_escape(s) == s,
    decreases s.len(),
{
    if s.len() > 0 {
        assert(forall|i: int|
            0 <= i < s.drop_first().len() ==> #[trigger] s.drop_first()[i] == s[i + 1]);
        lemma_escape_plain(s.drop_first());
        assert(json_escape(s) =~= s);
    }
}

fn append_result_lists(out: &mut Vec<char>, rss: &Vec<Vec<LiftAttemptResult>>, from: usize)
    requires
        from <= rss.len(),
    ensures
        final(out)@ == old(out)@ + json_result_lists(
            rss@.map_values(|v: Vec<LiftAttemptResult>| v@).skip(from as int),
        ),
    decreases rss.len() - from,
{
    let ghost rest = rss@.map_values(|v: Vec<LiftAttemptResult>| v@).skip(from as int);
    if from == rss.len() {
        proof {
            assert(rest =~= Seq::<Seq<LiftAttemptResult>>::empty());
            assert(final(out)@ =~= old(out)@ + json_result_lists(rest));
        }
        return;
    }
    proof {
        assert(rest[0] == rss@[from as int]@);
    }
    out.push('[');
    append_result_items(out, &rss[from], 0);
    proof {
        assert(rss@[from as int]@.skip(0) =~= rss@[from as int]@);
    }
    out.push(']');
    if from + 1 < rss.len() {
        out.push(',');
        append_result_lists(out, rss, from + 1);
        proof {
            assert(rss@.map_values(|v: Vec<LiftAttemptResult>| v@).skip(from + 1)
                =~= rest.drop_first());
            assert(final(out)@ =~= old(out)@ + json_result_lists(rest));
        }
    } else {
        proof {
            assert(rest.len() == 1);
            assert(final(out)@ =~= old(out)@ + json_result_lists(rest));
        }
    }
}

/// The staged text from the weights on, written out flat.
#[verifier::rlimit(100)]
proof fn lemma_program_text_flat_tail(m: ProgramView)
    ensures
        text_from_weights(m) == "],\"weights\":{"@ + json_weight_items(m.weights)
            + "},\"current_day\":"@ + dec_digits(m.current_day as nat)
            + ",\"past_attempt_results_in_notation\":["@ + json_result_lists(
            m.current_cycle_attempt_results,
        ) + "]}"@,
{
    let a6 = "],\"weights\":{"@;
    let a7 = "},\"current_day\":"@;
    let a8 = ",\"past_attempt_results_in_notation\":["@;
    let a9 = "]}"@;
    let c = dec_digits(m.current_day as nat);
    let wi = json_weight_items(m.weights);
    let li = json_result_lists(m.current_cycle_attempt_results);
    assert(text_from_day_index(m) =~= a7 + c + a8 + li + a9);
    assert(text_from_weights(m) =~= a6 + wi + a7 + c + a8 + li + a9);
}

/// The staged text from the reference weight on, written out flat.
#[verifier::rlimit(100)]
proof fn lemma_program_text_flat_mid(m: ProgramView)
    ensures
        text_from_reference(m) == ",\"reference_weight\":"@ + dec_digits(m.reference_weight as nat)
            + ",\"starting_reference_weight\":"@ + dec_digits(m.starting_reference_weight as nat)
            + ",\"days_in_notation\":["@ + json_day_items(m.days) + "],\"weights\":{"@
            + json_weight_items(m.weights) + "},\"current_day\":"@ + dec_digits(
            m.current_day as nat,
        ) + ",\"past_attempt_results_in_notation\":["@ + json_result_lists(
            m.current_cycle_attempt_results,
        ) + "]}"@,
{
    lemma_program_text_flat_tail(m);
    let a3 = ",\"reference_weight\":"@;
    let a4 = ",\"starting_reference_weight\":"@;
    let a5 = ",\"days_in_notation\":["@;
    let a6 = "],\"weights\":{"@;
    let a7 = "},\"current_day\":"@;
    let a8 = ",\"past_attempt_results_in_notation\":["@;
    let a9 = "]}"@;
    let rw = dec_digits(m.reference_weight as nat);
    let srw = dec_digits(m.starting_reference_weight as nat);
    let c = dec_digits(m.current_day as nat);
    let di = json_day_items(m.days);
    let wi = json_weight_items(m.weights);
    let li = json_result_lists(m.current_cycle_attempt_results);
    assert(text_from_days(m) =~= a5 + di + a6 + wi + a7 + c + a8 + li + a9);
    assert(text_from_reference(m) =~= a3 + rw + a4 + srw + a5 + di + a6 + wi + a7 + c + a8 + li
        + a9);
}

/// The staged text, written out flat.
#[verifier::rlimit(100)]
proof fn lemma_program_text_flat(m: ProgramView)
    ensures
        format_program_json(m) == "{\"name\":"@ + json_string(m.name)
            + ",\"workouts_completed\":"@ + dec_digits(m.workouts_completed as nat)
            + ",\"reference_weight\":"@ + dec_digits(m.reference_weight as nat)
            + ",\"starting_reference_weight\":"@ + dec_digits(m.starting_reference_weight as nat)
            + ",\"days_in_notation\":["@ + json_day_items(m.days) + "],\"weights\":{"@
            + json_weight_items(m.weights) + "},\"current_day\":"@ + dec_digits(
            m.current_day as nat,
        ) + ",\"past_attempt_results_in_notation\":["@ + json_result_lists(
            m.current_cycle_attempt_results,
        ) + "]}"@,
{
    lemma_program_text_flat_mid(m);
    let a2 = ",\"workouts_completed\":"@;
    let a3 = ",\"reference_weight\":"@;
    let a4 = ",\"starting_reference_weight\":"@;
    let a5 = ",\"days_in_notation\":["@;
    let a6 = "],\"weights\":{"@;
    let a7 = "},\"current_day\":"@;
    let a8 = ",\"past_attempt_results_in_notation\":["@;
    let a9 = "]}"@;
    let w = dec_digits(m.workouts_completed as nat);
    let rw = dec_digits(m.reference_weight as nat);
    let srw = dec_digits(m.starting_reference_weight as nat);
    let c = dec_digits(m.current_day as nat);
    let di = json_day_items(m.days);
    let wi = json_weight_items(m.weights);
    let li = json_result_lists(m.current_cycle_attempt_results);
    assert(text_from_name(m) =~= json_string(m.name) + a2 + w + a3 + rw + a4 + srw + a5 + di + a6
        + wi + a7 + c + a8 + li + a9);
    assert(format_program_json(m) =~= "{\"name\":"@ + json_string(m.name) + a2 + w + a3 + rw + a4
        + srw + a5 + di + a6 + wi + a7 + c + a8 + li + a9);
}

impl Program {
    /// The persisted JSON text of this program.
    #[verifier::rlimit(100)]
    pub fn to_json(&self) -> (r: String)
        requires
            self.wf(),
        ensures
            r@ == format_program_json(self@),
    {
        proof {
            assert forall|d: int, i: int|
                0 <= d < self.days@.len() && 0 <= i < self.days@[d].lifts@.len() implies (
            #[trigger] self.days@[d].lifts@[i]).wf() by {
                assert(self@.days[d] == self.days@[d]@);
                assert(self.days@[d]@.lifts[i] == self.days@[d].lifts@[i]@);
                assert(self@.days[d].lifts[i].weight.wf());
            }
        }
        let mut out: Vec<char> = Vec::new();
        append_lit(&mut out, "{\"name\":");
        append_json_string(&mut out, &self.name);
        append_lit(&mut out, ",\"workouts_completed\":");
        append_u64(&mut out, self.workouts_completed);
        append_lit(&mut out, ",\"reference_weight\":");
        append_u64(&mut out, self.reference_weight);
        append_lit(&mut out, ",\"starting_reference_weight\":");
        append_u64(&mut out, self.starting_reference_weight);
        append_lit(&mut out, ",\"days_in_notation\":[");
        append_day_items(&mut out, &self.days, 0);
        proof {
            assert(self.days@.map_values(|d: Day| d@).skip(0) =~= self@.days);
        }
        append_lit(&mut out, "],\"weights\":{");
        append_weight_items(&mut out, &self.weights, 0);
        proof {
            assert(self.weights@.skip(0) =~= self@.weights);
        }
        append_lit(&mut out, "},\"current_day\":");
        let cd64: u64 = self.current_day as u64;
        append_u64(&mut out, cd64);
        append_lit(&mut out, ",\"past_attempt_results_in_notation\":[");
        append_result_lists(&mut out, &self.current_cycle_attempt_results, 0);
        proof {
            assert(self.current_cycle_attempt_results@.map_values(
                |v: Vec<LiftAttemptResult>| v@,
            ).skip(0) =~= self@.current_cycle_attempt_results);
        }
        append_lit(&mut out, "]}");
        proof {
            lemma_program_text_flat(self@);
            assert(out@ =~= format_program_json(self@));
        }
        chars_to_string(&out)
    }
}

// Reading the persisted object back.

/// Skip past an expected literal: succeeds exactly when the literal stands
/// at the position.
fn expect_lit(v: &Vec<char>, pos: usize, lit: &str) -> (r: Option<usize>)
    requires
        pos <= v.len(),
    ensures
        r matches Some(p2) ==> p2 == pos + lit@.len() && p2 <= v@.len() && is_match_at(
            v@,
            lit@,
            pos as int,
        ),
        is_match_at(v@, lit@, pos as int) ==> r is Some,
{
    let l = str_to_chars(lit);
    if v.len() - pos < l.len() {
        return None;
    }
    let mut i: usize = 0;
    while i < l.len()
        invariant
            0 <= i <= l.len(),
            pos + l.len() <= v.len(),
            l@ == lit@,
            forall|j: int| 0 <= j < i ==> v@[pos + j] == #[trigger] l@[j],
        decreases l.len() - i,
    {
        if v[pos + i] != l[i] {
            proof {
                if is_match_at(v@, lit@, pos as int) {
                    assert(v@.subrange(pos as int, pos + lit@.len())[i as int] == v@[pos + i]);
                }
            }
            return None;
        }
        i = i + 1;
    }
    proof {
        assert(v@.subrange(pos as int, pos + lit@.len()) =~= lit@);
    }
    Some(pos + l.len())
}

/// Read a run of digits as a number: reads exactly the canonical digits of
/// whatever number stands at the position.
fn scan_u64(v: &Vec<char>, pos: usize) -> (r: Option<(u64, usize)>)
    requires
        pos <= v.len(),
    ensures
        r matches Some(x) ==> pos <= x.1 <= v@.len(),
        forall|n: u64, rest: Seq<char>|
            (v@.skip(pos as int) == #[trigger] (dec_digits(n as nat) + rest) && (rest.len() > 0
                ==> !is_digit_char(rest[0]))) ==> r == Some(
                (n, (pos + dec_digits(n as nat).len()) as usize),
            ),
{
    let mut end: usize = pos;
    while end < v.len() && crate::digits::char_is_digit(v[end])
        invariant
            pos <= end <= v.len(),
            forall|j: int| pos <= j < end ==> is_digit_char(#[trigger] v@[j]),
        decreases v.len() - end,
    {
        end = end + 1;
    }
    let parsed = parse_u64_chars(v, pos, end);
    let r = match parsed {
        Some(n) => Some((n, end)),
        None => None,
    };
    proof {
        assert forall|n: u64, rest: Seq<char>|
            (v@.skip(pos as int) == #[trigger] (dec_digits(n as nat) + rest) && (rest.len() > 0
                ==> !is_digit_char(rest[0]))) implies r == Some(
            (n, (pos + dec_digits(n as nat).len()) as usize),
        ) by {
            let d = dec_digits(n as nat);
            crate::digits::lemma_dec_digits(n as nat);
            assert forall|j: int| 0 <= j < d.len() implies v@[pos + j] == #[trigger] d[j] by {
                assert(v@.skip(pos as int)[j] == v@[pos + j]);
                assert((d + rest)[j] == d[j]);
            }
            if end < pos + d.len() {
                assert(v@[end as int] == d[end - pos]);
                assert(is_digit_char(v@[end as int]));
                assert(end < v@.len());
            }
            if end > pos + d.len() {
                assert(rest.len() > 0);
                assert(v@.skip(pos as int)[d.len() as int] == v@[pos + d.len()]);
                assert((d + rest)[d.len() as int] == rest[0]);
                assert(is_digit_char(v@[pos + d.len()]));
            }
            assert(end == pos + d.len());
            assert(v@.subrange(pos as int, end as int) =~= d);
            assert(parse_u64_spec(d) == Some(n));
        }
    }
    r
}

/// Text that needs no JSON escapes.
pub open spec fn quote_free(s: Seq<char>) -> bool {
    forall|i: int| 0 <= i < s.len() ==> #[trigger] s[i] != '"' && s[i] != '\\'
}

/// Read a JSON string, undoing the escapes.  Whenever the JSON form of some
/// escape-free text stands at the position, exactly that text is read.
fn scan_string(v: &Vec<char>, pos: usize) -> (r: Option<(String, usize)>)
    requires
        pos <= v.len(),
    ensures
        r matches Some(x) ==> pos < x.1 <= v@.len(),
        forall|x: Seq<char>, rest: Seq<char>|
            (quote_free(x) && v@.skip(pos as int) == #[trigger] (json_string(x) + rest)) ==> (
            r matches Some(y) && y.0@ == x && y.1 == pos + x.len() + 2),
{
    let ghost has = exists|x: Seq<char>, rest: Seq<char>|
        quote_free(x) && v@.skip(pos as int) == json_string(x) + rest;
    let ghost (gx, grest): (Seq<char>, Seq<char>) = if has {
        choose|x: Seq<char>, rest: Seq<char>|
            quote_free(x) && v@.skip(pos as int) == json_string(x) + rest
    } else {
        (Seq::<char>::empty(), Seq::<char>::empty())
    };
    proof {
        if has {
            lemma_escape_plain(gx);
            lemma_string_span_chars(v@, pos as int, gx, grest);
        }
    }
    if pos >= v.len() || v[pos] != '"' {
        proof {
            assert(!has);
        }
        return None;
    }
    let mut out: Vec<char> = Vec::new();
    let mut i: usize = pos + 1;
    while i < v.len()
        invariant
            pos < i <= v.len(),
            pos < v.len(),
            has == exists|x: Seq<char>, rest: Seq<char>|
                quote_free(x) && v@.skip(pos as int) == json_string(x) + rest,
            has ==> quote_free(gx) && pos + gx.len() + 2 <= v@.len() && (forall|j: int|
                0 <= j < gx.len() ==> v@[pos + 1 + j] == #[trigger] gx[j]) && v@[pos + 1
                + gx.len()] == '"',
            has ==> out@.len() <= gx.len() && out@ == gx.take(out@.len() as int) && i == pos + 1
                + out@.len(),
        decreases v.len() - i,
    {
        let c = v[i];
        if c == '"' {
            proof {
                if has {
                    if out@.len() < gx.len() {
                        assert(v@[i as int] == gx[out@.len() as int]);
                    }
                    assert(out@ =~= gx);
                }
                assert forall|x: Seq<char>, rest: Seq<char>|
                    (quote_free(x) && v@.skip(pos as int) == #[trigger] (json_string(x)
                        + rest)) implies x == gx by {
                    assert(has);
                    lemma_string_span_chars(v@, pos as int, x, rest);
                    if x.len() < gx.len() {
                        assert(v@[pos + 1 + x.len()] == '"');
                        assert(v@[pos + 1 + x.len()] == gx[x.len() as int]);
                    }
                    if x.len() > gx.len() {
                        assert(v@[pos + 1 + gx.len()] == '"');
                        assert(v@[pos + 1 + gx.len()] == x[gx.len() as int]);
                    }
                    assert(x.len() == gx.len());
                    assert(x =~= gx);
                }
            }
            return Some((chars_to_string(&out), i + 1));
        }
        if c == '\\' {
            proof {
                if has {
                    if out@.len() < gx.len() {
                        assert(v@[i as int] == gx[out@.len() as int]);
                        assert(gx[out@.len() as int] != '\\');
                    } else {
                        assert(v@[i as int] == '"');
                    }
                    assert(false);
                }
                assert(!has);
            }
            if i + 1 >= v.len() {
                return None;
            }
            out.push(v[i + 1]);
            i = i + 2;
            if i > v.len() {
                return None;
            }
        } else {
            proof {
                if has {
                    if out@.len() == gx.len() {
                        assert(v@[i as int] == '"');
                    }
                    assert(gx.take(out@.len() as int + 1) =~= gx.take(out@.len() as int).push(
                        gx[out@.len() as int],
                    ));
                }
            }
            out.push(c);
            i = i + 1;
        }
    }
    proof {
        if has {
            assert(i <= pos + 1 + gx.len());
            assert(pos + 1 + gx.len() < v@.len());
        }
    }
    None
}

/// Unpack what it means for a JSON string of escape-free text to stand at a
/// position.
proof fn lemma_string_span_chars(v: Seq<char>, pos: int, x: Seq<char>, rest: Seq<char>)
    requires
        0 <= pos <= v.len(),
        quote_free(x),
        v.skip(pos) == json_string(x) + rest,
    ensures
        pos + x.len() + 2 <= v.len(),
        v[pos] == '"',
        forall|j: int| 0 <= j < x.len() ==> v[pos + 1 + j] == #[trigger] x[j],
        v[pos + 1 + x.len()] == '"',
{
    lemma_escape_plain(x);
    let js = json_string(x);
    assert(js =~= seq!['"'] + x + seq!['"']);
    assert(v.skip(pos).len() == v.len() - pos);
    assert(v.skip(pos)[0] == v[pos]);
    assert((js + rest)[0] == '"');
    assert forall|j: int| 0 <= j < x.len() implies v[pos + 1 + j] == #[trigger] x[j] by {
        assert(v.skip(pos)[1 + j] == v[pos + 1 + j]);
        assert((js + rest)[1 + j] == js[1 + j]);
        assert(js[1 + j] == x[j]);
    }
    assert(v.skip(pos)[1 + x.len() as int] == v[pos + 1 + x.len()]);
    assert((js + rest)[1 + x.len() as int] == js[1 + x.len() as int]);
}

/// Comma-joined JSON strings: the body of an array of strings.
pub open spec fn json_string_items(xs: Seq<Seq<char>>) -> Seq<char>
    decreases xs.len(),
{
    if xs.len() == 0 {
        Seq::<char>::empty()
    } else if xs.len() == 1 {
        json_string(xs[0])
    } else {
        json_string(xs[0]) + seq![','] + json_string_items(xs.drop_first())
    }
}

/// The days field is an array of the days' notation strings.
proof fn lemma_day_items_are_string_items(days: Seq<DayView>)
    ensures
        json_day_items(days) == json_string_items(days.map_values(|d: DayView| format_day_spec(d))),
    decreases days.len(),
{
    let m = days.map_values(|d: DayView| format_day_spec(d));
    if days.len() == 0 {
    } else if days.len() == 1 {
        assert(m[0] == format_day_spec(days[0]));
    } else {
        lemma_day_items_are_string_items(days.drop_first());
        assert(days.drop_first().map_values(|d: DayView| format_day_spec(d)) =~= m.drop_first());
        assert(m[0] == format_day_spec(days[0]));
    }
}

/// A past day's results are an array of the results' notation strings.
proof fn lemma_result_items_are_string_items(rs: Seq<LiftAttemptResult>)
    ensures
        json_result_items(rs) == json_string_items(
            rs.map_values(|r: LiftAttemptResult| format_result_spec(r)),
        ),
    decreases rs.len(),
{
    let m = rs.map_values(|r: LiftAttemptResult| format_result_spec(r));
    if rs.len() == 0 {
    } else if rs.len() == 1 {
        assert(m[0] == format_result_spec(rs[0]));
    } else {
        lemma_result_items_are_string_items(rs.drop_first());
        assert(rs.drop_first().map_values(|r: LiftAttemptResult| format_result_spec(r))
            =~= m.drop_first());
        assert(m[0] == format_result_spec(rs[0]));
    }
}

/// Only one escape-free text can open a JSON string at a given position.
proof fn lemma_json_string_unique(
    v: Seq<char>,
    pos: int,
    x1: Seq<char>,
    r1: Seq<char>,
    x2: Seq<char>,
    r2: Seq<char>,
)
    requires
        0 <= pos <= v.len(),
        quote_free(x1),
        quote_free(x2),
        v.skip(pos) == json_string(x1) + r1,
        v.skip(pos) == json_string(x2) + r2,
    ensures
        x1 == x2,
        r1 == r2,
{
    lemma_string_span_chars(v, pos, x1, r1);
    lemma_string_span_chars(v, pos, x2, r2);
    if x1.len() < x2.len() {
        assert(v[pos + 1 + x1.len()] == '"');
        assert(v[pos + 1 + x1.len()] == x2[x1.len() as int]);
    }
    if x1.len() > x2.len() {
        assert(v[pos + 1 + x2.len()] == '"');
        assert(v[pos + 1 + x2.len()] == x1[x2.len() as int]);
    }
    assert(x1.len() == x2.len());
    assert(x1 =~= x2);
    assert(json_string(x1).len() == json_string(x2).len());
    assert((json_string(x1) + r1).len() == json_string(x1).len() + r1.len());
    assert((json_string(x2) + r2).len() == json_string(x2).len() + r2.len());
    assert(json_string(x1).len() + r1.len() == v.skip(pos).len());
    assert(json_string(x2).len() + r2.len() == v.skip(pos).len());
    assert(json_string(x1) == json_string(x2));
    assert(r1.len() == r2.len());
    assert forall|j: int| 0 <= j < r1.len() implies r1[j] == r2[j] by {
        let n = json_string(x1).len() as int;
        assert((json_string(x1) + r1)[n + j] == r1[j]);
        assert((json_string(x2) + r2)[n + j] == r2[j]);
    }
    assert(r1 =~= r2);
}

/// Only one list of escape-free texts can fill a string array whose tail
/// starts with the closing bracket.
proof fn lemma_string_items_unique(
    v: Seq<char>,
    pos: int,
    xs1: Seq<Seq<char>>,
    r1: Seq<char>,
    xs2: Seq<Seq<char>>,
    r2: Seq<char>,
)
    requires
        0 <= pos <= v.len(),
        xs1.len() >= 1,
        xs2.len() >= 1,
        forall|k: int| 0 <= k < xs1.len() ==> quote_free(#[trigger] xs1[k]),
        forall|k: int| 0 <= k < xs2.len() ==> quote_free(#[trigger] xs2[k]),
        v.skip(pos) == json_string_items(xs1) + r1,
        v.skip(pos) == json_string_items(xs2) + r2,
        r1.len() > 0 && r1[0] == ']',
        r2.len() > 0 && r2[0] == ']',
    ensures
        xs1 == xs2,
        r1 == r2,
    decreases xs1.len(),
{
    let h1 = xs1[0];
    let h2 = xs2[0];
    let t1: Seq<char> = if xs1.len() == 1 {
        r1
    } else {
        seq![','] + json_string_items(xs1.drop_first()) + r1
    };
    let t2: Seq<char> = if xs2.len() == 1 {
        r2
    } else {
        seq![','] + json_string_items(xs2.drop_first()) + r2
    };
    assert(v.skip(pos) =~= json_string(h1) + t1);
    assert(v.skip(pos) =~= json_string(h2) + t2);
    lemma_json_string_unique(v, pos, h1, t1, h2, t2);
    assert(t1[0] == t2[0]);
    if xs1.len() == 1 && xs2.len() == 1 {
        assert(xs1 =~= xs2);
    } else if xs1.len() == 1 {
        assert(t1[0] == ']' && t2[0] == ',');
    } else if xs2.len() == 1 {
        assert(t2[0] == ']' && t1[0] == ',');
    } else {
        let q = pos + json_string(h1).len() + 1;
        assert(v.skip(q) =~= json_string_items(xs1.drop_first()) + r1) by {
            assert forall|j: int| 0 <= j < v.len() - q implies v.skip(q)[j] == (json_string_items(
                xs1.drop_first(),
            ) + r1)[j] by {
                assert(v.skip(pos)[json_string(h1).len() + 1 + j] == v[q + j]);
                assert((json_string(h1) + t1)[json_string(h1).len() + 1 + j] == t1[1 + j]);
            }
        }
        assert(v.skip(q) =~= json_string_items(xs2.drop_first()) + r2) by {
            assert forall|j: int| 0 <= j < v.len() - q implies v.skip(q)[j] == (json_string_items(
                xs2.drop_first(),
            ) + r2)[j] by {
                assert(v.skip(pos)[json_string(h2).len() + 1 + j] == v[q + j]);
                assert((json_string(h2) + t2)[json_string(h2).len() + 1 + j] == t2[1 + j]);
            }
        }
        assert(forall|k: int|
            0 <= k < xs1.drop_first().len() ==> #[trigger] xs1.drop_first()[k] == xs1[k + 1]);
        assert(forall|k: int|
            0 <= k < xs2.drop_first().len() ==> #[trigger] xs2.drop_first()[k] == xs2[k + 1]);
        assert(0 <= q <= v.len()) by {
            assert(v.skip(pos).len() >= json_string(h1).len() + 1);
        }
        lemma_string_items_unique(v, q, xs1.drop_first(), r1, xs2.drop_first(), r2);
        assert(forall|j: int|
            1 <= j < xs1.len() ==> #[trigger] xs1[j] == xs1.drop_first()[j - 1]);
        assert(forall|j: int|
            1 <= j < xs2.len() ==> #[trigger] xs2[j] == xs2.drop_first()[j - 1]);
        assert(xs1 =~= xs2);
    }
}

/// Read a JSON array of strings, stopping before the closing bracket.
/// Whenever a comma-joined list of escape-free JSON strings stands at the
/// position, followed by the closing bracket, exactly those texts are read.
fn scan_string_array(v: &Vec<char>, pos: usize) -> (r: Option<(Vec<String>, usize)>)
    requires
        pos <= v.len(),
    ensures
        r matches Some(x) ==> pos <= x.1 <= v@.len(),
        (pos < v@.len() && v@[pos as int] == ']') ==> (r matches Some(y) && y.0@.len() == 0
            && y.1 == pos),
        forall|xs: Seq<Seq<char>>, rest: Seq<char>|
            (xs.len() >= 1 && (forall|k: int| 0 <= k < xs.len() ==> quote_free(#[trigger] xs[k]))
                && v@.skip(pos as int) == #[trigger] (json_string_items(xs) + rest) && rest.len()
                > 0 && rest[0] == ']') ==> (r matches Some(y) && y.0@.map_values(|s: String| s@)
                == xs && y.1 == pos + json_string_items(xs).len()),
{
    let ghost ghas = exists|xs: Seq<Seq<char>>, rest: Seq<char>|
        xs.len() >= 1 && (forall|k: int| 0 <= k < xs.len() ==> quote_free(#[trigger] xs[k]))
            && v@.skip(pos as int) == json_string_items(xs) + rest && rest.len() > 0 && rest[0]
            == ']';
    let ghost (gxs, grest): (Seq<Seq<char>>, Seq<char>) = if ghas {
        choose|xs: Seq<Seq<char>>, rest: Seq<char>|
            xs.len() >= 1 && (forall|k: int| 0 <= k < xs.len() ==> quote_free(#[trigger] xs[k]))
                && v@.skip(pos as int) == json_string_items(xs) + rest && rest.len() > 0
                && rest[0] == ']'
    } else {
        (Seq::<Seq<char>>::empty(), Seq::<char>::empty())
    };
    let mut out: Vec<String> = Vec::new();
    let mut p = pos;
    if p < v.len() && v[p] == ']' {
        proof {
            if ghas {
                let t0: Seq<char> = if gxs.len() == 1 {
                    grest
                } else {
                    seq![','] + json_string_items(gxs.skip(1)) + grest
                };
                assert(gxs.drop_first() =~= gxs.skip(1));
                assert(v@.skip(pos as int) =~= json_string(gxs[0]) + t0);
                lemma_string_span_chars(v@, pos as int, gxs[0], t0);
                assert(v@[pos as int] == '"');
            }
            assert(!ghas);
        }
        return Some((out, p));
    }
    proof {
        if ghas {
            assert(gxs.skip(0) =~= gxs);
            assert(out@.map_values(|s: String| s@) =~= gxs.take(0));
        }
    }
    loop
        invariant
            pos <= p <= v.len(),
            !(pos < v@.len() && v@[pos as int] == ']'),
            ghas == exists|xs: Seq<Seq<char>>, rest: Seq<char>|
                xs.len() >= 1 && (forall|k: int|
                    0 <= k < xs.len() ==> quote_free(#[trigger] xs[k])) && v@.skip(pos as int)
                    == json_string_items(xs) + rest && rest.len() > 0 && rest[0] == ']',
            ghas ==> gxs.len() >= 1 && (forall|k: int|
                0 <= k < gxs.len() ==> quote_free(#[trigger] gxs[k])) && v@.skip(pos as int)
                == json_string_items(gxs) + grest && grest.len() > 0 && grest[0] == ']',
            ghas ==> out@.len() < gxs.len() && out@.map_values(|s: String| s@) == gxs.take(
                out@.len() as int,
            ) && v@.skip(p as int) == json_string_items(gxs.skip(out@.len() as int)) + grest && p
                == pos + json_string_items(gxs).len() - json_string_items(
                gxs.skip(out@.len() as int),
            ).len(),
        decreases v.len() - p,
    {
        let ghost k = out@.len() as int;
        let ghost tail: Seq<char> = if ghas && k < gxs.len() - 1 {
            seq![','] + json_string_items(gxs.skip(k + 1)) + grest
        } else {
            grest
        };
        let ghost js = json_string(if ghas {
            gxs[k]
        } else {
            Seq::<char>::empty()
        });
        proof {
            if ghas {
                assert(gxs.skip(k)[0] == gxs[k]);
                assert(gxs.skip(k).drop_first() =~= gxs.skip(k + 1));
                assert(v@.skip(p as int) =~= js + tail);
                assert(quote_free(gxs[k]));
                lemma_escape_plain(gxs[k]);
                assert(js.len() == gxs[k].len() + 2);
                assert(v@.skip(p as int).len() == js.len() + tail.len());
                assert(tail.len() > 0);
                assert(p + js.len() < v@.len());
                assert(v@.skip(p as int)[js.len() as int] == v@[p + js.len()]);
                assert((js + tail)[js.len() as int] == tail[0]);
            }
        }
        match scan_string(v, p) {
            Some((s, p2)) => {
                proof {
                    if ghas {
                        assert(s@ == gxs[k] && p2 == p + gxs[k].len() + 2);
                        assert(p2 == p + js.len());
                        assert(v@[p2 as int] == tail[0]);
                        assert(p2 < v@.len());
                    }
                }
                out.push(s);
                p = p2;
                if p < v.len() && v[p] == ',' {
                    proof {
                        if ghas {
                            if k == gxs.len() - 1 {
                                assert(tail[0] == ']');
                            }
                            assert(k < gxs.len() - 1);
                            assert(out@.map_values(|s2: String| s2@) =~= gxs.take(k + 1));
                            assert(v@.skip(p + 1 as int) =~= json_string_items(gxs.skip(k + 1))
                                + grest) by {
                                assert forall|j: int|
                                    0 <= j < v@.len() - (p + 1) implies #[trigger] v@.skip(
                                    p + 1 as int,
                                )[j] == (json_string_items(gxs.skip(k + 1)) + grest)[j] by {
                                    assert(v@.skip(p - js.len())[js.len() + 1 + j] == v@[p + 1
                                        + j]);
                                    assert((js + tail)[js.len() + 1 + j] == tail[1 + j]);
                                    assert(tail[1 + j] == (json_string_items(gxs.skip(k + 1))
                                        + grest)[j]);
                                }
                            }
                            assert(json_string_items(gxs.skip(k)).len() == js.len() + 1
                                + json_string_items(gxs.skip(k + 1)).len());
                        }
                    }
                    let ghost oldp = p;
                    p = p + 1;
                    proof {
                        assert(v@.len() - p < v@.len() - oldp);
                    }
                } else {
                    proof {
                        if ghas {
                            if k < gxs.len() - 1 {
                                assert(tail[0] == ',');
                                assert(v@[p as int] == ',');
                                assert(false);
                            }
                            assert(k == gxs.len() - 1);
                            assert(tail == grest);
                            assert(out@.map_values(|s2: String| s2@) =~= gxs.take(k + 1));
                            assert(gxs.take(k + 1) =~= gxs);
                            assert(json_string_items(gxs.skip(k)) == js);
                            assert(p == pos + json_string_items(gxs).len());
                        }
                        assert forall|xs: Seq<Seq<char>>, rest: Seq<char>|
                            (xs.len() >= 1 && (forall|k2: int|
                                0 <= k2 < xs.len() ==> quote_free(#[trigger] xs[k2]))
                                && v@.skip(pos as int) == #[trigger] (json_string_items(xs)
                                + rest) && rest.len() > 0 && rest[0] == ']') implies (xs == gxs
                            && rest == grest) by {
                            assert(ghas);
                            lemma_string_items_unique(v@, pos as int, xs, rest, gxs, grest);
                        }
                    }
                    return Some((out, p));
                }
            },
            None => {
                proof {
                    if ghas {
                        assert(false);
                    }
                }
                return None;
            },
        }
    }
}

/// Only one ledger can fill a weights object whose tail starts with the
/// closing brace.
#[verifier::rlimit(100)]
proof fn lemma_weight_items_unique(
    s: Seq<char>,
    ws1: Seq<(Seq<char>, int)>,
    r1: Seq<char>,
    ws2: Seq<(Seq<char>, int)>,
    r2: Seq<char>,
)
    requires
        ws1.len() >= 1,
        ws2.len() >= 1,
        forall|k: int|
            0 <= k < ws1.len() ==> quote_free((#[trigger] ws1[k]).0) && 0 <= ws1[k].1 <= u64::MAX,
        forall|k: int|
            0 <= k < ws2.len() ==> quote_free((#[trigger] ws2[k]).0) && 0 <= ws2[k].1 <= u64::MAX,
        s == json_weight_items(ws1) + r1,
        s == json_weight_items(ws2) + r2,
        r1.len() > 0 && r1[0] == '}',
        r2.len() > 0 && r2[0] == '}',
    ensures
        ws1 == ws2,
        r1 == r2,
    decreases ws1.len(),
{
    let t1: Seq<char> = seq![':'] + dec_digits(ws1[0].1 as nat) + (if ws1.len() == 1 {
        r1
    } else {
        seq![','] + json_weight_items(ws1.drop_first()) + r1
    });
    let t2: Seq<char> = seq![':'] + dec_digits(ws2[0].1 as nat) + (if ws2.len() == 1 {
        r2
    } else {
        seq![','] + json_weight_items(ws2.drop_first()) + r2
    });
    assert(s =~= json_string(ws1[0].0) + t1);
    assert(s =~= json_string(ws2[0].0) + t2);
    assert(s.skip(0) =~= s);
    lemma_json_string_unique(s, 0, ws1[0].0, t1, ws2[0].0, t2);
    let u = t1.drop_first();
    assert(u =~= t2.drop_first());
    let a1: Seq<char> = if ws1.len() == 1 {
        r1
    } else {
        seq![','] + json_weight_items(ws1.drop_first()) + r1
    };
    let a2: Seq<char> = if ws2.len() == 1 {
        r2
    } else {
        seq![','] + json_weight_items(ws2.drop_first()) + r2
    };
    assert(u.skip(0) =~= u);
    assert(u =~= dec_digits(ws1[0].1 as nat) + a1);
    assert(u =~= dec_digits(ws2[0].1 as nat) + a2);
    crate::digits::lemma_dec_digits_unique(u, 0, ws1[0].1 as nat, a1, ws2[0].1 as nat, a2);
    assert(ws1[0].1 == ws2[0].1);
    assert(ws1[0] == ws2[0]);
    if ws1.len() == 1 && ws2.len() == 1 {
        assert(ws1 =~= ws2);
    } else if ws1.len() == 1 {
        assert(a1[0] == '}' && a2[0] == ',');
    } else if ws2.len() == 1 {
        assert(a2[0] == '}' && a1[0] == ',');
    } else {
        let w = a1.drop_first();
        assert(w =~= a2.drop_first());
        assert(w =~= json_weight_items(ws1.drop_first()) + r1);
        assert(w =~= json_weight_items(ws2.drop_first()) + r2);
        assert(forall|k: int|
            0 <= k < ws1.drop_first().len() ==> #[trigger] ws1.drop_first()[k] == ws1[k + 1]);
        assert(forall|k: int|
            0 <= k < ws2.drop_first().len() ==> #[trigger] ws2.drop_first()[k] == ws2[k + 1]);
        lemma_weight_items_unique(w, ws1.drop_first(), r1, ws2.drop_first(), r2);
        assert forall|j: int| 0 <= j < ws1.len() implies ws1[j] == ws2[j] by {
            if j >= 1 {
                assert(ws1[j] == ws1.drop_first()[j - 1]);
                assert(ws2[j] == ws2.drop_first()[j - 1]);
            }
        }
        assert(ws1 =~= ws2);
    }
}

/// Read the body of the weights object: `"key":value` entries separated by
/// commas, stopping before the closing brace.  Whenever a ledger with
/// escape-free keys stands at the position, exactly it is read.
fn scan_weight_entries(v: &Vec<char>, pos: usize) -> (r: Option<(Vec<(String, u64)>, usize)>)
    requires
        pos <= v.len(),
    ensures
        r matches Some(x) ==> pos <= x.1 <= v@.len(),
        forall|ws: Seq<(Seq<char>, int)>, rest: Seq<char>|
            (ws.len() >= 1 && (forall|k: int|
                0 <= k < ws.len() ==> quote_free((#[trigger] ws[k]).0) && 0 <= ws[k].1
                    <= u64::MAX) && v@.skip(pos as int) == #[trigger] (json_weight_items(ws)
                + rest) && rest.len() > 0 && rest[0] == '}') ==> (r matches Some(y)
                && y.0@.map_values(|e: (String, u64)| (e.0@, e.1 as int)) == ws && y.1 == pos
                + json_weight_items(ws).len()),
{
    let ghost ghas = exists|ws: Seq<(Seq<char>, int)>, rest: Seq<char>|
        ws.len() >= 1 && (forall|k: int|
            0 <= k < ws.len() ==> quote_free((#[trigger] ws[k]).0) && 0 <= ws[k].1 <= u64::MAX)
            && v@.skip(pos as int) == json_weight_items(ws) + rest && rest.len() > 0 && rest[0]
            == '}';
    let ghost (gws, grest): (Seq<(Seq<char>, int)>, Seq<char>) = if ghas {
        choose|ws: Seq<(Seq<char>, int)>, rest: Seq<char>|
            ws.len() >= 1 && (forall|k: int|
                0 <= k < ws.len() ==> quote_free((#[trigger] ws[k]).0) && 0 <= ws[k].1
                    <= u64::MAX) && v@.skip(pos as int) == json_weight_items(ws) + rest
                && rest.len() > 0 && rest[0] == '}'
    } else {
        (Seq::<(Seq<char>, int)>::empty(), Seq::<char>::empty())
    };
    let mut out: Vec<(String, u64)> = Vec::new();
    let mut p = pos;
    proof {
        if ghas {
            assert(gws.skip(0) =~= gws);
            assert(out@.map_values(|e: (String, u64)| (e.0@, e.1 as int)) =~= gws.take(0));
        }
    }
    loop
        invariant
            pos <= p <= v.len(),
            ghas == exists|ws: Seq<(Seq<char>, int)>, rest: Seq<char>|
                ws.len() >= 1 && (forall|k: int|
                    0 <= k < ws.len() ==> quote_free((#[trigger] ws[k]).0) && 0 <= ws[k].1
                        <= u64::MAX) && v@.skip(pos as int) == json_weight_items(ws) + rest
                    && rest.len() > 0 && rest[0] == '}',
            ghas ==> gws.len() >= 1 && (forall|k: int|
                0 <= k < gws.len() ==> quote_free((#[trigger] gws[k]).0) && 0 <= gws[k].1
                    <= u64::MAX) && v@.skip(pos as int) == json_weight_items(gws) + grest
                && grest.len() > 0 && grest[0] == '}',
            ghas ==> out@.len() < gws.len() && out@.map_values(
                |e: (String, u64)| (e.0@, e.1 as int),
            ) == gws.take(out@.len() as int) && v@.skip(p as int) == json_weight_items(
                gws.skip(out@.len() as int),
            ) + grest && p == pos + json_weight_items(gws).len() - json_weight_items(
                gws.skip(out@.len() as int),
            ).len(),
        decreases v.len() - p,
    {
        let ghost k = out@.len() as int;
        let ghost d = dec_digits(if ghas {
            gws[k].1 as nat
        } else {
            0
        });
        let ghost after: Seq<char> = if ghas && k < gws.len() - 1 {
            seq![','] + json_weight_items(gws.skip(k + 1)) + grest
        } else {
            grest
        };
        let ghost tail: Seq<char> = seq![':'] + d + after;
        let ghost js = json_string(if ghas {
            gws[k].0
        } else {
            Seq::<char>::empty()
        });
        proof {
            if ghas {
                assert(gws.skip(k)[0] == gws[k]);
                assert(gws.skip(k).drop_first() =~= gws.skip(k + 1));
                assert(v@.skip(p as int) =~= js + tail);
                assert(quote_free(gws[k].0));
                lemma_escape_plain(gws[k].0);
                assert(js.len() == gws[k].0.len() + 2);
                assert(v@.skip(p as int).len() == js.len() + tail.len());
                assert(v@.skip(p as int)[js.len() as int] == v@[p + js.len()]);
                assert((js + tail)[js.len() as int] == ':');
            }
        }
        match scan_string(v, p) {
            Some((key, pk)) => {
                proof {
                    if ghas {
                        assert(key@ == gws[k].0 && pk == p + gws[k].0.len() + 2);
                        assert(pk == p + js.len());
                        assert(v@[pk as int] == ':');
                        assert(pk < v@.len());
                    }
                }
                if !(pk < v.len() && v[pk] == ':') {
                    proof {
                        if ghas {
                            assert(false);
                        }
                    }
                    return None;
                }
                proof {
                    if ghas {
                        crate::digits::lemma_dec_digits(gws[k].1 as nat);
                        assert(v@.skip(pk + 1 as int) =~= d + after) by {
                            assert forall|j: int|
                                0 <= j < v@.len() - (pk + 1) implies #[trigger] v@.skip(
                                pk + 1 as int,
                            )[j] == (d + after)[j] by {
                                assert(v@.skip(p as int)[js.len() + 1 + j] == v@[pk + 1 + j]);
                                assert((js + tail)[js.len() + 1 + j] == tail[1 + j]);
                                assert(tail[1 + j] == (d + after)[j]);
                            }
                        }
                        assert(after.len() > 0);
                        assert(after[0] == ',' || after[0] == '}');
                        assert(!is_digit_char(after[0]));
                        assert(d == dec_digits(((gws[k].1 as u64)) as nat));
                    }
                }
                match scan_u64(v, pk + 1) {
                    Some((val, pv)) => {
                        proof {
                            if ghas {
                                assert(val == gws[k].1 && pv == pk + 1 + d.len());
                                assert(v@.skip(pv as int) =~= after) by {
                                    assert forall|j: int|
                                        0 <= j < v@.len() - pv implies #[trigger] v@.skip(
                                        pv as int,
                                    )[j] == after[j] by {
                                        assert(v@.skip(pk + 1 as int)[d.len() + j] == v@[pv + j]);
                                        assert((d + after)[d.len() + j] == after[j]);
                                    }
                                }
                                assert(v@[pv as int] == after[0]);
                                assert(pv < v@.len());
                            }
                        }
                        out.push((key, val));
                        let p_after = pv;
                        if p_after < v.len() && v[p_after] == ',' {
                            proof {
                                if ghas {
                                    if k == gws.len() - 1 {
                                        assert(after[0] == '}');
                                    }
                                    assert(k < gws.len() - 1);
                                    assert(out@.map_values(
                                        |e: (String, u64)| (e.0@, e.1 as int),
                                    ) =~= gws.take(k + 1));
                                    assert(v@.skip(p_after + 1 as int) =~= json_weight_items(
                                        gws.skip(k + 1),
                                    ) + grest) by {
                                        assert forall|j: int|
                                            0 <= j < v@.len() - (p_after + 1) implies #[trigger] v@.skip(
                                            p_after + 1 as int,
                                        )[j] == (json_weight_items(gws.skip(k + 1)) + grest)[j] by {
                                            assert(v@.skip(p_after as int)[1 + j] == v@[p_after + 1
                                                + j]);
                                            assert(after[1 + j] == (json_weight_items(
                                                gws.skip(k + 1),
                                            ) + grest)[j]);
                                        }
                                    }
                                    assert(json_weight_items(gws.skip(k)).len() == js.len() + 1
                                        + d.len() + 1 + json_weight_items(gws.skip(k + 1)).len());
                                }
                            }
                            let ghost oldp = p;
                            p = p_after + 1;
                            proof {
                                assert(v@.len() - p < v@.len() - oldp);
                            }
                        } else {
                            proof {
                                if ghas {
                                    if k < gws.len() - 1 {
                                        assert(after[0] == ',');
                                        assert(false);
                                    }
                                    assert(k == gws.len() - 1);
                                    assert(out@.map_values(
                                        |e: (String, u64)| (e.0@, e.1 as int),
                                    ) =~= gws.take(k + 1));
                                    assert(gws.take(k + 1) =~= gws);
                                    assert(json_weight_items(gws.skip(k)) =~= js + seq![':'] + d);
                                    assert(p_after == pos + json_weight_items(gws).len());
                                }
                                assert forall|ws: Seq<(Seq<char>, int)>, rest: Seq<char>|
                                    (ws.len() >= 1 && (forall|k2: int|
                                        0 <= k2 < ws.len() ==> quote_free((#[trigger] ws[k2]).0)
                                            && 0 <= ws[k2].1 <= u64::MAX) && v@.skip(pos as int)
                                        == #[trigger] (json_weight_items(ws) + rest) && rest.len()
                                        > 0 && rest[0] == '}') implies (ws == gws && rest
                                    == grest) by {
                                    assert(ghas);
                                    lemma_weight_items_unique(
                                        v@.skip(pos as int),
                                        ws,
                                        rest,
                                        gws,
                                        grest,
                                    );
                                }
                            }
                            return Some((out, p_after));
                        }
                    },
                    None => {
                        proof {
                            if ghas {
                                assert(false);
                            }
                        }
                        return None;
                    },
                }
            },
            None => {
                proof {
                    if ghas {
                        assert(false);
                    }
                }
                return None;
            },
        }
    }
}

/// Comma-joined bracketed string arrays: the body of an array of arrays.
pub open spec fn json_list_items(xss: Seq<Seq<Seq<char>>>) -> Seq<char>
    decreases xss.len(),
{
    if xss.len() == 0 {
        Seq::<char>::empty()
    } else if xss.len() == 1 {
        seq!['['] + json_string_items(xss[0]) + seq![']']
    } else {
        seq!['['] + json_string_items(xss[0]) + seq![']'] + seq![','] + json_list_items(
            xss.drop_first(),
        )
    }
}

/// The past results field is an array of arrays of result notations.
proof fn lemma_result_lists_are_list_items(rss: Seq<Seq<LiftAttemptResult>>)
    ensures
        json_result_lists(rss) == json_list_items(
            rss.map_values(
                |rs: Seq<LiftAttemptResult>|
                    rs.map_values(|r: LiftAttemptResult| format_result_spec(r)),
            ),
        ),
    decreases rss.len(),
{
    let m = rss.map_values(
        |rs: Seq<LiftAttemptResult>| rs.map_values(|r: LiftAttemptResult| format_result_spec(r)),
    );
    if rss.len() == 0 {
    } else {
        lemma_result_items_are_string_items(rss[0]);
        assert(m[0] == rss[0].map_values(|r: LiftAttemptResult| format_result_spec(r)));
        if rss.len() > 1 {
            lemma_result_lists_are_list_items(rss.drop_first());
            assert(rss.drop_first().map_values(
                |rs: Seq<LiftAttemptResult>|
                    rs.map_values(|r: LiftAttemptResult| format_result_spec(r)),
            ) =~= m.drop_first());
        }
    }
}

/// Only one list of string lists can fill an array of arrays whose tail
/// starts with the closing bracket.
#[verifier::rlimit(100)]
proof fn lemma_list_items_unique(
    s: Seq<char>,
    xss1: Seq<Seq<Seq<char>>>,
    r1: Seq<char>,
    xss2: Seq<Seq<Seq<char>>>,
    r2: Seq<char>,
)
    requires
        xss1.len() >= 1,
        xss2.len() >= 1,
        forall|k: int, i: int|
            0 <= k < xss1.len() && 0 <= i < xss1[k].len() ==> quote_free(#[trigger] xss1[k][i]),
        forall|k: int, i: int|
            0 <= k < xss2.len() && 0 <= i < xss2[k].len() ==> quote_free(#[trigger] xss2[k][i]),
        s == json_list_items(xss1) + r1,
        s == json_list_items(xss2) + r2,
        r1.len() > 0 && r1[0] == ']',
        r2.len() > 0 && r2[0] == ']',
    ensures
        xss1 == xss2,
        r1 == r2,
    decreases xss1.len(),
{
    let a1: Seq<char> = if xss1.len() == 1 {
        r1
    } else {
        seq![','] + json_list_items(xss1.drop_first()) + r1
    };
    let a2: Seq<char> = if xss2.len() == 1 {
        r2
    } else {
        seq![','] + json_list_items(xss2.drop_first()) + r2
    };
    assert(s =~= seq!['['] + json_string_items(xss1[0]) + seq![']'] + a1);
    assert(s =~= seq!['['] + json_string_items(xss2[0]) + seq![']'] + a2);
    let u = s.drop_first();
    assert(u =~= json_string_items(xss1[0]) + (seq![']'] + a1));
    assert(u =~= json_string_items(xss2[0]) + (seq![']'] + a2));
    if xss1[0].len() == 0 && xss2[0].len() == 0 {
        assert(json_string_items(xss1[0]).len() == 0);
        assert(xss1[0] =~= xss2[0]);
        assert(seq![']'] + a1 =~= seq![']'] + a2);
    } else if xss1[0].len() == 0 {
        assert(u[0] == (seq![']'] + a1)[0]);
        assert(u[0] == json_string_items(xss2[0])[0]);
        assert(json_string_items(xss2[0])[0] == json_string(xss2[0][0])[0]);
        assert(json_string(xss2[0][0])[0] == '"');
    } else if xss2[0].len() == 0 {
        assert(u[0] == (seq![']'] + a2)[0]);
        assert(u[0] == json_string_items(xss1[0])[0]);
        assert(json_string_items(xss1[0])[0] == json_string(xss1[0][0])[0]);
        assert(json_string(xss1[0][0])[0] == '"');
    } else {
        assert(u.skip(0) =~= u);
        lemma_string_items_unique(
            u,
            0,
            xss1[0],
            seq![']'] + a1,
            xss2[0],
            seq![']'] + a2,
        );
    }
    assert(xss1[0] == xss2[0]);
    assert(a1 =~= a2) by {
        assert(seq![']'] + a1 =~= seq![']'] + a2);
        assert(forall|j: int| 0 <= j < a1.len() ==> #[trigger] a1[j] == (seq![']'] + a1)[j + 1]);
        assert(forall|j: int| 0 <= j < a2.len() ==> #[trigger] a2[j] == (seq![']'] + a2)[j + 1]);
    }
    if xss1.len() == 1 && xss2.len() == 1 {
        assert(xss1 =~= xss2);
    } else if xss1.len() == 1 {
        assert(a1[0] == ']' && a2[0] == ',');
    } else if xss2.len() == 1 {
        assert(a2[0] == ']' && a1[0] == ',');
    } else {
        let w = a1.drop_first();
        assert(w =~= a2.drop_first());
        assert(w =~= json_list_items(xss1.drop_first()) + r1);
        assert(w =~= json_list_items(xss2.drop_first()) + r2);
        assert(forall|k: int|
            0 <= k < xss1.drop_first().len() ==> #[trigger] xss1.drop_first()[k] == xss1[k + 1]);
        assert(forall|k: int|
            0 <= k < xss2.drop_first().len() ==> #[trigger] xss2.drop_first()[k] == xss2[k + 1]);
        lemma_list_items_unique(w, xss1.drop_first(), r1, xss2.drop_first(), r2);
        assert forall|j: int| 0 <= j < xss1.len() implies xss1[j] == xss2[j] by {
            if j >= 1 {
                assert(xss1[j] == xss1.drop_first()[j - 1]);
                assert(xss2[j] == xss2.drop_first()[j - 1]);
            }
        }
        assert(xss1 =~= xss2);
    }
}

/// Read the body of an array of string arrays, stopping before the closing
/// bracket.  Whenever such an array of escape-free texts stands at the
/// position, exactly those lists are read.
fn scan_list_items(v: &Vec<char>, pos: usize) -> (r: Option<(Vec<Vec<String>>, usize)>)
    requires
        pos <= v.len(),
    ensures
        r matches Some(x) ==> pos <= x.1 <= v@.len(),
        forall|xss: Seq<Seq<Seq<char>>>, rest: Seq<char>|
            (xss.len() >= 1 && (forall|k: int, i: int|
                0 <= k < xss.len() && 0 <= i < xss[k].len() ==> quote_free(
                    #[trigger] xss[k][i],
                )) && v@.skip(pos as int) == #[trigger] (json_list_items(xss) + rest)
                && rest.len() > 0 && rest[0] == ']') ==> (r matches Some(y) && y.0@.map_values(
                |vv: Vec<String>| vv@.map_values(|s: String| s@),
            ) == xss && y.1 == pos + json_list_items(xss).len()),
{
    let ghost ghas = exists|xss: Seq<Seq<Seq<char>>>, rest: Seq<char>|
        xss.len() >= 1 && (forall|k: int, i: int|
            0 <= k < xss.len() && 0 <= i < xss[k].len() ==> quote_free(#[trigger] xss[k][i]))
            && v@.skip(pos as int) == json_list_items(xss) + rest && rest.len() > 0 && rest[0]
            == ']';
    let ghost (gxss, grest): (Seq<Seq<Seq<char>>>, Seq<char>) = if ghas {
        choose|xss: Seq<Seq<Seq<char>>>, rest: Seq<char>|
            xss.len() >= 1 && (forall|k: int, i: int|
                0 <= k < xss.len() && 0 <= i < xss[k].len() ==> quote_free(#[trigger] xss[k][i]))
                && v@.skip(pos as int) == json_list_items(xss) + rest && rest.len() > 0
                && rest[0] == ']'
    } else {
        (Seq::<Seq<Seq<char>>>::empty(), Seq::<char>::empty())
    };
    let mut out: Vec<Vec<String>> = Vec::new();
    let mut p = pos;
    proof {
        if ghas {
            assert(gxss.skip(0) =~= gxss);
            assert(out@.map_values(|vv: Vec<String>| vv@.map_values(|s: String| s@)) =~= gxss.take(
                0,
            ));
        }
    }
    loop
        invariant
            pos <= p <= v.len(),
            ghas == exists|xss: Seq<Seq<Seq<char>>>, rest: Seq<char>|
                xss.len() >= 1 && (forall|k: int, i: int|
                    0 <= k < xss.len() && 0 <= i < xss[k].len() ==> quote_free(
                        #[trigger] xss[k][i],
                    )) && v@.skip(pos as int) == json_list_items(xss) + rest && rest.len() > 0
                    && rest[0] == ']',
            ghas ==> gxss.len() >= 1 && (forall|k: int, i: int|
                0 <= k < gxss.len() && 0 <= i < gxss[k].len() ==> quote_free(
                    #[trigger] gxss[k][i],
                )) && v@.skip(pos as int) == json_list_items(gxss) + grest && grest.len() > 0
                && grest[0] == ']',
            ghas ==> out@.len() < gxss.len() && out@.map_values(
                |vv: Vec<String>| vv@.map_values(|s: String| s@),
            ) == gxss.take(out@.len() as int) && v@.skip(p as int) == json_list_items(
                gxss.skip(out@.len() as int),
            ) + grest && p == pos + json_list_items(gxss).len() - json_list_items(
                gxss.skip(out@.len() as int),
            ).len(),
        decreases v.len() - p,
    {
        let ghost k = out@.len() as int;
        let ghost inner = json_string_items(if ghas {
            gxss[k]
        } else {
            Seq::<Seq<char>>::empty()
        });
        let ghost after: Seq<char> = if ghas && k < gxss.len() - 1 {
            seq![','] + json_list_items(gxss.skip(k + 1)) + grest
        } else {
            grest
        };
        proof {
            if ghas {
                assert(gxss.skip(k)[0] == gxss[k]);
                assert(gxss.skip(k).drop_first() =~= gxss.skip(k + 1));
                assert(v@.skip(p as int) =~= seq!['['] + inner + seq![']'] + after);
                assert(v@.skip(p as int)[0] == v@[p as int]);
                assert((seq!['['] + inner + seq![']'] + after)[0] == '[');
                assert(p < v@.len());
                assert(after.len() > 0);
            }
        }
        if !(p < v.len() && v[p] == '[') {
            proof {
                if ghas {
                    assert(false);
                }
            }
            return None;
        }
        proof {
            if ghas {
                assert(v@.skip(p + 1 as int) =~= inner + (seq![']'] + after)) by {
                    assert forall|j: int|
                        0 <= j < v@.len() - (p + 1) implies #[trigger] v@.skip(p + 1 as int)[j]
                        == (inner + (seq![']'] + after))[j] by {
                        assert(v@.skip(p as int)[1 + j] == v@[p + 1 + j]);
                        assert((seq!['['] + inner + seq![']'] + after)[1 + j] == (inner + (
                        seq![']'] + after))[j]);
                    }
                }
                if gxss[k].len() == 0 {
                    assert(inner.len() == 0);
                    assert(v@.skip(p + 1 as int).len() > 0);
                    assert(v@.skip(p + 1 as int)[0] == v@[p + 1]);
                    assert((inner + (seq![']'] + after))[0] == ']');
                    assert(v@[p + 1] == ']');
                } else {
                    assert(forall|i: int|
                        0 <= i < gxss[k].len() ==> quote_free(#[trigger] gxss[k][i]));
                }
            }
        }
        match scan_string_array(v, p + 1) {
            Some((ss, ps)) => {
                proof {
                    if ghas {
                        if gxss[k].len() == 0 {
                            assert(ss@.len() == 0 && ps == p + 1);
                            assert(ss@.map_values(|s: String| s@) =~= gxss[k]);
                        } else {
                            assert(ss@.map_values(|s: String| s@) == gxss[k] && ps == p + 1
                                + inner.len());
                        }
                        assert(ps == p + 1 + inner.len());
                        assert(v@.skip(ps as int) =~= seq![']'] + after) by {
                            assert forall|j: int|
                                0 <= j < v@.len() - ps implies #[trigger] v@.skip(ps as int)[j]
                                == (seq![']'] + after)[j] by {
                                assert(v@.skip(p + 1 as int)[inner.len() + j] == v@[ps + j]);
                                assert((inner + (seq![']'] + after))[inner.len() + j] == (
                                seq![']'] + after)[j]);
                            }
                        }
                        assert(v@.skip(ps as int).len() > 0);
                        assert(v@.skip(ps as int)[0] == v@[ps as int]);
                        assert((seq![']'] + after)[0] == ']');
                        assert(v@[ps as int] == ']');
                        assert(ps < v@.len());
                    }
                }
                if !(ps < v.len() && v[ps] == ']') {
                    proof {
                        if ghas {
                            assert(false);
                        }
                    }
                    return None;
                }
                proof {
                    if ghas {
                        assert(v@.skip(ps + 1 as int) =~= after) by {
                            assert forall|j: int|
                                0 <= j < v@.len() - (ps + 1) implies #[trigger] v@.skip(
                                ps + 1 as int,
                            )[j] == after[j] by {
                                assert(v@.skip(ps as int)[1 + j] == v@[ps + 1 + j]);
                                assert((seq![']'] + after)[1 + j] == after[j]);
                            }
                        }
                        assert(v@[ps + 1] == after[0]);
                        assert(ps + 1 < v@.len());
                    }
                }
                out.push(ss);
                let p_after = ps + 1;
                if p_after < v.len() && v[p_after] == ',' {
                    proof {
                        if ghas {
                            if k == gxss.len() - 1 {
                                assert(after[0] == ']');
                            }
                            assert(k < gxss.len() - 1);
                            assert(out@.map_values(
                                |vv: Vec<String>| vv@.map_values(|s: String| s@),
                            ) =~= gxss.take(k + 1));
                            assert(v@.skip(p_after + 1 as int) =~= json_list_items(
                                gxss.skip(k + 1),
                            ) + grest) by {
                                assert forall|j: int|
                                    0 <= j < v@.len() - (p_after + 1) implies #[trigger] v@.skip(
                                    p_after + 1 as int,
                                )[j] == (json_list_items(gxss.skip(k + 1)) + grest)[j] by {
                                    assert(v@.skip(p_after as int)[1 + j] == v@[p_after + 1 + j]);
                                    assert(after[1 + j] == (json_list_items(gxss.skip(k + 1))
                                        + grest)[j]);
                                }
                            }
                            assert(json_list_items(gxss.skip(k)).len() == 1 + inner.len() + 1 + 1
                                + json_list_items(gxss.skip(k + 1)).len());
                        }
                    }
                    let ghost oldp = p;
                    p = p_after + 1;
                    proof {
                        assert(v@.len() - p < v@.len() - oldp);
                    }
                } else {
                    proof {
                        if ghas {
                            if k < gxss.len() - 1 {
                                assert(after[0] == ',');
                                assert(v@[p_after as int] == ',');
                                assert(false);
                            }
                            assert(k == gxss.len() - 1);
                            assert(out@.map_values(
                                |vv: Vec<String>| vv@.map_values(|s: String| s@),
                            ) =~= gxss.take(k + 1));
                            assert(gxss.take(k + 1) =~= gxss);
                            assert(json_list_items(gxss.skip(k)) =~= seq!['['] + inner
                                + seq![']']);
                            assert(p_after == pos + json_list_items(gxss).len());
                        }
                        assert forall|xss: Seq<Seq<Seq<char>>>, rest: Seq<char>|
                            (xss.len() >= 1 && (forall|k2: int, i2: int|
                                0 <= k2 < xss.len() && 0 <= i2 < xss[k2].len() ==> quote_free(
                                    #[trigger] xss[k2][i2],
                                )) && v@.skip(pos as int) == #[trigger] (json_list_items(xss)
                                + rest) && rest.len() > 0 && rest[0] == ']') implies (xss == gxss
                            && rest == grest) by {
                            assert(ghas);
                            lemma_list_items_unique(v@.skip(pos as int), xss, rest, gxss, grest);
                        }
                    }
                    return Some((out, p_after));
                }
            },
            None => {
                proof {
                    if ghas {
                        if gxss[k].len() == 0 {
                        }
                        assert(false);
                    }
                }
                return None;
            },
        }
    }
}

/// A result notation never needs escaping.
proof fn lemma_result_text_quote_free(r: LiftAttemptResult)
    ensures
        quote_free(format_result_spec(r)),
{
}

/// A lift notation built from quote-free names never needs escaping.
proof fn lemma_lift_text_quote_free(l: crate::lifting::LiftView)
    requires
        l.weight.wf(),
        quote_free(l.name),
    ensures
        quote_free(crate::lifting::format_lift_spec(l)),
{
    let s = crate::lifting::format_lift_spec(l);
    let fs = crate::lifting::format_sets_spec(l.sets);
    crate::lifting::lemma_sets_text_chars(l.sets);
    let n = l.name.len() as int;
    if l.weight == crate::weight_scheme::WeightScheme::NoWeight {
        assert forall|j: int| 0 <= j < s.len() implies s[j] != '"' && s[j] != '\\' by {
            if j < n {
                assert(s[j] == l.name[j]);
            } else if j < n + 4 {
                assert(s[j] == crate::lifting::arrow_sep()[j - n]);
            } else {
                assert(s[j] == fs[j - n - 4]);
                assert(crate::lifting::is_sets_text_char(fs[j - n - 4]));
            }
        }
    } else {
        let fw = crate::weight_scheme::format_weight_scheme_spec(l.weight);
        crate::weight_scheme::lemma_weight_text_chars(l.weight);
        let m = fs.len() as int;
        assert forall|j: int| 0 <= j < s.len() implies s[j] != '"' && s[j] != '\\' by {
            if j < n {
                assert(s[j] == l.name[j]);
            } else if j < n + 4 {
                assert(s[j] == crate::lifting::arrow_sep()[j - n]);
            } else if j < n + 4 + m {
                assert(s[j] == fs[j - n - 4]);
                assert(crate::lifting::is_sets_text_char(fs[j - n - 4]));
            } else if j < n + 4 + m + 3 {
                assert(s[j] == crate::lifting::at_sep()[j - n - 4 - m]);
            } else {
                assert(s[j] == fw[j - n - 4 - m - 3]);
                assert(crate::weight_scheme::is_weight_text_char(fw[j - n - 4 - m - 3]));
            }
        }
    }
}

/// A day notation built from quote-free names never needs escaping.
proof fn lemma_day_text_quote_free(d: DayView)
    requires
        quote_free(d.name),
        forall|i: int|
            0 <= i < d.lifts.len() ==> (#[trigger] d.lifts[i]).weight.wf() && quote_free(
                d.lifts[i].name,
            ),
    ensures
        quote_free(format_day_spec(d)),
{
    lemma_lift_list_quote_free(d.lifts);
    let s = format_day_spec(d);
    let fl = crate::day::format_lift_list(d.lifts);
    let n = d.name.len() as int;
    assert forall|j: int| 0 <= j < s.len() implies s[j] != '"' && s[j] != '\\' by {
        if j < n {
            assert(s[j] == d.name[j]);
        } else if j < n + 3 {
            assert(s[j] == crate::day::bar_sep()[j - n]);
        } else {
            assert(s[j] == fl[j - n - 3]);
        }
    }
}

proof fn lemma_lift_list_quote_free(ls: Seq<crate::lifting::LiftView>)
    requires
        forall|i: int|
            0 <= i < ls.len() ==> (#[trigger] ls[i]).weight.wf() && quote_free(ls[i].name),
    ensures
        quote_free(crate::day::format_lift_list(ls)),
    decreases ls.len(),
{
    let s = crate::day::format_lift_list(ls);
    if ls.len() == 0 {
    } else if ls.len() == 1 {
        lemma_lift_text_quote_free(ls[0]);
    } else {
        lemma_lift_text_quote_free(ls[0]);
        assert(forall|i: int|
            0 <= i < ls.drop_first().len() ==> #[trigger] ls.drop_first()[i] == ls[i + 1]);
        lemma_lift_list_quote_free(ls.drop_first());
        let f0 = crate::lifting::format_lift_spec(ls[0]);
        let rest = crate::day::format_lift_list(ls.drop_first());
        assert forall|j: int| 0 <= j < s.len() implies s[j] != '"' && s[j] != '\\' by {
            if j < f0.len() {
                assert(s[j] == f0[j]);
            } else if j < f0.len() + 3 {
                assert(s[j] == crate::day::bar_sep()[j - f0.len()]);
            } else {
                assert(s[j] == rest[j - f0.len() - 3]);
            }
        }
    }
}

/// The programs whose persisted text reads back exactly: well formed, every
/// name free of quotes and backslashes, every day's notation safe, and
/// every number in machine range.
pub open spec fn program_json_safe(m: ProgramView) -> bool {
    &&& program_wf(m)
    &&& quote_free(m.name)
    &&& 0 <= m.workouts_completed <= u64::MAX
    &&& 0 <= m.reference_weight <= u64::MAX
    &&& 0 <= m.starting_reference_weight <= u64::MAX
    &&& m.days.len() <= usize::MAX
    &&& forall|d: int|
        0 <= d < m.days.len() ==> crate::day::day_notation_safe(#[trigger] m.days[d])
            && quote_free(m.days[d].name) && (forall|i: int|
            0 <= i < m.days[d].lifts.len() ==> quote_free((#[trigger] m.days[d].lifts[i]).name))
    &&& forall|j: int|
        0 <= j < m.weights.len() ==> quote_free((#[trigger] m.weights[j]).0) && 0 <= m.weights[j].1
            <= u64::MAX
}

/// Dropping an equal prefix from equal texts leaves equal texts.
proof fn lemma_peel(a: Seq<char>, t1: Seq<char>, t2: Seq<char>)
    requires
        a + t1 == a + t2,
    ensures
        t1 == t2,
{
    assert((a + t1).len() == a.len() + t1.len());
    assert((a + t2).len() == a.len() + t2.len());
    assert forall|j: int| 0 <= j < t1.len() implies t1[j] == t2[j] by {
        assert((a + t1)[a.len() + j] == t1[j]);
        assert((a + t2)[a.len() + j] == t2[j]);
    }
    assert(t1 =~= t2);
}

/// Equal texts agree on the name and the workout count, and from the
/// reference weight on.
#[verifier::rlimit(100)]
proof fn lemma_unique_name_wc(m1: ProgramView, m2: ProgramView)
    requires
        program_json_safe(m1),
        program_json_safe(m2),
        text_from_name(m1) == text_from_name(m2),
    ensures
        m1.name == m2.name,
        m1.workouts_completed == m2.workouts_completed,
        text_from_reference(m1) == text_from_reference(m2),
{
    reveal_strlit(",\"workouts_completed\":");
    reveal_strlit(",\"reference_weight\":");
    let a2 = ",\"workouts_completed\":"@;
    let w1 = dec_digits(m1.workouts_completed as nat);
    let w2 = dec_digits(m2.workouts_completed as nat);
    let u1 = a2 + w1 + text_from_reference(m1);
    let u2 = a2 + w2 + text_from_reference(m2);
    let t1 = text_from_name(m1);
    assert(t1 =~= json_string(m1.name) + u1);
    assert(t1 =~= json_string(m2.name) + u2);
    assert(t1.skip(0) =~= t1);
    lemma_json_string_unique(t1, 0, m1.name, u1, m2.name, u2);
    let v1 = w1 + text_from_reference(m1);
    let v2 = w2 + text_from_reference(m2);
    assert(u1 =~= a2 + v1);
    assert(u2 =~= a2 + v2);
    lemma_peel(a2, v1, v2);
    assert(text_from_reference(m1)[0] == ',' && text_from_reference(m2)[0] == ',');
    assert(v1.skip(0) =~= v1);
    crate::digits::lemma_dec_digits_unique(
        v1,
        0,
        m1.workouts_completed as nat,
        text_from_reference(m1),
        m2.workouts_completed as nat,
        text_from_reference(m2),
    );
}

/// Equal texts from the reference weight on agree on both reference
/// weights, and from the days on.
#[verifier::rlimit(100)]
proof fn lemma_unique_refs(m1: ProgramView, m2: ProgramView)
    requires
        program_json_safe(m1),
        program_json_safe(m2),
        text_from_reference(m1) == text_from_reference(m2),
    ensures
        m1.reference_weight == m2.reference_weight,
        m1.starting_reference_weight == m2.starting_reference_weight,
        text_from_days(m1) == text_from_days(m2),
{
    reveal_strlit(",\"reference_weight\":");
    reveal_strlit(",\"starting_reference_weight\":");
    reveal_strlit(",\"days_in_notation\":[");
    let a3 = ",\"reference_weight\":"@;
    let a4 = ",\"starting_reference_weight\":"@;
    let r1 = dec_digits(m1.reference_weight as nat);
    let r2 = dec_digits(m2.reference_weight as nat);
    let s1 = dec_digits(m1.starting_reference_weight as nat);
    let s2 = dec_digits(m2.starting_reference_weight as nat);
    let y1 = r1 + (a4 + s1 + text_from_days(m1));
    let y2 = r2 + (a4 + s2 + text_from_days(m2));
    assert(text_from_reference(m1) =~= a3 + y1);
    assert(text_from_reference(m2) =~= a3 + y2);
    lemma_peel(a3, y1, y2);
    let z1 = a4 + s1 + text_from_days(m1);
    let z2 = a4 + s2 + text_from_days(m2);
    assert(z1[0] == ',' && z2[0] == ',');
    assert(y1.skip(0) =~= y1);
    crate::digits::lemma_dec_digits_unique(
        y1,
        0,
        m1.reference_weight as nat,
        z1,
        m2.reference_weight as nat,
        z2,
    );
    let e1 = s1 + text_from_days(m1);
    let e2 = s2 + text_from_days(m2);
    assert(z1 =~= a4 + e1);
    assert(z2 =~= a4 + e2);
    lemma_peel(a4, e1, e2);
    assert(text_from_days(m1)[0] == ',' && text_from_days(m2)[0] == ',');
    assert(e1.skip(0) =~= e1);
    crate::digits::lemma_dec_digits_unique(
        e1,
        0,
        m1.starting_reference_weight as nat,
        text_from_days(m1),
        m2.starting_reference_weight as nat,
        text_from_days(m2),
    );
}

/// Equal texts from the days on agree on the days, and from the weights on.
proof fn lemma_unique_days(m1: ProgramView, m2: ProgramView)
    requires
        program_json_safe(m1),
        program_json_safe(m2),
        text_from_days(m1) == text_from_days(m2),
    ensures
        m1.days == m2.days,
        text_from_weights(m1) == text_from_weights(m2),
{
    reveal_strlit(",\"days_in_notation\":[");
    reveal_strlit("],\"weights\":{");
    let a5 = ",\"days_in_notation\":["@;
    let g1 = json_day_items(m1.days) + text_from_weights(m1);
    let g2 = json_day_items(m2.days) + text_from_weights(m2);
    assert(text_from_days(m1) =~= a5 + g1);
    assert(text_from_days(m2) =~= a5 + g2);
    lemma_peel(a5, g1, g2);
    let dt1 = m1.days.map_values(|d: DayView| format_day_spec(d));
    let dt2 = m2.days.map_values(|d: DayView| format_day_spec(d));
    lemma_day_items_are_string_items(m1.days);
    lemma_day_items_are_string_items(m2.days);
    assert(g1 =~= json_string_items(dt1) + text_from_weights(m1));
    assert(g2 =~= json_string_items(dt2) + text_from_weights(m2));
    assert(text_from_weights(m1)[0] == ']' && text_from_weights(m2)[0] == ']');
    assert forall|k: int| 0 <= k < dt1.len() implies quote_free(#[trigger] dt1[k]) by {
        lemma_day_text_quote_free(m1.days[k]);
    }
    assert forall|k: int| 0 <= k < dt2.len() implies quote_free(#[trigger] dt2[k]) by {
        lemma_day_text_quote_free(m2.days[k]);
    }
    assert(m1.days.len() >= 1 && m2.days.len() >= 1);
    assert(g1.skip(0) =~= g1);
    lemma_string_items_unique(g1, 0, dt1, text_from_weights(m1), dt2, text_from_weights(m2));
    assert forall|d: int| 0 <= d < m1.days.len() implies #[trigger] m1.days[d] == m2.days[d] by {
        assert(dt1[d] == dt2[d]);
        lemma_day_round_trip(m1.days[d]);
        lemma_day_round_trip(m2.days[d]);
    }
    assert(m1.days =~= m2.days);
}

/// Equal texts from the weights on agree on the ledger, and from the day
/// index on.
proof fn lemma_unique_weights(m1: ProgramView, m2: ProgramView)
    requires
        program_json_safe(m1),
        program_json_safe(m2),
        text_from_weights(m1) == text_from_weights(m2),
    ensures
        m1.weights == m2.weights,
        text_from_day_index(m1) == text_from_day_index(m2),
{
    reveal_strlit("],\"weights\":{");
    reveal_strlit("},\"current_day\":");
    let a6 = "],\"weights\":{"@;
    let i1 = json_weight_items(m1.weights) + text_from_day_index(m1);
    let i2 = json_weight_items(m2.weights) + text_from_day_index(m2);
    assert(text_from_weights(m1) =~= a6 + i1);
    assert(text_from_weights(m2) =~= a6 + i2);
    lemma_peel(a6, i1, i2);
    let j1 = text_from_day_index(m1);
    let j2 = text_from_day_index(m2);
    assert(j1[0] == '}' && j2[0] == '}');
    if m1.weights.len() == 0 && m2.weights.len() == 0 {
        assert(m1.weights =~= m2.weights);
        assert(i1 =~= j1 && i2 =~= j2);
    } else if m1.weights.len() == 0 {
        assert(i1 =~= j1);
        assert(i2 =~= json_string(m2.weights[0].0) + (seq![':'] + dec_digits(
            m2.weights[0].1 as nat,
        ) + (if m2.weights.len() == 1 {
            j2
        } else {
            seq![','] + json_weight_items(m2.weights.drop_first()) + j2
        })));
        assert(i1[0] == '}' && i2[0] == '"');
    } else if m2.weights.len() == 0 {
        assert(i2 =~= j2);
        assert(i1 =~= json_string(m1.weights[0].0) + (seq![':'] + dec_digits(
            m1.weights[0].1 as nat,
        ) + (if m1.weights.len() == 1 {
            j1
        } else {
            seq![','] + json_weight_items(m1.weights.drop_first()) + j1
        })));
        assert(i2[0] == '}' && i1[0] == '"');
    } else {
        lemma_weight_items_unique(i1, m1.weights, j1, m2.weights, j2);
    }
}

/// Equal texts from the day index on agree on it and on every recorded
/// result.
proof fn lemma_unique_results(m1: ProgramView, m2: ProgramView)
    requires
        program_json_safe(m1),
        program_json_safe(m2),
        text_from_day_index(m1) == text_from_day_index(m2),
    ensures
        m1.current_day == m2.current_day,
        m1.current_cycle_attempt_results == m2.current_cycle_attempt_results,
{
    reveal_strlit("},\"current_day\":");
    reveal_strlit(",\"past_attempt_results_in_notation\":[");
    reveal_strlit("]}");
    let a7 = "},\"current_day\":"@;
    let a8 = ",\"past_attempt_results_in_notation\":["@;
    let a9 = "]}"@;
    let k1 = dec_digits(m1.current_day as nat) + text_from_results(m1);
    let k2 = dec_digits(m2.current_day as nat) + text_from_results(m2);
    assert(text_from_day_index(m1) =~= a7 + k1);
    assert(text_from_day_index(m2) =~= a7 + k2);
    lemma_peel(a7, k1, k2);
    assert(text_from_results(m1)[0] == ',' && text_from_results(m2)[0] == ',');
    assert(k1.skip(0) =~= k1);
    crate::digits::lemma_dec_digits_unique(
        k1,
        0,
        m1.current_day as nat,
        text_from_results(m1),
        m2.current_day as nat,
        text_from_results(m2),
    );
    let rr1 = m1.current_cycle_attempt_results;
    let rr2 = m2.current_cycle_attempt_results;
    let q1 = json_result_lists(rr1) + a9;
    let q2 = json_result_lists(rr2) + a9;
    assert(text_from_results(m1) =~= a8 + q1);
    assert(text_from_results(m2) =~= a8 + q2);
    lemma_peel(a8, q1, q2);
    let rt1 = rr1.map_values(
        |rs: Seq<LiftAttemptResult>| rs.map_values(|r: LiftAttemptResult| format_result_spec(r)),
    );
    let rt2 = rr2.map_values(
        |rs: Seq<LiftAttemptResult>| rs.map_values(|r: LiftAttemptResult| format_result_spec(r)),
    );
    lemma_result_lists_are_list_items(rr1);
    lemma_result_lists_are_list_items(rr2);
    assert(a9[0] == ']');
    if rr1.len() == 0 && rr2.len() == 0 {
        assert(rr1 =~= rr2);
    } else if rr1.len() == 0 {
        assert(q1 =~= a9);
        assert(json_list_items(rt2) =~= seq!['['] + json_string_items(rt2[0]) + seq![']'] + (
        if rt2.len() == 1 {
            Seq::<char>::empty()
        } else {
            seq![','] + json_list_items(rt2.drop_first())
        }));
        assert(q1[0] == ']' && q2[0] == '[');
    } else if rr2.len() == 0 {
        assert(q2 =~= a9);
        assert(json_list_items(rt1) =~= seq!['['] + json_string_items(rt1[0]) + seq![']'] + (
        if rt1.len() == 1 {
            Seq::<char>::empty()
        } else {
            seq![','] + json_list_items(rt1.drop_first())
        }));
        assert(q2[0] == ']' && q1[0] == '[');
    } else {
        assert(q1 =~= json_list_items(rt1) + a9);
        assert(q2 =~= json_list_items(rt2) + a9);
        assert forall|k: int, i: int|
            0 <= k < rt1.len() && 0 <= i < rt1[k].len() implies quote_free(
            #[trigger] rt1[k][i],
        ) by {
            lemma_result_text_quote_free(rr1[k][i]);
        }
        assert forall|k: int, i: int|
            0 <= k < rt2.len() && 0 <= i < rt2[k].len() implies quote_free(
            #[trigger] rt2[k][i],
        ) by {
            lemma_result_text_quote_free(rr2[k][i]);
        }
        lemma_list_items_unique(q1, rt1, a9, rt2, a9);
        assert forall|k: int| 0 <= k < rr1.len() implies #[trigger] rr1[k] == rr2[k] by {
            assert(rt1[k] == rt2[k]);
            assert forall|i: int| 0 <= i < rr1[k].len() implies #[trigger] rr1[k][i]
                == rr2[k][i] by {
                assert(rt1[k][i] == format_result_spec(rr1[k][i]));
                assert(rt2[k][i] == format_result_spec(rr2[k][i]));
                lemma_result_round_trip(rr1[k][i]);
                lemma_result_round_trip(rr2[k][i]);
            }
            assert(rr1[k] =~= rr2[k]);
        }
        assert(rr1 =~= rr2);
    }
}

/// Two safe programs with the same persisted text are the same program.
pub proof fn lemma_program_json_unique(m1: ProgramView, m2: ProgramView)
    requires
        program_json_safe(m1),
        program_json_safe(m2),
        format_program_json(m1) == format_program_json(m2),
    ensures
        m1 == m2,
{
    reveal_strlit("{\"name\":");
    lemma_peel("{\"name\":"@, text_from_name(m1), text_from_name(m2));
    lemma_unique_name_wc(m1, m2);
    lemma_unique_refs(m1, m2);
    lemma_unique_days(m1, m2);
    lemma_unique_weights(m1, m2);
    lemma_unique_results(m1, m2);
    assert(m1 =~~= m2);
}

/// Splitting a suffix at a known piece: the piece matches there, and the
/// rest is the suffix beyond it.
proof fn lemma_drop_prefix_at(v: Seq<char>, i: int, a: Seq<char>, x: Seq<char>)
    requires
        0 <= i <= v.len(),
        v.skip(i) == a + x,
    ensures
        i + a.len() <= v.len(),
        v.skip(i + a.len()) == x,
        is_match_at(v, a, i),
{
    assert(v.skip(i).len() == v.len() - i);
    assert((a + x).len() == a.len() + x.len());
    assert forall|j: int| 0 <= j < x.len() implies v.skip(i + a.len() as int)[j] == x[j] by {
        assert(v.skip(i + a.len() as int)[j] == v[i + a.len() + j]);
        assert(v.skip(i)[a.len() + j] == v[i + a.len() + j]);
        assert((a + x)[a.len() + j] == x[j]);
    }
    assert(v.skip(i + a.len() as int) =~= x);
    assert forall|j: int| 0 <= j < a.len() implies v.subrange(i, i + a.len() as int)[j]
        == a[j] by {
        assert(v.subrange(i, i + a.len() as int)[j] == v[i + j]);
        assert(v.skip(i)[j] == v[i + j]);
        assert((a + x)[j] == a[j]);
    }
    assert(v.subrange(i, i + a.len() as int) =~= a);
}

/// Read the opening of the persisted object: the name and the three
/// scalars, stopping where the day array's items begin.  On the text of a
/// safe program this reads exactly that program's fields.
#[verifier::rlimit(100)]
fn scan_program_header(v: &Vec<char>, Ghost(exp): Ghost<Option<ProgramView>>) -> (r: Option<
    (String, u64, u64, u64, usize),
>)
    requires
        exp matches Some(m) ==> program_json_safe(m) && v@ == format_program_json(m),
    ensures
        r matches Some(t) ==> t.4 <= v@.len(),
        exp matches Some(m) ==> (r matches Some(t) && t.0@ == m.name && t.1
            == m.workouts_completed && t.2 == m.reference_weight && t.3
            == m.starting_reference_weight && v@.skip(t.4 as int) == json_string_items(
            m.days.map_values(|d: DayView| format_day_spec(d)),
        ) + text_from_weights(m)),
{
    let ghost valid = exp is Some;
    let ghost m: ProgramView = if valid {
        exp->0
    } else {
        arbitrary()
    };
    proof {
        reveal_strlit("{\"name\":");
        reveal_strlit(",\"workouts_completed\":");
        reveal_strlit(",\"reference_weight\":");
        reveal_strlit(",\"starting_reference_weight\":");
        reveal_strlit(",\"days_in_notation\":[");
        reveal_strlit("],\"weights\":{");
    }
    let vlen = v.len();
    let ghost a1 = "{\"name\":"@;
    let ghost a2 = ",\"workouts_completed\":"@;
    let ghost a3 = ",\"reference_weight\":"@;
    let ghost a4 = ",\"starting_reference_weight\":"@;
    let ghost a5 = ",\"days_in_notation\":["@;
    proof {
        if valid {
            assert(v@.skip(0) =~= v@);
            lemma_drop_prefix_at(v@, 0, a1, text_from_name(m));
        }
    }
    let p0 = match expect_lit(&v, 0, "{\"name\":") {
        Some(p) => p,
        None => {
            proof {
                if valid {
                    assert(false);
                }
            }
            return None;
        },
    };
    proof {
        if valid {
            assert(p0 == a1.len());
            assert(text_from_name(m) =~= json_string(m.name) + (a2 + dec_digits(
                m.workouts_completed as nat,
            ) + text_from_reference(m)));
            lemma_escape_plain(m.name);
        }
    }
    let (name, p1) = match scan_string(&v, p0) {
        Some(x) => x,
        None => {
            proof {
                if valid {
                    assert(false);
                }
            }
            return None;
        },
    };
    proof {
        if valid {
            assert(name@ == m.name && p1 == p0 + json_string(m.name).len());
            lemma_drop_prefix_at(
                v@,
                p0 as int,
                json_string(m.name),
                a2 + dec_digits(m.workouts_completed as nat) + text_from_reference(m),
            );
            assert((a2 + dec_digits(m.workouts_completed as nat) + text_from_reference(m))
                =~= a2 + (dec_digits(m.workouts_completed as nat) + text_from_reference(
                m,
            )));
            lemma_drop_prefix_at(
                v@,
                p1 as int,
                a2,
                dec_digits(m.workouts_completed as nat) + text_from_reference(m),
            );
        }
    }
    let p2 = match expect_lit(&v, p1, ",\"workouts_completed\":") {
        Some(p) => p,
        None => {
            proof {
                if valid {
                    assert(false);
                }
            }
            return None;
        },
    };
    proof {
        if valid {
            assert(p2 == p1 + a2.len());
            assert(text_from_reference(m)[0] == ',');
            assert(!is_digit_char(','));
            assert(m.workouts_completed as nat == ((m.workouts_completed as u64) as nat));
            assert(v@.skip(p2 as int) == dec_digits(((m.workouts_completed as u64)) as nat)
                + text_from_reference(m));
            assert(v@.skip(p2 as int).len() == v@.len() - p2);
            assert(p2 + dec_digits(((m.workouts_completed as u64)) as nat).len() <= vlen);
        }
    }
    let (workouts_completed, p3) = match scan_u64(&v, p2) {
        Some(x) => x,
        None => {
            proof {
                if valid {
                    assert(false);
                }
            }
            return None;
        },
    };
    proof {
        if valid {
            assert(workouts_completed == m.workouts_completed);
            assert(p3 == p2 + dec_digits(m.workouts_completed as nat).len());
            lemma_drop_prefix_at(
                v@,
                p2 as int,
                dec_digits(m.workouts_completed as nat),
                text_from_reference(m),
            );
        }
    }
    let (reference_weight, starting_reference_weight, p8) = match scan_scalar_part(
        &v,
        p3,
        Ghost(exp),
    ) {
        Some(t) => t,
        None => {
            proof {
                if valid {
                    assert(false);
                }
            }
            return None;
        },
    };
    Some((name, workouts_completed, reference_weight, starting_reference_weight, p8))
}

/// Read the two reference weights, stopping where the day array's items
/// begin.
#[verifier::rlimit(100)]
fn scan_scalar_part(v: &Vec<char>, p3: usize, Ghost(exp): Ghost<Option<ProgramView>>) -> (r:
    Option<(u64, u64, usize)>)
    requires
        p3 <= v.len(),
        exp matches Some(m) ==> program_json_safe(m) && v@.skip(p3 as int)
            == text_from_reference(m),
    ensures
        r matches Some(t) ==> t.2 <= v@.len(),
        exp matches Some(m) ==> (r matches Some(t) && t.0 == m.reference_weight && t.1
            == m.starting_reference_weight && v@.skip(t.2 as int) == json_string_items(
            m.days.map_values(|d: DayView| format_day_spec(d)),
        ) + text_from_weights(m)),
{
    let ghost valid = exp is Some;
    let ghost m: ProgramView = if valid {
        exp->0
    } else {
        arbitrary()
    };
    proof {
        reveal_strlit(",\"reference_weight\":");
        reveal_strlit(",\"starting_reference_weight\":");
        reveal_strlit(",\"days_in_notation\":[");
        reveal_strlit("],\"weights\":{");
    }
    let vlen = v.len();
    let ghost a3 = ",\"reference_weight\":"@;
    let ghost a4 = ",\"starting_reference_weight\":"@;
    let ghost a5 = ",\"days_in_notation\":["@;
    proof {
        if valid {
            assert(text_from_reference(m) =~= a3 + (dec_digits(m.reference_weight as nat) + (a4
                + dec_digits(m.starting_reference_weight as nat) + text_from_days(m))));
            lemma_drop_prefix_at(
                v@,
                p3 as int,
                a3,
                dec_digits(m.reference_weight as nat) + (a4 + dec_digits(
                    m.starting_reference_weight as nat,
                ) + text_from_days(m)),
            );
        }
    }
    let p4 = match expect_lit(&v, p3, ",\"reference_weight\":") {
        Some(p) => p,
        None => {
            proof {
                if valid {
                    assert(false);
                }
            }
            return None;
        },
    };
    proof {
        if valid {
            assert(p4 == p3 + a3.len());
            assert((a4 + dec_digits(m.starting_reference_weight as nat) + text_from_days(
                m,
            ))[0] == ',');
            assert(m.reference_weight as nat == ((m.reference_weight as u64) as nat));
            assert(v@.skip(p4 as int) == dec_digits(m.reference_weight as nat) + (a4
                + dec_digits(m.starting_reference_weight as nat) + text_from_days(m)));
        }
    }
    let (reference_weight, p5) = match scan_u64(&v, p4) {
        Some(x) => x,
        None => {
            proof {
                if valid {
                    assert(false);
                }
            }
            return None;
        },
    };
    proof {
        if valid {
            assert(reference_weight == m.reference_weight);
            lemma_drop_prefix_at(
                v@,
                p4 as int,
                dec_digits(m.reference_weight as nat),
                a4 + dec_digits(m.starting_reference_weight as nat) + text_from_days(m),
            );
            assert(p5 == p4 + dec_digits(m.reference_weight as nat).len());
            assert((a4 + dec_digits(m.starting_reference_weight as nat) + text_from_days(m))
                =~= a4 + (dec_digits(m.starting_reference_weight as nat) + text_from_days(
                m,
            )));
            lemma_drop_prefix_at(
                v@,
                p5 as int,
                a4,
                dec_digits(m.starting_reference_weight as nat) + text_from_days(m),
            );
        }
    }
    let p6 = match expect_lit(&v, p5, ",\"starting_reference_weight\":") {
        Some(p) => p,
        None => {
            proof {
                if valid {
                    assert(false);
                }
            }
            return None;
        },
    };
    proof {
        if valid {
            assert(p6 == p5 + a4.len());
            assert(text_from_days(m)[0] == ',');
            assert(m.starting_reference_weight as nat == ((m.starting_reference_weight
                as u64) as nat));
        }
    }
    let (starting_reference_weight, p7) = match scan_u64(&v, p6) {
        Some(x) => x,
        None => {
            proof {
                if valid {
                    assert(false);
                }
            }
            return None;
        },
    };
    proof {
        if valid {
            assert(starting_reference_weight == m.starting_reference_weight);
            lemma_drop_prefix_at(
                v@,
                p6 as int,
                dec_digits(m.starting_reference_weight as nat),
                text_from_days(m),
            );
            assert(p7 == p6 + dec_digits(m.starting_reference_weight as nat).len());
            assert(text_from_days(m) =~= a5 + (json_day_items(m.days) + text_from_weights(
                m,
            )));
            lemma_drop_prefix_at(
                v@,
                p7 as int,
                a5,
                json_day_items(m.days) + text_from_weights(m),
            );
        }
    }
    let p8 = match expect_lit(&v, p7, ",\"days_in_notation\":[") {
        Some(p) => p,
        None => {
            proof {
                if valid {
                    assert(false);
                }
            }
            return None;
        },
    };
    let ghost day_texts_spec = m.days.map_values(|d: DayView| format_day_spec(d));
    proof {
        if valid {
            assert(p8 == p7 + a5.len());
            lemma_day_items_are_string_items(m.days);
            assert(v@.skip(p8 as int) == json_string_items(day_texts_spec)
                + text_from_weights(m));
            assert(text_from_weights(m)[0] == ']');
            assert(m.days.len() >= 1);
            assert forall|k: int| 0 <= k < day_texts_spec.len() implies quote_free(
                #[trigger] day_texts_spec[k],
            ) by {
                lemma_day_text_quote_free(m.days[k]);
            }
        }
    }
    Some((reference_weight, starting_reference_weight, p8))
}

/// Read the remainder of the persisted object from where the day array's
/// items begin: the days, the weights, the day index, and the recorded
/// results, through the closing of the object.  On the text of a safe
/// program this reads exactly that program's remaining fields.
#[verifier::rlimit(100)]
fn scan_program_rest(v: &Vec<char>, p8: usize, Ghost(exp): Ghost<Option<ProgramView>>) -> (r:
    Option<(Vec<Day>, Vec<(String, u64)>, u64, Vec<Vec<LiftAttemptResult>>, usize)>)
    requires
        p8 <= v.len(),
        exp matches Some(m) ==> program_json_safe(m) && v@.skip(p8 as int) == json_string_items(
            m.days.map_values(|d: DayView| format_day_spec(d)),
        ) + text_from_weights(m),
    ensures
        r matches Some(t) ==> (forall|d: int, i: int|
            0 <= d < t.0@.len() && 0 <= i < t.0@[d].lifts@.len() ==> (#[trigger] t.0@[d].lifts@[
            i]).wf()) && t.2 < t.0@.len() && t.4 <= v@.len(),
        exp matches Some(m) ==> (r matches Some(t) && t.0@.map_values(|d: Day| d@) == m.days
            && t.1@.map_values(|e: (String, u64)| (e.0@, e.1 as int)) == m.weights && t.2
            == m.current_day && t.3@.map_values(|vv: Vec<LiftAttemptResult>| vv@)
            == m.current_cycle_attempt_results && t.4 == v@.len()),
{
    let ghost valid = exp is Some;
    let ghost m: ProgramView = if valid {
        exp->0
    } else {
        arbitrary()
    };
    proof {
        reveal_strlit(",\"days_in_notation\":[");
        reveal_strlit("],\"weights\":{");
        reveal_strlit("},\"current_day\":");
        reveal_strlit(",\"past_attempt_results_in_notation\":[");
        reveal_strlit("]}");
    }
    let vlen = v.len();
    let ghost a6 = "],\"weights\":{"@;
    let ghost a7 = "},\"current_day\":"@;
    let ghost a8 = ",\"past_attempt_results_in_notation\":["@;
    let ghost a9 = "]}"@;
    let ghost dts = m.days.map_values(|d: DayView| format_day_spec(d));
    proof {
        if valid {
            assert(text_from_weights(m)[0] == ']');
            assert(m.days.len() >= 1);
            assert forall|k: int| 0 <= k < dts.len() implies quote_free(#[trigger] dts[k]) by {
                lemma_day_text_quote_free(m.days[k]);
            }
        }
    }
        let ghost day_texts_spec = m.days.map_values(|d: DayView| format_day_spec(d));
    let (day_texts, p9) = match scan_string_array(&v, p8) {
        Some(x) => x,
        None => {
            proof {
                if valid {
                    assert(false);
                }
            }
            return None;
        },
    };
    proof {
        if valid {
            assert(day_texts@.map_values(|s: String| s@) == day_texts_spec);
            lemma_drop_prefix_at(
                v@,
                p8 as int,
                json_string_items(day_texts_spec),
                text_from_weights(m),
            );
            assert(p9 == p8 + json_string_items(day_texts_spec).len());
            assert(v@.skip(p9 as int) == text_from_weights(m));
        }
    }
    let mut days: Vec<Day> = Vec::new();
    let mut di: usize = 0;
    while di < day_texts.len()
        invariant
            exp matches Some(m2) ==> valid && m2 == m,
            !valid ==> exp is None,
            0 <= di <= day_texts@.len(),
            forall|d: int, i: int|
                0 <= d < days@.len() && 0 <= i < days@[d].lifts@.len() ==> (#[trigger] days@[
                d].lifts@[i]).wf(),
            days@.len() == di,
            valid ==> program_json_safe(m) && day_texts@.map_values(|s: String| s@)
                == m.days.map_values(|d: DayView| format_day_spec(d)),
            valid ==> days@.map_values(|d: Day| d@) == m.days.take(di as int),
        decreases day_texts@.len() - di,
    {
        proof {
            if valid {
                assert(day_texts@.map_values(|s: String| s@)[di as int] == day_texts@[
                di as int]@);
                assert(m.days.map_values(|d: DayView| format_day_spec(d))[di as int]
                    == format_day_spec(m.days[di as int]));
                lemma_day_round_trip(m.days[di as int]);
            }
        }
        match Day::parse(day_texts[di].as_str()) {
            Ok(d) => {
                proof {
                    assert(forall|i: int|
                        0 <= i < d.lifts@.len() ==> (#[trigger] d.lifts@[i]).wf());
                    if valid {
                        assert(d@ == m.days[di as int]);
                        assert(days@.map_values(|dd: Day| dd@).push(d@) =~= m.days.take(
                            di + 1,
                        ));
                    }
                }
                days.push(d);
                proof {
                    if valid {
                        assert(days@.map_values(|dd: Day| dd@) =~= m.days.take(di + 1));
                    }
                }
            },
            Err(e) => {
                proof {
                    if valid {
                        assert(false);
                    }
                }
                return None;
            },
        }
        di = di + 1;
    }
    proof {
        if valid {
            assert(m.days.take(m.days.len() as int) =~= m.days);
            assert(days@.map_values(|d: Day| d@) == m.days);
            assert(text_from_weights(m) =~= a6 + (json_weight_items(m.weights)
                + text_from_day_index(m)));
            lemma_drop_prefix_at(
                v@,
                p9 as int,
                a6,
                json_weight_items(m.weights) + text_from_day_index(m),
            );
        }
    }
    let p10 = match expect_lit(&v, p9, "],\"weights\":{") {
        Some(p) => p,
        None => {
            proof {
                if valid {
                    assert(false);
                }
            }
            return None;
        },
    };
    proof {
        if valid {
            assert(p10 == p9 + a6.len());
            assert(v@.skip(p10 as int) == json_weight_items(m.weights)
                + text_from_day_index(m));
            assert(text_from_day_index(m)[0] == '}');
            assert(v@.skip(p10 as int).len() > 0);
            assert(v@.skip(p10 as int)[0] == v@[p10 as int]);
            if m.weights.len() > 0 {
                assert(json_weight_items(m.weights)[0] == json_string(m.weights[0].0)[0]);
                assert(v@[p10 as int] == '"');
            } else {
                assert(v@[p10 as int] == '}');
            }
        }
    }
    let (entries, p11): (Vec<(String, u64)>, usize) = if p10 < v.len() && {
        let c = v[p10];
        c == '}'
    } {
        proof {
            if valid {
                assert(m.weights.len() == 0);
                assert(Seq::<(Seq<char>, int)>::empty() =~= m.weights);
            }
        }
        (Vec::new(), p10)
    } else {
        match scan_weight_entries(&v, p10) {
            Some(x) => {
                proof {
                    if valid {
                        assert(m.weights.len() >= 1);
                        assert(x.0@.map_values(|e: (String, u64)| (e.0@, e.1 as int))
                            == m.weights);
                        assert(x.1 == p10 + json_weight_items(m.weights).len());
                    }
                }
                x
            },
            None => {
                proof {
                    if valid {
                        assert(m.weights.len() >= 1);
                        assert(false);
                    }
                }
                return None;
            },
        }
    };
    proof {
        if valid {
            if m.weights.len() == 0 {
                assert(json_weight_items(m.weights).len() == 0);
            }
            lemma_drop_prefix_at(
                v@,
                p10 as int,
                json_weight_items(m.weights),
                text_from_day_index(m),
            );
            assert(p11 == p10 + json_weight_items(m.weights).len());
            assert(v@.skip(p11 as int) == text_from_day_index(m));
            assert(entries@.map_values(|e: (String, u64)| (e.0@, e.1 as int)) =~= m.weights);
            assert(text_from_day_index(m) =~= a7 + (dec_digits(m.current_day as nat)
                + text_from_results(m)));
            lemma_drop_prefix_at(
                v@,
                p11 as int,
                a7,
                dec_digits(m.current_day as nat) + text_from_results(m),
            );
        }
    }
    let p12 = match expect_lit(&v, p11, "},\"current_day\":") {
        Some(p) => p,
        None => {
            proof {
                if valid {
                    assert(false);
                }
            }
            return None;
        },
    };
    proof {
        if valid {
            assert(p12 == p11 + a7.len());
            assert(text_from_results(m)[0] == ',');
            assert(0 <= m.current_day < m.days.len());
            assert(m.days.len() <= usize::MAX);
            assert(m.current_day as nat == ((m.current_day as u64) as nat));
            assert(v@.skip(p12 as int) == dec_digits(((m.current_day as u64)) as nat)
                + text_from_results(m));
            assert(v@.skip(p12 as int).len() == v@.len() - p12);
            assert(p12 + dec_digits(((m.current_day as u64)) as nat).len() <= vlen);
        }
    }
    let (current_day64, p13) = match scan_u64(&v, p12) {
        Some(x) => x,
        None => {
            proof {
                if valid {
                    assert(false);
                }
            }
            return None;
        },
    };
    proof {
        if valid {
            assert(current_day64 == m.current_day);
            lemma_drop_prefix_at(
                v@,
                p12 as int,
                dec_digits(m.current_day as nat),
                text_from_results(m),
            );
            assert(p13 == p12 + dec_digits(m.current_day as nat).len());
            assert(text_from_results(m) =~= a8 + (json_result_lists(
                m.current_cycle_attempt_results,
            ) + a9));
            lemma_drop_prefix_at(
                v@,
                p13 as int,
                a8,
                json_result_lists(m.current_cycle_attempt_results) + a9,
            );
        }
    }
    let p14 = match expect_lit(&v, p13, ",\"past_attempt_results_in_notation\":[") {
        Some(p) => p,
        None => {
            proof {
                if valid {
                    assert(false);
                }
            }
            return None;
        },
    };
    let ghost rr = m.current_cycle_attempt_results;
    let ghost rt = rr.map_values(
        |rs: Seq<LiftAttemptResult>|
            rs.map_values(|r2: LiftAttemptResult| format_result_spec(r2)),
    );
    proof {
        if valid {
            assert(p14 == p13 + a8.len());
            lemma_result_lists_are_list_items(rr);
            assert(v@.skip(p14 as int) == json_list_items(rt) + a9);
            assert(a9[0] == ']');
            assert(v@.skip(p14 as int).len() > 0);
            assert(v@.skip(p14 as int)[0] == v@[p14 as int]);
            if rr.len() > 0 {
                assert(json_list_items(rt)[0] == '[');
                assert(v@[p14 as int] == '[');
            } else {
                assert(v@[p14 as int] == ']');
            }
            assert forall|k: int, i: int|
                0 <= k < rt.len() && 0 <= i < rt[k].len() implies quote_free(
                #[trigger] rt[k][i],
            ) by {
                lemma_result_text_quote_free(rr[k][i]);
            }
        }
    }
    let (result_texts, p15): (Vec<Vec<String>>, usize) = if p14 < v.len() && {
        let c = v[p14];
        c == ']'
    } {
        proof {
            if valid {
                assert(rr.len() == 0);
            }
        }
        (Vec::new(), p14)
    } else {
        match scan_list_items(&v, p14) {
            Some(x) => {
                proof {
                    if valid {
                        assert(rr.len() >= 1);
                        assert(x.0@.map_values(
                            |vv: Vec<String>| vv@.map_values(|s2: String| s2@),
                        ) == rt);
                        assert(x.1 == p14 + json_list_items(rt).len());
                    }
                }
                x
            },
            None => {
                proof {
                    if valid {
                        assert(rr.len() >= 1);
                        assert(false);
                    }
                }
                return None;
            },
        }
    };
    proof {
        if valid {
            if rr.len() == 0 {
                assert(rt.len() == 0);
                assert(json_list_items(rt).len() == 0);
                assert(result_texts@.map_values(
                    |vv: Vec<String>| vv@.map_values(|s2: String| s2@),
                ) =~= rt);
            }
            lemma_drop_prefix_at(v@, p14 as int, json_list_items(rt), a9);
            assert(p15 == p14 + json_list_items(rt).len());
            assert(v@.skip(p15 as int) == a9);
        }
    }
    let mut results: Vec<Vec<LiftAttemptResult>> = Vec::new();
    let mut ri: usize = 0;
    while ri < result_texts.len()
        invariant
            exp matches Some(m2) ==> valid && m2 == m,
            !valid ==> exp is None,
            0 <= ri <= result_texts@.len(),
            results@.len() == ri,
            valid ==> result_texts@.map_values(
                |vv: Vec<String>| vv@.map_values(|s2: String| s2@),
            ) == rt && rt.len() == rr.len() && (forall|k: int|
                0 <= k < rr.len() ==> #[trigger] rt[k] == rr[k].map_values(
                    |r2: LiftAttemptResult| format_result_spec(r2),
                )),
            valid ==> results@.map_values(|vv: Vec<LiftAttemptResult>| vv@) == rr.take(
                ri as int,
            ),
        decreases result_texts@.len() - ri,
    {
        let texts = &result_texts[ri];
        let mut one: Vec<LiftAttemptResult> = Vec::new();
        let mut ti: usize = 0;
        proof {
            if valid {
                assert(result_texts@.map_values(
                    |vv: Vec<String>| vv@.map_values(|s2: String| s2@),
                )[ri as int] == texts@.map_values(|s2: String| s2@));
                assert(rt[ri as int] == rr[ri as int].map_values(
                    |r2: LiftAttemptResult| format_result_spec(r2),
                ));
            }
        }
        while ti < texts.len()
            invariant
                exp matches Some(m2) ==> valid && m2 == m,
                !valid ==> exp is None,
                0 <= ti <= texts@.len(),
                one@.len() == ti,
                valid ==> 0 <= ri < rr.len() && texts@.map_values(|s2: String| s2@) == rr[
                ri as int].map_values(|r2: LiftAttemptResult| format_result_spec(r2)),
                valid ==> one@ == rr[ri as int].take(ti as int),
            decreases texts@.len() - ti,
        {
            proof {
                if valid {
                    assert(texts@.map_values(|s2: String| s2@)[ti as int] == texts@[
                    ti as int]@);
                    assert(rr[ri as int].map_values(
                        |r2: LiftAttemptResult| format_result_spec(r2),
                    )[ti as int] == format_result_spec(rr[ri as int][ti as int]));
                    lemma_result_round_trip(rr[ri as int][ti as int]);
                }
            }
            match LiftAttemptResult::parse(texts[ti].as_str()) {
                Ok(x) => {
                    proof {
                        if valid {
                            assert(x == rr[ri as int][ti as int]);
                            assert(one@.push(x) =~= rr[ri as int].take(ti + 1));
                        }
                    }
                    one.push(x);
                },
                Err(e) => {
                    proof {
                        if valid {
                            assert(false);
                        }
                    }
                    return None;
                },
            }
            ti = ti + 1;
        }
        proof {
            if valid {
                assert(rr[ri as int].take(rr[ri as int].len() as int) =~= rr[ri as int]);
                assert(one@ == rr[ri as int]);
                assert(results@.map_values(|vv: Vec<LiftAttemptResult>| vv@).push(one@)
                    =~= rr.take(ri + 1));
            }
        }
        results.push(one);
        proof {
            if valid {
                assert(results@.map_values(|vv: Vec<LiftAttemptResult>| vv@) =~= rr.take(
                    ri + 1,
                ));
            }
        }
        ri = ri + 1;
    }
    proof {
        if valid {
            assert(rr.take(rr.len() as int) =~= rr);
            assert(results@.map_values(|vv: Vec<LiftAttemptResult>| vv@) == rr);
        }
    }
    let p16 = match expect_lit(&v, p15, "]}") {
        Some(p) => p,
        None => {
            proof {
                if valid {
                    lemma_drop_prefix_at(v@, p15 as int, a9, Seq::<char>::empty());
                    assert(false);
                }
            }
            return None;
        },
    };
    if p16 != v.len() {
        proof {
            if valid {
                assert(v@.skip(p15 as int).len() == a9.len());
                assert(p16 == v@.len());
            }
        }
        return None;
    }
    if !(current_day64 < days.len() as u64) {
        proof {
            if valid {
                assert(m.current_day < m.days.len());
                assert(days@.map_values(|d: Day| d@).len() == m.days.len());
            }
        }
        return None;
    }
    Some((days, entries, current_day64, results, p16))
}

impl Program {
    /// Read a program back from its persisted JSON text.  Succeeds only on
    /// a well-formed object — in particular the stored day index must point
    /// inside the stored cycle, so anything this returns satisfies the
    /// engine's invariant.  And reading is exact: the persisted text of any
    /// safe program gives back that very program.
    pub fn parse_json(text: &str) -> (r: Result<Program, NotationError>)
        ensures
            r matches Ok(p) ==> p.wf(),
            forall|m: ProgramView|
                (program_json_safe(m) && text@ == #[trigger] format_program_json(m)) ==> (
                r matches Ok(p) && p@ == m),
    {
        let v = str_to_chars(text);
        let ghost ghas = exists|m: ProgramView|
            program_json_safe(m) && v@ == format_program_json(m);
        let ghost gm: ProgramView = if ghas {
            choose|m: ProgramView| program_json_safe(m) && v@ == format_program_json(m)
        } else {
            arbitrary()
        };
        let ghost exp: Option<ProgramView> = if ghas {
            Some(gm)
        } else {
            None
        };
        let (name, workouts_completed, reference_weight, starting_reference_weight, p8) =
            match scan_program_header(&v, Ghost(exp)) {
            Some(t) => t,
            None => {
                proof {
                    if ghas {
                        assert(false);
                    }
                }
                return Err(NotationError);
            },
        };
        let (days, entries, current_day64, results, p16) = match scan_program_rest(
            &v,
            p8,
            Ghost(exp),
        ) {
            Some(t) => t,
            None => {
                proof {
                    if ghas {
                        assert(false);
                    }
                }
                return Err(NotationError);
            },
        };
        if p16 != v.len() {
            proof {
                if ghas {
                    assert(false);
                }
            }
            return Err(NotationError);
        }
        let current_day: usize = current_day64 as usize;
        let p = Program {
            days,
            name,
            reference_weight,
            starting_reference_weight,
            workouts_completed,
            weights: Weights { entries },
            current_day,
            current_cycle_attempt_results: results,
        };
        proof {
            assert forall|d: int, i: int|
                0 <= d < p@.days.len() && 0 <= i < p@.days[d].lifts.len() implies (
            #[trigger] p@.days[d].lifts[i]).weight.wf() by {
                assert(p@.days[d] == p.days@[d]@);
                assert(p.days@[d]@.lifts[i] == p.days@[d].lifts@[i]@);
            }
            if ghas {
                assert(p@.weights =~= gm.weights);
                assert(p@ =~~= gm);
            }
            assert forall|m: ProgramView|
                (program_json_safe(m) && text@ == #[trigger] format_program_json(m)) implies (
            Ok::<Program, NotationError>(p) matches Ok(p2) && p2@ == m) by {
                assert(ghas);
                lemma_program_json_unique(m, gm);
            }
        }
        Ok(p)
    }
}

/// Every notation the persisted object stores for a notation-safe program
/// parses back to exactly the value it was printed from: each day's text,
/// and each recorded result's text.  (The scalar fields are stored as plain
/// numbers, whose round trip is `lemma_dec_of_str_val`.)
pub proof fn lemma_persisted_notations_round_trip(p: ProgramView)
    requires
        program_wf(p),
        forall|d: int| 0 <= d < p.days.len() ==> crate::day::day_notation_safe(#[trigger] p.days[d]),
    ensures
        forall|d: int|
            0 <= d < p.days.len() ==> crate::day::parse_day_spec(
                format_day_spec(#[trigger] p.days[d]),
            ) == Some(p.days[d]),
        forall|r: LiftAttemptResult| parse_result_spec(#[trigger] format_result_spec(r)) == Some(r),
{
    assert forall|d: int|
        0 <= d < p.days.len() implies crate::day::parse_day_spec(
        format_day_spec(#[trigger] p.days[d]),
    ) == Some(p.days[d]) by {
        lemma_day_round_trip(p.days[d]);
    }
    assert forall|r: LiftAttemptResult| parse_result_spec(#[trigger] format_result_spec(r))
        == Some(r) by {
        lemma_result_round_trip(r);
    }
}

} // verus!
