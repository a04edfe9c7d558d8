use vstd::prelude::*;
use crate::lifting::{
    Lift, LiftView, append_lift, arrow_pat, format_lift_spec, is_space_char_l, lemma_lift_round_trip,
    parse_lift_chars, parse_lift_spec,
};
use crate::text::{
    chars_to_string, contains_char, contains_seq, first_match_of, is_match_at,
    lemma_first_match_unique, lemma_trim_empty, lemma_trim_of_trimmed, str_to_chars, trim_spec,
};
use crate::NotationError;

verus! {

// One training day: a name and the lifts prescribed for it.
// Notation: `"Day Name | lift1 | lift2 | ..."`.

#[derive(Clone, Debug)]
pub struct Day {
    pub name: String,
    pub lifts: Vec<Lift>,
}

/// The mathematical shape of a day.
#[verifier::ext_equal]
pub ghost struct DayView {
    pub name: Seq<char>,
    pub lifts: Seq<LiftView>,
}

impl View for Day {
    type V = DayView;

    open spec fn view(&self) -> DayView {
        DayView { name: self.name@, lifts: self.lifts@.map_values(|l: Lift| l@) }
    }
}

pub open spec fn bar_sep() -> Seq<char> {
    seq![' ', '|', ' ']
}

/// The canonical text of the lifts of a day, joined with ` | `.
pub open spec fn format_lift_list(ls: Seq<LiftView>) -> Seq<char>
    decreases ls.len(),
{
    if ls.len() == 0 {
        Seq::<char>::empty()
    } else if ls.len() == 1 {
        format_lift_spec(ls[0])
    } else {
        format_lift_spec(ls[0]) + bar_sep() + format_lift_list(ls.drop_first())
    }
}

/// The canonical text of a day.
pub open spec fn format_day_spec(d: DayView) -> Seq<char> {
    d.name + bar_sep() + format_lift_list(d.lifts)
}

/// What the text after the day's name denotes: lift notations separated by
/// ` | `, blank entries skipped.
pub open spec fn parse_lift_list_spec(t: Seq<char>) -> Option<Seq<LiftView>>
    decreases t.len(),
    via parse_lift_list_spec_dec
{
    if contains_seq(t, bar_sep()) {
        let i = first_match_of(t, bar_sep());
        let head = t.subrange(0, i);
        let rest = parse_lift_list_spec(t.subrange(i + 3, t.len() as int));
        if trim_spec(head).len() == 0 {
            rest
        } else {
            match (parse_lift_spec(head), rest) {
                (Some(l), Some(ls)) => Some(seq![l] + ls),
                _ => None,
            }
        }
    } else {
        if trim_spec(t).len() == 0 {
            Some(Seq::<LiftView>::empty())
        } else {
            match parse_lift_spec(t) {
                Some(l) => Some(seq![l]),
                None => None,
            }
        }
    }
}

#[via_fn]
proof fn parse_lift_list_spec_dec(t: Seq<char>) {
    if contains_seq(t, bar_sep()) {
        crate::text::lemma_first_match_of(t, bar_sep());
    }
}

/// What a span of text denotes as a day, if anything: the trimmed name
/// before the first ` | `, then the lifts.
pub open spec fn parse_day_spec(t: Seq<char>) -> Option<DayView> {
    if contains_seq(t, bar_sep()) {
        let i = first_match_of(t, bar_sep());
        let name = trim_spec(t.subrange(0, i));
        match parse_lift_list_spec(t.subrange(i + 3, t.len() as int)) {
            Some(ls) => Some(DayView { name, lifts: ls }),
            None => None,
        }
    } else {
        Some(DayView { name: trim_spec(t), lifts: Seq::<LiftView>::empty() })
    }
}

impl Day {
    pub open spec fn wf(&self) -> bool {
        forall|i: int| 0 <= i < self.lifts@.len() ==> (#[trigger] self.lifts@[i]).wf()
    }

    /// Parse a day notation such as
    /// `"Day Name | Bench press -> 3x5 @ 2r | Pullup -> 3x5"`.
    pub fn parse(notation: &str) -> (r: Result<Day, NotationError>)
        ensures
            match parse_day_spec(notation@) {
                Some(dv) => r matches Ok(d) && d@ == dv && d.wf(),
                None => r matches Err(e),
            },
    {
        let v = str_to_chars(notation);
        parse_day_chars(&v)
    }

    /// The canonical text of this day.
    pub fn format(&self) -> (r: String)
        requires
            self.wf(),
        ensures
            r@ == format_day_spec(self@),
    {
        let mut out: Vec<char> = Vec::new();
        let name = str_to_chars(self.name.as_str());
        crate::text::append_chars(&mut out, &name);
        out.push(' ');
        out.push('|');
        out.push(' ');
        append_lift_list(&mut out, &self.lifts, 0);
        proof {
            assert(self.lifts@.skip(0) =~= self.lifts@);
            assert(lift_views(self.lifts@.skip(0)) =~= self@.lifts);
            assert(out@ =~= format_day_spec(self@));
        }
        chars_to_string(&out)
    }
}

impl core::cmp::PartialEq for Day {
    /// Two days are equal iff name and lifts, in order, agree.
    fn eq(&self, other: &Self) -> (r: bool) {
        let r = self.name == other.name && lifts_eq(&self.lifts, &other.lifts);
        proof {
            if r {
                assert(self@ == other@);
            } else {
                if self@ == other@ {
                    assert(self.lifts@.map_values(|l: Lift| l@) =~= other.lifts@.map_values(
                        |l: Lift| l@,
                    ));
                    assert(forall|j: int|
                        0 <= j < self.lifts@.len() ==> #[trigger] self.lifts@[j]@ == other.lifts@[j]@);
                }
            }
        }
        r
    }
}

impl vstd::std_specs::cmp::PartialEqSpecImpl for Day {
    open spec fn obeys_eq_spec() -> bool {
        true
    }

    open spec fn eq_spec(&self, other: &Self) -> bool {
        self@ == other@
    }
}

/// Are two lift vectors elementwise equal?
pub fn lifts_eq(a: &Vec<Lift>, b: &Vec<Lift>) -> (r: bool)
    ensures
        r == (a@.map_values(|l: Lift| l@) == b@.map_values(|l: Lift| l@)),
{
    if a.len() != b.len() {
        return false;
    }
    let mut i: usize = 0;
    while i < a.len()
        invariant
            0 <= i <= a.len() == b.len(),
            forall|j: int| 0 <= j < i ==> #[trigger] a@[j]@ == b@[j]@,
        decreases a.len() - i,
    {
        if !(a[i] == b[i]) {
            proof {
                let ghost ii = i as int;
                if a@.map_values(|l: Lift| l@) == b@.map_values(|l: Lift| l@) {
                    assert(a@.map_values(|l: Lift| l@)[ii] == b@.map_values(|l: Lift| l@)[ii]);
                }
            }
            return false;
        }
        i = i + 1;
    }
    proof {
        assert(a@.map_values(|l: Lift| l@) =~= b@.map_values(|l: Lift| l@));
    }
    true
}

/// The views of a sequence of lifts.
pub open spec fn lift_views(ls: Seq<Lift>) -> Seq<LiftView> {
    ls.map_values(|l: Lift| l@)
}

/// Append the canonical ` | `-joined text of the lifts from `from` on.
fn append_lift_list(out: &mut Vec<char>, ls: &Vec<Lift>, from: usize)
    requires
        from <= ls.len(),
        forall|i: int| 0 <= i < ls@.len() ==> (#[trigger] ls@[i]).wf(),
    ensures
        final(out)@ == old(out)@ + format_lift_list(lift_views(ls@.skip(from as int))),
    decreases ls.len() - from,
{
    let ghost rest = lift_views(ls@.skip(from as int));
    if from == ls.len() {
        proof {
            assert(rest =~= Seq::<LiftView>::empty());
            assert(final(out)@ =~= old(out)@ + format_lift_list(rest));
        }
        return;
    }
    let l = &ls[from];
    append_lift(out, l);
    proof {
        assert(rest[0] == ls@[from as int]@);
    }
    if from + 1 < ls.len() {
        out.push(' ');
        out.push('|');
        out.push(' ');
        append_lift_list(out, ls, from + 1);
        proof {
            assert(lift_views(ls@.skip(from + 1 as int)) =~= rest.drop_first());
            assert(final(out)@ =~= old(out)@ + format_lift_list(rest));
        }
    } else {
        proof {
            assert(rest.len() == 1);
            assert(final(out)@ =~= old(out)@ + format_lift_list(rest));
        }
    }
}

/// Parse a whole character vector as a day notation.
pub fn parse_day_chars(v: &Vec<char>) -> (r: Result<Day, NotationError>)
    ensures
        match parse_day_spec(v@) {
            Some(dv) => r matches Ok(d) && d@ == dv && d.wf(),
            None => r matches Err(e),
        },
{
    let mut pat: Vec<char> = Vec::new();
    pat.push(' ');
    pat.push('|');
    pat.push(' ');
    proof {
        assert(pat@ =~= bar_sep());
    }
    match crate::text::find_seq(v, 0, &pat) {
        Some(i) => {
            proof {
                lemma_first_match_unique(v@, bar_sep(), i as int);
            }
            let n = v.len();
            proof {
                assert(bar_sep().len() == 3);
                assert(i + 3 <= n);
            }
            let name_part = crate::text::char_sub(v, 0, i);
            let name_trimmed = crate::text::trim_chars(&name_part);
            let name = chars_to_string(&name_trimmed);
            match parse_lift_list_chars(v, i + 3) {
                Ok(lifts) => Ok(Day { name, lifts }),
                Err(e) => Err(e),
            }
        },
        None => {
            proof {
                if contains_seq(v@, bar_sep()) {
                    let q = choose|q: int| is_match_at(v@, bar_sep(), q);
                }
            }
            let trimmed = crate::text::trim_chars(v);
            let name = chars_to_string(&trimmed);
            let lifts: Vec<Lift> = Vec::new();
            proof {
                assert(lifts@.map_values(|l: Lift| l@) =~= Seq::<LiftView>::empty());
            }
            Ok(Day { name, lifts })
        },
    }
}

/// Parse the lifts written after position `from`, separated by ` | `.
fn parse_lift_list_chars(v: &Vec<char>, from: usize) -> (r: Result<Vec<Lift>, NotationError>)
    requires
        from <= v.len(),
    ensures
        match parse_lift_list_spec(v@.subrange(from as int, v@.len() as int)) {
            Some(ls) => r matches Ok(out) && lift_views(out@) == ls && (forall|i: int|
                0 <= i < out@.len() ==> (#[trigger] out@[i]).wf()),
            None => r matches Err(e),
        },
    decreases v.len() - from,
{
    let ghost t = v@.subrange(from as int, v@.len() as int);
    let mut pat: Vec<char> = Vec::new();
    pat.push(' ');
    pat.push('|');
    pat.push(' ');
    proof {
        assert(pat@ =~= bar_sep());
    }
    match crate::text::find_seq(v, from, &pat) {
        Some(i) => {
            proof {
                assert(is_match_at(t, bar_sep(), i - from)) by {
                    assert(t.subrange(i - from, i - from + 3) =~= v@.subrange(i as int, i + 3));
                }
                assert forall|j: int| 0 <= j < i - from implies !is_match_at(t, bar_sep(), j) by {
                    if is_match_at(t, bar_sep(), j) {
                        assert(v@.subrange(from + j, from + j + 3) =~= t.subrange(j, j + 3));
                        assert(is_match_at(v@, bar_sep(), from + j));
                    }
                }
                lemma_first_match_unique(t, bar_sep(), i - from);
                assert(t.subrange(0, i - from) =~= v@.subrange(from as int, i as int));
                assert(t.subrange(i - from + 3, t.len() as int) =~= v@.subrange(
                    i + 3 as int,
                    v@.len() as int,
                ));
            }
            let head = crate::text::char_sub(v, from, i);
            let head_trimmed = crate::text::trim_chars(&head);
            let rest = parse_lift_list_chars(v, i + 3);
            if head_trimmed.len() == 0 {
                rest
            } else {
                let l = parse_lift_chars(&head);
                match (l, rest) {
                    (Ok(l), Ok(rest)) => {
                        let mut out: Vec<Lift> = Vec::new();
                        out.push(l);
                        let mut rest = rest;
                        out.append(&mut rest);
                        proof {
                            let spec_ls = parse_lift_list_spec(t);
                            assert(lift_views(out@) =~= spec_ls->0);
                        }
                        Ok(out)
                    },
                    _ => Err(NotationError),
                }
            }
        },
        None => {
            proof {
                if contains_seq(t, bar_sep()) {
                    let q = choose|q: int| is_match_at(t, bar_sep(), q);
                    assert(v@.subrange(from + q, from + q + 3) =~= t.subrange(q, q + 3));
                    assert(is_match_at(v@, bar_sep(), from + q));
                }
            }
            let trimmed = crate::text::trim_chars(&crate::text::char_sub(v, from, v.len()));
            if trimmed.len() == 0 {
                let out: Vec<Lift> = Vec::new();
                proof {
                    assert(lift_views(out@) =~= Seq::<LiftView>::empty());
                }
                Ok(out)
            } else {
                let whole = crate::text::char_sub(v, from, v.len());
                match parse_lift_chars(&whole) {
                    Ok(l) => {
                        let mut out: Vec<Lift> = Vec::new();
                        out.push(l);
                        proof {
                            assert(lift_views(out@) =~= seq![l@]);
                        }
                        Ok(out)
                    },
                    Err(e) => Err(e),
                }
            }
        },
    }
}

/// The conditions under which a lift's notation survives a day-level round
/// trip: its own round-trip conditions, and a name free of the `|` column.
pub open spec fn lift_notation_safe(l: LiftView) -> bool {
    &&& l.weight.wf()
    &&& (l.name.len() > 0 ==> !is_space_char_l(l.name[0]))
    &&& (l.name.len() > 0 ==> !is_space_char_l(l.name.last()))
    &&& !contains_seq(l.name, arrow_pat())
    &&& !contains_char(l.name, '|')
    &&& 1 <= l.sets.len() <= u64::MAX
}

/// No character of a safe lift's canonical text is the column `|`.
proof fn lemma_lift_text_no_bar(l: LiftView)
    requires
        lift_notation_safe(l),
    ensures
        format_lift_spec(l).len() >= 1,
        forall|j: int| 0 <= j < format_lift_spec(l).len() ==> #[trigger] format_lift_spec(l)[j]
            != '|',
        !is_space_char_l(format_lift_spec(l).last()),
{
    let s = format_lift_spec(l);
    let fs = crate::lifting::format_sets_spec(l.sets);
    crate::lifting::lemma_sets_text_chars(l.sets);
    let n = l.name.len() as int;
    if l.weight == crate::weight_scheme::WeightScheme::NoWeight {
        assert forall|j: int| 0 <= j < s.len() implies s[j] != '|' by {
            if j < n {
                assert(s[j] == l.name[j]);
                if s[j] == '|' {
                    assert(contains_char(l.name, '|'));
                }
            } else if j < n + 4 {
                assert(s[j] == crate::lifting::arrow_sep()[j - n]);
            } else {
                assert(s[j] == fs[j - n - 4]);
                assert(crate::lifting::is_sets_text_char(fs[j - n - 4]));
            }
        }
        assert(s.last() == fs.last());
    } else {
        let fw = crate::weight_scheme::format_weight_scheme_spec(l.weight);
        crate::weight_scheme::lemma_weight_text_chars(l.weight);
        let m = fs.len() as int;
        assert forall|j: int| 0 <= j < s.len() implies s[j] != '|' by {
            if j < n {
                assert(s[j] == l.name[j]);
                if s[j] == '|' {
                    assert(contains_char(l.name, '|'));
                }
            } else if j < n + 4 {
                assert(s[j] == crate::lifting::arrow_sep()[j - n]);
            } else if j < n + 4 + m {
                assert(s[j] == fs[j - n - 4]);
                assert(crate::lifting::is_sets_text_char(fs[j - n - 4]));
            } else if j < n + 4 + m + 3 {
                assert(s[j] == crate::lifting::at_sep()[j - n - 4 - m]);
            } else {
                assert(s[j] == fw[j - n - 4 - m - 3]);
                assert(crate::weight_scheme::is_weight_text_char(fw[j - n - 4 - m - 3]));
            }
        }
        assert(s.last() == fw.last());
        assert(crate::weight_scheme::is_weight_text_char(fw.last()));
    }
}

/// Round trip for a ` | `-joined list of safe lifts.
#[verifier::rlimit(80)]
proof fn lemma_lift_list_round_trip(ls: Seq<LiftView>)
    requires
        forall|i: int| 0 <= i < ls.len() ==> lift_notation_safe(#[trigger] ls[i]),
    ensures
        parse_lift_list_spec(format_lift_list(ls)) == Some(ls),
    decreases ls.len(),
{
    let s = format_lift_list(ls);
    if ls.len() == 0 {
        assert(!contains_seq(s, bar_sep())) by {
            if contains_seq(s, bar_sep()) {
                let q = choose|q: int| is_match_at(s, bar_sep(), q);
            }
        }
        assert(trim_spec(s).len() == 0) by {
            crate::text::lemma_trim_of_trimmed(s);
        }
    } else {
        let f0 = format_lift_spec(ls[0]);
        lemma_lift_text_no_bar(ls[0]);
        lemma_lift_round_trip(ls[0]);
        if ls.len() == 1 {
            assert(s == f0);
            assert(!contains_seq(s, bar_sep())) by {
                if contains_seq(s, bar_sep()) {
                    let q = choose|q: int| is_match_at(s, bar_sep(), q);
                    assert(s.subrange(q, q + 3)[1] == s[q + 1]);
                    assert(s[q + 1] == '|');
                }
            }
            assert(trim_spec(s).len() != 0) by {
                if trim_spec(s).len() == 0 {
                    lemma_trim_empty(s);
                    assert(is_space_char_l(s.last()));
                }
            }
            assert(seq![ls[0]] =~= ls);
        } else {
            lemma_lift_list_round_trip(ls.drop_first());
            let rest = format_lift_list(ls.drop_first());
            assert(s =~= f0 + bar_sep() + rest);
            let m = f0.len() as int;
            assert(is_match_at(s, bar_sep(), m)) by {
                assert(s.subrange(m, m + 3) =~= bar_sep());
            }
            assert forall|j: int| 0 <= j < m implies !is_match_at(s, bar_sep(), j) by {
                if is_match_at(s, bar_sep(), j) {
                    assert(s.subrange(j, j + 3)[1] == s[j + 1]);
                    assert(s[j + 1] == '|');
                    if j + 1 < m {
                        assert(s[j + 1] == f0[j + 1]);
                    } else {
                        assert(s[j + 1] == bar_sep()[j + 1 - m]);
                    }
                }
            }
            lemma_first_match_unique(s, bar_sep(), m);
            assert(s.subrange(0, m) =~= f0);
            assert(s.subrange(m + 3, s.len() as int) =~= rest);
            assert(trim_spec(f0).len() != 0) by {
                if trim_spec(f0).len() == 0 {
                    lemma_trim_empty(f0);
                    assert(is_space_char_l(f0.last()));
                }
            }
            assert(seq![ls[0]] + ls.drop_first() =~= ls);
        }
    }
}

/// Round trip: parsing the canonical text of a day gives the day back,
/// provided its name is a trimmed token free of the column and every lift is
/// notation safe.
pub proof fn lemma_day_round_trip(d: DayView)
    requires
        d.name.len() > 0 ==> !is_space_char_l(d.name[0]),
        d.name.len() > 0 ==> !is_space_char_l(d.name.last()),
        !contains_char(d.name, '|'),
        forall|i: int| 0 <= i < d.lifts.len() ==> lift_notation_safe(#[trigger] d.lifts[i]),
    ensures
        parse_day_spec(format_day_spec(d)) == Some(d),
{
    let s = format_day_spec(d);
    let fl = format_lift_list(d.lifts);
    lemma_lift_list_round_trip(d.lifts);
    let n = d.name.len() as int;
    assert(is_match_at(s, bar_sep(), n)) by {
        assert(s.subrange(n, n + 3) =~= bar_sep());
    }
    assert forall|j: int| 0 <= j < n implies !is_match_at(s, bar_sep(), j) by {
        if is_match_at(s, bar_sep(), j) {
            assert(s.subrange(j, j + 3)[1] == s[j + 1]);
            assert(s[j + 1] == '|');
            if j + 1 < n {
                assert(s[j + 1] == d.name[j + 1]);
                assert(contains_char(d.name, '|'));
            } else {
                assert(s[j + 1] == bar_sep()[j + 1 - n]);
            }
        }
    }
    lemma_first_match_unique(s, bar_sep(), n);
    assert(s.subrange(0, n) =~= d.name);
    lemma_trim_of_trimmed(d.name);
    assert(s.subrange(n + 3, s.len() as int) =~= fl);
    assert(parse_day_spec(s) == Some(DayView { name: d.name, lifts: d.lifts }));
}

/// The conditions under which a whole day's notation survives a round trip:
/// a trimmed name free of the column, and every lift notation safe.
pub open spec fn day_notation_safe(d: DayView) -> bool {
    &&& (d.name.len() > 0 ==> !is_space_char_l(d.name[0]))
    &&& (d.name.len() > 0 ==> !is_space_char_l(d.name.last()))
    &&& !contains_char(d.name, '|')
    &&& forall|i: int| 0 <= i < d.lifts.len() ==> lift_notation_safe(#[trigger] d.lifts[i])
}

} // verus!
