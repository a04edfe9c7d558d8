use vstd::prelude::*;

verus! {

// Utilities for working with notation text as character vectors.
// All notation grammars in this crate are parsed and printed over
// `Vec<char>`, whose view is the same `Seq<char>` as the view of the
// `String`s at the public boundary.

/// The whitespace characters that `trim` removes from the ends of a token.
pub open spec fn is_space_char(c: char) -> bool {
    c == ' ' || c == '\t' || c == '\n' || c == '\r'
}

pub open spec fn trim_start_spec(s: Seq<char>) -> Seq<char>
    decreases s.len(),
{
    if s.len() > 0 && is_space_char(s[0]) {
        trim_start_spec(s.drop_first())
    } else {
        s
    }
}

pub open spec fn trim_end_spec(s: Seq<char>) -> Seq<char>
    decreases s.len(),
{
    if s.len() > 0 && is_space_char(s.last()) {
        trim_end_spec(s.drop_last())
    } else {
        s
    }
}

/// The token with leading and trailing whitespace removed.
pub open spec fn trim_spec(s: Seq<char>) -> Seq<char> {
    trim_end_spec(trim_start_spec(s))
}

proof fn lemma_trim_start_skip(s: Seq<char>, i: int)
    requires
        0 <= i <= s.len(),
        forall|j: int| 0 <= j < i ==> is_space_char(s[j]),
        i < s.len() ==> !is_space_char(s[i]),
    ensures
        trim_start_spec(s) == s.skip(i),
    decreases i,
{
    if i == 0 {
        assert(s.skip(0) == s);
    } else {
        assert(is_space_char(s[0]));
        lemma_trim_start_skip(s.drop_first(), i - 1);
        assert(s.drop_first().skip(i - 1) == s.skip(i));
    }
}

proof fn lemma_trim_end_take(s: Seq<char>, i: int)
    requires
        0 <= i <= s.len(),
        forall|j: int| i <= j < s.len() ==> is_space_char(s[j]),
        i > 0 ==> !is_space_char(s[i - 1]),
    ensures
        trim_end_spec(s) == s.take(i),
    decreases s.len() - i,
{
    if i == s.len() {
        assert(s.take(i) == s);
    } else {
        assert(is_space_char(s.last()));
        lemma_trim_end_take(s.drop_last(), i);
        assert(s.drop_last().take(i) == s.take(i));
    }
}

/// A trimmed token is unchanged by trimming.
pub proof fn lemma_trim_of_trimmed(s: Seq<char>)
    requires
        s.len() > 0 ==> !is_space_char(s[0]),
        s.len() > 0 ==> !is_space_char(s.last()),
    ensures
        trim_spec(s) == s,
{
    lemma_trim_start_skip(s, 0);
    assert(s.skip(0) == s);
    lemma_trim_end_take(s, s.len() as int);
    assert(s.take(s.len() as int) == s);
}

/// Copy the subrange `[from, to)` of a character vector.
pub fn char_sub(s: &Vec<char>, from: usize, to: usize) -> (r: Vec<char>)
    requires
        from <= to <= s.len(),
    ensures
        r@ == s@.subrange(from as int, to as int),
{
    let mut r: Vec<char> = Vec::new();
    let mut i: usize = from;
    while i < to
        invariant
            from <= i <= to <= s.len(),
            r@ == s@.subrange(from as int, i as int),
        decreases to - i,
    {
        r.push(s[i]);
        proof {
            assert(s@.subrange(from as int, i + 1 as int) == s@.subrange(
                from as int,
                i as int,
            ).push(s@[i as int]));
        }
        i = i + 1;
    }
    r
}

/// Remove leading and trailing whitespace.
pub fn trim_chars(s: &Vec<char>) -> (r: Vec<char>)
    ensures
        r@ == trim_spec(s@),
{
    let n = s.len();
    let mut a: usize = 0;
    while a < n && is_space(s[a])
        invariant
            0 <= a <= n == s.len(),
            forall|j: int| 0 <= j < a ==> is_space_char(s@[j]),
        decreases n - a,
    {
        a = a + 1;
    }
    proof {
        lemma_trim_start_skip(s@, a as int);
    }
    let mut b: usize = n;
    while b > a && is_space(s[b - 1])
        invariant
            a <= b <= n == s.len(),
            forall|j: int| b <= j < n ==> is_space_char(s@[j]),
        decreases b,
    {
        b = b - 1;
    }
    if b == a {
        // the whole token is whitespace
        proof {
            lemma_trim_end_take(s@.skip(a as int), 0);
        }
        let r: Vec<char> = Vec::new();
        proof {
            assert(r@ == s@.skip(a as int).take(0));
        }
        r
    } else {
        proof {
            lemma_trim_end_take(s@.skip(a as int), b - a);
            assert(s@.skip(a as int).take(b - a) == s@.subrange(a as int, b as int));
        }
        char_sub(s, a, b)
    }
}

/// Whitespace test on one character.
pub fn is_space(c: char) -> (r: bool)
    ensures
        r == is_space_char(c),
{
    c == ' ' || c == '\t' || c == '\n' || c == '\r'
}

/// Does the text contain the character anywhere?
pub open spec fn contains_char(s: Seq<char>, c: char) -> bool {
    exists|i: int| 0 <= i < s.len() && s[i] == c
}

/// Index of the first occurrence of `c` in `s` (the length of `s` if absent).
pub open spec fn first_index_of(s: Seq<char>, c: char) -> int
    decreases s.len(),
{
    if s.len() == 0 {
        0
    } else if s[0] == c {
        0
    } else {
        1 + first_index_of(s.drop_first(), c)
    }
}

pub proof fn lemma_first_index_of(s: Seq<char>, c: char)
    ensures
        contains_char(s, c) ==> {
            let i = first_index_of(s, c);
            &&& 0 <= i < s.len()
            &&& s[i] == c
            &&& forall|j: int| 0 <= j < i ==> s[j] != c
        },
        !contains_char(s, c) ==> first_index_of(s, c) == s.len(),
    decreases s.len(),
{
    if s.len() == 0 {
    } else if s[0] == c {
    } else {
        lemma_first_index_of(s.drop_first(), c);
        assert(forall|i: int| 1 <= i < s.len() ==> s[i] == s.drop_first()[i - 1]);
        if contains_char(s, c) {
            let w = choose|i: int| 0 <= i < s.len() && s[i] == c;
            assert(s.drop_first()[w - 1] == c);
            assert(contains_char(s.drop_first(), c));
        } else {
            if contains_char(s.drop_first(), c) {
                let w = choose|i: int| 0 <= i < s.drop_first().len() && s.drop_first()[i] == c;
                assert(s[w + 1] == c);
            }
        }
    }
}

/// The first occurrence is wherever a known occurrence has nothing equal before it.
pub proof fn lemma_first_index_unique(s: Seq<char>, c: char, k: int)
    requires
        0 <= k < s.len(),
        s[k] == c,
        forall|j: int| 0 <= j < k ==> s[j] != c,
    ensures
        first_index_of(s, c) == k,
        contains_char(s, c),
{
    assert(contains_char(s, c));
    lemma_first_index_of(s, c);
    let i = first_index_of(s, c);
    if i < k {
        assert(s[i] != c);
    }
    if i > k {
        assert(s[k] != c);
    }
}

/// Does `pat` occur in `s` starting at index `i`?
pub open spec fn is_match_at(s: Seq<char>, pat: Seq<char>, i: int) -> bool {
    &&& 0 <= i
    &&& i + pat.len() <= s.len()
    &&& s.subrange(i, i + pat.len()) == pat
}

pub open spec fn contains_seq(s: Seq<char>, pat: Seq<char>) -> bool {
    exists|i: int| is_match_at(s, pat, i)
}

/// Find the first occurrence of the pattern at or after `from`.
pub fn find_seq(s: &Vec<char>, from: usize, pat: &Vec<char>) -> (r: Option<usize>)
    requires
        from <= s.len(),
        pat.len() >= 1,
    ensures
        match r {
            Some(i) => {
                &&& from <= i
                &&& is_match_at(s@, pat@, i as int)
                &&& forall|j: int| from <= j < i ==> !is_match_at(s@, pat@, j)
            },
            None => forall|j: int| from <= j ==> !is_match_at(s@, pat@, j),
        },
{
    if s.len() < pat.len() || from > s.len() - pat.len() {
        return None;
    }
    let m = s.len() - pat.len();
    let mut i: usize = from;
    while i <= m
        invariant
            from <= i,
            i <= m + 1,
            m + pat.len() == s.len(),
            pat.len() >= 1,
            forall|j: int| from <= j < i ==> !is_match_at(s@, pat@, j),
        decreases m + 1 - i,
    {
        let mut k: usize = 0;
        let mut ok: bool = true;
        while k < pat.len()
            invariant
                0 <= k <= pat.len(),
                i + pat.len() <= s.len(),
                ok ==> (forall|j: int| 0 <= j < k ==> s@[i + j] == #[trigger] pat@[j]),
                !ok ==> k == pat.len() && !is_match_at(s@, pat@, i as int),
            decreases pat.len() - k,
        {
            if s[i + k] != pat[k] {
                proof {
                    if is_match_at(s@, pat@, i as int) {
                        assert(s@.subrange(i as int, i + pat@.len())[k as int] == s@[i + k as int]);
                    }
                }
                ok = false;
                k = pat.len();
            } else {
                proof {
                    assert forall|j: int| 0 <= j < k + 1 implies s@[i + j] == #[trigger] pat@[j] by {
                        if j == k {
                            assert(s@[i + j] == pat@[j]);
                        }
                    }
                }
                k = k + 1;
            }
        }
        if ok {
            proof {
                assert(s@.subrange(i as int, i + pat@.len()) =~= pat@);
            }
            return Some(i);
        }
        proof {
            if is_match_at(s@, pat@, i as int) {
                assert(forall|j: int|
                    0 <= j < pat@.len() ==> #[trigger] s@.subrange(i as int, i + pat@.len())[j]
                        == s@[i + j]);
            }
        }
        i = i + 1;
    }
    proof {
        assert(forall|j: int|
            from <= j && is_match_at(s@, pat@, j) ==> j + pat@.len() <= s@.len() && j < i);
    }
    None
}

/// Index of the first occurrence of the pattern in `s` (at least the length
/// of `s` if absent).
pub open spec fn first_match_of(s: Seq<char>, pat: Seq<char>) -> int
    decreases s.len(),
{
    if is_match_at(s, pat, 0) {
        0
    } else if s.len() == 0 {
        0
    } else {
        1 + first_match_of(s.drop_first(), pat)
    }
}

/// Dropping the first character shifts every match by one.
proof fn lemma_match_shift(s: Seq<char>, pat: Seq<char>, i: int)
    requires
        s.len() > 0,
        i >= 0,
    ensures
        is_match_at(s.drop_first(), pat, i) == is_match_at(s, pat, i + 1),
{
    if i + 1 + pat.len() <= s.len() {
        assert(s.drop_first().subrange(i, i + pat.len() as int) =~= s.subrange(
            i + 1,
            i + 1 + pat.len() as int,
        ));
    }
}

pub proof fn lemma_first_match_of(s: Seq<char>, pat: Seq<char>)
    requires
        pat.len() >= 1,
    ensures
        contains_seq(s, pat) ==> {
            let i = first_match_of(s, pat);
            &&& is_match_at(s, pat, i)
            &&& forall|j: int| 0 <= j < i ==> !is_match_at(s, pat, j)
        },
    decreases s.len(),
{
    if is_match_at(s, pat, 0) {
    } else if s.len() == 0 {
        if contains_seq(s, pat) {
            let w = choose|w: int| is_match_at(s, pat, w);
        }
    } else {
        lemma_first_match_of(s.drop_first(), pat);
        if contains_seq(s, pat) {
            let w = choose|w: int| is_match_at(s, pat, w);
            assert(w >= 1);
            lemma_match_shift(s, pat, w - 1);
            assert(contains_seq(s.drop_first(), pat));
            let i = first_match_of(s, pat);
            lemma_match_shift(s, pat, i - 1);
            assert forall|j: int| 0 <= j < i implies !is_match_at(s, pat, j) by {
                if j >= 1 {
                    lemma_match_shift(s, pat, j - 1);
                }
            }
        }
    }
}

/// The first match is wherever a known match has no match before it.
pub proof fn lemma_first_match_unique(s: Seq<char>, pat: Seq<char>, k: int)
    requires
        pat.len() >= 1,
        is_match_at(s, pat, k),
        forall|j: int| 0 <= j < k ==> !is_match_at(s, pat, j),
    ensures
        first_match_of(s, pat) == k,
        contains_seq(s, pat),
{
    assert(contains_seq(s, pat));
    lemma_first_match_of(s, pat);
    let i = first_match_of(s, pat);
    if i < k {
        assert(!is_match_at(s, pat, i));
    }
    if i > k {
        assert(!is_match_at(s, pat, k));
    }
}

/// Trimming strips a single leading space from an otherwise trimmed token.
pub proof fn lemma_trim_lead_space(s: Seq<char>)
    requires
        s.len() > 0 ==> !is_space_char(s[0]),
        s.len() > 0 ==> !is_space_char(s.last()),
    ensures
        trim_spec(seq![' '] + s) == s,
{
    let t = seq![' '] + s;
    lemma_trim_start_skip(t, 1);
    assert(t.skip(1) =~= s);
    lemma_trim_of_trimmed(s);
    if s.len() == 0 {
        lemma_trim_end_take(s, 0);
        assert(s.take(0) =~= s);
    }
}

/// Trimming strips a single trailing space from an otherwise trimmed token.
pub proof fn lemma_trim_trail_space(s: Seq<char>)
    requires
        s.len() > 0 ==> !is_space_char(s[0]),
        s.len() > 0 ==> !is_space_char(s.last()),
    ensures
        trim_spec(s + seq![' ']) == s,
{
    let t = s + seq![' '];
    if s.len() == 0 {
        lemma_trim_start_skip(t, 1);
        assert(t.skip(1) =~= Seq::<char>::empty());
        lemma_trim_end_take(t.skip(1), 0);
        assert(t.skip(1).take(0) =~= s);
    } else {
        lemma_trim_start_skip(t, 0);
        assert(t.skip(0) =~= t);
        lemma_trim_end_take(t, s.len() as int);
        assert(t.take(s.len() as int) =~= s);
    }
}

/// Trimming strips one space on each side of an otherwise trimmed token.
pub proof fn lemma_trim_both_spaces(s: Seq<char>)
    requires
        s.len() > 0 ==> !is_space_char(s[0]),
        s.len() > 0 ==> !is_space_char(s.last()),
    ensures
        trim_spec(seq![' '] + s + seq![' ']) == s,
{
    let t = seq![' '] + s + seq![' '];
    if s.len() == 0 {
        lemma_trim_start_skip(t, 2);
        assert(t.skip(2) =~= Seq::<char>::empty());
        lemma_trim_end_take(t.skip(2), 0);
        assert(t.skip(2).take(0) =~= s);
    } else {
        lemma_trim_start_skip(t, 1);
        assert(t.skip(1) =~= s + seq![' ']);
        lemma_trim_end_take(s + seq![' '], s.len() as int);
        assert((s + seq![' ']).take(s.len() as int) =~= s);
    }
}

/// Relies on `String::push` from std: it appends exactly the one character.
#[verifier::external_body]
pub fn push_char(s: &mut String, c: char)
    ensures
        final(s)@ == old(s)@.push(c),
{
    s.push(c);
}

/// Build a `String` whose characters are those of the vector.
pub fn chars_to_string(v: &Vec<char>) -> (r: String)
    ensures
        r@ == v@,
{
    let mut r = String::new();
    let mut i: usize = 0;
    while i < v.len()
        invariant
            0 <= i <= v.len(),
            r@ == v@.take(i as int),
        decreases v.len() - i,
    {
        push_char(&mut r, v[i]);
        proof {
            assert(v@.take(i + 1 as int) == v@.take(i as int).push(v@[i as int]));
        }
        i = i + 1;
    }
    proof {
        assert(v@.take(v@.len() as int) == v@);
    }
    r
}

/// Read a `&str` out into a vector of its characters.
pub fn str_to_chars(s: &str) -> (r: Vec<char>)
    ensures
        r@ == s@,
{
    let n = s.unicode_len();
    let mut r: Vec<char> = Vec::new();
    let mut i: usize = 0;
    while i < n
        invariant
            0 <= i <= n == s@.len(),
            r@ == s@.take(i as int),
        decreases n - i,
    {
        let c = s.get_char(i);
        r.push(c);
        proof {
            assert(s@.take(i + 1 as int) == s@.take(i as int).push(s@[i as int]));
        }
        i = i + 1;
    }
    proof {
        assert(s@.take(s@.len() as int) == s@);
    }
    r
}

/// Append every character of `src` to `dst`.
pub fn append_chars(dst: &mut Vec<char>, src: &Vec<char>)
    ensures
        final(dst)@ == old(dst)@ + src@,
{
    let mut i: usize = 0;
    while i < src.len()
        invariant
            0 <= i <= src.len(),
            dst@ == old(dst)@ + src@.take(i as int),
        decreases src.len() - i,
    {
        dst.push(src[i]);
        proof {
            assert(old(dst)@ + src@.take(i + 1 as int) == (old(dst)@ + src@.take(i as int)).push(
                src@[i as int],
            ));
        }
        i = i + 1;
    }
    proof {
        assert(src@.take(src@.len() as int) == src@);
    }
}

/// Only an all-whitespace token trims to nothing.
pub proof fn lemma_trim_empty(s: Seq<char>)
    requires
        trim_spec(s).len() == 0,
    ensures
        forall|j: int| 0 <= j < s.len() ==> is_space_char(#[trigger] s[j]),
{
    lemma_trim_start_all(s);
    let a = choose|a: int|
        0 <= a <= s.len() && trim_start_spec(s) == s.skip(a) && (forall|j: int|
            0 <= j < a ==> is_space_char(#[trigger] s[j]));
    lemma_trim_end_all(s.skip(a));
    assert forall|j: int| 0 <= j < s.len() implies is_space_char(s[j]) by {
        if j >= a {
            assert(s.skip(a)[j - a] == s[j]);
        }
    }
}

proof fn lemma_trim_start_all(s: Seq<char>)
    ensures
        exists|a: int|
            0 <= a <= s.len() && trim_start_spec(s) == s.skip(a) && (forall|j: int|
                0 <= j < a ==> is_space_char(#[trigger] s[j])),
    decreases s.len(),
{
    if s.len() > 0 && is_space_char(s[0]) {
        lemma_trim_start_all(s.drop_first());
        let a = choose|a: int|
            0 <= a <= s.drop_first().len() && trim_start_spec(s.drop_first())
                == s.drop_first().skip(a) && (forall|j: int|
                0 <= j < a ==> is_space_char(#[trigger] s.drop_first()[j]));
        assert(s.drop_first().skip(a) =~= s.skip(a + 1));
        assert forall|j: int| 0 <= j < a + 1 implies is_space_char(s[j]) by {
            if j >= 1 {
                assert(s.drop_first()[j - 1] == s[j]);
            }
        }
    } else {
        assert(s.skip(0) =~= s);
    }
}

proof fn lemma_trim_end_all(s: Seq<char>)
    requires
        trim_end_spec(s).len() == 0,
    ensures
        forall|j: int| 0 <= j < s.len() ==> is_space_char(#[trigger] s[j]),
    decreases s.len(),
{
    if s.len() > 0 {
        if is_space_char(s.last()) {
            lemma_trim_end_all(s.drop_last());
            assert forall|j: int| 0 <= j < s.len() implies is_space_char(s[j]) by {
                if j < s.len() - 1 {
                    assert(s.drop_last()[j] == s[j]);
                }
            }
        } else {
            assert(trim_end_spec(s) == s);
        }
    }
}

} // verus!
