use vstd::prelude::*;
use crate::bytewords::{pieces, piece_spans, span_texts, spans_within};

verus! {

/// Most groups in a split, and most shares in a group: the header has four bits for each.
pub const MAX_GROUP_SIZE: usize = 16;

/// Why a group specification was refused.
#[derive(Debug)]
pub enum SpecError {
    /// The text is not a comma-separated list of `<M>of<N>` terms.
    Malformed,
    /// Group (numbered from 1) needs more shares than it has.
    ThresholdAboveCount(usize),
    /// Group (numbered from 1) would be recoverable from one share of several.
    OneOfMany(usize),
    /// Group (numbered from 1) has a threshold of zero or more than sixteen shares.
    GroupSizeOutOfRange(usize),
    /// More than sixteen groups.
    TooManyGroups,
}

/// A decimal digit.
pub open spec fn is_digit(c: char) -> bool {
    '0' <= c && c <= '9'
}

/// A non-empty run of decimal digits.
pub open spec fn is_number(s: Seq<char>) -> bool {
    s.len() > 0 && forall|k: int| 0 <= k < s.len() ==> is_digit(#[trigger] s[k])
}

/// The value of a run of decimal digits.
pub open spec fn decimal(s: Seq<char>) -> nat
    decreases s.len(),
{
    if s.len() == 0 {
        0
    } else {
        decimal(s.drop_last()) * 10 + (s.last() as nat - '0' as nat) as nat
    }
}

/// `p` reads `<M>of<N>` with the word `of` at position `k`, both numbers fitting a `usize`.
pub open spec fn group_at(p: Seq<char>, k: int) -> bool {
    &&& 0 < k && k + 2 < p.len()
    &&& is_number(p.take(k))
    &&& p[k] == 'o' && p[k + 1] == 'f'
    &&& is_number(p.skip(k + 2))
    &&& decimal(p.take(k)) <= usize::MAX
    &&& decimal(p.skip(k + 2)) <= usize::MAX
}

/// `p` is one well-formed term.
pub open spec fn is_group(p: Seq<char>) -> bool {
    exists|k: int| group_at(p, k)
}

/// The (member threshold, member count) of a well-formed term.
pub open spec fn group_of(p: Seq<char>) -> (usize, usize) {
    let k = choose|k: int| group_at(p, k);
    (decimal(p.take(k)) as usize, decimal(p.skip(k + 2)) as usize)
}

/// What is wrong with a group of `m` of `n`: 0 for nothing, 1 for a threshold
/// above the count, 2 for one of several, 3 for a size out of range.
pub open spec fn group_problem(g: (usize, usize)) -> int {
    if g.0 > g.1 {
        1
    } else if g.0 == 1 && g.1 > 1 {
        2
    } else if g.0 == 0 || g.1 > MAX_GROUP_SIZE {
        3
    } else {
        0
    }
}

/// The terms of a group specification.
pub open spec fn spec_terms(s: Seq<char>) -> Seq<Seq<char>> {
    pieces(s, ',')
}

/// Every term is well-formed.
pub open spec fn terms_ok(ts: Seq<Seq<char>>) -> bool {
    forall|k: int| 0 <= k < ts.len() ==> is_group(#[trigger] ts[k])
}

/// The groups that the terms describe.
pub open spec fn spec_groups(ts: Seq<Seq<char>>) -> Seq<(usize, usize)> {
    ts.map_values(|p: Seq<char>| group_of(p))
}

/// No group has a problem.
pub open spec fn groups_ok(gs: Seq<(usize, usize)>) -> bool {
    forall|k: int| 0 <= k < gs.len() ==> group_problem(#[trigger] gs[k]) == 0
}

/// The first group with a problem is number `j` (from 1), and its problem is `kind`.
pub open spec fn first_problem(gs: Seq<(usize, usize)>, j: usize, kind: int) -> bool {
    1 <= j <= gs.len() && group_problem(gs[j - 1]) == kind && groups_ok(gs.take(j - 1))
}

/// `e` is the error that `parse_group_spec` gives for the text `s`.
pub open spec fn spec_error_for(e: SpecError, s: Seq<char>) -> bool {
    let ts = spec_terms(s);
    match e {
        SpecError::Malformed => !terms_ok(ts),
        SpecError::ThresholdAboveCount(j) => terms_ok(ts) && first_problem(spec_groups(ts), j, 1),
        SpecError::OneOfMany(j) => terms_ok(ts) && first_problem(spec_groups(ts), j, 2),
        SpecError::GroupSizeOutOfRange(j) => terms_ok(ts) && first_problem(spec_groups(ts), j, 3),
        SpecError::TooManyGroups => terms_ok(ts) && groups_ok(spec_groups(ts)) && ts.len()
            > MAX_GROUP_SIZE,
    }
}

/// Reads the number in characters `a..b` of `s`, if it is a run of digits that fits.
fn parse_number(s: &str, a: usize, b: usize) -> (r: Option<usize>)
    requires
        a <= b <= s@.len(),
    ensures
        r matches Some(v) <==> is_number(s@.subrange(a as int, b as int)) && decimal(
            s@.subrange(a as int, b as int),
        ) <= usize::MAX,
        r matches Some(v) ==> v == decimal(s@.subrange(a as int, b as int)),
{
    if a == b {
        return None;
    }
    let ghost t = s@.subrange(a as int, b as int);
    let mut v: usize = 0;
    let mut i: usize = a;
    while i < b
        invariant
            a <= i <= b <= s@.len(),
            t == s@.subrange(a as int, b as int),
            forall|k: int| a <= k < i ==> is_digit(#[trigger] s@[k]),
            v == decimal(s@.subrange(a as int, i as int)),
        decreases b - i,
    {
        let c = s.get_char(i);
        if !('0' <= c && c <= '9') {
            assert(!is_number(t)) by {
                assert(t[i - a] == c);
            }
            return None;
        }
        let d = (c as u32 - '0' as u32) as usize;
        let ghost next = s@.subrange(a as int, i + 1);
        assert(next.drop_last() =~= s@.subrange(a as int, i as int));
        assert(decimal(next) == v * 10 + d);
        if v > (usize::MAX - d) / 10 {
            assert(v * 10 + d > usize::MAX) by (nonlinear_arith)
                requires
                    v > (usize::MAX - d) / 10,
                    d <= 9,
            ;
            assert(decimal(t) >= decimal(next)) by {
                lemma_decimal_grows(t, (i + 1 - a) as int);
                assert(t.take(i + 1 - a) =~= next);
            }
            return None;
        }
        assert(v * 10 + d <= usize::MAX) by (nonlinear_arith)
            requires
                v <= (usize::MAX - d) / 10,
                d <= 9,
        ;
        v = v * 10 + d;
        i += 1;
    }
    assert(forall|k: int| 0 <= k < t.len() ==> #[trigger] t[k] == s@[a + k]);
    Some(v)
}

proof fn lemma_decimal_grows(t: Seq<char>, n: int)
    requires
        0 <= n <= t.len(),
    ensures
        decimal(t) >= decimal(t.take(n)),
    decreases t.len() - n,
{
    if n < t.len() {
        lemma_decimal_grows(t, n + 1);
        assert(t.take(n + 1).drop_last() =~= t.take(n));
    } else {
        assert(t.take(n) =~= t);
    }
}

/// Reads the term in characters `a..b` of `s` as (member threshold, member count).
fn parse_group(s: &str, a: usize, b: usize) -> (r: Option<(usize, usize)>)
    requires
        a <= b <= s@.len(),
    ensures
        r is Some <==> is_group(s@.subrange(a as int, b as int)),
        r matches Some(g) ==> g == group_of(s@.subrange(a as int, b as int)),
{
    let ghost p = s@.subrange(a as int, b as int);
    let mut k: usize = a;
    while k < b && '0' <= s.get_char(k) && s.get_char(k) <= '9'
        invariant
            a <= k <= b <= s@.len(),
            p == s@.subrange(a as int, b as int),
            forall|j: int| a <= j < k ==> is_digit(#[trigger] s@[j]),
        decreases b - k,
    {
        k += 1;
    }
    let ghost at = k - a;
    assert(forall|j: int| 0 <= j < at ==> is_digit(#[trigger] p[j]) && p[j] == s@[a + j]);
    assert(k < b ==> p[at] == s@[k as int] && !is_digit(p[at]));
    assert forall|j: int| group_at(p, j) implies j == at by {
        if j < at {
            assert(p.take(j).len() == j);
            assert(p[j] == 'o');
        } else if j > at {
            assert(is_digit(p.take(j)[at]));
        }
    }
    if b - k <= 2 || s.get_char(k) != 'o' || s.get_char(k + 1) != 'f' {
        return None;
    }
    assert(p.take(at) =~= s@.subrange(a as int, k as int));
    assert(p.skip(at + 2) =~= s@.subrange(k + 2, b as int));
    let m = parse_number(s, a, k);
    let n = parse_number(s, k + 2, b);
    match (m, n) {
        (Some(m), Some(n)) => {
            assert(group_at(p, at));
            Some((m, n))
        },
        _ => None,
    }
}

/// Reads a group specification such as `2of3,3of5`: the member threshold and
/// member count of each group, in order.
pub fn parse_group_spec(spec: &str) -> (r: Result<Vec<(usize, usize)>, SpecError>)
    ensures
        (r matches Err(SpecError::Malformed)) <==> !terms_ok(spec_terms(spec@)),
        r matches Err(SpecError::ThresholdAboveCount(j)) ==> first_problem(
            spec_groups(spec_terms(spec@)),
            j,
            1,
        ),
        r matches Err(SpecError::OneOfMany(j)) ==> first_problem(
            spec_groups(spec_terms(spec@)),
            j,
            2,
        ),
        r matches Err(SpecError::GroupSizeOutOfRange(j)) ==> first_problem(
            spec_groups(spec_terms(spec@)),
            j,
            3,
        ),
        (r matches Err(SpecError::ThresholdAboveCount(_))) || (r matches Err(
            SpecError::OneOfMany(_),
        )) || (r matches Err(SpecError::GroupSizeOutOfRange(_))) <==> terms_ok(
            spec_terms(spec@),
        ) && !groups_ok(spec_groups(spec_terms(spec@))),
        (r matches Err(SpecError::TooManyGroups)) <==> terms_ok(spec_terms(spec@)) && groups_ok(
            spec_groups(spec_terms(spec@)),
        ) && spec_terms(spec@).len() > MAX_GROUP_SIZE,
        (r matches Ok(_)) <==> terms_ok(spec_terms(spec@)) && groups_ok(
            spec_groups(spec_terms(spec@)),
        ) && spec_terms(spec@).len() <= MAX_GROUP_SIZE,
        r matches Ok(v) ==> v@ == spec_groups(spec_terms(spec@)),
        r matches Err(e) ==> spec_error_for(e, spec@),
{
    let spans = piece_spans(spec, ',');
    let ghost ts = spec_terms(spec@);
    let mut groups: Vec<(usize, usize)> = Vec::new();
    let mut k: usize = 0;
    while k < spans.len()
        invariant
            k <= spans@.len(),
            spans_within(spans@, spec@.len() as int),
            span_texts(spans@, spec@) == ts,
            ts == spec_terms(spec@),
            terms_ok(ts.take(k as int)),
            groups@ == spec_groups(ts.take(k as int)),
        decreases spans.len() - k,
    {
        let (a, b) = spans[k];
        assert(spans@[k as int].0 <= spans@[k as int].1 <= spec@.len());
        assert(ts[k as int] == spec@.subrange(a as int, b as int));
        match parse_group(spec, a, b) {
            Some(g) => {
                groups.push(g);
                assert(ts.take(k + 1).drop_last() =~= ts.take(k as int));
                assert(terms_ok(ts.take(k + 1)));
                assert(groups@ =~= spec_groups(ts.take(k + 1)));
            },
            None => {
                assert(!terms_ok(ts));
                return Err(SpecError::Malformed);
            },
        }
        k += 1;
    }
    assert(ts.take(ts.len() as int) =~= ts);
    let ghost gs = groups@;
    k = 0;
    while k < groups.len()
        invariant
            k <= groups@.len(),
            gs == groups@,
            groups_ok(gs.take(k as int)),
            ts == spec_terms(spec@),
            terms_ok(ts),
            gs == spec_groups(ts),
        decreases groups.len() - k,
    {
        let (m, n) = groups[k];
        assert(gs.take(k + 1).drop_last() =~= gs.take(k as int));
        if m > n {
            return Err(SpecError::ThresholdAboveCount(k + 1));
        }
        if m == 1 && n > 1 {
            return Err(SpecError::OneOfMany(k + 1));
        }
        if m == 0 || n > MAX_GROUP_SIZE {
            return Err(SpecError::GroupSizeOutOfRange(k + 1));
        }
        assert(groups_ok(gs.take(k + 1)));
        k += 1;
    }
    assert(gs.take(gs.len() as int) =~= gs);
    if groups.len() > MAX_GROUP_SIZE {
        return Err(SpecError::TooManyGroups);
    }
    Ok(groups)
}

/// The text is a group specification that `parse_group_spec` accepts.
pub open spec fn spec_accepted(s: Seq<char>) -> bool {
    terms_ok(spec_terms(s)) && groups_ok(spec_groups(spec_terms(s))) && spec_terms(s).len()
        <= MAX_GROUP_SIZE
}

} // verus!
