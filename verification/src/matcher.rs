//! Token-level matching: a query is compared against a whole candidate
//! name, or, when the name contains whitespace, against each
//! whitespace-delimited token, taking the minimum distance.

use vstd::prelude::*;

use crate::distance::calc_dist_bytes;
use crate::distance::edit_distance;

verus! {

/// ASCII whitespace bytes: space, tab, line feed, vertical tab, form
/// feed, carriage return.
pub open spec fn is_space(b: u8) -> bool {
    b == 32 || (9 <= b && b <= 13)
}

/// Whether the sequence holds at least one whitespace byte.
pub open spec fn has_space(s: Seq<u8>) -> bool {
    exists|i: int| 0 <= i < s.len() && is_space(s[i])
}

/// Index just past the token starting at `i`: the first position at or
/// after `i` holding a whitespace byte, or the length of `s`.
pub open spec fn token_end(s: Seq<u8>, i: int) -> int
    decreases s.len() - i,
{
    if i < 0 || i >= s.len() {
        s.len() as int
    } else if is_space(s[i]) {
        i
    } else {
        token_end(s, i + 1)
    }
}

pub proof fn lemma_token_end(s: Seq<u8>, i: int)
    requires
        0 <= i <= s.len(),
    ensures
        i <= token_end(s, i) <= s.len(),
        forall|k: int| i <= k < token_end(s, i) ==> !is_space(s[k]),
        token_end(s, i) == s.len() || is_space(s[token_end(s, i)]),
    decreases s.len() - i,
{
    if i < s.len() && !is_space(s[i]) {
        lemma_token_end(s, i + 1);
    }
}

/// The maximal whitespace-delimited tokens of `s` at or after position
/// `i`, in order; repeated separators produce no empty tokens.
pub open spec fn tokens_from(s: Seq<u8>, i: int) -> Seq<Seq<u8>>
    decreases s.len() - i,
{
    if i < 0 || i >= s.len() {
        Seq::empty()
    } else if is_space(s[i]) {
        tokens_from(s, i + 1)
    } else {
        proof {
            lemma_token_end(s, i + 1);
        }
        seq![s.subrange(i, token_end(s, i))] + tokens_from(s, token_end(s, i))
    }
}

/// All whitespace-delimited tokens of `s`.
pub open spec fn tokens(s: Seq<u8>) -> Seq<Seq<u8>> {
    tokens_from(s, 0)
}

/// Minimum of two integers.
pub open spec fn min2(x: int, y: int) -> int {
    if x <= y {
        x
    } else {
        y
    }
}

/// Minimum edit distance between `q` and any token in `toks`; an empty
/// token list has no defined minimum and yields the effectively
/// infinite `usize::MAX`, so such a candidate is never selected.
pub open spec fn min_dist_over(q: Seq<u8>, toks: Seq<Seq<u8>>) -> int
    decreases toks.len(),
{
    if toks.len() == 0 {
        usize::MAX as int
    } else {
        min2(edit_distance(q, toks[0]) as int, min_dist_over(q, toks.drop_first()))
    }
}

/// The minimum over a token list never exceeds the effectively
/// infinite value it starts from.
pub proof fn lemma_min_dist_over_le_max(q: Seq<u8>, toks: Seq<Seq<u8>>)
    ensures
        0 <= min_dist_over(q, toks) <= usize::MAX as int,
    decreases toks.len(),
{
    if toks.len() > 0 {
        lemma_min_dist_over_le_max(q, toks.drop_first());
    }
}

/// A candidate without whitespace is its own single token, so the
/// whole-string comparison and the token minimum agree on it.
pub proof fn lemma_no_space_single_token(name: Seq<u8>)
    requires
        name.len() > 0,
        !has_space(name),
    ensures
        tokens(name) == seq![name],
{
    assert(!is_space(name[0]));
    lemma_token_end(name, 0);
    assert(token_end(name, 0) == name.len());
    assert(name.subrange(0, name.len() as int) =~= name);
    assert(tokens_from(name, name.len() as int) =~= Seq::<Seq<u8>>::empty());
    assert(tokens(name) =~= seq![name]);
}

/// The matching policy: a candidate without whitespace is compared
/// whole; one with whitespace is compared token by token, keeping the
/// minimum distance.
pub open spec fn spec_fuzzy_match(q: Seq<u8>, name: Seq<u8>) -> int {
    if !has_space(name) {
        edit_distance(q, name) as int
    } else {
        min_dist_over(q, tokens(name))
    }
}

/// Whether `b` is an ASCII whitespace byte.
pub fn is_space_byte(b: u8) -> (r: bool)
    ensures
        r == is_space(b),
{
    b == 32 || (9 <= b && b <= 13)
}

/// Whether the line holds nothing but whitespace; such lines are not
/// corpus entries.
pub fn is_blank_line(line: &[u8]) -> (r: bool)
    ensures
        r == forall|i: int| 0 <= i < line@.len() ==> is_space(line@[i]),
{
    let n = line.len();
    let mut i: usize = 0;
    while i < n
        invariant
            n == line@.len(),
            i <= n,
            forall|k: int| 0 <= k < i ==> is_space(line@[k]),
        decreases n - i,
    {
        if !is_space_byte(line[i]) {
            return false;
        }
        i += 1;
    }
    true
}

/// Best-achievable edit distance between the query and any logical
/// unit of the candidate name, per `spec_fuzzy_match`.
pub fn fuzzy_match(query_bytes: &[u8], full_name: &[u8]) -> (r: usize)
    requires
        query_bytes@.len() < usize::MAX,
        full_name@.len() < usize::MAX,
    ensures
        r == spec_fuzzy_match(query_bytes@, full_name@),
{
    let n = full_name.len();

    let mut has_ws = false;
    let mut i: usize = 0;
    while i < n
        invariant
            n == full_name@.len(),
            i <= n,
            !has_ws ==> forall|k: int| 0 <= k < i ==> !is_space(full_name@[k]),
            has_ws ==> has_space(full_name@),
        decreases n - i,
    {
        if is_space_byte(full_name[i]) {
            has_ws = true;
        }
        i += 1;
    }

    if !has_ws {
        assert(!has_space(full_name@));
        return calc_dist_bytes(query_bytes, full_name);
    }

    let ghost q = query_bytes@;
    let ghost s = full_name@;

    proof {
        lemma_min_dist_over_le_max(q, tokens(s));
    }
    let mut best: usize = usize::MAX;
    let mut pos: usize = 0;
    while pos < n
        invariant
            n == full_name@.len(),
            n < usize::MAX,
            query_bytes@.len() < usize::MAX,
            q == query_bytes@,
            s == full_name@,
            pos <= n,
            min2(best as int, min_dist_over(q, tokens_from(s, pos as int))) == min_dist_over(
                q,
                tokens(s),
            ),
        decreases n - pos,
    {
        if is_space_byte(full_name[pos]) {
            pos += 1;
        } else {
            let mut end: usize = pos;
            while end < n && !is_space_byte(full_name[end])
                invariant
                    n == full_name@.len(),
                    s == full_name@,
                    pos <= end <= n,
                    token_end(s, pos as int) == token_end(s, end as int),
                decreases n - end,
            {
                end += 1;
            }
            assert(token_end(s, end as int) == end);
            let tok = vstd::slice::slice_subrange(full_name, pos, end);
            let d = calc_dist_bytes(query_bytes, tok);
            proof {
                let toks = tokens_from(s, pos as int);
                assert(toks == seq![s.subrange(pos as int, end as int)] + tokens_from(
                    s,
                    end as int,
                ));
                assert(toks[0] == s.subrange(pos as int, end as int));
                assert(toks.drop_first() =~= tokens_from(s, end as int));
            }
            if d < best {
                best = d;
            }
            assert(pos < end);
            pos = end;
        }
    }
    assert(tokens_from(s, n as int) =~= Seq::<Seq<u8>>::empty());
    best
}

} // verus!
