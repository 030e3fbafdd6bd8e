//! The search engine: scores every candidate of an immutable corpus
//! against a query in parallel, keeps the candidates below the
//! distance threshold in corpus order, stable-sorts them ascending by
//! distance, truncates to the result bound, and attaches a wall-clock
//! measurement.

use vstd::prelude::*;

use crate::matcher::fuzzy_match;
use crate::matcher::spec_fuzzy_match;
use rayon::iter::IntoParallelRefIterator;
use rayon::iter::ParallelIterator;

verus! {

/// A candidate name paired with its distance from the query: the
/// minimum edit distance between the query and any of the candidate's
/// tokens.
pub struct ScoredCandidate {
    pub name: Vec<u8>,
    pub distance: usize,
}

impl View for ScoredCandidate {
    type V = (Seq<u8>, int);

    open spec fn view(&self) -> (Seq<u8>, int) {
        (self.name@, self.distance as int)
    }
}

/// The ranked results of one search, with the elapsed wall-clock time
/// of the whole operation in milliseconds.
pub struct ResultSet {
    pub results: Vec<ScoredCandidate>,
    pub response_time: u64,
}

/// The corpus as a sequence of byte sequences.
pub open spec fn name_views(names: Seq<Vec<u8>>) -> Seq<Seq<u8>> {
    names.map_values(|v: Vec<u8>| v@)
}

/// The scored candidates as (name, distance) pairs.
pub open spec fn scored_views(s: Seq<ScoredCandidate>) -> Seq<(Seq<u8>, int)> {
    s.map_values(|c: ScoredCandidate| c@)
}

/// The candidates whose match distance is strictly below `thr`, each
/// paired with that distance, in corpus order.
pub open spec fn scored_below(q: Seq<u8>, names: Seq<Seq<u8>>, thr: int) -> Seq<(Seq<u8>, int)>
    decreases names.len(),
{
    if names.len() == 0 {
        Seq::empty()
    } else {
        let rest = scored_below(q, names.drop_first(), thr);
        let d = spec_fuzzy_match(q, names[0]);
        if d < thr {
            seq![(names[0], d)] + rest
        } else {
            rest
        }
    }
}

/// An element-wise copy of a byte vector.
fn copy_bytes(src: &Vec<u8>) -> (r: Vec<u8>)
    ensures
        r@ == src@,
{
    let mut out: Vec<u8> = Vec::new();
    let mut i: usize = 0;
    while i < src.len()
        invariant
            i <= src@.len(),
            out@ == src@.take(i as int),
        decreases src@.len() - i,
    {
        out.push(src[i]);
        proof {
            assert(src@.take(i + 1) =~= src@.take(i as int).push(src@[i as int]));
        }
        i += 1;
    }
    assert(src@.take(src@.len() as int) =~= src@);
    out
}

/// Scores one candidate: returns it with its distance when that
/// distance is strictly below the threshold, and nothing otherwise.
pub fn score_candidate(query: &[u8], name: &Vec<u8>, threshold: usize) -> (r: Option<
    ScoredCandidate,
>)
    requires
        query@.len() < usize::MAX,
        name@.len() < usize::MAX,
    ensures
        spec_fuzzy_match(query@, name@) < threshold ==> r is Some && r->Some_0@ == (
            name@,
            spec_fuzzy_match(query@, name@),
        ),
        spec_fuzzy_match(query@, name@) >= threshold ==> r is None,
{
    let distance = fuzzy_match(query, name.as_slice());
    if distance < threshold {
        Some(ScoredCandidate { name: copy_bytes(name), distance })
    } else {
        None
    }
}

/// Inserts `x` into `s` after every entry whose distance is at most
/// `x`'s, and before every later one: the insertion step of a stable
/// insertion sort ascending by distance.
pub open spec fn insert_by_distance(s: Seq<(Seq<u8>, int)>, x: (Seq<u8>, int)) -> Seq<
    (Seq<u8>, int),
>
    decreases s.len(),
{
    if s.len() == 0 {
        seq![x]
    } else if s[0].1 <= x.1 {
        seq![s[0]] + insert_by_distance(s.drop_first(), x)
    } else {
        seq![x] + s
    }
}

/// Stable sort ascending by distance: entries with equal distance
/// keep their relative order.
pub open spec fn stable_sorted(s: Seq<(Seq<u8>, int)>) -> Seq<(Seq<u8>, int)>
    decreases s.len(),
{
    if s.len() == 0 {
        Seq::empty()
    } else {
        insert_by_distance(stable_sorted(s.drop_last()), s.last())
    }
}

/// When every entry before position `p` has distance at most `x`'s
/// and the entry at `p` (if any) has a greater one, inserting by
/// distance is inserting at `p`.
proof fn lemma_insert_at(s: Seq<(Seq<u8>, int)>, x: (Seq<u8>, int), p: int)
    requires
        0 <= p <= s.len(),
        forall|k: int| 0 <= k < p ==> s[k].1 <= x.1,
        p < s.len() ==> s[p].1 > x.1,
    ensures
        insert_by_distance(s, x) == s.take(p) + seq![x] + s.skip(p),
    decreases s.len(),
{
    if p == 0 {
        if s.len() == 0 {
            assert(insert_by_distance(s, x) =~= s.take(0) + seq![x] + s.skip(0));
        } else {
            assert(s.take(0) + seq![x] + s.skip(0) =~= seq![x] + s);
        }
    } else {
        assert(s[0].1 <= x.1);
        let t = s.drop_first();
        assert forall|k: int| 0 <= k < p - 1 implies t[k].1 <= x.1 by {
            assert(t[k] == s[k + 1]);
        }
        assert(p - 1 < t.len() ==> t[p - 1].1 > x.1);
        lemma_insert_at(t, x, p - 1);
        assert(seq![s[0]] + (t.take(p - 1) + seq![x] + t.skip(p - 1)) =~= s.take(p) + seq![x]
            + s.skip(p));
    }
}

/// Stable insertion sort of the scored candidates, ascending by
/// distance; equal distances keep their relative order.
pub fn sort_by_distance(items: Vec<ScoredCandidate>) -> (r: Vec<ScoredCandidate>)
    ensures
        scored_views(r@) == stable_sorted(scored_views(items@)),
{
    let ghost orig = scored_views(items@);
    let mut rest = items;
    let mut out: Vec<ScoredCandidate> = Vec::new();
    let ghost mut done: int = 0;
    while rest.len() > 0
        invariant
            0 <= done <= orig.len(),
            scored_views(rest@) =~= orig.skip(done),
            scored_views(out@) == stable_sorted(orig.take(done)),
        decreases rest@.len(),
    {
        let ghost rest_before = rest@;
        let x = rest.remove(0);
        proof {
            assert(x == rest_before[0]);
            assert(scored_views(rest_before)[0] == rest_before[0]@);
            assert(scored_views(rest_before) == orig.skip(done));
            assert(scored_views(rest_before).len() == rest_before.len());
            assert(done < orig.len());
            assert(orig.skip(done)[0] == orig[done]);
            assert(x@ == orig[done]);
            assert(scored_views(rest@) =~= scored_views(rest_before).drop_first());
            assert(scored_views(rest_before).drop_first() =~= orig.skip(done + 1));
        }
        let mut p: usize = 0;
        while p < out.len() && out[p].distance <= x.distance
            invariant
                p <= out@.len(),
                forall|k: int| 0 <= k < p ==> scored_views(out@)[k].1 <= x@.1,
            decreases out@.len() - p,
        {
            proof {
                assert(scored_views(out@)[p as int] == out@[p as int]@);
            }
            p += 1;
        }
        proof {
            assert(p < out@.len() ==> scored_views(out@)[p as int].1 > x@.1);
            lemma_insert_at(scored_views(out@), x@, p as int);
        }
        let ghost out_before = scored_views(out@);
        out.insert(p, x);
        proof {
            assert(scored_views(out@) =~= out_before.take(p as int) + seq![x@] + out_before.skip(
                p as int,
            ));
            assert(orig.take(done + 1).drop_last() =~= orig.take(done));
            assert(orig.take(done + 1).last() == orig[done]);
            done = done + 1;
        }
    }
    proof {
        assert(orig.skip(done).len() == orig.len() - done);
        assert(done == orig.len());
        assert(orig.take(done) =~= orig);
    }
    out
}

/// Relies on rayon's `par_iter`, `filter_map` and `collect` for
/// `Vec`: the collected vector holds exactly the items the closure
/// kept, in the order of the source vector (rayon's fan-in for `Vec`
/// concatenates the per-split results in split order). The closure
/// only calls the verified `score_candidate`, whose contract pins
/// every kept item.
#[verifier::external_body]
fn par_score(query: &[u8], names: &Vec<Vec<u8>>, threshold: usize) -> (r: Vec<ScoredCandidate>)
    requires
        query@.len() < usize::MAX,
        forall|i: int| 0 <= i < names@.len() ==> names@[i]@.len() < usize::MAX,
    ensures
        scored_views(r@) == scored_below(query@, name_views(names@), threshold as int),
{
    names.par_iter().filter_map(|name| score_candidate(query, name, threshold)).collect()
}

#[verifier::external_type_specification]
#[verifier::external_body]
pub struct ExInstant(std::time::Instant);

/// Relies on std::time::Instant::now: a reading of the monotonic
/// clock. Nothing is promised of the value.
#[verifier::external_body]
fn instant_now() -> std::time::Instant {
    std::time::Instant::now()
}

/// Relies on std::time::Instant::elapsed: the time since `start`.
/// Nothing is promised of the value.
#[verifier::external_body]
fn elapsed_since(start: &std::time::Instant) -> core::time::Duration {
    start.elapsed()
}

/// Relies on core::time::Duration::as_millis, truncated to 64 bits.
/// Nothing is promised of the value.
#[verifier::external_body]
fn duration_millis(d: core::time::Duration) -> u64 {
    d.as_millis() as u64
}

/// The default distance threshold: only candidates strictly closer
/// than this many edits are returned.
pub const DISTANCE_THRESHOLD: usize = 3;

/// The default result bound: at most this many entries are returned.
pub const RESULT_LIMIT: usize = 10;

/// The whole pipeline as a function of its inputs: keep the
/// candidates below the threshold in corpus order, stable-sort them
/// ascending by distance, and truncate to the limit.
pub open spec fn spec_search(q: Seq<u8>, names: Seq<Seq<u8>>, thr: int, limit: int) -> Seq<
    (Seq<u8>, int),
> {
    let ranked = stable_sorted(scored_below(q, names, thr));
    if limit <= ranked.len() {
        ranked.take(limit)
    } else {
        ranked
    }
}

/// Scores every candidate in parallel, keeps those with distance
/// strictly below `threshold` in corpus order, stable-sorts ascending
/// by distance, truncates to `limit` entries, and reports the elapsed
/// wall-clock milliseconds. The results are a pure function of the
/// inputs; only `response_time` depends on the clock.
pub fn search(query: &[u8], names: &Vec<Vec<u8>>, threshold: usize, limit: usize) -> (r: ResultSet)
    requires
        query@.len() < usize::MAX,
        forall|i: int| 0 <= i < names@.len() ==> names@[i]@.len() < usize::MAX,
    ensures
        scored_views(r.results@) == spec_search(
            query@,
            name_views(names@),
            threshold as int,
            limit as int,
        ),
{
    let start = instant_now();
    let scored = par_score(query, names, threshold);
    let mut ranked = sort_by_distance(scored);
    let ghost ranked_view = scored_views(ranked@);
    ranked.truncate(limit);
    proof {
        if limit <= ranked_view.len() {
            assert(scored_views(ranked@) =~= ranked_view.take(limit as int));
        } else {
            assert(scored_views(ranked@) =~= ranked_view);
        }
    }
    let elapsed = elapsed_since(&start);
    let response_time = duration_millis(elapsed);
    ResultSet { results: ranked, response_time }
}

/// Whether the list ascends by distance.
pub open spec fn sorted_by_distance(s: Seq<(Seq<u8>, int)>) -> bool {
    forall|i: int, j: int| 0 <= i <= j < s.len() ==> s[i].1 <= s[j].1
}

/// Inserting into a distance-sorted list keeps it sorted, and adds no
/// entry beyond the inserted one.
proof fn lemma_insert_sorted(s: Seq<(Seq<u8>, int)>, x: (Seq<u8>, int))
    requires
        sorted_by_distance(s),
    ensures
        sorted_by_distance(insert_by_distance(s, x)),
        forall|i: int|
            0 <= i < insert_by_distance(s, x).len() ==> insert_by_distance(s, x)[i] == x
                || s.contains(insert_by_distance(s, x)[i]),
        insert_by_distance(s, x).len() == s.len() + 1,
    decreases s.len(),
{
    let r = insert_by_distance(s, x);
    if s.len() == 0 {
    } else if s[0].1 <= x.1 {
        let t = s.drop_first();
        assert forall|i: int, j: int| 0 <= i <= j < t.len() implies t[i].1 <= t[j].1 by {
            assert(t[i] == s[i + 1]);
            assert(t[j] == s[j + 1]);
        }
        lemma_insert_sorted(t, x);
        let rt = insert_by_distance(t, x);
        assert(r == seq![s[0]] + rt);
        assert forall|i: int| 0 <= i < r.len() implies r[i] == x || s.contains(r[i]) by {
            if i > 0 {
                assert(r[i] == rt[i - 1]);
                if rt[i - 1] != x {
                    let w = choose|w: int| 0 <= w < t.len() && t[w] == rt[i - 1];
                    assert(s[w + 1] == t[w]);
                }
            }
        }
        assert forall|i: int, j: int| 0 <= i <= j < r.len() implies r[i].1 <= r[j].1 by {
            if i == 0 && j > 0 {
                assert(r[j] == rt[j - 1]);
                if rt[j - 1] == x {
                    assert(r[0].1 <= x.1);
                } else {
                    let w = choose|w: int| 0 <= w < t.len() && t[w] == rt[j - 1];
                    assert(s[0].1 <= s[w + 1].1);
                }
            } else if i > 0 {
                assert(r[i] == rt[i - 1]);
                assert(r[j] == rt[j - 1]);
            }
        }
    } else {
        assert(r == seq![x] + s);
        assert forall|i: int, j: int| 0 <= i <= j < r.len() implies r[i].1 <= r[j].1 by {
            if i == 0 && j > 0 {
                assert(r[j] == s[j - 1]);
                assert(s[0].1 <= s[j - 1].1);
            } else if i > 0 {
                assert(r[i] == s[i - 1]);
                assert(r[j] == s[j - 1]);
            }
        }
        assert forall|i: int| 0 <= i < r.len() implies r[i] == x || s.contains(r[i]) by {
            if i > 0 {
                assert(r[i] == s[i - 1]);
            }
        }
    }
}

/// The stable sort ascends by distance, keeps the length, and adds no
/// entry that was not in its input.
pub proof fn lemma_stable_sorted_sorted(s: Seq<(Seq<u8>, int)>)
    ensures
        sorted_by_distance(stable_sorted(s)),
        stable_sorted(s).len() == s.len(),
        forall|i: int| 0 <= i < stable_sorted(s).len() ==> s.contains(stable_sorted(s)[i]),
    decreases s.len(),
{
    if s.len() > 0 {
        let t = s.drop_last();
        lemma_stable_sorted_sorted(t);
        lemma_insert_sorted(stable_sorted(t), s.last());
        let r = stable_sorted(s);
        assert forall|i: int| 0 <= i < r.len() implies s.contains(r[i]) by {
            if r[i] == s.last() {
                assert(s[s.len() - 1] == s.last());
            } else {
                assert(stable_sorted(t).contains(r[i]));
                let w = choose|w: int| 0 <= w < stable_sorted(t).len() && stable_sorted(t)[w]
                    == r[i];
                let v = choose|v: int| 0 <= v < t.len() && t[v] == stable_sorted(t)[w];
                assert(s[v] == t[v]);
            }
        }
    }
}

/// Every entry kept by the threshold filter has distance strictly
/// below the threshold.
pub proof fn lemma_scored_below_entries(q: Seq<u8>, names: Seq<Seq<u8>>, thr: int)
    ensures
        forall|i: int|
            0 <= i < scored_below(q, names, thr).len() ==> scored_below(q, names, thr)[i].1 < thr,
    decreases names.len(),
{
    if names.len() > 0 {
        lemma_scored_below_entries(q, names.drop_first(), thr);
        let rest = scored_below(q, names.drop_first(), thr);
        let d = spec_fuzzy_match(q, names[0]);
        let r = scored_below(q, names, thr);
        if d < thr {
            assert forall|i: int| 0 <= i < r.len() implies r[i].1 < thr by {
                if i == 0 {
                    assert(r[0] == (names[0], d));
                } else {
                    assert(r[i] == rest[i - 1]);
                }
            }
        } else {
            assert(r == rest);
        }
    }
}

/// Every kept entry is an actual corpus candidate paired with its
/// true match distance.
pub proof fn lemma_scored_below_sound(q: Seq<u8>, names: Seq<Seq<u8>>, thr: int)
    ensures
        forall|i: int|
            0 <= i < scored_below(q, names, thr).len() ==> exists|j: int|
                0 <= j < names.len() && #[trigger] scored_below(q, names, thr)[i] == (
                names[j],
                spec_fuzzy_match(q, names[j]),
                ),
    decreases names.len(),
{
    if names.len() > 0 {
        let tail = names.drop_first();
        lemma_scored_below_sound(q, tail, thr);
        let rest = scored_below(q, tail, thr);
        let d = spec_fuzzy_match(q, names[0]);
        let r = scored_below(q, names, thr);
        assert forall|i: int| 0 <= i < r.len() implies exists|j: int|
            0 <= j < names.len() && #[trigger] r[i] == (names[j], spec_fuzzy_match(q, names[j])) by {
            if d < thr && i == 0 {
                assert(r[0] == (names[0], spec_fuzzy_match(q, names[0])));
            } else {
                let ii = if d < thr {
                    i - 1
                } else {
                    i
                };
                assert(r[i] == rest[ii]);
                let j = choose|j: int|
                    0 <= j < tail.len() && rest[ii] == (tail[j], spec_fuzzy_match(q, tail[j]));
                assert(tail[j] == names[j + 1]);
                assert(r[i] == (names[j + 1], spec_fuzzy_match(q, names[j + 1])));
            }
        }
    }
}

/// Every result entry is an actual corpus candidate paired with its
/// true match distance: the minimum over that candidate's tokens.
pub proof fn lemma_search_entries_from_corpus(q: Seq<u8>, names: Seq<Seq<u8>>, thr: int, limit: int)
    requires
        0 <= limit,
    ensures
        forall|i: int|
            0 <= i < spec_search(q, names, thr, limit).len() ==> exists|j: int|
                0 <= j < names.len() && #[trigger] spec_search(q, names, thr, limit)[i] == (
                names[j],
                spec_fuzzy_match(q, names[j]),
                ),
{
    let kept = scored_below(q, names, thr);
    let ranked = stable_sorted(kept);
    lemma_stable_sorted_sorted(kept);
    lemma_scored_below_sound(q, names, thr);
    let r = spec_search(q, names, thr, limit);
    assert forall|i: int| 0 <= i < r.len() implies exists|j: int|
        0 <= j < names.len() && #[trigger] r[i] == (names[j], spec_fuzzy_match(q, names[j])) by {
        assert(r[i] == ranked[i]);
        assert(kept.contains(ranked[i]));
        let w = choose|w: int| 0 <= w < kept.len() && kept[w] == ranked[i];
        let j = choose|j: int|
            0 <= j < names.len() && kept[w] == (names[j], spec_fuzzy_match(q, names[j]));
        assert(r[i] == (names[j], spec_fuzzy_match(q, names[j])));
    }
}

/// Every result list is bounded by the limit, holds only entries with
/// distance strictly below the threshold, and ascends by distance.
pub proof fn lemma_search_result_set(q: Seq<u8>, names: Seq<Seq<u8>>, thr: int, limit: int)
    requires
        0 <= limit,
    ensures
        spec_search(q, names, thr, limit).len() <= limit,
        forall|i: int|
            0 <= i < spec_search(q, names, thr, limit).len() ==> spec_search(q, names, thr, limit)[i].1
                < thr,
        sorted_by_distance(spec_search(q, names, thr, limit)),
{
    let kept = scored_below(q, names, thr);
    let ranked = stable_sorted(kept);
    lemma_stable_sorted_sorted(kept);
    lemma_scored_below_entries(q, names, thr);
    let r = spec_search(q, names, thr, limit);
    assert forall|i: int| 0 <= i < r.len() implies r[i].1 < thr by {
        assert(r[i] == ranked[i]);
        assert(kept.contains(ranked[i]));
        let w = choose|w: int| 0 <= w < kept.len() && kept[w] == ranked[i];
        assert(kept[w].1 < thr);
    }
    assert forall|i: int, j: int| 0 <= i <= j < r.len() implies r[i].1 <= r[j].1 by {
        assert(r[i] == ranked[i]);
        assert(r[j] == ranked[j]);
    }
}

/// The entries of `s` whose distance equals `k`, in order.
pub open spec fn filter_key(s: Seq<(Seq<u8>, int)>, k: int) -> Seq<(Seq<u8>, int)>
    decreases s.len(),
{
    if s.len() == 0 {
        Seq::empty()
    } else if s[0].1 == k {
        seq![s[0]] + filter_key(s.drop_first(), k)
    } else {
        filter_key(s.drop_first(), k)
    }
}

proof fn lemma_filter_key_singleton(x: (Seq<u8>, int), k: int)
    ensures
        filter_key(seq![x], k) == if x.1 == k {
            seq![x]
        } else {
            Seq::<(Seq<u8>, int)>::empty()
        },
{
    reveal_with_fuel(filter_key, 2);
    assert(seq![x].drop_first() =~= Seq::<(Seq<u8>, int)>::empty());
    if x.1 == k {
        assert(filter_key(seq![x], k) =~= seq![x]);
    }
}

proof fn lemma_filter_key_add(a: Seq<(Seq<u8>, int)>, b: Seq<(Seq<u8>, int)>, k: int)
    ensures
        filter_key(a + b, k) == filter_key(a, k) + filter_key(b, k),
    decreases a.len(),
{
    if a.len() == 0 {
        assert(a + b =~= b);
        assert(filter_key(a, k) + filter_key(b, k) =~= filter_key(b, k));
    } else {
        lemma_filter_key_add(a.drop_first(), b, k);
        assert((a + b).drop_first() =~= a.drop_first() + b);
        assert((a + b)[0] == a[0]);
        if a[0].1 == k {
            assert(seq![a[0]] + (filter_key(a.drop_first(), k) + filter_key(b, k)) =~= (seq![a[0]]
                + filter_key(a.drop_first(), k)) + filter_key(b, k));
        }
    }
}

proof fn lemma_filter_key_none(s: Seq<(Seq<u8>, int)>, k: int)
    requires
        forall|i: int| 0 <= i < s.len() ==> s[i].1 != k,
    ensures
        filter_key(s, k) == Seq::<(Seq<u8>, int)>::empty(),
    decreases s.len(),
{
    if s.len() > 0 {
        let t = s.drop_first();
        assert forall|i: int| 0 <= i < t.len() implies t[i].1 != k by {
            assert(t[i] == s[i + 1]);
        }
        lemma_filter_key_none(t, k);
    }
}

/// Inserting by distance into a sorted list appends the new entry to
/// its distance class and leaves every distance class otherwise
/// unchanged.
proof fn lemma_filter_key_insert(s: Seq<(Seq<u8>, int)>, x: (Seq<u8>, int), k: int)
    requires
        sorted_by_distance(s),
    ensures
        filter_key(insert_by_distance(s, x), k) == if x.1 == k {
            filter_key(s, k) + seq![x]
        } else {
            filter_key(s, k)
        },
    decreases s.len(),
{
    let r = insert_by_distance(s, x);
    if s.len() == 0 {
        assert(r == seq![x]);
        lemma_filter_key_singleton(x, k);
        if x.1 == k {
            assert(filter_key(s, k) + seq![x] =~= seq![x]);
        }
    } else if s[0].1 <= x.1 {
        let t = s.drop_first();
        assert forall|i: int, j: int| 0 <= i <= j < t.len() implies t[i].1 <= t[j].1 by {
            assert(t[i] == s[i + 1]);
            assert(t[j] == s[j + 1]);
        }
        lemma_filter_key_insert(t, x, k);
        assert(r == seq![s[0]] + insert_by_distance(t, x));
        lemma_filter_key_add(seq![s[0]], insert_by_distance(t, x), k);
        assert(s =~= seq![s[0]] + t);
        lemma_filter_key_add(seq![s[0]], t, k);
        if x.1 == k {
            assert(filter_key(seq![s[0]], k) + (filter_key(t, k) + seq![x]) =~= (filter_key(
                seq![s[0]],
                k,
            ) + filter_key(t, k)) + seq![x]);
        }
    } else {
        assert(r == seq![x] + s);
        lemma_filter_key_add(seq![x], s, k);
        lemma_filter_key_singleton(x, k);
        if x.1 == k {
            assert forall|i: int| 0 <= i < s.len() implies s[i].1 != k by {
                assert(s[0].1 <= s[i].1);
            }
            lemma_filter_key_none(s, k);
            assert(filter_key(seq![x], k) + filter_key(s, k) =~= filter_key(s, k) + seq![x]);
        } else {
            assert(filter_key(seq![x], k) + filter_key(s, k) =~= filter_key(s, k));
        }
    }
}

/// The stable sort reorders only across distances: within one
/// distance class the input's order is kept exactly.
pub proof fn lemma_stable_sorted_stability(s: Seq<(Seq<u8>, int)>, k: int)
    ensures
        filter_key(stable_sorted(s), k) == filter_key(s, k),
    decreases s.len(),
{
    if s.len() > 0 {
        let t = s.drop_last();
        lemma_stable_sorted_stability(t, k);
        lemma_stable_sorted_sorted(t);
        lemma_filter_key_insert(stable_sorted(t), s.last(), k);
        assert(s =~= t + seq![s.last()]);
        lemma_filter_key_add(t, seq![s.last()], k);
        lemma_filter_key_singleton(s.last(), k);
        if s.last().1 != k {
            assert(filter_key(t, k) + filter_key(seq![s.last()], k) =~= filter_key(t, k));
        }
    }
}

/// The equal-distance entries of a prefix are a prefix of the
/// equal-distance entries of the whole list.
proof fn lemma_filter_key_take_prefix(s: Seq<(Seq<u8>, int)>, n: int, k: int)
    requires
        0 <= n <= s.len(),
    ensures
        filter_key(s.take(n), k) == filter_key(s, k).take(
            filter_key(s.take(n), k).len() as int,
        ),
{
    lemma_filter_key_add(s.take(n), s.skip(n), k);
    assert(s.take(n) + s.skip(n) =~= s);
    assert(filter_key(s, k).take(filter_key(s.take(n), k).len() as int) =~= filter_key(
        s.take(n),
        k,
    ));
}

/// Among entries of equal distance the result keeps corpus order: for
/// every distance value, the result's entries with that distance are
/// an initial run, in corpus order, of the kept candidates with that
/// distance.
pub proof fn lemma_search_stability(q: Seq<u8>, names: Seq<Seq<u8>>, thr: int, limit: int, k: int)
    requires
        0 <= limit,
    ensures
        filter_key(spec_search(q, names, thr, limit), k) == filter_key(
            scored_below(q, names, thr),
            k,
        ).take(filter_key(spec_search(q, names, thr, limit), k).len() as int),
{
    let kept = scored_below(q, names, thr);
    let ranked = stable_sorted(kept);
    lemma_stable_sorted_stability(kept, k);
    if limit <= ranked.len() {
        lemma_filter_key_take_prefix(ranked, limit, k);
    } else {
        assert(filter_key(kept, k).take(filter_key(ranked, k).len() as int) =~= filter_key(
            kept,
            k,
        ));
    }
}

/// The results are a function of query, corpus, threshold and limit
/// alone: two searches over the same inputs return identical lists,
/// whatever their timing fields say.
pub proof fn lemma_search_idempotent(
    r1: Seq<(Seq<u8>, int)>,
    r2: Seq<(Seq<u8>, int)>,
    q: Seq<u8>,
    names: Seq<Seq<u8>>,
    thr: int,
    limit: int,
)
    requires
        r1 == spec_search(q, names, thr, limit),
        r2 == spec_search(q, names, thr, limit),
    ensures
        r1 == r2,
{
}

} // verus!
