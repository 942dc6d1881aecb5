//! Greedy alignment of two id sequences: the longest common run is matched
//! first, then the longest one that fits before or behind every match so
//! far, until what is left between the matches has no id in common.

use crate::token::TokenId;
use crate::utils::lemma_distinct_below;
use vstd::prelude::*;

verus! {

/// A run of `len` ids that starts at `left` in the left sequence and at
/// `right` in the right one.
#[derive(Clone, Copy, Debug, PartialEq, Eq, Structural)]
pub struct Match {
    pub left: usize,
    pub right: usize,
    pub len: usize,
}

/// The run lies in both sequences, holds at least one id, and the two
/// sequences agree on it.
pub open spec fn common(l: Seq<TokenId>, r: Seq<TokenId>, m: Match) -> bool {
    &&& m.len >= 1
    &&& m.left + m.len <= l.len()
    &&& m.right + m.len <= r.len()
    &&& forall|t: int| 0 <= t < m.len ==> #[trigger] l[m.left + t] == r[m.right + t]
}

/// `a` ends before `b` starts, in both sequences.
pub open spec fn before(a: Match, b: Match) -> bool {
    a.left + a.len <= b.left && a.right + a.len <= b.right
}

/// One of the two runs ends before the other starts, in both sequences.
pub open spec fn compatible(a: Match, b: Match) -> bool {
    before(a, b) || before(b, a)
}

/// A common run that fits before or behind every match found so far.
pub open spec fn candidate(l: Seq<TokenId>, r: Seq<TokenId>, found: Seq<Match>, m: Match) -> bool {
    &&& common(l, r, m)
    &&& forall|k: int| 0 <= k < found.len() ==> compatible(m, #[trigger] found[k])
}

/// `a` is chosen over `b`: it is longer, or as long and starts earlier in
/// the left sequence, or there too the same and not later in the right one.
pub open spec fn better(a: Match, b: Match) -> bool {
    ||| a.len > b.len
    ||| a.len == b.len && a.left < b.left
    ||| a.len == b.len && a.left == b.left && a.right <= b.right
}

/// The candidate that is chosen over every other candidate.
pub open spec fn is_best(l: Seq<TokenId>, r: Seq<TokenId>, found: Seq<Match>, m: Match) -> bool {
    &&& candidate(l, r, found, m)
    &&& forall|c: Match| #[trigger] candidate(l, r, found, c) ==> better(m, c)
}

/// The matches of the greedy alignment, in the order in which they are
/// found: each is the best candidate given the matches before it, and after
/// the last one no candidate is left.
pub open spec fn greedy(l: Seq<TokenId>, r: Seq<TokenId>, matches: Seq<Match>) -> bool {
    &&& forall|k: int|
        0 <= k < matches.len() ==> is_best(l, r, matches.take(k), #[trigger] matches[k])
    &&& forall|c: Match| !#[trigger] candidate(l, r, matches, c)
}

/// A pair of stretches, one of each sequence, in which matches may still be found.
#[derive(Clone, Copy)]
pub struct Region {
    pub left_start: usize,
    pub left_end: usize,
    pub right_start: usize,
    pub right_end: usize,
}

/// The run lies in the region.
pub open spec fn within(m: Match, region: Region) -> bool {
    &&& region.left_start <= m.left
    &&& m.left + m.len <= region.left_end
    &&& region.right_start <= m.right
    &&& m.right + m.len <= region.right_end
}

/// The regions lie in the sequences, one behind the other in both.
pub open spec fn regions_sorted(regions: Seq<Region>, l: Seq<TokenId>, r: Seq<TokenId>) -> bool {
    &&& forall|a: int|
        0 <= a < regions.len() ==> (#[trigger] regions[a]).left_start <= regions[a].left_end
            <= l.len() && regions[a].right_start <= regions[a].right_end <= r.len()
    &&& forall|a: int, b: int|
        0 <= a < b < regions.len() ==> (#[trigger] regions[a]).left_end <= (
        #[trigger] regions[b]).left_start && regions[a].right_end <= regions[b].right_start
}

/// The run lies in one of the regions.
pub open spec fn placed(regions: Seq<Region>, m: Match) -> bool {
    exists|a: int| 0 <= a < regions.len() && within(m, #[trigger] regions[a])
}

/// The run lies in the sequences and fits before or behind every match.
pub open spec fn open_to(l: Seq<TokenId>, r: Seq<TokenId>, found: Seq<Match>, m: Match) -> bool {
    &&& m.left + m.len <= l.len()
    &&& m.right + m.len <= r.len()
    &&& forall|k: int| 0 <= k < found.len() ==> compatible(m, #[trigger] found[k])
}

/// The regions are what the matches leave open.
pub open spec fn covers(regions: Seq<Region>, l: Seq<TokenId>, r: Seq<TokenId>, found: Seq<Match>) -> bool {
    forall|m: Match| m.len >= 1 ==> (#[trigger] placed(regions, m) <==> open_to(l, r, found, m))
}

/// The run lies in a region that the search has gone through, or starts
/// before the place in the current region that the search has got to.
pub open spec fn seen(regions: Seq<Region>, m: Match, a: int, left: int, right: int) -> bool {
    exists|b: int|
        0 <= b < regions.len() && within(m, #[trigger] regions[b]) && (b < a || (b == a && (m.left
            < left || (m.left == left && m.right < right))))
}

/// The best run so far is chosen over `c`.
pub open spec fn beats(best: Option<(Match, usize)>, c: Match) -> bool {
    match best {
        Some((m, _)) => better(m, c),
        None => false,
    }
}

/// How far the two sequences agree from the given places on, within the
/// given ends.
pub fn common_len(
    left: &Vec<TokenId>,
    right: &Vec<TokenId>,
    left_start: usize,
    right_start: usize,
    left_end: usize,
    right_end: usize,
) -> (n: usize)
    requires
        left_start <= left_end <= left@.len(),
        right_start <= right_end <= right@.len(),
    ensures
        left_start + n <= left_end,
        right_start + n <= right_end,
        forall|t: int| 0 <= t < n ==> #[trigger] left@[left_start + t] == right@[right_start + t],
        left_start + n == left_end || right_start + n == right_end || left@[left_start + n]
            != right@[right_start + n],
{
    let mut n: usize = 0;
    while left_start + n < left_end && right_start + n < right_end && left[left_start + n]
        == right[right_start + n]
        invariant
            left_start <= left_end <= left@.len(),
            right_start <= right_end <= right@.len(),
            left_start + n <= left_end,
            right_start + n <= right_end,
            forall|t: int| 0 <= t < n ==> #[trigger] left@[left_start + t] == right@[right_start + t],
        decreases left_end - left_start - n,
    {
        n = n + 1;
    }
    n
}

/// The best common run that lies in one of the regions, with the region it
/// lies in.
pub fn find_best(left: &Vec<TokenId>, right: &Vec<TokenId>, regions: &Vec<Region>) -> (r: Option<
    (Match, usize),
>)
    requires
        regions_sorted(regions@, left@, right@),
    ensures
        match r {
            Some((m, a)) => {
                &&& a < regions@.len()
                &&& within(m, regions@[a as int])
                &&& common(left@, right@, m)
                &&& forall|c: Match|
                    common(left@, right@, c) && #[trigger] placed(regions@, c) ==> better(m, c)
            },
            None => forall|c: Match| !(common(left@, right@, c) && #[trigger] placed(regions@, c)),
        },
{
    let mut best: Option<(Match, usize)> = None;
    let mut a: usize = 0;
    while a < regions.len()
        invariant
            regions_sorted(regions@, left@, right@),
            a <= regions@.len(),
            best matches Some((m, b)) ==> b < a && within(m, regions@[b as int]) && common(
                left@,
                right@,
                m,
            ),
            forall|c: Match|
                common(left@, right@, c) && #[trigger] seen(regions@, c, a as int, 0, 0) ==> beats(best, c),
        decreases regions@.len() - a,
    {
        let region = regions[a];
        let mut li: usize = region.left_start;
        proof {
            assert forall|c: Match|
                common(left@, right@, c) && #[trigger] seen(
                    regions@,
                    c,
                    a as int,
                    li as int,
                    region.right_start as int,
                ) implies beats(best, c) by {
                assert(seen(regions@, c, a as int, 0, 0));
            }
        }
        while li < region.left_end
            invariant
                regions_sorted(regions@, left@, right@),
                a < regions@.len(),
                region == regions@[a as int],
                region.left_start <= li <= region.left_end,
                best matches Some((m, b)) ==> b <= a && within(m, regions@[b as int]) && common(
                    left@,
                    right@,
                    m,
                ) && (b == a ==> m.left < li),
                forall|c: Match|
                    common(left@, right@, c) && #[trigger] seen(
                        regions@,
                        c,
                        a as int,
                        li as int,
                        region.right_start as int,
                    ) ==> beats(best, c),
            decreases region.left_end - li,
        {
            let mut ri: usize = region.right_start;
            while ri < region.right_end
                invariant
                    regions_sorted(regions@, left@, right@),
                    a < regions@.len(),
                    region == regions@[a as int],
                    region.left_start <= li < region.left_end,
                    region.right_start <= ri <= region.right_end,
                    best matches Some((m, b)) ==> b <= a && within(m, regions@[b as int]) && common(
                        left@,
                        right@,
                        m,
                    ) && (b == a ==> m.left < li || (m.left == li && m.right < ri)),
                    forall|c: Match|
                        common(left@, right@, c) && #[trigger] seen(
                            regions@,
                            c,
                            a as int,
                            li as int,
                            ri as int,
                        ) ==> beats(best, c),
                decreases region.right_end - ri,
            {
                let n = common_len(left, right, li, ri, region.left_end, region.right_end);
                let ghost old_best = best;
                let improves = match best {
                    Some((m, _)) => n > m.len,
                    None => n >= 1,
                };
                if improves {
                    best = Some((Match { left: li, right: ri, len: n }, a));
                }
                proof {
                    assert forall|c: Match|
                        common(left@, right@, c) && #[trigger] seen(
                            regions@,
                            c,
                            a as int,
                            li as int,
                            ri + 1,
                        ) implies beats(best, c) by {
                        let b = choose|b: int|
                            0 <= b < regions@.len() && within(c, #[trigger] regions@[b]) && (b < a || (b
                                == a && (c.left < li || (c.left == li && c.right < ri + 1))));
                        if b == a && c.left == li && c.right == ri {
                            assert(c.len <= n) by {
                                if c.len > n {
                                    assert(left@[c.left + n] == right@[c.right + n]);
                                }
                            }
                            if !improves {
                                let (m, mb) = old_best->0;
                                if mb < a {
                                    assert(regions@[mb as int].left_end <= regions@[a as int].left_start);
                                }
                            }
                        } else {
                            assert(seen(regions@, c, a as int, li as int, ri as int));
                            assert(beats(old_best, c));
                        }
                    }
                }
                ri = ri + 1;
            }
            proof {
                assert forall|c: Match|
                    common(left@, right@, c) && #[trigger] seen(
                        regions@,
                        c,
                        a as int,
                        li + 1,
                        region.right_start as int,
                    ) implies beats(best, c) by {
                    let b = choose|b: int|
                        0 <= b < regions@.len() && within(c, #[trigger] regions@[b]) && (b < a || (b == a
                            && (c.left < li + 1 || (c.left == li + 1 && c.right
                            < region.right_start))));
                    assert(seen(regions@, c, a as int, li as int, ri as int));
                }
            }
            li = li + 1;
        }
        proof {
            assert forall|c: Match|
                common(left@, right@, c) && #[trigger] seen(regions@, c, a + 1, 0, 0) implies beats(best, c) by {
                let b = choose|b: int|
                    0 <= b < regions@.len() && within(c, #[trigger] regions@[b]) && (b < a + 1 || (b == a
                        + 1 && (c.left < 0 || (c.left == 0 && c.right < 0))));
                assert(seen(regions@, c, a as int, li as int, region.right_start as int));
            }
        }
        a = a + 1;
    }
    proof {
        assert forall|c: Match| common(left@, right@, c) && #[trigger] placed(regions@, c) implies beats(best, c) by {
            let b = choose|b: int| 0 <= b < regions@.len() && within(c, #[trigger] regions@[b]);
            assert(seen(regions@, c, a as int, 0, 0));
        }
    }
    best
}

/// The regions after the match `m`, which lies in region `a`, was found:
/// that region gives way to what it holds before the match and what it
/// holds behind it.
pub open spec fn split_at(regions: Seq<Region>, a: int, m: Match) -> Seq<Region> {
    regions.take(a).push(
        Region {
            left_start: regions[a].left_start,
            left_end: m.left,
            right_start: regions[a].right_start,
            right_end: m.right,
        },
    ).push(
        Region {
            left_start: (m.left + m.len) as usize,
            left_end: regions[a].left_end,
            right_start: (m.right + m.len) as usize,
            right_end: regions[a].right_end,
        },
    ) + regions.skip(a + 1)
}

/// Splitting a region at a match keeps the regions in order and makes them
/// what the matches with the new one leave open.
pub proof fn lemma_split(
    regions: Seq<Region>,
    l: Seq<TokenId>,
    r: Seq<TokenId>,
    found: Seq<Match>,
    a: int,
    m: Match,
)
    requires
        regions_sorted(regions, l, r),
        covers(regions, l, r, found),
        0 <= a < regions.len(),
        within(m, regions[a]),
        m.len >= 1,
    ensures
        regions_sorted(split_at(regions, a, m), l, r),
        covers(split_at(regions, a, m), l, r, found.push(m)),
{
    let after = split_at(regions, a, m);
    let more = found.push(m);
    assert(after.len() == regions.len() + 1);
    assert forall|b: int| 0 <= b < after.len() implies #[trigger] after[b] == (if b < a {
        regions[b]
    } else if b == a {
        Region {
            left_start: regions[a].left_start,
            left_end: m.left,
            right_start: regions[a].right_start,
            right_end: m.right,
        }
    } else if b == a + 1 {
        Region {
            left_start: (m.left + m.len) as usize,
            left_end: regions[a].left_end,
            right_start: (m.right + m.len) as usize,
            right_end: regions[a].right_end,
        }
    } else {
        regions[b - 1]
    }) by {}
    assert forall|b: int, c: int| 0 <= b < c < after.len() implies (#[trigger] after[b]).left_end <= (
    #[trigger] after[c]).left_start && after[b].right_end <= after[c].right_start by {
        let source_b = if b <= a { b } else { b - 1 };
        let source_c = if c <= a { c } else { c - 1 };
        if source_b < source_c {
            assert(regions[source_b].left_end <= regions[source_c].left_start);
        }
    }
    assert forall|c: Match| c.len >= 1 implies (#[trigger] placed(after, c) <==> open_to(
        l,
        r,
        more,
        c,
    )) by {
        assert(placed(regions, c) <==> open_to(l, r, found, c));
        if placed(after, c) {
            let b = choose|b: int| 0 <= b < after.len() && within(c, #[trigger] after[b]);
            let source = if b <= a { b } else { b - 1 };
            assert(within(c, regions[source]));
            assert(placed(regions, c));
            assert(compatible(c, m)) by {
                if source < a {
                    assert(regions[source].left_end <= regions[a].left_start);
                } else if source > a {
                    assert(regions[a].left_end <= regions[source].left_start);
                }
            }
            assert forall|k: int| 0 <= k < more.len() implies compatible(c, #[trigger] more[k]) by {
                if k < found.len() {
                    assert(compatible(c, found[k]));
                }
            }
        }
        if open_to(l, r, more, c) {
            assert forall|k: int| 0 <= k < found.len() implies compatible(c, #[trigger] found[k]) by {
                assert(compatible(c, more[k]));
            }
            assert(compatible(c, more[found.len() as int]));
            assert(placed(regions, c));
            let b = choose|b: int| 0 <= b < regions.len() && within(c, #[trigger] regions[b]);
            if b < a {
                assert(within(c, after[b]));
            } else if b > a {
                assert(within(c, after[b + 1]));
            } else if before(c, m) {
                assert(within(c, after[a]));
            } else {
                assert(within(c, after[a + 1]));
            }
        }
    }
}

/// The regions after the match `m`, which lies in region `a`, was found.
fn split_region(regions: &Vec<Region>, a: usize, m: Match) -> (out: Vec<Region>)
    requires
        a < regions@.len(),
        within(m, regions@[a as int]),
    ensures
        out@ == split_at(regions@, a as int, m),
{
    let mut out: Vec<Region> = Vec::new();
    let mut i: usize = 0;
    while i < a
        invariant
            a < regions@.len(),
            i <= a,
            out@ == regions@.take(i as int),
        decreases a - i,
    {
        out.push(regions[i]);
        assert(regions@.take(i + 1) =~= regions@.take(i as int).push(regions@[i as int]));
        i = i + 1;
    }
    let region = regions[a];
    out.push(
        Region {
            left_start: region.left_start,
            left_end: m.left,
            right_start: region.right_start,
            right_end: m.right,
        },
    );
    out.push(
        Region {
            left_start: m.left + m.len,
            left_end: region.left_end,
            right_start: m.right + m.len,
            right_end: region.right_end,
        },
    );
    let ghost head = out@;
    let n = regions.len();
    let mut j: usize = a + 1;
    assert(regions@.skip(a + 1).take(0) =~= Seq::<Region>::empty());
    while j < n
        invariant
            n == regions@.len(),
            a < j <= regions@.len(),
            out@ == head + regions@.skip(a + 1).take(j - a - 1),
        decreases regions@.len() - j,
    {
        out.push(regions[j]);
        assert(regions@.skip(a + 1).take(j - a) =~= regions@.skip(a + 1).take(j - a - 1).push(
            regions@[j as int],
        ));
        j = j + 1;
    }
    assert(regions@.skip(a + 1).take(j - a - 1) =~= regions@.skip(a + 1));
    out
}

/// The greedy alignment of two id sequences. The longest run of ids that
/// the two have in common is found first; of several longest runs the one
/// that starts first on the left wins, then the one that starts first on the
/// right. The search goes on among the runs that lie before or behind every
/// match so far, until none is left. Matches come in the order in which
/// they are found.
pub fn greedy00(left: &Vec<TokenId>, right: &Vec<TokenId>) -> (matches: Vec<Match>)
    ensures
        greedy(left@, right@, matches@),
{
    let mut matches: Vec<Match> = Vec::new();
    let mut regions: Vec<Region> = Vec::new();
    regions.push(
        Region { left_start: 0, left_end: left.len(), right_start: 0, right_end: right.len() },
    );
    proof {
        assert forall|m: Match| m.len >= 1 implies (#[trigger] placed(regions@, m) <==> open_to(
            left@,
            right@,
            matches@,
            m,
        )) by {
            if open_to(left@, right@, matches@, m) {
                assert(within(m, regions@[0]));
            }
        }
    }
    loop
        invariant_except_break
            regions_sorted(regions@, left@, right@),
            covers(regions@, left@, right@, matches@),
            forall|k: int|
                0 <= k < matches@.len() ==> is_best(
                    left@,
                    right@,
                    matches@.take(k),
                    #[trigger] matches@[k],
                ),
            matches@.len() <= left@.len(),
        ensures
            greedy(left@, right@, matches@),
        decreases left@.len() - matches@.len(),
    {
        match find_best(left, right, &regions) {
            None => {
                proof {
                    assert forall|c: Match| !#[trigger] candidate(left@, right@, matches@, c) by {
                        if candidate(left@, right@, matches@, c) {
                            assert(open_to(left@, right@, matches@, c));
                            assert(placed(regions@, c));
                        }
                    }
                }
                break ;
            },
            Some((m, a)) => {
                let ghost found = matches@;
                proof {
                    lemma_split(regions@, left@, right@, found, a as int, m);
                    assert(placed(regions@, m));
                    assert(open_to(left@, right@, found, m));
                    assert forall|c: Match| #[trigger]
                        candidate(left@, right@, found, c) implies better(m, c) by {
                        assert(open_to(left@, right@, found, c));
                        assert(placed(regions@, c));
                    }
                    assert(is_best(left@, right@, found, m));
                }
                regions = split_region(&regions, a, m);
                matches.push(m);
                proof {
                    assert forall|k: int| 0 <= k < matches@.len() implies is_best(
                        left@,
                        right@,
                        matches@.take(k),
                        #[trigger] matches@[k],
                    ) by {
                        if k < found.len() {
                            assert(matches@.take(k) =~= found.take(k));
                            assert(matches@[k] == found[k]);
                        } else {
                            assert(matches@.take(k) =~= found);
                        }
                    }
                    lemma_matches_fit(left@, right@, matches@);
                }
            },
        }
    }
    matches
}

/// The matches of a greedy alignment are common runs that do not overlap,
/// neither in the left sequence nor in the right one.
pub proof fn lemma_matches_compatible(l: Seq<TokenId>, r: Seq<TokenId>, matches: Seq<Match>)
    requires
        forall|k: int|
            0 <= k < matches.len() ==> is_best(l, r, matches.take(k), #[trigger] matches[k]),
    ensures
        forall|k: int| 0 <= k < matches.len() ==> common(l, r, #[trigger] matches[k]),
        forall|j: int, k: int|
            0 <= j < k < matches.len() ==> compatible(#[trigger] matches[k], #[trigger] matches[j]),
{
    assert forall|j: int, k: int| 0 <= j < k < matches.len() implies compatible(
        #[trigger] matches[k],
        #[trigger] matches[j],
    ) by {
        assert(is_best(l, r, matches.take(k), matches[k]));
        assert(matches.take(k)[j] == matches[j]);
    }
    assert forall|k: int| 0 <= k < matches.len() implies common(l, r, #[trigger] matches[k]) by {
        assert(is_best(l, r, matches.take(k), matches[k]));
    }
}

/// There are no more matches than ids on the left.
pub proof fn lemma_matches_fit(l: Seq<TokenId>, r: Seq<TokenId>, matches: Seq<Match>)
    requires
        forall|k: int|
            0 <= k < matches.len() ==> is_best(l, r, matches.take(k), #[trigger] matches[k]),
    ensures
        matches.len() <= l.len(),
{
    lemma_matches_compatible(l, r, matches);
    let starts = Seq::new(matches.len(), |k: int| matches[k].left);
    assert forall|j: int, k: int| 0 <= j < starts.len() && 0 <= k < starts.len() && j != k implies starts[j]
        != starts[k] by {
        if j < k {
            assert(compatible(matches[k], matches[j]));
        } else {
            assert(compatible(matches[j], matches[k]));
        }
        assert(common(l, r, matches[j]) && common(l, r, matches[k]));
    }
    assert forall|k: int| 0 <= k < starts.len() implies #[trigger] starts[k] < l.len() by {
        assert(common(l, r, matches[k]));
    }
    lemma_distinct_below(starts, l.len());
}

/// There is one greedy alignment only.
pub proof fn lemma_greedy_unique(l: Seq<TokenId>, r: Seq<TokenId>, a: Seq<Match>, b: Seq<Match>)
    requires
        greedy(l, r, a),
        greedy(l, r, b),
    ensures
        a == b,
{
    lemma_greedy_prefix(l, r, a, b, if a.len() <= b.len() { a.len() as int } else { b.len() as int });
    if a.len() < b.len() {
        assert(b.take(a.len() as int) =~= a);
        assert(is_best(l, r, b.take(a.len() as int), b[a.len() as int]));
        assert(candidate(l, r, a, b[a.len() as int]));
    } else if b.len() < a.len() {
        assert(a.take(b.len() as int) =~= b);
        assert(is_best(l, r, a.take(b.len() as int), a[b.len() as int]));
        assert(candidate(l, r, b, a[b.len() as int]));
    } else {
        assert(a.take(a.len() as int) =~= a);
        assert(b.take(b.len() as int) =~= b);
    }
}

/// Two greedy alignments start with the same matches.
proof fn lemma_greedy_prefix(l: Seq<TokenId>, r: Seq<TokenId>, a: Seq<Match>, b: Seq<Match>, n: int)
    requires
        greedy(l, r, a),
        greedy(l, r, b),
        0 <= n <= a.len(),
        n <= b.len(),
    ensures
        a.take(n) == b.take(n),
    decreases n,
{
    if n == 0 {
        assert(a.take(0) =~= b.take(0));
    } else {
        lemma_greedy_prefix(l, r, a, b, n - 1);
        let found = a.take(n - 1);
        assert(is_best(l, r, a.take(n - 1), a[n - 1]));
        assert(is_best(l, r, b.take(n - 1), b[n - 1]));
        assert(candidate(l, r, found, a[n - 1]) && candidate(l, r, found, b[n - 1]));
        assert(better(a[n - 1], b[n - 1]) && better(b[n - 1], a[n - 1]));
        assert(a[n - 1] == b[n - 1]);
        assert(a.take(n) =~= a.take(n - 1).push(a[n - 1]));
        assert(b.take(n) =~= b.take(n - 1).push(b[n - 1]));
    }
}

/// Gap property: two places that lie between the same matches, one on the
/// left and one on the right, never hold the same id.
pub proof fn lemma_gaps_differ(
    l: Seq<TokenId>,
    r: Seq<TokenId>,
    matches: Seq<Match>,
    i: usize,
    j: usize,
)
    requires
        greedy(l, r, matches),
        i < l.len(),
        j < r.len(),
        forall|k: int|
            0 <= k < matches.len() ==> compatible(
                Match { left: i, right: j, len: 1 },
                #[trigger] matches[k],
            ),
    ensures
        l[i as int] != r[j as int],
{
    let c = Match { left: i, right: j, len: 1 };
    if l[i as int] == r[j as int] {
        assert forall|t: int| 0 <= t < c.len implies #[trigger] l[c.left + t] == r[c.right + t] by {}
        assert(candidate(l, r, matches, c));
    }
}

/// The alignment of a sequence with itself is a single match of the whole.
pub proof fn lemma_identical(l: Seq<TokenId>, matches: Seq<Match>)
    requires
        greedy(l, l, matches),
        1 <= l.len() <= usize::MAX,
    ensures
        matches == seq![Match { left: 0, right: 0, len: l.len() as usize }],
{
    let whole = Match { left: 0, right: 0, len: l.len() as usize };
    let only = seq![whole];
    assert(common(l, l, whole));
    assert(is_best(l, l, only.take(0), only[0])) by {
        assert(only.take(0) =~= Seq::<Match>::empty());
        assert forall|c: Match| #[trigger] candidate(l, l, only.take(0), c) implies better(whole, c) by {}
    }
    assert forall|k: int| 0 <= k < only.len() implies is_best(l, l, only.take(k), #[trigger] only[k]) by {}
    assert forall|c: Match| !#[trigger] candidate(l, l, only, c) by {
        if candidate(l, l, only, c) {
            assert(compatible(c, only[0]));
        }
    }
    lemma_greedy_unique(l, l, matches, only);
}

} // verus!
