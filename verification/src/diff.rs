//! Cell streams for a hex viewer: one cell per byte of each input, marked as
//! shared with the other input or as differing, and blank cells that keep
//! the two streams side by side.

use crate::matcher::common;
use crate::matcher::compatible;
use crate::matcher::greedy;
use crate::matcher::greedy00;
use crate::matcher::lemma_matches_compatible;
use crate::matcher::lemma_matches_fit;
use crate::matcher::Match;
use crate::recode::decoded;
use crate::recode::encoded;
use crate::recode::lemma_condensed;
use crate::recode::lemma_vocabulary_rule;
use crate::recode::vocabulary_rule;
use crate::token::ids_of_bytes;
use crate::token::all_known;
use crate::token::Token;
use crate::token::TokenId;
use crate::vocabulary::Vocabulary;
use std::ops::Range;
use vstd::prelude::*;

verus! {

/// One cell of a hex view.
#[derive(Clone, Copy, Debug, PartialEq, Eq, Structural)]
pub enum HexCell {
    /// A byte that both inputs hold; `source_id` numbers the match it lies in.
    Same { value: u8, source_id: usize },
    /// A byte that has no partner; `source_id` numbers the gap it lies in.
    Diff { value: u8, source_id: usize },
    /// No byte: the other stream is longer here.
    Blank,
}

/// The cell at position `i` of a byte-by-byte comparison, seen from `own`.
pub open spec fn index_cell(own: Seq<u8>, other: Seq<u8>, i: int) -> HexCell {
    if 0 <= i < own.len() {
        if i < other.len() && own[i] == other[i] {
            HexCell::Same { value: own[i], source_id: 0 }
        } else {
            HexCell::Diff { value: own[i], source_id: 0 }
        }
    } else {
        HexCell::Blank
    }
}

/// The cells of a byte-by-byte comparison for the positions from `start` up
/// to `end`.
pub open spec fn index_cells(own: Seq<u8>, other: Seq<u8>, start: int, end: int) -> Seq<HexCell> {
    Seq::new(
        if start <= end {
            (end - start) as nat
        } else {
            0
        },
        |i: int| index_cell(own, other, start + i),
    )
}

/// Compares two inputs byte by byte over the positions of `range`: a byte
/// is the same where the other input holds the same byte at the same
/// position, and a position behind the end of an input is blank.
pub fn get_diffs(pattern0: &[u8], pattern1: &[u8], range: Range<usize>) -> (cells: (
    Vec<HexCell>,
    Vec<HexCell>,
))
    ensures
        cells.0@ == index_cells(pattern0@, pattern1@, range.start as int, range.end as int),
        cells.1@ == index_cells(pattern1@, pattern0@, range.start as int, range.end as int),
{
    let start = range.start;
    let end = range.end;
    let mut cells0: Vec<HexCell> = Vec::new();
    let mut cells1: Vec<HexCell> = Vec::new();
    let mut i: usize = start;
    while i < end
        invariant
            start <= i <= end || (i == start && start > end),
            cells0@.len() == i - start,
            cells1@.len() == i - start,
            forall|k: int|
                0 <= k < i - start ==> #[trigger] cells0@[k] == index_cell(
                    pattern0@,
                    pattern1@,
                    start + k,
                ),
            forall|k: int|
                0 <= k < i - start ==> #[trigger] cells1@[k] == index_cell(
                    pattern1@,
                    pattern0@,
                    start + k,
                ),
        decreases end - i,
    {
        cells0.push(cell_at_index(pattern0, pattern1, i));
        cells1.push(cell_at_index(pattern1, pattern0, i));
        i = i + 1;
    }
    assert(cells0@ =~= index_cells(pattern0@, pattern1@, start as int, end as int));
    assert(cells1@ =~= index_cells(pattern1@, pattern0@, start as int, end as int));
    (cells0, cells1)
}

/// The cell at position `i` of a byte-by-byte comparison, seen from `own`.
fn cell_at_index(own: &[u8], other: &[u8], i: usize) -> (cell: HexCell)
    ensures
        cell == index_cell(own@, other@, i as int),
{
    if i < own.len() {
        if i < other.len() && own[i] == other[i] {
            HexCell::Same { value: own[i], source_id: 0 }
        } else {
            HexCell::Diff { value: own[i], source_id: 0 }
        }
    } else {
        HexCell::Blank
    }
}

/// One cell per byte of a match.
pub open spec fn same_cells(bytes: Seq<u8>, source_id: usize) -> Seq<HexCell> {
    Seq::new(bytes.len(), |i: int| HexCell::Same { value: bytes[i], source_id })
}

/// One cell per byte of a gap.
pub open spec fn diff_cells(bytes: Seq<u8>, source_id: usize) -> Seq<HexCell> {
    Seq::new(bytes.len(), |i: int| HexCell::Diff { value: bytes[i], source_id })
}

/// `n` blank cells.
pub open spec fn blank_cells(n: int) -> Seq<HexCell> {
    Seq::new(
        if n > 0 {
            n as nat
        } else {
            0
        },
        |i: int| HexCell::Blank,
    )
}

/// The cells of a gap: one per byte of the gap, then as many blank cells as
/// the gap of the other stream has bytes more.
pub open spec fn gap_cells(own: Seq<u8>, other: Seq<u8>, source_id: usize) -> Seq<HexCell> {
    diff_cells(own, source_id) + blank_cells(other.len() - own.len())
}

/// `k` is the match that starts first among those that start at `from` or later.
pub open spec fn is_next(matches: Seq<Match>, from: int, k: int) -> bool {
    &&& 0 <= k < matches.len()
    &&& matches[k].left >= from
    &&& forall|j: int|
        0 <= j < matches.len() && (#[trigger] matches[j]).left >= from ==> matches[k].left
            <= matches[j].left
}

/// The match that starts first among those that start at `from` or later.
pub open spec fn next_match(matches: Seq<Match>, from: int) -> Option<int> {
    if exists|k: int| is_next(matches, from, k) {
        Some(choose|k: int| is_next(matches, from, k))
    } else {
        None
    }
}

/// The matches are common runs of the two sequences that do not overlap.
pub open spec fn aligned(l: Seq<TokenId>, r: Seq<TokenId>, matches: Seq<Match>) -> bool {
    &&& forall|k: int| 0 <= k < matches.len() ==> common(l, r, #[trigger] matches[k])
    &&& forall|j: int, k: int|
        0 <= j < k < matches.len() ==> compatible(#[trigger] matches[k], #[trigger] matches[j])
}

/// The ids of one side between two places.
pub open spec fn side(l: Seq<TokenId>, r: Seq<TokenId>, left_side: bool, from: (int, int), to: (
    int,
    int,
)) -> Seq<TokenId> {
    if left_side {
        l.subrange(from.0, to.0)
    } else {
        r.subrange(from.1, to.1)
    }
}

/// The cells of one stream from the place `(i, j)` on, which lies in gap
/// number `gap`. The gap up to the next match comes first: its bytes as
/// differing cells under the id of the gap, padded with blank cells to the
/// length of the gap of the other stream. Then comes the match: its bytes as
/// shared cells under the id of the match. The gap behind match `k` has
/// number `k + 1`, and the id of a gap is its number behind the ids of the
/// matches.
#[verifier::opaque]
pub open spec fn cells_from(
    tokens: Seq<Token>,
    l: Seq<TokenId>,
    r: Seq<TokenId>,
    matches: Seq<Match>,
    i: int,
    j: int,
    gap: int,
    left_side: bool,
) -> Seq<HexCell>
    decreases l.len() - i,
{
    match next_match(matches, i) {
        Some(k) => {
            let m = matches[k];
            let end = (m.left + m.len, m.right + m.len);
            if m.len >= 1 && i <= m.left && j <= m.right && end.0 <= l.len() && end.1 <= r.len() {
                gap_cells(
                    decoded(tokens, side(l, r, left_side, (i, j), (m.left as int, m.right as int))),
                    decoded(tokens, side(l, r, !left_side, (i, j), (m.left as int, m.right as int))),
                    (matches.len() + gap) as usize,
                ) + same_cells(
                    decoded(tokens, side(l, r, left_side, (m.left as int, m.right as int), end)),
                    k as usize,
                ) + cells_from(tokens, l, r, matches, end.0, end.1, k + 1, left_side)
            } else {
                Seq::empty()
            }
        },
        None => gap_cells(
            decoded(tokens, side(l, r, left_side, (i, j), (l.len() as int, r.len() as int))),
            decoded(tokens, side(l, r, !left_side, (i, j), (l.len() as int, r.len() as int))),
            (matches.len() + gap) as usize,
        ),
    }
}

/// Adds one cell per byte to a stream.
fn push_cells(out: &mut Vec<HexCell>, bytes: &Vec<u8>, source_id: usize, same: bool)
    ensures
        final(out)@ == old(out)@ + (if same {
            same_cells(bytes@, source_id)
        } else {
            diff_cells(bytes@, source_id)
        }),
{
    let ghost before = out@;
    let ghost cells = if same {
        same_cells(bytes@, source_id)
    } else {
        diff_cells(bytes@, source_id)
    };
    let mut i: usize = 0;
    assert(out@ =~= before + cells.take(0));
    while i < bytes.len()
        invariant
            i <= bytes@.len(),
            cells == (if same {
                same_cells(bytes@, source_id)
            } else {
                diff_cells(bytes@, source_id)
            }),
            out@ == before + cells.take(i as int),
        decreases bytes@.len() - i,
    {
        let cell = if same {
            HexCell::Same { value: bytes[i], source_id }
        } else {
            HexCell::Diff { value: bytes[i], source_id }
        };
        assert(cells[i as int] == cell);
        assert(before + cells.take(i + 1) =~= (before + cells.take(i as int)).push(cell));
        out.push(cell);
        i = i + 1;
    }
    assert(cells.take(bytes@.len() as int) =~= cells);
}

/// Adds blank cells to a stream: as many as `other` is longer than `own`.
fn push_blanks(out: &mut Vec<HexCell>, own: usize, other: usize)
    ensures
        final(out)@ == old(out)@ + blank_cells(other - own),
{
    let ghost before = out@;
    let mut i: usize = own;
    assert(out@ =~= before + blank_cells(0));
    while i < other
        invariant
            own <= i <= other || (i == own && own > other),
            out@ == before + blank_cells(i - own),
        decreases other - i,
    {
        assert(before + blank_cells(i + 1 - own) =~= (before + blank_cells(i - own)).push(
            HexCell::Blank,
        ));
        out.push(HexCell::Blank);
        i = i + 1;
    }
    assert(blank_cells(i - own) =~= blank_cells(other - own));
}

/// The bytes that the ids from `from` up to `to` stand for.
fn decode_range(ids: &Vec<TokenId>, from: usize, to: usize, vocabulary: &Vocabulary) -> (bytes: Vec<
    u8,
>)
    requires
        vocabulary.wf(),
        all_known(vocabulary@, ids@),
        from <= to <= ids@.len(),
    ensures
        bytes@ == decoded(vocabulary@, ids@.subrange(from as int, to as int)),
{
    let mut part: Vec<TokenId> = Vec::new();
    let mut i: usize = from;
    while i < to
        invariant
            from <= i <= to <= ids@.len(),
            part@ == ids@.subrange(from as int, i as int),
        decreases to - i,
    {
        part.push(ids[i]);
        assert(ids@.subrange(from as int, i + 1) =~= ids@.subrange(from as int, i as int).push(
            ids@[i as int],
        ));
        i = i + 1;
    }
    proof {
        assert forall|k: int| 0 <= k < part@.len() implies crate::token::known(
            vocabulary@,
            #[trigger] part@[k],
        ) by {
            assert(part@[k] == ids@[from + k]);
        }
    }
    match vocabulary.decode(part) {
        Ok(bytes) => bytes,
        Err(_) => Vec::new(),
    }
}

/// The match that starts first on the left among those that start at `from`
/// or later.
fn find_next(matches: &Vec<Match>, from: usize) -> (r: Option<usize>)
    ensures
        match r {
            Some(k) => is_next(matches@, from as int, k as int),
            None => forall|k: int| !is_next(matches@, from as int, k),
        },
{
    let mut best: Option<usize> = None;
    let mut i: usize = 0;
    while i < matches.len()
        invariant
            i <= matches@.len(),
            match best {
                Some(k) => k < i && matches@[k as int].left >= from && forall|j: int|
                    0 <= j < i && (#[trigger] matches@[j]).left >= from ==> matches@[k as int].left
                        <= matches@[j].left,
                None => forall|j: int| 0 <= j < i ==> (#[trigger] matches@[j]).left < from,
            },
        decreases matches@.len() - i,
    {
        let m = matches[i];
        if m.left >= from {
            let closer = match best {
                Some(k) => m.left < matches[k].left,
                None => true,
            };
            if closer {
                best = Some(i);
            }
        }
        i = i + 1;
    }
    proof {
        if best is None {
            assert forall|k: int| !is_next(matches@, from as int, k) by {
                if is_next(matches@, from as int, k) {
                    assert(matches@[k].left < from);
                }
            }
        }
    }
    best
}

/// Matches that do not overlap start at different places: the next match is
/// the only one of its kind.
pub proof fn lemma_next_match(l: Seq<TokenId>, r: Seq<TokenId>, matches: Seq<Match>, from: int, k: int)
    requires
        aligned(l, r, matches),
        is_next(matches, from, k),
    ensures
        next_match(matches, from) == Some(k),
{
    let chosen = choose|c: int| is_next(matches, from, c);
    assert(matches[chosen].left == matches[k].left);
    if chosen < k {
        assert(compatible(matches[k], matches[chosen]));
        assert(common(l, r, matches[k]) && common(l, r, matches[chosen]));
    } else if k < chosen {
        assert(compatible(matches[chosen], matches[k]));
        assert(common(l, r, matches[k]) && common(l, r, matches[chosen]));
    }
}

/// The cells of a gap and of the match behind it, with what follows.
pub proof fn lemma_cells_at_match(
    tokens: Seq<Token>,
    l: Seq<TokenId>,
    r: Seq<TokenId>,
    matches: Seq<Match>,
    i: int,
    j: int,
    gap: int,
    left_side: bool,
    k: int,
)
    requires
        aligned(l, r, matches),
        is_next(matches, i, k),
        j <= matches[k].right,
    ensures
        cells_from(tokens, l, r, matches, i, j, gap, left_side) == gap_cells(
            decoded(
                tokens,
                side(l, r, left_side, (i, j), (matches[k].left as int, matches[k].right as int)),
            ),
            decoded(
                tokens,
                side(l, r, !left_side, (i, j), (matches[k].left as int, matches[k].right as int)),
            ),
            (matches.len() + gap) as usize,
        ) + same_cells(
            decoded(
                tokens,
                side(
                    l,
                    r,
                    left_side,
                    (matches[k].left as int, matches[k].right as int),
                    (matches[k].left + matches[k].len, matches[k].right + matches[k].len),
                ),
            ),
            k as usize,
        ) + cells_from(
            tokens,
            l,
            r,
            matches,
            matches[k].left + matches[k].len,
            matches[k].right + matches[k].len,
            k + 1,
            left_side,
        ),
{
    reveal(cells_from);
    lemma_next_match(l, r, matches, i, k);
    assert(common(l, r, matches[k]));
}

/// The cells of the last gap.
pub proof fn lemma_cells_at_end(
    tokens: Seq<Token>,
    l: Seq<TokenId>,
    r: Seq<TokenId>,
    matches: Seq<Match>,
    i: int,
    j: int,
    gap: int,
    left_side: bool,
)
    requires
        forall|k: int| !is_next(matches, i, k),
    ensures
        cells_from(tokens, l, r, matches, i, j, gap, left_side) == gap_cells(
            decoded(tokens, side(l, r, left_side, (i, j), (l.len() as int, r.len() as int))),
            decoded(tokens, side(l, r, !left_side, (i, j), (l.len() as int, r.len() as int))),
            (matches.len() + gap) as usize,
        ),
{
    reveal(cells_from);
}

/// Adds the cells of a gap to a stream.
fn push_gap(out: &mut Vec<HexCell>, own: &Vec<u8>, other: &Vec<u8>, source_id: usize)
    ensures
        final(out)@ == old(out)@ + gap_cells(own@, other@, source_id),
{
    let ghost before = out@;
    push_cells(out, own, source_id, false);
    push_blanks(out, own.len(), other.len());
    assert(out@ =~= before + gap_cells(own@, other@, source_id));
}

/// The cell streams of an alignment, one per input. A byte inside a match
/// becomes a shared cell under the number of the match. A byte outside
/// every match becomes a differing cell under the id of its gap. Where the
/// gaps of the two inputs between the same matches differ in length, blank
/// cells fill up the shorter one, so that the matches stand side by side.
pub fn matches_to_cells(
    matches: &Vec<Match>,
    left: &Vec<TokenId>,
    right: &Vec<TokenId>,
    vocabulary: &Vocabulary,
) -> (cells: (Vec<HexCell>, Vec<HexCell>))
    requires
        vocabulary.wf(),
        all_known(vocabulary@, left@),
        all_known(vocabulary@, right@),
        aligned(left@, right@, matches@),
        2 * matches@.len() + 1 <= usize::MAX,
    ensures
        cells.0@ == cells_from(vocabulary@, left@, right@, matches@, 0, 0, 0, true),
        cells.1@ == cells_from(vocabulary@, left@, right@, matches@, 0, 0, 0, false),
{
    let ghost tokens = vocabulary@;
    let ghost l = left@;
    let ghost r = right@;
    let ghost whole0 = cells_from(tokens, l, r, matches@, 0, 0, 0, true);
    let ghost whole1 = cells_from(tokens, l, r, matches@, 0, 0, 0, false);
    let count = matches.len();
    let left_len = left.len();
    let right_len = right.len();
    let mut cells0: Vec<HexCell> = Vec::new();
    let mut cells1: Vec<HexCell> = Vec::new();
    let mut i: usize = 0;
    let mut j: usize = 0;
    let mut gap: usize = 0;
    assert(cells0@ + whole0 =~= whole0);
    assert(cells1@ + whole1 =~= whole1);
    loop
        invariant_except_break
            vocabulary.wf(),
            tokens == vocabulary@,
            l == left@,
            r == right@,
            all_known(tokens, l),
            all_known(tokens, r),
            aligned(l, r, matches@),
            count == matches@.len(),
            left_len == l.len(),
            right_len == r.len(),
            2 * count + 1 <= usize::MAX,
            i <= l.len(),
            j <= r.len(),
            gap <= count,
            forall|k: int|
                0 <= k < matches@.len() && (#[trigger] matches@[k]).left >= i ==> matches@[k].right
                    >= j,
            cells0@ + cells_from(tokens, l, r, matches@, i as int, j as int, gap as int, true)
                == whole0,
            cells1@ + cells_from(tokens, l, r, matches@, i as int, j as int, gap as int, false)
                == whole1,
        ensures
            cells0@ == whole0,
            cells1@ == whole1,
        decreases l.len() - i,
    {
        let ghost rest0 = cells_from(tokens, l, r, matches@, i as int, j as int, gap as int, true);
        let ghost rest1 = cells_from(tokens, l, r, matches@, i as int, j as int, gap as int, false);
        let ghost before0 = cells0@;
        let ghost before1 = cells1@;
        match find_next(matches, i) {
            Some(k) => {
                let m = matches[k];
                proof {
                    assert(common(l, r, matches@[k as int]));
                    lemma_cells_at_match(tokens, l, r, matches@, i as int, j as int, gap as int, true, k as int);
                    lemma_cells_at_match(tokens, l, r, matches@, i as int, j as int, gap as int, false, k as int);
                }
                let gap0 = decode_range(left, i, m.left, vocabulary);
                let gap1 = decode_range(right, j, m.right, vocabulary);
                let run0 = decode_range(left, m.left, m.left + m.len, vocabulary);
                let run1 = decode_range(right, m.right, m.right + m.len, vocabulary);
                push_gap(&mut cells0, &gap0, &gap1, count + gap);
                push_cells(&mut cells0, &run0, k, true);
                push_gap(&mut cells1, &gap1, &gap0, count + gap);
                push_cells(&mut cells1, &run1, k, true);
                proof {
                    let next0 = cells_from(
                        tokens,
                        l,
                        r,
                        matches@,
                        m.left + m.len,
                        m.right + m.len,
                        k + 1,
                        true,
                    );
                    let next1 = cells_from(
                        tokens,
                        l,
                        r,
                        matches@,
                        m.left + m.len,
                        m.right + m.len,
                        k + 1,
                        false,
                    );
                    assert(cells0@ + next0 =~= before0 + rest0);
                    assert(cells1@ + next1 =~= before1 + rest1);
                    lemma_matches_behind(l, r, matches@, k as int);
                }
                i = m.left + m.len;
                j = m.right + m.len;
                gap = k + 1;
            },
            None => {
                proof {
                    lemma_cells_at_end(tokens, l, r, matches@, i as int, j as int, gap as int, true);
                    lemma_cells_at_end(tokens, l, r, matches@, i as int, j as int, gap as int, false);
                }
                let gap0 = decode_range(left, i, left_len, vocabulary);
                let gap1 = decode_range(right, j, right_len, vocabulary);
                push_gap(&mut cells0, &gap0, &gap1, count + gap);
                push_gap(&mut cells1, &gap1, &gap0, count + gap);
                break ;
            },
        }
    }
    (cells0, cells1)
}

/// A match that starts on the left behind another one starts behind it on
/// the right too.
pub proof fn lemma_matches_behind(l: Seq<TokenId>, r: Seq<TokenId>, matches: Seq<Match>, k: int)
    requires
        aligned(l, r, matches),
        0 <= k < matches.len(),
    ensures
        forall|x: int|
            0 <= x < matches.len() && (#[trigger] matches[x]).left >= matches[k].left
                + matches[k].len ==> matches[x].right >= matches[k].right + matches[k].len,
{
    assert forall|x: int|
        0 <= x < matches.len() && (#[trigger] matches[x]).left >= matches[k].left
            + matches[k].len implies matches[x].right >= matches[k].right + matches[k].len by {
        assert(common(l, r, matches[x]) && common(l, r, matches[k]));
        if x < k {
            assert(compatible(matches[k], matches[x]));
        } else if k < x {
            assert(compatible(matches[x], matches[k]));
        }
    }
}

/// The diff of two inputs under a vocabulary: both are encoded, the
/// encodings are aligned greedily, and the alignment is turned into the two
/// cell streams.
pub fn greedy_diff(vocabulary: &Vocabulary, pattern0: &[u8], pattern1: &[u8]) -> (cells: (
    Vec<HexCell>,
    Vec<HexCell>,
))
    requires
        vocabulary.wf(),
        2 * pattern0@.len() + 1 <= usize::MAX,
    ensures
        exists|matches: Seq<Match>| #[trigger]
            greedy(encoded(vocabulary@, pattern0@), encoded(vocabulary@, pattern1@), matches)
                && cells.0@ == cells_from(
                vocabulary@,
                encoded(vocabulary@, pattern0@),
                encoded(vocabulary@, pattern1@),
                matches,
                0,
                0,
                0,
                true,
            ) && cells.1@ == cells_from(
                vocabulary@,
                encoded(vocabulary@, pattern0@),
                encoded(vocabulary@, pattern1@),
                matches,
                0,
                0,
                0,
                false,
            ),
{
    let left = vocabulary.encode(pattern0);
    let right = vocabulary.encode(pattern1);
    let matches = greedy00(&left, &right);
    proof {
        lemma_matches_compatible(left@, right@, matches@);
        lemma_matches_fit(left@, right@, matches@);
        crate::recode::lemma_ids_of_bytes(vocabulary@, pattern0@);
        lemma_vocabulary_rule(vocabulary@);
        lemma_condensed(vocabulary@, vocabulary_rule(vocabulary@), ids_of_bytes(pattern0@));
    }
    matches_to_cells(&matches, &left, &right, vocabulary)
}

} // verus!
