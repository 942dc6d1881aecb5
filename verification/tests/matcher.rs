use arb_comp06::matcher::greedy00;
use arb_comp06::matcher::Match;
use arb_comp06::token::TokenId;

fn ids(values: &[usize]) -> Vec<TokenId> {
    values.iter().map(|x| TokenId(*x)).collect()
}

fn m(left: usize, right: usize, len: usize) -> Match {
    Match { left, right, len }
}

#[test]
fn identical_sequences_match_as_a_whole() {
    for n in 1..6 {
        let values: Vec<usize> = (0..n).map(|x| x % 3).collect();
        let sequence = ids(&values);
        assert_eq!(greedy00(&sequence, &sequence), vec![m(0, 0, n)]);
    }
    assert_eq!(greedy00(&ids(&[]), &ids(&[])), vec![]);
}

#[test]
fn nothing_in_common_gives_no_match() {
    assert_eq!(greedy00(&ids(&[1, 2, 3]), &ids(&[4, 5, 6])), vec![]);
    assert_eq!(greedy00(&ids(&[1, 2, 3]), &ids(&[])), vec![]);
    assert_eq!(greedy00(&ids(&[]), &ids(&[1])), vec![]);
}

#[test]
fn longest_run_is_found_first() {
    // left:  9 1 2 3 8 4 5
    // right: 4 5 1 2 3 7
    // The run 1 2 3 wins; 4 5 lies behind it on the left and before it on
    // the right, so it cannot be matched any more.
    assert_eq!(
        greedy00(&ids(&[9, 1, 2, 3, 8, 4, 5]), &ids(&[4, 5, 1, 2, 3, 7])),
        vec![m(1, 2, 3)]
    );
}

#[test]
fn matches_come_in_the_order_found() {
    // left:  1 2 7 3 4 5 8 6
    // right: 1 2 3 4 5 9 6
    assert_eq!(
        greedy00(&ids(&[1, 2, 7, 3, 4, 5, 8, 6]), &ids(&[1, 2, 3, 4, 5, 9, 6])),
        vec![m(3, 2, 3), m(0, 0, 2), m(7, 6, 1)]
    );
}

#[test]
fn ties_go_to_the_leftmost_start() {
    // Two runs of length one: left 0 with right 1, and left 1 with right 0.
    // The first starts earlier on the left; the second then crosses it.
    assert_eq!(greedy00(&ids(&[1, 2]), &ids(&[2, 1])), vec![m(0, 1, 1)]);
    // Same start on the left: the earlier start on the right wins.
    assert_eq!(
        greedy00(&ids(&[5]), &ids(&[5, 5])),
        vec![m(0, 0, 1)]
    );
    assert_eq!(
        greedy00(&ids(&[5, 5]), &ids(&[5])),
        vec![m(0, 0, 1)]
    );
}

#[test]
fn gaps_have_nothing_in_common() {
    let left = ids(&[1, 2, 7, 3, 4, 5, 8, 6, 6, 1]);
    let right = ids(&[6, 1, 2, 3, 4, 5, 9, 6, 2, 2]);
    let matches = greedy00(&left, &right);
    for i in 0..left.len() {
        for j in 0..right.len() {
            let fits = matches.iter().all(|x| {
                (i + 1 <= x.left && j + 1 <= x.right)
                    || (x.left + x.len <= i && x.right + x.len <= j)
            });
            if fits {
                assert_ne!(left[i], right[j]);
            }
        }
    }
    for (k, a) in matches.iter().enumerate() {
        assert!(a.len >= 1);
        assert_eq!(
            left[a.left..a.left + a.len],
            right[a.right..a.right + a.len]
        );
        for b in matches.iter().skip(k + 1) {
            assert!(
                (a.left + a.len <= b.left && a.right + a.len <= b.right)
                    || (b.left + b.len <= a.left && b.right + b.len <= a.right)
            );
        }
    }
}
