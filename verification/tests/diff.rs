use arb_comp06::bpe::Bpe;
use arb_comp06::diff::get_diffs;
use arb_comp06::diff::greedy_diff;
use arb_comp06::diff::matches_to_cells;
use arb_comp06::diff::HexCell;
use arb_comp06::hex_view::cell_at;
use arb_comp06::hex_view::color;
use arb_comp06::hex_view::contrast;
use arb_comp06::hex_view::drop_select_text;
use arb_comp06::hex_view::num_rows;
use arb_comp06::matcher::greedy00;
use arb_comp06::matcher::Match;
use arb_comp06::token::TokenId;
use arb_comp06::vocabulary::Vocabulary;

fn same(value: u8, source_id: usize) -> HexCell {
    HexCell::Same { value, source_id }
}

fn diff(value: u8, source_id: usize) -> HexCell {
    HexCell::Diff { value, source_id }
}

fn ids(values: &[usize]) -> Vec<TokenId> {
    values.iter().map(|x| TokenId(*x)).collect()
}

#[test]
fn identical_inputs_give_same_cells_only() {
    let bpe = Bpe::new(&[&[1, 2, 3, 1, 2, 3], &[1, 2, 3, 1, 2, 3]]);
    let left = bpe.encode(&[1, 2, 3, 1, 2, 3]);
    let right = bpe.encode(&[1, 2, 3, 1, 2, 3]);
    let matches = greedy00(&left, &right);
    assert_eq!(matches, vec![Match { left: 0, right: 0, len: left.len() }]);
    let (cells0, cells1) = matches_to_cells(&matches, &left, &right, bpe.vocabulary());
    let expected = vec![
        same(1, 0),
        same(2, 0),
        same(3, 0),
        same(1, 0),
        same(2, 0),
        same(3, 0),
    ];
    assert_eq!(cells0, expected);
    assert_eq!(cells1, expected);
}

#[test]
fn gaps_are_padded_to_the_same_length() {
    let vocabulary = Vocabulary::new();
    // left:  1 2 7 3 4 5 8 6
    // right: 1 2 3 4 5 9 9 6
    let left = ids(&[1, 2, 7, 3, 4, 5, 8, 6]);
    let right = ids(&[1, 2, 3, 4, 5, 9, 9, 6]);
    let matches = greedy00(&left, &right);
    assert_eq!(
        matches,
        vec![
            Match { left: 3, right: 2, len: 3 },
            Match { left: 0, right: 0, len: 2 },
            Match { left: 7, right: 7, len: 1 },
        ]
    );
    let (cells0, cells1) = matches_to_cells(&matches, &left, &right, &vocabulary);
    // Gap ids come behind the three match ids: the gap before every match
    // has id 3, the gap behind match k has id 3 + k + 1.
    assert_eq!(
        cells0,
        vec![
            same(1, 1),
            same(2, 1),
            diff(7, 5),
            same(3, 0),
            same(4, 0),
            same(5, 0),
            diff(8, 4),
            HexCell::Blank,
            same(6, 2),
        ]
    );
    assert_eq!(
        cells1,
        vec![
            same(1, 1),
            same(2, 1),
            HexCell::Blank,
            same(3, 0),
            same(4, 0),
            same(5, 0),
            diff(9, 4),
            diff(9, 4),
            same(6, 2),
        ]
    );
}

#[test]
fn cells_are_per_byte_not_per_id() {
    let mut vocabulary = Vocabulary::new();
    let ab = vocabulary.mint(TokenId(0x61), TokenId(0x62));
    let left = vec![ab, TokenId(0x63), ab];
    let right = vec![TokenId(0x64), ab];
    let matches = vec![Match { left: 0, right: 1, len: 1 }];
    let (cells0, cells1) = matches_to_cells(&matches, &left, &right, &vocabulary);
    assert_eq!(
        cells0,
        vec![
            HexCell::Blank,
            same(0x61, 0),
            same(0x62, 0),
            diff(0x63, 2),
            diff(0x61, 2),
            diff(0x62, 2),
        ]
    );
    assert_eq!(
        cells1,
        vec![
            diff(0x64, 1),
            same(0x61, 0),
            same(0x62, 0),
            HexCell::Blank,
            HexCell::Blank,
            HexCell::Blank,
        ]
    );
}

#[test]
fn no_matches_give_one_gap() {
    let vocabulary = Vocabulary::new();
    let (cells0, cells1) = matches_to_cells(&vec![], &ids(&[1, 2]), &ids(&[3]), &vocabulary);
    assert_eq!(cells0, vec![diff(1, 0), diff(2, 0)]);
    assert_eq!(cells1, vec![diff(3, 0), HexCell::Blank]);
    let (cells0, cells1) = matches_to_cells(&vec![], &ids(&[]), &ids(&[]), &vocabulary);
    assert_eq!(cells0, vec![]);
    assert_eq!(cells1, vec![]);
}

#[test]
fn greedy_diff_runs_the_whole_pipeline() {
    let bpe = Bpe::new(&[&[1, 2, 3, 9, 1, 2, 3], &[1, 2, 3, 1, 2, 3, 7]]);
    let (cells0, cells1) = greedy_diff(bpe.vocabulary(), &[1, 2, 3, 9, 1, 2, 3], &[1, 2, 3, 1, 2, 3, 7]);
    // One id stands for 1 2 3. Left: X 9 X, right: X X 7.
    assert_eq!(
        cells0,
        vec![
            same(1, 0),
            same(2, 0),
            same(3, 0),
            diff(9, 3),
            same(1, 1),
            same(2, 1),
            same(3, 1),
            HexCell::Blank,
        ]
    );
    assert_eq!(
        cells1,
        vec![
            same(1, 0),
            same(2, 0),
            same(3, 0),
            HexCell::Blank,
            same(1, 1),
            same(2, 1),
            same(3, 1),
            diff(7, 4),
        ]
    );
}

#[test]
fn diff_by_index_compares_position_by_position() {
    let (cells0, cells1) = get_diffs(&[1, 2, 3, 4], &[1, 9, 3], 0..5);
    assert_eq!(
        cells0,
        vec![same(1, 0), diff(2, 0), same(3, 0), diff(4, 0), HexCell::Blank]
    );
    assert_eq!(
        cells1,
        vec![
            same(1, 0),
            diff(9, 0),
            same(3, 0),
            HexCell::Blank,
            HexCell::Blank
        ]
    );
    let (cells0, cells1) = get_diffs(&[1, 2, 3, 4], &[1, 9, 3], 2..4);
    assert_eq!(cells0, vec![same(3, 0), diff(4, 0)]);
    assert_eq!(cells1, vec![same(3, 0), HexCell::Blank]);
    let (cells0, cells1) = get_diffs(&[1, 2], &[1, 2], 3..1);
    assert_eq!(cells0, vec![]);
    assert_eq!(cells1, vec![]);
}

#[test]
fn drop_target_says_where_files_go() {
    assert_eq!(drop_select_text(true), "⬇ Loading dropped files here ⬇");
    assert_eq!(drop_select_text(false), "⬇ Load dropped files here ⬇");
}

#[test]
fn sources_cycle_through_six_colours() {
    assert_eq!(color(0), (255, 128, 128));
    assert_eq!(color(1), (255, 255, 128));
    assert_eq!(color(2), (128, 255, 128));
    assert_eq!(color(3), (128, 255, 255));
    assert_eq!(color(4), (128, 128, 255));
    assert_eq!(color(5), (255, 128, 255));
    assert_eq!(color(6), color(0));
    assert_eq!(color(usize::MAX), color(usize::MAX % 6));
    assert_eq!(contrast((255, 128, 0)), (127, 0, 128));
    assert_eq!(contrast(color(3)), (0, 127, 127));
}

#[test]
fn grid_places_sixteen_cells_per_row() {
    assert_eq!(num_rows(0, 0), 1);
    assert_eq!(num_rows(15, 3), 1);
    assert_eq!(num_rows(16, 3), 2);
    assert_eq!(num_rows(5, 33), 3);
    let cells: Vec<HexCell> = (0..20).map(|i| diff(i as u8, 0)).collect();
    assert_eq!(cell_at(&cells, 0, 0), Some(diff(0, 0)));
    assert_eq!(cell_at(&cells, 0, 15), Some(diff(15, 0)));
    assert_eq!(cell_at(&cells, 1, 3), Some(diff(19, 0)));
    assert_eq!(cell_at(&cells, 1, 4), None);
    assert_eq!(cell_at(&cells, 2, 0), None);
    assert_eq!(cell_at(&cells, usize::MAX, 0), None);
    assert_eq!(cell_at(&cells, 0, usize::MAX), None);
}
