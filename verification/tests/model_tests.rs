use memelay::model::{position, BigramCell, Model};
use memelay::types::Kc;

fn grid() -> Model {
    Model {
        row: vec![2, 2, 2, 2, 1, 1, 1, 1, 0, 0, 0, 0],
        hand: vec![0, 0, 1, 1, 0, 0, 1, 1, 0, 0, 1, 1],
        finger: vec![1, 0, 0, 1, 1, 0, 0, 1, 1, 0, 0, 1],
        ..Default::default()
    }
}

#[test]
fn test_key_relation() {
    let model = grid();
    assert_eq!(model.key_below(0), Some(4));
    assert_eq!(model.key_below(1), Some(5));
    assert_eq!(model.key_below(2), Some(6));
    assert_eq!(model.key_below(3), Some(7));
    assert_eq!(model.key_below(4), Some(8));
    assert_eq!(model.key_below(5), Some(9));
    assert_eq!(model.key_below(6), Some(10));
    assert_eq!(model.key_below(7), Some(11));
    assert_eq!(model.key_below(8), None);
    assert_eq!(model.key_below(9), None);
    assert_eq!(model.key_below(10), None);
    assert_eq!(model.key_below(11), None);
}

fn letters() -> Vec<Kc> {
    vec![Kc::A, Kc::B, Kc::C, Kc::D, Kc::E, Kc::F, Kc::G, Kc::H, Kc::I, Kc::J, Kc::K, Kc::L]
}

#[test]
fn bigram_cells() {
    // 1 0   0 1
    // A B | C D  2
    // E F | G H  1
    // I J | K L  0
    let model = grid();
    let l = letters();
    // Middle finger down two rows: the cell for middle, middle, down 2.
    assert_eq!(
        model.bigram_cell(&l, Kc::A, Kc::I),
        Some(BigramCell::Table { first_finger: 1, second_finger: 1, jump: 0 })
    );
    // Middle up one row to index.
    assert_eq!(
        model.bigram_cell(&l, Kc::H, Kc::C),
        Some(BigramCell::Table { first_finger: 1, second_finger: 0, jump: 3 })
    );
    assert_eq!(model.bigram_cell(&l, Kc::A, Kc::C), Some(BigramCell::SwitchHand));
    assert_eq!(model.bigram_cell(&l, Kc::A, Kc::A), Some(BigramCell::SameKey));
    assert_eq!(model.bigram_cell(&l, Kc::A, Kc::Z), None);
}

#[test]
fn trigram_alt_rolls() {
    let model = grid();
    let l = letters();
    assert_eq!(model.trigram_alt_roll(&l, Kc::A, Kc::B, Kc::C), Some(true));
    assert_eq!(model.trigram_alt_roll(&l, Kc::B, Kc::A, Kc::C), Some(false));
    assert_eq!(model.trigram_alt_roll(&l, Kc::A, Kc::B, Kc::Z), None);
}

#[test]
fn positions() {
    assert_eq!(position(&[Kc::A, Kc::B, Kc::A], Kc::A), Some(0));
    assert_eq!(position(&[Kc::A, Kc::B, Kc::A], Kc::B), Some(1));
    assert_eq!(position(&[Kc::A, Kc::B], Kc::C), None);
}

#[test]
fn fixed_keys_round_trip() {
    let model = Model {
        universe: vec![Kc::A, Kc::B, Kc::C, Kc::D],
        fixed: vec![Kc::No, Kc::B, Kc::No, Kc::No],
        ..Default::default()
    };
    let s = vec![Kc::C, Kc::B, Kc::D, Kc::A];
    let free = model.without_fixed(&s);
    assert_eq!(free, vec![Kc::C, Kc::D, Kc::A]);
    assert_eq!(model.with_fixed(&free), s);
    assert_eq!(model.with_fixed(&[Kc::A, Kc::C, Kc::D]), vec![Kc::A, Kc::B, Kc::C, Kc::D]);
}

#[test]
fn format_fills_and_trims() {
    let model = Model { layout: "X X |X\nX  \n".to_string(), ..Default::default() };
    assert_eq!(model.format(&[Kc::A, Kc::B, Kc::Num1, Kc::Comma]), "a b |1\n,");
}
