use str8ts::board::empty_board;
use str8ts::persist::load_game;
use str8ts::persist::save_game;
use str8ts::persist::LoadError;

#[test]
fn round_trip_restores_every_cell() {
    let mut b = empty_board();
    for j in 0..81 {
        b[j].is_white = j % 3 != 0;
        b[j].is_fixed = j % 5 == 0;
        b[j].value = if j % 4 == 0 { 1 + (j % 9) as i32 } else { -1 };
        b[j].small_values[j % 9] = true;
        b[j].small_values[(j + 3) % 9] = j % 2 == 0;
    }
    let text = save_game(&b);
    let mut loaded = empty_board();
    let r = load_game(&text, &mut loaded);
    assert!(r.is_ok());
    for j in 0..81 {
        assert_eq!(loaded[j].value, b[j].value);
        assert_eq!(loaded[j].is_white, b[j].is_white);
        assert_eq!(loaded[j].is_fixed, b[j].is_fixed);
        assert_eq!(loaded[j].small_values, b[j].small_values);
    }
}

#[test]
fn loading_keeps_display_state_of_the_live_board() {
    let b = empty_board();
    let text = save_game(&b);
    let mut live = empty_board();
    live[7].is_editing = true;
    live[9].is_valid_in_row = false;
    assert!(load_game(&text, &mut live).is_ok());
    assert!(live[7].is_editing);
    assert!(!live[9].is_valid_in_row);
}

#[test]
fn malformed_text_is_rejected() {
    let mut b = empty_board();
    let r = load_game("not json at all", &mut b);
    assert!(matches!(r, Err(LoadError::Parse)));
}

#[test]
fn wrong_cell_count_is_rejected() {
    let data: Vec<(i32, bool, bool, Vec<bool>)> =
        (0..80).map(|_| (-1, true, false, vec![false; 9])).collect();
    let text = serde_json::to_string(&data).unwrap();
    let mut b = empty_board();
    assert!(matches!(load_game(&text, &mut b), Err(LoadError::CellCount)));
}

#[test]
fn out_of_range_value_is_rejected() {
    let mut data: Vec<(i32, bool, bool, Vec<bool>)> =
        (0..81).map(|_| (-1, true, false, vec![false; 9])).collect();
    data[40].0 = 10;
    let text = serde_json::to_string(&data).unwrap();
    let mut b = empty_board();
    let before = b.clone();
    assert!(matches!(load_game(&text, &mut b), Err(LoadError::CellValue)));
    for j in 0..81 {
        assert_eq!(b[j].value, before[j].value);
    }
}

#[test]
fn zero_value_is_rejected() {
    let mut data: Vec<(i32, bool, bool, Vec<bool>)> =
        (0..81).map(|_| (-1, true, false, vec![false; 9])).collect();
    data[0].0 = 0;
    let text = serde_json::to_string(&data).unwrap();
    let mut b = empty_board();
    assert!(matches!(load_game(&text, &mut b), Err(LoadError::CellValue)));
}

#[test]
fn short_pencil_mark_array_is_rejected() {
    let mut data: Vec<(i32, bool, bool, Vec<bool>)> =
        (0..81).map(|_| (-1, true, false, vec![false; 9])).collect();
    data[3].3 = vec![true; 8];
    let text = serde_json::to_string(&data).unwrap();
    let mut b = empty_board();
    assert!(matches!(load_game(&text, &mut b), Err(LoadError::PencilMarks)));
}

#[test]
fn saved_text_holds_the_cell_tuples() {
    let mut b = empty_board();
    b[0].value = 7;
    b[0].is_white = false;
    b[0].is_fixed = true;
    let text = save_game(&b);
    let parsed: Vec<(i32, bool, bool, Vec<bool>)> = serde_json::from_str(&text).unwrap();
    assert_eq!(parsed.len(), 81);
    assert_eq!(parsed[0].0, 7);
    assert!(!parsed[0].1);
    assert!(parsed[0].2);
    assert_eq!(parsed[0].3, vec![false; 9]);
    assert_eq!(parsed[1].0, -1);
    assert!(parsed[1].1);
}
