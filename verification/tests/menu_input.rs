use brazucascan::screen::{
    centered_column, inner_width, is_return_key, menu_choice, wants_log, MenuChoice,
};

#[test]
fn menu_takes_one_two_three() {
    assert_eq!(menu_choice("1"), MenuChoice::ScanHost);
    assert_eq!(menu_choice("2"), MenuChoice::ScanRange);
    assert_eq!(menu_choice("3"), MenuChoice::Quit);
}

#[test]
fn menu_refuses_everything_else() {
    for line in ["", "0", "4", "11", "1 ", " 1", "one", "1\n", "+1", "３", "sair"] {
        assert_eq!(menu_choice(line), MenuChoice::Invalid, "{:?}", line);
    }
}

#[test]
fn only_a_single_y_asks_for_a_log() {
    assert!(wants_log("y"));
    assert!(wants_log("Y"));
    for answer in ["", "n", "N", "yes", "Yes", "y ", " y", "yy", "s", "ý"] {
        assert!(!wants_log(answer), "{:?}", answer);
    }
}

#[test]
fn r_leads_back_to_the_menu() {
    assert!(is_return_key('r'));
    assert!(is_return_key('R'));
    for key in ['q', 'Q', '\n', ' ', 'x', 'ŕ'] {
        assert!(!is_return_key(key));
    }
}

#[test]
fn texts_are_centred_and_never_left_of_the_first_column() {
    assert_eq!(centered_column(80, 11), 34);
    assert_eq!(centered_column(80, 13), 33);
    assert_eq!(centered_column(80, 20), 30);
    assert_eq!(centered_column(81, 20), 30);
    assert_eq!(centered_column(22, 20), 1);
    assert_eq!(centered_column(21, 20), 1);
    assert_eq!(centered_column(20, 20), 1);
    assert_eq!(centered_column(10, 20), 1);
    assert_eq!(centered_column(0, 0), 1);
    assert_eq!(centered_column(u16::MAX, 1), 32767);
    for columns in 0u16..200 {
        for len in 0u16..40 {
            assert_eq!(centered_column(columns, len), (columns.saturating_sub(len) / 2).max(1));
        }
    }
}

#[test]
fn border_leaves_two_columns_to_its_side_lines() {
    assert_eq!(inner_width(80), 78);
    assert_eq!(inner_width(2), 0);
    assert_eq!(inner_width(1), 0);
    assert_eq!(inner_width(0), 0);
    assert_eq!(inner_width(u16::MAX), u16::MAX - 2);
}
