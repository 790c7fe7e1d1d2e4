use gol_builder::BuildGol;
use gol_builder::GoL;
use gol_builder::GoLBuilder;

#[test]
fn dimensions_follow_line_count_and_longest_line() {
    let gol: GoL = "abc\nd\nee".build_gol().unwrap();

    assert_eq!(3, gol.rows);
    assert_eq!(3, gol.cols);
}

#[test]
fn blank_characters_give_state_equal_to_empty() {
    let gol: GoL = ". .\n.. ".build_gol().unwrap();

    assert_eq!(GoL::empty(2, 3), gol);
}

#[test]
fn cell_live_exactly_when_character_is_not_dot_or_space() {
    let gol: GoL = "..*.\n.+..\n....\n..**\n++..".build_gol().unwrap();

    let lines = ["..*.", ".+..", "....", "..**", "++.."];
    for (row, line) in lines.iter().enumerate() {
        for (col, c) in line.chars().enumerate() {
            assert_eq!(c != '.' && c != ' ', gol.is_live(row, col));
        }
    }
}

#[test]
fn padding_beyond_a_short_line_is_dead() {
    let gol: GoL = "..*\n.+".build_gol().unwrap();

    assert_eq!(3, gol.cols);
    assert!(!gol.is_live(1, 2));
    assert!(gol.is_live(1, 1));
}

#[test]
fn reparsing_the_same_text_gives_an_equal_state() {
    let text = "..*\n.+\n.  .\n..**\n++  ";
    let first: GoL = text.build_gol().unwrap();
    let second: GoL = text.build_gol().unwrap();

    assert_eq!(first, second);
}

#[test]
fn trailing_newline_adds_no_row() {
    let gol: GoL = "*.\n".build_gol().unwrap();

    assert_eq!(1, gol.rows);
    assert_eq!(2, gol.cols);
    assert!(gol.is_live(0, 0));
    assert!(!gol.is_live(0, 1));
}

#[test]
fn carriage_return_before_newline_is_no_cell() {
    let gol: GoL = "*.\r\n.*".build_gol().unwrap();

    let expected = GoL::empty(2, 2).live(0, 0).live(1, 1);

    assert_eq!(expected, gol);
}

#[test]
fn carriage_return_inside_a_line_is_live() {
    let gol: GoL = ".\r.".build_gol().unwrap();

    assert_eq!(1, gol.rows);
    assert_eq!(3, gol.cols);
    assert!(gol.is_live(0, 1));
    assert!(!gol.is_live(0, 0));
}

#[test]
fn any_other_character_counts_as_live() {
    let gol: GoL = "xy\n@!".build_gol().unwrap();

    let expected = GoL::empty(2, 2).live(0, 0).live(0, 1).live(1, 0).live(1, 1);

    assert_eq!(expected, gol);
}

#[test]
fn empty_line_between_rows_is_all_dead() {
    let gol: GoL = "*\n\n*".build_gol().unwrap();

    let expected = GoL::empty(3, 1).live(0, 0).live(2, 0);

    assert_eq!(expected, gol);
}

#[test]
fn parsing_is_total_and_never_errors() {
    let parsed: Result<GoL, String> = "..*\n}{|\n\t\t".build_gol();

    assert!(parsed.is_ok());
}

#[test]
fn marking_a_cell_dead_removes_it() {
    let state = GoL::empty(2, 2).live(0, 1).live(1, 0).dead(0, 1);

    assert!(!state.is_live(0, 1));
    assert!(state.is_live(1, 0));
    assert_eq!(GoL::empty(2, 2).live(1, 0), state);
}

#[test]
fn building_from_a_string_value_matches_the_str_parse() {
    let owned: GoL = String::from("..*\n.+").build_gol().unwrap();
    let borrowed: GoL = "..*\n.+".build_gol().unwrap();

    assert_eq!(borrowed, owned);
}
