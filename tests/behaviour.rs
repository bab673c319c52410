use keyboard_madness::{find_position, Instruction, Keyboard, Position, KEYS};

fn keyboard_at(position: Position) -> Keyboard {
    Keyboard::new(KEYS, position)
}

fn typed(start: Position, instructions: &str) -> String {
    let mut keyboard = keyboard_at(start);
    keyboard.run(instructions);
    keyboard.render()
}

#[test]
fn new_wraps_the_starting_position() {
    let keyboard = keyboard_at((14, 6));
    assert_eq!(keyboard.position, (4, 2));
    assert_eq!(keyboard.render(), "");
}

#[test]
fn whole_turns_around_the_grid_change_nothing() {
    let mut keyboard = keyboard_at((0, 0));
    keyboard.update_position((4 + 10 * 3, 2 + 4 * 3));
    assert_eq!(keyboard.position, (4, 2));
    keyboard.update_position((7 + 10 * 100, 1 + 4 * 100));
    assert_eq!(keyboard.position, (7, 1));
}

#[test]
fn moving_left_from_the_first_column_wraps() {
    assert_eq!(typed((0, 2), "L,S"), ";");
}

#[test]
fn moving_up_from_the_first_row_wraps() {
    assert_eq!(typed((4, 0), "U,S"), "B");
}

#[test]
fn moving_down_from_the_last_row_wraps() {
    assert_eq!(typed((4, 3), "D,S"), "5");
}

#[test]
fn counts_larger_than_the_grid_wrap_modularly() {
    assert_eq!(typed((4, 2), "L:23,S"), "S");
    assert_eq!(typed((4, 2), "R:16,S"), "A");
    assert_eq!(typed((4, 2), "U:9,S"), "T");
    assert_eq!(typed((4, 2), "D:6,S"), "5");
}

#[test]
fn a_count_that_does_not_fit_falls_back_to_one() {
    assert_eq!(typed((4, 2), "R:99999999999999999999999,S"), "H");
}

#[test]
fn an_empty_count_falls_back_to_one() {
    assert_eq!(typed((4, 2), "R:,S"), "H");
}

#[test]
fn a_count_with_other_characters_makes_the_token_unknown() {
    assert_eq!(typed((4, 2), "R:x,S"), "G");
    assert_eq!(typed((4, 2), "R:1x,S"), "G");
    assert_eq!(typed((4, 2), "R1,S"), "G");
    assert_eq!(typed((4, 2), "r,S"), "G");
}

#[test]
fn a_count_on_select_is_ignored() {
    assert_eq!(typed((4, 2), "S:5"), "G");
    assert_eq!(typed((4, 2), "_:2,N:3"), " \n");
}

#[test]
fn empty_tokens_do_nothing() {
    assert_eq!(typed((4, 2), ""), "");
    assert_eq!(typed((4, 2), "S,"), "G");
    assert_eq!(typed((4, 2), ",,S,,"), "G");
}

#[test]
fn running_twice_appends() {
    let mut keyboard = keyboard_at((4, 2));
    keyboard.run("S");
    keyboard.run("R,S");
    assert_eq!(keyboard.render(), "GH");
    assert_eq!(keyboard.position, (5, 2));
}

#[test]
fn clear_empties_the_output_and_keeps_the_cursor() {
    let mut keyboard = keyboard_at((4, 2));
    keyboard.run("S,R,S");
    keyboard.clear();
    assert_eq!(keyboard.render(), "");
    assert_eq!(keyboard.position, (5, 2));
    keyboard.clear();
    assert_eq!(keyboard.render(), "");
}

#[test]
fn update_position_keeps_the_output() {
    let mut keyboard = keyboard_at((4, 2));
    keyboard.run("S");
    keyboard.update_position((0, 0));
    assert_eq!(keyboard.render(), "G");
    keyboard.run("S");
    assert_eq!(keyboard.render(), "G1");
}

#[test]
fn execute_applies_one_operation() {
    let mut keyboard = keyboard_at((4, 2));
    keyboard.execute(Instruction::Left(13));
    assert_eq!(keyboard.position, (1, 2));
    keyboard.execute(Instruction::Select);
    keyboard.execute(Instruction::Space);
    keyboard.execute(Instruction::Unknown);
    keyboard.execute(Instruction::NewLine);
    assert_eq!(keyboard.render(), "S \n");
}

#[test]
fn find_position_returns_the_first_occurrence() {
    assert_eq!(find_position(&KEYS, 'G'), Some((4, 2)));
    assert_eq!(find_position(&KEYS, '1'), Some((0, 0)));
    assert_eq!(find_position(&KEYS, '?'), Some((9, 3)));
    assert_eq!(find_position(&KEYS, 'g'), None);
    let mut layout = KEYS;
    layout[3][0] = 'A';
    assert_eq!(find_position(&layout, 'A'), Some((0, 2)));
}

#[test]
fn generate_skips_characters_that_are_not_on_the_grid() {
    let keyboard = keyboard_at((4, 2));
    assert_eq!(keyboard.generate_instructions("H~I"), "R:1,S,R:2,U:1,S");
    assert_eq!(keyboard.generate_instructions("~"), "");
}

#[test]
fn generate_for_empty_text_is_empty() {
    let keyboard = keyboard_at((4, 2));
    assert_eq!(keyboard.generate_instructions(""), "");
}

#[test]
fn generate_spaces_and_newlines() {
    let keyboard = keyboard_at((4, 2));
    assert_eq!(keyboard.generate_instructions(" \n"), "_,N");
    assert_eq!(keyboard.generate_instructions("G G"), "S,_,S");
}

#[test]
fn generate_uses_the_first_occurrence_of_repeated_keys() {
    let mut layout = KEYS;
    layout[3][9] = 'G';
    let keyboard = Keyboard::new(layout, (0, 0));
    assert_eq!(keyboard.generate_instructions("GG"), "R:4,D:2,S,S");
}

#[test]
fn generate_then_run_gives_back_every_key() {
    let text = "1234567890QWERTYUIOP ASDFGHJKL;\nZXCVBNM,.?";
    for start in [(0, 0), (4, 2), (9, 3)] {
        let mut keyboard = keyboard_at(start);
        let instructions = keyboard.generate_instructions(text);
        keyboard.run(&instructions);
        assert_eq!(keyboard.render(), text);
    }
}

#[test]
fn from_token_reads_codes_and_counts() {
    assert_eq!(Instruction::from_token("L"), Instruction::Left(1));
    assert_eq!(Instruction::from_token("U:12"), Instruction::Up(12));
    assert_eq!(Instruction::from_token("R:007"), Instruction::Right(7));
    assert_eq!(Instruction::from_token("D:"), Instruction::Down(1));
    assert_eq!(Instruction::from_token("D:18446744073709551615"), Instruction::Down(usize::MAX));
    assert_eq!(Instruction::from_token("D:18446744073709551616"), Instruction::Down(1));
    assert_eq!(Instruction::from_token("S"), Instruction::Select);
    assert_eq!(Instruction::from_token("N"), Instruction::NewLine);
    assert_eq!(Instruction::from_token("_"), Instruction::Space);
    assert_eq!(Instruction::from_token(""), Instruction::Unknown);
    assert_eq!(Instruction::from_token("X"), Instruction::Unknown);
    assert_eq!(Instruction::from_token("LL"), Instruction::Unknown);
    assert_eq!(Instruction::from_token(" L"), Instruction::Unknown);
    assert_eq!(Instruction::from_token("L:1 "), Instruction::Unknown);
    assert_eq!(Instruction::from_token("L:-1"), Instruction::Unknown);
}
