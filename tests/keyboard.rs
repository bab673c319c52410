use keyboard_madness::{Keyboard, Position, KEYS};

fn keyboard_at(position: Position) -> Keyboard {
    Keyboard {
        keyboard_layout: KEYS,
        position,
        selected_keys: vec![],
    }
}

#[test]
fn test_should_select_the_starting_points_key() {
    let mut keyboard = keyboard_at((4, 2));

    keyboard.run("S");

    assert_eq!(keyboard.render(), "G");
}

#[test]
fn test_should_select_the_first_letter_to_the_left_of_the_starting_point() {
    let mut keyboard = keyboard_at((4, 2));

    keyboard.run("L,S");

    assert_eq!(keyboard.render(), "F");
}

#[test]
fn test_should_select_the_third_letter_to_the_left_of_the_starting_point() {
    let mut keyboard = keyboard_at((4, 2));

    keyboard.run("L:3,S");

    assert_eq!(keyboard.render(), "S");
}

#[test]
fn test_should_select_the_first_letter_to_the_right_of_the_starting_point() {
    let mut keyboard = keyboard_at((4, 2));

    keyboard.run("R,S");

    assert_eq!(keyboard.render(), "H");
}

#[test]
fn test_should_select_the_third_letter_to_the_right_of_the_starting_point() {
    let mut keyboard = keyboard_at((4, 2));

    keyboard.run("R:3,S");

    assert_eq!(keyboard.render(), "K");
}

#[test]
fn test_should_select_the_letter_above_of_the_starting_point() {
    let mut keyboard = keyboard_at((4, 2));

    keyboard.run("U,S");

    assert_eq!(keyboard.render(), "T");
}

#[test]
fn test_should_select_letter_below_of_the_starting_point() {
    let mut keyboard = keyboard_at((4, 2));

    keyboard.run("D,S");

    assert_eq!(keyboard.render(), "B");
}

#[test]
fn test_should_add_a_space_into_the_selected_keys() {
    let mut keyboard = keyboard_at((4, 2));

    keyboard.run("S,_,S");

    assert_eq!(keyboard.render(), "G G");
}

#[test]
fn test_should_add_a_new_line_into_the_selected_keys() {
    let mut keyboard = keyboard_at((4, 2));

    keyboard.run("S,N,S");

    assert_eq!(keyboard.render(), "G\nG");
}

#[test]
fn test_should_ignore_any_unknown_instructions() {
    let mut keyboard = keyboard_at((4, 2));

    keyboard.run("S,Testing,Testing,Testing,S");

    assert_eq!(keyboard.render(), "GG");
}

#[test]
fn test_should_select_the_correct_keys() {
    let starting_position: Position = (4, 2);
    let mut keyboard = keyboard_at(starting_position);

    keyboard.run("R,S,R:2,U,S");
    assert_eq!(keyboard.render(), "HI");
    keyboard.clear();
    keyboard.update_position(starting_position);

    keyboard.run("R,S,U,L:3,S,D,R:6,S,S,U,S");
    assert_eq!(keyboard.render(), "HELLO");
    keyboard.clear();
    keyboard.update_position(starting_position);

    keyboard.run("L:3,S,U,R:5,S,R:3,S,D:2,S");
    assert_eq!(keyboard.render(), "SUP?");
    keyboard.clear();
    keyboard.update_position(starting_position);

    keyboard.run("R,S,L,U,S,S,R:5,S,_,U:1,L:6,S,R:6,S,L:6,S");
    assert_eq!(keyboard.render(), "HTTP 404");
}

#[test]
fn test_generate_instructions_hello() {
    let starting_position: Position = (4, 2);
    let keyboard = keyboard_at(starting_position);
    let instructions = keyboard.generate_instructions("HELLO");

    assert_eq!(instructions, "R:1,S,L:3,U:1,S,R:6,D:1,S,S,U:1,S");
}

#[test]
fn test_generate_instructions_and_run_them() {
    let starting_position: Position = (4, 2);
    let text = "THIS IS A TEST";
    let mut keyboard = keyboard_at(starting_position);
    let instructions = keyboard.generate_instructions(text);

    keyboard.run(&instructions);
    assert_eq!(keyboard.render(), text);
}
