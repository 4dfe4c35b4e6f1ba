use pathfinding_simulation::menu::{ASCII_ART, KeyInput, MenuState, handle_simulated_key_input, menu_lines, menu_options};

#[test]
fn test_main_menu_options() {
    let menu_options = vec!["Test algorithms", "Generate a random maze", "Settings", "Exit"];
    assert_eq!(menu_options.len(), 4);
    assert_eq!(menu_options[0], "Test algorithms");
    assert_eq!(menu_options[3], "Exit");
}

#[test]
fn test_algorithm_menu_options() {
    let menu_options = vec!["Back", "A*", "Dijkstra's", "DFS", "BFS"];
    assert_eq!(menu_options.len(), 5);
    assert_eq!(menu_options[1], "A*");
    assert_eq!(menu_options[4], "BFS");
}

#[test]
fn test_menu_stack_navigation() {
    let mut menu_stack: Vec<MenuState> = vec![MenuState::MainMenu];

    menu_stack.push(MenuState::AlgorithmMenu);
    assert_eq!(menu_stack.last(), Some(&MenuState::AlgorithmMenu));

    menu_stack.push(MenuState::MazeMenu);
    assert_eq!(menu_stack.last(), Some(&MenuState::MazeMenu));

    menu_stack.pop();
    assert_eq!(menu_stack.last(), Some(&MenuState::AlgorithmMenu));

    menu_stack.pop();
    assert_eq!(menu_stack.last(), Some(&MenuState::MainMenu));
}

#[test]
fn test_handle_key_input_navigation() {
    let mut selected_index = 0;
    let menu_len = 4;
    let mut menu_stack: Vec<MenuState> = vec![MenuState::MainMenu];

    // Simulate ArrowDown key press
    assert!(!handle_simulated_key_input(KeyInput::ArrowDown, &mut selected_index, menu_len, &mut menu_stack));
    assert_eq!(selected_index, 1);

    // Simulate ArrowUp key press
    assert!(!handle_simulated_key_input(KeyInput::ArrowUp, &mut selected_index, menu_len, &mut menu_stack));
    assert_eq!(selected_index, 0);

    // Simulate Enter key press on the first option (AlgorithmMenu)
    assert!(!handle_simulated_key_input(KeyInput::Enter, &mut selected_index, menu_len, &mut menu_stack));
    assert_eq!(menu_stack.last(), Some(&MenuState::AlgorithmMenu));

    // Simulate Back action to return to MainMenu
    selected_index = 0;
    assert!(!handle_simulated_key_input(KeyInput::Enter, &mut selected_index, menu_len, &mut menu_stack));
    assert_eq!(menu_stack.last(), Some(&MenuState::MainMenu));
}

#[test]
fn test_print_menu() {
    let menu_options = vec!["Option 1".to_owned(), "Option 2".to_owned(), "Option 3".to_owned()];
    let selected_index = 1;

    let lines = menu_lines(&menu_options, selected_index);

    assert_eq!(lines.len(), 3);
    assert_eq!(lines[0], "  Option 1");
    assert_eq!(lines[1], "> Option 2");
    assert_eq!(lines[2], "  Option 3");
}

#[test]
fn test_ascii_art_display() {
    // Check if ASCII_ART constant is non-empty and properly loaded
    assert!(!ASCII_ART.is_empty());
    assert!(ASCII_ART.contains("██████╗"));
}

#[test]
fn test_menu_state_transitions() {
    let mut menu_stack: Vec<MenuState> = vec![MenuState::MainMenu];

    // Transition to AlgorithmMenu
    menu_stack.push(MenuState::AlgorithmMenu);
    assert_eq!(menu_stack.last(), Some(&MenuState::AlgorithmMenu));

    // Transition to MazeMenu
    menu_stack.push(MenuState::MazeMenu);
    assert_eq!(menu_stack.last(), Some(&MenuState::MazeMenu));

    // Go back to AlgorithmMenu
    menu_stack.pop();
    assert_eq!(menu_stack.last(), Some(&MenuState::AlgorithmMenu));

    // Go back to MainMenu
    menu_stack.pop();
    assert_eq!(menu_stack.last(), Some(&MenuState::MainMenu));
}

#[test]
fn test_menu_options_lists() {
    let main = menu_options(&MenuState::MainMenu);
    assert_eq!(main, vec!["Test algorithms", "Generate a random maze", "Settings", "Exit"]);

    let algorithms = menu_options(&MenuState::AlgorithmMenu);
    assert_eq!(algorithms, vec!["Back", "A*", "Dijkstra's", "DFS", "BFS"]);

    let mazes = menu_options(&MenuState::MazeMenu);
    assert_eq!(mazes, vec!["Back", "Random DFS Maze", "Prims Maze"]);

    let settings = menu_options(&MenuState::SettingsMenu);
    assert_eq!(settings, vec!["Back"]);
}

#[test]
fn test_menu_exit_from_main_menu() {
    let mut selected_index = 3;
    let mut menu_stack: Vec<MenuState> = vec![MenuState::MainMenu];
    assert!(handle_simulated_key_input(KeyInput::Enter, &mut selected_index, 4, &mut menu_stack));
    assert_eq!(menu_stack, vec![MenuState::MainMenu]);
}

#[test]
fn test_menu_arrow_bounds() {
    let mut selected_index = 0;
    let mut menu_stack: Vec<MenuState> = vec![MenuState::MainMenu];
    assert!(!handle_simulated_key_input(KeyInput::ArrowUp, &mut selected_index, 4, &mut menu_stack));
    assert_eq!(selected_index, 0);
    selected_index = 3;
    assert!(!handle_simulated_key_input(KeyInput::ArrowDown, &mut selected_index, 4, &mut menu_stack));
    assert_eq!(selected_index, 3);
}
