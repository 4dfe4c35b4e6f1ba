use vstd::prelude::*;
use vstd::string::StringExecFns;

verus! {

/// The banner shown above every menu of the terminal front end.
pub const ASCII_ART: &'static str = "██████╗  █████╗ ████████╗██╗  ██╗███████╗██╗███╗   ██╗██████╗ ███████╗██████╗
██╔══██╗██╔══██╗╚══██╔══╝██║  ██║██╔════╝██║████╗  ██║██╔══██╗██╔════╝██╔══██╗
██████╔╝███████║   ██║   ███████║█████╗  ██║██╔██╗ ██║██║  ██║█████╗  ██████╔╝
██╔═══╝ ██╔══██║   ██║   ██╔══██║██╔══╝  ██║██║╚██╗██║██║  ██║██╔══╝  ██╔══██╗
██║     ██║  ██║   ██║   ██║  ██║██║     ██║██║ ╚████║██████╔╝███████╗██║  ██║
╚═╝     ╚═╝  ╚═╝   ╚═╝   ╚═╝  ╚═╝╚═╝     ╚═╝╚═╝  ╚═══╝╚═════╝ ╚══════╝╚═╝  ╚═╝";

/// The menu screens of the terminal front end.
#[derive(PartialEq, Eq, Structural, Clone, Copy, Debug)]
pub enum MenuState {
    MainMenu,
    AlgorithmMenu,
    MazeMenu,
    SettingsMenu,
}

/// The key presses that drive the menus, as plain values; the
/// surrounding application translates whatever its terminal reports
/// into one of these.
#[derive(PartialEq, Eq, Structural, Clone, Copy, Debug)]
pub enum KeyInput {
    ArrowUp,
    ArrowDown,
    Enter,
    Other,
}

/// The options offered on each menu screen.
pub fn menu_options(state: &MenuState) -> (r: Vec<String>)
    ensures
        state matches MenuState::MainMenu ==> r@.len() == 4 && r@[0]@ == "Test algorithms"@
            && r@[1]@ == "Generate a random maze"@ && r@[2]@ == "Settings"@ && r@[3]@ == "Exit"@,
        state matches MenuState::AlgorithmMenu ==> r@.len() == 5 && r@[0]@ == "Back"@ && r@[1]@
            == "A*"@ && r@[2]@ == "Dijkstra's"@ && r@[3]@ == "DFS"@ && r@[4]@ == "BFS"@,
        state matches MenuState::MazeMenu ==> r@.len() == 3 && r@[0]@ == "Back"@ && r@[1]@
            == "Random DFS Maze"@ && r@[2]@ == "Prims Maze"@,
        state matches MenuState::SettingsMenu ==> r@.len() == 1 && r@[0]@ == "Back"@,
{
    let mut r: Vec<String> = Vec::new();
    match state {
        MenuState::MainMenu => {
            r.push("Test algorithms".to_owned());
            r.push("Generate a random maze".to_owned());
            r.push("Settings".to_owned());
            r.push("Exit".to_owned());
        },
        MenuState::AlgorithmMenu => {
            r.push("Back".to_owned());
            r.push("A*".to_owned());
            r.push("Dijkstra's".to_owned());
            r.push("DFS".to_owned());
            r.push("BFS".to_owned());
        },
        MenuState::MazeMenu => {
            r.push("Back".to_owned());
            r.push("Random DFS Maze".to_owned());
            r.push("Prims Maze".to_owned());
        },
        MenuState::SettingsMenu => {
            r.push("Back".to_owned());
        },
    }
    r
}

/// Whether the given key press on the given menu state quits the
/// program: Enter on an empty menu stack, or Enter on the last
/// option of the main menu.
pub open spec fn menu_exit(key: KeyInput, sel: int, stack: Seq<MenuState>) -> bool {
    key == KeyInput::Enter && (stack.len() == 0 || (stack.last() == MenuState::MainMenu && sel
        == 3))
}

/// The menu stack after the given key press: Enter on a main-menu
/// option descends into the matching submenu, Enter on a submenu's
/// Back option (or anywhere on the settings screen) ascends, and
/// everything else leaves the stack alone.
pub open spec fn menu_next_stack(key: KeyInput, sel: int, stack: Seq<MenuState>) -> Seq<MenuState> {
    if key != KeyInput::Enter || stack.len() == 0 {
        stack
    } else {
        match stack.last() {
            MenuState::MainMenu => if sel == 0 {
                stack.push(MenuState::AlgorithmMenu)
            } else if sel == 1 {
                stack.push(MenuState::MazeMenu)
            } else if sel == 2 {
                stack.push(MenuState::SettingsMenu)
            } else {
                stack
            },
            MenuState::AlgorithmMenu => if sel == 0 {
                stack.drop_last()
            } else {
                stack
            },
            MenuState::MazeMenu => if sel == 0 {
                stack.drop_last()
            } else {
                stack
            },
            MenuState::SettingsMenu => stack.drop_last(),
        }
    }
}

/// The highlighted option after the given key press: the arrows move
/// it within bounds, Enter resets it (unless the press quits), and
/// any other key leaves it alone.
pub open spec fn menu_next_selection(key: KeyInput, sel: int, menu_len: int, stack: Seq<MenuState>) -> int {
    match key {
        KeyInput::ArrowUp => if sel > 0 {
            sel - 1
        } else {
            sel
        },
        KeyInput::ArrowDown => if sel < menu_len - 1 {
            sel + 1
        } else {
            sel
        },
        KeyInput::Enter => if menu_exit(key, sel, stack) {
            sel
        } else {
            0
        },
        KeyInput::Other => sel,
    }
}

/// Applies one key press to the menu navigation state, exactly as
/// the spec functions above describe it, and reports whether the
/// press quits the program.
pub fn handle_simulated_key_input(key: KeyInput, selected_index: &mut usize, menu_len: usize, menu_stack: &mut Vec<MenuState>) -> (exit: bool)
    requires
        menu_len >= 1,
    ensures
        exit == menu_exit(key, *old(selected_index) as int, old(menu_stack)@),
        final(menu_stack)@ == menu_next_stack(key, *old(selected_index) as int, old(menu_stack)@),
        *final(selected_index) as int == menu_next_selection(
            key,
            *old(selected_index) as int,
            menu_len as int,
            old(menu_stack)@,
        ),
{
    match key {
        KeyInput::ArrowUp => {
            if *selected_index > 0 {
                *selected_index = *selected_index - 1;
            }
            false
        },
        KeyInput::ArrowDown => {
            if *selected_index < menu_len - 1 {
                *selected_index = *selected_index + 1;
            }
            false
        },
        KeyInput::Enter => {
            if menu_stack.len() == 0 {
                return true;
            }
            let top = menu_stack[menu_stack.len() - 1];
            match top {
                MenuState::MainMenu => {
                    if *selected_index == 0 {
                        menu_stack.push(MenuState::AlgorithmMenu);
                    } else if *selected_index == 1 {
                        menu_stack.push(MenuState::MazeMenu);
                    } else if *selected_index == 2 {
                        menu_stack.push(MenuState::SettingsMenu);
                    } else if *selected_index == 3 {
                        return true;
                    }
                },
                MenuState::AlgorithmMenu => {
                    if *selected_index == 0 {
                        menu_stack.pop();
                    }
                },
                MenuState::MazeMenu => {
                    if *selected_index == 0 {
                        menu_stack.pop();
                    }
                },
                MenuState::SettingsMenu => {
                    menu_stack.pop();
                },
            }
            *selected_index = 0;
            false
        },
        KeyInput::Other => false,
    }
}

/// The lines a menu screen prints for its options: every option on
/// its own line, the highlighted one marked with an arrow.
pub fn menu_lines(menu: &Vec<String>, selected_index: usize) -> (r: Vec<String>)
    ensures
        r@.len() == menu@.len(),
        forall|i: int|
            0 <= i < menu@.len() ==> (#[trigger] r@[i])@ == (if i == selected_index {
                "> "@
            } else {
                "  "@
            }) + menu@[i]@,
{
    let mut r: Vec<String> = Vec::new();
    let mut i: usize = 0;
    while i < menu.len()
        invariant
            i <= menu@.len(),
            r@.len() == i,
            forall|j: int|
                0 <= j < i ==> (#[trigger] r@[j])@ == (if j == selected_index {
                    "> "@
                } else {
                    "  "@
                }) + menu@[j]@,
        decreases menu@.len() - i,
    {
        if i == selected_index {
            r.push("> ".to_owned().concat(menu[i].as_str()));
        } else {
            r.push("  ".to_owned().concat(menu[i].as_str()));
        }
        i = i + 1;
    }
    r
}

} // verus!
