use rust_manager::discover::{find_projects, Entry, ManifestFile};
use rust_manager::project::{ProjectCollection, ProjectInfo};
use rust_manager::session::{
    display_project_details, display_projects, interrupt, missing_root, respond, State, PROMPT,
};

fn two_projects() -> ProjectCollection {
    let entries = vec![
        Entry {
            path: "/home/u/rust/beta".to_string(),
            is_dir: true,
            manifest: ManifestFile::Text(
                "[package]\nname = \"beta\"\ndescription = \"demo\"\n".to_string(),
            ),
        },
        Entry {
            path: "/home/u/rust/alpha".to_string(),
            is_dir: true,
            manifest: ManifestFile::Text("[package]\nname = \"alpha\"\n".to_string()),
        },
    ];
    find_projects("/home/u/rust", Some(entries)).projects
}

#[test]
fn prompt_text() {
    assert_eq!(PROMPT, "> ");
}

#[test]
fn listing_of_two_projects() {
    let step = display_projects(&two_projects());
    assert_eq!(
        step.lines,
        vec![
            "1. alpha - No description",
            "2. beta - demo",
            "Enter the number of the project to view details, or 'q' to quit:",
        ]
    );
    assert_eq!(step.state, State::AwaitingInput);
}

#[test]
fn listing_numbers_run_past_nine() {
    let mut c = ProjectCollection::new();
    let mut i = 0;
    while i < 12 {
        c.insert(ProjectInfo {
            name: format!("p{:02}", i),
            description: None,
            path: format!("/r/p{:02}", i),
        });
        i += 1;
    }
    let step = display_projects(&c);
    assert_eq!(step.lines.len(), 13);
    assert_eq!(step.lines[0], "1. p00 - No description");
    assert_eq!(step.lines[8], "9. p08 - No description");
    assert_eq!(step.lines[9], "10. p09 - No description");
    assert_eq!(step.lines[11], "12. p11 - No description");
}

#[test]
fn listing_of_no_project_ends_the_menu() {
    let step = display_projects(&ProjectCollection::new());
    assert_eq!(step.lines, vec!["No Rust projects found."]);
    assert_eq!(step.state, State::Exiting);
}

#[test]
fn listing_after_an_empty_search_ends_the_menu() {
    let found = find_projects("/home/u/rust", Some(vec![]));
    let step = display_projects(&found.projects);
    assert_eq!(step.lines, vec!["No Rust projects found."]);
    assert_eq!(step.state, State::Exiting);
}

#[test]
fn selecting_the_second_project_shows_its_details() {
    let step = respond(&two_projects(), "2\n");
    assert_eq!(
        step.lines,
        vec![
            "",
            "Project Details:",
            "Project Name: beta",
            "Description: demo",
            "Path: /home/u/rust/beta",
            "You can run this project from: /home/u/rust/beta/target/release",
        ]
    );
    assert!(step.lines[5].ends_with("beta/target/release"));
    assert_eq!(step.state, State::AwaitingInput);
}

#[test]
fn selecting_a_project_without_description_shows_the_placeholder() {
    let step = respond(&two_projects(), "1");
    assert_eq!(
        step.lines,
        vec![
            "",
            "Project Details:",
            "Project Name: alpha",
            "Description: No description",
            "Path: /home/u/rust/alpha",
            "You can run this project from: /home/u/rust/alpha/target/release",
        ]
    );
    assert_eq!(step.state, State::AwaitingInput);
}

#[test]
fn details_of_a_project() {
    let info = ProjectInfo {
        name: "tool".to_string(),
        description: Some("a tool".to_string()),
        path: "/work/tool/".to_string(),
    };
    assert_eq!(
        display_project_details(&info),
        vec![
            "",
            "Project Details:",
            "Project Name: tool",
            "Description: a tool",
            "Path: /work/tool/",
            "You can run this project from: /work/tool/target/release",
        ]
    );
}

#[test]
fn number_beyond_the_list_is_an_invalid_selection() {
    let projects = two_projects();
    let step = respond(&projects, "3");
    assert_eq!(step.lines, vec!["Invalid selection. Please enter a valid project number."]);
    assert_eq!(step.state, State::AwaitingInput);
    // the menu goes on: the next line is answered as usual
    let next = respond(&projects, "1");
    assert_eq!(next.lines[2], "Project Name: alpha");
    assert_eq!(next.state, State::AwaitingInput);
}

#[test]
fn zero_is_an_invalid_selection() {
    let step = respond(&two_projects(), "0\n");
    assert_eq!(step.lines, vec!["Invalid selection. Please enter a valid project number."]);
    assert_eq!(step.state, State::AwaitingInput);
}

#[test]
fn q_ends_the_menu_with_a_farewell() {
    let step = respond(&two_projects(), "q");
    assert_eq!(step.lines, vec!["Exiting program..."]);
    assert_eq!(step.state, State::Exiting);
    let step = respond(&two_projects(), " Q \n");
    assert_eq!(step.lines, vec!["Exiting program..."]);
    assert_eq!(step.state, State::Exiting);
}

#[test]
fn other_input_asks_for_a_number() {
    for input in ["", "\n", "abc", "1x", "-1", "2.0", "quit"] {
        let step = respond(&two_projects(), input);
        assert_eq!(step.lines, vec!["Please enter a valid number or 'q' to quit."], "{:?}", input);
        assert_eq!(step.state, State::AwaitingInput);
    }
}

#[test]
fn a_whole_session() {
    let projects = two_projects();
    let mut printed: Vec<String> = Vec::new();
    let mut prompts = 0;
    let mut step = display_projects(&projects);
    let mut inputs = vec!["7\n", "x\n", "2\n", "q\n", "1\n"].into_iter();
    loop {
        printed.extend(step.lines.iter().cloned());
        if step.state == State::Exiting {
            break;
        }
        prompts += 1;
        step = respond(&projects, inputs.next().unwrap());
    }
    assert_eq!(prompts, 4);
    assert_eq!(inputs.next(), Some("1\n"));
    assert_eq!(
        printed,
        vec![
            "1. alpha - No description",
            "2. beta - demo",
            "Enter the number of the project to view details, or 'q' to quit:",
            "Invalid selection. Please enter a valid project number.",
            "Please enter a valid number or 'q' to quit.",
            "",
            "Project Details:",
            "Project Name: beta",
            "Description: demo",
            "Path: /home/u/rust/beta",
            "You can run this project from: /home/u/rust/beta/target/release",
            "Exiting program...",
        ]
    );
}

#[test]
fn interrupt_ends_the_menu() {
    let step = interrupt();
    assert_eq!(step.lines, vec!["", "Program interrupted. Exiting..."]);
    assert_eq!(step.state, State::Exiting);
}

#[test]
fn missing_root_is_reported() {
    let step = missing_root();
    assert_eq!(step.lines, vec!["Sorry, no Rust projects found."]);
    assert_eq!(step.state, State::Exiting);
}
