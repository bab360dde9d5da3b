use turing_machine::loader::LoadError;
use turing_machine::machine_turing::{Configuration, MachineTuring, MtError, Ribbon};

/// The binary-increment machine of the other test file, as a description
/// text.
fn increment_script() -> String {
    [
        "start",
        "start,accept,reject,right,add",
        "0,1,1,1",
        "start,,reject,,-",
        "start,0,right,0,>",
        "right,1,right,1,>",
        "right,0,right,0,>",
        "right,,add,,<",
        "add,0,accept,1,-",
        "add,1,add,0,<",
        "add,,accept,1,-",
    ]
    .join("\n")
}

fn tape_of(mt: &MachineTuring) -> Vec<String> {
    let ribbon = mt.configuration.get_ribbon();
    let mut cells: Vec<String> = Vec::new();
    let mut i = 0;
    while i < ribbon.len() {
        cells.push(ribbon.symbol_at(i).clone());
        i += 1;
    }
    cells
}

#[test]
fn load_and_run_script() {
    let mut mt = MachineTuring::from_text(&increment_script()).expect("script loads");
    assert_eq!(mt.configuration.get_current_state(), "start");
    assert_eq!(tape_of(&mt), vec!["0", "1", "1", "1"]);
    assert!(mt.run_with_limit(10).is_ok());
    assert_eq!(mt.configuration.get_current_state(), "accept");
    assert_eq!(tape_of(&mt), vec!["1", "0", "0", "0", ""]);
}

#[test]
fn blank_lines_are_skipped() {
    let text = "\n\nstart\n\nstart\n0\n\nstart,0,start,1,-\n\n";
    let mut mt = MachineTuring::from_text(text).expect("script loads");
    assert!(mt.run_with_limit(5).is_ok());
    assert_eq!(tape_of(&mt), vec!["1"]);
    assert_eq!(mt.step, 1);
}

#[test]
fn final_state_names_are_trimmed() {
    let text = "go\n ok ,\tdone\n0\ngo,0,done,0,-";
    let mut mt = MachineTuring::from_text(text).expect("script loads");
    assert!(mt.run_with_limit(5).is_ok());
    assert_eq!(mt.configuration.get_current_state(), "done");
}

#[test]
fn empty_fields_denote_the_blank_symbol() {
    let text = "go\ndone\n,1\ngo,,done,1,>";
    let mut mt = MachineTuring::from_text(text).expect("script loads");
    assert!(mt.run_with_limit(5).is_ok());
    assert_eq!(tape_of(&mt), vec!["1", "1"]);
}

#[test]
fn bad_movement_token_is_a_fatal_parse_error() {
    let text = "start\naccept\n0\nstart,0,accept,0,x";
    match MachineTuring::from_text(text) {
        Err(LoadError::BadMovement(token)) => assert_eq!(token, "x"),
        other => panic!("expected a bad-movement error, got {:?}", other),
    }
}

#[test]
fn short_transition_line_is_rejected() {
    let text = "start\naccept\n0\nstart,0,accept";
    assert!(matches!(
        MachineTuring::from_text(text),
        Err(LoadError::MissingFields)
    ));
}

#[test]
fn truncated_script_is_rejected() {
    assert!(matches!(
        MachineTuring::from_text("start\naccept"),
        Err(LoadError::MissingLines)
    ));
}

#[test]
fn loading_and_running_is_deterministic() {
    let script = increment_script();
    let mut first = MachineTuring::from_text(&script).expect("script loads");
    let mut second = MachineTuring::from_text(&script).expect("script loads");
    let v1 = first.run_with_limit(100);
    let v2 = second.run_with_limit(100);
    assert_eq!(v1.is_ok(), v2.is_ok());
    assert_eq!(tape_of(&first), tape_of(&second));
    assert_eq!(
        first.configuration.get_current_state(),
        second.configuration.get_current_state()
    );
    assert_eq!(first.step, second.step);
}

#[test]
fn later_transitions_for_one_state_keep_their_order() {
    // Two rules for "s" read the same symbol; the first listed fires.
    let text = "s\ndone\n0\ns,0,done,A,-\ns,0,done,B,-";
    let mut mt = MachineTuring::from_text(text).expect("script loads");
    assert!(mt.run_with_limit(5).is_ok());
    assert_eq!(tape_of(&mt), vec!["A"]);
}

#[test]
fn load_and_run_config_replaces_the_configuration() {
    let mut mt = MachineTuring::from_text(&increment_script()).expect("script loads");
    let fresh = Configuration::new(Ribbon::from(vec!["0", "1"]), String::from("start"));
    let verdict = turing_machine::machine_turing::load_and_run_config(&mut mt, fresh, 10);
    assert!(verdict.is_ok());
    assert_eq!(mt.configuration.get_current_state(), "accept");
    assert_eq!(tape_of(&mt), vec!["1", "0", ""]);
}

#[test]
fn out_of_bounds_is_surfaced_from_a_script() {
    // The single rule walks left at the origin.
    let text = "s\ns\n0\ns,0,s,0,<";
    let mut mt = MachineTuring::from_text(text).expect("script loads");
    assert!(matches!(mt.run(), Err(MtError::OutOfBounds)));
}
