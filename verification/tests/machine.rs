use turing_machine::machine_turing::{
    Configuration, MachineTuring, MoveTo, MtError, Ribbon, StepFailure, Transition,
    TransitionTable,
};

/// The binary-increment machine: tape `0,1,1,1`, rightmost bit least
/// significant once the head has walked to the end.
fn create_mt() -> MachineTuring {
    let ribbon = Ribbon::from(vec!["0", "1", "1", "1"]);
    let final_states = vec!["start", "accept", "reject", "right", "add"];
    let init_state = String::from("start");
    let mut transitions = TransitionTable::new();
    transitions.insert(
        String::from("start"),
        vec![
            Transition::from("", "", MoveTo::Stay, "reject"),
            Transition::from("0", "0", MoveTo::Right, "right"),
        ],
    );
    transitions.insert(
        String::from("right"),
        vec![
            Transition::from("1", "1", MoveTo::Right, "right"),
            Transition::from("0", "0", MoveTo::Right, "right"),
            Transition::from("", "", MoveTo::Left, "add"),
        ],
    );
    transitions.insert(
        String::from("add"),
        vec![
            Transition::from("0", "1", MoveTo::Stay, "accept"),
            Transition::from("1", "0", MoveTo::Left, "add"),
            Transition::from("", "1", MoveTo::Stay, "accept"),
        ],
    );
    MachineTuring::new(Configuration::new(ribbon, init_state), final_states, transitions)
}

fn tape_of(mt: &MachineTuring) -> Vec<String> {
    let ribbon = mt.configuration.get_ribbon();
    let mut cells: Vec<String> = Vec::new();
    let mut i = 0;
    while i < ribbon.len() {
        cells.push(ribbon.symbol_at(i).clone());
        i += 1;
    }
    cells
}

#[test]
fn test_run() {
    let mut mt = create_mt();
    match mt.run() {
        Ok(_) => println!("Successfully run the MT :\n{:?}", mt.configuration.get_ribbon()),
        Err(_) => println!("Error when run the MT :\n{:?}", mt.configuration.get_ribbon()),
    }
}

#[test]
fn test_run_limit() {
    let mut mt = create_mt();
    match mt.run_with_limit(10) {
        Ok(_) => println!("Successfully run the MT :\n{:?}", mt.configuration.get_ribbon()),
        Err(_) => println!("Error when run the MT :\n{:?}", mt.configuration.get_ribbon()),
    }
}

#[test]
fn unary_increment_scenario() {
    let mut mt = create_mt();
    assert!(mt.run().is_ok());
    assert_eq!(mt.configuration.get_current_state(), "accept");
    assert_eq!(tape_of(&mt), vec!["1", "0", "0", "0", ""]);
    assert_eq!(mt.configuration.get_ribbon().head_position(), 0);
}

#[test]
fn run_with_limit_counts_steps() {
    let mut mt = create_mt();
    assert!(mt.run_with_limit(10).is_ok());
    assert_eq!(mt.step, 9);
    assert_eq!(mt.configuration.get_current_state(), "accept");
    assert_eq!(tape_of(&mt), vec!["1", "0", "0", "0", ""]);
}

#[test]
fn run_with_limit_zero_applies_nothing() {
    let mut mt = create_mt();
    let verdict = mt.run_with_limit(0);
    // "start" is listed among the final states, so the untouched initial
    // state is accepted.
    assert!(verdict.is_ok());
    assert_eq!(mt.step, 0);
    assert_eq!(mt.configuration.get_current_state(), "start");
    assert_eq!(tape_of(&mt), vec!["0", "1", "1", "1"]);
}

#[test]
fn run_with_limit_stops_at_budget() {
    let mut mt = create_mt();
    let verdict = mt.run_with_limit(2);
    // After two of the nine steps the machine stands in "right", which is
    // listed among the final states.
    assert!(verdict.is_ok());
    assert_eq!(mt.step, 2);
    assert_eq!(mt.configuration.get_current_state(), "right");
}

#[test]
fn duplicate_reads_first_listed_fires() {
    let build = || {
        let ribbon = Ribbon::from(vec!["0"]);
        let mut transitions = TransitionTable::new();
        transitions.insert(
            String::from("start"),
            vec![
                Transition::from("0", "A", MoveTo::Stay, "done"),
                Transition::from("0", "B", MoveTo::Stay, "done"),
            ],
        );
        MachineTuring::new(
            Configuration::new(ribbon, String::from("start")),
            vec!["done"],
            transitions,
        )
    };
    let mut first = build();
    assert!(first.run().is_ok());
    assert_eq!(tape_of(&first), vec!["A"]);
    assert_eq!(first.configuration.get_current_state(), "done");
    // A second run over the same data takes the same course.
    let mut second = build();
    assert!(second.run().is_ok());
    assert_eq!(tape_of(&second), tape_of(&first));
    assert_eq!(
        second.configuration.get_current_state(),
        first.configuration.get_current_state()
    );
}

#[test]
fn move_left_at_origin_fails_without_mutation() {
    let mut ribbon = Ribbon::from(vec!["x", "y"]);
    assert!(matches!(ribbon.left(), Err(MtError::OutOfBounds)));
    assert_eq!(ribbon.head_position(), 0);
    assert_eq!(ribbon.len(), 2);
    assert_eq!(ribbon.get().as_str(), "x");
}

#[test]
fn move_right_grows_by_one_blank_at_end() {
    let mut ribbon = Ribbon::from(vec!["a"]);
    ribbon.right();
    ribbon.right();
    ribbon.right();
    assert_eq!(ribbon.len(), 4);
    assert_eq!(ribbon.head_position(), 3);
    assert_eq!(ribbon.get().as_str(), "");
    assert_eq!(ribbon.symbol_at(0).as_str(), "a");
    assert_eq!(ribbon.symbol_at(1).as_str(), "");
}

#[test]
fn get_set_work_at_head() {
    let mut ribbon = Ribbon::from(vec!["a", "b"]);
    assert_eq!(ribbon.get().as_str(), "a");
    ribbon.set(String::from("z"));
    assert_eq!(ribbon.get().as_str(), "z");
    ribbon.right();
    assert_eq!(ribbon.get().as_str(), "b");
    assert!(ribbon.left().is_ok());
    assert_eq!(ribbon.get().as_str(), "z");
}

#[test]
fn get_mut_ribbon_gives_the_tape() {
    let mut conf = Configuration::new(Ribbon::from(vec!["a"]), String::from("s"));
    conf.get_mut_ribbon().set(String::from("b"));
    assert_eq!(conf.get_ribbon().get().as_str(), "b");
}

#[test]
fn update_without_match_reports_stuck() {
    let ribbon = Ribbon::from(vec!["1"]);
    let mut conf = Configuration::new(ribbon, String::from("s"));
    let rules = vec![Transition::from("0", "0", MoveTo::Stay, "s")];
    assert!(matches!(conf.update(rules), Err(StepFailure::NoMatch)));
    assert_eq!(conf.get_current_state(), "s");
    assert_eq!(conf.get_ribbon().get().as_str(), "1");
}

#[test]
fn update_left_at_origin_reports_out_of_bounds() {
    let ribbon = Ribbon::from(vec!["1"]);
    let mut conf = Configuration::new(ribbon, String::from("s"));
    let rules = vec![Transition::from("1", "0", MoveTo::Left, "s")];
    assert!(matches!(conf.update(rules), Err(StepFailure::OutOfBounds)));
    // The fault leaves the configuration untouched.
    assert_eq!(conf.get_ribbon().get().as_str(), "1");
    assert_eq!(conf.get_current_state(), "s");
}

#[test]
fn run_surfaces_out_of_bounds() {
    let ribbon = Ribbon::from(vec!["1"]);
    let mut transitions = TransitionTable::new();
    transitions.insert(
        String::from("start"),
        vec![Transition::from("1", "1", MoveTo::Left, "start")],
    );
    let mut mt = MachineTuring::new(
        Configuration::new(ribbon, String::from("start")),
        vec!["start"],
        transitions,
    );
    assert!(matches!(mt.run(), Err(MtError::OutOfBounds)));
}

#[test]
fn unknown_state_halts_with_rejection() {
    let ribbon = Ribbon::from(vec!["1"]);
    let mut transitions = TransitionTable::new();
    transitions.insert(
        String::from("start"),
        vec![Transition::from("1", "1", MoveTo::Stay, "mystery")],
    );
    let mut mt = MachineTuring::new(
        Configuration::new(ribbon, String::from("start")),
        vec!["accept"],
        transitions,
    );
    // "mystery" has no table entry and is no final state: a rejection,
    // never a crash.
    assert!(matches!(mt.run(), Err(MtError::HaltRejected)));
    assert_eq!(mt.configuration.get_current_state(), "mystery");
}

#[test]
fn state_without_entry_halts_immediately() {
    let ribbon = Ribbon::from(vec!["1"]);
    let mut mt = MachineTuring::new(
        Configuration::new(ribbon, String::from("lost")),
        vec!["accept"],
        TransitionTable::new(),
    );
    assert!(mt.get_transitions().is_none());
    assert!(matches!(mt.run(), Err(MtError::HaltRejected)));
}

#[test]
fn get_transitions_clones_the_rules() {
    let mt = create_mt();
    let rules = mt.get_transitions().expect("start has rules");
    assert_eq!(rules.len(), 2);
}

#[test]
fn check_final_state_scans_the_names() {
    let ribbon = Ribbon::from(vec!["1"]);
    let mt = MachineTuring::new(
        Configuration::new(ribbon, String::from("b")),
        vec!["a", "b"],
        TransitionTable::new(),
    );
    assert!(mt.check_final_state().is_ok());
}

#[test]
fn table_insert_replaces_an_entry() {
    let mut transitions = TransitionTable::new();
    transitions.insert(
        String::from("s"),
        vec![Transition::from("0", "A", MoveTo::Stay, "done")],
    );
    transitions.insert(
        String::from("s"),
        vec![Transition::from("0", "B", MoveTo::Stay, "done")],
    );
    let ribbon = Ribbon::from(vec!["0"]);
    let mut mt = MachineTuring::new(
        Configuration::new(ribbon, String::from("s")),
        vec!["done"],
        transitions,
    );
    assert!(mt.run().is_ok());
    assert_eq!(mt.configuration.get_ribbon().get().as_str(), "B");
}
