//! The executable simulator: tape, transitions, configuration and machine.

use crate::model::{
    blank, budget, config_after, first_key_idx, first_match_idx, is_final_state,
    lemma_first_key_found, lemma_first_key_none, lemma_first_match_found, lemma_first_match_none,
    right_move, run_model, step_model, table_lookup, verdict, ConfigModel, MachineModel, RunEnd,
    StepModel, TableModel, TransModel,
};
use vstd::prelude::*;

verus! {

/// Head movement of a transition: one cell left, one cell right, or none.
#[derive(Debug)]
pub enum MoveTo {
    Right,
    Left,
    Stay,
}

impl Clone for MoveTo {
    fn clone(&self) -> (res: Self)
        ensures
            res == self,
    {
        match self {
            MoveTo::Right => MoveTo::Right,
            MoveTo::Left => MoveTo::Left,
            MoveTo::Stay => MoveTo::Stay,
        }
    }
}

/// Why a run stopped without acceptance.
#[derive(Debug)]
pub enum MtError {
    /// The machine halted and its state is not one of the final states.
    HaltRejected,
    /// A transition asked to move left while the head was at the origin.
    OutOfBounds,
}

/// Why a single step could not be applied.
#[derive(Debug)]
pub enum StepFailure {
    /// No rule in the list matches the symbol under the head.
    NoMatch,
    /// The matching rule asked to move left at the origin.
    OutOfBounds,
}

/// The tape: a sequence of symbols with a head index, growing rightward
/// on demand.  A symbol is a `String`; the empty string is the blank.
#[derive(Debug)]
pub struct Ribbon {
    head: usize,
    value: Vec<String>,
}

impl Ribbon {
    /// The head index, as ghost data.
    pub closed spec fn head_idx(self) -> int {
        self.head as int
    }

    /// The tape contents, as a sequence of character sequences.
    pub closed spec fn symbols(self) -> Seq<Seq<char>> {
        self.value.deep_view()
    }

    /// The head always points at an existing cell.
    pub open spec fn wf(self) -> bool {
        0 <= self.head_idx() < self.symbols().len()
    }

    /// The symbol under the head.
    pub open spec fn head_symbol(self) -> Seq<char> {
        self.symbols()[self.head_idx()]
    }

    /// A tape holding the given symbols, head at the origin.
    pub fn from(input: Vec<&str>) -> (r: Self)
        requires
            input@.len() > 0,
        ensures
            r.wf(),
            r.head_idx() == 0,
            r.symbols() == input.deep_view(),
    {
        let mut value: Vec<String> = Vec::new();
        let mut i: usize = 0;
        while i < input.len()
            invariant
                i <= input.len(),
                value@.len() == i,
                forall|k: int| 0 <= k < i ==> value@[k]@ == input@[k]@,
            decreases input.len() - i,
        {
            value.push(input[i].to_owned());
            i = i + 1;
        }
        assert(value.deep_view() =~= input.deep_view());
        Self { head: 0, value }
    }

    /// A tape owning the given symbols, head at the origin.
    pub fn from_symbols(value: Vec<String>) -> (r: Self)
        requires
            value@.len() > 0,
        ensures
            r.wf(),
            r.head_idx() == 0,
            r.symbols() == value.deep_view(),
    {
        Self { head: 0, value }
    }

    /// The number of cells on the tape.
    pub fn len(&self) -> (r: usize)
        ensures
            r == self.symbols().len(),
    {
        self.value.len()
    }

    /// The head index.
    pub fn head_position(&self) -> (r: usize)
        ensures
            r == self.head_idx(),
    {
        self.head
    }

    /// The symbol in cell `i`.
    pub fn symbol_at(&self, i: usize) -> (r: &String)
        requires
            i < self.symbols().len(),
        ensures
            r@ == self.symbols()[i as int],
    {
        &self.value[i]
    }

    /// The symbol under the head.
    pub fn get(&self) -> (r: &String)
        requires
            self.wf(),
        ensures
            r@ == self.head_symbol(),
    {
        &self.value[self.head]
    }

    /// Overwrite the symbol under the head.
    pub fn set(&mut self, new_value: String)
        requires
            old(self).wf(),
        ensures
            final(self).wf(),
            final(self).head_idx() == old(self).head_idx(),
            final(self).symbols() == old(self).symbols().update(
                old(self).head_idx(),
                new_value@,
            ),
    {
        let ghost prev = *self;
        self.value.set(self.head, new_value);
        assert(self.symbols() =~= prev.symbols().update(prev.head_idx(), new_value@));
    }

    /// Move the head one cell to the left.  At the origin there is no cell
    /// to the left: the move fails and the tape is untouched.
    pub fn left(&mut self) -> (r: Result<(), MtError>)
        requires
            old(self).wf(),
        ensures
            final(self).wf(),
            old(self).head_idx() == 0 ==> (r matches Err(MtError::OutOfBounds)) && *final(self)
                == *old(self),
            old(self).head_idx() > 0 ==> (r matches Ok(())) && final(self).symbols() == old(
                self,
            ).symbols() && final(self).head_idx() == old(self).head_idx() - 1,
    {
        if self.head == 0 {
            Err(MtError::OutOfBounds)
        } else {
            self.head = self.head - 1;
            Ok(())
        }
    }

    /// Move the head one cell to the right; if the head leaves the last
    /// cell, one blank cell is appended first.  The tape never shrinks and
    /// the head never moves backward here.
    pub fn right(&mut self)
        requires
            old(self).wf(),
        ensures
            final(self).wf(),
            final(self).head_idx() == old(self).head_idx() + 1,
            old(self).head_idx() == old(self).symbols().len() - 1 ==> final(self).symbols()
                == old(self).symbols().push(blank()),
            old(self).head_idx() < old(self).symbols().len() - 1 ==> final(self).symbols()
                == old(self).symbols(),
            final(self).symbols().len() >= old(self).symbols().len(),
            final(self).head_idx() > old(self).head_idx(),
            (final(self).head_idx(), final(self).symbols().len() as int) == right_move(
                old(self).head_idx(),
                old(self).symbols().len() as int,
            ),
    {
        let ghost prev = *self;
        if self.head == self.value.len() - 1 {
            self.value.push(String::new());
            self.head = self.head + 1;
            assert(self.symbols() =~= prev.symbols().push(blank()));
        } else {
            self.head = self.head + 1;
        }
    }
}

/// One transition rule: on reading `read` in the owning state, write
/// `write`, move the head by `movement`, and enter `futur_state`.
#[derive(Debug)]
pub struct Transition {
    read: String,
    write: String,
    movement: MoveTo,
    futur_state: String,
}

impl Transition {
    /// The rule as ghost data.
    pub closed spec fn model(self) -> TransModel {
        TransModel {
            read: self.read@,
            write: self.write@,
            movement: self.movement,
            next: self.futur_state@,
        }
    }

    /// Build a rule from its four fields.
    pub fn from(read: &str, write: &str, movement: MoveTo, futur_state: &str) -> (r: Self)
        ensures
            r.model() == (TransModel {
                read: read@,
                write: write@,
                movement: movement,
                next: futur_state@,
            }),
    {
        Self {
            read: read.to_owned(),
            write: write.to_owned(),
            movement,
            futur_state: futur_state.to_owned(),
        }
    }
}

impl Clone for Transition {
    fn clone(&self) -> (res: Self)
        ensures
            res.model() == self.model(),
    {
        Transition {
            read: self.read.clone(),
            write: self.write.clone(),
            movement: self.movement.clone(),
            futur_state: self.futur_state.clone(),
        }
    }
}

impl DeepView for Transition {
    type V = TransModel;

    open spec fn deep_view(&self) -> TransModel {
        self.model()
    }
}

/// The mutable simulation state: the tape and the current state name.
#[derive(Debug)]
pub struct Configuration {
    ribbon: Ribbon,
    current_state: String,
}

impl Configuration {
    /// The configuration as ghost data.
    pub closed spec fn model(self) -> ConfigModel {
        ConfigModel {
            head: self.ribbon.head_idx(),
            tape: self.ribbon.symbols(),
            state: self.current_state@,
        }
    }

    /// The tape is well formed.
    pub open spec fn wf(self) -> bool {
        self.model().wf()
    }

    /// A configuration over the given tape, starting in `current_state`.
    pub fn new(ribbon: Ribbon, current_state: String) -> (r: Self)
        ensures
            r.model() == (ConfigModel {
                head: ribbon.head_idx(),
                tape: ribbon.symbols(),
                state: current_state@,
            }),
    {
        Self { ribbon, current_state }
    }

    /// Read access to the tape.
    pub fn get_ribbon(&self) -> (r: &Ribbon)
        ensures
            r.head_idx() == self.model().head,
            r.symbols() == self.model().tape,
    {
        &self.ribbon
    }

    /// Mutable access to the tape.
    pub fn get_mut_ribbon(&mut self) -> (r: &mut Ribbon)
        ensures
            r.head_idx() == old(self).model().head,
            r.symbols() == old(self).model().tape,
            final(self).model() == (ConfigModel {
                head: (*final(r)).head_idx(),
                tape: (*final(r)).symbols(),
                state: old(self).model().state,
            }),
    {
        &mut self.ribbon
    }

    /// The current state name.
    pub fn get_current_state(&self) -> (r: String)
        ensures
            r@ == self.model().state,
    {
        self.current_state.clone()
    }

    /// Apply the first rule of `transitions` whose read symbol equals the
    /// symbol under the head.  With no matching rule the configuration is
    /// untouched; a matching rule that would move left at the origin is
    /// the out-of-bounds fault and also leaves the configuration untouched.
    pub fn update(&mut self, transitions: Vec<Transition>) -> (r: Result<(), StepFailure>)
        requires
            old(self).wf(),
        ensures
            final(self).wf(),
            ({
                let ts = transitions.deep_view();
                let k = first_match_idx(ts, old(self).model().head_symbol());
                &&& (k == -1 ==> (r matches Err(StepFailure::NoMatch)) && *final(self) == *old(
                    self,
                ))
                &&& (k != -1 && ts[k].movement is Left && old(self).model().head == 0 ==> (
                r matches Err(StepFailure::OutOfBounds)) && *final(self) == *old(self))
                &&& (k != -1 && !(ts[k].movement is Left && old(self).model().head == 0) ==> (
                r matches Ok(())) && final(self).model() == config_after(
                    old(self).model(),
                    ts[k],
                ))
            }),
    {
        let ghost ts = transitions.deep_view();
        let ghost sym = old(self).model().head_symbol();
        let mut i: usize = 0;
        while i < transitions.len()
            invariant
                *self == *old(self),
                old(self).wf(),
                i <= transitions.len(),
                ts == transitions.deep_view(),
                sym == old(self).model().head_symbol(),
                forall|j: int| 0 <= j < i ==> ts[j].read != sym,
            decreases transitions.len() - i,
        {
            if transitions[i].read == *self.ribbon.get() {
                proof {
                    assert(ts[i as int].read == sym);
                    lemma_first_match_found(ts, sym, i as int);
                }
                let is_left = matches!(transitions[i].movement, MoveTo::Left);
                if is_left && self.ribbon.head == 0 {
                    return Err(StepFailure::OutOfBounds);
                }
                self.ribbon.set(transitions[i].write.clone());
                match transitions[i].movement {
                    MoveTo::Left => {
                        match self.ribbon.left() {
                            Ok(()) => {},
                            Err(_) => {
                                proof {
                                    assert(false);
                                }
                            },
                        }
                    },
                    MoveTo::Right => {
                        self.ribbon.right();
                    },
                    MoveTo::Stay => {},
                }
                self.current_state = transitions[i].futur_state.clone();
                return Ok(());
            }
            i = i + 1;
        }
        proof {
            lemma_first_match_none(ts, sym);
        }
        Err(StepFailure::NoMatch)
    }
}

/// The transition table: state names paired with their ordered rule
/// lists.  Lookup takes the first entry with the name, so the table
/// behaves as a mapping when every insertion goes through its methods.
#[derive(Debug)]
pub struct TransitionTable {
    entries: Vec<(String, Vec<Transition>)>,
}

impl TransitionTable {
    /// The table as ghost data.
    pub closed spec fn model(self) -> TableModel {
        Seq::new(
            self.entries@.len(),
            |i: int| (self.entries@[i].0@, self.entries@[i].1.deep_view()),
        )
    }

    /// An empty table.
    pub fn new() -> (r: Self)
        ensures
            r.model() == Seq::<(Seq<char>, Seq<TransModel>)>::empty(),
    {
        let r = Self { entries: Vec::new() };
        proof {
            assert(r.model() =~= Seq::<(Seq<char>, Seq<TransModel>)>::empty());
        }
        r
    }

    /// Bind `state` to `rules`: an existing entry with that name is
    /// replaced, otherwise a new entry is appended.
    pub fn insert(&mut self, state: String, rules: Vec<Transition>)
        ensures
            ({
                let k = first_key_idx(old(self).model(), state@);
                if k == -1 {
                    final(self).model() == old(self).model().push((state@, rules.deep_view()))
                } else {
                    final(self).model() == old(self).model().update(
                        k,
                        (state@, rules.deep_view()),
                    )
                }
            }),
    {
        let ghost m0 = self.model();
        let mut i: usize = 0;
        while i < self.entries.len()
            invariant
                *self == *old(self),
                m0 == self.model(),
                i <= self.entries.len(),
                forall|j: int| 0 <= j < i ==> m0[j].0 != state@,
            decreases self.entries.len() - i,
        {
            if self.entries[i].0 == state {
                proof {
                    lemma_first_key_found(m0, state@, i as int);
                }
                self.entries.set(i, (state, rules));
                proof {
                    assert(self.model() =~= m0.update(i as int, (state@, rules.deep_view())));
                }
                return ;
            }
            i = i + 1;
        }
        proof {
            lemma_first_key_none(m0, state@);
        }
        self.entries.push((state, rules));
        proof {
            assert(self.model() =~= m0.push((state@, rules.deep_view())));
        }
    }

    /// Append one rule to the entry named `state`, creating the entry if
    /// there is none.  Order within the entry is kept: the new rule comes
    /// last, so earlier rules keep first-match priority.
    pub fn push_rule(&mut self, state: String, t: Transition)
        ensures
            ({
                let k = first_key_idx(old(self).model(), state@);
                if k == -1 {
                    final(self).model() == old(self).model().push((state@, seq![t.model()]))
                } else {
                    final(self).model() == old(self).model().update(
                        k,
                        (state@, old(self).model()[k].1.push(t.model())),
                    )
                }
            }),
    {
        let ghost m0 = self.model();
        let mut i: usize = 0;
        while i < self.entries.len()
            invariant
                *self == *old(self),
                m0 == self.model(),
                i <= self.entries.len(),
                forall|j: int| 0 <= j < i ==> m0[j].0 != state@,
            decreases self.entries.len() - i,
        {
            if self.entries[i].0 == state {
                proof {
                    lemma_first_key_found(m0, state@, i as int);
                }
                let (name, mut rules) = self.entries.remove(i);
                let ghost rv0 = rules.deep_view();
                rules.push(t);
                proof {
                    assert(rules.deep_view() =~= rv0.push(t.model()));
                }
                self.entries.insert(i, (name, rules));
                proof {
                    assert(rv0 == m0[i as int].1);
                    assert(self.model() =~= m0.update(
                        i as int,
                        (state@, m0[i as int].1.push(t.model())),
                    ));
                }
                return ;
            }
            i = i + 1;
        }
        proof {
            lemma_first_key_none(m0, state@);
        }
        let mut rules: Vec<Transition> = Vec::new();
        rules.push(t);
        proof {
            assert(rules.deep_view() =~= seq![t.model()]);
        }
        self.entries.push((state, rules));
        proof {
            assert(self.model() =~= m0.push((state@, seq![t.model()])));
        }
    }

    /// The rule list bound to `state`, if any.
    pub fn get(&self, state: &String) -> (r: Option<&Vec<Transition>>)
        ensures
            match r {
                Some(v) => table_lookup(self.model(), state@) == Some(v.deep_view()),
                None => table_lookup(self.model(), state@) is None,
            },
    {
        let ghost m = self.model();
        let mut i: usize = 0;
        while i < self.entries.len()
            invariant
                m == self.model(),
                i <= self.entries.len(),
                forall|j: int| 0 <= j < i ==> m[j].0 != state@,
            decreases self.entries.len() - i,
        {
            if self.entries[i].0 == *state {
                proof {
                    lemma_first_key_found(m, state@, i as int);
                }
                return Some(&self.entries[i].1);
            }
            i = i + 1;
        }
        proof {
            lemma_first_key_none(m, state@);
        }
        None
    }
}

/// The machine: a running configuration, the final state names, the
/// transition table, and a step counter used by the bounded run.
#[derive(Debug)]
pub struct MachineTuring {
    pub configuration: Configuration,
    pub final_states: Vec<String>,
    pub transitions: TransitionTable,
    pub step: u64,
}

impl MachineTuring {
    /// The machine as ghost data.
    pub open spec fn model(self) -> MachineModel {
        MachineModel {
            cfg: self.configuration.model(),
            finals: self.final_states.deep_view(),
            table: self.transitions.model(),
            step: self.step as nat,
        }
    }

    /// The tape of the configuration is well formed.
    pub open spec fn wf(self) -> bool {
        self.configuration.wf()
    }

    /// A machine over the given configuration, final state names and
    /// table, with the step counter at zero.
    pub fn new(configuration: Configuration, final_states: Vec<&str>, transitions: TransitionTable)
        -> (r: Self)
        ensures
            r.configuration == configuration,
            r.transitions == transitions,
            r.step == 0,
            r.final_states.deep_view() == final_states.deep_view(),
    {
        let mut finals: Vec<String> = Vec::new();
        let mut i: usize = 0;
        while i < final_states.len()
            invariant
                i <= final_states.len(),
                finals@.len() == i,
                forall|k: int| 0 <= k < i ==> finals@[k]@ == final_states@[k]@,
            decreases final_states.len() - i,
        {
            finals.push(final_states[i].to_owned());
            i = i + 1;
        }
        assert(finals.deep_view() =~= final_states.deep_view());
        Self { configuration, final_states: finals, transitions, step: 0 }
    }

    /// A copy of the rule list of the current state, if the table has one.
    pub fn get_transitions(&self) -> (r: Option<Vec<Transition>>)
        ensures
            match r {
                Some(v) => table_lookup(self.model().table, self.model().cfg.state) == Some(
                    v.deep_view(),
                ),
                None => table_lookup(self.model().table, self.model().cfg.state) is None,
            },
    {
        let state = self.configuration.get_current_state();
        match self.transitions.get(&state) {
            Some(rules) => {
                let mut out: Vec<Transition> = Vec::new();
                let mut i: usize = 0;
                while i < rules.len()
                    invariant
                        i <= rules.len(),
                        out@.len() == i,
                        forall|k: int| 0 <= k < i ==> out@[k].model() == rules@[k].model(),
                    decreases rules.len() - i,
                {
                    out.push(rules[i].clone());
                    i = i + 1;
                }
                assert(out.deep_view() =~= rules.deep_view());
                Some(out)
            },
            None => None,
        }
    }

    /// Judge the halted machine: acceptance exactly when the current
    /// state is one of the final state names.  An unknown state is never
    /// an error, only a rejection.
    pub fn check_final_state(&self) -> (r: Result<(), MtError>)
        ensures
            r == verdict(self.model().cfg.state, self.model().finals),
    {
        let ghost finals = self.model().finals;
        let ghost st = self.model().cfg.state;
        let cur = self.configuration.get_current_state();
        let mut i: usize = 0;
        while i < self.final_states.len()
            invariant
                i <= self.final_states.len(),
                finals == self.model().finals,
                st == self.model().cfg.state,
                cur@ == st,
                forall|j: int| 0 <= j < i ==> finals[j] != st,
            decreases self.final_states.len() - i,
        {
            if self.final_states[i] == cur {
                proof {
                    assert(finals[i as int] == st);
                    assert(is_final_state(st, finals));
                }
                return Ok(());
            }
            i = i + 1;
        }
        proof {
            if is_final_state(st, finals) {
                let w = choose|j: int| 0 <= j < finals.len() && finals[j] == st;
                assert(finals[w] != st);
            }
        }
        Err(MtError::HaltRejected)
    }

    /// Run until the machine halts by itself (no entry for the current
    /// state, or no matching rule), or a step faults at the tape origin,
    /// then report the verdict; as a termination safeguard the loop also
    /// stops after `u64::MAX` applied transitions.  The step counter is
    /// neither read nor changed.
    pub fn run(&mut self) -> (r: Result<(), MtError>)
        requires
            old(self).wf(),
        ensures
            final(self).wf(),
            final(self).final_states == old(self).final_states,
            final(self).transitions == old(self).transitions,
            final(self).step == old(self).step,
            ({
                let (endc, steps, end) = run_model(
                    old(self).model().cfg,
                    old(self).model().table,
                    u64::MAX as nat,
                );
                &&& final(self).model().cfg == endc
                &&& match end {
                    RunEnd::Faulted => r == Err::<(), MtError>(MtError::OutOfBounds),
                    _ => r == verdict(endc.state, old(self).model().finals),
                }
            }),
    {
        let ghost table = old(self).model().table;
        let ghost c0 = old(self).model().cfg;
        let mut count: u64 = 0;
        while count < u64::MAX
            invariant
                self.wf(),
                self.final_states == old(self).final_states,
                self.transitions == old(self).transitions,
                self.step == old(self).step,
                table == self.model().table,
                c0 == old(self).model().cfg,
                count <= u64::MAX,
                ({
                    let rr = run_model(self.model().cfg, table, (u64::MAX - count) as nat);
                    run_model(c0, table, u64::MAX as nat) == (
                        rr.0,
                        (rr.1 + count) as nat,
                        rr.2,
                    )
                }),
            decreases u64::MAX - count,
        {
            let ghost cur = self.model().cfg;
            let ghost left = (u64::MAX - count) as nat;
            match self.get_transitions() {
                None => {
                    proof {
                        assert(step_model(cur, table) == StepModel::Halt);
                        assert(run_model(cur, table, left) == (cur, 0 as nat, RunEnd::Halted));
                    }
                    return self.check_final_state();
                },
                Some(ts) => {
                    match self.configuration.update(ts) {
                        Ok(()) => {
                            proof {
                                let tsm = ts.deep_view();
                                let k = first_match_idx(tsm, cur.head_symbol());
                                assert(step_model(cur, table) == StepModel::Next(
                                    self.model().cfg,
                                ));
                                assert(run_model(cur, table, left) == {
                                    let r2 = run_model(
                                        self.model().cfg,
                                        table,
                                        (left - 1) as nat,
                                    );
                                    (r2.0, (r2.1 + 1) as nat, r2.2)
                                });
                            }
                            count = count + 1;
                        },
                        Err(StepFailure::NoMatch) => {
                            proof {
                                assert(step_model(cur, table) == StepModel::Stuck);
                                assert(run_model(cur, table, left) == (
                                    cur,
                                    0 as nat,
                                    RunEnd::Halted,
                                ));
                            }
                            return self.check_final_state();
                        },
                        Err(StepFailure::OutOfBounds) => {
                            proof {
                                assert(step_model(cur, table) == StepModel::Fault);
                                assert(run_model(cur, table, left) == (
                                    cur,
                                    0 as nat,
                                    RunEnd::Faulted,
                                ));
                            }
                            return Err(MtError::OutOfBounds);
                        },
                    }
                },
            }
        }
        self.check_final_state()
    }

    /// Run like `run`, but also stop once the step counter reaches
    /// `limit`, even if a transition would still apply.  The counter
    /// grows by one per applied transition, so the run applies at most
    /// `limit - step` transitions (none if the counter already stands at
    /// or past the limit).
    pub fn run_with_limit(&mut self, limit: u64) -> (r: Result<(), MtError>)
        requires
            old(self).wf(),
        ensures
            final(self).wf(),
            final(self).final_states == old(self).final_states,
            final(self).transitions == old(self).transitions,
            ({
                let (endc, steps, end) = run_model(
                    old(self).model().cfg,
                    old(self).model().table,
                    budget(old(self).step as nat, limit as nat),
                );
                &&& final(self).model().cfg == endc
                &&& final(self).step == old(self).step + steps
                &&& match end {
                    RunEnd::Faulted => r == Err::<(), MtError>(MtError::OutOfBounds),
                    _ => r == verdict(endc.state, old(self).model().finals),
                }
            }),
    {
        let ghost table = old(self).model().table;
        let ghost c0 = old(self).model().cfg;
        let ghost fuel0 = budget(old(self).step as nat, limit as nat);
        while self.step < limit
            invariant
                self.wf(),
                self.final_states == old(self).final_states,
                self.transitions == old(self).transitions,
                table == self.model().table,
                c0 == old(self).model().cfg,
                fuel0 == budget(old(self).step as nat, limit as nat),
                old(self).step <= self.step,
                self.step <= limit || self.step == old(self).step,
                ({
                    let rr = run_model(
                        self.model().cfg,
                        table,
                        budget(self.step as nat, limit as nat),
                    );
                    run_model(c0, table, fuel0) == (
                        rr.0,
                        (rr.1 + self.step - old(self).step) as nat,
                        rr.2,
                    )
                }),
            decreases limit - self.step,
        {
            let ghost cur = self.model().cfg;
            let ghost left = budget(self.step as nat, limit as nat);
            match self.get_transitions() {
                None => {
                    proof {
                        assert(step_model(cur, table) == StepModel::Halt);
                        assert(run_model(cur, table, left) == (cur, 0 as nat, RunEnd::Halted));
                    }
                    return self.check_final_state();
                },
                Some(ts) => {
                    match self.configuration.update(ts) {
                        Ok(()) => {
                            proof {
                                assert(step_model(cur, table) == StepModel::Next(
                                    self.model().cfg,
                                ));
                                assert(run_model(cur, table, left) == {
                                    let r2 = run_model(
                                        self.model().cfg,
                                        table,
                                        (left - 1) as nat,
                                    );
                                    (r2.0, (r2.1 + 1) as nat, r2.2)
                                });
                            }
                            self.step = self.step + 1;
                        },
                        Err(StepFailure::NoMatch) => {
                            proof {
                                assert(step_model(cur, table) == StepModel::Stuck);
                                assert(run_model(cur, table, left) == (
                                    cur,
                                    0 as nat,
                                    RunEnd::Halted,
                                ));
                            }
                            return self.check_final_state();
                        },
                        Err(StepFailure::OutOfBounds) => {
                            proof {
                                assert(step_model(cur, table) == StepModel::Fault);
                                assert(run_model(cur, table, left) == (
                                    cur,
                                    0 as nat,
                                    RunEnd::Faulted,
                                ));
                            }
                            return Err(MtError::OutOfBounds);
                        },
                    }
                },
            }
        }
        self.check_final_state()
    }
}

/// Put `configuration` into the machine and run it with the given limit.
/// The step counter is kept, so the budget is `limit` less the counter.
pub fn load_and_run_config(
    machine_turing: &mut MachineTuring,
    configuration: Configuration,
    limit: u64,
) -> (r: Result<(), MtError>)
    requires
        configuration.wf(),
    ensures
        final(machine_turing).wf(),
        final(machine_turing).final_states == old(machine_turing).final_states,
        final(machine_turing).transitions == old(machine_turing).transitions,
        ({
            let (endc, steps, end) = run_model(
                configuration.model(),
                old(machine_turing).model().table,
                budget(old(machine_turing).step as nat, limit as nat),
            );
            &&& final(machine_turing).model().cfg == endc
            &&& final(machine_turing).step == old(machine_turing).step + steps
            &&& match end {
                RunEnd::Faulted => r == Err::<(), MtError>(MtError::OutOfBounds),
                _ => r == verdict(endc.state, old(machine_turing).model().finals),
            }
        }),
{
    machine_turing.configuration = configuration;
    machine_turing.run_with_limit(limit)
}

} // verus!
