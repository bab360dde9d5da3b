//! The mathematical model of a running machine.
//!
//! Every executable type of the crate is reflected here as plain ghost
//! data: a tape is a sequence of symbols (each a sequence of characters,
//! the empty sequence standing for the blank symbol) together with a head
//! index, a transition is a record of four fields, and a whole machine
//! configuration is a `ConfigModel`.  The single-step and bounded-run
//! semantics are spec functions over these models; the contracts of the
//! executable code are stated against them.

use crate::machine_turing::MoveTo;
use vstd::prelude::*;

verus! {

/// Model of one transition rule: on reading `read`, write `write`, move
/// the head by `movement` and enter state `next`.
pub ghost struct TransModel {
    pub read: Seq<char>,
    pub write: Seq<char>,
    pub movement: MoveTo,
    pub next: Seq<char>,
}

/// Model of a configuration: the tape cells, the head index, and the
/// current state name.
pub ghost struct ConfigModel {
    pub head: int,
    pub tape: Seq<Seq<char>>,
    pub state: Seq<char>,
}

/// Model of a transition table: state names paired with their ordered
/// rule lists, looked up front to back.
pub type TableModel = Seq<(Seq<char>, Seq<TransModel>)>;

impl ConfigModel {
    /// The head points at an existing cell.
    pub open spec fn wf(self) -> bool {
        0 <= self.head < self.tape.len()
    }

    /// The symbol under the head.
    pub open spec fn head_symbol(self) -> Seq<char> {
        self.tape[self.head]
    }
}

/// The blank symbol: an empty sequence of characters.
pub open spec fn blank() -> Seq<char> {
    Seq::empty()
}

/// Head index and tape after writing `w` at `head` and then moving by `m`.
/// Moving right off the last cell appends one blank cell; moving left at
/// the origin is excluded by the callers (it is the out-of-bounds fault).
pub open spec fn tape_after(head: int, tape: Seq<Seq<char>>, w: Seq<char>, m: MoveTo) -> (
    int,
    Seq<Seq<char>>,
) {
    let written = tape.update(head, w);
    match m {
        MoveTo::Left => (head - 1, written),
        MoveTo::Right => if head == written.len() - 1 {
            (head + 1, written.push(blank()))
        } else {
            (head + 1, written)
        },
        MoveTo::Stay => (head, written),
    }
}

/// Index of the first rule in `ts` whose read symbol is `sym`, or `-1`
/// if no rule matches.  This is the deterministic first-match policy.
pub open spec fn first_match_idx(ts: Seq<TransModel>, sym: Seq<char>) -> int
    decreases ts.len(),
{
    if ts.len() == 0 {
        -1
    } else if ts[0].read == sym {
        0
    } else {
        let rest = first_match_idx(ts.drop_first(), sym);
        if rest == -1 {
            -1
        } else {
            rest + 1
        }
    }
}

/// A matching rule at `i` with no match before it is the first match.
pub proof fn lemma_first_match_found(ts: Seq<TransModel>, sym: Seq<char>, i: int)
    requires
        0 <= i < ts.len(),
        ts[i].read == sym,
        forall|j: int| 0 <= j < i ==> ts[j].read != sym,
    ensures
        first_match_idx(ts, sym) == i,
    decreases i,
{
    if i > 0 {
        assert(ts.drop_first()[i - 1] == ts[i]);
        assert forall|j: int| 0 <= j < i - 1 implies ts.drop_first()[j].read != sym by {
            assert(ts.drop_first()[j] == ts[j + 1]);
        }
        lemma_first_match_found(ts.drop_first(), sym, i - 1);
    }
}

/// If no rule matches, there is no first match.
pub proof fn lemma_first_match_none(ts: Seq<TransModel>, sym: Seq<char>)
    requires
        forall|j: int| 0 <= j < ts.len() ==> ts[j].read != sym,
    ensures
        first_match_idx(ts, sym) == -1,
{
    lemma_first_match_idx(ts, sym);
    if first_match_idx(ts, sym) != -1 {
        assert(ts[first_match_idx(ts, sym)].read == sym);
    }
}

/// What `first_match_idx` returns: either `-1` and no rule matches, or
/// the position of a matching rule that no earlier rule matches before.
pub proof fn lemma_first_match_idx(ts: Seq<TransModel>, sym: Seq<char>)
    ensures
        first_match_idx(ts, sym) == -1 ==> forall|j: int|
            0 <= j < ts.len() ==> ts[j].read != sym,
        first_match_idx(ts, sym) != -1 ==> {
            let k = first_match_idx(ts, sym);
            &&& 0 <= k < ts.len()
            &&& ts[k].read == sym
            &&& forall|j: int| 0 <= j < k ==> ts[j].read != sym
        },
    decreases ts.len(),
{
    if ts.len() > 0 && ts[0].read != sym {
        lemma_first_match_idx(ts.drop_first(), sym);
        let rest = first_match_idx(ts.drop_first(), sym);
        if rest == -1 {
            assert forall|j: int| 0 <= j < ts.len() implies ts[j].read != sym by {
                if j >= 1 {
                    assert(ts[j] == ts.drop_first()[j - 1]);
                }
            }
        } else {
            assert(ts[rest + 1] == ts.drop_first()[rest]);
            assert forall|j: int| 0 <= j < rest + 1 implies ts[j].read != sym by {
                if j >= 1 {
                    assert(ts[j] == ts.drop_first()[j - 1]);
                }
            }
        }
    }
}

/// Law of first-match dispatch: a state may hold several rules with one
/// read symbol; the earliest rule whose read symbol matches decides the
/// step, and a later rule with the same read symbol never fires.
pub proof fn lemma_duplicate_read_first_fires(ts: Seq<TransModel>, sym: Seq<char>, i: int)
    requires
        0 <= i < ts.len(),
        ts[i].read == sym,
    ensures
        ({
            let k = first_match_idx(ts, sym);
            0 <= k <= i && ts[k].read == sym
        }),
{
    lemma_first_match_idx(ts, sym);
    let k = first_match_idx(ts, sym);
    if k == -1 {
        assert(ts[i].read != sym);
    } else if k > i {
        assert(ts[i].read != sym);
    }
}

/// Index of the first table entry whose state name is `state`, or `-1`.
pub open spec fn first_key_idx(table: TableModel, state: Seq<char>) -> int
    decreases table.len(),
{
    if table.len() == 0 {
        -1
    } else if table[0].0 == state {
        0
    } else {
        let rest = first_key_idx(table.drop_first(), state);
        if rest == -1 {
            -1
        } else {
            rest + 1
        }
    }
}

/// What `first_key_idx` returns: either `-1` and no entry has the name,
/// or the position of an entry with the name and none before it.
pub proof fn lemma_first_key_idx(table: TableModel, state: Seq<char>)
    ensures
        first_key_idx(table, state) == -1 ==> forall|j: int|
            0 <= j < table.len() ==> table[j].0 != state,
        first_key_idx(table, state) != -1 ==> {
            let k = first_key_idx(table, state);
            &&& 0 <= k < table.len()
            &&& table[k].0 == state
            &&& forall|j: int| 0 <= j < k ==> table[j].0 != state
        },
    decreases table.len(),
{
    if table.len() > 0 && table[0].0 != state {
        lemma_first_key_idx(table.drop_first(), state);
        let rest = first_key_idx(table.drop_first(), state);
        if rest == -1 {
            assert forall|j: int| 0 <= j < table.len() implies table[j].0 != state by {
                if j >= 1 {
                    assert(table[j] == table.drop_first()[j - 1]);
                }
            }
        } else {
            assert(table[rest + 1] == table.drop_first()[rest]);
            assert forall|j: int| 0 <= j < rest + 1 implies table[j].0 != state by {
                if j >= 1 {
                    assert(table[j] == table.drop_first()[j - 1]);
                }
            }
        }
    }
}

/// An entry at `i` with the name and no earlier entry with it is the
/// first entry with the name.
pub proof fn lemma_first_key_found(table: TableModel, state: Seq<char>, i: int)
    requires
        0 <= i < table.len(),
        table[i].0 == state,
        forall|j: int| 0 <= j < i ==> table[j].0 != state,
    ensures
        first_key_idx(table, state) == i,
    decreases i,
{
    if i > 0 {
        assert(table.drop_first()[i - 1] == table[i]);
        assert forall|j: int| 0 <= j < i - 1 implies table.drop_first()[j].0 != state by {
            assert(table.drop_first()[j] == table[j + 1]);
        }
        lemma_first_key_found(table.drop_first(), state, i - 1);
    }
}

/// If no entry has the name, there is no first entry with it.
pub proof fn lemma_first_key_none(table: TableModel, state: Seq<char>)
    requires
        forall|j: int| 0 <= j < table.len() ==> table[j].0 != state,
    ensures
        first_key_idx(table, state) == -1,
{
    lemma_first_key_idx(table, state);
    if first_key_idx(table, state) != -1 {
        assert(table[first_key_idx(table, state)].0 == state);
    }
}

/// The ordered rule list of the first entry named `state`, if any.
/// A state with no entry has no rules and is a halting state on entry.
pub open spec fn table_lookup(table: TableModel, state: Seq<char>) -> Option<Seq<TransModel>> {
    let k = first_key_idx(table, state);
    if k == -1 {
        None
    } else {
        Some(table[k].1)
    }
}

/// The configuration after applying rule `t`: the rule's write symbol
/// replaces the head cell, the head moves, and the state becomes `t.next`.
pub open spec fn config_after(c: ConfigModel, t: TransModel) -> ConfigModel {
    let (head, tape) = tape_after(c.head, c.tape, t.write, t.movement);
    ConfigModel { head, tape, state: t.next }
}

/// Result of one attempted step.
pub ghost enum StepModel {
    /// The current state has no entry in the table: a halt.
    Halt,
    /// An entry exists, but no rule matches the head symbol: a halt.
    Stuck,
    /// The first matching rule moves left while the head is at the origin.
    Fault,
    /// The step applies and yields this configuration.
    Next(ConfigModel),
}

/// One step of the machine: look the current state up, take the first
/// rule whose read symbol equals the head symbol, and apply it.
pub open spec fn step_model(c: ConfigModel, table: TableModel) -> StepModel {
    match table_lookup(table, c.state) {
        None => StepModel::Halt,
        Some(ts) => {
            let k = first_match_idx(ts, c.head_symbol());
            if k == -1 {
                StepModel::Stuck
            } else if ts[k].movement is Left && c.head == 0 {
                StepModel::Fault
            } else {
                StepModel::Next(config_after(c, ts[k]))
            }
        },
    }
}

/// How a bounded run ended.
pub ghost enum RunEnd {
    /// No entry or no matching rule: the machine halted by itself.
    Halted,
    /// A step faulted by moving left at the origin.
    Faulted,
    /// The step budget ran out with a step still applicable.
    FuelOut,
}

/// Run up to `fuel` steps from `c`: the final configuration, the number
/// of applied steps, and how the run ended.
pub open spec fn run_model(c: ConfigModel, table: TableModel, fuel: nat) -> (
    ConfigModel,
    nat,
    RunEnd,
)
    decreases fuel,
{
    if fuel == 0 {
        (c, 0, RunEnd::FuelOut)
    } else {
        match step_model(c, table) {
            StepModel::Next(c2) => {
                let r = run_model(c2, table, (fuel - 1) as nat);
                (r.0, (r.1 + 1) as nat, r.2)
            },
            StepModel::Fault => (c, 0, RunEnd::Faulted),
            StepModel::Halt => (c, 0, RunEnd::Halted),
            StepModel::Stuck => (c, 0, RunEnd::Halted),
        }
    }
}

/// Law of the zero budget: a run with no steps left applies no
/// transition and leaves the configuration untouched, so the verdict is
/// evaluated on the initial state.
pub proof fn lemma_zero_budget_run(c: ConfigModel, table: TableModel)
    ensures
        run_model(c, table, 0) == (c, 0 as nat, RunEnd::FuelOut),
{
}

/// Whether `state` is one of the final state names.  A state outside the
/// list — known or unknown to the table — is not accepting.
pub open spec fn is_final_state(state: Seq<char>, finals: Seq<Seq<char>>) -> bool {
    exists|i: int| 0 <= i < finals.len() && finals[i] == state
}

/// Judge a halted state: acceptance exactly when the state is final.
pub open spec fn verdict(state: Seq<char>, finals: Seq<Seq<char>>) -> Result<
    (),
    crate::machine_turing::MtError,
> {
    if is_final_state(state, finals) {
        Ok(())
    } else {
        Err(crate::machine_turing::MtError::HaltRejected)
    }
}

/// Model of a whole machine: the running configuration, the final state
/// names, the transition table, and the step counter.
pub ghost struct MachineModel {
    pub cfg: ConfigModel,
    pub finals: Seq<Seq<char>>,
    pub table: TableModel,
    pub step: nat,
}

/// Steps left in a bounded run whose counter stands at `step`.
pub open spec fn budget(step: nat, limit: nat) -> nat {
    if step < limit {
        (limit - step) as nat
    } else {
        0
    }
}

/// Head index and tape length after one right move.
pub open spec fn right_move(head: int, len: int) -> (int, int) {
    if head == len - 1 {
        (head + 1, len + 1)
    } else {
        (head + 1, len)
    }
}

/// Head index and tape length after `n` consecutive right moves.
pub open spec fn right_moves(head: int, len: int, n: nat) -> (int, int)
    decreases n,
{
    if n == 0 {
        (head, len)
    } else {
        let (h, l) = right_move(head, len);
        right_moves(h, l, (n - 1) as nat)
    }
}

/// Law of right moves: the head advances by exactly `n`, the tape never
/// shrinks, and after `n` moves the length is the original length plus
/// however many of those moves went past the last cell — that is, plus
/// `n` less the cells that lay between the head and the end at the start.
pub proof fn lemma_right_moves(head: int, len: int, n: nat)
    requires
        0 <= head < len,
    ensures
        right_moves(head, len, n).0 == head + n,
        right_moves(head, len, n).1 == if n <= len - 1 - head {
            len
        } else {
            len + (n - (len - 1 - head))
        },
        right_moves(head, len, n).1 >= len,
        0 <= right_moves(head, len, n).0 < right_moves(head, len, n).1,
    decreases n,
{
    if n > 0 {
        let (h, l) = right_move(head, len);
        lemma_right_moves(h, l, (n - 1) as nat);
    }
}

} // verus!
