//! Parsing of the line-oriented textual machine description.
//!
//! The format: fields of a line are separated by commas, lines by
//! newlines, and blank lines are skipped.  The first line names the
//! initial state; the second lists the final state names (each trimmed of
//! surrounding whitespace); the third lists the initial tape symbols,
//! head at the leftmost; every further line is one transition,
//! `fromState,readSymbol,toState,writeSymbol,movement`, where the
//! movement is `<` (left), `>` (right) or `-` (stay).  Empty read and
//! write fields denote the blank symbol.
//!
//! Reading the text from a file is the caller's concern; this module
//! turns the text itself into a ready-to-run machine.

use crate::machine_turing::{
    Configuration, MachineTuring, MoveTo, Ribbon, Transition, TransitionTable,
};
use crate::model::{
    first_key_idx, run_model, ConfigModel, MachineModel, TableModel, TransModel,
};
use vstd::prelude::*;

verus! {

/// Why a machine description was rejected.
#[derive(Debug)]
pub enum LoadError {
    /// Fewer than three nonblank lines: initial state, final states and
    /// tape are not all present.
    MissingLines,
    /// A transition line has fewer than five comma-separated fields.
    MissingFields,
    /// A movement field is none of `<`, `>`, `-`; carries the offending
    /// token.
    BadMovement(String),
}

/// Index of the first occurrence of `sep` in `s`, or `-1`.
pub open spec fn first_sep(s: Seq<char>, sep: char) -> int
    decreases s.len(),
{
    if s.len() == 0 {
        -1
    } else if s[0] == sep {
        0
    } else {
        let rest = first_sep(s.drop_first(), sep);
        if rest == -1 {
            -1
        } else {
            rest + 1
        }
    }
}

/// What `first_sep` returns: `-1` and no occurrence, or the position of
/// an occurrence with none before it.
pub proof fn lemma_first_sep(s: Seq<char>, sep: char)
    ensures
        first_sep(s, sep) == -1 ==> forall|j: int| 0 <= j < s.len() ==> s[j] != sep,
        first_sep(s, sep) != -1 ==> {
            let k = first_sep(s, sep);
            &&& 0 <= k < s.len()
            &&& s[k] == sep
            &&& forall|j: int| 0 <= j < k ==> s[j] != sep
        },
    decreases s.len(),
{
    if s.len() > 0 && s[0] != sep {
        lemma_first_sep(s.drop_first(), sep);
        let rest = first_sep(s.drop_first(), sep);
        if rest == -1 {
            assert forall|j: int| 0 <= j < s.len() implies s[j] != sep by {
                if j >= 1 {
                    assert(s[j] == s.drop_first()[j - 1]);
                }
            }
        } else {
            assert(s[rest + 1] == s.drop_first()[rest]);
            assert forall|j: int| 0 <= j < rest + 1 implies s[j] != sep by {
                if j >= 1 {
                    assert(s[j] == s.drop_first()[j - 1]);
                }
            }
        }
    }
}

/// An occurrence at `i` with none before it is the first occurrence.
pub proof fn lemma_first_sep_found(s: Seq<char>, sep: char, i: int)
    requires
        0 <= i < s.len(),
        s[i] == sep,
        forall|j: int| 0 <= j < i ==> s[j] != sep,
    ensures
        first_sep(s, sep) == i,
    decreases i,
{
    if i > 0 {
        assert(s.drop_first()[i - 1] == s[i]);
        assert forall|j: int| 0 <= j < i - 1 implies s.drop_first()[j] != sep by {
            assert(s.drop_first()[j] == s[j + 1]);
        }
        lemma_first_sep_found(s.drop_first(), sep, i - 1);
    }
}

/// With no occurrence there is no first occurrence.
pub proof fn lemma_first_sep_none(s: Seq<char>, sep: char)
    requires
        forall|j: int| 0 <= j < s.len() ==> s[j] != sep,
    ensures
        first_sep(s, sep) == -1,
{
    lemma_first_sep(s, sep);
    if first_sep(s, sep) != -1 {
        assert(s[first_sep(s, sep)] == sep);
    }
}

/// `s` split at every occurrence of `sep`.  The separators are dropped;
/// a separator at the very start or end, or two adjacent ones, yield an
/// empty field, so the result always has one field more than there are
/// separators — never none.
pub open spec fn spec_split(s: Seq<char>, sep: char) -> Seq<Seq<char>>
    decreases s.len(),
{
    let k = first_sep(s, sep);
    if 0 <= k < s.len() {
        seq![s.take(k)] + spec_split(s.skip(k + 1), sep)
    } else {
        seq![s]
    }
}

/// The nonempty members of `lines`, in order.
pub open spec fn nonblank(lines: Seq<Seq<char>>) -> Seq<Seq<char>>
    decreases lines.len(),
{
    if lines.len() == 0 {
        Seq::empty()
    } else if lines[0].len() == 0 {
        nonblank(lines.drop_first())
    } else {
        seq![lines[0]] + nonblank(lines.drop_first())
    }
}

/// Whitespace as trimming understands it.
pub open spec fn is_ws(c: char) -> bool {
    c == ' ' || c == '\t' || c == '\r' || c == '\n'
}

/// `s` without leading whitespace.
pub open spec fn trim_front(s: Seq<char>) -> Seq<char>
    decreases s.len(),
{
    if s.len() > 0 && is_ws(s[0]) {
        trim_front(s.drop_first())
    } else {
        s
    }
}

/// `s` without trailing whitespace.
pub open spec fn trim_back(s: Seq<char>) -> Seq<char>
    decreases s.len(),
{
    if s.len() > 0 && is_ws(s[s.len() - 1]) {
        trim_back(s.drop_last())
    } else {
        s
    }
}

/// `s` without leading and trailing whitespace.
pub open spec fn spec_trim(s: Seq<char>) -> Seq<char> {
    trim_back(trim_front(s))
}

/// The movement a field denotes, if any.
pub open spec fn movement_of(f: Seq<char>) -> Option<MoveTo> {
    if f.len() == 1 && f[0] == '-' {
        Some(MoveTo::Stay)
    } else if f.len() == 1 && f[0] == '<' {
        Some(MoveTo::Left)
    } else if f.len() == 1 && f[0] == '>' {
        Some(MoveTo::Right)
    } else {
        None
    }
}

/// The comma-separated fields of one line.
pub open spec fn line_fields(l: Seq<char>) -> Seq<Seq<char>> {
    spec_split(l, ',')
}

/// Whether a transition line can be read: five fields at least, and a
/// recognized movement token in the fifth.
pub open spec fn trans_line_ok(l: Seq<char>) -> bool {
    line_fields(l).len() >= 5 && movement_of(line_fields(l)[4]) is Some
}

/// The rule a good transition line denotes.  The field order of the
/// format is: from-state, read, to-state, write, movement.
pub open spec fn trans_of_line(l: Seq<char>) -> TransModel {
    let f = line_fields(l);
    TransModel {
        read: f[1],
        write: f[3],
        movement: match movement_of(f[4]) {
            Some(m) => m,
            None => MoveTo::Stay,
        },
        next: f[2],
    }
}

/// The state name a transition line belongs to.
pub open spec fn state_of_line(l: Seq<char>) -> Seq<char> {
    line_fields(l)[0]
}

/// Index of the first line at or after `i` that is no readable
/// transition line, or `-1` if all are readable.
pub open spec fn first_bad_line(lines: Seq<Seq<char>>, i: int) -> int
    decreases lines.len() - i,
{
    if i < 0 || i >= lines.len() {
        -1
    } else if !trans_line_ok(lines[i]) {
        i
    } else {
        first_bad_line(lines, i + 1)
    }
}

/// A bad line at `j` with only good lines before it (from `i` on) is the
/// first bad line.
pub proof fn lemma_first_bad_found(lines: Seq<Seq<char>>, i: int, j: int)
    requires
        0 <= i <= j < lines.len(),
        !trans_line_ok(lines[j]),
        forall|k: int| i <= k < j ==> trans_line_ok(lines[k]),
    ensures
        first_bad_line(lines, i) == j,
    decreases j - i,
{
    if i < j {
        lemma_first_bad_found(lines, i + 1, j);
    }
}

/// With only good lines from `i` on there is no bad line.
pub proof fn lemma_first_bad_none(lines: Seq<Seq<char>>, i: int)
    requires
        forall|k: int| i <= k < lines.len() ==> trans_line_ok(lines[k]),
    ensures
        first_bad_line(lines, i) == -1,
    decreases lines.len() - i,
{
    if 0 <= i < lines.len() {
        lemma_first_bad_none(lines, i + 1);
    }
}

/// The table bound from `acc` by reading the transition lines from `i`
/// on, each appended with `push_rule` semantics.
pub open spec fn table_of_lines(lines: Seq<Seq<char>>, i: int, acc: TableModel) -> TableModel
    decreases lines.len() - i,
{
    if i < 0 || i >= lines.len() {
        acc
    } else {
        table_of_lines(
            lines,
            i + 1,
            push_rule_model(acc, state_of_line(lines[i]), trans_of_line(lines[i])),
        )
    }
}

/// `push_rule` on the model: append the rule to the entry with the name,
/// or open a new entry at the back.
pub open spec fn push_rule_model(table: TableModel, key: Seq<char>, t: TransModel) -> TableModel {
    let k = first_key_idx(table, key);
    if k == -1 {
        table.push((key, seq![t]))
    } else {
        table.update(k, (key, table[k].1.push(t)))
    }
}

/// The nonblank lines of a description text.
pub open spec fn script_lines(text: Seq<char>) -> Seq<Seq<char>> {
    nonblank(spec_split(text, '\n'))
}

/// Whether a description text denotes a machine: three header lines at
/// least, and every transition line readable.
pub open spec fn script_ok(text: Seq<char>) -> bool {
    let lines = script_lines(text);
    lines.len() >= 3 && first_bad_line(lines, 3) == -1
}

/// The machine a good description text denotes.
pub open spec fn parsed_machine(text: Seq<char>) -> MachineModel {
    let lines = script_lines(text);
    MachineModel {
        cfg: ConfigModel { head: 0, tape: spec_split(lines[2], ','), state: lines[0] },
        finals: spec_split(lines[1], ',').map_values(|f: Seq<char>| spec_trim(f)),
        table: table_of_lines(lines, 3, Seq::empty()),
        step: 0,
    }
}

/// Whether `c` counts as whitespace for trimming.
fn is_ws_char(c: char) -> (r: bool)
    ensures
        r == is_ws(c),
{
    c == ' ' || c == '\t' || c == '\r' || c == '\n'
}

/// `s` without leading and trailing whitespace.
pub fn trim_str(s: &str) -> (r: String)
    ensures
        r@ == spec_trim(s@),
{
    let n = s.unicode_len();
    let mut a: usize = 0;
    proof {
        assert(s@.skip(0) =~= s@);
    }
    while a < n && is_ws_char(s.get_char(a))
        invariant
            a <= n,
            n == s@.len(),
            trim_front(s@) == trim_front(s@.skip(a as int)),
        decreases n - a,
    {
        proof {
            assert(s@.skip(a as int).drop_first() =~= s@.skip(a as int + 1));
        }
        a = a + 1;
    }
    proof {
        assert(trim_front(s@) == s@.skip(a as int));
    }
    let mut b: usize = n;
    while b > a && is_ws_char(s.get_char(b - 1))
        invariant
            a <= b <= n,
            n == s@.len(),
            trim_front(s@) == s@.skip(a as int),
            trim_back(s@.skip(a as int)) == trim_back(s@.subrange(a as int, b as int)),
        decreases b,
    {
        proof {
            assert(s@.subrange(a as int, b as int).drop_last() =~= s@.subrange(
                a as int,
                b as int - 1,
            ));
        }
        b = b - 1;
    }
    proof {
        assert(trim_back(s@.subrange(a as int, b as int)) == s@.subrange(a as int, b as int));
    }
    s.substring_char(a, b).to_owned()
}

/// `s` split at every occurrence of `sep`, the separators dropped.
pub fn split_str(s: &str, sep: char) -> (r: Vec<String>)
    ensures
        r.deep_view() == spec_split(s@, sep),
        r@.len() >= 1,
{
    let n = s.unicode_len();
    let mut out: Vec<String> = Vec::new();
    let mut start: usize = 0;
    let mut i: usize = 0;
    proof {
        assert(s@.skip(0) =~= s@);
        assert(out.deep_view() =~= Seq::<Seq<char>>::empty());
        assert(out.deep_view() + spec_split(s@, sep) =~= spec_split(s@, sep));
    }
    while i < n
        invariant
            start <= i <= n,
            n == s@.len(),
            spec_split(s@, sep) =~= out.deep_view() + spec_split(s@.skip(start as int), sep),
            forall|j: int| start <= j < i ==> s@[j] != sep,
        decreases n - i,
    {
        if s.get_char(i) == sep {
            let field = s.substring_char(start, i).to_owned();
            proof {
                let tail = s@.skip(start as int);
                assert forall|j: int| 0 <= j < i - start implies tail[j] != sep by {
                    assert(tail[j] == s@[start + j]);
                }
                assert(tail[i - start as int] == s@[i as int]);
                lemma_first_sep_found(tail, sep, i - start as int);
                assert(tail.take(i - start as int) =~= s@.subrange(start as int, i as int));
                assert(tail.skip(i - start as int + 1) =~= s@.skip(i as int + 1));
                assert(spec_split(tail, sep) == seq![s@.subrange(start as int, i as int)]
                    + spec_split(s@.skip(i as int + 1), sep));
            }
            out.push(field);
            proof {
                assert(spec_split(s@, sep) =~= out.deep_view() + spec_split(
                    s@.skip(i as int + 1),
                    sep,
                ));
            }
            start = i + 1;
        }
        i = i + 1;
    }
    let field = s.substring_char(start, n).to_owned();
    proof {
        let tail = s@.skip(start as int);
        assert forall|j: int| 0 <= j < tail.len() implies tail[j] != sep by {
            assert(tail[j] == s@[start + j]);
        }
        lemma_first_sep_none(tail, sep);
        assert(spec_split(tail, sep) == seq![tail]);
        assert(tail =~= s@.subrange(start as int, n as int));
    }
    out.push(field);
    proof {
        assert(out.deep_view() =~= spec_split(s@, sep));
    }
    out
}

/// The nonempty members of `lines`, in order.
pub fn keep_nonblank(lines: Vec<String>) -> (r: Vec<String>)
    ensures
        r.deep_view() == nonblank(lines.deep_view()),
{
    let ghost ldv = lines.deep_view();
    let mut out: Vec<String> = Vec::new();
    let mut i: usize = 0;
    proof {
        assert(ldv.skip(0) =~= ldv);
        assert(out.deep_view() =~= Seq::<Seq<char>>::empty());
        assert(out.deep_view() + nonblank(ldv) =~= nonblank(ldv));
    }
    while i < lines.len()
        invariant
            i <= lines.len(),
            ldv == lines.deep_view(),
            nonblank(ldv) =~= out.deep_view() + nonblank(ldv.skip(i as int)),
        decreases lines.len() - i,
    {
        proof {
            assert(ldv.skip(i as int)[0] == ldv[i as int]);
            assert(ldv.skip(i as int).drop_first() =~= ldv.skip(i as int + 1));
        }
        if !lines[i].as_str().is_empty() {
            out.push(lines[i].clone());
        }
        proof {
            assert(nonblank(ldv) =~= out.deep_view() + nonblank(ldv.skip(i as int + 1)));
        }
        i = i + 1;
    }
    proof {
        assert(out.deep_view() =~= nonblank(ldv));
    }
    out
}

/// The movement a field denotes, if any.
pub fn parse_movement(f: &str) -> (r: Option<MoveTo>)
    ensures
        r == movement_of(f@),
{
    if f.unicode_len() == 1 {
        let c = f.get_char(0);
        if c == '-' {
            return Some(MoveTo::Stay);
        }
        if c == '<' {
            return Some(MoveTo::Left);
        }
        if c == '>' {
            return Some(MoveTo::Right);
        }
    }
    None
}

impl MachineTuring {
    /// Parse a machine description text into a ready-to-run machine.
    /// Parsing succeeds exactly on texts with at least three nonblank
    /// lines whose transition lines all have five fields and a movement
    /// token among `<`, `>`, `-`; each failure names its cause.
    pub fn from_text(text: &str) -> (r: Result<MachineTuring, LoadError>)
        ensures
            (r matches Ok(_)) <==> script_ok(text@),
            ({
                let lines = script_lines(text@);
                match r {
                    Ok(m) => m.model() == parsed_machine(text@) && m.wf(),
                    Err(LoadError::MissingLines) => lines.len() < 3,
                    Err(LoadError::MissingFields) => {
                        let b = first_bad_line(lines, 3);
                        &&& lines.len() >= 3
                        &&& b != -1
                        &&& line_fields(lines[b]).len() < 5
                    },
                    Err(LoadError::BadMovement(w)) => {
                        let b = first_bad_line(lines, 3);
                        &&& lines.len() >= 3
                        &&& b != -1
                        &&& line_fields(lines[b]).len() >= 5
                        &&& movement_of(line_fields(lines[b])[4]) is None
                        &&& w@ == line_fields(lines[b])[4]
                    },
                }
            }),
    {
        let raw = split_str(text, '\n');
        let lines = keep_nonblank(raw);
        let ghost ldv = lines.deep_view();
        proof {
            assert(ldv == script_lines(text@));
        }
        if lines.len() < 3 {
            return Err(LoadError::MissingLines);
        }
        let current_state = lines[0].clone();
        let fields1 = split_str(lines[1].as_str(), ',');
        let mut final_states: Vec<String> = Vec::new();
        let mut i: usize = 0;
        while i < fields1.len()
            invariant
                i <= fields1.len(),
                final_states@.len() == i,
                forall|k: int|
                    0 <= k < i ==> final_states@[k]@ == spec_trim(fields1.deep_view()[k]),
            decreases fields1.len() - i,
        {
            final_states.push(trim_str(fields1[i].as_str()));
            i = i + 1;
        }
        proof {
            assert(final_states.deep_view() =~= fields1.deep_view().map_values(
                |f: Seq<char>| spec_trim(f),
            ));
        }
        let syms = split_str(lines[2].as_str(), ',');
        let ribbon = Ribbon::from_symbols(syms);
        let mut table = TransitionTable::new();
        let mut j: usize = 3;
        while j < lines.len()
            invariant
                3 <= j <= lines.len(),
                ldv == lines.deep_view(),
                ldv == script_lines(text@),
                ldv.len() == lines@.len(),
                ldv.len() >= 3,
                forall|k: int| 3 <= k < j ==> trans_line_ok(ldv[k]),
                table_of_lines(ldv, 3, Seq::empty()) == table_of_lines(
                    ldv,
                    j as int,
                    table.model(),
                ),
            decreases lines.len() - j,
        {
            let fields = split_str(lines[j].as_str(), ',');
            let ghost fdv = fields.deep_view();
            proof {
                assert(fdv == line_fields(ldv[j as int]));
            }
            if fields.len() < 5 {
                proof {
                    lemma_first_bad_found(ldv, 3, j as int);
                }
                return Err(LoadError::MissingFields);
            }
            let movement = match parse_movement(fields[4].as_str()) {
                Some(m) => m,
                None => {
                    proof {
                        lemma_first_bad_found(ldv, 3, j as int);
                    }
                    return Err(LoadError::BadMovement(fields[4].clone()));
                },
            };
            let t = Transition::from(
                fields[1].as_str(),
                fields[3].as_str(),
                movement,
                fields[2].as_str(),
            );
            let ghost before = table.model();
            proof {
                assert(trans_line_ok(ldv[j as int]));
                assert(t.model() == trans_of_line(ldv[j as int]));
            }
            table.push_rule(fields[0].clone(), t);
            proof {
                assert(table.model() == push_rule_model(
                    before,
                    state_of_line(ldv[j as int]),
                    trans_of_line(ldv[j as int]),
                ));
                assert(table_of_lines(ldv, j as int, before) == table_of_lines(
                    ldv,
                    j as int + 1,
                    table.model(),
                ));
            }
            j = j + 1;
        }
        proof {
            lemma_first_bad_none(ldv, 3);
            assert(table_of_lines(ldv, lines@.len() as int, table.model()) == table.model());
            assert(script_ok(text@));
        }
        let configuration = Configuration::new(ribbon, current_state);
        let m = MachineTuring { configuration, final_states, transitions: table, step: 0 };
        proof {
            assert(m.model().cfg == parsed_machine(text@).cfg);
            assert(m.model().finals == parsed_machine(text@).finals);
            assert(m.model().table == parsed_machine(text@).table);
            assert(m.model() == parsed_machine(text@));
        }
        Ok(m)
    }
}

/// Law of determinism: one description text denotes one machine, and one
/// machine run under one budget takes one course.  Identical texts yield
/// identical machines, final configurations, step counts and run ends.
pub proof fn lemma_load_run_deterministic(t1: Seq<char>, t2: Seq<char>, fuel: nat)
    requires
        t1 == t2,
    ensures
        script_ok(t1) == script_ok(t2),
        parsed_machine(t1) == parsed_machine(t2),
        run_model(parsed_machine(t1).cfg, parsed_machine(t1).table, fuel) == run_model(
            parsed_machine(t2).cfg,
            parsed_machine(t2).table,
            fuel,
        ),
{
}

} // verus!
