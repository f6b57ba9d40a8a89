//! Test units: resolving their arguments, grading their output, and summing
//! the points of a suite.
use vstd::prelude::*;

use vstd::utf8::{decode_utf8, valid_utf8};

use crate::config::{tool_path_of, Config};
use crate::diff::{mismatch_spans, spans_of_diff, IncorrectSpan};

verus! {

/// A suite: the units of one assignment, in order.
#[derive(Debug)]
pub struct Units {
    pub tests: Vec<Unit>,
}

/// One gradable check: a program with its arguments (`input[0]` is the
/// program), the text it should print, and the points it is worth.
#[derive(Debug)]
pub struct Unit {
    pub name: String,
    pub input: Vec<String>,
    pub expected: String,
    pub rubric: u64,
}

/// Why a unit's arguments could not be resolved.
#[derive(Clone, Copy, Debug, PartialEq, Eq, Structural)]
pub enum InterpError {
    /// An argument names the external tool, and the settings give no path.
    MissingToolPath,
}

/// The placeholder for the project's name.
pub open spec fn project_token() -> Seq<char> {
    seq!['$', 'p', 'r', 'o', 'j', 'e', 'c', 't']
}

/// The placeholder for the external tool's path.
pub open spec fn tool_token() -> Seq<char> {
    seq!['$', 'd', 'i', 'g', 'i', 't', 'a', 'l']
}

/// `token` occurs in `s` at position `i`.
pub open spec fn occurs_at(s: Seq<char>, i: int, token: Seq<char>) -> bool {
    &&& 0 <= i
    &&& i + token.len() <= s.len()
    &&& s.subrange(i, i + token.len()) == token
}

/// `token` occurs somewhere in `s`.
pub open spec fn mentions(s: Seq<char>, token: Seq<char>) -> bool {
    exists|i: int| occurs_at(s, i, token)
}

/// `s` from position `i` on, read left to right, with each placeholder
/// replaced by its value.
pub open spec fn resolve_from(s: Seq<char>, i: int, project: Seq<char>, tool: Seq<char>) -> Seq<char>
    decreases s.len() - i,
{
    if i < 0 || i >= s.len() {
        seq![]
    } else if occurs_at(s, i, project_token()) {
        project + resolve_from(s, i + project_token().len(), project, tool)
    } else if occurs_at(s, i, tool_token()) {
        tool + resolve_from(s, i + tool_token().len(), project, tool)
    } else {
        seq![s[i]] + resolve_from(s, i + 1, project, tool)
    }
}

/// `arg` with every `$project` replaced by `project` and every `$digital` by
/// `tool`; anything else is kept.
pub open spec fn resolve_arg(arg: Seq<char>, project: Seq<char>, tool: Seq<char>) -> Seq<char> {
    resolve_from(arg, 0, project, tool)
}

fn project_token_chars() -> (r: Vec<char>)
    ensures
        r@ == project_token(),
{
    let mut v: Vec<char> = Vec::new();
    v.push('$');
    v.push('p');
    v.push('r');
    v.push('o');
    v.push('j');
    v.push('e');
    v.push('c');
    v.push('t');
    assert(v@ =~= project_token());
    v
}

fn tool_token_chars() -> (r: Vec<char>)
    ensures
        r@ == tool_token(),
{
    let mut v: Vec<char> = Vec::new();
    v.push('$');
    v.push('d');
    v.push('i');
    v.push('g');
    v.push('i');
    v.push('t');
    v.push('a');
    v.push('l');
    assert(v@ =~= tool_token());
    v
}

/// Whether `token` occurs in `s` at position `i`.
fn occurs_at_exec(s: &str, n: usize, i: usize, token: &Vec<char>) -> (r: bool)
    requires
        n == s@.len(),
    ensures
        r == occurs_at(s@, i as int, token@),
{
    if i > n || token.len() > n - i {
        return false;
    }
    let mut k: usize = 0;
    while k < token.len()
        invariant
            n == s@.len(),
            i + token@.len() <= n,
            k <= token@.len(),
            forall|j: int| 0 <= j < k ==> s@[i + j] == token@[j],
        decreases token@.len() - k,
    {
        if s.get_char(i + k) != token[k] {
            assert(s@.subrange(i as int, i + token@.len())[k as int] != token@[k as int]);
            return false;
        }
        k += 1;
    }
    assert(s@.subrange(i as int, i + token@.len()) =~= token@);
    true
}

/// Whether `token` occurs anywhere in `s`.
fn mentions_exec(s: &str, token: &Vec<char>) -> (r: bool)
    requires
        token@.len() > 0,
    ensures
        r == mentions(s@, token@),
{
    let n = s.unicode_len();
    let mut i: usize = 0;
    while i < n
        invariant
            n == s@.len(),
            i <= n,
            forall|j: int| 0 <= j < i ==> !occurs_at(s@, j, token@),
        decreases n - i,
    {
        if occurs_at_exec(s, n, i, token) {
            return true;
        }
        i += 1;
    }
    assert forall|j: int| !occurs_at(s@, j, token@) by {
        if 0 <= j < i {
        }
    }
    false
}

/// Resolves the placeholders of one argument.
pub fn resolve(arg: &str, project: &str, tool: &str) -> (r: String)
    ensures
        r@ == resolve_arg(arg@, project@, tool@),
{
    let project_tok = project_token_chars();
    let tool_tok = tool_token_chars();
    let n = arg.unicode_len();
    let mut out = String::new();
    let mut i: usize = 0;
    while i < n
        invariant
            n == arg@.len(),
            i <= n,
            project_tok@ == project_token(),
            tool_tok@ == tool_token(),
            out@ + resolve_from(arg@, i as int, project@, tool@) == resolve_arg(arg@, project@, tool@),
        decreases n - i,
    {
        if occurs_at_exec(arg, n, i, &project_tok) {
            out.append(project);
            i += 8;
            assert(out@ + resolve_from(arg@, i as int, project@, tool@) =~= resolve_arg(arg@, project@, tool@));
        } else if occurs_at_exec(arg, n, i, &tool_tok) {
            out.append(tool);
            i += 8;
            assert(out@ + resolve_from(arg@, i as int, project@, tool@) =~= resolve_arg(arg@, project@, tool@));
        } else {
            let c = arg.substring_char(i, i + 1);
            out.append(c);
            i += 1;
            assert(out@ + resolve_from(arg@, i as int, project@, tool@) =~= resolve_arg(arg@, project@, tool@));
        }
    }
    assert(out@ =~= out@ + resolve_from(arg@, i as int, project@, tool@));
    out
}


/// The tool path that `config` gives, or the empty text where it gives none.
pub open spec fn tool_path_or_empty(config: Config) -> Seq<char> {
    match tool_path_of(config) {
        Some(p) => p,
        None => seq![],
    }
}

impl Unit {
    /// Replaces, in every argument, each `$project` by `executable` and each
    /// `$digital` by the external tool path of `config`. Fails, changing
    /// nothing, where an argument names the tool and `config` has no path.
    pub fn interp_input(&mut self, config: &Config, executable: &str) -> (r: Result<(), InterpError>)
        ensures
            r is Err <==> tool_path_of(*config) is None && exists|i: int|
                0 <= i < old(self).input@.len() && mentions(
                    #[trigger] old(self).input@[i]@,
                    tool_token(),
                ),
            r is Err ==> *final(self) == *old(self),
            final(self).name == old(self).name,
            final(self).expected == old(self).expected,
            final(self).rubric == old(self).rubric,
            final(self).input@.len() == old(self).input@.len(),
            r is Ok ==> forall|i: int|
                0 <= i < old(self).input@.len() ==> #[trigger] final(self).input@[i]@ == resolve_arg(
                    old(self).input@[i]@,
                    executable@,
                    tool_path_or_empty(*config),
                ),
    {
        let tool_tok = tool_token_chars();
        let configured = config.tool_path();
        let tool: &str = match configured {
            Some(p) => p,
            None => {
                let mut i: usize = 0;
                while i < self.input.len()
                    invariant
                        i <= self.input@.len(),
                        tool_tok@ == tool_token(),
                        tool_path_of(*config) is None,
                        *self == *old(self),
                        forall|j: int| 0 <= j < i ==> !mentions(#[trigger] self.input@[j]@, tool_token()),
                    decreases self.input@.len() - i,
                {
                    if mentions_exec(self.input[i].as_str(), &tool_tok) {
                        assert(mentions(self.input@[i as int]@, tool_token()));
                        return Err(InterpError::MissingToolPath);
                    }
                    i += 1;
                }
                proof {
                    reveal_strlit("");
                }
                ""
            },
        };
        let mut resolved: Vec<String> = Vec::new();
        let mut i: usize = 0;
        while i < self.input.len()
            invariant
                i <= self.input@.len(),
                tool@ == tool_path_or_empty(*config),
                resolved@.len() == i,
                forall|j: int|
                    0 <= j < i ==> #[trigger] resolved@[j]@ == resolve_arg(
                        self.input@[j]@,
                        executable@,
                        tool@,
                    ),
            decreases self.input@.len() - i,
        {
            resolved.push(resolve(self.input[i].as_str(), executable, tool));
            i += 1;
        }
        self.input = resolved;
        Ok(())
    }
}

/// Relies on `std::str::from_utf8`: it accepts exactly the valid UTF-8 byte
/// sequences, and the text it gives holds the characters they encode.
#[verifier::external_body]
fn decode_text(bytes: &[u8]) -> (r: Option<String>)
    ensures
        r is Some <==> valid_utf8(bytes@),
        r is Some ==> r->0@ == decode_utf8(bytes@),
{
    std::str::from_utf8(bytes).ok().map(|s| s.to_string())
}

/// A unit that passed, with the points it earned.
#[derive(Clone, Copy, Debug, PartialEq, Eq, Structural)]
pub struct UnitOutput {
    pub grade: u64,
}

/// A unit's output that differs from the expected text: the output, and the
/// regions where it differs.
#[derive(Debug)]
pub struct IncorrectOutput {
    pub src: String,
    pub span_list: Vec<IncorrectSpan>,
}

/// Why a unit earned no points.
#[derive(Debug)]
pub enum UnitError {
    /// The program could not be started; the reason is given.
    SpawnFailure(String),
    /// The program printed bytes that are not UTF-8.
    NotUtf8,
    /// The program's output is not the expected text.
    IncorrectOutput(IncorrectOutput),
}

/// The failures of a suite's run, in suite order.
#[derive(Debug)]
pub struct UnitErrors {
    pub errors: Vec<UnitError>,
}

/// `o` is how `u` fares when its program printed `stdout`: not UTF-8, the
/// expected text (full points), or another text (the regions where it
/// differs).
pub open spec fn output_outcome(u: Unit, stdout: Seq<u8>, o: Result<UnitOutput, UnitError>) -> bool {
    if !valid_utf8(stdout) {
        o is Err && o->Err_0 is NotUtf8
    } else if decode_utf8(stdout) == u.expected@ {
        o == Ok::<UnitOutput, UnitError>(UnitOutput { grade: u.rubric })
    } else {
        &&& o is Err
        &&& o->Err_0 is IncorrectOutput
        &&& o->Err_0->IncorrectOutput_0.src@ == decode_utf8(stdout)
        &&& spans_of_diff(o->Err_0->IncorrectOutput_0.span_list@, u.expected@, decode_utf8(stdout))
    }
}

/// `o` is how `u` fares on `run`: the bytes its program printed, or why the
/// program could not be started.
pub open spec fn outcome_of(u: Unit, run: Result<Vec<u8>, String>, o: Result<UnitOutput, UnitError>) -> bool {
    match run {
        Ok(stdout) => output_outcome(u, stdout@, o),
        Err(reason) => o is Err && o->Err_0 is SpawnFailure && o->Err_0->SpawnFailure_0 == reason,
    }
}

/// The points that `u` earns on `run`: all of its rubric when the program
/// printed exactly the expected text, none otherwise.
pub open spec fn unit_award(u: Unit, run: Result<Vec<u8>, String>) -> nat {
    match run {
        Ok(stdout) => if valid_utf8(stdout@) && decode_utf8(stdout@) == u.expected@ {
            u.rubric as nat
        } else {
            0
        },
        Err(_) => 0,
    }
}

impl Unit {
    /// Grades what the unit's program printed.
    pub fn grade_output(&self, stdout: &[u8]) -> (r: Result<UnitOutput, UnitError>)
        ensures
            output_outcome(*self, stdout@, r),
    {
        match decode_text(stdout) {
            None => Err(UnitError::NotUtf8),
            Some(text) => {
                let spans = mismatch_spans(self.expected.as_str(), text.as_str());
                if spans.len() == 0 {
                    Ok(UnitOutput { grade: self.rubric })
                } else {
                    Err(UnitError::IncorrectOutput(IncorrectOutput { src: text, span_list: spans }))
                }
            },
        }
    }

    /// Grades one run of the unit's program: the bytes it printed, or why it
    /// could not be started.
    pub fn grade_run(&self, run: &Result<Vec<u8>, String>) -> (r: Result<UnitOutput, UnitError>)
        ensures
            outcome_of(*self, *run, r),
            r is Ok ==> r->Ok_0.grade == self.rubric,
            unit_award(*self, *run) == if r is Ok {
                self.rubric as nat
            } else {
                0
            },
    {
        match run {
            Ok(stdout) => self.grade_output(stdout.as_slice()),
            Err(reason) => Err(UnitError::SpawnFailure(reason.clone())),
        }
    }
}


/// The rubrics of the first `n` units.
pub open spec fn rubric_sum(tests: Seq<Unit>, n: int) -> nat
    decreases n,
{
    if n <= 0 {
        0
    } else {
        (rubric_sum(tests, n - 1) + tests[n - 1].rubric) as nat
    }
}

/// The points earned by the first `n` units, unit `i` on `runs[i]`.
pub open spec fn award_sum(tests: Seq<Unit>, runs: Seq<Result<Vec<u8>, String>>, n: int) -> nat
    decreases n,
{
    if n <= 0 {
        0
    } else {
        (award_sum(tests, runs, n - 1) + unit_award(tests[n - 1], runs[n - 1])) as nat
    }
}

/// The failures among `outcomes`, in order.
pub open spec fn failures(outcomes: Seq<Result<UnitOutput, UnitError>>) -> Seq<UnitError>
    decreases outcomes.len(),
{
    if outcomes.len() == 0 {
        seq![]
    } else {
        match outcomes.last() {
            Ok(_) => failures(outcomes.drop_last()),
            Err(e) => failures(outcomes.drop_last()).push(e),
        }
    }
}

/// Every unit of `tests` fared on its run of `runs` as `outcomes` says.
pub open spec fn outcomes_of(
    tests: Seq<Unit>,
    runs: Seq<Result<Vec<u8>, String>>,
    outcomes: Seq<Result<UnitOutput, UnitError>>,
) -> bool {
    &&& outcomes.len() == tests.len()
    &&& forall|i: int| 0 <= i < tests.len() ==> outcome_of(tests[i], runs[i], #[trigger] outcomes[i])
}

/// Adding units never lowers the sum of their rubrics.
pub proof fn lemma_rubric_sum_grows(tests: Seq<Unit>, i: int, n: int)
    requires
        i <= n,
    ensures
        rubric_sum(tests, i) <= rubric_sum(tests, n),
    decreases n - i,
{
    if i < n {
        lemma_rubric_sum_grows(tests, i, n - 1);
    }
}

/// The first `n` units never earn more than their rubrics together.
pub proof fn lemma_award_within_rubric(tests: Seq<Unit>, runs: Seq<Result<Vec<u8>, String>>, n: int)
    ensures
        award_sum(tests, runs, n) <= rubric_sum(tests, n),
    decreases n,
{
    if n > 0 {
        lemma_award_within_rubric(tests, runs, n - 1);
    }
}

/// A unit earns either all of its rubric or nothing.
pub proof fn lemma_award_all_or_nothing(u: Unit, run: Result<Vec<u8>, String>)
    ensures
        unit_award(u, run) == 0 || unit_award(u, run) == u.rubric,
{
}

/// A failure stays with its unit: where unit `j`'s run is replaced by one
/// that earns nothing (a program that cannot be started, or that prints bytes
/// that are not UTF-8), the first `n` units lose exactly unit `j`'s points and
/// the others keep theirs.
pub proof fn lemma_failure_isolated(
    tests: Seq<Unit>,
    runs: Seq<Result<Vec<u8>, String>>,
    j: int,
    run: Result<Vec<u8>, String>,
    n: int,
)
    requires
        0 <= j < n <= runs.len(),
        unit_award(tests[j], run) == 0,
    ensures
        award_sum(tests, runs.update(j, run), n) + unit_award(tests[j], runs[j]) == award_sum(
            tests,
            runs,
            n,
        ),
    decreases n,
{
    let updated = runs.update(j, run);
    if n - 1 > j {
        lemma_failure_isolated(tests, runs, j, run, n - 1);
        assert(updated[n - 1] == runs[n - 1]);
    } else {
        assert(updated[j] == run);
        lemma_same_prefix_award(tests, runs, updated, j);
    }
}

/// Runs that agree on the first `n` units give those units the same points.
proof fn lemma_same_prefix_award(
    tests: Seq<Unit>,
    runs: Seq<Result<Vec<u8>, String>>,
    other: Seq<Result<Vec<u8>, String>>,
    n: int,
)
    requires
        forall|i: int| 0 <= i < n ==> runs[i] == other[i],
    ensures
        award_sum(tests, runs, n) == award_sum(tests, other, n),
    decreases n,
{
    if n > 0 {
        lemma_same_prefix_award(tests, runs, other, n - 1);
        assert(runs[n - 1] == other[n - 1]);
    }
}

impl Units {
    /// The sum of all rubrics of the suite, where it fits in a `u64`.
    pub fn total_rubric(&self) -> (r: Option<u64>)
        ensures
            r is Some <==> rubric_sum(self.tests@, self.tests@.len() as int) <= u64::MAX,
            r is Some ==> r->0 == rubric_sum(self.tests@, self.tests@.len() as int),
    {
        let mut total: u64 = 0;
        let mut i: usize = 0;
        while i < self.tests.len()
            invariant
                i <= self.tests@.len(),
                total == rubric_sum(self.tests@, i as int),
            decreases self.tests@.len() - i,
        {
            let rubric = self.tests[i].rubric;
            if rubric > u64::MAX - total {
                proof {
                    lemma_rubric_sum_grows(self.tests@, i + 1, self.tests@.len() as int);
                }
                return None;
            }
            total = total + rubric;
            i += 1;
        }
        Some(total)
    }

    /// Grades the suite on `runs`, where `runs[i]` is what became of unit
    /// `i`'s program: the bytes it printed, or why it could not be started.
    /// Returns the sum of the points earned, and the failures in suite order.
    /// A unit that fails only loses its own points. A program's exit status
    /// is not graded: only what it printed counts.
    pub fn grade(&self, runs: &Vec<Result<Vec<u8>, String>>) -> (r: (u64, UnitErrors))
        requires
            runs@.len() == self.tests@.len(),
            rubric_sum(self.tests@, self.tests@.len() as int) <= u64::MAX,
        ensures
            r.0 == award_sum(self.tests@, runs@, self.tests@.len() as int),
            exists|outcomes: Seq<Result<UnitOutput, UnitError>>|
                outcomes_of(self.tests@, runs@, outcomes) && #[trigger] failures(outcomes)
                    == r.1.errors@,
    {
        let ghost n = self.tests@.len() as int;
        let ghost mut outcomes: Seq<Result<UnitOutput, UnitError>> = seq![];
        let mut grade: u64 = 0;
        let mut errors: Vec<UnitError> = Vec::new();
        let mut i: usize = 0;
        while i < self.tests.len()
            invariant
                n == self.tests@.len(),
                runs@.len() == n,
                rubric_sum(self.tests@, n) <= u64::MAX,
                i <= n,
                grade == award_sum(self.tests@, runs@, i as int),
                outcomes.len() == i,
                forall|j: int| 0 <= j < i ==> outcome_of(self.tests@[j], runs@[j], #[trigger] outcomes[j]),
                errors@ == failures(outcomes),
            decreases n - i,
        {
            let outcome = self.tests[i].grade_run(&runs[i]);
            proof {
                lemma_award_within_rubric(self.tests@, runs@, i + 1);
                lemma_rubric_sum_grows(self.tests@, i + 1, n);
                assert(outcomes.push(outcome).drop_last() =~= outcomes);
                outcomes = outcomes.push(outcome);
            }
            match outcome {
                Ok(out) => {
                    grade = grade + out.grade;
                },
                Err(e) => {
                    errors.push(e);
                },
            }
            i += 1;
        }
        (grade, UnitErrors { errors })
    }
}

} // verus!
