//! The interpreter: a 30,000-cell wrapping tape, a position, and an
//! execution loop over a token sequence.
//!
//! The meaning of a program is fixed by a small-step operational semantics:
//! [`Config`] is an abstract machine state, [`step`] dispatches one token
//! (including the implicit loop-close test that follows it), and [`run`]
//! iterates `step` under a fuel bound.  The executable interpreter is proved
//! to return exactly the outcome of `run` on its starting configuration and
//! step budget, and [`lemma_run_deterministic`] shows a settled outcome is
//! independent of the budget that reached it.

use vstd::arithmetic::div_mod::{
    lemma_add_mod_noop, lemma_mod_self_0, lemma_small_mod,
};
use vstd::prelude::*;
use crate::input::{parse_input_line, parse_line_spec};
use crate::token::Token;

verus! {

/// The tape holds exactly this many cells at all times.
pub const TAPE_LEN: usize = 30000;

/// One item of the interpreter's output stream.  The interpreter itself
/// performs no I/O: it returns these events for a caller to render.
#[derive(Clone, Copy, Debug, PartialEq, Eq)]
pub enum OutEvent {
    /// The prompt shown immediately before each blocking read.
    Prompt,
    /// One character produced by an Output token: the current cell as a
    /// character when it lies in `[0, 127]`, the placeholder `?` otherwise.
    Char(char),
    /// The diagnostic reported when an input line fails to parse; the cell
    /// is then set to 0 and execution continues.
    InvalidInput,
    /// A line break produced by a Newline token.
    Newline,
}

/// A structural failure: malformed loop nesting in the source.  These are
/// the only errors; malformed input data never aborts execution.
#[derive(Clone, Copy, Debug, PartialEq, Eq, Structural)]
pub enum PipeError {
    /// A loop entry whose forward skip ran off the end of the token
    /// sequence; `position` is the index just past the last token.
    UnmatchedLoopStart { position: usize },
    /// A loop-close test on a non-zero cell with no open loop to return to;
    /// `position` is the index of the offending loop marker.
    UnmatchedLoopEnd { position: usize },
}

/// How an execution under a step budget came out, short of a structural
/// error: either the program halted, or the budget ran out first.  Either
/// way the events emitted so far are returned.
#[derive(Debug, PartialEq, Eq)]
pub enum RunOutcome {
    /// The instruction pointer passed the last token: a normal halt, with
    /// the full output stream.
    Halted(Vec<OutEvent>),
    /// The step budget was exhausted with the program still running; the
    /// output emitted up to that point.
    OutOfFuel(Vec<OutEvent>),
}

/// An abstract state of the machine: the program, the remaining input
/// script, the tape and position, the instruction pointer, the loop stack,
/// and the output produced so far.
pub struct Config {
    /// The token sequence being executed (read-only).
    pub tokens: Seq<Token>,
    /// The scripted input lines; reads past the end behave as empty lines.
    pub inputs: Seq<Seq<char>>,
    /// Index of the next input line to consume.
    pub next_input: int,
    /// The cell values; always exactly [`TAPE_LEN`] of them.
    pub tape: Seq<int>,
    /// The current tape position.
    pub position: int,
    /// The instruction pointer.
    pub ip: int,
    /// Start positions of the loops currently open.
    pub stack: Seq<int>,
    /// The output events emitted so far, oldest first.
    pub out: Seq<OutEvent>,
}

/// A tape of all zeros.
pub open spec fn zero_tape() -> Seq<int> {
    Seq::new(TAPE_LEN as nat, |i: int| 0)
}

/// Rust's truncating remainder by 30,000: the result keeps the sign of `v`.
/// On the in-range values `[0, 29999]` this is plain modulo.
pub open spec fn wrap_tape(v: int) -> int {
    if v >= 0 {
        v % (TAPE_LEN as int)
    } else {
        -((-v) % (TAPE_LEN as int))
    }
}

/// The cell value after an Increment token.
pub open spec fn inc_cell(v: int) -> int {
    wrap_tape(v + 1)
}

/// The cell value after a Decrement token: adding 29,999 is subtracting one
/// with wraparound from 0 to 29,999.
pub open spec fn dec_cell(v: int) -> int {
    wrap_tape(v + (TAPE_LEN as int - 1))
}

/// What an Output token emits for a cell value: the corresponding character
/// for values in `[0, 127]`, the placeholder otherwise.
pub open spec fn output_char(v: int) -> char {
    if 0 <= v <= 127 {
        ((v as u8) as char)
    } else {
        '?'
    }
}

/// The line the next Input token reads: the next scripted line, or an empty
/// line once the script is exhausted (as a closed input stream yields).
pub open spec fn input_line(c: Config) -> Seq<char> {
    if 0 <= c.next_input < c.inputs.len() {
        c.inputs[c.next_input]
    } else {
        Seq::empty()
    }
}

/// Where a loop entry on a zero cell resumes: scan forward from `ip` with a
/// depth counter that counts a loop marker as +1 and every other token as
/// -1, and stop at the token that returns the depth to zero.  `None` when
/// the scan runs off the end of the tokens: the loop is unmatched.
pub open spec fn skip_target(tokens: Seq<Token>, ip: int, depth: int) -> Option<int>
    recommends
        0 <= ip,
        depth >= 1,
    decreases tokens.len() - ip,
{
    if ip < 0 || ip >= tokens.len() {
        None
    } else {
        let d = if tokens[ip] is LoopMarker {
            depth + 1
        } else {
            depth - 1
        };
        if d == 0 {
            Some(ip)
        } else {
            skip_target(tokens, ip + 1, d)
        }
    }
}

/// Advance past the token just dispatched, then apply the implicit
/// loop-close test: if the token now reached is a loop marker, a non-zero
/// cell jumps back to the popped loop start (an empty stack is a structural
/// error), and a zero cell pops without jumping.
pub open spec fn advance_close(c: Config) -> Result<Config, PipeError> {
    let ip2 = c.ip + 1;
    if ip2 < c.tokens.len() && c.tokens[ip2] is LoopMarker {
        if c.tape[c.position] != 0 {
            if c.stack.len() == 0 {
                Err(PipeError::UnmatchedLoopEnd { position: ip2 as usize })
            } else {
                Ok(Config { ip: c.stack.last(), stack: c.stack.drop_last(), ..c })
            }
        } else {
            let popped = if c.stack.len() > 0 {
                c.stack.drop_last()
            } else {
                c.stack
            };
            Ok(Config { ip: ip2, stack: popped, ..c })
        }
    } else {
        Ok(Config { ip: ip2, ..c })
    }
}

/// One full step at `c.ip`: dispatch the token there, advance, and apply
/// the loop-close test.
pub open spec fn step(c: Config) -> Result<Config, PipeError>
    recommends
        0 <= c.ip < c.tokens.len(),
        0 <= c.position < c.tape.len(),
{
    if c.tokens[c.ip] is LoopMarker {
        if c.tape[c.position] == 0 {
            match skip_target(c.tokens, c.ip + 1, 1) {
                Some(j) => advance_close(Config { ip: j, ..c }),
                None => Err(
                    PipeError::UnmatchedLoopStart { position: c.tokens.len() as usize },
                ),
            }
        } else {
            advance_close(Config { stack: c.stack.push(c.ip), ..c })
        }
    } else {
        let cell = c.tape[c.position];
        let d = match c.tokens[c.ip] {
            Token::Reset => Config { tape: zero_tape(), position: 0, ..c },
            Token::Increment => Config {
                tape: c.tape.update(c.position, inc_cell(cell)),
                ..c
            },
            Token::Decrement => Config {
                tape: c.tape.update(c.position, dec_cell(cell)),
                ..c
            },
            Token::Input => {
                let prompted = c.out.push(OutEvent::Prompt);
                match parse_line_spec(input_line(c)) {
                    Some(v) => Config {
                        out: prompted,
                        tape: c.tape.update(c.position, v),
                        next_input: c.next_input + 1,
                        ..c
                    },
                    None => Config {
                        out: prompted.push(OutEvent::InvalidInput),
                        tape: c.tape.update(c.position, 0),
                        next_input: c.next_input + 1,
                        ..c
                    },
                }
            },
            Token::Output => Config {
                out: c.out.push(OutEvent::Char(output_char(cell))),
                ..c
            },
            Token::Newline => Config { out: c.out.push(OutEvent::Newline), ..c },
            Token::LoopMarker => c,
        };
        advance_close(d)
    }
}

/// Run at most `fuel` steps from `c`.  `Some(Ok(h))` is a normal halt in
/// configuration `h` (the instruction pointer passed the last token);
/// `Some(Err(e))` a structural failure; `None` means the program was still
/// running when the fuel ran out.
pub open spec fn run(c: Config, fuel: nat) -> Option<Result<Config, PipeError>>
    decreases fuel,
{
    if c.ip >= c.tokens.len() {
        Some(Ok(c))
    } else if fuel == 0 {
        None
    } else {
        match step(c) {
            Ok(c2) => run(c2, (fuel - 1) as nat),
            Err(e) => Some(Err(e)),
        }
    }
}

/// `c2` is reached from `c1` by exactly `n` steps, none of which halts or
/// fails.
pub open spec fn reaches(c1: Config, n: nat, c2: Config) -> bool
    decreases n,
{
    if n == 0 {
        c1 == c2
    } else {
        &&& c1.ip < c1.tokens.len()
        &&& step(c1) is Ok
        &&& reaches(step(c1)->Ok_0, (n - 1) as nat, c2)
    }
}

/// The starting configuration for a program, an input script, and the
/// interpreter's current tape and position.
pub open spec fn init_config(
    tokens: Seq<Token>,
    inputs: Seq<Seq<char>>,
    tape: Seq<int>,
    position: int,
) -> Config {
    Config {
        tokens,
        inputs,
        next_input: 0,
        tape,
        position,
        ip: 0,
        stack: Seq::empty(),
        out: Seq::empty(),
    }
}

/// The views of a vector of input lines.
pub open spec fn lines_view(lines: Seq<String>) -> Seq<Seq<char>> {
    lines.map_values(|s: String| s@)
}

/// A reached configuration can take one more successful step.
proof fn lemma_reaches_snoc(c1: Config, n: nat, c2: Config, c3: Config)
    requires
        reaches(c1, n, c2),
        c2.ip < c2.tokens.len(),
        step(c2) == Ok::<Config, PipeError>(c3),
    ensures
        reaches(c1, n + 1, c3),
    decreases n,
{
    if n == 0 {
        assert(c1 == c2);
        assert(reaches(c3, 0, c3));
        assert(reaches(c1, 1, c3));
    } else {
        lemma_reaches_snoc(step(c1)->Ok_0, (n - 1) as nat, c2, c3);
        assert(reaches(step(c1)->Ok_0, n, c3));
        assert(((n + 1 - 1) as nat) == n);
        assert(reaches(c1, n + 1, c3));
    }
}

/// Fuel spent reaching `c2` adds up: an outcome of `run` from `c2` is the
/// outcome of `run` from `c1` with `n` more fuel.
proof fn lemma_reaches_run(
    c1: Config,
    n: nat,
    c2: Config,
    fuel: nat,
    r: Result<Config, PipeError>,
)
    requires
        reaches(c1, n, c2),
        run(c2, fuel) == Some(r),
    ensures
        run(c1, n + fuel) == Some(r),
    decreases n,
{
    if n == 0 {
    } else {
        lemma_reaches_run(step(c1)->Ok_0, (n - 1) as nat, c2, fuel, r);
    }
}

/// More fuel never changes a settled outcome: once `run` halts or fails,
/// any larger fuel bound gives the same answer.
proof fn lemma_run_monotone(c: Config, f1: nat, f2: nat, r: Result<Config, PipeError>)
    requires
        run(c, f1) == Some(r),
        f1 <= f2,
    ensures
        run(c, f2) == Some(r),
    decreases f1,
{
    if c.ip >= c.tokens.len() {
    } else {
        match step(c) {
            Ok(c2) => {
                lemma_run_monotone(c2, (f1 - 1) as nat, (f2 - 1) as nat, r);
            },
            Err(_) => {},
        }
    }
}

/// A configuration still running after exactly `n` steps means `run` with
/// fuel `n` gives no outcome yet.
proof fn lemma_reaches_run_none(c1: Config, n: nat, c2: Config)
    requires
        reaches(c1, n, c2),
        c2.ip < c2.tokens.len(),
    ensures
        run(c1, n) == None::<Result<Config, PipeError>>,
    decreases n,
{
    if n == 0 {
    } else {
        lemma_reaches_run_none(step(c1)->Ok_0, (n - 1) as nat, c2);
    }
}

/// The semantics is deterministic: any two fuel bounds that let `run`
/// finish give the same outcome, so a settled outcome does not depend on
/// the budget that reached it and the contract of `interpret` pins its
/// result down to exactly one value.
pub proof fn lemma_run_deterministic(
    c: Config,
    f1: nat,
    f2: nat,
    r1: Result<Config, PipeError>,
    r2: Result<Config, PipeError>,
)
    requires
        run(c, f1) == Some(r1),
        run(c, f2) == Some(r2),
    ensures
        r1 == r2,
    decreases f1,
{
    if c.ip >= c.tokens.len() {
    } else {
        match step(c) {
            Ok(c2) => {
                lemma_run_deterministic(c2, (f1 - 1) as nat, (f2 - 1) as nat, r1, r2);
            },
            Err(_) => {},
        }
    }
}

/// Stepping is deterministic too: exactly one configuration is reached by
/// `n` steps, so an out-of-fuel result of `interpret` is also pinned down.
pub proof fn lemma_reaches_deterministic(c: Config, n: nat, a: Config, b: Config)
    requires
        reaches(c, n, a),
        reaches(c, n, b),
    ensures
        a == b,
    decreases n,
{
    if n == 0 {
    } else {
        lemma_reaches_deterministic(step(c)->Ok_0, (n - 1) as nat, a, b);
    }
}

/// A program with no tokens halts at once, whatever the fuel: the
/// configuration, tape included, is returned unchanged.
pub proof fn lemma_empty_program_halts(c: Config, fuel: nat)
    requires
        c.tokens.len() == 0,
        c.ip >= 0,
    ensures
        run(c, fuel) == Some(Ok::<Config, PipeError>(c)),
{
}

/// A source made only of unrecognized characters runs as the empty
/// program: the machine halts at once with tape, position, and every other
/// part of its state unchanged, and emits nothing.
pub proof fn lemma_inert_source_halts_unchanged(
    s: Seq<char>,
    inputs: Seq<Seq<char>>,
    tape: Seq<int>,
    position: int,
    fuel: nat,
)
    requires
        forall|i: int| 0 <= i < s.len() ==> !crate::token::is_recognized(s[i]),
    ensures
        ({
            let init0 = init_config(crate::token::spec_tokenize(s), inputs, tape, position);
            run(init0, fuel) == Some(Ok::<Config, PipeError>(init0))
        }),
{
    crate::token::lemma_unrecognized_tokenize_empty(s);
}

/// Increment then Decrement returns any in-range cell value to where it
/// started: the two mutations are inverses on `[0, 29999]`.
pub proof fn lemma_increment_decrement_inverse(v: int)
    requires
        0 <= v < TAPE_LEN as int,
    ensures
        dec_cell(inc_cell(v)) == v,
{
    let m = TAPE_LEN as int;
    if v == m - 1 {
        lemma_mod_self_0(m);
        assert(inc_cell(v) == 0);
        lemma_small_mod((m - 1) as nat, m as nat);
        assert(dec_cell(0) == m - 1);
    } else {
        lemma_small_mod((v + 1) as nat, m as nat);
        assert(inc_cell(v) == v + 1);
        lemma_mod_self_0(m);
        lemma_add_mod_noop(v, m, m);
        lemma_small_mod(v as nat, m as nat);
        assert(dec_cell(v + 1) == (v + m) % m);
        assert((v + m) % m == ((v % m) + (m % m)) % m);
        assert(dec_cell(v + 1) == v);
    }
}

/// The cell value after `n` Increment tokens.
pub open spec fn inc_iter(v: int, n: nat) -> int
    decreases n,
{
    if n == 0 {
        v
    } else {
        inc_cell(inc_iter(v, (n - 1) as nat))
    }
}

/// Repeated increments add up modulo the tape bound.
proof fn lemma_inc_iter_mod(v: int, n: nat)
    requires
        0 <= v < TAPE_LEN as int,
    ensures
        inc_iter(v, n) == (v + n) % (TAPE_LEN as int),
    decreases n,
{
    let m = TAPE_LEN as int;
    if n == 0 {
        lemma_small_mod(v as nat, m as nat);
    } else {
        lemma_inc_iter_mod(v, (n - 1) as nat);
        let w = (v + n - 1) % m;
        assert(0 <= w < m) by {
            vstd::arithmetic::div_mod::lemma_mod_division_less_than_divisor(v + n - 1, m);
        }
        assert(inc_iter(v, n) == (w + 1) % m);
        lemma_small_mod(1nat, m as nat);
        lemma_add_mod_noop(v + n - 1, 1, m);
        assert((w + (1int % m)) % m == (v + n) % m);
        vstd::arithmetic::div_mod::lemma_mod_twice(v + n - 1, m);
        assert((w % m + 1int % m) % m == (v + n) % m);
        assert(w % m == w) by {
            lemma_small_mod(w as nat, m as nat);
        }
    }
}

/// Applying Increment exactly 30,000 times returns a cell to the value it
/// held before: the wraparound is a full cycle.
pub proof fn lemma_increment_full_cycle(v: int)
    requires
        0 <= v < TAPE_LEN as int,
    ensures
        inc_iter(v, TAPE_LEN as nat) == v,
{
    let m = TAPE_LEN as int;
    lemma_inc_iter_mod(v, TAPE_LEN as nat);
    lemma_mod_self_0(m);
    lemma_small_mod(v as nat, m as nat);
    lemma_add_mod_noop(v, m, m);
}

/// A fresh all-zero tape vector.
fn zero_tape_vec() -> (t: Vec<i32>)
    ensures
        t@.map_values(|x: i32| x as int) == zero_tape(),
{
    let mut t: Vec<i32> = Vec::new();
    let mut i: usize = 0;
    while i < TAPE_LEN
        invariant
            i <= TAPE_LEN,
            t@.len() == i,
            forall|k: int| 0 <= k < i ==> t@[k] == 0i32,
        decreases TAPE_LEN - i,
    {
        t.push(0);
        i = i + 1;
    }
    proof {
        assert(t@.map_values(|x: i32| x as int) =~= zero_tape());
    }
    t
}

/// The cell value after Increment, over the executable cell type: add one
/// and reduce by the truncating remainder, never overflowing.
fn cell_inc(v: i32) -> (r: i32)
    ensures
        r as int == inc_cell(v as int),
{
    if v >= 0 {
        let s: u64 = v as u64 + 1;
        (s % (TAPE_LEN as u64)) as i32
    } else {
        // v + 1 <= 0: wrap the magnitude, then negate
        let m: u64 = (-((v as i64) + 1)) as u64;
        let k: u64 = m % (TAPE_LEN as u64);
        (-(k as i64)) as i32
    }
}

/// The cell value after Decrement, over the executable cell type.
fn cell_dec(v: i32) -> (r: i32)
    ensures
        r as int == dec_cell(v as int),
{
    let shifted: i64 = v as i64 + (TAPE_LEN as i64 - 1);
    if shifted >= 0 {
        ((shifted as u64) % (TAPE_LEN as u64)) as i32
    } else {
        let m: u64 = (-shifted) as u64;
        let k: u64 = m % (TAPE_LEN as u64);
        (-(k as i64)) as i32
    }
}

/// The interpreter: a fixed-length tape of wrapping cells and the position
/// of the cell that every mutation and I/O token acts on.
pub struct PipeInterpreter {
    tape: Vec<i32>,
    pointer: usize,
}

impl PipeInterpreter {
    /// The tape contents as mathematical integers.
    pub closed spec fn tape_view(&self) -> Seq<int> {
        self.tape@.map_values(|x: i32| x as int)
    }

    /// The current tape position.
    pub closed spec fn position_view(&self) -> int {
        self.pointer as int
    }

    /// The structural invariant: exactly 30,000 cells, position in range.
    pub open spec fn wf(&self) -> bool {
        &&& self.tape_view().len() == TAPE_LEN as int
        &&& 0 <= self.position_view() < TAPE_LEN as int
    }

    /// A fresh interpreter: 30,000 zero cells, position 0.
    pub fn new() -> (r: Self)
        ensures
            r.wf(),
            r.tape_view() == zero_tape(),
            r.position_view() == 0,
    {
        let r = PipeInterpreter { tape: zero_tape_vec(), pointer: 0 };
        proof {
            assert(zero_tape().len() == TAPE_LEN as int);
        }
        r
    }

    /// Replace the tape with fresh zeros and return to position 0,
    /// regardless of the prior tape contents or position.
    pub fn reset(&mut self)
        ensures
            final(self).wf(),
            final(self).tape_view() == zero_tape(),
            final(self).position_view() == 0,
    {
        self.tape = zero_tape_vec();
        self.pointer = 0;
        proof {
            assert(zero_tape().len() == TAPE_LEN as int);
        }
    }

    /// Read the cell at index `i`.
    pub fn cell(&self, i: usize) -> (v: i32)
        requires
            self.wf(),
            i < TAPE_LEN,
        ensures
            v as int == self.tape_view()[i as int],
    {
        self.tape[i]
    }

    /// The current position.
    pub fn position(&self) -> (p: usize)
        ensures
            p as int == self.position_view(),
    {
        self.pointer
    }

    /// Execute `tokens` against this interpreter's tape, reading input lines
    /// from the script `inputs` (reads past its end behave as empty lines)
    /// and performing at most `fuel` steps — the language can express
    /// programs that never halt, so a caller states how long it is willing
    /// to wait; `u64::MAX` outlasts any machine.
    ///
    /// The result is exactly what the operational semantics prescribes:
    /// [`run`] from the starting configuration with this fuel gives a halt,
    /// a structural error, or no outcome yet, and the result mirrors it —
    /// on a halt the returned events are the halt configuration's output and
    /// the tape and position are its tape and position; on a structural
    /// error, the same error; out of fuel, the output and tape of the
    /// configuration reached after exactly `fuel` steps.
    #[verifier::loop_isolation(false)]
    pub fn interpret(&mut self, tokens: Vec<Token>, inputs: Vec<String>, fuel: u64) -> (r: Result<
        RunOutcome,
        PipeError,
    >)
        requires
            old(self).wf(),
        ensures
            final(self).wf(),
            ({
                let init0 = init_config(
                    tokens@,
                    lines_view(inputs@),
                    old(self).tape_view(),
                    old(self).position_view(),
                );
                match run(init0, fuel as nat) {
                    Some(outcome) => match outcome {
                        Ok(fc) => r matches Ok(RunOutcome::Halted(events))
                            && events@ == fc.out
                            && final(self).tape_view() == fc.tape
                            && final(self).position_view() == fc.position,
                        Err(e) => r == Err::<RunOutcome, PipeError>(e),
                    },
                    None => r matches Ok(RunOutcome::OutOfFuel(events))
                        && exists|c: Config|
                            #[trigger] reaches(init0, fuel as nat, c)
                                && events@ == c.out
                                && final(self).tape_view() == c.tape
                                && final(self).position_view() == c.position,
                }
            }),
    {
        let ghost init = init_config(
            tokens@,
            lines_view(inputs@),
            self.tape_view(),
            self.position_view(),
        );
        let n = tokens.len();
        let mut ip: usize = 0;
        let mut loop_stack: Vec<usize> = Vec::new();
        let mut out: Vec<OutEvent> = Vec::new();
        let mut next_input: usize = 0;
        let mut fuel_left: u64 = fuel;
        let ghost mut cur: Config = init;
        let ghost mut steps: nat = 0nat;
        proof {
            assert(loop_stack@.map_values(|x: usize| x as int) =~= Seq::<int>::empty());
        }
        while ip < n && fuel_left > 0
            invariant
                self.wf(),
                ip <= n,
                next_input <= inputs@.len(),
                steps + fuel_left == fuel,
                forall|k: int| 0 <= k < loop_stack@.len() ==> #[trigger] loop_stack@[k] < n,
                cur.tokens == tokens@,
                cur.inputs == lines_view(inputs@),
                cur.tape == self.tape_view(),
                cur.position == self.position_view(),
                cur.ip == ip as int,
                cur.stack == loop_stack@.map_values(|x: usize| x as int),
                cur.out == out@,
                cur.next_input >= 0,
                next_input as int == (if cur.next_input <= inputs@.len() {
                    cur.next_input
                } else {
                    inputs@.len() as int
                }),
                reaches(init, steps, cur),
            decreases fuel_left,
        {
            let ghost pre = cur;
            let ghost mut d: Config = pre;
            let t = tokens[ip];
            match t {
                Token::LoopMarker => {
                    let cell = self.tape[self.pointer];
                    if cell == 0 {
                        let ghost start = ip as int;
                        let mut depth: usize = 1;
                        while depth > 0
                            invariant
                                start <= ip < n,
                                depth as int <= ip - start + 1,
                                depth > 0 ==> skip_target(tokens@, start + 1, 1)
                                    == skip_target(tokens@, ip + 1, depth as int),
                                depth == 0 ==> skip_target(tokens@, start + 1, 1)
                                    == Some(ip as int),
                            decreases n - ip,
                        {
                            ip = ip + 1;
                            if ip >= n {
                                proof {
                                    assert(skip_target(tokens@, ip as int, depth as int)
                                        is None);
                                    let e = PipeError::UnmatchedLoopStart { position: ip };
                                    assert(step(pre) == Err::<Config, PipeError>(e));
                                    assert(run(pre, 1) == Some(Err::<Config, PipeError>(e)));
                                    lemma_reaches_run(init, steps, pre, 1, Err(e));
                                    lemma_run_monotone(init, steps + 1, fuel as nat, Err(e));
                                }
                                return Err(PipeError::UnmatchedLoopStart { position: ip });
                            }
                            let t2 = tokens[ip];
                            let is_marker = match t2 {
                                Token::LoopMarker => true,
                                _ => false,
                            };
                            if is_marker {
                                depth = depth + 1;
                            } else {
                                depth = depth - 1;
                            }
                        }
                        proof {
                            d = Config { ip: ip as int, ..pre };
                        }
                    } else {
                        loop_stack.push(ip);
                        proof {
                            d = Config { stack: pre.stack.push(pre.ip), ..pre };
                            assert(loop_stack@.map_values(|x: usize| x as int) =~= d.stack);
                        }
                    }
                },
                Token::Reset => {
                    self.tape = zero_tape_vec();
                    self.pointer = 0;
                    proof {
                        d = Config { tape: zero_tape(), position: 0, ..pre };
                    }
                },
                Token::Increment => {
                    let cell = self.tape[self.pointer];
                    let bumped = cell_inc(cell);
                    self.tape[self.pointer] = bumped;
                    proof {
                        d = Config {
                            tape: pre.tape.update(pre.position, inc_cell(pre.tape[pre.position])),
                            ..pre
                        };
                        assert(self.tape_view() =~= d.tape);
                    }
                },
                Token::Decrement => {
                    let cell = self.tape[self.pointer];
                    let bumped = cell_dec(cell);
                    self.tape[self.pointer] = bumped;
                    proof {
                        d = Config {
                            tape: pre.tape.update(pre.position, dec_cell(pre.tape[pre.position])),
                            ..pre
                        };
                        assert(self.tape_view() =~= d.tape);
                    }
                },
                Token::Input => {
                    out.push(OutEvent::Prompt);
                    let parsed: Option<i32>;
                    if next_input < inputs.len() {
                        parsed = parse_input_line(inputs[next_input].as_str());
                        proof {
                            assert(input_line(pre) == inputs@[next_input as int]@);
                        }
                        next_input = next_input + 1;
                    } else {
                        parsed = None;
                        proof {
                            let empty = Seq::<char>::empty();
                            assert(input_line(pre) == empty);
                            assert(crate::input::trim_start_spec(empty) == empty);
                            assert(crate::input::trim_spec(empty) == empty);
                            assert(parse_line_spec(empty) is None);
                        }
                    }
                    match parsed {
                        Some(v) => {
                            self.tape[self.pointer] = v;
                            proof {
                                d = Config {
                                    out: pre.out.push(OutEvent::Prompt),
                                    tape: pre.tape.update(pre.position, v as int),
                                    next_input: pre.next_input + 1,
                                    ..pre
                                };
                                assert(self.tape_view() =~= d.tape);
                            }
                        },
                        None => {
                            out.push(OutEvent::InvalidInput);
                            self.tape[self.pointer] = 0;
                            proof {
                                d = Config {
                                    out: pre.out.push(OutEvent::Prompt).push(
                                        OutEvent::InvalidInput,
                                    ),
                                    tape: pre.tape.update(pre.position, 0),
                                    next_input: pre.next_input + 1,
                                    ..pre
                                };
                                assert(self.tape_view() =~= d.tape);
                            }
                        },
                    }
                },
                Token::Output => {
                    let cell = self.tape[self.pointer];
                    let ch: char = if cell >= 0 && cell <= 127 {
                        (cell as u8) as char
                    } else {
                        '?'
                    };
                    out.push(OutEvent::Char(ch));
                    proof {
                        assert(ch == output_char(pre.tape[pre.position]));
                        d = Config {
                            out: pre.out.push(OutEvent::Char(output_char(pre.tape[pre.position]))),
                            ..pre
                        };
                    }
                },
                Token::Newline => {
                    out.push(OutEvent::Newline);
                    proof {
                        d = Config { out: pre.out.push(OutEvent::Newline), ..pre };
                    }
                },
            }
            proof {
                assert(step(pre) == advance_close(d));
                assert(d.tape == self.tape_view());
                assert(d.position == self.position_view());
            }
            ip = ip + 1;
            if ip < n {
                let tnext = tokens[ip];
                let is_marker = match tnext {
                    Token::LoopMarker => true,
                    _ => false,
                };
                if is_marker {
                    let cell = self.tape[self.pointer];
                    if cell != 0 {
                        match loop_stack.pop() {
                            Some(back) => {
                                proof {
                                    assert(d.stack.last() == back as int);
                                    assert(loop_stack@.map_values(|x: usize| x as int)
                                        =~= d.stack.drop_last());
                                }
                                ip = back;
                            },
                            None => {
                                proof {
                                    let e = PipeError::UnmatchedLoopEnd { position: ip };
                                    assert(advance_close(d) == Err::<Config, PipeError>(e));
                                    assert(step(pre) == Err::<Config, PipeError>(e));
                                    assert(run(pre, 1) == Some(Err::<Config, PipeError>(e)));
                                    lemma_reaches_run(init, steps, pre, 1, Err(e));
                                    lemma_run_monotone(init, steps + 1, fuel as nat, Err(e));
                                }
                                return Err(PipeError::UnmatchedLoopEnd { position: ip });
                            },
                        }
                    } else {
                        let _ = loop_stack.pop();
                        proof {
                            if pre.stack.len() > 0 {
                                assert(loop_stack@.map_values(|x: usize| x as int)
                                    =~= d.stack.drop_last());
                            } else {
                                assert(loop_stack@.map_values(|x: usize| x as int) =~= d.stack);
                            }
                        }
                    }
                }
            }
            proof {
                let next = Config {
                    tokens: tokens@,
                    inputs: lines_view(inputs@),
                    next_input: d.next_input,
                    tape: d.tape,
                    position: d.position,
                    ip: ip as int,
                    stack: loop_stack@.map_values(|x: usize| x as int),
                    out: d.out,
                };
                assert(advance_close(d) == Ok::<Config, PipeError>(next));
                assert(step(pre) == Ok::<Config, PipeError>(next));
                lemma_reaches_snoc(init, steps, pre, next);
                steps = steps + 1nat;
                cur = next;
            }
            fuel_left = fuel_left - 1;
        }
        if ip < n {
            // the step budget ran out first
            proof {
                assert(steps == fuel as nat);
                lemma_reaches_run_none(init, steps, cur);
                assert(run(init, fuel as nat) is None);
            }
            return Ok(RunOutcome::OutOfFuel(out));
        }
        proof {
            assert(run(cur, 0) == Some(Ok::<Config, PipeError>(cur)));
            lemma_reaches_run(init, steps, cur, 0, Ok(cur));
            assert(run(init, steps) == Some(Ok::<Config, PipeError>(cur)));
            lemma_run_monotone(init, steps, fuel as nat, Ok(cur));
        }
        Ok(RunOutcome::Halted(out))
    }
}

} // verus!
