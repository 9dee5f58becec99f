//! A Brainfuck interpreter that supports breakpoints, single-stepping, and
//! inspection and mutation of the tape.

use std::collections::HashMap;
use std::collections::HashSet;
use std::io::Write;

use vstd::prelude::*;
use vstd::string::StringExecFns;

use crate::ir::BrainfuckInstruction;
use crate::ir::balanced;
use crate::ir::balanced_from;
use crate::ir::bracket_delta;
use crate::ir::brackets_match;
use crate::ir::lemma_balanced_suffix;
use crate::ir::lemma_balanced_total;
use crate::ir::open_depth;
use crate::text::dec_rep;
use crate::text::push_decimal;

verus! {

broadcast use vstd::std_specs::hash::group_hash_axioms;

/// Number of cells on the interpreter's tape.
pub const TAPE_LEN: usize = 3000;

/// StopReason represents a reason the Interpreter might stop running.
#[derive(Debug, PartialEq, Eq, Structural)]
pub enum StopReason {
    /// Breakpoint means that the Interpreter stopped on an instruction that
    /// has a breakpoint set on it.
    Breakpoint(usize),
    /// Done means that the Interpreter finished executing the program.
    Done,
}

/// The text of the failure every accessor returns for an address beyond the
/// bounds it checks.
pub open spec fn oob_message(address: usize) -> Seq<char> {
    "Address out of bounds: "@ + dec_rep(address as nat)
}

/// Builds the out-of-bounds failure text for `address`.
fn oob_error(address: usize) -> (r: String)
    ensures
        r@ == oob_message(address),
{
    let mut r = String::from_str("Address out of bounds: ");
    push_decimal(&mut r, address);
    r
}

/// The bracket stack and the jump table after scanning the first `i`
/// instructions: `Open` pushes its index; `Close` pops its partner `o` and
/// records `o -> c + 1` and `c -> o + 1`.
pub open spec fn jump_scan(code: Seq<BrainfuckInstruction>, i: int) -> (Seq<usize>, Map<
    usize,
    usize,
>)
    decreases i,
{
    if i <= 0 {
        (Seq::empty(), Map::empty())
    } else {
        let (stack, table) = jump_scan(code, i - 1);
        let j = i - 1;
        if code[j] == BrainfuckInstruction::Open {
            (stack.push(j as usize), table)
        } else if code[j] == BrainfuckInstruction::Close {
            if stack.len() > 0 {
                let o = stack.last();
                (
                    stack.drop_last(),
                    table.insert(j as usize, (o + 1) as usize).insert(o, (j + 1) as usize),
                )
            } else {
                (stack, table)
            }
        } else {
            (stack, table)
        }
    }
}

/// The jump table of a whole program.
pub open spec fn jump_table_spec(code: Seq<BrainfuckInstruction>) -> Map<usize, usize> {
    jump_scan(code, code.len() as int).1
}

/// A Brainfuck interpreter that supports breakpoints.
pub struct Interpreter {
    /// The program being interpreted.
    pub code: Vec<BrainfuckInstruction>,
    /// The tape of `TAPE_LEN` cells, all zero at construction.
    pub tape: Vec<u8>,
    /// The cell the counted and scan instructions act on.
    pub data_pointer: usize,
    /// The next instruction to execute; the program length once done.
    pub instruction_pointer: usize,
    /// The code addresses at which `run` stops.
    pub breakpoints: HashSet<usize>,
    /// For each bracket index, the address just past its partner.
    pub jump_table: HashMap<usize, usize>,
}

impl Interpreter {
    /// The internal consistency every operation preserves: a full-size
    /// tape, both pointers in bounds, a balanced program, and the jump
    /// table that `jump_table_spec` assigns to it.
    pub open spec fn wf(self) -> bool {
        &&& self.tape@.len() == TAPE_LEN
        &&& self.data_pointer < TAPE_LEN
        &&& self.instruction_pointer <= self.code@.len()
        &&& balanced(self.code@)
        &&& self.jump_table@ == jump_table_spec(self.code@)
        &&& forall|a: usize| #[trigger] self.breakpoints@.contains(a) ==> a < self.code@.len()
    }

    /// Creates a new Interpreter from some input program.
    ///
    /// The program must be balanced: a `Close` with no earlier partner, or
    /// an `Open` never closed, admits no jump table. `is_balanced` in the
    /// `ir` module decides that ahead of this call.
    ///
    /// # Arguments
    ///
    /// * `code` - A sequence of BrainfuckInstructions to be interpreted.
    pub fn new(code: Vec<BrainfuckInstruction>) -> (result: Self)
        requires
            balanced(code@),
        ensures
            result.wf(),
            result.code@ == code@,
            result.tape@ == Seq::new(TAPE_LEN as nat, |i: int| 0u8),
            result.data_pointer == 0,
            result.instruction_pointer == 0,
            result.breakpoints@ == Set::<usize>::empty(),
            result.jump_table@ == jump_table_spec(code@),
    {
        let jump_table = compute_jump_table(&code);
        let mut tape: Vec<u8> = Vec::new();
        while tape.len() < TAPE_LEN
            invariant
                tape@.len() <= TAPE_LEN,
                forall|i: int| 0 <= i < tape@.len() ==> tape@[i] == 0u8,
            decreases TAPE_LEN - tape@.len(),
        {
            tape.push(0u8);
        }
        proof {
            assert(tape@ =~= Seq::new(TAPE_LEN as nat, |i: int| 0u8));
        }
        Self {
            code,
            tape,
            data_pointer: 0,
            instruction_pointer: 0,
            breakpoints: HashSet::new(),
            jump_table,
        }
    }

    /// Sets a breakpoint at the specified code address. Returns whether the
    /// set changed; fails when the address lies beyond the program.
    ///
    /// # Arguments
    ///
    /// * `address` - The code address to set a breakpoint at.
    pub fn set_breakpoint(&mut self, address: usize) -> (r: Result<bool, String>)
        requires
            old(self).wf(),
        ensures
            final(self).wf(),
            final(self).code@ == old(self).code@,
            final(self).tape@ == old(self).tape@,
            final(self).data_pointer == old(self).data_pointer,
            final(self).instruction_pointer == old(self).instruction_pointer,
            final(self).jump_table@ == old(self).jump_table@,
            address < old(self).code@.len() ==> {
                &&& final(self).breakpoints@ == old(self).breakpoints@.insert(address)
                &&& (r matches Ok(changed) && changed == !old(self).breakpoints@.contains(address))
            },
            address >= old(self).code@.len() ==> {
                &&& final(self).breakpoints@ == old(self).breakpoints@
                &&& (r matches Err(e) && e@ == oob_message(address))
            },
    {
        if address >= self.code.len() {
            Err(oob_error(address))
        } else {
            Ok(self.breakpoints.insert(address))
        }
    }

    /// Removes a breakpoint at the specified code address; returns whether
    /// the set changed.
    ///
    /// # Arguments
    ///
    /// * `address` - The code address to delete a breakpoint from.
    pub fn delete_breakpoint(&mut self, address: usize) -> (r: bool)
        requires
            old(self).wf(),
        ensures
            final(self).wf(),
            final(self).code@ == old(self).code@,
            final(self).tape@ == old(self).tape@,
            final(self).data_pointer == old(self).data_pointer,
            final(self).instruction_pointer == old(self).instruction_pointer,
            final(self).jump_table@ == old(self).jump_table@,
            final(self).breakpoints@ == old(self).breakpoints@.remove(address),
            r == old(self).breakpoints@.contains(address),
    {
        self.breakpoints.remove(&address)
    }

    /// Reads a value from the tape at the specified address; fails when the
    /// address lies beyond the tape.
    ///
    /// # Arguments
    ///
    /// * `address` - The tape address to read.
    pub fn get(&self, address: usize) -> (r: Result<u8, String>)
        requires
            self.wf(),
        ensures
            address < TAPE_LEN ==> (r matches Ok(v) && v == self.tape@[address as int]),
            address >= TAPE_LEN ==> (r matches Err(e) && e@ == oob_message(address)),
    {
        if address >= self.tape.len() {
            Err(oob_error(address))
        } else {
            Ok(self.tape[address])
        }
    }

    /// Writes a value to the tape at the specified address and returns the
    /// previous value; fails when the address lies beyond the tape.
    ///
    /// # Arguments
    ///
    /// * `address` - The tape address to write to.
    /// * `value` - The value to write.
    pub fn set(&mut self, address: usize, value: u8) -> (r: Result<u8, String>)
        requires
            old(self).wf(),
        ensures
            final(self).wf(),
            final(self).code@ == old(self).code@,
            final(self).data_pointer == old(self).data_pointer,
            final(self).instruction_pointer == old(self).instruction_pointer,
            final(self).breakpoints@ == old(self).breakpoints@,
            final(self).jump_table@ == old(self).jump_table@,
            address < TAPE_LEN ==> {
                &&& final(self).tape@ == old(self).tape@.update(address as int, value)
                &&& (r matches Ok(prev) && prev == old(self).tape@[address as int])
            },
            address >= TAPE_LEN ==> {
                &&& final(self).tape@ == old(self).tape@
                &&& (r matches Err(e) && e@ == oob_message(address))
            },
    {
        if address >= self.tape.len() {
            Err(oob_error(address))
        } else {
            let old_value = self.tape[address];
            self.tape.set(address, value);
            Ok(old_value)
        }
    }

    /// Sets the instruction pointer to the specified code address; fails
    /// when the address lies beyond the program.
    ///
    /// # Arguments
    ///
    /// * `address` - The code address to jump to.
    pub fn jump(&mut self, address: usize) -> (r: Result<(), String>)
        requires
            old(self).wf(),
        ensures
            final(self).wf(),
            final(self).code@ == old(self).code@,
            final(self).tape@ == old(self).tape@,
            final(self).data_pointer == old(self).data_pointer,
            final(self).breakpoints@ == old(self).breakpoints@,
            final(self).jump_table@ == old(self).jump_table@,
            address < old(self).code@.len() ==> {
                &&& final(self).instruction_pointer == address
                &&& r matches Ok(u)
            },
            address >= old(self).code@.len() ==> {
                &&& final(self).instruction_pointer == old(self).instruction_pointer
                &&& (r matches Err(e) && e@ == oob_message(address))
            },
    {
        if address >= self.code.len() {
            Err(oob_error(address))
        } else {
            self.instruction_pointer = address;
            Ok(())
        }
    }

    /// Sets the data pointer to the specified tape address; fails when the
    /// address lies beyond the tape.
    ///
    /// # Arguments
    ///
    /// * `address` - The tape address to set the data pointer to.
    pub fn select(&mut self, address: usize) -> (r: Result<(), String>)
        requires
            old(self).wf(),
        ensures
            final(self).wf(),
            final(self).code@ == old(self).code@,
            final(self).tape@ == old(self).tape@,
            final(self).instruction_pointer == old(self).instruction_pointer,
            final(self).breakpoints@ == old(self).breakpoints@,
            final(self).jump_table@ == old(self).jump_table@,
            address < TAPE_LEN ==> {
                &&& final(self).data_pointer == address
                &&& r matches Ok(u)
            },
            address >= TAPE_LEN ==> {
                &&& final(self).data_pointer == old(self).data_pointer
                &&& (r matches Err(e) && e@ == oob_message(address))
            },
    {
        if address >= self.tape.len() {
            Err(oob_error(address))
        } else {
            self.data_pointer = address;
            Ok(())
        }
    }

    /// The execution state: what `step` and `run` act on.
    pub open spec fn state(self) -> ExecState {
        ExecState {
            tape: self.tape@,
            dp: self.data_pointer as int,
            ip: self.instruction_pointer as int,
        }
    }

    /// Executes a single BrainfuckInstruction: exactly one step of
    /// `step_spec`, for whatever byte standard input supplies if the
    /// instruction is `Read`.
    pub fn step(&mut self)
        requires
            old(self).wf(),
            old(self).instruction_pointer < old(self).code@.len(),
        ensures
            final(self).wf(),
            final(self).code@ == old(self).code@,
            final(self).breakpoints@ == old(self).breakpoints@,
            final(self).jump_table@ == old(self).jump_table@,
            step_rel(old(self).code@, old(self).state(), final(self).state()),
    {
        let ghost pre = old(self).state();
        let ghost code = old(self).code@;
        let ghost mut input: u8 = 0;
        let code_len = self.code.len();
        proof {
            lemma_jump_table_inverse(code);
        }

        let mut next_instruction_pointer = self.instruction_pointer + 1;

        let insn = self.code[self.instruction_pointer];
        match insn {
            BrainfuckInstruction::Add(count) => {
                let v = self.tape[self.data_pointer];
                self.tape.set(self.data_pointer, v.wrapping_add(count));
            },
            BrainfuckInstruction::Sub(count) => {
                let v = self.tape[self.data_pointer];
                self.tape.set(self.data_pointer, v.wrapping_sub(count));
            },
            BrainfuckInstruction::Right(count) => {
                if count < TAPE_LEN - self.data_pointer {
                    self.data_pointer += count;
                } else {
                    self.data_pointer = TAPE_LEN - 1;
                }
            },
            BrainfuckInstruction::Left(count) => {
                if count <= self.data_pointer {
                    self.data_pointer -= count;
                } else {
                    self.data_pointer = 0;
                }
            },
            BrainfuckInstruction::Read => {
                let b = read_input_byte();
                proof {
                    input = b;
                }
                self.tape.set(self.data_pointer, b);
            },
            BrainfuckInstruction::Write => {
                write_output_byte(self.tape[self.data_pointer]);
                flush_output();
            },
            BrainfuckInstruction::Open => {
                if self.tape[self.data_pointer] == 0 {
                    next_instruction_pointer = *self.jump_table.get(
                        &self.instruction_pointer,
                    ).unwrap();
                }
            },
            BrainfuckInstruction::Close => {
                if self.tape[self.data_pointer] != 0 {
                    next_instruction_pointer = *self.jump_table.get(
                        &self.instruction_pointer,
                    ).unwrap();
                }
            },
            BrainfuckInstruction::Store(value) => {
                self.tape.set(self.data_pointer, value);
            },
            BrainfuckInstruction::ScanRight => {
                let ghost dp0 = self.data_pointer as int;
                while self.tape[self.data_pointer] != 0 && self.data_pointer + 1 < TAPE_LEN
                    invariant
                        self.tape@ == old(self).tape@,
                        self.tape@.len() == TAPE_LEN,
                        dp0 <= self.data_pointer < TAPE_LEN,
                        scan_right_dest(self.tape@, self.data_pointer as int) == scan_right_dest(
                            self.tape@,
                            dp0,
                        ),
                        self.code@ == old(self).code@,
                        self.instruction_pointer == old(self).instruction_pointer,
                        self.breakpoints@ == old(self).breakpoints@,
                        self.jump_table@ == old(self).jump_table@,
                    decreases TAPE_LEN - self.data_pointer,
                {
                    self.data_pointer += 1;
                }
                proof {
                    assert(self.data_pointer as int == scan_right_dest(self.tape@, dp0));
                }
            },
            BrainfuckInstruction::ScanLeft => {
                let ghost dp0 = self.data_pointer as int;
                while self.tape[self.data_pointer] != 0 && self.data_pointer > 0
                    invariant
                        self.tape@ == old(self).tape@,
                        self.tape@.len() == TAPE_LEN,
                        0 <= self.data_pointer <= dp0,
                        dp0 < TAPE_LEN,
                        scan_left_dest(self.tape@, self.data_pointer as int) == scan_left_dest(
                            self.tape@,
                            dp0,
                        ),
                        self.code@ == old(self).code@,
                        self.instruction_pointer == old(self).instruction_pointer,
                        self.breakpoints@ == old(self).breakpoints@,
                        self.jump_table@ == old(self).jump_table@,
                    decreases self.data_pointer,
                {
                    self.data_pointer -= 1;
                }
                proof {
                    assert(self.data_pointer as int == scan_left_dest(self.tape@, dp0));
                }
            },
        }

        self.instruction_pointer = next_instruction_pointer;
        proof {
            assert(self.state() == step_spec(code, pre, input));
            assert(step_rel(code, pre, self.state()));
        }
    }

    /// Runs the Interpreter until either a breakpoint is hit or the program
    /// has run to completion. A breakpoint is checked only after a step, so
    /// a paused interpreter always makes progress when resumed.
    ///
    /// The loop carries a budget of `u64::MAX` steps so that it provably
    /// terminates; a program still running then is reported as `Done`, a
    /// count no real execution reaches.
    pub fn run(&mut self) -> (r: StopReason)
        requires
            old(self).wf(),
        ensures
            final(self).wf(),
            final(self).code@ == old(self).code@,
            final(self).breakpoints@ == old(self).breakpoints@,
            final(self).jump_table@ == old(self).jump_table@,
            reaches(old(self).code@, old(self).state(), final(self).state()),
            old(self).instruction_pointer < old(self).code@.len() ==> reaches_stepping(
                old(self).code@,
                old(self).state(),
                final(self).state(),
            ),
            (r matches StopReason::Breakpoint(a) ==> {
                &&& final(self).breakpoints@.contains(a)
                &&& final(self).instruction_pointer == a
                &&& a < final(self).code@.len()
            }),
            r == StopReason::Done ==> final(self).instruction_pointer == final(self).code@.len()
                || steps_n(
                old(self).code@,
                old(self).state(),
                final(self).state(),
                u64::MAX as nat,
            ),
    {
        let ghost s0 = old(self).state();
        let ghost code = old(self).code@;
        let ghost mut n: nat = 0;
        let mut fuel: u64 = u64::MAX;

        while self.instruction_pointer < self.code.len() && fuel > 0
            invariant
                code == old(self).code@,
                s0 == old(self).state(),
                self.wf(),
                self.code@ == old(self).code@,
                self.breakpoints@ == old(self).breakpoints@,
                self.jump_table@ == old(self).jump_table@,
                steps_n(code, s0, self.state(), n),
                n == u64::MAX - fuel,
                n == 0 ==> self.instruction_pointer == old(self).instruction_pointer,
            decreases fuel,
        {
            let ghost mid = self.state();
            let ghost n0 = n;
            self.step();
            fuel = fuel - 1;
            proof {
                n = n0 + 1;
                assert(step_rel(code, mid, self.state()));
                assert(steps_n(code, s0, self.state(), n)) by {
                    assert(steps_n(code, s0, mid, n0));
                }
            }

            if self.breakpoints.contains(&self.instruction_pointer) {
                proof {
                    assert(reaches(code, s0, self.state()));
                    assert(reaches_stepping(code, s0, self.state()));
                }
                return StopReason::Breakpoint(self.instruction_pointer);
            }
        }
        proof {
            assert(reaches(code, s0, self.state()));
            if n >= 1 {
                assert(reaches_stepping(code, s0, self.state()));
            }
        }
        StopReason::Done
    }
}

/// Everything that holds of the bracket stack and the jump table after the
/// first `i` instructions have been scanned.
spec fn jump_scan_inv(
    code: Seq<BrainfuckInstruction>,
    i: int,
    stack: Seq<usize>,
    table: Map<usize, usize>,
) -> bool {
    &&& stack.len() == open_depth(code, i)
    &&& (forall|k: int| 0 <= k < stack.len() ==> 0 <= #[trigger] stack[k] < i)
    &&& (forall|k: int|
        0 <= k < stack.len() ==> code[#[trigger] stack[k] as int] == BrainfuckInstruction::Open)
    &&& (forall|k: int|
        0 <= k < stack.len() ==> open_depth(code, #[trigger] stack[k] as int + 1) == k + 1)
    &&& (forall|k: int, j: int|
        #![trigger stack[k], open_depth(code, j)]
        0 <= k < stack.len() && stack[k] + 1 <= j <= i ==> open_depth(code, j) >= k + 1)
    &&& (forall|x: usize|
        #[trigger] table.contains_key(x) ==> x < i && (code[x as int] == BrainfuckInstruction::Open
            || code[x as int] == BrainfuckInstruction::Close) && !stack.contains(x))
    &&& (forall|x: usize|
        x < i && (code[x as int] == BrainfuckInstruction::Open || code[x as int]
            == BrainfuckInstruction::Close) && !stack.contains(x) ==> #[trigger] table.contains_key(
            x,
        ))
    &&& (forall|x: usize| #[trigger] table.contains_key(x) ==> 1 <= table[x] <= i)
    &&& (forall|o: int, c: int|
        #![trigger brackets_match(code, o, c)]
        c < i && brackets_match(code, o, c) ==> {
            &&& table.contains_key(o as usize)
            &&& table[o as usize] == c + 1
            &&& table.contains_key(c as usize)
            &&& table[c as usize] == o + 1
        })
}

/// The scan invariant holds at every prefix of a balanced program.
proof fn lemma_jump_scan_props(code: Seq<BrainfuckInstruction>, i: int)
    requires
        balanced(code),
        code.len() <= usize::MAX,
        0 <= i <= code.len(),
    ensures
        jump_scan_inv(code, i, jump_scan(code, i).0, jump_scan(code, i).1),
    decreases i,
{
    if i == 0 {
        return ;
    }
    lemma_jump_scan_props(code, i - 1);
    let (stack0, table0) = jump_scan(code, i - 1);
    let (stack, table) = jump_scan(code, i);
    let j = i - 1;
    if code[j] == BrainfuckInstruction::Open {
        assert(open_depth(code, i) == open_depth(code, i - 1) + 1);
        assert(stack == stack0.push(j as usize));
        assert(stack[stack.len() - 1] == j as usize);
        assert forall|k: int| 0 <= k < stack.len() implies open_depth(
            code,
            #[trigger] stack[k] as int + 1,
        ) == k + 1 by {
            if k < stack0.len() {
                assert(stack[k] == stack0[k]);
            } else {
                assert(stack[k] == j as usize);
            }
        }
        assert forall|k: int, j2: int|
            #![trigger stack[k], open_depth(code, j2)]
            0 <= k < stack.len() && stack[k] + 1 <= j2 <= i implies open_depth(code, j2) >= k
            + 1 by {
            if k < stack0.len() {
                assert(stack[k] == stack0[k]);
                if j2 <= i - 1 {
                    assert(open_depth(code, j2) >= k + 1);
                } else {
                    assert(open_depth(code, i - 1) >= k + 1);
                    assert(open_depth(code, i) == open_depth(code, i - 1) + 1);
                }
            } else {
                assert(stack[k] == j as usize);
                assert(j2 == i);
                assert(open_depth(code, i) == stack0.len() + 1);
            }
        }
        assert forall|x: usize| #[trigger] table.contains_key(x) implies x < i && (code[x as int]
            == BrainfuckInstruction::Open || code[x as int] == BrainfuckInstruction::Close)
            && !stack.contains(x) by {
            assert(table0.contains_key(x));
            assert(!stack0.contains(x));
            assert(x < i - 1);
            if stack.contains(x) {
                let k = choose|k: int| 0 <= k < stack.len() && stack[k] == x;
                assert(k < stack0.len() || stack[k] == j as usize);
                if k < stack0.len() {
                    assert(stack0[k] == x);
                    assert(stack0.contains(x));
                }
            }
        }
        assert forall|x: usize|
            x < i && (code[x as int] == BrainfuckInstruction::Open || code[x as int]
                == BrainfuckInstruction::Close) && !stack.contains(x) implies #[trigger] table
            .contains_key(x) by {
            if x < i - 1 {
                if stack0.contains(x) {
                    let k = choose|k: int| 0 <= k < stack0.len() && stack0[k] == x;
                    assert(stack[k] == x);
                    assert(stack.contains(x));
                }
            } else {
                assert(x == j as usize);
                assert(stack[stack.len() - 1] == x);
                assert(stack.contains(x));
            }
        }
        assert forall|o: int, c: int|
            #![trigger brackets_match(code, o, c)]
            c < i && brackets_match(code, o, c) implies {
            &&& table.contains_key(o as usize)
            &&& table[o as usize] == c + 1
            &&& table.contains_key(c as usize)
            &&& table[c as usize] == o + 1
        } by {
            assert(code[c] == BrainfuckInstruction::Close);
            assert(c != i - 1);
            assert(c < i - 1 && brackets_match(code, o, c));
        }
    } else if code[j] == BrainfuckInstruction::Close {
        lemma_balanced_suffix(code, i);
        assert(open_depth(code, i) == open_depth(code, i - 1) - 1);
        assert(stack0.len() >= 1);
        let o = stack0.last();
        assert(stack == stack0.drop_last());
        assert(table == table0.insert(j as usize, (o + 1) as usize).insert(o, (j + 1) as usize));
        assert(code[o as int] == BrainfuckInstruction::Open);
        assert(o < j);
        assert(open_depth(code, o as int + 1) == stack0.len());
        assert(open_depth(code, i - 1) == stack0.len());

        // The popped pair is matched: between them the depth never dips
        // under the depth just inside the pair, and it returns to it.
        assert forall|j2: int| o + 1 <= j2 <= j implies #[trigger] open_depth(code, j2)
            >= open_depth(code, o as int + 1) by {
            assert(stack0[stack0.len() - 1] == o);
            assert(open_depth(code, j2) >= stack0.len());
        }
        assert(brackets_match(code, o as int, j));

        // No other `Open` matches this `Close`.
        assert forall|o2: int, c2: int|
            #![trigger brackets_match(code, o2, c2)]
            c2 == j && brackets_match(code, o2, c2) implies o2 == o as int by {
            if o2 < o {
                assert(open_depth(code, o as int) >= open_depth(code, o2 + 1));
                assert(open_depth(code, o as int + 1) == open_depth(code, o as int) + 1);
                assert(open_depth(code, c2) == open_depth(code, o as int + 1));
                assert(false);
            } else if o2 > o {
                assert(stack0[stack0.len() - 1] == o);
                assert(open_depth(code, o2) >= stack0.len());
                assert(open_depth(code, o2 + 1) == open_depth(code, o2) + 1);
                assert(open_depth(code, c2) == stack0.len());
                assert(false);
            }
        }

        // The stack holds no duplicates, so the popped index is gone.
        assert forall|k: int| 0 <= k < stack.len() implies #[trigger] stack[k] != o by {
            assert(stack[k] == stack0[k]);
            if stack0[k] == o {
                assert(open_depth(code, stack0[k] as int + 1) == k + 1);
                assert(open_depth(code, o as int + 1) == stack0.len());
            }
        }
        assert(!stack.contains(o));
        assert(!table0.contains_key(o));
        assert(!table0.contains_key(j as usize));

        assert forall|k: int, j2: int|
            #![trigger stack[k], open_depth(code, j2)]
            0 <= k < stack.len() && stack[k] + 1 <= j2 <= i implies open_depth(code, j2) >= k
            + 1 by {
            assert(stack[k] == stack0[k]);
            if j2 <= i - 1 {
                assert(open_depth(code, j2) >= k + 1);
            } else {
                assert(open_depth(code, i) == stack.len());
            }
        }
        assert forall|x: usize| #[trigger] table.contains_key(x) implies x < i && (code[x as int]
            == BrainfuckInstruction::Open || code[x as int] == BrainfuckInstruction::Close)
            && !stack.contains(x) by {
            if x == o || x == j as usize {
            } else {
                assert(table0.contains_key(x));
                assert(!stack0.contains(x));
                if stack.contains(x) {
                    let k = choose|k: int| 0 <= k < stack.len() && stack[k] == x;
                    assert(stack0[k] == x);
                    assert(stack0.contains(x));
                }
            }
        }
        assert forall|x: usize|
            x < i && (code[x as int] == BrainfuckInstruction::Open || code[x as int]
                == BrainfuckInstruction::Close) && !stack.contains(x) implies #[trigger] table
            .contains_key(x) by {
            if x == o || x == j as usize {
            } else {
                assert(x < i - 1);
                if stack0.contains(x) {
                    let k = choose|k: int| 0 <= k < stack0.len() && stack0[k] == x;
                    assert(k < stack0.len() - 1);
                    assert(stack[k] == x);
                    assert(stack.contains(x));
                }
            }
        }
        assert forall|o2: int, c2: int|
            #![trigger brackets_match(code, o2, c2)]
            c2 < i && brackets_match(code, o2, c2) implies {
            &&& table.contains_key(o2 as usize)
            &&& table[o2 as usize] == c2 + 1
            &&& table.contains_key(c2 as usize)
            &&& table[c2 as usize] == o2 + 1
        } by {
            if c2 == j {
                assert(o2 == o as int);
            } else {
                assert(c2 < i - 1 && brackets_match(code, o2, c2));
                assert(table0.contains_key(o2 as usize) && table0.contains_key(c2 as usize));
                assert(o2 as usize != o && o2 as usize != j as usize);
                assert(c2 as usize != o && c2 as usize != j as usize);
            }
        }
    } else {
        assert(stack == stack0);
        assert(table == table0);
        assert(open_depth(code, i) == open_depth(code, i - 1));
        assert forall|k: int, j2: int|
            #![trigger stack[k], open_depth(code, j2)]
            0 <= k < stack.len() && stack[k] + 1 <= j2 <= i implies open_depth(code, j2) >= k
            + 1 by {
            if j2 <= i - 1 {
                assert(open_depth(code, j2) >= k + 1);
            } else {
                assert(open_depth(code, i - 1) >= k + 1);
            }
        }
        assert forall|o2: int, c2: int|
            #![trigger brackets_match(code, o2, c2)]
            c2 < i && brackets_match(code, o2, c2) implies {
            &&& table.contains_key(o2 as usize)
            &&& table[o2 as usize] == c2 + 1
            &&& table.contains_key(c2 as usize)
            &&& table[c2 as usize] == o2 + 1
        } by {
            assert(code[c2] == BrainfuckInstruction::Close);
            assert(c2 != i - 1);
        }
    }
}

/// After construction the jump table is exactly the bracket relation, both
/// ways: every matched pair `(o, c)` maps `o` to `c + 1` and `c` to
/// `o + 1`; every `Open` and `Close` index has an entry and no other index
/// does; and every entry lands inside the program or just past its end.
pub proof fn lemma_jump_table_inverse(code: Seq<BrainfuckInstruction>)
    requires
        balanced(code),
        code.len() <= usize::MAX,
    ensures
        forall|o: int, c: int|
            #![trigger brackets_match(code, o, c)]
            brackets_match(code, o, c) ==> {
                &&& jump_table_spec(code).contains_key(o as usize)
                &&& jump_table_spec(code)[o as usize] == c + 1
                &&& jump_table_spec(code).contains_key(c as usize)
                &&& jump_table_spec(code)[c as usize] == o + 1
            },
        forall|x: usize|
            #[trigger] jump_table_spec(code).contains_key(x) <==> x < code.len() && (code[x as int]
                == BrainfuckInstruction::Open || code[x as int] == BrainfuckInstruction::Close),
        forall|x: usize|
            #[trigger] jump_table_spec(code).contains_key(x) ==> 1 <= jump_table_spec(code)[x]
                <= code.len(),
{
    lemma_jump_scan_props(code, code.len() as int);
    lemma_balanced_total(code);
    let (stack, table) = jump_scan(code, code.len() as int);
    assert(stack.len() == 0);
    assert forall|x: usize|
        x < code.len() && (code[x as int] == BrainfuckInstruction::Open || code[x as int]
            == BrainfuckInstruction::Close) implies #[trigger] jump_table_spec(code).contains_key(
        x,
    ) by {
        assert(!stack.contains(x));
    }
    assert forall|o: int, c: int|
        #![trigger brackets_match(code, o, c)]
        brackets_match(code, o, c) implies {
        &&& jump_table_spec(code).contains_key(o as usize)
        &&& jump_table_spec(code)[o as usize] == c + 1
        &&& jump_table_spec(code).contains_key(c as usize)
        &&& jump_table_spec(code)[c as usize] == o + 1
    } by {
        assert(c < code.len() && brackets_match(code, o, c));
    }
}

/// Builds the jump table of a balanced program in one pass over it.
fn compute_jump_table(code: &Vec<BrainfuckInstruction>) -> (table: HashMap<usize, usize>)
    requires
        balanced(code@),
    ensures
        table@ == jump_table_spec(code@),
{
    let mut table: HashMap<usize, usize> = HashMap::new();
    let mut stack: Vec<usize> = Vec::new();
    let mut index: usize = 0;
    while index < code.len()
        invariant
            index <= code@.len(),
            balanced(code@),
            stack@ == jump_scan(code@, index as int).0,
            table@ == jump_scan(code@, index as int).1,
            stack@.len() == open_depth(code@, index as int),
            forall|k: int| 0 <= k < stack@.len() ==> #[trigger] stack@[k] < index,
        decreases code@.len() - index,
    {
        let insn = code[index];
        match insn {
            BrainfuckInstruction::Open => {
                stack.push(index);
            },
            BrainfuckInstruction::Close => {
                proof {
                    lemma_balanced_suffix(code@, index as int);
                    assert(code@.skip(index as int)[0] == code@[index as int]);
                    assert(open_depth(code@, index as int + 1) >= 0);
                    assert(stack@.len() > 0);
                }
                let other = stack.pop().unwrap();
                table.insert(index, other + 1);
                table.insert(other, index + 1);
            },
            _ => {},
        }
        index += 1;
    }
    table
}

/// Where `ScanRight` leaves the data pointer: the nearest position at or
/// right of `dp` whose cell is zero, or the last cell when none is.
pub open spec fn scan_right_dest(tape: Seq<u8>, dp: int) -> int
    recommends
        0 <= dp < tape.len(),
    decreases tape.len() - dp,
{
    if dp + 1 >= tape.len() {
        dp
    } else if tape[dp] == 0 {
        dp
    } else {
        scan_right_dest(tape, dp + 1)
    }
}

/// Where `ScanLeft` leaves the data pointer: the nearest position at or
/// left of `dp` whose cell is zero, or cell zero when none is.
pub open spec fn scan_left_dest(tape: Seq<u8>, dp: int) -> int
    recommends
        0 <= dp < tape.len(),
    decreases dp,
{
    if dp <= 0 {
        0
    } else if tape[dp] == 0 {
        dp
    } else {
        scan_left_dest(tape, dp - 1)
    }
}

/// The part of an interpreter that one execution step may change: the
/// tape, the data pointer, and the instruction pointer.
pub ghost struct ExecState {
    /// The tape contents.
    pub tape: Seq<u8>,
    /// The data pointer.
    pub dp: int,
    /// The instruction pointer.
    pub ip: int,
}

/// What one step does, as a function of the state and of the byte that
/// standard input would supply to a `Read`. `Add`, `Sub` and the cell
/// semantics wrap modulo 256. `Right` and `Left` pin the data pointer at
/// the nearest tape edge instead of walking off it: the language gives a
/// tape overrun no meaning, and the pinned pointer keeps every later cell
/// access inside the tape.
pub open spec fn step_spec(code: Seq<BrainfuckInstruction>, s: ExecState, input: u8) -> ExecState
    recommends
        0 <= s.ip < code.len(),
        0 <= s.dp < s.tape.len(),
{
    match code[s.ip] {
        BrainfuckInstruction::Add(n) => ExecState {
            tape: s.tape.update(s.dp, s.tape[s.dp].wrapping_add(n)),
            ip: s.ip + 1,
            ..s
        },
        BrainfuckInstruction::Sub(n) => ExecState {
            tape: s.tape.update(s.dp, s.tape[s.dp].wrapping_sub(n)),
            ip: s.ip + 1,
            ..s
        },
        BrainfuckInstruction::Right(k) => ExecState {
            dp: if s.dp + k < s.tape.len() {
                s.dp + k
            } else {
                s.tape.len() - 1
            },
            ip: s.ip + 1,
            ..s
        },
        BrainfuckInstruction::Left(k) => ExecState {
            dp: if s.dp - k >= 0 {
                s.dp - k
            } else {
                0
            },
            ip: s.ip + 1,
            ..s
        },
        BrainfuckInstruction::Read => ExecState {
            tape: s.tape.update(s.dp, input),
            ip: s.ip + 1,
            ..s
        },
        BrainfuckInstruction::Write => ExecState { ip: s.ip + 1, ..s },
        BrainfuckInstruction::Open => ExecState {
            ip: if s.tape[s.dp] == 0 {
                jump_table_spec(code)[s.ip as usize] as int
            } else {
                s.ip + 1
            },
            ..s
        },
        BrainfuckInstruction::Close => ExecState {
            ip: if s.tape[s.dp] != 0 {
                jump_table_spec(code)[s.ip as usize] as int
            } else {
                s.ip + 1
            },
            ..s
        },
        BrainfuckInstruction::Store(v) => ExecState {
            tape: s.tape.update(s.dp, v),
            ip: s.ip + 1,
            ..s
        },
        BrainfuckInstruction::ScanLeft => ExecState {
            dp: scan_left_dest(s.tape, s.dp),
            ip: s.ip + 1,
            ..s
        },
        BrainfuckInstruction::ScanRight => ExecState {
            dp: scan_right_dest(s.tape, s.dp),
            ip: s.ip + 1,
            ..s
        },
    }
}

/// One step relates two states when the second is what `step_spec` yields
/// from the first for some input byte.
pub open spec fn step_rel(code: Seq<BrainfuckInstruction>, s1: ExecState, s2: ExecState) -> bool {
    &&& 0 <= s1.ip < code.len()
    &&& exists|input: u8| s2 == step_spec(code, s1, input)
}

/// `s2` lies exactly `n` steps after `s1`.
pub open spec fn steps_n(
    code: Seq<BrainfuckInstruction>,
    s1: ExecState,
    s2: ExecState,
    n: nat,
) -> bool
    decreases n,
{
    if n == 0 {
        s1 == s2
    } else {
        exists|mid: ExecState| steps_n(code, s1, mid, (n - 1) as nat) && step_rel(code, mid, s2)
    }
}

/// `s2` lies some number of steps (possibly zero) after `s1`.
pub open spec fn reaches(code: Seq<BrainfuckInstruction>, s1: ExecState, s2: ExecState) -> bool {
    exists|n: nat| steps_n(code, s1, s2, n)
}

/// `s2` lies at least one step after `s1`.
pub open spec fn reaches_stepping(
    code: Seq<BrainfuckInstruction>,
    s1: ExecState,
    s2: ExecState,
) -> bool {
    exists|n: nat| n >= 1 && steps_n(code, s1, s2, n)
}

/// Relies on std::io::Stdin: takes the next byte of standard input, which
/// a `Read` instruction stores into the current cell. Nothing is promised
/// of the value: it depends on what the process is fed. A closed or broken
/// input stream panics, as running a program past its input does.
#[verifier::external_body]
fn read_input_byte() -> u8 {
    let mut buf = [0u8; 1];
    std::io::Read::read_exact(&mut std::io::stdin(), &mut buf).unwrap();
    buf[0]
}

/// Relies on std::io::Stdout: writes the cell, read as a character, to
/// standard output, which is what a `Write` instruction emits.
#[verifier::external_body]
fn write_output_byte(b: u8) {
    let mut out = std::io::stdout();
    let r = write!(out, "{}", b as char);
    r.unwrap();
}

/// Relies on std::io::Stdout::flush: output is pushed through after every
/// `Write`, so observers see the bytes in emission order.
#[verifier::external_body]
fn flush_output() {
    std::io::Write::flush(&mut std::io::stdout()).unwrap();
}

/// The optimizer's dead-code removal and the interpreter agree about a
/// leading loop: on a fresh machine, whose current cell is zero, the very
/// first step of a program that begins with `Open` jumps to exactly the
/// position where dead-code removal resumes the program, touching neither
/// the tape nor the data pointer. The loop that the pass deletes is
/// precisely the loop that execution never enters.
pub proof fn lemma_first_step_skips_the_leading_loop(
    code: Seq<BrainfuckInstruction>,
    s: ExecState,
    input: u8,
)
    requires
        balanced(code),
        code.len() <= usize::MAX,
        code.len() > 0,
        code[0] == BrainfuckInstruction::Open,
        s.ip == 0,
        s.dp == 0,
        s.tape.len() > 0,
        s.tape[0] == 0,
    ensures
        ({
            let t = step_spec(code, s, input);
            &&& t.ip == crate::optimizer::leading_loop_end(code, 1, 1)
            &&& t.tape == s.tape
            &&& t.dp == 0
            &&& crate::optimizer::dead_code_spec(code) == code.skip(t.ip)
        }),
{
    crate::optimizer::lemma_leading_loop_matches(code);
    lemma_jump_table_inverse(code);
    let end = crate::optimizer::leading_loop_end(code, 1, 1);
    assert(brackets_match(code, 0, end - 1));
    assert(jump_table_spec(code)[0usize] == end);
}

/// Step counts compose: a trace of `n1` steps followed by a trace of `n2`
/// steps is a trace of `n1 + n2` steps.
pub proof fn lemma_steps_n_transitive(
    code: Seq<BrainfuckInstruction>,
    a: ExecState,
    b: ExecState,
    c: ExecState,
    n1: nat,
    n2: nat,
)
    requires
        steps_n(code, a, b, n1),
        steps_n(code, b, c, n2),
    ensures
        steps_n(code, a, c, n1 + n2),
    decreases n2,
{
    if n2 == 0 {
        assert(b == c);
    } else {
        let mid = choose|mid: ExecState|
            steps_n(code, b, mid, (n2 - 1) as nat) && step_rel(code, mid, c);
        lemma_steps_n_transitive(code, a, b, mid, n1, (n2 - 1) as nat);
        assert(steps_n(code, a, mid, (n1 + n2 - 1) as nat));
    }
}

/// The concrete program holding only the clear idiom `[-]`.
pub open spec fn clear_program() -> Seq<BrainfuckInstruction> {
    seq![
        BrainfuckInstruction::Open,
        BrainfuckInstruction::Sub(1u8),
        BrainfuckInstruction::Close,
    ]
}

/// The concrete program holding only a scan idiom: `[<]` or `[>]`.
pub open spec fn scan_program(insn: BrainfuckInstruction) -> Seq<BrainfuckInstruction> {
    seq![BrainfuckInstruction::Open, insn, BrainfuckInstruction::Close]
}

/// A one-instruction loop body makes a balanced program whose jump table
/// sends the `Open` past the `Close` and the `Close` back to the body.
proof fn lemma_loop_program_facts(x: BrainfuckInstruction)
    requires
        bracket_delta(x) == 0,
    ensures
        balanced(scan_program(x)),
        jump_table_spec(scan_program(x)).contains_key(0usize),
        jump_table_spec(scan_program(x))[0usize] == 3,
        jump_table_spec(scan_program(x)).contains_key(2usize),
        jump_table_spec(scan_program(x))[2usize] == 1,
{
    let p = scan_program(x);
    let p1 = seq![x, BrainfuckInstruction::Close];
    let p2 = seq![BrainfuckInstruction::Close];
    assert(p.skip(1) =~= p1);
    assert(p1.skip(1) =~= p2);
    assert(p2.skip(1) =~= Seq::<BrainfuckInstruction>::empty());
    assert(balanced_from(Seq::<BrainfuckInstruction>::empty(), 0));
    assert(balanced_from(p2, 1));
    assert(balanced_from(p1, 1));
    assert(balanced_from(p, 0));

    assert(jump_scan(p, 0).0 =~= Seq::<usize>::empty());
    assert(jump_scan(p, 0).1 =~= Map::<usize, usize>::empty());
    assert(p[0] == BrainfuckInstruction::Open);
    assert(jump_scan(p, 1).0 =~= jump_scan(p, 0).0.push(0usize));
    assert(jump_scan(p, 1).1 =~= Map::<usize, usize>::empty());
    assert(jump_scan(p, 2).0 =~= jump_scan(p, 1).0);
    assert(jump_scan(p, 2).1 =~= Map::<usize, usize>::empty());
    assert(jump_scan(p, 2).0.last() == 0usize);
    assert(jump_scan(p, 3).1 == jump_scan(p, 2).1.insert(2usize, 1usize).insert(0usize, 3usize));
}

/// The clear idiom computes exactly what the store it is rewritten to
/// computes: run in isolation from any in-bounds state, `[-]` ends with
/// the current cell zero, the data pointer unmoved, and the rest of the
/// tape untouched; and one step of `Store(0)` yields that same tape. This
/// justifies the clear-loop rewrite on the machine itself, for the loop
/// run in isolation.
pub proof fn lemma_clear_loop_equivalent(s: ExecState)
    requires
        s.ip == 0,
        0 <= s.dp < s.tape.len(),
    ensures
        reaches(
            clear_program(),
            s,
            (ExecState { tape: s.tape.update(s.dp, 0u8), dp: s.dp, ip: 3 }),
        ),
        forall|b: u8|
            step_spec(seq![BrainfuckInstruction::Store(0u8)], s, b) == (ExecState {
                tape: s.tape.update(s.dp, 0u8),
                dp: s.dp,
                ip: 1,
            }),
{
    let p = clear_program();
    assert(p =~= scan_program(BrainfuckInstruction::Sub(1u8)));
    lemma_loop_program_facts(BrainfuckInstruction::Sub(1u8));
    let done = ExecState { tape: s.tape.update(s.dp, 0u8), dp: s.dp, ip: 3 };
    if s.tape[s.dp] == 0 {
        let s1 = step_spec(p, s, 0);
        assert(s1.ip == 3);
        assert(s.tape.update(s.dp, 0u8) =~= s.tape);
        assert(s1 == done);
        assert(steps_n(p, s, s, 0));
        assert(step_rel(p, s, s1));
        assert(steps_n(p, s, done, 1));
        assert(reaches(p, s, done));
    } else {
        let s1 = step_spec(p, s, 0);
        assert(s1 == ExecState { tape: s.tape, dp: s.dp, ip: 1 });
        assert(steps_n(p, s, s, 0));
        assert(step_rel(p, s, s1));
        assert(steps_n(p, s, s1, 1));
        lemma_clear_inner(s1);
        let n2 = choose|n: nat| steps_n(p, s1, done, n);
        lemma_steps_n_transitive(p, s, s1, done, 1, n2);
        assert(reaches(p, s, done));
    }
}

/// From the `Sub` at address 1, the clear loop spins the current cell down
/// to zero and leaves at address 3.
proof fn lemma_clear_inner(s: ExecState)
    requires
        s.ip == 1,
        0 <= s.dp < s.tape.len(),
        s.tape[s.dp] >= 1,
    ensures
        reaches(
            clear_program(),
            s,
            (ExecState { tape: s.tape.update(s.dp, 0u8), dp: s.dp, ip: 3 }),
        ),
    decreases s.tape[s.dp],
{
    let p = clear_program();
    assert(p =~= scan_program(BrainfuckInstruction::Sub(1u8)));
    lemma_loop_program_facts(BrainfuckInstruction::Sub(1u8));
    let v = s.tape[s.dp];
    let done = ExecState { tape: s.tape.update(s.dp, 0u8), dp: s.dp, ip: 3 };

    let s2 = step_spec(p, s, 0);
    assert(s2 == ExecState { tape: s.tape.update(s.dp, (v - 1) as u8), dp: s.dp, ip: 2 });
    assert(s2.tape[s.dp] == v - 1);
    let s3 = step_spec(p, s2, 0);
    assert(steps_n(p, s, s, 0));
    assert(step_rel(p, s, s2));
    assert(steps_n(p, s, s2, 1));
    assert(step_rel(p, s2, s3));
    assert(steps_n(p, s, s3, 2)) by {
        assert(steps_n(p, s, s2, 1));
    }

    if v == 1 {
        assert(s3 == done);
        assert(reaches(p, s, done));
    } else {
        assert(s3 == ExecState { tape: s.tape.update(s.dp, (v - 1) as u8), dp: s.dp, ip: 1 });
        lemma_clear_inner(s3);
        let inner_done = ExecState {
            tape: s3.tape.update(s.dp, 0u8),
            dp: s.dp,
            ip: 3,
        };
        assert(s3.tape.update(s.dp, 0u8) =~= s.tape.update(s.dp, 0u8));
        assert(inner_done == done);
        let n2 = choose|n: nat| steps_n(p, s3, done, n);
        lemma_steps_n_transitive(p, s, s3, done, 2, n2);
        assert(reaches(p, s, done));
    }
}

/// The scan idiom `[<]` computes exactly what `ScanLeft` computes: run in
/// isolation from any state whose nearest zero cell at or left of the
/// pointer exists, the loop stops on that cell with the tape untouched;
/// and one step of `ScanLeft` yields that same position. On a state with
/// no such zero cell the loop would never terminate, which is why the
/// claim asks for one.
pub proof fn lemma_scan_left_equivalent(s: ExecState)
    requires
        s.ip == 0,
        0 <= s.dp < s.tape.len(),
        s.tape[scan_left_dest(s.tape, s.dp)] == 0,
    ensures
        reaches(
            scan_program(BrainfuckInstruction::Left(1usize)),
            s,
            (ExecState { tape: s.tape, dp: scan_left_dest(s.tape, s.dp), ip: 3 }),
        ),
        forall|b: u8|
            step_spec(seq![BrainfuckInstruction::ScanLeft], s, b) == (ExecState {
                tape: s.tape,
                dp: scan_left_dest(s.tape, s.dp),
                ip: 1,
            }),
{
    let p = scan_program(BrainfuckInstruction::Left(1usize));
    lemma_loop_program_facts(BrainfuckInstruction::Left(1usize));
    let dest = scan_left_dest(s.tape, s.dp);
    let done = ExecState { tape: s.tape, dp: dest, ip: 3 };
    if s.tape[s.dp] == 0 {
        assert(dest == s.dp);
        let s1 = step_spec(p, s, 0);
        assert(s1 == done);
        assert(steps_n(p, s, s, 0));
        assert(step_rel(p, s, s1));
        assert(steps_n(p, s, done, 1));
        assert(reaches(p, s, done));
    } else {
        assert(s.dp > 0);
        let s1 = step_spec(p, s, 0);
        assert(s1 == ExecState { tape: s.tape, dp: s.dp, ip: 1 });
        assert(steps_n(p, s, s, 0));
        assert(step_rel(p, s, s1));
        assert(steps_n(p, s, s1, 1));
        lemma_scan_left_inner(s1);
        let n2 = choose|n: nat| steps_n(p, s1, done, n);
        lemma_steps_n_transitive(p, s, s1, done, 1, n2);
        assert(reaches(p, s, done));
    }
}

/// From the `Left(1)` at address 1, the scan loop walks to the nearest
/// zero cell on the left and leaves at address 3.
proof fn lemma_scan_left_inner(s: ExecState)
    requires
        s.ip == 1,
        0 < s.dp < s.tape.len(),
        s.tape[s.dp] != 0,
        s.tape[scan_left_dest(s.tape, s.dp)] == 0,
    ensures
        reaches(
            scan_program(BrainfuckInstruction::Left(1usize)),
            s,
            (ExecState { tape: s.tape, dp: scan_left_dest(s.tape, s.dp), ip: 3 }),
        ),
    decreases s.dp,
{
    let p = scan_program(BrainfuckInstruction::Left(1usize));
    lemma_loop_program_facts(BrainfuckInstruction::Left(1usize));
    let dest = scan_left_dest(s.tape, s.dp);
    assert(dest == scan_left_dest(s.tape, s.dp - 1));
    let done = ExecState { tape: s.tape, dp: dest, ip: 3 };

    let s2 = step_spec(p, s, 0);
    assert(s2 == ExecState { tape: s.tape, dp: s.dp - 1, ip: 2 });
    let s3 = step_spec(p, s2, 0);
    assert(steps_n(p, s, s, 0));
    assert(step_rel(p, s, s2));
    assert(steps_n(p, s, s2, 1));
    assert(step_rel(p, s2, s3));
    assert(steps_n(p, s, s3, 2)) by {
        assert(steps_n(p, s, s2, 1));
    }

    if s.tape[s.dp - 1] == 0 {
        assert(dest == s.dp - 1);
        assert(s3 == done);
        assert(reaches(p, s, done));
    } else {
        assert(s3 == ExecState { tape: s.tape, dp: s.dp - 1, ip: 1 });
        assert(s.dp - 1 > 0);
        lemma_scan_left_inner(s3);
        let n2 = choose|n: nat| steps_n(p, s3, done, n);
        lemma_steps_n_transitive(p, s, s3, done, 2, n2);
        assert(reaches(p, s, done));
    }
}

/// The scan idiom `[>]` computes exactly what `ScanRight` computes: run in
/// isolation from any state whose nearest zero cell at or right of the
/// pointer exists, the loop stops on that cell with the tape untouched;
/// and one step of `ScanRight` yields that same position. On a state with
/// no such zero cell the loop would never terminate, which is why the
/// claim asks for one.
pub proof fn lemma_scan_right_equivalent(s: ExecState)
    requires
        s.ip == 0,
        0 <= s.dp < s.tape.len(),
        s.tape[scan_right_dest(s.tape, s.dp)] == 0,
    ensures
        reaches(
            scan_program(BrainfuckInstruction::Right(1usize)),
            s,
            (ExecState { tape: s.tape, dp: scan_right_dest(s.tape, s.dp), ip: 3 }),
        ),
        forall|b: u8|
            step_spec(seq![BrainfuckInstruction::ScanRight], s, b) == (ExecState {
                tape: s.tape,
                dp: scan_right_dest(s.tape, s.dp),
                ip: 1,
            }),
{
    let p = scan_program(BrainfuckInstruction::Right(1usize));
    lemma_loop_program_facts(BrainfuckInstruction::Right(1usize));
    let dest = scan_right_dest(s.tape, s.dp);
    let done = ExecState { tape: s.tape, dp: dest, ip: 3 };
    if s.tape[s.dp] == 0 {
        assert(dest == s.dp);
        let s1 = step_spec(p, s, 0);
        assert(s1 == done);
        assert(steps_n(p, s, s, 0));
        assert(step_rel(p, s, s1));
        assert(steps_n(p, s, done, 1));
        assert(reaches(p, s, done));
    } else {
        assert(s.dp + 1 < s.tape.len());
        let s1 = step_spec(p, s, 0);
        assert(s1 == ExecState { tape: s.tape, dp: s.dp, ip: 1 });
        assert(steps_n(p, s, s, 0));
        assert(step_rel(p, s, s1));
        assert(steps_n(p, s, s1, 1));
        lemma_scan_right_inner(s1);
        let n2 = choose|n: nat| steps_n(p, s1, done, n);
        lemma_steps_n_transitive(p, s, s1, done, 1, n2);
        assert(reaches(p, s, done));
    }
}

/// From the `Right(1)` at address 1, the scan loop walks to the nearest
/// zero cell on the right and leaves at address 3.
proof fn lemma_scan_right_inner(s: ExecState)
    requires
        s.ip == 1,
        0 <= s.dp,
        s.dp + 1 < s.tape.len(),
        s.tape[s.dp] != 0,
        s.tape[scan_right_dest(s.tape, s.dp)] == 0,
    ensures
        reaches(
            scan_program(BrainfuckInstruction::Right(1usize)),
            s,
            (ExecState { tape: s.tape, dp: scan_right_dest(s.tape, s.dp), ip: 3 }),
        ),
    decreases s.tape.len() - s.dp,
{
    let p = scan_program(BrainfuckInstruction::Right(1usize));
    lemma_loop_program_facts(BrainfuckInstruction::Right(1usize));
    let dest = scan_right_dest(s.tape, s.dp);
    assert(dest == scan_right_dest(s.tape, s.dp + 1));
    let done = ExecState { tape: s.tape, dp: dest, ip: 3 };

    let s2 = step_spec(p, s, 0);
    assert(s2 == ExecState { tape: s.tape, dp: s.dp + 1, ip: 2 });
    let s3 = step_spec(p, s2, 0);
    assert(steps_n(p, s, s, 0));
    assert(step_rel(p, s, s2));
    assert(steps_n(p, s, s2, 1));
    assert(step_rel(p, s2, s3));
    assert(steps_n(p, s, s3, 2)) by {
        assert(steps_n(p, s, s2, 1));
    }

    if s.tape[s.dp + 1] == 0 {
        assert(dest == s.dp + 1);
        assert(s3 == done);
        assert(reaches(p, s, done));
    } else {
        assert(s3 == ExecState { tape: s.tape, dp: s.dp + 1, ip: 1 });
        assert(s.dp + 2 < s.tape.len());
        lemma_scan_right_inner(s3);
        let n2 = choose|n: nat| steps_n(p, s3, done, n);
        lemma_steps_n_transitive(p, s, s3, done, 2, n2);
        assert(reaches(p, s, done));
    }
}

/// The merged counts of a contracted pair stay representable: for the
/// pointer-moving variants the two counts must not overflow a machine
/// word, which is where the language leaves pointer motion undefined. The
/// cell-arithmetic variants wrap by design and always fit.
pub open spec fn counts_fit(a: BrainfuckInstruction, b: BrainfuckInstruction) -> bool {
    match (a, b) {
        (BrainfuckInstruction::Right(x), BrainfuckInstruction::Right(y)) => x + y <= usize::MAX,
        (BrainfuckInstruction::Left(x), BrainfuckInstruction::Left(y)) => x + y <= usize::MAX,
        _ => true,
    }
}

/// A contracted pair computes exactly what its two instructions compute:
/// run in isolation from any in-bounds state, the two-instruction program
/// and the single merged instruction end on the same tape at the same
/// data pointer, each at its own program's end. This justifies the
/// contraction rewrite on the machine itself, pair by pair.
pub proof fn lemma_contraction_pair_equivalent(
    s: ExecState,
    a: BrainfuckInstruction,
    b: BrainfuckInstruction,
)
    requires
        s.ip == 0,
        0 <= s.dp < s.tape.len(),
        crate::optimizer::mergeable(a, b),
        counts_fit(a, b),
    ensures
        ({
            let merged = step_spec(seq![crate::optimizer::counted_merge(a, b)], s, 0);
            &&& merged.ip == 1
            &&& steps_n(
                seq![a, b],
                s,
                (ExecState { tape: merged.tape, dp: merged.dp, ip: 2 }),
                2,
            )
        }),
{
    let pab = seq![a, b];
    let merged = step_spec(seq![crate::optimizer::counted_merge(a, b)], s, 0);
    let s1 = step_spec(pab, s, 0);
    let s2 = step_spec(pab, s1, 0);
    assert(s1.ip == 1);
    assert(s2.ip == 2);
    assert(s2.tape == merged.tape && s2.dp == merged.dp);
    assert(steps_n(pab, s, s, 0));
    assert(step_rel(pab, s, s1));
    assert(steps_n(pab, s, s1, 1));
    assert(step_rel(pab, s1, s2));
    assert(steps_n(pab, s, s2, 2)) by {
        assert(steps_n(pab, s, s1, 1));
    }
    assert(s2 == (ExecState { tape: merged.tape, dp: merged.dp, ip: 2 }));
}

/// Depths in a suffix are depths in the whole, measured from the cut.
proof fn lemma_open_depth_skip(code: Seq<BrainfuckInstruction>, base: int, j: int)
    requires
        0 <= base <= code.len(),
        0 <= j <= code.len() - base,
    ensures
        open_depth(code.skip(base), j) == open_depth(code, base + j) - open_depth(code, base),
    decreases j,
{
    if j > 0 {
        lemma_open_depth_skip(code, base, j - 1);
        assert(code.skip(base)[j - 1] == code[base + j - 1]);
    }
}

/// A matched pair never crosses a position where the nesting is closed:
/// with the depth zero at `base`, both ends of every pair lie on the same
/// side of it.
proof fn lemma_no_pair_crosses_the_cut(code: Seq<BrainfuckInstruction>, base: int, o: int, c: int)
    requires
        balanced(code),
        open_depth(code, base) == 0,
        brackets_match(code, o, c),
        c >= base,
    ensures
        o >= base,
{
    if o < base {
        assert(o + 1 <= base <= c);
        assert(open_depth(code, base) >= open_depth(code, o + 1));
        assert(open_depth(code, o + 1) == open_depth(code, o) + 1);
        lemma_balanced_suffix(code, o);
        assert(false);
    }
}

/// Matched pairs shift with the cut: a pair of the suffix is a pair of the
/// whole moved by `base`, and the other way round.
proof fn lemma_match_shift(code: Seq<BrainfuckInstruction>, base: int, o: int, c: int)
    requires
        0 <= base <= code.len(),
        open_depth(code, base) == 0,
        0 <= o,
        0 <= c,
    ensures
        brackets_match(code.skip(base), o, c) <==> brackets_match(code, base + o, base + c),
{
    let q = code.skip(base);
    if brackets_match(q, o, c) {
        assert forall|j: int| base + o + 1 <= j <= base + c implies #[trigger] open_depth(code, j)
            >= open_depth(code, base + o + 1) by {
            lemma_open_depth_skip(code, base, j - base);
            lemma_open_depth_skip(code, base, o + 1);
            assert(open_depth(q, j - base) >= open_depth(q, o + 1));
        }
        lemma_open_depth_skip(code, base, o + 1);
        lemma_open_depth_skip(code, base, c);
        assert(q[o] == code[base + o] && q[c] == code[base + c]);
        assert(brackets_match(code, base + o, base + c));
    }
    if brackets_match(code, base + o, base + c) {
        assert forall|j: int| o + 1 <= j <= c implies #[trigger] open_depth(q, j) >= open_depth(
            q,
            o + 1,
        ) by {
            lemma_open_depth_skip(code, base, j);
            lemma_open_depth_skip(code, base, o + 1);
            assert(open_depth(code, base + j) >= open_depth(code, base + o + 1));
        }
        lemma_open_depth_skip(code, base, o + 1);
        lemma_open_depth_skip(code, base, c);
        assert(q[o] == code[base + o] && q[c] == code[base + c]);
        assert(brackets_match(q, o, c));
    }
}

/// Every `Open` in a balanced program has its matching `Close`: the first
/// later position where the depth returns to the level just before it.
proof fn lemma_open_has_partner(code: Seq<BrainfuckInstruction>, o: int)
    requires
        balanced(code),
        0 <= o < code.len(),
        code[o] == BrainfuckInstruction::Open,
    ensures
        exists|c: int| #[trigger] brackets_match(code, o, c),
    decreases 0int,
{
    let d = open_depth(code, o);
    assert(open_depth(code, o + 1) == d + 1);
    lemma_balanced_suffix(code, o);
    let end = lemma_first_return(code, o + 1, d);
    assert(open_depth(code, end) == open_depth(code, end - 1) + bracket_delta(code[end - 1]));
    assert(open_depth(code, end - 1) >= d + 1);
    assert(bracket_delta(code[end - 1]) <= -1);
    assert(code[end - 1] == BrainfuckInstruction::Close);
    assert(open_depth(code, end - 1) == d + 1);
    assert(brackets_match(code, o, end - 1));
}

/// From a position whose depth exceeds `d`, the first later position where
/// the depth comes back down to `d`; the depth stays above `d` on the way.
proof fn lemma_first_return(code: Seq<BrainfuckInstruction>, i: int, d: int) -> (end: int)
    requires
        balanced(code),
        1 <= i <= code.len(),
        0 <= d,
        open_depth(code, i) == d + 1,
    ensures
        i < end <= code.len(),
        open_depth(code, end) == d,
        forall|j: int| i <= j < end ==> #[trigger] open_depth(code, j) >= d + 1,
    decreases code.len() - i,
{
    lemma_balanced_total(code);
    assert(i < code.len());
    let next = open_depth(code, i + 1);
    assert(next == open_depth(code, i) + bracket_delta(code[i]));
    if next == d {
        i + 1
    } else {
        assert(next == d + 1 + bracket_delta(code[i]));
        assert(next >= d + 1) by {
            lemma_balanced_suffix(code, i + 1);
            if next < d + 1 {
                assert(next == d);
            }
        }
        if next == d + 1 {
            lemma_first_return(code, i + 1, d)
        } else {
            assert(next == d + 2);
            let mid = lemma_first_return(code, i + 1, d + 1);
            assert(open_depth(code, mid) == d + 1);
            lemma_first_return(code, mid, d)
        }
    }
}

/// Walking backwards from a position whose depth exceeds `d`, the last
/// earlier position whose depth is exactly `d`; the depth stays above `d`
/// after it.
proof fn lemma_backward_find(code: Seq<BrainfuckInstruction>, j: int, d: int) -> (o: int)
    requires
        0 <= j <= code.len(),
        0 <= d,
        open_depth(code, j) >= d + 1,
    ensures
        0 <= o < j,
        open_depth(code, o) == d,
        forall|k: int| o < k <= j ==> #[trigger] open_depth(code, k) >= d + 1,
    decreases j,
{
    assert(open_depth(code, 0) == 0);
    assert(j >= 1);
    let prev = open_depth(code, j - 1);
    assert(open_depth(code, j) == prev + bracket_delta(code[j - 1]));
    if prev == d {
        j - 1
    } else {
        assert(prev >= d + 1);
        lemma_backward_find(code, j - 1, d)
    }
}

/// Every `Close` in a balanced program has its matching `Open`: the last
/// earlier position where the depth steps up to the `Close`'s level.
proof fn lemma_close_has_partner(code: Seq<BrainfuckInstruction>, c: int)
    requires
        balanced(code),
        0 <= c < code.len(),
        code[c] == BrainfuckInstruction::Close,
    ensures
        exists|o: int| #[trigger] brackets_match(code, o, c),
{
    lemma_balanced_suffix(code, c + 1);
    assert(open_depth(code, c + 1) == open_depth(code, c) - 1);
    assert(open_depth(code, c) >= 1);
    let o = lemma_backward_find(code, c, open_depth(code, c) - 1);
    assert(open_depth(code, o + 1) >= open_depth(code, c));
    assert(open_depth(code, o + 1) == open_depth(code, o) + bracket_delta(code[o]));
    assert(bracket_delta(code[o]) >= 1);
    assert(code[o] == BrainfuckInstruction::Open);
    assert(open_depth(code, o + 1) == open_depth(code, c));
    assert(brackets_match(code, o, c));
}

/// The jump table of a suffix cut at closed nesting is the whole table
/// shifted: a bracket at `x` past the cut jumps in the suffix to exactly
/// where it jumps in the whole, moved back by the cut.
proof fn lemma_jump_table_shift(code: Seq<BrainfuckInstruction>, base: int, x: int)
    requires
        balanced(code),
        code.len() <= usize::MAX,
        0 <= base <= x < code.len(),
        open_depth(code, base) == 0,
        code[x] == BrainfuckInstruction::Open || code[x] == BrainfuckInstruction::Close,
    ensures
        ({
            let q = code.skip(base);
            &&& jump_table_spec(code).contains_key(x as usize)
            &&& jump_table_spec(q).contains_key((x - base) as usize)
            &&& base + jump_table_spec(q)[(x - base) as usize] == jump_table_spec(code)[x as usize]
            &&& base + 1 <= jump_table_spec(code)[x as usize] <= code.len()
        }),
{
    let q = code.skip(base);
    lemma_balanced_suffix(code, base);
    lemma_jump_table_inverse(code);
    lemma_jump_table_inverse(q);
    if code[x] == BrainfuckInstruction::Open {
        lemma_open_has_partner(code, x);
        let c = choose|c: int| brackets_match(code, x, c);
        lemma_match_shift(code, base, x - base, c - base);
        assert(brackets_match(q, x - base, c - base));
        assert(jump_table_spec(code)[x as usize] == c + 1);
        assert(jump_table_spec(q)[(x - base) as usize] == (c - base) + 1);
    } else {
        lemma_close_has_partner(code, x);
        let o = choose|o: int| brackets_match(code, o, x);
        lemma_no_pair_crosses_the_cut(code, base, o, x);
        lemma_match_shift(code, base, o - base, x - base);
        assert(brackets_match(q, o - base, x - base));
        assert(jump_table_spec(code)[x as usize] == o + 1);
        assert(jump_table_spec(q)[(x - base) as usize] == (o - base) + 1);
    }
}

/// The same machine state, with the instruction pointer moved by `base`.
pub open spec fn shifted_state(s: ExecState, base: int) -> ExecState {
    ExecState { tape: s.tape, dp: s.dp, ip: s.ip + base }
}

/// One step of a suffix program, cut at closed nesting, is one step of the
/// whole program from the shifted position: same tape, same data pointer,
/// instruction pointer moved by the cut.
proof fn lemma_step_shift(code: Seq<BrainfuckInstruction>, base: int, s: ExecState, b: u8)
    requires
        balanced(code),
        code.len() <= usize::MAX,
        0 <= base <= code.len(),
        open_depth(code, base) == 0,
        0 <= s.ip < code.len() - base,
    ensures
        ({
            let t = step_spec(code.skip(base), s, b);
            let big = step_spec(code, shifted_state(s, base), b);
            &&& big.tape == t.tape
            &&& big.dp == t.dp
            &&& big.ip == t.ip + base
        }),
{
    let q = code.skip(base);
    assert(q[s.ip] == code[base + s.ip]);
    match q[s.ip] {
        BrainfuckInstruction::Open => {
            lemma_jump_table_shift(code, base, base + s.ip);
        },
        BrainfuckInstruction::Close => {
            lemma_jump_table_shift(code, base, base + s.ip);
        },
        _ => {},
    }
}

/// A whole trace of a suffix program shifts into the whole program.
proof fn lemma_steps_shift(
    code: Seq<BrainfuckInstruction>,
    base: int,
    s: ExecState,
    t: ExecState,
    n: nat,
)
    requires
        balanced(code),
        code.len() <= usize::MAX,
        0 <= base <= code.len(),
        open_depth(code, base) == 0,
        steps_n(code.skip(base), s, t, n),
    ensures
        steps_n(code, shifted_state(s, base), shifted_state(t, base), n),
    decreases n,
{
    let q = code.skip(base);
    if n == 0 {
        assert(s == t);
    } else {
        let mid = choose|mid: ExecState|
            steps_n(q, s, mid, (n - 1) as nat) && step_rel(q, mid, t);
        lemma_steps_shift(code, base, s, mid, (n - 1) as nat);
        let b = choose|b: u8| t == step_spec(q, mid, b);
        lemma_step_shift(code, base, mid, b);
        assert(step_spec(code, shifted_state(mid, base), b) == shifted_state(t, base));
        assert(step_rel(code, shifted_state(mid, base), shifted_state(t, base)));
        assert(steps_n(code, shifted_state(s, base), shifted_state(t, base), n)) by {
            assert(steps_n(
                code,
                shifted_state(s, base),
                shifted_state(mid, base),
                (n - 1) as nat,
            ));
        }
    }
}

/// Dead-code removal is sound for whole runs, not only for the first
/// step: any trace of the stripped program from the initial state is a
/// trace of the full program, which first jumps over the leading loop its
/// zero cell can never enter and then tracks the stripped program step
/// for step on the same tape and data pointer.
pub proof fn lemma_dead_code_removal_sound(
    code: Seq<BrainfuckInstruction>,
    s: ExecState,
    t: ExecState,
    n: nat,
)
    requires
        balanced(code),
        code.len() <= usize::MAX,
        code.len() > 0,
        code[0] == BrainfuckInstruction::Open,
        s.ip == 0,
        s.dp == 0,
        s.tape.len() > 0,
        s.tape[0] == 0,
        steps_n(crate::optimizer::dead_code_spec(code), s, t, n),
    ensures
        steps_n(
            code,
            s,
            (ExecState {
                tape: t.tape,
                dp: t.dp,
                ip: t.ip + crate::optimizer::leading_loop_end(code, 1, 1),
            }),
            n + 1,
        ),
{
    let end = crate::optimizer::leading_loop_end(code, 1, 1);
    crate::optimizer::lemma_leading_loop_matches(code);
    assert(brackets_match(code, 0, end - 1));
    assert(open_depth(code, 0) == 0);
    assert(open_depth(code, 1) == 1);
    assert(open_depth(code, end - 1) == 1);
    assert(open_depth(code, end) == open_depth(code, end - 1) + bracket_delta(code[end - 1]));
    assert(open_depth(code, end) == 0);

    lemma_first_step_skips_the_leading_loop(code, s, 0);
    let s1 = step_spec(code, s, 0);
    assert(s1 == shifted_state(s, end));
    assert(step_rel(code, s, s1));
    assert(steps_n(code, s, s1, 1)) by {
        assert(steps_n(code, s, s, 0));
    }
    lemma_steps_shift(code, end, s, t, n);
    lemma_steps_n_transitive(code, s, s1, shifted_state(t, end), 1, n);
    assert(shifted_state(t, end) == (ExecState { tape: t.tape, dp: t.dp, ip: t.ip + end }));
}

} // verus!







