//! The C emitter: lowers an instruction sequence to C source by emitting one
//! macro invocation per instruction into a fixed template.

use vstd::prelude::*;
use vstd::string::StringExecFns;

use crate::ir::BrainfuckInstruction;
use crate::ir::bracket_delta;
use crate::ir::indent_rep;
use crate::ir::push_indent;
use crate::text::dec_rep;
use crate::text::push_decimal;

verus! {

/// Everything the generated C file holds before the program body: the libc
/// declarations, the per-instruction macros, and the opening of `main` with
/// the tape (30000 cells) allocated and the data pointer at its start.
pub const C_TEMPLATE_HEAD: &'static str = "int getchar(void);
int putchar(int c);
int fflush(void *stream);
void *calloc(unsigned long n, unsigned long size);
void free(void *p);

typedef unsigned char u8;

#define ADJUST(ofs, delta) *(dp + (ofs)) += (delta);
#define SELECT(delta) dp += (delta);
#define READ(ofs) *(dp + (ofs)) = (u8)getchar();
#define WRITE(ofs) putchar(*(dp + (ofs))); fflush(0);
#define OPEN() while (*dp) {
#define CLOSE() }
#define SET(ofs, val) *(dp + (ofs)) = (val);
#define SCAN_LEFT() while (*dp && dp != tape) { --dp; }
#define SCAN_RIGHT() while (*dp && dp != tape + tape_size - 1) { ++dp; }

u8 *__alloc(unsigned long n) {
    return (u8 *)calloc(n, 1);
}

void __free(u8 *tape, unsigned long n) {
    free(tape);
}

int main(void) {
    unsigned long tape_size = 30000;
    u8 *tape = __alloc(tape_size);
    u8 *dp = tape;

    ";

/// Everything the generated C file holds after the program body: the tape
/// released and `main` closed.
pub const C_TEMPLATE_TAIL: &'static str = "

    __free(tape, tape_size);
    return 0;
}
";

/// The C macro invocation for one instruction, without indentation and
/// without a newline.
pub open spec fn c_text(insn: BrainfuckInstruction) -> Seq<char> {
    match insn {
        BrainfuckInstruction::Add(n) => "ADJUST(0, "@ + dec_rep(n as nat) + ")"@,
        BrainfuckInstruction::Sub(n) => "ADJUST(0, -"@ + dec_rep(n as nat) + ")"@,
        BrainfuckInstruction::Right(k) => "SELECT("@ + dec_rep(k as nat) + ")"@,
        BrainfuckInstruction::Left(k) => "SELECT(-"@ + dec_rep(k as nat) + ")"@,
        BrainfuckInstruction::Read => "READ(0)"@,
        BrainfuckInstruction::Write => "WRITE(0)"@,
        BrainfuckInstruction::Open => "OPEN()"@,
        BrainfuckInstruction::Close => "CLOSE()"@,
        BrainfuckInstruction::Store(v) => "SET(0, "@ + dec_rep(v as nat) + ")"@,
        BrainfuckInstruction::ScanLeft => "SCAN_LEFT()"@,
        BrainfuckInstruction::ScanRight => "SCAN_RIGHT()"@,
    }
}

/// A body line after the first: a newline, then four spaces per nesting
/// level, then the macro. `OPEN()` sits at the depth in force before it,
/// `CLOSE()` at the depth in force after it.
pub open spec fn c_sep_line(insn: BrainfuckInstruction, level: int) -> Seq<char> {
    match insn {
        BrainfuckInstruction::Close => "\n"@ + indent_rep(level - 1) + c_text(insn),
        _ => "\n"@ + indent_rep(level) + c_text(insn),
    }
}

/// The body lines for the instructions from position `i` on, entered at
/// nesting depth `level`, each preceded by its newline.
pub open spec fn c_lines_from(ir: Seq<BrainfuckInstruction>, i: int, level: int) -> Seq<char>
    decreases ir.len() - i,
{
    if i < 0 || i >= ir.len() {
        Seq::empty()
    } else {
        c_sep_line(ir[i], level) + c_lines_from(ir, i + 1, level + bracket_delta(ir[i]))
    }
}

/// The program body as it stands in the generated file: the first macro
/// flush at the template's insertion point, every later line indented four
/// spaces per open loop (one level for the body itself), no trailing
/// newline.
pub open spec fn c_body(ir: Seq<BrainfuckInstruction>) -> Seq<char> {
    if ir.len() == 0 {
        Seq::empty()
    } else {
        c_text(ir[0]) + c_lines_from(ir, 1, 1 + bracket_delta(ir[0]))
    }
}

/// The whole generated C file for an instruction sequence.
pub open spec fn compile_spec(ir: Seq<BrainfuckInstruction>) -> Seq<char> {
    C_TEMPLATE_HEAD@ + c_body(ir) + C_TEMPLATE_TAIL@
}

/// Appends the C macro invocation of `insn`, without indentation.
fn push_c_text(s: &mut String, insn: &BrainfuckInstruction)
    ensures
        final(s)@ == old(s)@ + c_text(*insn),
{
    match insn {
        BrainfuckInstruction::Add(n) => {
            s.append("ADJUST(0, ");
            push_decimal(s, *n as usize);
            s.append(")");
        },
        BrainfuckInstruction::Sub(n) => {
            s.append("ADJUST(0, -");
            push_decimal(s, *n as usize);
            s.append(")");
        },
        BrainfuckInstruction::Right(k) => {
            s.append("SELECT(");
            push_decimal(s, *k);
            s.append(")");
        },
        BrainfuckInstruction::Left(k) => {
            s.append("SELECT(-");
            push_decimal(s, *k);
            s.append(")");
        },
        BrainfuckInstruction::Read => {
            s.append("READ(0)");
        },
        BrainfuckInstruction::Write => {
            s.append("WRITE(0)");
        },
        BrainfuckInstruction::Open => {
            s.append("OPEN()");
        },
        BrainfuckInstruction::Close => {
            s.append("CLOSE()");
        },
        BrainfuckInstruction::Store(v) => {
            s.append("SET(0, ");
            push_decimal(s, *v as usize);
            s.append(")");
        },
        BrainfuckInstruction::ScanLeft => {
            s.append("SCAN_LEFT()");
        },
        BrainfuckInstruction::ScanRight => {
            s.append("SCAN_RIGHT()");
        },
    }
    proof {
        assert(final(s)@ =~= old(s)@ + c_text(*insn));
    }
}

/// Compiles a sequence of BrainfuckInstructions to C source code: the fixed
/// template around one macro invocation per instruction, indented four
/// spaces per open loop.
pub fn compile(ir: Vec<BrainfuckInstruction>) -> (r: String)
    ensures
        r@ == compile_spec(ir@),
{
    let mut result = String::from_str(C_TEMPLATE_HEAD);

    let mut level: i128 = 1;
    let mut index: usize = 0;
    while index < ir.len()
        invariant
            index <= ir@.len(),
            -(index as int) <= level as int <= 1 + index as int,
            index == 0 ==> level == 1 && result@ == C_TEMPLATE_HEAD@,
            index >= 1 ==> C_TEMPLATE_HEAD@ + c_body(ir@) == result@ + c_lines_from(
                ir@,
                index as int,
                level as int,
            ),
        decreases ir@.len() - index,
    {
        let insn = ir[index];
        let ghost lvl0 = level as int;
        let ghost res0 = result@;
        if index == 0 {
            push_c_text(&mut result, &insn);
            match insn {
                BrainfuckInstruction::Open => {
                    level = 2;
                },
                BrainfuckInstruction::Close => {
                    level = 0;
                },
                _ => {},
            }
            proof {
                assert(level as int == 1 + bracket_delta(ir@[0]));
                assert(C_TEMPLATE_HEAD@ + c_body(ir@) =~= result@ + c_lines_from(
                    ir@,
                    1,
                    level as int,
                ));
            }
        } else {
            result.append("\n");
            match insn {
                BrainfuckInstruction::Open => {
                    push_indent(&mut result, level);
                    push_c_text(&mut result, &insn);
                    level = level + 1;
                },
                BrainfuckInstruction::Close => {
                    level = level - 1;
                    push_indent(&mut result, level);
                    push_c_text(&mut result, &insn);
                },
                _ => {
                    push_indent(&mut result, level);
                    push_c_text(&mut result, &insn);
                },
            }
            proof {
                assert(c_lines_from(ir@, index as int, lvl0) == c_sep_line(ir@[index as int], lvl0)
                    + c_lines_from(ir@, index as int + 1, lvl0 + bracket_delta(
                    ir@[index as int],
                )));
                assert(result@ =~= res0 + c_sep_line(ir@[index as int], lvl0));
                assert(res0 + c_lines_from(ir@, index as int, lvl0) =~= result@ + c_lines_from(
                    ir@,
                    index as int + 1,
                    level as int,
                ));
            }
        }
        index = index + 1;
    }
    result.append(C_TEMPLATE_TAIL);
    proof {
        assert(result@ =~= compile_spec(ir@));
    }
    result
}

} // verus!
