//! The intermediate representation shared by every stage of the toolkit: a
//! flat sequence of tagged instructions, together with the bracket-balance
//! notions that the optimizer and the interpreter both reason about.

use vstd::prelude::*;
use vstd::string::StringExecFns;

use crate::text::dec_rep;
use crate::text::push_decimal;

verus! {

/// One instruction of the intermediate representation.
///
/// The eight standard Brainfuck instructions map onto `Add`, `Sub`, `Right`,
/// `Left`, `Read`, `Write`, `Open` and `Close`; the parser always emits the
/// counted variants with count 1. `Store`, `ScanLeft` and `ScanRight` are
/// synthesized only by the optimizer.
#[derive(Debug, Clone, Copy, PartialEq, Eq, Structural)]
pub enum BrainfuckInstruction {
    /// Add represents a run of Brainfuck `+` instructions.
    Add(u8),
    /// Sub represents a run of Brainfuck `-` instructions.
    Sub(u8),
    /// Right represents a run of Brainfuck `>` instructions.
    Right(usize),
    /// Left represents a run of Brainfuck `<` instructions.
    Left(usize),
    /// Read represents a Brainfuck `,` instruction.
    Read,
    /// Write represents a Brainfuck `.` instruction.
    Write,
    /// Open represents a Brainfuck `[` instruction.
    Open,
    /// Close represents a Brainfuck `]` instruction.
    Close,
    /// Store assigns a value to the current tape cell; produced by rewriting
    /// the clear idiom `[-]`.
    Store(u8),
    /// ScanLeft moves the data pointer left to the nearest zero cell;
    /// produced by rewriting `[<]`.
    ScanLeft,
    /// ScanRight moves the data pointer right to the nearest zero cell;
    /// produced by rewriting `[>]`.
    ScanRight,
}

/// How one instruction changes the bracket nesting depth.
pub open spec fn bracket_delta(insn: BrainfuckInstruction) -> int {
    match insn {
        BrainfuckInstruction::Open => 1,
        BrainfuckInstruction::Close => -1,
        _ => 0,
    }
}

/// The instruction sequence, read from the front at nesting depth `depth`,
/// never closes an unopened bracket and ends back at depth zero.
pub open spec fn balanced_from(ir: Seq<BrainfuckInstruction>, depth: int) -> bool
    decreases ir.len(),
{
    if ir.len() == 0 {
        depth == 0
    } else {
        let next = depth + bracket_delta(ir[0]);
        next >= 0 && balanced_from(ir.skip(1), next)
    }
}

/// Every `Close` has a matching earlier `Open`, and every `Open` a matching
/// later `Close`.
pub open spec fn balanced(ir: Seq<BrainfuckInstruction>) -> bool {
    balanced_from(ir, 0)
}

/// Decides whether an instruction sequence is balanced: whether every
/// `Close` has a matching earlier `Open` and every `Open` a matching later
/// `Close`. Consumers that demand balance, such as the interpreter's
/// constructor, are guarded by this check.
pub fn is_balanced(ir: &Vec<BrainfuckInstruction>) -> (r: bool)
    ensures
        r == balanced(ir@),
{
    let mut depth: usize = 0;
    let mut index: usize = 0;
    proof {
        assert(ir@.skip(0) =~= ir@);
    }
    while index < ir.len()
        invariant
            index <= ir@.len(),
            depth <= index,
            balanced(ir@) == balanced_from(ir@.skip(index as int), depth as int),
        decreases ir@.len() - index,
    {
        let ghost rest = ir@.skip(index as int);
        proof {
            assert(rest[0] == ir@[index as int]);
            assert(rest.skip(1) =~= ir@.skip(index as int + 1));
        }
        match ir[index] {
            BrainfuckInstruction::Open => {
                depth += 1;
            },
            BrainfuckInstruction::Close => {
                if depth == 0 {
                    proof {
                        assert(!balanced_from(rest, 0));
                    }
                    return false;
                }
                depth -= 1;
            },
            _ => {},
        }
        index += 1;
    }
    proof {
        assert(ir@.skip(ir@.len() as int).len() == 0);
    }
    depth == 0
}

/// The bracket nesting depth after the first `i` instructions: opens minus
/// closes among them.
pub open spec fn open_depth(ir: Seq<BrainfuckInstruction>, i: int) -> int
    decreases i,
{
    if i <= 0 {
        0
    } else {
        open_depth(ir, i - 1) + bracket_delta(ir[i - 1])
    }
}

/// In a balanced sequence, what remains after any prefix is balanced from
/// that prefix's depth, and no prefix closes more than it has opened.
pub proof fn lemma_balanced_suffix(ir: Seq<BrainfuckInstruction>, i: int)
    requires
        balanced(ir),
        0 <= i <= ir.len(),
    ensures
        open_depth(ir, i) >= 0,
        balanced_from(ir.skip(i), open_depth(ir, i)),
    decreases i,
{
    if i == 0 {
        assert(ir.skip(0) =~= ir);
    } else {
        lemma_balanced_suffix(ir, i - 1);
        assert(ir.skip(i - 1)[0] == ir[i - 1]);
        assert(ir.skip(i - 1).skip(1) =~= ir.skip(i));
    }
}

/// The whole of a balanced sequence nets to depth zero.
pub proof fn lemma_balanced_total(ir: Seq<BrainfuckInstruction>)
    requires
        balanced(ir),
    ensures
        open_depth(ir, ir.len() as int) == 0,
{
    lemma_balanced_suffix(ir, ir.len() as int);
    assert(ir.skip(ir.len() as int).len() == 0);
}

/// The `Open` at `o` and the `Close` at `c` are partners: the stretch
/// strictly between them opens and closes in balance, never dipping under
/// the depth just inside the pair.
pub open spec fn brackets_match(ir: Seq<BrainfuckInstruction>, o: int, c: int) -> bool {
    &&& 0 <= o < c < ir.len()
    &&& ir[o] == BrainfuckInstruction::Open
    &&& ir[c] == BrainfuckInstruction::Close
    &&& open_depth(ir, c) == open_depth(ir, o + 1)
    &&& forall|j: int| o + 1 <= j <= c ==> #[trigger] open_depth(ir, j) >= open_depth(ir, o + 1)
}

/// Four spaces for each open loop; nothing once the nesting goes negative.
pub open spec fn indent_rep(level: int) -> Seq<char> {
    if level <= 0 {
        Seq::empty()
    } else {
        Seq::new((4 * level) as nat, |i: int| ' ')
    }
}

/// The lowercase mnemonic of one instruction, with its count where it has
/// one, ending in a newline.
pub open spec fn mnemonic_text(insn: BrainfuckInstruction) -> Seq<char> {
    match insn {
        BrainfuckInstruction::Add(n) => "add "@ + dec_rep(n as nat) + "\n"@,
        BrainfuckInstruction::Sub(n) => "sub "@ + dec_rep(n as nat) + "\n"@,
        BrainfuckInstruction::Right(k) => "right "@ + dec_rep(k as nat) + "\n"@,
        BrainfuckInstruction::Left(k) => "left "@ + dec_rep(k as nat) + "\n"@,
        BrainfuckInstruction::Read => "read\n"@,
        BrainfuckInstruction::Write => "write\n"@,
        BrainfuckInstruction::Open => "open\n"@,
        BrainfuckInstruction::Close => "close\n"@,
        BrainfuckInstruction::Store(v) => "set "@ + dec_rep(v as nat) + "\n"@,
        BrainfuckInstruction::ScanLeft => "scan_left\n"@,
        BrainfuckInstruction::ScanRight => "scan_right\n"@,
    }
}

/// One line of the listing. `open` is indented at the depth in force before
/// it; `close` at the depth in force after it.
pub open spec fn listing_line(insn: BrainfuckInstruction, level: int) -> Seq<char> {
    match insn {
        BrainfuckInstruction::Close => indent_rep(level - 1) + mnemonic_text(insn),
        _ => indent_rep(level) + mnemonic_text(insn),
    }
}

/// The listing of the instructions from position `i` on, entered at nesting
/// depth `level`.
pub open spec fn listing_from(ir: Seq<BrainfuckInstruction>, i: int, level: int) -> Seq<char>
    decreases ir.len() - i,
{
    if i < 0 || i >= ir.len() {
        Seq::empty()
    } else {
        listing_line(ir[i], level) + listing_from(ir, i + 1, level + bracket_delta(ir[i]))
    }
}

/// The whole textual listing of an instruction sequence.
pub open spec fn ir_listing(ir: Seq<BrainfuckInstruction>) -> Seq<char> {
    listing_from(ir, 0, 0)
}

/// Appends the mnemonic line of `insn`, without indentation.
fn push_mnemonic(s: &mut String, insn: &BrainfuckInstruction)
    ensures
        final(s)@ == old(s)@ + mnemonic_text(*insn),
{
    match insn {
        BrainfuckInstruction::Add(n) => {
            s.append("add ");
            push_decimal(s, *n as usize);
            s.append("\n");
        },
        BrainfuckInstruction::Sub(n) => {
            s.append("sub ");
            push_decimal(s, *n as usize);
            s.append("\n");
        },
        BrainfuckInstruction::Right(k) => {
            s.append("right ");
            push_decimal(s, *k);
            s.append("\n");
        },
        BrainfuckInstruction::Left(k) => {
            s.append("left ");
            push_decimal(s, *k);
            s.append("\n");
        },
        BrainfuckInstruction::Read => {
            s.append("read\n");
        },
        BrainfuckInstruction::Write => {
            s.append("write\n");
        },
        BrainfuckInstruction::Open => {
            s.append("open\n");
        },
        BrainfuckInstruction::Close => {
            s.append("close\n");
        },
        BrainfuckInstruction::Store(v) => {
            s.append("set ");
            push_decimal(s, *v as usize);
            s.append("\n");
        },
        BrainfuckInstruction::ScanLeft => {
            s.append("scan_left\n");
        },
        BrainfuckInstruction::ScanRight => {
            s.append("scan_right\n");
        },
    }
    proof {
        assert(final(s)@ =~= old(s)@ + mnemonic_text(*insn));
    }
}

/// Appends four spaces for each open loop; nothing when `level` is not
/// positive.
pub(crate) fn push_indent(s: &mut String, level: i128)
    ensures
        final(s)@ == old(s)@ + indent_rep(level as int),
{
    let mut i: i128 = 0;
    while i < level
        invariant
            0 <= i,
            i <= level || i == 0,
            s@ == old(s)@ + Seq::new((4 * i) as nat, |j: int| ' '),
        decreases level - i,
    {
        s.append("    ");
        i = i + 1;
        proof {
            reveal_strlit("    ");
            assert(s@ =~= old(s)@ + Seq::new((4 * i) as nat, |j: int| ' '));
        }
    }
    proof {
        assert(s@ =~= old(s)@ + indent_rep(level as int));
    }
}

/// Converts an instruction sequence to its textual listing: one mnemonic per
/// line, indented four spaces for each loop that is open around it.
pub fn ir_to_string(ir: Vec<BrainfuckInstruction>) -> (r: String)
    ensures
        r@ == ir_listing(ir@),
{
    let mut result = String::new();
    let mut level: i128 = 0;
    let mut index: usize = 0;
    while index < ir.len()
        invariant
            index <= ir@.len(),
            -(index as int) <= level as int <= index as int,
            ir_listing(ir@) == result@ + listing_from(ir@, index as int, level as int),
        decreases ir@.len() - index,
    {
        let ghost lvl0 = level as int;
        let ghost res0 = result@;
        let insn = ir[index];
        match insn {
            BrainfuckInstruction::Open => {
                push_indent(&mut result, level);
                push_mnemonic(&mut result, &insn);
                level = level + 1;
            },
            BrainfuckInstruction::Close => {
                level = level - 1;
                push_indent(&mut result, level);
                push_mnemonic(&mut result, &insn);
            },
            _ => {
                push_indent(&mut result, level);
                push_mnemonic(&mut result, &insn);
            },
        }
        proof {
            assert(listing_from(ir@, index as int, lvl0) == listing_line(ir@[index as int], lvl0)
                + listing_from(ir@, index as int + 1, lvl0 + bracket_delta(ir@[index as int])));
            assert(result@ =~= res0 + listing_line(ir@[index as int], lvl0));
            assert(res0 + listing_from(ir@, index as int, lvl0) =~= result@ + listing_from(
                ir@,
                index as int + 1,
                level as int,
            ));
        }
        index = index + 1;
    }
    result
}

} // verus!
