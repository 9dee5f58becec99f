//! The peephole optimizer: a fixed-point driver over four passes that
//! shrink an instruction sequence without changing what it does on a
//! conforming tape.

use vstd::prelude::*;

use crate::ir::BrainfuckInstruction;
use crate::ir::balanced;
use crate::ir::balanced_from;
use crate::ir::bracket_delta;

verus! {

/// The position just past the loop that is open on entry: scanning from
/// position `i` at nesting depth `level`, the first position where the
/// depth returns to zero (or the end of the sequence).
pub open spec fn leading_loop_end(ir: Seq<BrainfuckInstruction>, i: int, level: int) -> int
    decreases ir.len() - i,
{
    if i >= ir.len() || level <= 0 {
        i
    } else {
        leading_loop_end(ir, i + 1, level + bracket_delta(ir[i]))
    }
}

/// A program that begins with a loop loses that whole loop: on an all-zero
/// tape a leading loop can never run. Anything else passes unchanged.
pub open spec fn dead_code_spec(ir: Seq<BrainfuckInstruction>) -> Seq<BrainfuckInstruction> {
    if ir.len() > 0 && ir[0] == BrainfuckInstruction::Open {
        ir.skip(leading_loop_end(ir, 1, 1))
    } else {
        ir
    }
}

/// The scan position stays between its start and the end of the sequence.
pub proof fn lemma_leading_loop_end_bounds(ir: Seq<BrainfuckInstruction>, i: int, level: int)
    requires
        0 <= i <= ir.len(),
    ensures
        i <= leading_loop_end(ir, i, level) <= ir.len(),
    decreases ir.len() - i,
{
    if i < ir.len() && level > 0 {
        lemma_leading_loop_end_bounds(ir, i + 1, level + bracket_delta(ir[i]));
    }
}

/// Removes the leading loop, if the program starts with one.
pub fn dead_code_removal(ir: Vec<BrainfuckInstruction>) -> (r: Vec<BrainfuckInstruction>)
    ensures
        r@ == dead_code_spec(ir@),
{
    if ir.len() > 0 && matches!(ir[0], BrainfuckInstruction::Open) {
        let mut index: usize = 1;
        let mut level: usize = 1;

        while index < ir.len() && level > 0
            invariant
                1 <= index <= ir@.len(),
                level <= index,
                leading_loop_end(ir@, 1, 1) == leading_loop_end(ir@, index as int, level as int),
            decreases ir@.len() - index,
        {
            if matches!(ir[index], BrainfuckInstruction::Open) {
                level += 1;
            } else if matches!(ir[index], BrainfuckInstruction::Close) {
                level -= 1;
            }
            index += 1;
        }

        let mut result: Vec<BrainfuckInstruction> = Vec::new();
        let ghost start = index as int;
        proof {
            assert(leading_loop_end(ir@, index as int, level as int) == index as int);
        }
        while index < ir.len()
            invariant
                0 <= start <= index as int <= ir@.len(),
                result@ == ir@.subrange(start, index as int),
            decreases ir@.len() - index,
        {
            result.push(ir[index]);
            proof {
                assert(result@ =~= ir@.subrange(start, index as int + 1));
            }
            index += 1;
        }
        proof {
            assert(result@ =~= ir@.skip(start));
        }
        result
    } else {
        ir
    }
}

/// Exactly the clear idiom `[-]` stands at position `i`: `Open, Sub(1),
/// Close`, wholly in bounds. `Sub(n)` with another count does not match.
pub open spec fn clear_at(ir: Seq<BrainfuckInstruction>, i: int) -> bool {
    &&& i + 2 < ir.len()
    &&& ir[i] == BrainfuckInstruction::Open
    &&& ir[i + 1] == BrainfuckInstruction::Sub(1u8)
    &&& ir[i + 2] == BrainfuckInstruction::Close
}

/// Each occurrence of `Open, Sub(1), Close` becomes `Store(0)`; everything
/// else is copied through.
pub open spec fn clear_loop_spec(ir: Seq<BrainfuckInstruction>) -> Seq<BrainfuckInstruction>
    decreases ir.len(),
{
    if ir.len() == 0 {
        Seq::empty()
    } else if clear_at(ir, 0) {
        seq![BrainfuckInstruction::Store(0u8)] + clear_loop_spec(ir.skip(3))
    } else {
        seq![ir[0]] + clear_loop_spec(ir.skip(1))
    }
}

/// Whether the clear idiom `[-]` stands at `index`.
fn match_clear(ir: &Vec<BrainfuckInstruction>, index: usize) -> (r: bool)
    requires
        index < ir@.len(),
    ensures
        r == clear_at(ir@, index as int),
{
    if ir.len() - index < 3 {
        return false;
    }
    match (ir[index], ir[index + 1], ir[index + 2]) {
        (
            BrainfuckInstruction::Open,
            BrainfuckInstruction::Sub(n),
            BrainfuckInstruction::Close,
        ) => n == 1,
        _ => false,
    }
}

/// Rewrites each clear loop `[-]` as a store of zero.
pub fn clear_loop_removal(ir: Vec<BrainfuckInstruction>) -> (r: Vec<BrainfuckInstruction>)
    ensures
        r@ == clear_loop_spec(ir@),
{
    let mut result: Vec<BrainfuckInstruction> = Vec::new();

    let mut index: usize = 0;
    proof {
        assert(ir@.skip(0) =~= ir@);
    }
    while index < ir.len()
        invariant
            index <= ir@.len(),
            clear_loop_spec(ir@) == result@ + clear_loop_spec(ir@.skip(index as int)),
        decreases ir@.len() - index,
    {
        let ghost rest = ir@.skip(index as int);
        if match_clear(&ir, index) {
            result.push(BrainfuckInstruction::Store(0));
            proof {
                assert(clear_at(rest, 0));
                assert(rest.skip(3) =~= ir@.skip(index as int + 3));
            }
            index += 3;
        } else {
            result.push(ir[index]);
            proof {
                assert(!clear_at(rest, 0));
                assert(rest.skip(1) =~= ir@.skip(index as int + 1));
            }
            index += 1;
        }
    }
    proof {
        assert(ir@.skip(ir@.len() as int) =~= Seq::<BrainfuckInstruction>::empty());
    }
    result
}

/// Two adjacent instructions of the same counted variant, which contraction
/// may collapse into one.
pub open spec fn mergeable(a: BrainfuckInstruction, b: BrainfuckInstruction) -> bool {
    match (a, b) {
        (BrainfuckInstruction::Add(_), BrainfuckInstruction::Add(_)) => true,
        (BrainfuckInstruction::Sub(_), BrainfuckInstruction::Sub(_)) => true,
        (BrainfuckInstruction::Right(_), BrainfuckInstruction::Right(_)) => true,
        (BrainfuckInstruction::Left(_), BrainfuckInstruction::Left(_)) => true,
        _ => false,
    }
}

/// The single instruction a mergeable pair collapses to: counts are added
/// with wrapping arithmetic at the variant's width.
pub open spec fn counted_merge(
    a: BrainfuckInstruction,
    b: BrainfuckInstruction,
) -> BrainfuckInstruction
    recommends
        mergeable(a, b),
{
    match (a, b) {
        (BrainfuckInstruction::Add(x), BrainfuckInstruction::Add(y)) => BrainfuckInstruction::Add(
            x.wrapping_add(y),
        ),
        (BrainfuckInstruction::Sub(x), BrainfuckInstruction::Sub(y)) => BrainfuckInstruction::Sub(
            x.wrapping_add(y),
        ),
        (
            BrainfuckInstruction::Right(x),
            BrainfuckInstruction::Right(y),
        ) => BrainfuckInstruction::Right(x.wrapping_add(y)),
        (BrainfuckInstruction::Left(x), BrainfuckInstruction::Left(y)) => BrainfuckInstruction::Left(
            x.wrapping_add(y),
        ),
        _ => a,
    }
}

/// Maximal runs of one counted variant collapse to a single instruction
/// carrying the wrapped sum of their counts; everything else is copied
/// through.
pub open spec fn contraction_spec(ir: Seq<BrainfuckInstruction>) -> Seq<BrainfuckInstruction>
    decreases ir.len(),
{
    if ir.len() == 0 {
        Seq::empty()
    } else if ir.len() >= 2 && mergeable(ir[0], ir[1]) {
        contraction_spec(seq![counted_merge(ir[0], ir[1])] + ir.skip(2))
    } else {
        seq![ir[0]] + contraction_spec(ir.skip(1))
    }
}

/// Collapses each maximal run of `Add`, `Sub`, `Right` or `Left` into one
/// instruction with the counts summed (wrapping at the variant's width).
pub fn contraction(ir: Vec<BrainfuckInstruction>) -> (r: Vec<BrainfuckInstruction>)
    ensures
        r@ == contraction_spec(ir@),
{
    let mut result: Vec<BrainfuckInstruction> = Vec::new();

    let mut index: usize = 0;
    proof {
        assert(ir@.skip(0) =~= ir@);
    }
    while index < ir.len()
        invariant
            index <= ir@.len(),
            contraction_spec(ir@) == result@ + contraction_spec(ir@.skip(index as int)),
        decreases ir@.len() - index,
    {
        match ir[index] {
            BrainfuckInstruction::Add(n) => {
                let mut count: u8 = n;
                let ghost index0 = index;
                proof {
                    assert(ir@.skip(index as int) =~= seq![BrainfuckInstruction::Add(count)]
                        + ir@.skip(index as int + 1));
                }
                while index + 1 < ir.len()
                    invariant
                        index0 <= index < ir.len(),
                        contraction_spec(ir@) == result@ + contraction_spec(
                            seq![BrainfuckInstruction::Add(count)] + ir@.skip(index as int + 1),
                        ),
                    ensures
                        index0 <= index < ir.len(),
                        contraction_spec(ir@) == result@ + contraction_spec(
                            seq![BrainfuckInstruction::Add(count)] + ir@.skip(index as int + 1),
                        ),
                        index as int + 1 < ir@.len() ==> !mergeable(
                            BrainfuckInstruction::Add(count),
                            ir@[index as int + 1],
                        ),
                    decreases ir@.len() - index,
                {
                    let ghost pre = seq![BrainfuckInstruction::Add(count)] + ir@.skip(
                        index as int + 1,
                    );
                    if let BrainfuckInstruction::Add(x) = ir[index + 1] {
                        proof {
                            assert(pre[1] == ir@[index as int + 1]);
                            assert(mergeable(pre[0], pre[1]));
                            assert(seq![counted_merge(pre[0], pre[1])] + pre.skip(2) =~= seq![
                                BrainfuckInstruction::Add(count.wrapping_add(x)),
                            ] + ir@.skip(index as int + 2));
                        }
                        count = count.wrapping_add(x);
                        index += 1;
                    } else {
                        break ;
                    }
                }
                proof {
                    lemma_contraction_run_end(ir@, index as int, BrainfuckInstruction::Add(count));
                }
                result.push(BrainfuckInstruction::Add(count));
                index += 1;
            },
            BrainfuckInstruction::Sub(n) => {
                let mut count: u8 = n;
                let ghost index0 = index;
                proof {
                    assert(ir@.skip(index as int) =~= seq![BrainfuckInstruction::Sub(count)]
                        + ir@.skip(index as int + 1));
                }
                while index + 1 < ir.len()
                    invariant
                        index0 <= index < ir.len(),
                        contraction_spec(ir@) == result@ + contraction_spec(
                            seq![BrainfuckInstruction::Sub(count)] + ir@.skip(index as int + 1),
                        ),
                    ensures
                        index0 <= index < ir.len(),
                        contraction_spec(ir@) == result@ + contraction_spec(
                            seq![BrainfuckInstruction::Sub(count)] + ir@.skip(index as int + 1),
                        ),
                        index as int + 1 < ir@.len() ==> !mergeable(
                            BrainfuckInstruction::Sub(count),
                            ir@[index as int + 1],
                        ),
                    decreases ir@.len() - index,
                {
                    let ghost pre = seq![BrainfuckInstruction::Sub(count)] + ir@.skip(
                        index as int + 1,
                    );
                    if let BrainfuckInstruction::Sub(x) = ir[index + 1] {
                        proof {
                            assert(pre[1] == ir@[index as int + 1]);
                            assert(mergeable(pre[0], pre[1]));
                            assert(seq![counted_merge(pre[0], pre[1])] + pre.skip(2) =~= seq![
                                BrainfuckInstruction::Sub(count.wrapping_add(x)),
                            ] + ir@.skip(index as int + 2));
                        }
                        count = count.wrapping_add(x);
                        index += 1;
                    } else {
                        break ;
                    }
                }
                proof {
                    lemma_contraction_run_end(ir@, index as int, BrainfuckInstruction::Sub(count));
                }
                result.push(BrainfuckInstruction::Sub(count));
                index += 1;
            },
            BrainfuckInstruction::Right(n) => {
                let mut count: usize = n;
                let ghost index0 = index;
                proof {
                    assert(ir@.skip(index as int) =~= seq![BrainfuckInstruction::Right(count)]
                        + ir@.skip(index as int + 1));
                }
                while index + 1 < ir.len()
                    invariant
                        index0 <= index < ir.len(),
                        contraction_spec(ir@) == result@ + contraction_spec(
                            seq![BrainfuckInstruction::Right(count)] + ir@.skip(index as int + 1),
                        ),
                    ensures
                        index0 <= index < ir.len(),
                        contraction_spec(ir@) == result@ + contraction_spec(
                            seq![BrainfuckInstruction::Right(count)] + ir@.skip(index as int + 1),
                        ),
                        index as int + 1 < ir@.len() ==> !mergeable(
                            BrainfuckInstruction::Right(count),
                            ir@[index as int + 1],
                        ),
                    decreases ir@.len() - index,
                {
                    let ghost pre = seq![BrainfuckInstruction::Right(count)] + ir@.skip(
                        index as int + 1,
                    );
                    if let BrainfuckInstruction::Right(x) = ir[index + 1] {
                        proof {
                            assert(pre[1] == ir@[index as int + 1]);
                            assert(mergeable(pre[0], pre[1]));
                            assert(seq![counted_merge(pre[0], pre[1])] + pre.skip(2) =~= seq![
                                BrainfuckInstruction::Right(count.wrapping_add(x)),
                            ] + ir@.skip(index as int + 2));
                        }
                        count = count.wrapping_add(x);
                        index += 1;
                    } else {
                        break ;
                    }
                }
                proof {
                    lemma_contraction_run_end(ir@, index as int, BrainfuckInstruction::Right(count));
                }
                result.push(BrainfuckInstruction::Right(count));
                index += 1;
            },
            BrainfuckInstruction::Left(n) => {
                let mut count: usize = n;
                let ghost index0 = index;
                proof {
                    assert(ir@.skip(index as int) =~= seq![BrainfuckInstruction::Left(count)]
                        + ir@.skip(index as int + 1));
                }
                while index + 1 < ir.len()
                    invariant
                        index0 <= index < ir.len(),
                        contraction_spec(ir@) == result@ + contraction_spec(
                            seq![BrainfuckInstruction::Left(count)] + ir@.skip(index as int + 1),
                        ),
                    ensures
                        index0 <= index < ir.len(),
                        contraction_spec(ir@) == result@ + contraction_spec(
                            seq![BrainfuckInstruction::Left(count)] + ir@.skip(index as int + 1),
                        ),
                        index as int + 1 < ir@.len() ==> !mergeable(
                            BrainfuckInstruction::Left(count),
                            ir@[index as int + 1],
                        ),
                    decreases ir@.len() - index,
                {
                    let ghost pre = seq![BrainfuckInstruction::Left(count)] + ir@.skip(
                        index as int + 1,
                    );
                    if let BrainfuckInstruction::Left(x) = ir[index + 1] {
                        proof {
                            assert(pre[1] == ir@[index as int + 1]);
                            assert(mergeable(pre[0], pre[1]));
                            assert(seq![counted_merge(pre[0], pre[1])] + pre.skip(2) =~= seq![
                                BrainfuckInstruction::Left(count.wrapping_add(x)),
                            ] + ir@.skip(index as int + 2));
                        }
                        count = count.wrapping_add(x);
                        index += 1;
                    } else {
                        break ;
                    }
                }
                proof {
                    lemma_contraction_run_end(ir@, index as int, BrainfuckInstruction::Left(count));
                }
                result.push(BrainfuckInstruction::Left(count));
                index += 1;
            },
            _ => {
                proof {
                    let rest = ir@.skip(index as int);
                    assert(rest[0] == ir@[index as int]);
                    assert(rest.len() >= 2 ==> !mergeable(rest[0], rest[1]));
                    assert(rest.skip(1) =~= ir@.skip(index as int + 1));
                }
                result.push(ir[index]);
                index += 1;
            },
        }
    }
    proof {
        assert(ir@.skip(ir@.len() as int) =~= Seq::<BrainfuckInstruction>::empty());
    }
    result
}

/// At the end of a run, the pending contracted instruction passes to the
/// output whole: the next instruction (if any) is not mergeable with it.
proof fn lemma_contraction_run_end(ir: Seq<BrainfuckInstruction>, index: int, cur: BrainfuckInstruction)
    requires
        0 <= index < ir.len(),
        index + 1 < ir.len() ==> !mergeable(cur, ir[index + 1]),
    ensures
        contraction_spec(seq![cur] + ir.skip(index + 1)) == seq![cur] + contraction_spec(
            ir.skip(index + 1),
        ),
{
    let pre = seq![cur] + ir.skip(index + 1);
    assert(pre[0] == cur);
    if index + 1 < ir.len() {
        assert(pre[1] == ir[index + 1]);
    }
    assert(pre.skip(1) =~= ir.skip(index + 1));
}

/// Exactly a scan idiom stands at position `i`: `Open, Left(1), Close` or
/// `Open, Right(1), Close`, wholly in bounds.
pub open spec fn scan_at(ir: Seq<BrainfuckInstruction>, i: int) -> bool {
    &&& i + 2 < ir.len()
    &&& ir[i] == BrainfuckInstruction::Open
    &&& (ir[i + 1] == BrainfuckInstruction::Left(1usize) || ir[i + 1]
        == BrainfuckInstruction::Right(1usize))
    &&& ir[i + 2] == BrainfuckInstruction::Close
}

/// Each scan loop `[<]` becomes `ScanLeft` and each `[>]` becomes
/// `ScanRight`; everything else is copied through.
pub open spec fn scan_loop_spec(ir: Seq<BrainfuckInstruction>) -> Seq<BrainfuckInstruction>
    decreases ir.len(),
{
    if ir.len() == 0 {
        Seq::empty()
    } else if scan_at(ir, 0) {
        let scan = if ir[1] == BrainfuckInstruction::Left(1usize) {
            BrainfuckInstruction::ScanLeft
        } else {
            BrainfuckInstruction::ScanRight
        };
        seq![scan] + scan_loop_spec(ir.skip(3))
    } else {
        seq![ir[0]] + scan_loop_spec(ir.skip(1))
    }
}

/// Whether a scan idiom `[<]` or `[>]` stands at `index`.
fn match_scan_loop(ir: &Vec<BrainfuckInstruction>, index: usize) -> (r: bool)
    requires
        index < ir@.len(),
    ensures
        r == scan_at(ir@, index as int),
{
    if ir.len() - index < 3 {
        return false;
    }
    match (ir[index], ir[index + 1], ir[index + 2]) {
        (
            BrainfuckInstruction::Open,
            BrainfuckInstruction::Left(n),
            BrainfuckInstruction::Close,
        ) => n == 1,
        (
            BrainfuckInstruction::Open,
            BrainfuckInstruction::Right(n),
            BrainfuckInstruction::Close,
        ) => n == 1,
        _ => false,
    }
}

/// Rewrites each scan loop `[<]` or `[>]` as the matching scan instruction.
pub fn scan_loop_removal(ir: Vec<BrainfuckInstruction>) -> (r: Vec<BrainfuckInstruction>)
    ensures
        r@ == scan_loop_spec(ir@),
{
    let mut result: Vec<BrainfuckInstruction> = Vec::new();

    let mut index: usize = 0;
    proof {
        assert(ir@.skip(0) =~= ir@);
    }
    while index < ir.len()
        invariant
            index <= ir@.len(),
            scan_loop_spec(ir@) == result@ + scan_loop_spec(ir@.skip(index as int)),
        decreases ir@.len() - index,
    {
        let ghost rest = ir@.skip(index as int);
        if match_scan_loop(&ir, index) {
            if matches!(ir[index + 1], BrainfuckInstruction::Left(_)) {
                result.push(BrainfuckInstruction::ScanLeft);
            } else {
                result.push(BrainfuckInstruction::ScanRight);
            }
            proof {
                assert(scan_at(rest, 0));
                assert(rest.skip(3) =~= ir@.skip(index as int + 3));
            }
            index += 3;
        } else {
            result.push(ir[index]);
            proof {
                assert(!scan_at(rest, 0));
                assert(rest.skip(1) =~= ir@.skip(index as int + 1));
            }
            index += 1;
        }
    }
    proof {
        assert(ir@.skip(ir@.len() as int) =~= Seq::<BrainfuckInstruction>::empty());
    }
    result
}

/// One full optimizer iteration: dead-code removal, then contraction, then
/// clear-loop removal, then scan-loop removal, in that mandatory order.
pub open spec fn optimization_round(ir: Seq<BrainfuckInstruction>) -> Seq<BrainfuckInstruction> {
    scan_loop_spec(clear_loop_spec(contraction_spec(dead_code_spec(ir))))
}

/// Up to `passes` optimizer iterations, stopping at the first one whose
/// result is no shorter than its input.
pub open spec fn optimize_spec(ir: Seq<BrainfuckInstruction>, passes: nat) -> Seq<
    BrainfuckInstruction,
>
    decreases passes,
{
    if passes == 0 {
        ir
    } else {
        let next = optimization_round(ir);
        if next.len() == ir.len() {
            next
        } else {
            optimize_spec(next, (passes - 1) as nat)
        }
    }
}

/// Performs up to `max_passes` optimization passes on an instruction
/// sequence, stopping early once an iteration no longer shrinks it.
pub fn optimize(ir: Vec<BrainfuckInstruction>, max_passes: u32) -> (r: Vec<BrainfuckInstruction>)
    ensures
        r@ == optimize_spec(ir@, max_passes as nat),
{
    let mut current = ir;
    let mut last_size: usize = current.len();
    let mut pass: u32 = 0;

    while pass < max_passes
        invariant_except_break
            optimize_spec(ir@, max_passes as nat) == optimize_spec(
                current@,
                (max_passes - pass) as nat,
            ),
        invariant
            pass <= max_passes,
            last_size == current@.len(),
        ensures
            optimize_spec(ir@, max_passes as nat) == current@,
        decreases max_passes - pass,
    {
        let ghost pre = current@;
        let ghost rem = (max_passes - pass) as nat;
        pass += 1;

        current = dead_code_removal(current);
        current = contraction(current);
        current = clear_loop_removal(current);
        current = scan_loop_removal(current);
        proof {
            assert(current@ == optimization_round(pre));
        }

        let len = current.len();
        if len == last_size {
            proof {
                assert(optimize_spec(pre, rem) == current@);
            }
            break ;
        } else {
            last_size = len;
            proof {
                assert(optimize_spec(pre, rem) == optimize_spec(current@, (rem - 1) as nat));
                assert((max_passes - pass) as nat == (rem - 1) as nat);
            }
        }
    }

    current
}

/// Contraction never lengthens the sequence.
pub proof fn lemma_contraction_len(ir: Seq<BrainfuckInstruction>)
    ensures
        contraction_spec(ir).len() <= ir.len(),
    decreases ir.len(),
{
    if ir.len() == 0 {
    } else if ir.len() >= 2 && mergeable(ir[0], ir[1]) {
        lemma_contraction_len(seq![counted_merge(ir[0], ir[1])] + ir.skip(2));
    } else {
        lemma_contraction_len(ir.skip(1));
    }
}

/// Clear-loop removal never lengthens the sequence.
pub proof fn lemma_clear_loop_len(ir: Seq<BrainfuckInstruction>)
    ensures
        clear_loop_spec(ir).len() <= ir.len(),
    decreases ir.len(),
{
    if ir.len() == 0 {
    } else if clear_at(ir, 0) {
        lemma_clear_loop_len(ir.skip(3));
    } else {
        lemma_clear_loop_len(ir.skip(1));
    }
}

/// Scan-loop removal never lengthens the sequence.
pub proof fn lemma_scan_loop_len(ir: Seq<BrainfuckInstruction>)
    ensures
        scan_loop_spec(ir).len() <= ir.len(),
    decreases ir.len(),
{
    if ir.len() == 0 {
    } else if scan_at(ir, 0) {
        lemma_scan_loop_len(ir.skip(3));
    } else {
        lemma_scan_loop_len(ir.skip(1));
    }
}

/// Dead-code removal never lengthens the sequence.
pub proof fn lemma_dead_code_len(ir: Seq<BrainfuckInstruction>)
    ensures
        dead_code_spec(ir).len() <= ir.len(),
{
    if ir.len() > 0 && ir[0] == BrainfuckInstruction::Open {
        lemma_leading_loop_end_bounds(ir, 1, 1);
    }
}

/// One optimizer iteration never lengthens the sequence.
pub proof fn lemma_round_len(ir: Seq<BrainfuckInstruction>)
    ensures
        optimization_round(ir).len() <= ir.len(),
{
    lemma_dead_code_len(ir);
    lemma_contraction_len(dead_code_spec(ir));
    lemma_clear_loop_len(contraction_spec(dead_code_spec(ir)));
    lemma_scan_loop_len(clear_loop_spec(contraction_spec(dead_code_spec(ir))));
}

/// The optimizer shrinks or halts: each extra pass can only shorten the
/// result, and no budget ever yields something longer than the input.
pub proof fn lemma_optimize_shrinks(ir: Seq<BrainfuckInstruction>, passes: nat)
    requires
        passes >= 1,
    ensures
        optimize_spec(ir, passes).len() <= optimize_spec(ir, (passes - 1) as nat).len(),
        optimize_spec(ir, passes).len() <= ir.len(),
    decreases passes,
{
    let next = optimization_round(ir);
    lemma_round_len(ir);
    if next.len() == ir.len() {
        assert(optimize_spec(ir, passes) == next);
        if passes == 1 {
            assert(optimize_spec(ir, 0) == ir);
        } else {
            assert(optimize_spec(ir, (passes - 1) as nat) == next);
        }
    } else {
        assert(optimize_spec(ir, passes) == optimize_spec(next, (passes - 1) as nat));
        if passes == 1 {
            assert(optimize_spec(next, 0) == next);
        } else {
            assert(optimize_spec(ir, (passes - 1) as nat) == optimize_spec(
                next,
                (passes - 2) as nat,
            ));
            lemma_optimize_shrinks(next, (passes - 1) as nat);
        }
    }
}

/// Scanning to the end of the leading loop from a position where the rest
/// of the program is balanced at the scanned depth lands at a position
/// where the rest is balanced outright.
proof fn lemma_leading_end_balanced(ir: Seq<BrainfuckInstruction>, i: int, level: int)
    requires
        0 <= i <= ir.len(),
        level >= 0,
        balanced_from(ir.skip(i), level),
    ensures
        balanced_from(ir.skip(leading_loop_end(ir, i, level)), 0),
    decreases ir.len() - i,
{
    if i >= ir.len() {
        assert(ir.skip(i).len() == 0);
    } else if level <= 0 {
    } else {
        assert(ir.skip(i)[0] == ir[i]);
        assert(ir.skip(i).skip(1) =~= ir.skip(i + 1));
        lemma_leading_end_balanced(ir, i + 1, level + bracket_delta(ir[i]));
    }
}

/// Dead-code removal preserves bracket balance.
pub proof fn lemma_dead_code_balanced(ir: Seq<BrainfuckInstruction>)
    requires
        balanced(ir),
    ensures
        balanced(dead_code_spec(ir)),
{
    if ir.len() > 0 && ir[0] == BrainfuckInstruction::Open {
        assert(ir.skip(1) =~= ir.skip(0).skip(1));
        lemma_leading_end_balanced(ir, 1, 1);
    }
}

/// Contraction preserves bracket balance at any depth.
proof fn lemma_contraction_balanced_from(ir: Seq<BrainfuckInstruction>, d: int)
    requires
        balanced_from(ir, d),
    ensures
        balanced_from(contraction_spec(ir), d),
    decreases ir.len(),
{
    if ir.len() == 0 {
    } else if ir.len() >= 2 && mergeable(ir[0], ir[1]) {
        let m = seq![counted_merge(ir[0], ir[1])] + ir.skip(2);
        assert(bracket_delta(ir[0]) == 0 && bracket_delta(ir[1]) == 0);
        assert(balanced_from(ir.skip(1), d));
        assert(ir.skip(1)[0] == ir[1]);
        assert(ir.skip(1).skip(1) =~= ir.skip(2));
        assert(balanced_from(ir.skip(2), d));
        assert(m.skip(1) =~= ir.skip(2));
        assert(bracket_delta(m[0]) == 0);
        assert(balanced_from(m, d));
        lemma_contraction_balanced_from(m, d);
    } else {
        let cs = contraction_spec(ir.skip(1));
        assert(balanced_from(ir.skip(1), d + bracket_delta(ir[0])));
        lemma_contraction_balanced_from(ir.skip(1), d + bracket_delta(ir[0]));
        assert((seq![ir[0]] + cs).skip(1) =~= cs);
        assert(balanced_from(seq![ir[0]] + cs, d));
    }
}

/// Clear-loop removal preserves bracket balance at any depth: it deletes
/// one `Open` and its immediately following `Close` together.
proof fn lemma_clear_loop_balanced_from(ir: Seq<BrainfuckInstruction>, d: int)
    requires
        balanced_from(ir, d),
    ensures
        balanced_from(clear_loop_spec(ir), d),
    decreases ir.len(),
{
    if ir.len() == 0 {
    } else if clear_at(ir, 0) {
        assert(balanced_from(ir.skip(1), d + 1));
        assert(ir.skip(1)[0] == ir[1]);
        assert(ir.skip(1).skip(1) =~= ir.skip(2));
        assert(balanced_from(ir.skip(2), d + 1));
        assert(ir.skip(2)[0] == ir[2]);
        assert(ir.skip(2).skip(1) =~= ir.skip(3));
        assert(d >= 0 && balanced_from(ir.skip(3), d));
        let cs = clear_loop_spec(ir.skip(3));
        lemma_clear_loop_balanced_from(ir.skip(3), d);
        assert((seq![BrainfuckInstruction::Store(0u8)] + cs).skip(1) =~= cs);
        assert(balanced_from(seq![BrainfuckInstruction::Store(0u8)] + cs, d));
    } else {
        let cs = clear_loop_spec(ir.skip(1));
        assert(balanced_from(ir.skip(1), d + bracket_delta(ir[0])));
        lemma_clear_loop_balanced_from(ir.skip(1), d + bracket_delta(ir[0]));
        assert((seq![ir[0]] + cs).skip(1) =~= cs);
        assert(balanced_from(seq![ir[0]] + cs, d));
    }
}

/// Scan-loop removal preserves bracket balance at any depth.
proof fn lemma_scan_loop_balanced_from(ir: Seq<BrainfuckInstruction>, d: int)
    requires
        balanced_from(ir, d),
    ensures
        balanced_from(scan_loop_spec(ir), d),
    decreases ir.len(),
{
    if ir.len() == 0 {
    } else if scan_at(ir, 0) {
        assert(balanced_from(ir.skip(1), d + 1));
        assert(ir.skip(1)[0] == ir[1]);
        assert(ir.skip(1).skip(1) =~= ir.skip(2));
        assert(balanced_from(ir.skip(2), d + 1));
        assert(ir.skip(2)[0] == ir[2]);
        assert(ir.skip(2).skip(1) =~= ir.skip(3));
        assert(d >= 0 && balanced_from(ir.skip(3), d));
        let scan = if ir[1] == BrainfuckInstruction::Left(1usize) {
            BrainfuckInstruction::ScanLeft
        } else {
            BrainfuckInstruction::ScanRight
        };
        let cs = scan_loop_spec(ir.skip(3));
        lemma_scan_loop_balanced_from(ir.skip(3), d);
        assert((seq![scan] + cs).skip(1) =~= cs);
        assert(balanced_from(seq![scan] + cs, d));
    } else {
        let cs = scan_loop_spec(ir.skip(1));
        assert(balanced_from(ir.skip(1), d + bracket_delta(ir[0])));
        lemma_scan_loop_balanced_from(ir.skip(1), d + bracket_delta(ir[0]));
        assert((seq![ir[0]] + cs).skip(1) =~= cs);
        assert(balanced_from(seq![ir[0]] + cs, d));
    }
}

/// One optimizer iteration preserves bracket balance.
pub proof fn lemma_round_balanced(ir: Seq<BrainfuckInstruction>)
    requires
        balanced(ir),
    ensures
        balanced(optimization_round(ir)),
{
    lemma_dead_code_balanced(ir);
    lemma_contraction_balanced_from(dead_code_spec(ir), 0);
    lemma_clear_loop_balanced_from(contraction_spec(dead_code_spec(ir)), 0);
    lemma_scan_loop_balanced_from(clear_loop_spec(contraction_spec(dead_code_spec(ir))), 0);
}

/// Optimization preserves bracket balance, whatever the pass budget: a
/// balanced program stays balanced, so it still admits a jump table.
pub proof fn lemma_optimize_preserves_balance(ir: Seq<BrainfuckInstruction>, passes: nat)
    requires
        balanced(ir),
    ensures
        balanced(optimize_spec(ir, passes)),
    decreases passes,
{
    if passes > 0 {
        lemma_round_balanced(ir);
        let next = optimization_round(ir);
        if next.len() != ir.len() {
            lemma_optimize_preserves_balance(next, (passes - 1) as nat);
        }
    }
}

/// From any position inside the leading loop where the nesting is still
/// open, the scan ends at the first later position whose depth returns to
/// zero, and the depth stays positive all the way there.
proof fn lemma_scan_finds_first_zero(ir: Seq<BrainfuckInstruction>, i: int)
    requires
        balanced(ir),
        1 <= i <= ir.len(),
        crate::ir::open_depth(ir, i) >= 1,
    ensures
        ({
            let end = leading_loop_end(ir, i, crate::ir::open_depth(ir, i));
            &&& i < end <= ir.len()
            &&& crate::ir::open_depth(ir, end) == 0
            &&& forall|j: int| i <= j < end ==> crate::ir::open_depth(ir, j) >= 1
        }),
    decreases ir.len() - i,
{
    crate::ir::lemma_balanced_total(ir);
    assert(i < ir.len());
    let level = crate::ir::open_depth(ir, i);
    let next = crate::ir::open_depth(ir, i + 1);
    assert(next == level + bracket_delta(ir[i]));
    if next == 0 {
        assert(leading_loop_end(ir, i + 1, next) == i + 1);
    } else {
        crate::ir::lemma_balanced_suffix(ir, i + 1);
        lemma_scan_finds_first_zero(ir, i + 1);
    }
}

/// In a balanced program that begins with a loop, the dead-code scan stops
/// exactly one past the `Close` that matches the leading `Open`: what the
/// pass deletes is precisely that loop.
pub proof fn lemma_leading_loop_matches(ir: Seq<BrainfuckInstruction>)
    requires
        balanced(ir),
        ir.len() > 0,
        ir[0] == BrainfuckInstruction::Open,
    ensures
        ({
            let end = leading_loop_end(ir, 1, 1);
            &&& 2 <= end <= ir.len()
            &&& crate::ir::brackets_match(ir, 0, end - 1)
            &&& dead_code_spec(ir) == ir.skip(end)
        }),
{
    assert(crate::ir::open_depth(ir, 0) == 0);
    assert(crate::ir::open_depth(ir, 1) == 1);
    lemma_scan_finds_first_zero(ir, 1);
    let end = leading_loop_end(ir, 1, 1);
    assert(crate::ir::open_depth(ir, end) == crate::ir::open_depth(ir, end - 1) + bracket_delta(
        ir[end - 1],
    ));
    assert(crate::ir::open_depth(ir, end - 1) >= 1);
    assert(bracket_delta(ir[end - 1]) <= -1);
    assert(ir[end - 1] == BrainfuckInstruction::Close);
    assert(crate::ir::open_depth(ir, end - 1) == 1);
    assert(crate::ir::brackets_match(ir, 0, end - 1));
}

} // verus!

