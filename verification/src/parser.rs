//! A parser from Brainfuck source text to instruction sequences.

use vstd::prelude::*;
use vstd::std_specs::iter::IteratorSpec;

use crate::ir::BrainfuckInstruction;

verus! {

broadcast use vstd::string::group_string_axioms;

/// Whether `c` is one of the eight Brainfuck instruction characters.
pub open spec fn is_bf_char(c: char) -> bool {
    c == '+' || c == '-' || c == '>' || c == '<' || c == ',' || c == '.' || c == '[' || c == ']'
}

/// The instruction for one Brainfuck character; counted variants always
/// carry count 1.
pub open spec fn char_insn(c: char) -> BrainfuckInstruction
    recommends
        is_bf_char(c),
{
    if c == '+' {
        BrainfuckInstruction::Add(1)
    } else if c == '-' {
        BrainfuckInstruction::Sub(1)
    } else if c == '>' {
        BrainfuckInstruction::Right(1)
    } else if c == '<' {
        BrainfuckInstruction::Left(1)
    } else if c == ',' {
        BrainfuckInstruction::Read
    } else if c == '.' {
        BrainfuckInstruction::Write
    } else if c == '[' {
        BrainfuckInstruction::Open
    } else {
        BrainfuckInstruction::Close
    }
}

/// What one character contributes to the parse: one instruction for a
/// Brainfuck character, nothing for anything else.
pub open spec fn char_contrib(c: char) -> Seq<BrainfuckInstruction> {
    if is_bf_char(c) {
        seq![char_insn(c)]
    } else {
        Seq::empty()
    }
}

/// The parse of a character sequence: the instructions of its Brainfuck
/// characters, in input order; every other character is a comment.
pub open spec fn parse_spec(s: Seq<char>) -> Seq<BrainfuckInstruction>
    decreases s.len(),
{
    if s.len() == 0 {
        Seq::empty()
    } else {
        parse_spec(s.drop_last()) + char_contrib(s.last())
    }
}

/// Whether `insn` is one the parser itself can emit: one of the eight
/// standard instructions, counted variants with count 1. `Store`, `ScanLeft`
/// and `ScanRight` are synthesized only by the optimizer.
pub open spec fn is_parser_insn(insn: BrainfuckInstruction) -> bool {
    match insn {
        BrainfuckInstruction::Add(n) => n == 1,
        BrainfuckInstruction::Sub(n) => n == 1,
        BrainfuckInstruction::Right(k) => k == 1,
        BrainfuckInstruction::Left(k) => k == 1,
        BrainfuckInstruction::Read => true,
        BrainfuckInstruction::Write => true,
        BrainfuckInstruction::Open => true,
        BrainfuckInstruction::Close => true,
        BrainfuckInstruction::Store(_) => false,
        BrainfuckInstruction::ScanLeft => false,
        BrainfuckInstruction::ScanRight => false,
    }
}

/// A source string made entirely of Brainfuck characters parses to one
/// instruction per character, in input order.
pub proof fn lemma_parse_bf_chars(s: Seq<char>)
    requires
        forall|i: int| 0 <= i < s.len() ==> is_bf_char(s[i]),
    ensures
        parse_spec(s).len() == s.len(),
        forall|i: int| 0 <= i < s.len() ==> parse_spec(s)[i] == char_insn(s[i]),
    decreases s.len(),
{
    if s.len() > 0 {
        lemma_parse_bf_chars(s.drop_last());
    }
}

/// Whatever the source, the parse holds only the eight standard
/// instructions, every counted one with count 1: the parser never
/// synthesizes an optimizer variant.
pub proof fn lemma_parse_primitive(s: Seq<char>)
    ensures
        parse_spec(s).len() <= s.len(),
        forall|i: int|
            0 <= i < parse_spec(s).len() ==> is_parser_insn(#[trigger] parse_spec(s)[i]),
    decreases s.len(),
{
    if s.len() > 0 {
        lemma_parse_primitive(s.drop_last());
    }
}

/// Comment characters do not affect the parse: a string parses exactly as
/// the subsequence of its Brainfuck characters alone does. In particular,
/// inserting non-Brainfuck characters anywhere leaves the parse unchanged.
pub proof fn lemma_parse_ignores_comments(s: Seq<char>)
    ensures
        parse_spec(s) == parse_spec(s.filter(|c: char| is_bf_char(c))),
    decreases s.len(),
{
    reveal(Seq::filter);
    let pred = |c: char| is_bf_char(c);
    if s.len() == 0 {
        assert(s.filter(pred) =~= s);
    } else {
        lemma_parse_ignores_comments(s.drop_last());
        let f = s.filter(pred);
        if is_bf_char(s.last()) {
            assert(f == s.drop_last().filter(pred).push(s.last()));
            assert(f.drop_last() =~= s.drop_last().filter(pred));
            assert(f.last() == s.last());
            assert(f.len() > 0);
            assert(parse_spec(f) == parse_spec(f.drop_last()) + char_contrib(f.last()));
        } else {
            assert(f == s.drop_last().filter(pred));
            assert(parse_spec(s) =~= parse_spec(s.drop_last()));
        }
    }
}

/// Parses a sequence of BrainfuckInstructions from a slice of characters.
/// Ignores all non-Brainfuck characters.
pub fn parse(code: &[char]) -> (r: Vec<BrainfuckInstruction>)
    ensures
        r@ == parse_spec(code@),
{
    let mut result: Vec<BrainfuckInstruction> = Vec::new();

    let mut index: usize = 0;
    while index < code.len()
        invariant
            index <= code@.len(),
            result@ == parse_spec(code@.take(index as int)),
        decreases code@.len() - index,
    {
        let c = code[index];
        index += 1;
        match c {
            '+' => result.push(BrainfuckInstruction::Add(1)),
            '-' => result.push(BrainfuckInstruction::Sub(1)),
            '>' => result.push(BrainfuckInstruction::Right(1)),
            '<' => result.push(BrainfuckInstruction::Left(1)),
            ',' => result.push(BrainfuckInstruction::Read),
            '.' => result.push(BrainfuckInstruction::Write),
            '[' => result.push(BrainfuckInstruction::Open),
            ']' => result.push(BrainfuckInstruction::Close),
            _ => {},
        }
        proof {
            let pre = code@.take(index - 1);
            let cur = code@.take(index as int);
            assert(cur.drop_last() =~= pre);
            assert(cur.last() == c);
            assert(result@ =~= parse_spec(pre) + char_contrib(c));
        }
    }
    proof {
        assert(code@.take(code@.len() as int) =~= code@);
    }
    result
}

/// Parses a sequence of BrainfuckInstructions from a string.
/// Ignores all non-Brainfuck characters.
pub fn parse_str(code: String) -> (r: Vec<BrainfuckInstruction>)
    ensures
        r@ == parse_spec(code@),
{
    let mut chars: Vec<char> = Vec::new();
    let mut iter = code.as_str().chars();
    loop
        invariant
            iter.obeys_prophetic_iter_laws(),
            chars@ + iter.remaining() == code@,
        ensures
            chars@ == code@,
        decreases code@.len() - chars@.len(),
    {
        let ghost before = iter.remaining();
        match iter.next() {
            Some(c) => {
                chars.push(c);
                proof {
                    assert(chars@ + iter.remaining() =~= code@);
                }
            },
            None => {
                proof {
                    assert(before.len() == 0);
                    assert(chars@ =~= code@);
                }
                break ;
            },
        }
    }
    parse(chars.as_slice())
}

} // verus!
