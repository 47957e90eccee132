//! Runs a program of the matching machine against an input line.
use vstd::prelude::*;

use super::Instruction;
use crate::helper::safe_add;

verus! {

/// Failures of an evaluation.
#[derive(Debug, Clone, Copy, PartialEq, Eq)]
pub enum EvalError {
    PCOverFlow,
    SPOverFlow,
    POSOverFlow,
    /// The program counter left the program.
    InvalidPC,
    /// A search path took more steps than the budget allows.
    StepLimit,
}

/// The pattern character that accepts any input character.
pub const WILDCARD: char = '.';

/// The position counter after consuming an input character with the pattern
/// character `c`: a newline in the pattern starts a new line.
pub open spec fn next_pos(c: char, pos: int) -> int {
    if c == '\n' {
        0
    } else {
        pos + 1
    }
}

/// Whether `MatchEnd` holds at scan offset `sp` with position counter `pos`.
pub open spec fn at_line_end(line: Seq<char>, sp: int, pos: int) -> bool {
    if 0 <= sp < line.len() {
        line[sp] == '\n'
    } else {
        sp == line.len() && pos == line.len()
    }
}

/// Depth-first run of `prog` on `line` from program counter `pc`, scan offset
/// `sp` and position counter `pos`, where each search path may execute at most
/// `fuel` instructions. The first branch of a `Split` is tried in full before
/// the second, and each branch starts from the state at the split.
pub open spec fn run(prog: Seq<Instruction>, line: Seq<char>, pc: int, sp: int, pos: int, fuel: nat)
    -> Result<bool, EvalError>
    decreases fuel,
{
    if fuel == 0 {
        Err(EvalError::StepLimit)
    } else if !(0 <= pc < prog.len()) {
        Err(EvalError::InvalidPC)
    } else {
        let f = (fuel - 1) as nat;
        match prog[pc] {
            Instruction::Char(c) => {
                if !(0 <= sp < line.len()) || (c != WILDCARD && c != line[sp]) {
                    Ok(false)
                } else if pc + 1 > usize::MAX {
                    Err(EvalError::PCOverFlow)
                } else if sp + 1 > usize::MAX {
                    Err(EvalError::SPOverFlow)
                } else if next_pos(c, pos) > usize::MAX {
                    Err(EvalError::POSOverFlow)
                } else {
                    run(prog, line, pc + 1, sp + 1, next_pos(c, pos), f)
                }
            },
            Instruction::Match => Ok(true),
            Instruction::Jump(a) => run(prog, line, a as int, sp, pos, f),
            Instruction::Split(a1, a2) => match run(prog, line, a1 as int, sp, pos, f) {
                Err(e) => Err(e),
                Ok(true) => Ok(true),
                Ok(false) => run(prog, line, a2 as int, sp, pos, f),
            },
            Instruction::MatchBegin => {
                if pos != 0 {
                    Ok(false)
                } else if pc + 1 > usize::MAX {
                    Err(EvalError::PCOverFlow)
                } else {
                    run(prog, line, pc + 1, sp, pos, f)
                }
            },
            Instruction::MatchEnd => {
                if !at_line_end(line, sp, pos) {
                    Ok(false)
                } else if pc + 1 > usize::MAX {
                    Err(EvalError::PCOverFlow)
                } else {
                    run(prog, line, pc + 1, sp, pos, f)
                }
            },
        }
    }
}

/// The step budget of a depth-first run: one more than the number of distinct
/// machine states `(pc, sp, pos)` with `pos <= sp <= line_len`, so that a path
/// exhausts it only by coming back to a state it has already been in, and
/// capped at `usize::MAX`.
pub open spec fn step_budget(prog_len: nat, line_len: nat) -> nat {
    let b = prog_len * (line_len + 1) * (line_len + 1) + 1;
    if b > usize::MAX {
        usize::MAX as nat
    } else {
        b
    }
}

/// Computes `step_budget` without overflow.
fn budget(prog_len: usize, line_len: usize) -> (r: usize)
    ensures
        r == step_budget(prog_len as nat, line_len as nat),
{
    if prog_len == 0 {
        return 1;
    }
    let w = match line_len.checked_add(1) {
        Some(w) => w,
        None => {
            proof {
                assert(prog_len * (line_len + 1) * (line_len + 1) >= line_len + 1) by (nonlinear_arith)
                    requires prog_len >= 1, line_len + 1 >= 1;
            }
            return usize::MAX;
        },
    };
    proof {
        assert(prog_len * w >= 0) by (nonlinear_arith);
        assert(prog_len * w * w >= 0) by (nonlinear_arith);
        assert(prog_len as nat * w as nat * w as nat == prog_len * w * w);
    }
    let a = match prog_len.checked_mul(w) {
        Some(a) => a,
        None => {
            proof {
                assert(prog_len * w * w >= prog_len * w) by (nonlinear_arith)
                    requires w >= 1, prog_len * w >= 0;
            }
            return usize::MAX;
        },
    };
    let b = match a.checked_mul(w) {
        Some(b) => b,
        None => return usize::MAX,
    };
    match b.checked_add(1) {
        Some(r) => r,
        None => usize::MAX,
    }
}

/// Depth-first matching by recursive backtracking.
fn eval_depth(inst: &[Instruction], line: &[char], pc: usize, sp: usize, pos: usize, fuel: usize)
    -> (r: Result<bool, EvalError>)
    ensures
        r == run(inst@, line@, pc as int, sp as int, pos as int, fuel as nat),
    decreases fuel,
{
    let mut cur_pc = pc;
    let mut cur_sp = sp;
    let mut cur_pos = pos;
    let mut left = fuel;
    loop
        invariant
            left <= fuel,
            run(inst@, line@, pc as int, sp as int, pos as int, fuel as nat) == run(
                inst@,
                line@,
                cur_pc as int,
                cur_sp as int,
                cur_pos as int,
                left as nat,
            ),
        decreases left,
    {
        if left == 0 {
            return Err(EvalError::StepLimit);
        }
        left = left - 1;
        if cur_pc >= inst.len() {
            return Err(EvalError::InvalidPC);
        }
        match inst[cur_pc] {
            Instruction::Char(c) => {
                if cur_sp >= line.len() {
                    return Ok(false);
                }
                if c != WILDCARD && c != line[cur_sp] {
                    return Ok(false);
                }
                safe_add(&mut cur_pc, &1, || -> (e: EvalError) ensures e == EvalError::PCOverFlow { EvalError::PCOverFlow })?;
                safe_add(&mut cur_sp, &1, || -> (e: EvalError) ensures e == EvalError::SPOverFlow { EvalError::SPOverFlow })?;
                if c == '\n' {
                    cur_pos = 0;
                } else {
                    safe_add(&mut cur_pos, &1, || -> (e: EvalError) ensures e == EvalError::POSOverFlow { EvalError::POSOverFlow })?;
                }
            },
            Instruction::Match => {
                return Ok(true);
            },
            Instruction::Jump(addr) => {
                cur_pc = addr;
            },
            Instruction::Split(addr1, addr2) => {
                if eval_depth(inst, line, addr1, cur_sp, cur_pos, left)? {
                    return Ok(true);
                }
                return eval_depth(inst, line, addr2, cur_sp, cur_pos, left);
            },
            Instruction::MatchBegin => {
                if cur_pos != 0 {
                    return Ok(false);
                }
                safe_add(&mut cur_pc, &1, || -> (e: EvalError) ensures e == EvalError::PCOverFlow { EvalError::PCOverFlow })?;
            },
            Instruction::MatchEnd => {
                let at_end = if cur_sp < line.len() {
                    line[cur_sp] == '\n'
                } else {
                    cur_sp == line.len() && cur_pos == line.len()
                };
                if !at_end {
                    return Ok(false);
                }
                safe_add(&mut cur_pc, &1, || -> (e: EvalError) ensures e == EvalError::PCOverFlow { EvalError::PCOverFlow })?;
            },
        }
    }
}

/// Breadth-first matching: not provided by this engine, it reports no match.
fn eval_width(_inst: &[Instruction], _line: &[char], _pc: usize, _sp: usize) -> (r: Result<bool, EvalError>)
    ensures
        r == Ok::<bool, EvalError>(false),
{
    Ok(false)
}

/// The result of evaluating `inst` on `line` with the given strategy.
pub open spec fn eval_spec(inst: Seq<Instruction>, line: Seq<char>, is_depth: bool) -> Result<bool, EvalError> {
    if is_depth {
        run(inst, line, 0, 0, 0, step_budget(inst.len(), line.len()))
    } else {
        Ok(false)
    }
}

/// Evaluates the program `inst` on `line`: depth first where `is_depth`
/// holds, else breadth first.
pub fn eval(inst: &[Instruction], line: &[char], is_depth: bool) -> (r: Result<bool, EvalError>)
    ensures
        r == eval_spec(inst@, line@, is_depth),
{
    if is_depth {
        let fuel = budget(inst.len(), line.len());
        eval_depth(inst, line, 0, 0, 0, fuel)
    } else {
        eval_width(inst, line, 0, 0)
    }
}

} // verus!
