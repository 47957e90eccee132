//! Compiles a syntax tree into a program of the matching machine.
use vstd::prelude::*;

use super::parser::{lemma_views, Ast, Re};
use super::Instruction;
use crate::helper::safe_add;

verus! {

broadcast use vstd::std_specs::vec::group_vec_axioms;

/// Failures of code generation. Only `PCOverFlow` can come from a caller's
/// input; the others would mean that a slot to be patched did not hold the
/// placeholder written for it.
#[derive(Debug, Clone, Copy, PartialEq, Eq)]
pub enum CodeGenError {
    PCOverFlow,
    FailStar,
    FailOr,
    FailQuestion,
}

/// The number of instructions generated for `e`.
pub open spec fn size(e: Re) -> nat
    decreases e, 0int,
{
    match e {
        Re::Lit(_) => 1,
        Re::Begin => 1,
        Re::End => 1,
        Re::OneOrMore(a) => size(*a) + 1,
        Re::ZeroOrMore(a) => size(*a) + 2,
        Re::ZeroOrOne(a) => size(*a) + 1,
        Re::Alt(a, b) => size(*a) + size(*b) + 2,
        Re::Cat(v) => sizes(v, v.len() as int),
    }
}

/// The number of instructions generated for the first `n` trees of `v`.
pub open spec fn sizes(v: Seq<Re>, n: int) -> nat
    decreases v, n,
{
    if n <= 0 || n > v.len() {
        0
    } else {
        sizes(v, n - 1) + size(v[n - 1])
    }
}

/// The instructions generated for `e` when its code starts at address `pc`:
///
/// ```text
/// a+      L1: code(a); split L1, L2; L2:
/// a*      L1: split L2, L3; L2: code(a); jump L1; L3:
/// a?      split L1, L2; L1: code(a); L2:
/// a|b     split L1, L2; L1: code(a); jump L3; L2: code(b); L3:
/// ```
pub open spec fn code_of(e: Re, pc: nat) -> Seq<Instruction>
    decreases e, 0int,
{
    match e {
        Re::Lit(c) => seq![Instruction::Char(c)],
        Re::Begin => seq![Instruction::MatchBegin],
        Re::End => seq![Instruction::MatchEnd],
        Re::OneOrMore(a) => code_of(*a, pc) + seq![
            Instruction::Split(pc as usize, (pc + size(*a) + 1) as usize),
        ],
        Re::ZeroOrMore(a) => seq![
            Instruction::Split((pc + 1) as usize, (pc + size(*a) + 2) as usize),
        ] + code_of(*a, pc + 1) + seq![Instruction::Jump(pc as usize)],
        Re::ZeroOrOne(a) => seq![
            Instruction::Split((pc + 1) as usize, (pc + size(*a) + 1) as usize),
        ] + code_of(*a, pc + 1),
        Re::Alt(a, b) => seq![
            Instruction::Split((pc + 1) as usize, (pc + size(*a) + 2) as usize),
        ] + code_of(*a, pc + 1) + seq![
            Instruction::Jump((pc + size(*a) + size(*b) + 2) as usize),
        ] + code_of(*b, pc + size(*a) + 2),
        Re::Cat(v) => codes(v, v.len() as int, pc),
    }
}

/// The instructions generated for the first `n` trees of `v`, one after the
/// other, from address `pc`.
pub open spec fn codes(v: Seq<Re>, n: int, pc: nat) -> Seq<Instruction>
    decreases v, n,
{
    if n <= 0 || n > v.len() {
        Seq::empty()
    } else {
        codes(v, n - 1, pc) + code_of(v[n - 1], pc + sizes(v, n - 1))
    }
}

/// The whole program for `e`: its code followed by `Match`.
pub open spec fn program(e: Re) -> Seq<Instruction> {
    code_of(e, 0) + seq![Instruction::Match]
}

/// The code of `e` has `size(e)` instructions, wherever it starts.
pub proof fn lemma_code_len(e: Re, pc: nat)
    ensures
        code_of(e, pc).len() == size(e),
    decreases e, 0int,
{
    match e {
        Re::OneOrMore(a) => lemma_code_len(*a, pc),
        Re::ZeroOrMore(a) => lemma_code_len(*a, pc + 1),
        Re::ZeroOrOne(a) => lemma_code_len(*a, pc + 1),
        Re::Alt(a, b) => {
            lemma_code_len(*a, pc + 1);
            lemma_code_len(*b, pc + size(*a) + 2);
        },
        Re::Cat(v) => lemma_codes_len(v, v.len() as int, pc),
        _ => {},
    }
}

/// The code of a sequence prefix has as many instructions as `sizes` says.
pub proof fn lemma_codes_len(v: Seq<Re>, n: int, pc: nat)
    ensures
        codes(v, n, pc).len() == sizes(v, n),
    decreases v, n,
{
    if 0 < n <= v.len() {
        lemma_codes_len(v, n - 1, pc);
        lemma_code_len(v[n - 1], pc + sizes(v, n - 1));
    }
}

/// The number of nodes of `e`, which bounds the depth of recursion over it.
pub open spec fn weight(e: Re) -> nat
    decreases e, 0int,
{
    match e {
        Re::OneOrMore(a) => weight(*a) + 1,
        Re::ZeroOrMore(a) => weight(*a) + 1,
        Re::ZeroOrOne(a) => weight(*a) + 1,
        Re::Alt(a, b) => weight(*a) + weight(*b) + 1,
        Re::Cat(v) => weights(v, v.len() as int) + 1,
        _ => 1,
    }
}

/// The number of nodes of the first `n` trees of `v`.
pub open spec fn weights(v: Seq<Re>, n: int) -> nat
    decreases v, n,
{
    if n <= 0 || n > v.len() {
        0
    } else {
        weights(v, n - 1) + weight(v[n - 1])
    }
}

proof fn lemma_weights_bound(v: Seq<Re>, n: int, i: int)
    requires
        0 <= i < n <= v.len(),
    ensures
        weight(v[i]) <= weights(v, n),
    decreases n,
{
    if i < n - 1 {
        lemma_weights_bound(v, n - 1, i);
    }
}

proof fn lemma_sizes_mono(v: Seq<Re>, m: int, n: int)
    requires
        0 <= m <= n <= v.len(),
    ensures
        sizes(v, m) <= sizes(v, n),
    decreases n,
{
    if m < n {
        lemma_sizes_mono(v, m, n - 1);
    }
}

/// The state of one code generation: the next address and the instructions
/// so far.
#[derive(Debug, Default)]
struct Generator {
    pc: usize,
    insts: Vec<Instruction>,
}

impl Generator {
    spec fn wf(&self) -> bool {
        self.pc == self.insts@.len()
    }

    /// Advances the program counter.
    fn inc_pc(&mut self) -> (r: Result<(), CodeGenError>)
        ensures
            final(self).insts == old(self).insts,
            match r {
                Ok(()) => old(self).pc + 1 <= usize::MAX && final(self).pc == old(self).pc + 1,
                Err(e) => old(self).pc + 1 > usize::MAX && e == CodeGenError::PCOverFlow,
            },
    {
        safe_add(
            &mut self.pc,
            &1,
            || -> (e: CodeGenError) ensures e == CodeGenError::PCOverFlow { CodeGenError::PCOverFlow },
        )
    }

    /// Appends the code of `ast`.
    fn gen_expr(&mut self, ast: &Ast) -> (r: Result<(), CodeGenError>)
        requires
            old(self).wf(),
        ensures
            r is Ok <==> old(self).pc + size(ast@) <= usize::MAX,
            r is Ok ==> final(self).wf() && final(self).insts@ == old(self).insts@ + code_of(
                ast@,
                old(self).pc as nat,
            ),
            r matches Err(e) ==> e == CodeGenError::PCOverFlow,
        decreases weight(ast@), 1int,
    {
        match ast {
            Ast::Char(c) => self.gen_char(*c),
            Ast::Or(e1, e2) => self.gen_or(e1, e2),
            Ast::Plus(e) => self.gen_plus(e),
            Ast::Star(e) => self.gen_star(e),
            Ast::Question(e) => self.gen_question(e),
            Ast::Concat(v) => {
                proof {
                    lemma_views(v@, v@.len() as int);
                }
                self.gen_seq(v)
            },
            Ast::Dollar => self.gen_dollar(),
            Ast::Hat => self.gen_hat(),
        }
    }

    /// Appends one instruction.
    fn emit(&mut self, inst: Instruction) -> (r: Result<(), CodeGenError>)
        requires
            old(self).wf(),
        ensures
            r is Ok <==> old(self).pc + 1 <= usize::MAX,
            r is Ok ==> final(self).wf() && final(self).insts@ == old(self).insts@.push(inst),
            r matches Err(e) ==> e == CodeGenError::PCOverFlow,
    {
        self.inc_pc()?;
        self.insts.push(inst);
        Ok(())
    }

    fn gen_char(&mut self, c: char) -> (r: Result<(), CodeGenError>)
        requires
            old(self).wf(),
        ensures
            r is Ok <==> old(self).pc + 1 <= usize::MAX,
            r is Ok ==> final(self).wf() && final(self).insts@ == old(self).insts@ + seq![Instruction::Char(c)],
            r matches Err(e) ==> e == CodeGenError::PCOverFlow,
    {
        let r = self.emit(Instruction::Char(c));
        proof {
            if r is Ok {
                assert(final(self).insts@ =~= old(self).insts@ + seq![Instruction::Char(c)]);
            }
        }
        r
    }

    fn gen_dollar(&mut self) -> (r: Result<(), CodeGenError>)
        requires
            old(self).wf(),
        ensures
            r is Ok <==> old(self).pc + 1 <= usize::MAX,
            r is Ok ==> final(self).wf() && final(self).insts@ == old(self).insts@ + seq![Instruction::MatchEnd],
            r matches Err(e) ==> e == CodeGenError::PCOverFlow,
    {
        let r = self.emit(Instruction::MatchEnd);
        proof {
            if r is Ok {
                assert(final(self).insts@ =~= old(self).insts@ + seq![Instruction::MatchEnd]);
            }
        }
        r
    }

    fn gen_hat(&mut self) -> (r: Result<(), CodeGenError>)
        requires
            old(self).wf(),
        ensures
            r is Ok <==> old(self).pc + 1 <= usize::MAX,
            r is Ok ==> final(self).wf() && final(self).insts@ == old(self).insts@ + seq![Instruction::MatchBegin],
            r matches Err(e) ==> e == CodeGenError::PCOverFlow,
    {
        let r = self.emit(Instruction::MatchBegin);
        proof {
            if r is Ok {
                assert(final(self).insts@ =~= old(self).insts@ + seq![Instruction::MatchBegin]);
            }
        }
        r
    }

    /// Code of `e1|e2`.
    fn gen_or(&mut self, e1: &Ast, e2: &Ast) -> (r: Result<(), CodeGenError>)
        requires
            old(self).wf(),
        ensures
            r is Ok <==> old(self).pc + size(e1@) + size(e2@) + 2 <= usize::MAX,
            r is Ok ==> final(self).wf() && final(self).insts@ == old(self).insts@ + code_of(
                Re::Alt(Box::new(e1@), Box::new(e2@)),
                old(self).pc as nat,
            ),
            r matches Err(e) ==> e == CodeGenError::PCOverFlow,
        decreases weight(e1@) + weight(e2@) + 1, 0int,
    {
        let ghost s = old(self).pc as nat;
        let ghost i0 = old(self).insts@;
        proof {
            lemma_code_len(e1@, s + 1);
            lemma_code_len(e2@, s + size(e1@) + 2);
        }
        // split L1, L2
        let split_addr = self.pc;
        self.inc_pc()?;
        self.insts.push(Instruction::Split(self.pc, 0));
        // L1: code of e1
        self.gen_expr(e1)?;
        // jump L3
        let jmp_addr = self.pc;
        self.inc_pc()?;
        self.insts.push(Instruction::Jump(0));
        // L2: code of e2
        assert(self.insts@[split_addr as int] == Instruction::Split((s + 1) as usize, 0));
        match self.insts[split_addr] {
            Instruction::Split(l1, _) => {
                self.insts.set(split_addr, Instruction::Split(l1, self.pc));
            },
            _ => {
                return Err(CodeGenError::FailOr);
            },
        }
        self.gen_expr(e2)?;
        // L3
        assert(self.insts@[jmp_addr as int] == Instruction::Jump(0));
        match self.insts[jmp_addr] {
            Instruction::Jump(_) => {
                self.insts.set(jmp_addr, Instruction::Jump(self.pc));
            },
            _ => {
                return Err(CodeGenError::FailOr);
            },
        }
        assert(self.insts@ =~= i0 + code_of(Re::Alt(Box::new(e1@), Box::new(e2@)), s));
        Ok(())
    }

    /// Code of `e+`.
    fn gen_plus(&mut self, e: &Ast) -> (r: Result<(), CodeGenError>)
        requires
            old(self).wf(),
        ensures
            r is Ok <==> old(self).pc + size(e@) + 1 <= usize::MAX,
            r is Ok ==> final(self).wf() && final(self).insts@ == old(self).insts@ + code_of(
                Re::OneOrMore(Box::new(e@)),
                old(self).pc as nat,
            ),
            r matches Err(e) ==> e == CodeGenError::PCOverFlow,
        decreases weight(e@) + 1, 0int,
    {
        let ghost s = old(self).pc as nat;
        let ghost i0 = old(self).insts@;
        proof {
            lemma_code_len(e@, s);
        }
        // L1: code of e
        let addr = self.pc;
        self.gen_expr(e)?;
        // split L1, L2
        self.inc_pc()?;
        self.insts.push(Instruction::Split(addr, self.pc));
        // L2:
        assert(self.insts@ =~= i0 + code_of(Re::OneOrMore(Box::new(e@)), s));
        Ok(())
    }

    /// Code of `e*`.
    fn gen_star(&mut self, e: &Ast) -> (r: Result<(), CodeGenError>)
        requires
            old(self).wf(),
        ensures
            r is Ok <==> old(self).pc + size(e@) + 2 <= usize::MAX,
            r is Ok ==> final(self).wf() && final(self).insts@ == old(self).insts@ + code_of(
                Re::ZeroOrMore(Box::new(e@)),
                old(self).pc as nat,
            ),
            r matches Err(e) ==> e == CodeGenError::PCOverFlow,
        decreases weight(e@) + 1, 0int,
    {
        let ghost s = old(self).pc as nat;
        let ghost i0 = old(self).insts@;
        proof {
            lemma_code_len(e@, s + 1);
        }
        // L1: split L2, L3
        let addr = self.pc;
        self.inc_pc()?;
        self.insts.push(Instruction::Split(self.pc, 0));
        // L2: code of e
        self.gen_expr(e)?;
        // jump L1
        self.inc_pc()?;
        self.insts.push(Instruction::Jump(addr));
        // L3:
        assert(self.insts@[addr as int] == Instruction::Split((s + 1) as usize, 0));
        match self.insts[addr] {
            Instruction::Split(l2, _) => {
                self.insts.set(addr, Instruction::Split(l2, self.pc));
            },
            _ => {
                return Err(CodeGenError::FailStar);
            },
        }
        assert(self.insts@ =~= i0 + code_of(Re::ZeroOrMore(Box::new(e@)), s));
        Ok(())
    }

    /// Code of `e?`.
    fn gen_question(&mut self, e: &Ast) -> (r: Result<(), CodeGenError>)
        requires
            old(self).wf(),
        ensures
            r is Ok <==> old(self).pc + size(e@) + 1 <= usize::MAX,
            r is Ok ==> final(self).wf() && final(self).insts@ == old(self).insts@ + code_of(
                Re::ZeroOrOne(Box::new(e@)),
                old(self).pc as nat,
            ),
            r matches Err(e) ==> e == CodeGenError::PCOverFlow,
        decreases weight(e@) + 1, 0int,
    {
        let ghost s = old(self).pc as nat;
        let ghost i0 = old(self).insts@;
        proof {
            lemma_code_len(e@, s + 1);
        }
        // split L1, L2
        let split_addr = self.pc;
        self.inc_pc()?;
        self.insts.push(Instruction::Split(self.pc, 0));
        // L1: code of e
        self.gen_expr(e)?;
        // L2:
        assert(self.insts@[split_addr as int] == Instruction::Split((s + 1) as usize, 0));
        match self.insts[split_addr] {
            Instruction::Split(l1, _) => {
                self.insts.set(split_addr, Instruction::Split(l1, self.pc));
            },
            _ => {
                return Err(CodeGenError::FailQuestion);
            },
        }
        assert(self.insts@ =~= i0 + code_of(Re::ZeroOrOne(Box::new(e@)), s));
        Ok(())
    }

    /// Code of a sequence: the code of each tree in turn.
    fn gen_seq(&mut self, exprs: &Vec<Ast>) -> (r: Result<(), CodeGenError>)
        requires
            old(self).wf(),
        ensures
            r is Ok <==> old(self).pc + size(Re::Cat(Ast::views(exprs@, exprs@.len() as int)))
                <= usize::MAX,
            r is Ok ==> final(self).wf() && final(self).insts@ == old(self).insts@ + code_of(
                Re::Cat(Ast::views(exprs@, exprs@.len() as int)),
                old(self).pc as nat,
            ),
            r matches Err(e) ==> e == CodeGenError::PCOverFlow,
        decreases weights(Ast::views(exprs@, exprs@.len() as int), exprs@.len() as int) + 1, 0int,
    {
        let ghost s = old(self).pc as nat;
        let ghost i0 = old(self).insts@;
        let ghost n = exprs@.len() as int;
        let ghost vs = Ast::views(exprs@, n);
        proof {
            lemma_views(exprs@, n);
        }
        let mut i: usize = 0;
        while i < exprs.len()
            invariant
                s == old(self).pc,
                i0 == old(self).insts@,
                0 <= i <= n,
                n == exprs@.len(),
                vs == Ast::views(exprs@, n),
                vs.len() == n,
                forall|k: int| 0 <= k < n ==> #[trigger] vs[k] == exprs@[k]@,
                self.wf(),
                self.pc == s + sizes(vs, i as int),
                self.insts@ == i0 + codes(vs, i as int, s),
            decreases n - i,
        {
            proof {
                lemma_weights_bound(vs, n, i as int);
                lemma_sizes_mono(vs, i as int + 1, n);
                assert(vs[i as int] == exprs@[i as int]@);
                lemma_code_len(vs[i as int], s + sizes(vs, i as int));
            }
            let r = self.gen_expr(&exprs[i]);
            if r.is_err() {
                assert(sizes(vs, i as int + 1) == sizes(vs, i as int) + size(vs[i as int]));
                assert(size(Re::Cat(vs)) == sizes(vs, n));
                return r;
            }
            i = i + 1;
            assert(self.insts@ =~= i0 + codes(vs, i as int, s));
        }
        Ok(())
    }

    /// Code of the whole tree, ended by `Match`.
    fn gen_code(&mut self, ast: &Ast) -> (r: Result<(), CodeGenError>)
        requires
            old(self).wf(),
            old(self).pc == 0,
        ensures
            r is Ok <==> size(ast@) + 1 <= usize::MAX,
            r is Ok ==> final(self).insts@ == old(self).insts@ + program(ast@),
            r matches Err(e) ==> e == CodeGenError::PCOverFlow,
    {
        proof {
            lemma_code_len(ast@, 0);
        }
        self.gen_expr(ast)?;
        self.inc_pc()?;
        self.insts.push(Instruction::Match);
        assert(self.insts@ =~= old(self).insts@ + program(ast@));
        Ok(())
    }
}

/// Compiles `ast` into a program. It fails only where the program would not
/// fit in the address space.
pub fn gen_code(ast: &Ast) -> (r: Result<Vec<Instruction>, CodeGenError>)
    ensures
        match r {
            Ok(v) => size(ast@) + 1 <= usize::MAX && v@ == program(ast@),
            Err(e) => size(ast@) + 1 > usize::MAX && e == CodeGenError::PCOverFlow,
        },
{
    let mut generator = Generator { pc: 0, insts: Vec::new() };
    generator.gen_code(ast)?;
    assert(generator.insts@ =~= program(ast@));
    Ok(generator.insts)
}

} // verus!
