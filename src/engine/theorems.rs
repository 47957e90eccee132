//! Properties of the whole pipeline, proved over the contracts of its stages.
use vstd::prelude::*;

use super::codegen::{code_of, codes, lemma_code_len, program, size, sizes};
use super::evaluator::{eval_spec, next_pos, run, step_budget};
use super::parser::{atom, is_meta, postfix, step, close, fold_alts, fold_or_spec, lemma_failed_stays, parse_spec, scan, Re, Scan, ParseError};
use super::{matching, EngineError, Instruction};

verus! {

/// Breadth-first matching never reports a match, whatever the pattern and
/// the input.
pub proof fn breadth_first_never_matches(expr: Seq<char>, line: Seq<char>)
    ensures
        matching(expr, line, false) != Ok::<bool, EngineError>(true),
{
}

/// Matching depends on the pattern, the input and the strategy alone: two
/// runs on the same arguments give the same outcome.
pub proof fn matching_is_deterministic(
    expr: Seq<char>,
    line: Seq<char>,
    is_depth: bool,
    r1: Result<bool, EngineError>,
    r2: Result<bool, EngineError>,
)
    requires
        r1 == matching(expr, line, is_depth),
        r2 == matching(expr, line, is_depth),
    ensures
        r1 == r2,
{
}

/// A pattern that begins with `+`, `*`, `?` or `|` is refused by the parser,
/// at position zero, before anything is evaluated.
pub proof fn leading_operator_is_refused(expr: Seq<char>, line: Seq<char>, is_depth: bool)
    requires
        expr.len() > 0,
        expr[0] == '+' || expr[0] == '*' || expr[0] == '?' || expr[0] == '|',
    ensures
        parse_spec(expr) == Err::<Re, ParseError>(ParseError::NoPrev(0)),
        matching(expr, line, is_depth) == Err::<bool, EngineError>(
            EngineError::Parse(ParseError::NoPrev(0)),
        ),
{
    let st0 = scan(expr, 0);
    assert(st0 == Scan::Going {
        seq: Seq::empty(),
        alts: Seq::empty(),
        stack: Seq::empty(),
        escaped: false,
    });
    assert(scan(expr, 1) == step(st0, expr[0], 0));
    assert(scan(expr, 1) == Scan::Failed(ParseError::NoPrev(0)));
    lemma_failed_stays(expr, 1, expr.len() as int);
}

/// A character with no meaning to the parser.
pub open spec fn is_plain(c: char) -> bool {
    c != '\\' && c != '(' && c != ')' && c != '|' && c != '+' && c != '*' && c != '?' && c != '^'
        && c != '$'
}

/// The character at index `i` of `s`, as a value of type `char`.
proof fn elem(s: Seq<char>, i: int) -> (c: char)
    requires
        0 <= i < s.len(),
    ensures
        c == s[i],
{
    s[i]
}

/// One literal tree per character of `s`.
pub open spec fn lits(s: Seq<char>) -> Seq<Re>
    decreases s.len(),
{
    if s.len() == 0 {
        Seq::empty()
    } else {
        lits(s.drop_last()).push(Re::Lit(s.last()))
    }
}

/// One `Char` instruction per character of `s`.
pub open spec fn char_insts(s: Seq<char>) -> Seq<Instruction>
    decreases s.len(),
{
    if s.len() == 0 {
        Seq::empty()
    } else {
        char_insts(s.drop_last()).push(Instruction::Char(s.last()))
    }
}

proof fn lemma_lits(s: Seq<char>)
    ensures
        lits(s).len() == s.len(),
        char_insts(s).len() == s.len(),
        forall|i: int| 0 <= i < s.len() ==> #[trigger] lits(s)[i] == Re::Lit(s[i]),
        forall|i: int| 0 <= i < s.len() ==> #[trigger] char_insts(s)[i] == Instruction::Char(s[i]),
    decreases s.len(),
{
    if s.len() > 0 {
        lemma_lits(s.drop_last());
        let c = elem(s, s.len() - 1);
        assert(lits(s) == lits(s.drop_last()).push(Re::Lit(c)));
        assert(char_insts(s) == char_insts(s.drop_last()).push(Instruction::Char(c)));
    }
}

proof fn lemma_scan_plain(p: Seq<char>, n: int)
    requires
        0 <= n <= p.len(),
        forall|i: int| 0 <= i < p.len() ==> is_plain(#[trigger] p[i]),
    ensures
        scan(p, n) == (Scan::Going {
            seq: lits(p.take(n)),
            alts: Seq::empty(),
            stack: Seq::empty(),
            escaped: false,
        }),
    decreases n,
{
    if n == 0 {
        assert(p.take(0) =~= Seq::<char>::empty());
    } else {
        lemma_scan_plain(p, n - 1);
        let c = elem(p, n - 1);
        assert(is_plain(p[n - 1]));
        assert(atom(p[n - 1]) == Re::Lit(p[n - 1]));
        assert(p.take(n).drop_last() =~= p.take(n - 1));
    }
}

proof fn lemma_code_lits(v: Seq<Re>, p: Seq<char>, n: int)
    requires
        0 <= n <= p.len(),
        v == lits(p),
    ensures
        sizes(v, n) == n,
        codes(v, n, 0) == char_insts(p.take(n)),
    decreases n,
{
    lemma_lits(p);
    if n == 0 {
        assert(p.take(0) =~= Seq::<char>::empty());
    } else {
        lemma_code_lits(v, p, n - 1);
        let c = elem(p, n - 1);
        assert(v[n - 1] == Re::Lit(c));
        assert(size(Re::Lit(c)) == 1);
        assert(p.take(n).drop_last() =~= p.take(n - 1));
        assert(code_of(v[n - 1], (n - 1) as nat) =~= seq![Instruction::Char(p[n - 1])]);
    }
}

proof fn lemma_run_literal(prog: Seq<Instruction>, p: Seq<char>, k: int, pos: int, fuel: nat)
    requires
        prog == char_insts(p) + seq![Instruction::Match],
        p.len() + 1 <= usize::MAX,
        0 <= pos <= k <= p.len(),
        fuel >= p.len() - k + 1,
    ensures
        run(prog, p, k, k, pos, fuel) == Ok::<bool, super::evaluator::EvalError>(true),
    decreases p.len() - k,
{
    lemma_lits(p);
    if k < p.len() {
        let c = elem(p, k);
        assert(prog[k] == Instruction::Char(c));
        lemma_run_literal(prog, p, k + 1, next_pos(p[k], pos), (fuel - 1) as nat);
    } else {
        assert(prog[k] == Instruction::Match);
    }
}

/// A pattern made of plain characters only matches its own text.
pub proof fn literal_pattern_matches_itself(p: Seq<char>)
    requires
        p.len() > 0,
        p.len() + 2 <= usize::MAX,
        forall|i: int| 0 <= i < p.len() ==> is_plain(#[trigger] p[i]),
    ensures
        matching(p, p, true) == Ok::<bool, EngineError>(true),
{
    let n = p.len() as int;
    lemma_scan_plain(p, n);
    assert(p.take(n) =~= p);
    lemma_lits(p);
    let t = Re::Cat(lits(p));
    assert(close(lits(p), Seq::empty()) =~= seq![t]);
    assert(fold_alts(seq![t]) == t);
    assert(parse_spec(p) == Ok::<Re, ParseError>(t));
    lemma_code_lits(lits(p), p, n);
    assert(size(t) == n);
    let prog = program(t);
    assert(code_of(t, 0) == codes(lits(p), n, 0));
    assert(prog =~= char_insts(p) + seq![Instruction::Match]);
    let b = step_budget(prog.len(), p.len());
    assert(b >= n + 1) by {
        assert(prog.len() == n + 1);
        assert((n + 1) * (n + 1) * (n + 1) >= n + 1) by (nonlinear_arith)
            requires n >= 0;
    }
    lemma_run_literal(prog, p, 0, 0, b);
}

/// Whether every run of the code of `e` consumes an input character before
/// anything else: `e` is a character, a `+` over such a tree, or a sequence
/// whose first tree is such a tree.
pub open spec fn starts_with_char(e: Re) -> bool
    decreases e,
{
    match e {
        Re::Lit(_) => true,
        Re::OneOrMore(a) => starts_with_char(*a),
        Re::Cat(v) => v.len() > 0 && starts_with_char(v[0]),
        _ => false,
    }
}

proof fn lemma_codes_first(v: Seq<Re>, n: int, pc: nat)
    requires
        1 <= n <= v.len(),
        code_of(v[0], pc).len() > 0,
    ensures
        codes(v, n, pc).len() > 0,
        codes(v, n, pc)[0] == code_of(v[0], pc)[0],
    decreases n,
{
    if n > 1 {
        lemma_codes_first(v, n - 1, pc);
    } else {
        assert(sizes(v, 0) == 0);
        assert(codes(v, 0, pc) =~= Seq::<Instruction>::empty());
        assert(codes(v, 1, pc) =~= code_of(v[0], pc));
    }
}

proof fn lemma_starts_with_char(e: Re, pc: nat)
    requires
        starts_with_char(e),
    ensures
        code_of(e, pc).len() > 0,
        code_of(e, pc)[0] is Char,
    decreases e,
{
    match e {
        Re::OneOrMore(a) => lemma_starts_with_char(*a, pc),
        Re::Cat(v) => {
            lemma_starts_with_char(v[0], pc);
            lemma_codes_first(v, v.len() as int, pc);
        },
        _ => {},
    }
}

/// A pattern whose matches all begin by consuming a character (such as `a`
/// or `a+`) does not match the empty input.
pub proof fn char_first_pattern_rejects_empty_input(p: Seq<char>, t: Re)
    requires
        parse_spec(p) == Ok::<Re, ParseError>(t),
        starts_with_char(t),
        size(t) + 1 <= usize::MAX,
    ensures
        matching(p, Seq::empty(), true) == Ok::<bool, EngineError>(false),
{
    lemma_starts_with_char(t, 0);
    lemma_code_len(t, 0);
    let prog = program(t);
    assert(prog[0] == code_of(t, 0)[0]);
    assert(step_budget(prog.len(), 0) >= 1);
}

/// A pattern made of one starred or optional part whose matches all begin
/// by consuming a character (such as `a*` or `a?`) matches the empty input.
pub proof fn optional_pattern_accepts_empty_input(p: Seq<char>, t: Re, e: Re)
    requires
        parse_spec(p) == Ok::<Re, ParseError>(t),
        t == Re::Cat(seq![Re::ZeroOrMore(Box::new(e))]) || t == Re::Cat(
            seq![Re::ZeroOrOne(Box::new(e))],
        ),
        starts_with_char(e),
        size(t) + 1 <= usize::MAX,
    ensures
        matching(p, Seq::empty(), true) == Ok::<bool, EngineError>(true),
{
    let v = t->Cat_0;
    let inner = v[0];
    lemma_starts_with_char(e, 1);
    lemma_code_len(e, 1);
    lemma_code_len(t, 0);
    assert(sizes(v, 0) == 0);
    assert(codes(v, 0, 0) =~= Seq::<Instruction>::empty());
    assert(v.len() == 1);
    assert(codes(v, 1, 0) =~= code_of(inner, 0));
    assert(code_of(t, 0) =~= code_of(inner, 0));
    let prog = program(t);
    let line = Seq::<char>::empty();
    let b = step_budget(prog.len(), 0);
    assert(b >= 3);
    let f = (b - 1) as nat;
    assert(prog[1] == code_of(e, 1)[0]);
    assert(run(prog, line, 1, 0, 0, f) == Ok::<bool, super::evaluator::EvalError>(false));
    if inner is ZeroOrMore {
        assert(prog[0] == Instruction::Split(1, (size(e) + 2) as usize));
        assert(prog[size(e) + 2int] == Instruction::Match);
        assert(run(prog, line, size(e) + 2int, 0, 0, f) == Ok::<bool, super::evaluator::EvalError>(true));
        assert(run(prog, line, 0, 0, 0, b) == Ok::<bool, super::evaluator::EvalError>(true));
    } else {
        assert(prog[0] == Instruction::Split(1, (size(e) + 1) as usize));
        assert(prog[size(e) + 1int] == Instruction::Match);
        assert(run(prog, line, size(e) + 1int, 0, 0, f) == Ok::<bool, super::evaluator::EvalError>(true));
        assert(run(prog, line, 0, 0, 0, b) == Ok::<bool, super::evaluator::EvalError>(true));
    }
    assert(eval_spec(prog, line, true) == Ok::<bool, super::evaluator::EvalError>(true));
}

/// Whether every sequence node in `e` has at least one child.
pub open spec fn wf_re(e: Re) -> bool
    decreases e,
{
    match e {
        Re::OneOrMore(a) => wf_re(*a),
        Re::ZeroOrMore(a) => wf_re(*a),
        Re::ZeroOrOne(a) => wf_re(*a),
        Re::Alt(a, b) => wf_re(*a) && wf_re(*b),
        Re::Cat(v) => v.len() > 0 && forall|i: int| 0 <= i < v.len() ==> wf_re(#[trigger] v[i]),
        _ => true,
    }
}

/// Whether every tree of `v` is well formed.
pub open spec fn all_wf(v: Seq<Re>) -> bool {
    forall|i: int| 0 <= i < v.len() ==> wf_re(#[trigger] v[i])
}

/// Whether every tree held by the enclosing contexts is well formed.
pub open spec fn frames_wf(stack: Seq<(Seq<Re>, Seq<Re>)>) -> bool {
    forall|k: int| 0 <= k < stack.len() ==> frame_wf(#[trigger] stack[k])
}

/// Whether every tree of one enclosing context is well formed.
pub open spec fn frame_wf(f: (Seq<Re>, Seq<Re>)) -> bool {
    all_wf(f.0) && all_wf(f.1)
}

/// Whether every tree held by a scan is well formed.
pub open spec fn scan_wf(st: Scan) -> bool {
    match st {
        Scan::Going { seq, alts, stack, escaped } => all_wf(seq) && all_wf(alts) && frames_wf(stack),
        Scan::Failed(_) => true,
    }
}

proof fn lemma_fold_wf(alts: Seq<Re>)
    requires
        alts.len() > 0,
        all_wf(alts),
    ensures
        wf_re(fold_alts(alts)),
    decreases alts.len(),
{
    if alts.len() > 1 {
        let rest = alts.drop_first();
        assert(all_wf(rest)) by {
            assert forall|i: int| 0 <= i < rest.len() implies wf_re(#[trigger] rest[i]) by {
                assert(rest[i] == alts[i + 1]);
            }
        }
        lemma_fold_wf(rest);
        assert(wf_re(alts[0]));
    }
}

proof fn lemma_close_wf(seq: Seq<Re>, alts: Seq<Re>)
    requires
        all_wf(seq),
        all_wf(alts),
    ensures
        all_wf(close(seq, alts)),
        fold_or_spec(close(seq, alts)) matches Some(e) ==> wf_re(e),
{
    let c = close(seq, alts);
    if seq.len() > 0 {
        assert(wf_re(Re::Cat(seq)));
        assert forall|i: int| 0 <= i < c.len() implies wf_re(#[trigger] c[i]) by {
            if i < alts.len() {
                assert(c[i] == alts[i]);
            }
        }
    }
    if c.len() > 0 {
        lemma_fold_wf(c);
    }
}

proof fn lemma_step_wf(st: Scan, c: char, i: int)
    requires
        scan_wf(st),
    ensures
        scan_wf(step(st, c, i)),
{
    if let Scan::Going { seq, alts, stack, escaped } = st {
        let next = step(st, c, i);
        if !escaped && (c == '+' || c == '*' || c == '?') && seq.len() > 0 {
            let s2 = seq.drop_last().push(postfix(c, seq.last()));
            assert(wf_re(seq.last()));
            assert(wf_re(postfix(c, seq.last())));
            assert forall|k: int| 0 <= k < s2.len() implies wf_re(#[trigger] s2[k]) by {
                if k < s2.len() - 1 {
                    assert(s2[k] == seq[k]);
                }
            }
            assert(scan_wf(next));
        } else if !escaped && c == '(' {
            let st2 = stack.push((seq, alts));
            assert forall|k: int| 0 <= k < st2.len() implies frame_wf(#[trigger] st2[k]) by {
                if k < stack.len() {
                    assert(st2[k] == stack[k]);
                    assert(frame_wf(stack[k]));
                }
            }
            assert(all_wf(Seq::<Re>::empty()));
            assert(scan_wf(next));
        } else if !escaped && c == ')' && stack.len() > 0 {
            let outer = stack.last();
            lemma_close_wf(seq, alts);
            assert(frame_wf(outer));
            if let Some(e) = fold_or_spec(close(seq, alts)) {
                let s2 = outer.0.push(e);
                assert forall|k: int| 0 <= k < s2.len() implies wf_re(#[trigger] s2[k]) by {
                    if k < outer.0.len() {
                        assert(s2[k] == outer.0[k]);
                    }
                }
            }
            let st2 = stack.drop_last();
            assert forall|k: int| 0 <= k < st2.len() implies frame_wf(#[trigger] st2[k]) by {
                assert(st2[k] == stack[k]);
                assert(frame_wf(stack[k]));
            }
            assert(frames_wf(st2));
            assert(next == (Scan::Going { seq: next->seq, alts: outer.1, stack: st2, escaped: false }));
            assert(all_wf(next->seq));
        } else if !escaped && c == '|' && seq.len() > 0 {
            let a2 = alts.push(Re::Cat(seq));
            assert(wf_re(Re::Cat(seq)));
            assert forall|k: int| 0 <= k < a2.len() implies wf_re(#[trigger] a2[k]) by {
                if k < alts.len() {
                    assert(a2[k] == alts[k]);
                }
            }
            assert(all_wf(Seq::<Re>::empty()));
            assert(scan_wf(next));
        } else if next is Going && (escaped || (c != '(' && c != ')' && c != '|' && c != '\\' && c != '+'
            && c != '*' && c != '?')) {
            let x = if escaped {
                Re::Lit(c)
            } else {
                atom(c)
            };
            let s2 = seq.push(x);
            assert(next == (Scan::Going { seq: s2, alts, stack, escaped: false }));
            assert forall|k: int| 0 <= k < s2.len() implies wf_re(#[trigger] s2[k]) by {
                if k < seq.len() {
                    assert(s2[k] == seq[k]);
                }
            }
            assert(scan_wf(next));
        }
    }
}

proof fn lemma_scan_wf(s: Seq<char>, n: int)
    requires
        0 <= n <= s.len(),
    ensures
        scan_wf(scan(s, n)),
    decreases n,
{
    if n > 0 {
        lemma_scan_wf(s, n - 1);
        lemma_step_wf(scan(s, n - 1), s[n - 1], n - 1);
    }
}

/// Every tree that the parser builds is well formed: no sequence node is
/// empty, at any depth.
pub proof fn parsed_tree_is_well_formed(p: Seq<char>)
    ensures
        parse_spec(p) matches Ok(t) ==> wf_re(t),
{
    lemma_scan_wf(p, p.len() as int);
    if let Scan::Going { seq, alts, stack, escaped } = scan(p, p.len() as int) {
        lemma_close_wf(seq, alts);
    }
}

/// The scan of the first `n` characters of `s` from state `st`, where the
/// first of them stands at position `i0` of the pattern.
pub open spec fn scan_from(st: Scan, s: Seq<char>, i0: int, n: int) -> Scan
    decreases n,
{
    if n <= 0 {
        st
    } else {
        step(scan_from(st, s, i0, n - 1), s[n - 1], i0 + n - 1)
    }
}

/// The state in which the scan of a pattern begins.
pub open spec fn start() -> Scan {
    Scan::Going { seq: Seq::empty(), alts: Seq::empty(), stack: Seq::empty(), escaped: false }
}

proof fn lemma_scan_is_scan_from(s: Seq<char>, n: int)
    requires
        0 <= n <= s.len(),
    ensures
        scan(s, n) == scan_from(start(), s, 0, n),
    decreases n,
{
    if n > 0 {
        lemma_scan_is_scan_from(s, n - 1);
    }
}

proof fn lemma_scan_prefix(st: Scan, s1: Seq<char>, s2: Seq<char>, i0: int, n: int)
    requires
        0 <= n <= s1.len(),
    ensures
        scan_from(st, s1 + s2, i0, n) == scan_from(st, s1, i0, n),
    decreases n,
{
    if n > 0 {
        lemma_scan_prefix(st, s1, s2, i0, n - 1);
        assert((s1 + s2)[n - 1] == s1[n - 1]);
    }
}

proof fn lemma_scan_then_k(st: Scan, s1: Seq<char>, s2: Seq<char>, i0: int, k: int)
    requires
        0 <= k <= s2.len(),
    ensures
        scan_from(st, s1 + s2, i0, s1.len() + k) == scan_from(
            scan_from(st, s1, i0, s1.len() as int),
            s2,
            i0 + s1.len(),
            k,
        ),
    decreases k,
{
    if k == 0 {
        lemma_scan_prefix(st, s1, s2, i0, s1.len() as int);
    } else {
        lemma_scan_then_k(st, s1, s2, i0, k - 1);
        assert((s1 + s2)[s1.len() + k - 1] == s2[k - 1]);
    }
}

/// Scanning `s1 + s2` is scanning `s1`, then `s2`.
proof fn lemma_scan_then(st: Scan, s1: Seq<char>, s2: Seq<char>, i0: int)
    ensures
        scan_from(st, s1 + s2, i0, (s1 + s2).len() as int) == scan_from(
            scan_from(st, s1, i0, s1.len() as int),
            s2,
            i0 + s1.len(),
            s2.len() as int,
        ),
{
    lemma_scan_then_k(st, s1, s2, i0, s2.len() as int);
}

proof fn lemma_scan_one(st: Scan, c: char, i0: int)
    ensures
        scan_from(st, seq![c], i0, 1) == step(st, c, i0),
{
    assert(scan_from(st, seq![c], i0, 0) == st);
    assert(seq![c][0] == c);
}

/// Whether `e` can be written as a pattern: no literal `^` or `$` (which the
/// pattern syntax reads as anchors) and no empty sequence.
pub open spec fn showable(e: Re) -> bool
    decreases e,
{
    match e {
        Re::Lit(c) => c != '^' && c != '$',
        Re::OneOrMore(a) => showable(*a),
        Re::ZeroOrMore(a) => showable(*a),
        Re::ZeroOrOne(a) => showable(*a),
        Re::Alt(a, b) => showable(*a) && showable(*b),
        Re::Cat(v) => v.len() > 0 && forall|i: int| 0 <= i < v.len() ==> showable(#[trigger] v[i]),
        Re::Begin => true,
        Re::End => true,
    }
}

/// The pattern text of `e`: metacharacters escaped, every sequence and
/// every alternation in parentheses, postfix operators after their operand.
pub open spec fn show(e: Re) -> Seq<char>
    decreases e, 0int,
{
    match e {
        Re::Lit(c) => if is_meta(c) {
            seq!['\\', c]
        } else {
            seq![c]
        },
        Re::Begin => seq!['^'],
        Re::End => seq!['$'],
        Re::OneOrMore(a) => show(*a) + seq!['+'],
        Re::ZeroOrMore(a) => show(*a) + seq!['*'],
        Re::ZeroOrOne(a) => show(*a) + seq!['?'],
        Re::Alt(a, b) => seq!['('] + show(*a) + seq!['|'] + show(*b) + seq![')'],
        Re::Cat(v) => seq!['('] + shows(v, v.len() as int) + seq![')'],
    }
}

/// The pattern texts of the first `n` trees of `v`, one after the other.
pub open spec fn shows(v: Seq<Re>, n: int) -> Seq<char>
    decreases v, n,
{
    if n <= 0 || n > v.len() {
        Seq::empty()
    } else {
        shows(v, n - 1) + show(v[n - 1])
    }
}

/// A running scan with no pending backslash.
pub open spec fn going(seq: Seq<Re>, alts: Seq<Re>, stack: Seq<(Seq<Re>, Seq<Re>)>) -> Scan {
    Scan::Going { seq, alts, stack, escaped: false }
}

proof fn lemma_show_pushes_one(e: Re, seq: Seq<Re>, alts: Seq<Re>, stack: Seq<(Seq<Re>, Seq<Re>)>, i0: int)
    requires
        showable(e),
    ensures
        exists|r: Re|
            scan_from(going(seq, alts, stack), show(e), i0, show(e).len() as int) == going(
                #[trigger] seq.push(r),
                alts,
                stack,
            ),
    decreases e, 0int,
{
    let st = going(seq, alts, stack);
    match e {
        Re::Lit(c) => {
            if is_meta(c) {
                lemma_scan_then(st, seq!['\\'], seq![c], i0);
                assert(seq!['\\'] + seq![c] =~= show(e));
                lemma_scan_one(st, '\\', i0);
                let mid = Scan::Going { seq, alts, stack, escaped: true };
                lemma_scan_one(mid, c, i0 + 1);
                assert(scan_from(st, show(e), i0, 2) == going(seq.push(Re::Lit(c)), alts, stack));
            } else {
                lemma_scan_one(st, c, i0);
                assert(scan_from(st, show(e), i0, 1) == going(seq.push(Re::Lit(c)), alts, stack));
            }
        },
        Re::Begin => {
            lemma_scan_one(st, '^', i0);
            assert(scan_from(st, show(e), i0, 1) == going(seq.push(Re::Begin), alts, stack));
        },
        Re::End => {
            lemma_scan_one(st, '$', i0);
            assert(scan_from(st, show(e), i0, 1) == going(seq.push(Re::End), alts, stack));
        },
        Re::OneOrMore(a) => {
            lemma_postfix_pushes_one(*a, '+', seq, alts, stack, i0);
        },
        Re::ZeroOrMore(a) => {
            lemma_postfix_pushes_one(*a, '*', seq, alts, stack, i0);
        },
        Re::ZeroOrOne(a) => {
            lemma_postfix_pushes_one(*a, '?', seq, alts, stack, i0);
        },
        Re::Alt(a, b) => {
            let inner = stack.push((seq, alts));
            let e0 = Seq::<Re>::empty();
            let p1 = seq!['('];
            let p2 = p1 + show(*a);
            let p3 = p2 + seq!['|'];
            let p4 = p3 + show(*b);
            assert(p4 + seq![')'] == show(e));
            lemma_scan_one(st, '(', i0);
            let s1 = going(e0, e0, inner);
            assert(scan_from(st, p1, i0, 1) == s1);
            lemma_show_pushes_one(*a, e0, e0, inner, i0 + 1);
            let ra = choose|r: Re| scan_from(s1, show(*a), i0 + 1, show(*a).len() as int) == going(
                #[trigger] e0.push(r),
                e0,
                inner,
            );
            lemma_scan_then(st, p1, show(*a), i0);
            let s2 = going(e0.push(ra), e0, inner);
            assert(scan_from(st, p2, i0, p2.len() as int) == s2);
            lemma_scan_then(st, p2, seq!['|'], i0);
            lemma_scan_one(s2, '|', i0 + p2.len());
            let alts3 = e0.push(Re::Cat(e0.push(ra)));
            let s3 = going(e0, alts3, inner);
            assert(scan_from(st, p3, i0, p3.len() as int) == s3);
            lemma_show_pushes_one(*b, e0, alts3, inner, i0 + p3.len());
            let rb = choose|r: Re| scan_from(s3, show(*b), i0 + p3.len(), show(*b).len() as int) == going(
                #[trigger] e0.push(r),
                alts3,
                inner,
            );
            lemma_scan_then(st, p3, show(*b), i0);
            let s4 = going(e0.push(rb), alts3, inner);
            assert(scan_from(st, p4, i0, p4.len() as int) == s4);
            lemma_scan_then(st, p4, seq![')'], i0);
            lemma_scan_one(s4, ')', i0 + p4.len());
            let closed = close(e0.push(rb), alts3);
            assert(closed.len() == 2);
            assert(closed.drop_first() =~= seq![Re::Cat(e0.push(rb))]);
            let r = fold_alts(closed);
            assert(inner.drop_last() =~= stack);
            assert(scan_from(st, show(e), i0, show(e).len() as int) == going(seq.push(r), alts, stack));
        },
        Re::Cat(v) => {
            let inner = stack.push((seq, alts));
            let e0 = Seq::<Re>::empty();
            let n = v.len() as int;
            let p1 = seq!['('];
            let p2 = p1 + shows(v, n);
            assert(p2 + seq![')'] == show(e));
            lemma_scan_one(st, '(', i0);
            let s1 = going(e0, e0, inner);
            assert(scan_from(st, p1, i0, 1) == s1);
            lemma_shows_push(v, n, e0, inner, i0 + 1);
            let rs = choose|rs: Seq<Re>| rs.len() == n && #[trigger] scan_from(
                s1,
                shows(v, n),
                i0 + 1,
                shows(v, n).len() as int,
            ) == going(e0 + rs, e0, inner);
            lemma_scan_then(st, p1, shows(v, n), i0);
            let s2 = going(e0 + rs, e0, inner);
            assert(scan_from(st, p2, i0, p2.len() as int) == s2);
            lemma_scan_then(st, p2, seq![')'], i0);
            lemma_scan_one(s2, ')', i0 + p2.len());
            assert(e0 + rs =~= rs);
            let closed = close(rs, e0);
            assert(closed =~= seq![Re::Cat(rs)]);
            assert(inner.drop_last() =~= stack);
            assert(scan_from(st, show(e), i0, show(e).len() as int) == going(
                seq.push(Re::Cat(rs)),
                alts,
                stack,
            ));
        },
    }
}

proof fn lemma_postfix_pushes_one(
    a: Re,
    op: char,
    seq: Seq<Re>,
    alts: Seq<Re>,
    stack: Seq<(Seq<Re>, Seq<Re>)>,
    i0: int,
)
    requires
        showable(a),
        op == '+' || op == '*' || op == '?',
    ensures
        exists|r: Re|
            scan_from(going(seq, alts, stack), show(a) + seq![op], i0, show(a).len() + 1int) == going(
                #[trigger] seq.push(r),
                alts,
                stack,
            ),
    decreases a, 1int,
{
    let st = going(seq, alts, stack);
    lemma_show_pushes_one(a, seq, alts, stack, i0);
    let ra = choose|r: Re| scan_from(st, show(a), i0, show(a).len() as int) == going(
        #[trigger] seq.push(r),
        alts,
        stack,
    );
    lemma_scan_then(st, show(a), seq![op], i0);
    let mid = going(seq.push(ra), alts, stack);
    lemma_scan_one(mid, op, i0 + show(a).len());
    assert(seq.push(ra).drop_last() =~= seq);
    let r = postfix(op, ra);
    assert(scan_from(st, show(a) + seq![op], i0, show(a).len() + 1int) == going(seq.push(r), alts, stack));
}

proof fn lemma_shows_push(v: Seq<Re>, n: int, alts: Seq<Re>, stack: Seq<(Seq<Re>, Seq<Re>)>, i0: int)
    requires
        0 <= n <= v.len(),
        forall|i: int| 0 <= i < v.len() ==> showable(#[trigger] v[i]),
    ensures
        exists|rs: Seq<Re>|
            rs.len() == n && #[trigger] scan_from(
                going(Seq::empty(), alts, stack),
                shows(v, n),
                i0,
                shows(v, n).len() as int,
            ) == going(Seq::<Re>::empty() + rs, alts, stack),
    decreases v, n,
{
    let e0 = Seq::<Re>::empty();
    let st = going(e0, alts, stack);
    if n == 0 {
        assert(scan_from(st, shows(v, 0), i0, 0) == going(e0 + e0, alts, stack)) by {
            assert(e0 + e0 =~= e0);
        }
    } else {
        lemma_shows_push(v, n - 1, alts, stack, i0);
        let rs = choose|rs: Seq<Re>| rs.len() == n - 1 && #[trigger] scan_from(
            st,
            shows(v, n - 1),
            i0,
            shows(v, n - 1).len() as int,
        ) == going(e0 + rs, alts, stack);
        let mid = going(e0 + rs, alts, stack);
        assert(showable(v[n - 1]));
        lemma_show_pushes_one(v[n - 1], e0 + rs, alts, stack, i0 + shows(v, n - 1).len());
        let r = choose|r: Re| scan_from(mid, show(v[n - 1]), i0 + shows(v, n - 1).len(), show(v[n - 1]).len() as int) == going(
            #[trigger] (e0 + rs).push(r),
            alts,
            stack,
        );
        lemma_scan_then(st, shows(v, n - 1), show(v[n - 1]), i0);
        assert((e0 + rs).push(r) =~= e0 + rs.push(r));
        assert(scan_from(st, shows(v, n), i0, shows(v, n).len() as int) == going(e0 + rs.push(r), alts, stack));
    }
}

/// Every pattern written out from a tree that can be written (each group and
/// each alternation in parentheses, metacharacters escaped) is accepted by
/// the parser.
pub proof fn written_pattern_parses(e: Re)
    requires
        showable(e),
    ensures
        parse_spec(show(e)) is Ok,
{
    let p = show(e);
    let e0 = Seq::<Re>::empty();
    let s0 = Seq::<(Seq<Re>, Seq<Re>)>::empty();
    lemma_scan_is_scan_from(p, p.len() as int);
    assert(start() == going(e0, e0, s0));
    lemma_show_pushes_one(e, e0, e0, s0, 0);
    let r = choose|r: Re| scan_from(going(e0, e0, s0), p, 0, p.len() as int) == going(
        #[trigger] e0.push(r),
        e0,
        s0,
    );
    assert(close(e0.push(r), e0) =~= seq![Re::Cat(e0.push(r))]);
}

} // verus!
