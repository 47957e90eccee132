//! Parses a pattern into a syntax tree.
use vstd::prelude::*;
use vstd::std_specs::iter::IteratorSpec;

verus! {

broadcast use vstd::std_specs::vec::group_vec_axioms;

/// Why a pattern was refused. Positions count characters from zero.
#[derive(Debug, Clone, Copy, PartialEq, Eq)]
pub enum ParseError {
    /// A backslash before a character that is not a metacharacter.
    InvalidEscape(usize, char),
    /// A closing parenthesis without an open group.
    InvalidRightParen(usize),
    /// `+`, `*`, `?` or `|` with no expression before it.
    NoPrev(usize),
    /// A group left open at the end of the pattern.
    NoRightParen,
    /// A pattern with no expression.
    Empty,
}

/// The syntax tree of a pattern.
#[derive(Debug)]
pub enum Ast {
    /// One character; `.` stands for any character.
    Char(char),
    Plus(Box<Ast>),
    Star(Box<Ast>),
    Question(Box<Ast>),
    Or(Box<Ast>, Box<Ast>),
    Concat(Vec<Ast>),
    /// Start of a line.
    Hat,
    /// End of a line.
    Dollar,
}

/// The mathematical model of a syntax tree.
pub enum Re {
    Lit(char),
    OneOrMore(Box<Re>),
    ZeroOrMore(Box<Re>),
    ZeroOrOne(Box<Re>),
    Alt(Box<Re>, Box<Re>),
    Cat(Seq<Re>),
    Begin,
    End,
}

impl Ast {
    /// The model of this tree.
    pub open spec fn view(&self) -> Re
        decreases self, 0int,
    {
        match self {
            Ast::Char(c) => Re::Lit(*c),
            Ast::Plus(e) => Re::OneOrMore(Box::new(e.view())),
            Ast::Star(e) => Re::ZeroOrMore(Box::new(e.view())),
            Ast::Question(e) => Re::ZeroOrOne(Box::new(e.view())),
            Ast::Or(e1, e2) => Re::Alt(Box::new(e1.view()), Box::new(e2.view())),
            Ast::Concat(v) => Re::Cat(Ast::views(v@, v@.len() as int)),
            Ast::Hat => Re::Begin,
            Ast::Dollar => Re::End,
        }
    }

    /// The models of the first `n` trees of `s`.
    pub open spec fn views(s: Seq<Ast>, n: int) -> Seq<Re>
        decreases s, n,
    {
        if n <= 0 || n > s.len() {
            Seq::empty()
        } else {
            Ast::views(s, n - 1).push(s[n - 1].view())
        }
    }
}

/// The models of the trees of `v`.
pub open spec fn models(v: Seq<Ast>) -> Seq<Re> {
    v.map_values(|a: Ast| a@)
}

/// The model of an optional tree.
pub open spec fn opt_model(o: Option<Ast>) -> Option<Re> {
    match o {
        Some(a) => Some(a@),
        None => None,
    }
}

/// The model of the outcome of a parse.
pub open spec fn outcome(r: Result<Ast, ParseError>) -> Result<Re, ParseError> {
    match r {
        Ok(a) => Ok(a@),
        Err(e) => Err(e),
    }
}

/// The characters that a backslash may escape.
pub open spec fn is_meta(c: char) -> bool {
    c == '\\' || c == '(' || c == ')' || c == '|' || c == '+' || c == '*' || c == '?'
}

/// The tree built by the postfix operator `c` over `e`.
pub open spec fn postfix(c: char, e: Re) -> Re {
    if c == '+' {
        Re::OneOrMore(Box::new(e))
    } else if c == '*' {
        Re::ZeroOrMore(Box::new(e))
    } else {
        Re::ZeroOrOne(Box::new(e))
    }
}

/// The alternatives of a context once its current sequence is closed: an
/// empty sequence adds no alternative.
pub open spec fn close(seq: Seq<Re>, alts: Seq<Re>) -> Seq<Re> {
    if seq.len() == 0 {
        alts
    } else {
        alts.push(Re::Cat(seq))
    }
}

/// Nested alternation of a non-empty list, the first alternative outermost:
/// `[a, b, c]` gives `a|(b|c)`.
pub open spec fn fold_alts(alts: Seq<Re>) -> Re
    decreases alts.len(),
{
    if alts.len() <= 1 {
        alts[0]
    } else {
        Re::Alt(Box::new(alts[0]), Box::new(fold_alts(alts.drop_first())))
    }
}

/// The one tree for a list of alternatives, if there is any.
pub open spec fn fold_or_spec(alts: Seq<Re>) -> Option<Re> {
    if alts.len() == 0 {
        None
    } else {
        Some(fold_alts(alts))
    }
}

/// The tree of a character that is not special to the scan: `^` and `$`
/// are the anchors, any other character stands for itself.
pub open spec fn atom(c: char) -> Re {
    if c == '^' {
        Re::Begin
    } else if c == '$' {
        Re::End
    } else {
        Re::Lit(c)
    }
}

/// The state of the scan of a pattern: the sequence and the alternatives of
/// the innermost open context, those of the enclosing contexts, and whether a
/// backslash is pending; or the error that ended it.
pub enum Scan {
    Going { seq: Seq<Re>, alts: Seq<Re>, stack: Seq<(Seq<Re>, Seq<Re>)>, escaped: bool },
    Failed(ParseError),
}

/// The scan after character `c` at position `i`.
pub open spec fn step(st: Scan, c: char, i: int) -> Scan {
    match st {
        Scan::Failed(e) => Scan::Failed(e),
        Scan::Going { seq, alts, stack, escaped } => {
            if escaped {
                if is_meta(c) {
                    Scan::Going { seq: seq.push(Re::Lit(c)), alts, stack, escaped: false }
                } else {
                    Scan::Failed(ParseError::InvalidEscape(i as usize, c))
                }
            } else if c == '+' || c == '*' || c == '?' {
                if seq.len() == 0 {
                    Scan::Failed(ParseError::NoPrev(i as usize))
                } else {
                    Scan::Going {
                        seq: seq.drop_last().push(postfix(c, seq.last())),
                        alts,
                        stack,
                        escaped: false,
                    }
                }
            } else if c == '(' {
                Scan::Going {
                    seq: Seq::empty(),
                    alts: Seq::empty(),
                    stack: stack.push((seq, alts)),
                    escaped: false,
                }
            } else if c == ')' {
                if stack.len() == 0 {
                    Scan::Failed(ParseError::InvalidRightParen(i as usize))
                } else {
                    let outer = stack.last();
                    Scan::Going {
                        seq: match fold_or_spec(close(seq, alts)) {
                            Some(e) => outer.0.push(e),
                            None => outer.0,
                        },
                        alts: outer.1,
                        stack: stack.drop_last(),
                        escaped: false,
                    }
                }
            } else if c == '|' {
                if seq.len() == 0 {
                    Scan::Failed(ParseError::NoPrev(i as usize))
                } else {
                    Scan::Going {
                        seq: Seq::empty(),
                        alts: alts.push(Re::Cat(seq)),
                        stack,
                        escaped: false,
                    }
                }
            } else if c == '\\' {
                Scan::Going { seq, alts, stack, escaped: true }
            } else {
                Scan::Going { seq: seq.push(atom(c)), alts, stack, escaped: false }
            }
        },
    }
}

/// The scan of the first `n` characters of `s`, left to right.
pub open spec fn scan(s: Seq<char>, n: int) -> Scan
    decreases n,
{
    if n <= 0 {
        Scan::Going { seq: Seq::empty(), alts: Seq::empty(), stack: Seq::empty(), escaped: false }
    } else {
        step(scan(s, n - 1), s[n - 1], n - 1)
    }
}

/// The tree of pattern `s`, or the first error met in it. A backslash at the
/// very end is ignored.
pub open spec fn parse_spec(s: Seq<char>) -> Result<Re, ParseError> {
    match scan(s, s.len() as int) {
        Scan::Failed(e) => Err(e),
        Scan::Going { seq, alts, stack, escaped } => {
            if stack.len() > 0 {
                Err(ParseError::NoRightParen)
            } else {
                match fold_or_spec(close(seq, alts)) {
                    Some(e) => Ok(e),
                    None => Err(ParseError::Empty),
                }
            }
        },
    }
}

/// The models of the saved enclosing contexts.
pub open spec fn frames(v: Seq<(Vec<Ast>, Vec<Ast>)>) -> Seq<(Seq<Re>, Seq<Re>)> {
    v.map_values(|p: (Vec<Ast>, Vec<Ast>)| (models(p.0@), models(p.1@)))
}

/// The scan state that the parser's own variables stand for.
pub open spec fn state_of(
    seq: Seq<Ast>,
    alts: Seq<Ast>,
    stack: Seq<(Vec<Ast>, Vec<Ast>)>,
    escaped: bool,
) -> Scan {
    Scan::Going { seq: models(seq), alts: models(alts), stack: frames(stack), escaped }
}

pub proof fn lemma_failed_stays(s: Seq<char>, n: int, m: int)
    requires
        0 <= n <= m,
        scan(s, n) is Failed,
    ensures
        scan(s, m) == scan(s, n),
    decreases m,
{
    if n < m {
        lemma_failed_stays(s, n, m - 1);
    }
}

proof fn lemma_concat_model(v: Seq<Ast>)
    ensures
        Ast::views(v, v.len() as int) == models(v),
{
    lemma_views(v, v.len() as int);
    assert(Ast::views(v, v.len() as int) =~= models(v));
}

/// Which postfix operator is being applied.
enum Psq {
    Plus,
    Star,
    Question,
}

/// The character of a postfix operator.
spec fn psq_char(t: Psq) -> char {
    match t {
        Psq::Plus => '+',
        Psq::Star => '*',
        Psq::Question => '?',
    }
}

/// Appends the tree of the plain character `c`.
fn push_atom(seq: &mut Vec<Ast>, c: char)
    ensures
        models(final(seq)@) == models(old(seq)@).push(atom(c)),
{
    let ast = if c == '^' {
        Ast::Hat
    } else if c == '$' {
        Ast::Dollar
    } else {
        Ast::Char(c)
    };
    seq.push(ast);
    assert(models(seq@) =~= models(old(seq)@).push(atom(c)));
}

/// An escaped character: only metacharacters may be escaped.
fn parse_escape(pos: usize, c: char) -> (r: Result<Ast, ParseError>)
    ensures
        is_meta(c) ==> (r matches Ok(a) && a@ == Re::Lit(c)),
        !is_meta(c) ==> r == Err::<Ast, ParseError>(ParseError::InvalidEscape(pos, c)),
{
    match c {
        '\\' | '(' | ')' | '|' | '+' | '*' | '?' => Ok(Ast::Char(c)),
        _ => Err(ParseError::InvalidEscape(pos, c)),
    }
}

/// Applies a postfix operator to the last expression of `seq`; there must be
/// one.
fn parse_plus_star_question(seq: &mut Vec<Ast>, ast_type: Psq, pos: usize) -> (r: Result<(), ParseError>)
    ensures
        old(seq)@.len() == 0 ==> r == Err::<(), ParseError>(ParseError::NoPrev(pos)),
        old(seq)@.len() > 0 ==> r is Ok && models(final(seq)@) == models(old(seq)@).drop_last().push(
            postfix(psq_char(ast_type), models(old(seq)@).last()),
        ),
{
    match seq.pop() {
        Some(prev) => {
            let ast = match ast_type {
                Psq::Plus => Ast::Plus(Box::new(prev)),
                Psq::Star => Ast::Star(Box::new(prev)),
                Psq::Question => Ast::Question(Box::new(prev)),
            };
            seq.push(ast);
            assert(models(seq@) =~= models(old(seq)@).drop_last().push(
                postfix(psq_char(ast_type), models(old(seq)@).last()),
            ));
            Ok(())
        },
        None => Err(ParseError::NoPrev(pos)),
    }
}

/// Joins alternatives into one tree, the first alternative outermost:
/// `abc|def|ghi` gives `Or(abc, Or(def, ghi))`.
fn fold_or(seq_or: Vec<Ast>) -> (r: Option<Ast>)
    ensures
        opt_model(r) == fold_or_spec(models(seq_or@)),
{
    let ghost all = models(seq_or@);
    let ghost n = seq_or@.len() as int;
    let mut rest = seq_or;
    match rest.pop() {
        None => None,
        Some(last) => {
            let mut ast = last;
            assert(all.subrange(n - 1, n) =~= seq![all[n - 1]]);
            while rest.len() > 0
                invariant
                    0 <= rest@.len() < n,
                    n == all.len(),
                    models(rest@) =~= all.subrange(0, rest@.len() as int),
                    ast@ == fold_alts(all.subrange(rest@.len() as int, n)),
                decreases rest@.len(),
            {
                let ghost k = rest@.len() as int;
                let ghost before = rest@;
                match rest.pop() {
                    Some(s) => {
                        assert(all[k - 1] == s@) by {
                            assert(models(before)[k - 1] == s@);
                        }
                        assert(all.subrange(k - 1, n).drop_first() =~= all.subrange(k, n));
                        ast = Ast::Or(Box::new(s), Box::new(ast));
                        assert(models(rest@) =~= all.subrange(0, rest@.len() as int));
                    },
                    None => {},
                }
            }
            assert(all.subrange(0, n) =~= all);
            Some(ast)
        },
    }
}

/// `Ast::views` gives the model of each tree, in order.
pub proof fn lemma_views(s: Seq<Ast>, n: int)
    requires
        0 <= n <= s.len(),
    ensures
        Ast::views(s, n).len() == n,
        forall|k: int| 0 <= k < n ==> #[trigger] Ast::views(s, n)[k] == s[k]@,
    decreases n,
{
    if n > 0 {
        lemma_views(s, n - 1);
    }
}

/// The characters of `s`, in order.
pub fn chars_of(s: &str) -> (r: Vec<char>)
    ensures
        r@ == s@,
{
    let mut it = s.chars();
    let mut out: Vec<char> = Vec::new();
    proof {
        vstd::string::axiom_spec_iter(s);
    }
    loop
        invariant
            out@ + it.remaining() == s@,
            it.decrease() is Some,
        decreases it.decrease()->0,
    {
        let ghost before = it;
        match it.next() {
            Some(c) => {
                proof {
                    vstd::string::next_postcondition(&before, &it, Some(c));
                }
                out.push(c);
                assert(out@ + it.remaining() =~= s@);
            },
            None => {
                proof {
                    vstd::string::next_postcondition(&before, &it, None);
                }
                assert(out@ =~= s@);
                return out;
            },
        }
    }
}

/// Parses a pattern into its syntax tree.
#[verifier::spinoff_prover]
#[verifier::rlimit(60)]
pub fn parse(expr: &str) -> (r: Result<Ast, ParseError>)
    ensures
        outcome(r) == parse_spec(expr@),
{
    let chars = chars_of(expr);
    let ghost s = expr@;
    let mut seq: Vec<Ast> = Vec::new(); // the current sequence
    let mut seq_or: Vec<Ast> = Vec::new(); // the alternatives of the current context
    let mut stack: Vec<(Vec<Ast>, Vec<Ast>)> = Vec::new(); // the enclosing contexts
    let mut escaped = false;
    assert(models(seq@) =~= Seq::<Re>::empty());
    assert(models(seq_or@) =~= Seq::<Re>::empty());
    assert(frames(stack@) =~= Seq::<(Seq<Re>, Seq<Re>)>::empty());
    let mut i: usize = 0;
    while i < chars.len()
        invariant
            chars@ == s,
            s == expr@,
            0 <= i <= s.len(),
            scan(s, i as int) == state_of(seq@, seq_or@, stack@, escaped),
        decreases s.len() - i,
    {
        let c = chars[i];
        let ghost st = scan(s, i as int);
        let ghost seq0 = models(seq@);
        let ghost alts0 = models(seq_or@);
        let ghost stack0 = frames(stack@);
        assert(scan(s, i + 1) == step(st, c, i as int));
        if escaped {
            match parse_escape(i, c) {
                Ok(ast) => {
                    seq.push(ast);
                    escaped = false;
                    assert(models(seq@) =~= seq0.push(Re::Lit(c)));
                },
                Err(e) => {
                    proof {
                        lemma_failed_stays(s, i + 1, s.len() as int);
                    }
                    return Err(e);
                },
            }
        } else if c == '+' || c == '*' || c == '?' {
            let t = if c == '+' {
                Psq::Plus
            } else if c == '*' {
                Psq::Star
            } else {
                Psq::Question
            };
            match parse_plus_star_question(&mut seq, t, i) {
                Ok(()) => {},
                Err(e) => {
                    proof {
                        lemma_failed_stays(s, i + 1, s.len() as int);
                    }
                    return Err(e);
                },
            }
        } else if c == '(' {
            // save the current context and start an empty one
            let prev = seq;
            let prev_or = seq_or;
            seq = Vec::new();
            seq_or = Vec::new();
            stack.push((prev, prev_or));
            assert(frames(stack@) =~= stack0.push((models(prev@), models(prev_or@))));
            assert(models(seq@) =~= Seq::<Re>::empty());
            assert(models(seq_or@) =~= Seq::<Re>::empty());
        } else if c == ')' {
            let ghost old_stack = stack@;
            match stack.pop() {
                Some(frame) => {
                    let (mut prev, prev_or) = frame;
                    assert(frames(stack@) =~= frames(old_stack).drop_last());
                    assert(frames(old_stack).last() == (models(prev@), models(prev_or@)));
                    let ghost closed = close(models(seq@), models(seq_or@));
                    if seq.len() > 0 {
                        proof {
                            lemma_concat_model(seq@);
                        }
                        seq_or.push(Ast::Concat(seq));
                    }
                    assert(models(seq_or@) =~= closed);
                    let ghost outer = models(prev@);
                    match fold_or(seq_or) {
                        Some(ast) => {
                            prev.push(ast);
                            assert(models(prev@) =~= outer.push(ast@));
                        },
                        None => {},
                    }
                    seq = prev;
                    seq_or = prev_or;
                },
                None => {
                    proof {
                        lemma_failed_stays(s, i + 1, s.len() as int);
                    }
                    return Err(ParseError::InvalidRightParen(i));
                },
            }
        } else if c == '|' {
            if seq.len() == 0 {
                proof {
                    lemma_failed_stays(s, i + 1, s.len() as int);
                }
                return Err(ParseError::NoPrev(i));
            }
            proof {
                lemma_concat_model(seq@);
            }
            let prev = seq;
            seq = Vec::new();
            seq_or.push(Ast::Concat(prev));
            assert(models(seq_or@) =~= alts0.push(Re::Cat(models(prev@))));
            assert(models(seq@) =~= Seq::<Re>::empty());
        } else if c == '\\' {
            escaped = true;
        } else {
            push_atom(&mut seq, c);
        }
        i = i + 1;
    }
    // a group left open
    if stack.len() > 0 {
        return Err(ParseError::NoRightParen);
    }
    let ghost closed = close(models(seq@), models(seq_or@));
    if seq.len() > 0 {
        proof {
            lemma_concat_model(seq@);
        }
        seq_or.push(Ast::Concat(seq));
    }
    assert(models(seq_or@) =~= closed);
    match fold_or(seq_or) {
        Some(ast) => Ok(ast),
        None => Err(ParseError::Empty),
    }
}

} // verus!
