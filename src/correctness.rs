use vstd::prelude::*;

use crate::error::Error;
use crate::parser::{
    bounded, compile, fold_code, is_run_token, magnitude_within, parse_step, parse_upto, run_instruction,
    run_of, unit_of, CompileState,
};
use crate::program::{jumps_matched, Instruction};
use crate::tokens::Token;

verus! {

/// How a token changes the bracket depth.
pub open spec fn bracket_delta(t: Token) -> int {
    if t == Token::Open {
        1
    } else if t == Token::Close {
        -1
    } else {
        0
    }
}

/// The number of `[` minus the number of `]` among the first `i` tokens.
pub open spec fn depth_at(toks: Seq<Token>, i: int) -> int
    decreases i,
{
    if i <= 0 {
        0
    } else {
        depth_at(toks, i - 1) + bracket_delta(toks[i - 1])
    }
}

/// No prefix of the first `i` tokens closes more brackets than it opens.
pub open spec fn never_negative(toks: Seq<Token>, i: int) -> bool {
    forall|q: int| 0 <= q <= i ==> depth_at(toks, q) >= 0
}

/// Brackets balanced and properly nested.
pub open spec fn balanced(toks: Seq<Token>) -> bool {
    never_negative(toks, toks.len() as int) && depth_at(toks, toks.len() as int) == 0
}

/// `p` is the first `]` that has no `[` to close.
pub open spec fn is_excess_close(toks: Seq<Token>, p: int) -> bool {
    &&& 0 <= p < toks.len()
    &&& toks[p] == Token::Close
    &&& depth_at(toks, p) == 0
    &&& never_negative(toks, p)
}

/// `p` is a `[` that no later `]` closes.
pub open spec fn is_unclosed_open(toks: Seq<Token>, p: int) -> bool {
    &&& 0 <= p < toks.len()
    &&& toks[p] == Token::Open
    &&& forall|m: int| p < m <= toks.len() ==> depth_at(toks, m) > depth_at(toks, p)
}

/// `p` is the leftmost `[` that no later `]` closes.
pub open spec fn is_first_unclosed_open(toks: Seq<Token>, p: int) -> bool {
    &&& is_unclosed_open(toks, p)
    &&& forall|q: int| 0 <= q < p ==> !is_unclosed_open(toks, q)
}

/// Every resolved jump names its partner, and every unresolved `[` is a
/// `JumpIfZero` on the stack that no `]` names yet.
pub open spec fn linked(s: CompileState) -> bool {
    &&& forall|i: int|
        0 <= i < s.stack.len() ==> s.code[#[trigger] s.stack[i] as int] is JumpIfZero
    &&& forall|i: int, j: int| 0 <= i < j < s.stack.len() ==> s.stack[i] < s.stack[j]
    &&& forall|k: int|
        0 <= k < s.code.len() ==> match #[trigger] s.code[k] {
            Instruction::JumpIfZero(t) => s.stack.contains(k as usize) || (k < t < s.code.len()
                && s.code[t as int] == Instruction::JumpIfNonZero(k as usize)),
            Instruction::JumpIfNonZero(t) => t < k && s.code[t as int] == Instruction::JumpIfZero(
                k as usize,
            ) && !s.stack.contains(t),
            _ => true,
        }
}

/// Each unresolved `[` sits at its recorded token position, and the depth
/// stays above its level from there on.
pub open spec fn sites_open(toks: Seq<Token>, s: CompileState, i: int) -> bool {
    forall|j: int|
        0 <= j < s.sites.len() ==> {
            &&& 0 <= #[trigger] s.sites[j] < i
            &&& toks[s.sites[j] as int] == Token::Open
            &&& depth_at(toks, s.sites[j] as int) == j
            &&& forall|m: int| s.sites[j] < m <= i ==> depth_at(toks, m) > j
        }
}


proof fn lemma_step_keeps_links(s: CompileState, t: Token)
    requires
        bounded(s),
        linked(s),
        s.consumed < isize::MAX,
    ensures
        parse_step(s, t) matches Ok(s2) ==> {
            &&& bounded(s2)
            &&& linked(s2)
            &&& s2.consumed == s.consumed + 1
            &&& s2.stack.len() == s.stack.len() + bracket_delta(t)
        },
        parse_step(s, t) is Err <==> (t == Token::Close && s.stack.len() == 0),
{
    if let Ok(s2) = parse_step(s, t) {
        let n = s.code.len();
        if t == Token::Open {
            assert forall|k: int| 0 <= k < s2.code.len() implies match #[trigger] s2.code[k] {
                Instruction::JumpIfZero(x) => s2.stack.contains(k as usize) || (k < x
                    < s2.code.len() && s2.code[x as int] == Instruction::JumpIfNonZero(k as usize)),
                Instruction::JumpIfNonZero(x) => x < k && s2.code[x as int]
                    == Instruction::JumpIfZero(k as usize) && !s2.stack.contains(x),
                _ => true,
            } by {
                if k == n {
                    assert(s2.stack[s2.stack.len() - 1] == k as usize);
                } else {
                    assert(s2.code[k] == s.code[k]);
                    if let Instruction::JumpIfZero(x) = s.code[k] {
                        if s.stack.contains(k as usize) {
                            let i = choose|i: int| 0 <= i < s.stack.len() && s.stack[i] == k as usize;
                            assert(s2.stack[i] == k as usize);
                        }
                    }
                    if let Instruction::JumpIfNonZero(x) = s.code[k] {
                        if s2.stack.contains(x) {
                            let i = choose|i: int| 0 <= i < s2.stack.len() && s2.stack[i] == x;
                            if i < s.stack.len() {
                                assert(s.stack[i] == x);
                            }
                        }
                    }
                }
            }
            assert forall|i: int| 0 <= i < s2.stack.len() implies s2.code[#[trigger] s2.stack[i] as int] is JumpIfZero by {
                if i < s.stack.len() {
                    assert(s2.stack[i] == s.stack[i]);
                }
            }
        } else if t == Token::Close {
            let o = s.stack.last();
            let top = s.stack.len() - 1;
            assert(s.stack[top] == o);
            assert(s.code[o as int] is JumpIfZero);
            assert forall|x: usize| s2.stack.contains(x) implies s.stack.contains(x) && x != o by {
                let i = choose|i: int| 0 <= i < s2.stack.len() && s2.stack[i] == x;
                assert(s.stack[i] == x);
            }
            assert forall|k: int| 0 <= k < s2.code.len() implies match #[trigger] s2.code[k] {
                Instruction::JumpIfZero(x) => s2.stack.contains(k as usize) || (k < x
                    < s2.code.len() && s2.code[x as int] == Instruction::JumpIfNonZero(k as usize)),
                Instruction::JumpIfNonZero(x) => x < k && s2.code[x as int]
                    == Instruction::JumpIfZero(k as usize) && !s2.stack.contains(x),
                _ => true,
            } by {
                if k == n {
                } else if k == o {
                } else {
                    assert(s2.code[k] == s.code[k]);
                    if let Instruction::JumpIfZero(x) = s.code[k] {
                        if s.stack.contains(k as usize) {
                            let i = choose|i: int| 0 <= i < s.stack.len() && s.stack[i] == k as usize;
                            assert(i != top);
                            assert(s2.stack[i] == k as usize);
                        } else {
                            assert(x != o);
                        }
                    }
                    if let Instruction::JumpIfNonZero(x) = s.code[k] {
                        assert(s.stack.contains(o));
                        assert(x != o);
                    }
                }
            }
            assert forall|i: int| 0 <= i < s2.stack.len() implies s2.code[#[trigger] s2.stack[i] as int] is JumpIfZero by {
                assert(s2.stack[i] == s.stack[i]);
                assert(s.stack[i] < o);
            }
        } else if t == Token::Put || t == Token::Get {
            assert forall|x: usize| s.stack.contains(x) implies (x as int) < n by {}
            assert forall|k: int| 0 <= k < s2.code.len() implies match #[trigger] s2.code[k] {
                Instruction::JumpIfZero(x) => s2.stack.contains(k as usize) || (k < x
                    < s2.code.len() && s2.code[x as int] == Instruction::JumpIfNonZero(k as usize)),
                Instruction::JumpIfNonZero(x) => x < k && s2.code[x as int]
                    == Instruction::JumpIfZero(k as usize) && !s2.stack.contains(x),
                _ => true,
            } by {
                if k < n {
                    assert(s2.code[k] == s.code[k]);
                }
            }
            assert forall|i: int| 0 <= i < s2.stack.len() implies s2.code[#[trigger] s2.stack[i] as int] is JumpIfZero by {
                assert(s2.code[s.stack[i] as int] == s.code[s.stack[i] as int]);
            }
        } else {
            let merge = n > 0 && crate::parser::run_of(s.code.last(), t) is Some;
            let last = n - 1;
            assert forall|k: int| 0 <= k < s2.code.len() implies match #[trigger] s2.code[k] {
                Instruction::JumpIfZero(x) => s2.stack.contains(k as usize) || (k < x
                    < s2.code.len() && s2.code[x as int] == Instruction::JumpIfNonZero(k as usize)),
                Instruction::JumpIfNonZero(x) => x < k && s2.code[x as int]
                    == Instruction::JumpIfZero(k as usize) && !s2.stack.contains(x),
                _ => true,
            } by {
                if k < n && !(merge && k == last) {
                    assert(s2.code[k] == s.code[k]);
                    if let Instruction::JumpIfZero(x) = s.code[k] {
                        if !s.stack.contains(k as usize) {
                            if merge {
                                assert(x != last);
                            }
                            assert(s2.code[x as int] == s.code[x as int]);
                        }
                    }
                    if let Instruction::JumpIfNonZero(x) = s.code[k] {
                        assert(s2.code[x as int] == s.code[x as int]);
                    }
                }
            }
            assert forall|i: int| 0 <= i < s2.stack.len() implies s2.code[#[trigger] s2.stack[i] as int] is JumpIfZero by {
                assert(s.code[s.stack[i] as int] is JumpIfZero);
                assert(s2.code[s.stack[i] as int] == s.code[s.stack[i] as int]);
            }
            assert forall|k: int| 0 <= k < s2.code.len() implies crate::parser::magnitude_within(#[trigger] s2.code[k], s2.consumed) by {
                if k < n && !(merge && k == last) {
                    assert(s2.code[k] == s.code[k]);
                    assert(crate::parser::magnitude_within(s.code[k], s.consumed));
                } else if merge && k == last {
                    assert(crate::parser::magnitude_within(s.code[k], s.consumed));
                }
            }
        }
    }
}

/// What holds after reading the first `i` tokens: either every prefix so far
/// is balanced from the left and the compiler's state is consistent, or the
/// first excess `]` has been reported.
pub proof fn lemma_parse_prefix(toks: Seq<Token>, i: int)
    requires
        0 <= i <= toks.len(),
        toks.len() <= isize::MAX,
    ensures
        match parse_upto(toks, i) {
            Ok(s) => {
                &&& never_negative(toks, i)
                &&& bounded(s)
                &&& linked(s)
                &&& s.consumed == i
                &&& s.stack.len() == depth_at(toks, i)
                &&& sites_open(toks, s, i)
            },
            Err(e) => exists|p: int|
                #![trigger is_excess_close(toks, p)]
                p < i && is_excess_close(toks, p) && e == Error::UnmatchedBracket(p as usize),
        },
    decreases i,
{
    if i > 0 {
        lemma_parse_prefix(toks, i - 1);
        if let Ok(s) = parse_upto(toks, i - 1) {
            let t = toks[i - 1];
            lemma_step_keeps_links(s, t);
            assert(depth_at(toks, i) == depth_at(toks, i - 1) + bracket_delta(t));
            match parse_step(s, t) {
                Ok(s2) => {
                    assert forall|q: int| 0 <= q <= i implies depth_at(toks, q) >= 0 by {
                        if q < i {
                            assert(never_negative(toks, i - 1));
                        }
                    }
                    assert forall|j: int| 0 <= j < s2.sites.len() implies {
                        &&& 0 <= #[trigger] s2.sites[j] < i
                        &&& toks[s2.sites[j] as int] == Token::Open
                        &&& depth_at(toks, s2.sites[j] as int) == j
                        &&& forall|m: int| s2.sites[j] < m <= i ==> depth_at(toks, m) > j
                    } by {
                        if j < s.sites.len() {
                            assert(s2.sites[j] == s.sites[j]);
                            assert forall|m: int| s2.sites[j] < m <= i implies depth_at(toks, m) > j by {
                                if m < i {
                                    assert(sites_open(toks, s, i - 1));
                                }
                            }
                        }
                    }
                },
                Err(e) => {
                    assert(is_excess_close(toks, i - 1));
                },
            }
        }
    }
}

/// Once an error is reported, later tokens do not change it.
pub proof fn lemma_error_persists(toks: Seq<Token>, i: int, j: int)
    requires
        0 <= i <= j,
        parse_upto(toks, i) is Err,
    ensures
        parse_upto(toks, j) == parse_upto(toks, i),
    decreases j - i,
{
    if j > i {
        lemma_error_persists(toks, i, j - 1);
    }
}

/// When compilation succeeds, every jump names its partner.
pub proof fn lemma_compiled_jumps_matched(toks: Seq<Token>)
    requires
        toks.len() <= isize::MAX,
    ensures
        compile(toks) matches Ok(code) ==> jumps_matched(code),
{
    lemma_parse_prefix(toks, toks.len() as int);
    if let Ok(s) = parse_upto(toks, toks.len() as int) {
        if s.stack.len() == 0 {
            assert forall|k: int| 0 <= k < s.code.len() implies match #[trigger] s.code[k] {
                Instruction::JumpIfZero(t) => k < t < s.code.len() && s.code[t as int]
                    == Instruction::JumpIfNonZero(k as usize),
                Instruction::JumpIfNonZero(t) => t < k && s.code[t as int]
                    == Instruction::JumpIfZero(k as usize),
                _ => true,
            } by {
                if let Instruction::JumpIfZero(t) = s.code[k] {
                    assert(!s.stack.contains(k as usize));
                }
            }
        }
    }
}

/// A token sequence whose brackets are balanced and properly nested always
/// compiles, and in the program every `JumpIfZero` and its `JumpIfNonZero`
/// name each other.
pub proof fn lemma_balanced_compiles(toks: Seq<Token>)
    requires
        balanced(toks),
        toks.len() <= isize::MAX,
    ensures
        compile(toks) matches Ok(code) && jumps_matched(code),
{
    lemma_parse_prefix(toks, toks.len() as int);
    if let Err(e) = parse_upto(toks, toks.len() as int) {
        let p = choose|p: int| p < toks.len() && is_excess_close(toks, p) && e == Error::UnmatchedBracket(p as usize);
        assert(depth_at(toks, p + 1) < 0);
    }
    lemma_compiled_jumps_matched(toks);
}

/// A token sequence whose brackets are not balanced never compiles.
pub proof fn lemma_unbalanced_fails(toks: Seq<Token>)
    requires
        !balanced(toks),
        toks.len() <= isize::MAX,
    ensures
        compile(toks) is Err,
{
    lemma_parse_prefix(toks, toks.len() as int);
}

/// The first `]` without a partner is the one reported.
pub proof fn lemma_excess_close_reported(toks: Seq<Token>, p: int)
    requires
        is_excess_close(toks, p),
        toks.len() <= isize::MAX,
    ensures
        compile(toks) == Err::<Seq<Instruction>, Error>(Error::UnmatchedBracket(p as usize)),
{
    lemma_parse_prefix(toks, toks.len() as int);
    assert(depth_at(toks, p + 1) < 0);
    if let Err(e) = parse_upto(toks, toks.len() as int) {
        let q = choose|q: int| q < toks.len() && is_excess_close(toks, q) && e == Error::UnmatchedBracket(q as usize);
        assert(depth_at(toks, q + 1) < 0);
        if q < p {
            assert(never_negative(toks, p));
        } else if p < q {
            assert(never_negative(toks, q));
        }
    }
}

/// When no `]` is in excess, the leftmost `[` that is never closed is the one
/// reported.
pub proof fn lemma_unclosed_open_reported(toks: Seq<Token>, p: int)
    requires
        never_negative(toks, toks.len() as int),
        is_first_unclosed_open(toks, p),
        toks.len() <= isize::MAX,
    ensures
        compile(toks) == Err::<Seq<Instruction>, Error>(Error::UnmatchedBracket(p as usize)),
{
    let len = toks.len() as int;
    lemma_parse_prefix(toks, len);
    if let Err(e) = parse_upto(toks, len) {
        let q = choose|q: int| q < len && is_excess_close(toks, q) && e == Error::UnmatchedBracket(q as usize);
        assert(depth_at(toks, q + 1) < 0);
    }
    let s = parse_upto(toks, len)->Ok_0;
    assert(depth_at(toks, len) > depth_at(toks, p));
    assert(s.sites.len() > 0);
    let q0 = s.sites[0] as int;
    assert(sites_open(toks, s, len));
    assert(is_unclosed_open(toks, q0));
    if p < q0 {
        assert(depth_at(toks, q0) > depth_at(toks, p));
    }
}

/// The signed total of `n` run tokens `t`.
pub open spec fn run_total(t: Token, n: int) -> int {
    if t == Token::Left || t == Token::Dec {
        -n
    } else {
        n
    }
}

/// `n` consecutive equal move or arithmetic tokens fold into exactly one
/// instruction: the run's total is added to the last instruction when that has
/// the same kind, and otherwise it stands in one new instruction.
pub proof fn lemma_run_folds(toks: Seq<Token>, i: int, n: int)
    requires
        0 <= i,
        1 <= n,
        i + n <= toks.len() <= isize::MAX,
        is_run_token(toks[i]),
        forall|k: int| i <= k < i + n ==> toks[k] == toks[i],
        parse_upto(toks, i) is Ok,
    ensures
        parse_upto(toks, i + n) matches Ok(s2) && {
            let s = parse_upto(toks, i)->Ok_0;
            &&& s2.code == fold_code(s.code, toks[i], run_total(toks[i], n))
            &&& s2.stack == s.stack
            &&& s2.sites == s.sites
        },
    decreases n,
{
    let t = toks[i];
    let s = parse_upto(toks, i)->Ok_0;
    lemma_parse_prefix(toks, i);
    if n > 1 {
        lemma_run_folds(toks, i, n - 1);
        let s1 = parse_upto(toks, i + n - 1)->Ok_0;
        let c = s.code;
        if c.len() > 0 && run_of(c.last(), t) is Some {
            assert(magnitude_within(c[c.len() - 1], s.consumed));
        }
        let c1 = fold_code(c, t, run_total(t, n - 1));
        assert(c1.last() == c1[c1.len() - 1]);
        assert(fold_code(c1, t, unit_of(t)) =~= fold_code(c, t, run_total(t, n)));
    }
}

/// A sequence of `n` equal move or arithmetic tokens compiles to the single
/// instruction of magnitude `n` in their direction.
pub proof fn lemma_run_compiles(t: Token, n: int)
    requires
        is_run_token(t),
        1 <= n <= isize::MAX,
    ensures
        compile(Seq::new(n as nat, |k: int| t)) == Ok::<Seq<Instruction>, Error>(
            seq![run_instruction(t, run_total(t, n))],
        ),
{
    let toks = Seq::new(n as nat, |k: int| t);
    lemma_run_folds(toks, 0, n);
    assert(fold_code(Seq::empty(), t, run_total(t, n)) =~= seq![run_instruction(t, run_total(t, n))]);
}

} // verus!
