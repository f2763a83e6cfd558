use vstd::prelude::*;
use vstd::arithmetic::div_mod::lemma_add_mod_noop;
use vstd::arithmetic::div_mod::lemma_mod_bound;
use vstd::arithmetic::div_mod::lemma_mod_multiples_vanish;
use vstd::arithmetic::div_mod::lemma_small_mod;
use vstd::arithmetic::div_mod::lemma_sub_mod_noop;
use crate::ops::Op;
use crate::ops::SyntaxError;
use crate::ops::lemma_mod256_range;
use crate::parser::compile;
use crate::parser::compress;
use crate::parser::filter_commands;
use crate::parser::is_command;
use crate::parser::lemma_run_len;
use crate::parser::resolve_from;
use crate::parser::run_len;
use crate::machine::DEFAULT_MEMORY_SIZE;
use crate::machine::RunState;
use crate::machine::is_halted;
use crate::machine::lemma_steps_front;
use crate::machine::lemma_steps_halted;
use crate::machine::step_state;
use crate::machine::steps;

verus! {

/// Inserting a non-command character anywhere leaves the filtered source
/// unchanged.
proof fn lemma_filter_insert(s: Seq<char>, i: int, c: char)
    requires
        0 <= i <= s.len(),
        !is_command(c),
    ensures
        filter_commands(s.insert(i, c)) == filter_commands(s),
    decreases s.len(),
{
    let s2 = s.insert(i, c);
    if i == 0 {
        assert(s2[0] == c);
        assert(s2.skip(1) =~= s);
    } else {
        assert(s2[0] == s[0]);
        assert(s2.skip(1) =~= s.skip(1).insert(i - 1, c));
        lemma_filter_insert(s.skip(1), i - 1, c);
    }
}

/// Filtering makes compilation comment-tolerant: a source with an arbitrary
/// non-command character inserted anywhere compiles to exactly the same
/// instruction sequence (or fails with exactly the same error).
pub proof fn lemma_compile_insert_noncommand(s: Seq<char>, i: int, c: char)
    requires
        0 <= i <= s.len(),
        !is_command(c),
    ensures
        compile(s.insert(i, c)) == compile(s),
{
    lemma_filter_insert(s, i, c);
}

/// Two sources that filter to the same command stream compile identically.
pub proof fn lemma_compile_same_commands(s1: Seq<char>, s2: Seq<char>)
    requires
        filter_commands(s1) == filter_commands(s2),
    ensures
        compile(s1) == compile(s2),
{
}

/// How a stream of brackets, read left to right starting at nesting depth
/// `d`, comes out: balanced, a close too many, or an open never closed.
pub enum BracketStatus {
    Balanced,
    ExcessClose,
    ExcessOpen,
}

/// Bracket status of a source text at nesting depth `d`.
pub open spec fn source_status(s: Seq<char>, d: int) -> BracketStatus
    decreases s.len(),
{
    if s.len() == 0 {
        if d == 0 {
            BracketStatus::Balanced
        } else {
            BracketStatus::ExcessOpen
        }
    } else if s[0] == '[' {
        source_status(s.skip(1), d + 1)
    } else if s[0] == ']' {
        if d == 0 {
            BracketStatus::ExcessClose
        } else {
            source_status(s.skip(1), d - 1)
        }
    } else {
        source_status(s.skip(1), d)
    }
}

/// A source program has balanced brackets.
pub open spec fn balanced(s: Seq<char>) -> bool {
    source_status(s, 0) == BracketStatus::Balanced
}

/// Bracket status of an instruction sequence at nesting depth `d`.
pub open spec fn op_status(p: Seq<Op>, d: int) -> BracketStatus
    decreases p.len(),
{
    if p.len() == 0 {
        if d == 0 {
            BracketStatus::Balanced
        } else {
            BracketStatus::ExcessOpen
        }
    } else if p[0] is OpenLoop {
        op_status(p.skip(1), d + 1)
    } else if p[0] is CloseLoop {
        if d == 0 {
            BracketStatus::ExcessClose
        } else {
            op_status(p.skip(1), d - 1)
        }
    } else {
        op_status(p.skip(1), d)
    }
}

/// Filtering keeps every bracket, so it keeps the bracket status.
proof fn lemma_filter_status(s: Seq<char>, d: int)
    ensures
        source_status(filter_commands(s), d) == source_status(s, d),
    decreases s.len(),
{
    if s.len() > 0 {
        if is_command(s[0]) {
            assert(filter_commands(s)[0] == s[0]);
            assert(filter_commands(s).skip(1) =~= filter_commands(s.skip(1)));
            if s[0] == '[' {
                lemma_filter_status(s.skip(1), d + 1);
            } else if s[0] == ']' {
                if d != 0 {
                    lemma_filter_status(s.skip(1), d - 1);
                }
            } else {
                lemma_filter_status(s.skip(1), d);
            }
        } else {
            lemma_filter_status(s.skip(1), d);
        }
    }
}

/// Skipping a prefix without brackets keeps the bracket status.
proof fn lemma_status_skip_nonbracket(s: Seq<char>, k: int, d: int)
    requires
        0 <= k <= s.len(),
        forall|t: int| 0 <= t < k ==> #[trigger] s[t] != '[' && s[t] != ']',
    ensures
        source_status(s.skip(k), d) == source_status(s, d),
    decreases k,
{
    if k > 0 {
        let s1 = s.skip(1);
        assert(s[0] != '[' && s[0] != ']');
        assert forall|t: int| 0 <= t < k - 1 implies #[trigger] s1[t] != '[' && s1[t] != ']' by {
            assert(s1[t] == s[t + 1]);
        }
        lemma_status_skip_nonbracket(s1, k - 1, d);
        assert(s1.skip(k - 1) =~= s.skip(k));
    } else {
        assert(s.skip(0) =~= s);
    }
}

/// Run-length fusion and idiom folding keep the bracket status: fused moves
/// and cell updates carry no brackets, and `[-]` folds a matched pair away.
proof fn lemma_compress_status(s: Seq<char>, d: int)
    requires
        d >= 0,
    ensures
        op_status(compress(s), d) == source_status(s, d),
    decreases s.len(),
{
    if s.len() > 0 {
        let c = s[0];
        let k = run_len(s) as int;
        if c == '>' || c == '<' || c == '+' || c == '-' {
            lemma_run_len(s);
            assert forall|t: int| 0 <= t < k implies #[trigger] s[t] != '[' && s[t] != ']' by {
                assert(s[t] == s[0]);
            }
            lemma_status_skip_nonbracket(s, k, d);
            assert(compress(s).skip(1) =~= compress(s.skip(k)));
            lemma_compress_status(s.skip(k), d);
        } else if c == '.' || c == ',' {
            assert(compress(s).skip(1) =~= compress(s.skip(1)));
            lemma_compress_status(s.skip(1), d);
        } else if c == '[' {
            if s.len() >= 3 && s[1] == '-' && s[2] == ']' {
                assert(compress(s).skip(1) =~= compress(s.skip(3)));
                lemma_compress_status(s.skip(3), d);
                // the source side reads `[`, `-`, `]` and is back at depth d
                assert(s.skip(1)[0] == s[1]);
                assert(s.skip(1).skip(1) =~= s.skip(2));
                assert(s.skip(2)[0] == s[2]);
                assert(s.skip(2).skip(1) =~= s.skip(3));
                assert(source_status(s, d) == source_status(s.skip(1), d + 1));
                assert(source_status(s.skip(1), d + 1) == source_status(s.skip(2), d + 1));
                assert(source_status(s.skip(2), d + 1) == source_status(s.skip(3), d));
            } else {
                assert(compress(s).skip(1) =~= compress(s.skip(1)));
                lemma_compress_status(s.skip(1), d + 1);
            }
        } else if c == ']' {
            if d != 0 {
                assert(compress(s).skip(1) =~= compress(s.skip(1)));
                lemma_compress_status(s.skip(1), d - 1);
            } else {
                assert(compress(s)[0] is CloseLoop);
            }
        } else {
            lemma_compress_status(s.skip(1), d);
        }
    }
}

/// Loop resolution succeeds exactly on balanced bracket streams; an excess
/// close and an excess open each yield their own error.
proof fn lemma_resolve_status(p: Seq<Op>, i: int, stack: Seq<int>)
    requires
        0 <= i <= p.len(),
        forall|k: int| 0 <= k < stack.len() ==> 0 <= #[trigger] stack[k] < i,
    ensures
        ({
            let r = resolve_from(p, i, stack);
            let st = op_status(p.skip(i), stack.len() as int);
            &&& (r is Ok <==> st == BracketStatus::Balanced)
            &&& (r == Err::<Seq<Op>, SyntaxError>(SyntaxError::UnexpectedCloseLoop) <==> st
                == BracketStatus::ExcessClose)
            &&& (r == Err::<Seq<Op>, SyntaxError>(SyntaxError::UnterminatedLoop) <==> st
                == BracketStatus::ExcessOpen)
        }),
    decreases p.len() - i,
{
    if i == p.len() {
        assert(p.skip(i) =~= Seq::<Op>::empty());
    } else {
        assert(p.skip(i)[0] == p[i]);
        assert(p.skip(i).skip(1) =~= p.skip(i + 1));
        match p[i] {
            Op::OpenLoop(_) => {
                lemma_resolve_status(p, i + 1, stack.push(i));
            }
            Op::CloseLoop(_) => {
                if stack.len() > 0 {
                    let g = stack.last();
                    let q = p.update(g, Op::OpenLoop(i as usize)).update(
                        i,
                        Op::CloseLoop(g as usize),
                    );
                    assert(q.skip(i + 1) =~= p.skip(i + 1));
                    lemma_resolve_status(q, i + 1, stack.drop_last());
                }
            }
            _ => {
                lemma_resolve_status(p, i + 1, stack);
            }
        }
    }
}

/// A program with balanced brackets compiles successfully.
pub proof fn lemma_compile_balanced_ok(s: Seq<char>)
    requires
        balanced(s),
    ensures
        compile(s) is Ok,
{
    lemma_compile_status(s);
}

/// A program with an excess `]` fails with `UnexpectedCloseLoop`.
pub proof fn lemma_compile_excess_close(s: Seq<char>)
    requires
        source_status(s, 0) == BracketStatus::ExcessClose,
    ensures
        compile(s) == Err::<Seq<Op>, SyntaxError>(SyntaxError::UnexpectedCloseLoop),
{
    lemma_compile_status(s);
}

/// A program with an excess `[` fails with `UnterminatedLoop`.
pub proof fn lemma_compile_excess_open(s: Seq<char>)
    requires
        source_status(s, 0) == BracketStatus::ExcessOpen,
    ensures
        compile(s) == Err::<Seq<Op>, SyntaxError>(SyntaxError::UnterminatedLoop),
{
    lemma_compile_status(s);
}

/// Compilation succeeds or fails exactly as the source's bracket status
/// says, with the matching error in each failing case.
pub proof fn lemma_compile_status(s: Seq<char>)
    ensures
        compile(s) is Ok <==> balanced(s),
        compile(s) == Err::<Seq<Op>, SyntaxError>(SyntaxError::UnexpectedCloseLoop) <==> source_status(
            s,
            0,
        ) == BracketStatus::ExcessClose,
        compile(s) == Err::<Seq<Op>, SyntaxError>(SyntaxError::UnterminatedLoop) <==> source_status(
            s,
            0,
        ) == BracketStatus::ExcessOpen,
{
    let cp = compress(filter_commands(s));
    lemma_filter_status(s, 0);
    lemma_compress_status(filter_commands(s), 0);
    lemma_resolve_status(cp, 0, Seq::empty());
    assert(cp.skip(0) =~= cp);
}

/// Net bracket depth of `p` over the half-open range `[lo, hi)`: opens
/// count one up, closes one down.
pub open spec fn depth(p: Seq<Op>, lo: int, hi: int) -> int
    decreases hi - lo,
{
    if lo >= hi {
        0
    } else {
        depth(p, lo, hi - 1) + (if p[hi - 1] is OpenLoop {
            1
        } else if p[hi - 1] is CloseLoop {
            -1
        } else {
            0
        })
    }
}

/// `t` is the syntactic match of the open bracket at `i`: the first close
/// after `i` back at the same nesting depth.
pub open spec fn match_at(p: Seq<Op>, i: int, t: int) -> bool {
    &&& 0 <= i < t < p.len()
    &&& p[i] is OpenLoop
    &&& p[t] is CloseLoop
    &&& depth(p, i + 1, t) == 0
    &&& forall|j: int| i + 1 <= j <= t ==> #[trigger] depth(p, i + 1, j) >= 0
}

/// Every `OpenLoop`'s target is the index of the `CloseLoop` that is its
/// syntactic match, and vice versa.
pub open spec fn loops_resolved(p: Seq<Op>) -> bool {
    &&& forall|i: int|
        0 <= i < p.len() && #[trigger] p[i] is OpenLoop ==> {
            let t = p[i]->OpenLoop_0 as int;
            match_at(p, i, t) && p[t] == Op::CloseLoop(i as usize)
        }
    &&& forall|i: int|
        0 <= i < p.len() && #[trigger] p[i] is CloseLoop ==> {
            let g = p[i]->CloseLoop_0 as int;
            match_at(p, g, i) && p[g] == Op::OpenLoop(i as usize)
        }
}

/// Depth adds up over adjacent ranges.
proof fn lemma_depth_split(p: Seq<Op>, lo: int, mid: int, hi: int)
    requires
        lo <= mid <= hi,
    ensures
        depth(p, lo, hi) == depth(p, lo, mid) + depth(p, mid, hi),
    decreases hi - mid,
{
    if mid < hi {
        lemma_depth_split(p, lo, mid, hi - 1);
    }
}

/// Replacing an instruction with one of the same bracket kind keeps every
/// depth.
proof fn lemma_depth_update(p: Seq<Op>, x: int, op: Op, lo: int, hi: int)
    requires
        0 <= x < p.len(),
        0 <= lo,
        hi <= p.len(),
        p[x] is OpenLoop <==> op is OpenLoop,
        p[x] is CloseLoop <==> op is CloseLoop,
    ensures
        depth(p.update(x, op), lo, hi) == depth(p, lo, hi),
    decreases hi - lo,
{
    if lo < hi {
        lemma_depth_update(p, x, op, lo, hi - 1);
    }
}

/// What holds of the loop-resolution walk at position `i` with the given
/// stack of still-open brackets: the stack lists the unmatched opens in
/// order, depth agrees with the stack, every close already passed is fully
/// resolved to its syntactic match, and every open already passed is either
/// still on the stack or resolved.
spec fn resolve_inv(p: Seq<Op>, i: int, stack: Seq<int>) -> bool {
    &&& 0 <= i <= p.len()
    &&& p.len() <= usize::MAX
    &&& (forall|k: int|
        0 <= k < stack.len() ==> 0 <= #[trigger] stack[k] < i && p[stack[k]] is OpenLoop)
    &&& (forall|k1: int, k2: int|
        0 <= k1 < k2 < stack.len() ==> #[trigger] stack[k1] < #[trigger] stack[k2])
    &&& (forall|k: int| 0 <= k < stack.len() ==> depth(p, 0, #[trigger] stack[k]) == k)
    &&& depth(p, 0, i) == stack.len()
    &&& (forall|k: int, j: int|
        0 <= k < stack.len() && #[trigger] stack[k] < j <= i ==> #[trigger] depth(p, 0, j) >= k
            + 1)
    &&& (forall|j: int| 0 <= j < i && #[trigger] p[j] is CloseLoop ==> closed_ok(p, j, stack))
    &&& (forall|j: int|
        0 <= j < i && #[trigger] p[j] is OpenLoop && !stack.contains(j) ==> (exists|j2: int|
            j < j2 < i && p[j2] == Op::CloseLoop(j as usize)))
}

/// A close already passed points back at an open that points at it, the two
/// are a syntactic match, and that open is no longer on the stack.
spec fn closed_ok(p: Seq<Op>, j: int, stack: Seq<int>) -> bool {
    let g = p[j]->CloseLoop_0 as int;
    &&& match_at(p, g, j)
    &&& p[g] == Op::OpenLoop(j as usize)
    &&& !stack.contains(g)
}

/// Loop resolution only ever returns instruction sequences whose loop
/// targets pair up syntactic partners.
proof fn lemma_resolve_matched(p: Seq<Op>, i: int, stack: Seq<int>)
    requires
        resolve_inv(p, i, stack),
    ensures
        resolve_from(p, i, stack) matches Ok(q) ==> loops_resolved(q),
    decreases p.len() - i,
{
    if i == p.len() {
        if stack.len() == 0 {
            assert forall|j: int|
                0 <= j < p.len() && #[trigger] p[j] is OpenLoop implies {
                let t = p[j]->OpenLoop_0 as int;
                match_at(p, j, t) && p[t] == Op::CloseLoop(j as usize)
            } by {
                assert(!stack.contains(j));
                assert(exists|j2: int| j < j2 < i && p[j2] == Op::CloseLoop(j as usize));
                let j2 = choose|j2: int| j < j2 < i && p[j2] == Op::CloseLoop(j as usize);
                assert(p[j2] is CloseLoop);
                assert(closed_ok(p, j2, stack));
                assert(p[j2]->CloseLoop_0 as int == j);
                assert(p[j] == Op::OpenLoop(j2 as usize));
                assert(p[j]->OpenLoop_0 as int == j2);
            }
        }
    } else {
        match p[i] {
            Op::OpenLoop(_) => {
                let st2 = stack.push(i);
                assert forall|j: int|
                    0 <= j < i + 1 && #[trigger] p[j] is CloseLoop implies closed_ok(
                    p,
                    j,
                    st2,
                ) by {
                    assert(closed_ok(p, j, stack));
                    let g = p[j]->CloseLoop_0 as int;
                    assert(g < j < i);
                    assert forall|k: int| 0 <= k < st2.len() implies st2[k] != g by {
                        if k < stack.len() {
                            assert(!stack.contains(g));
                        }
                    }
                }
                assert forall|j: int|
                    0 <= j < i + 1 && #[trigger] p[j] is OpenLoop && !st2.contains(j) implies (
                exists|j2: int| j < j2 < i + 1 && p[j2] == Op::CloseLoop(j as usize)) by {
                    assert(st2[st2.len() - 1] == i);
                    assert(j != i);
                    if stack.contains(j) {
                        let k = choose|k: int| 0 <= k < stack.len() && stack[k] == j;
                        assert(st2[k] == j);
                    }
                    let j2 = choose|j2: int| j < j2 < i && p[j2] == Op::CloseLoop(j as usize);
                    assert(j < j2 < i + 1 && p[j2] == Op::CloseLoop(j as usize));
                }
                assert(resolve_inv(p, i + 1, st2));
                lemma_resolve_matched(p, i + 1, st2);
            }
            Op::CloseLoop(_) => {
                if stack.len() > 0 {
                    let m = stack.len() - 1;
                    let g = stack.last();
                    assert(0 <= g < i && p[g] is OpenLoop);
                    let q = p.update(g, Op::OpenLoop(i as usize)).update(
                        i,
                        Op::CloseLoop(g as usize),
                    );
                    let st2 = stack.drop_last();
                    assert forall|lo: int, hi: int|
                        0 <= lo && hi <= p.len() implies #[trigger] depth(q, lo, hi) == depth(
                        p,
                        lo,
                        hi,
                    ) by {
                        lemma_depth_update(p, g, Op::OpenLoop(i as usize), lo, hi);
                        lemma_depth_update(
                            p.update(g, Op::OpenLoop(i as usize)),
                            i,
                            Op::CloseLoop(g as usize),
                            lo,
                            hi,
                        );
                    }
                    // stack elements below the top are untouched opens
                    assert forall|k: int| 0 <= k < st2.len() implies 0 <= #[trigger] st2[k] < i + 1
                        && q[st2[k]] is OpenLoop && depth(q, 0, st2[k]) == k by {
                        assert(stack[k] < stack[m]);
                        assert(q[st2[k]] == p[stack[k]]);
                    }
                    // the new pair is a syntactic match
                    assert(depth(p, 0, g) == m);
                    assert(depth(p, 0, g + 1) == m + 1);
                    lemma_depth_split(p, 0, g + 1, i);
                    assert(depth(q, g + 1, i) == 0);
                    assert forall|t: int| g + 1 <= t <= i implies #[trigger] depth(q, g + 1, t)
                        >= 0 by {
                        if t > g {
                            assert(depth(p, 0, t) >= m + 1);
                        }
                        lemma_depth_split(p, 0, g + 1, t);
                    }
                    assert(match_at(q, g, i));
                    assert(q[g] == Op::OpenLoop(i as usize));
                    // g is off the stack now: everything left is smaller
                    assert forall|k: int| 0 <= k < st2.len() implies st2[k] != g by {
                        assert(stack[k] < stack[m]);
                    }
                    assert(!st2.contains(g));
                    // old closes stay resolved in q
                    assert forall|j: int|
                        0 <= j < i + 1 && #[trigger] q[j] is CloseLoop implies closed_ok(
                        q,
                        j,
                        st2,
                    ) by {
                        if j == i {
                            assert(q[i]->CloseLoop_0 as int == g);
                        } else {
                            assert(q[j] == p[j]);
                            assert(closed_ok(p, j, stack));
                            let gj = p[j]->CloseLoop_0 as int;
                            assert(!stack.contains(gj));
                            assert(stack[m] == g);
                            assert(gj != g);
                            assert(gj != i);
                            assert(q[gj] == p[gj]);
                            assert forall|k: int| 0 <= k < st2.len() implies st2[k] != gj by {
                                assert(!stack.contains(gj));
                                assert(st2[k] == stack[k]);
                            }
                            assert(match_at(q, gj, j));
                        }
                    }
                    // old opens are still on the stack or resolved; g is now
                    // resolved by the close at i
                    assert forall|j: int|
                        0 <= j < i + 1 && #[trigger] q[j] is OpenLoop && !st2.contains(j) implies (
                    exists|j2: int| j < j2 < i + 1 && q[j2] == Op::CloseLoop(j as usize)) by {
                        if j == g {
                            assert(q[i] == Op::CloseLoop(g as usize));
                            assert(g < i < i + 1 && q[i] == Op::CloseLoop(j as usize));
                        } else {
                            assert(j != i);
                            assert(q[j] == p[j]);
                            if stack.contains(j) {
                                let k = choose|k: int| 0 <= k < stack.len() && stack[k] == j;
                                assert(k != m);
                                assert(st2[k] == j);
                            }
                            let j2 = choose|j2: int|
                                j < j2 < i && p[j2] == Op::CloseLoop(j as usize);
                            assert(j2 != g);
                            assert(j2 != i);
                            assert(q[j2] == p[j2]);
                            assert(j < j2 < i + 1 && q[j2] == Op::CloseLoop(j as usize));
                        }
                    }
                    assert(resolve_inv(q, i + 1, st2));
                    lemma_resolve_matched(q, i + 1, st2);
                }
            }
            _ => {
                assert forall|j: int|
                    0 <= j < i + 1 && #[trigger] p[j] is CloseLoop implies closed_ok(
                    p,
                    j,
                    stack,
                ) by {
                    assert(j < i);
                }
                assert forall|j: int|
                    0 <= j < i + 1 && #[trigger] p[j] is OpenLoop && !stack.contains(j) implies (
                exists|j2: int| j < j2 < i + 1 && p[j2] == Op::CloseLoop(j as usize)) by {
                    assert(j < i);
                    let j2 = choose|j2: int| j < j2 < i && p[j2] == Op::CloseLoop(j as usize);
                    assert(j < j2 < i + 1 && p[j2] == Op::CloseLoop(j as usize));
                }
                assert(resolve_inv(p, i + 1, stack));
                lemma_resolve_matched(p, i + 1, stack);
            }
        }
    }
}

/// Filtering never lengthens the source.
proof fn lemma_filter_len(s: Seq<char>)
    ensures
        filter_commands(s).len() <= s.len(),
    decreases s.len(),
{
    if s.len() > 0 {
        lemma_filter_len(s.skip(1));
    }
}

/// Fusion and folding never lengthen the instruction stream.
proof fn lemma_compress_len(s: Seq<char>)
    ensures
        compress(s).len() <= s.len(),
    decreases s.len(),
{
    if s.len() > 0 {
        let c = s[0];
        let k = run_len(s) as int;
        if c == '>' || c == '<' || c == '+' || c == '-' {
            lemma_run_len(s);
            lemma_compress_len(s.skip(k));
        } else if c == '[' && s.len() >= 3 && s[1] == '-' && s[2] == ']' {
            lemma_compress_len(s.skip(3));
        } else {
            lemma_compress_len(s.skip(1));
        }
    }
}

/// A program with balanced brackets compiles successfully, and in the
/// compiled sequence every `OpenLoop`'s target is the index of its matching
/// `CloseLoop` and vice versa.
pub proof fn lemma_compile_balanced(s: Seq<char>)
    requires
        balanced(s),
        s.len() <= usize::MAX,
    ensures
        compile(s) is Ok,
        loops_resolved(compile(s)->Ok_0),
{
    lemma_compile_status(s);
    let cp = compress(filter_commands(s));
    lemma_filter_len(s);
    lemma_compress_len(filter_commands(s));
    assert(!Seq::<int>::empty().contains(0));
    assert(resolve_inv(cp, 0, Seq::empty()));
    lemma_resolve_matched(cp, 0, Seq::empty());
}

/// The compiler never emits a sequence with unresolved or dangling targets:
/// whatever compiles successfully satisfies `loops_resolved`.
pub proof fn lemma_compile_resolved(s: Seq<char>)
    requires
        s.len() <= usize::MAX,
        compile(s) is Ok,
    ensures
        loops_resolved(compile(s)->Ok_0),
{
    lemma_compile_status(s);
    lemma_compile_balanced(s);
}

/// After `k` unit `Add(1)` instructions the current cell holds the starting
/// value plus `k`, modulo 256, and nothing else has changed.
proof fn lemma_unit_adds(p: Seq<Op>, s: RunState, k: nat)
    requires
        0 <= s.mp < s.mem.len(),
        s.ip == 0,
        k <= p.len(),
        forall|t: int| 0 <= t < p.len() ==> p[t] == Op::Add(1u8),
    ensures
        steps(p, s, k) == (RunState {
            mem: s.mem.update(s.mp, ((s.mem[s.mp] + k) % 256) as u8),
            mp: s.mp,
            ip: k as int,
            inp: s.inp,
            outp: s.outp,
        }),
    decreases k,
{
    let v = s.mem[s.mp];
    if k == 0 {
        lemma_small_mod(v as nat, 256);
        assert(s.mem.update(s.mp, ((v + 0) % 256) as u8) =~= s.mem);
    } else {
        lemma_unit_adds(p, s, (k - 1) as nat);
        let r1 = steps(p, s, (k - 1) as nat);
        assert(r1.mem[s.mp] == ((v + (k - 1)) % 256) as u8);
        lemma_mod_bound(v + k - 1, 256);
        crate::ops::lemma_mod256_inc(v + k - 1);
        assert(s.mem.update(s.mp, ((v + (k - 1)) % 256) as u8).update(
            s.mp,
            ((v + k) % 256) as u8,
        ) =~= s.mem.update(s.mp, ((v + k) % 256) as u8));
    }
}

/// Run-length fusion is sound for `+`: one `Add(n mod 256)` leaves the same
/// memory, cursor and streams as `n` consecutive `Add(1)` instructions, and
/// both runs halt.
pub proof fn lemma_add_fusion(s: RunState, n: nat)
    requires
        0 <= s.mp < s.mem.len(),
        s.ip == 0,
        n >= 1,
    ensures
        ({
            let fused = steps(seq![Op::Add((n % 256) as u8)], s, 1);
            let unit = steps(Seq::new(n, |t: int| Op::Add(1u8)), s, n);
            &&& unit.mem == fused.mem
            &&& unit.mp == fused.mp
            &&& unit.inp == fused.inp
            &&& unit.outp == fused.outp
            &&& is_halted(seq![Op::Add((n % 256) as u8)], fused)
            &&& is_halted(Seq::new(n, |t: int| Op::Add(1u8)), unit)
        }),
{
    let v = s.mem[s.mp];
    let pf = seq![Op::Add((n % 256) as u8)];
    let pu = Seq::new(n, |t: int| Op::Add(1u8));
    lemma_unit_adds(pu, s, n);
    lemma_mod_bound(n as int, 256);
    lemma_add_mod_noop(v as int, n as int, 256);
    lemma_small_mod(v as nat, 256);
    assert(((v + n % 256) % 256) == (v + n) % 256);
    assert(steps(pf, s, 0) == s);
    assert(steps(pf, s, 1) == step_state(pf, s));
}

/// After `k` unit `Sub(1)` instructions the current cell holds the starting
/// value minus `k`, modulo 256, and nothing else has changed.
proof fn lemma_unit_subs(p: Seq<Op>, s: RunState, k: nat)
    requires
        0 <= s.mp < s.mem.len(),
        s.ip == 0,
        k <= p.len(),
        forall|t: int| 0 <= t < p.len() ==> p[t] == Op::Sub(1u8),
    ensures
        steps(p, s, k) == (RunState {
            mem: s.mem.update(s.mp, ((s.mem[s.mp] - k) % 256) as u8),
            mp: s.mp,
            ip: k as int,
            inp: s.inp,
            outp: s.outp,
        }),
    decreases k,
{
    let v = s.mem[s.mp];
    if k == 0 {
        lemma_small_mod(v as nat, 256);
        assert(s.mem.update(s.mp, ((v - 0) % 256) as u8) =~= s.mem);
    } else {
        lemma_unit_subs(p, s, (k - 1) as nat);
        let c = (v - (k - 1)) % 256;
        lemma_mod_bound(v - (k - 1), 256);
        // one more Sub(1): (c + 256 - 1) % 256 == (v - k) % 256
        lemma_mod_multiples_vanish(1, c - 1, 256);
        assert((c + 255) % 256 == (c - 1) % 256);
        lemma_small_mod(c as nat, 256);
        lemma_small_mod(1, 256);
        lemma_sub_mod_noop(v - (k - 1), 1, 256);
        assert((c - 1) % 256 == (v - k) % 256);
        assert(s.mem.update(s.mp, c as u8).update(s.mp, ((v - k) % 256) as u8) =~= s.mem.update(
            s.mp,
            ((v - k) % 256) as u8,
        ));
    }
}

/// Run-length fusion is sound for `-`: one `Sub(n mod 256)` leaves the same
/// memory, cursor and streams as `n` consecutive `Sub(1)` instructions.
pub proof fn lemma_sub_fusion(s: RunState, n: nat)
    requires
        0 <= s.mp < s.mem.len(),
        s.ip == 0,
        n >= 1,
    ensures
        ({
            let fused = steps(seq![Op::Sub((n % 256) as u8)], s, 1);
            let unit = steps(Seq::new(n, |t: int| Op::Sub(1u8)), s, n);
            &&& unit.mem == fused.mem
            &&& unit.mp == fused.mp
            &&& unit.inp == fused.inp
            &&& unit.outp == fused.outp
            &&& is_halted(seq![Op::Sub((n % 256) as u8)], fused)
            &&& is_halted(Seq::new(n, |t: int| Op::Sub(1u8)), unit)
        }),
{
    let v = s.mem[s.mp];
    let pf = seq![Op::Sub((n % 256) as u8)];
    let pu = Seq::new(n, |t: int| Op::Sub(1u8));
    lemma_unit_subs(pu, s, n);
    lemma_mod_bound(n as int, 256);
    // fused cell: (v + 256 - n % 256) % 256 == (v - n) % 256
    lemma_mod_multiples_vanish(1, v - n % 256, 256);
    assert((v + 256 - n % 256) % 256 == (v - n % 256) % 256);
    lemma_small_mod(v as nat, 256);
    lemma_sub_mod_noop(v as int, n as int, 256);
    assert((v - n % 256) % 256 == (v - n) % 256);
    assert(steps(pf, s, 0) == s);
    assert(steps(pf, s, 1) == step_state(pf, s));
}

/// After `k` unit `MoveRight(1)` instructions the cursor has advanced by
/// `k`, modulo the memory size, and nothing else has changed.
proof fn lemma_unit_rights(p: Seq<Op>, s: RunState, k: nat)
    requires
        0 <= s.mp < DEFAULT_MEMORY_SIZE,
        s.ip == 0,
        k <= p.len(),
        forall|t: int| 0 <= t < p.len() ==> p[t] == Op::MoveRight(1usize),
    ensures
        steps(p, s, k) == (RunState {
            mem: s.mem,
            mp: (s.mp + k) % (DEFAULT_MEMORY_SIZE as int),
            ip: k as int,
            inp: s.inp,
            outp: s.outp,
        }),
    decreases k,
{
    let m = DEFAULT_MEMORY_SIZE as int;
    if k == 0 {
        lemma_small_mod(s.mp as nat, DEFAULT_MEMORY_SIZE as nat);
    } else {
        lemma_unit_rights(p, s, (k - 1) as nat);
        let c = (s.mp + (k - 1)) % m;
        lemma_mod_bound(s.mp + (k - 1), m);
        lemma_small_mod(1, DEFAULT_MEMORY_SIZE as nat);
        lemma_small_mod(c as nat, DEFAULT_MEMORY_SIZE as nat);
        lemma_add_mod_noop(s.mp + (k - 1), 1, m);
        assert((c + 1int % m) % m == (s.mp + k) % m);
    }
}

/// Run-length fusion is sound for `>`: one `MoveRight(n)` leaves the same
/// cursor position as `n` consecutive `MoveRight(1)` instructions.
pub proof fn lemma_move_right_fusion(s: RunState, n: nat)
    requires
        0 <= s.mp < DEFAULT_MEMORY_SIZE,
        s.ip == 0,
        1 <= n <= usize::MAX,
    ensures
        ({
            let fused = steps(seq![Op::MoveRight(n as usize)], s, 1);
            let unit = steps(Seq::new(n, |t: int| Op::MoveRight(1usize)), s, n);
            &&& unit.mem == fused.mem
            &&& unit.mp == fused.mp
            &&& unit.inp == fused.inp
            &&& unit.outp == fused.outp
            &&& is_halted(seq![Op::MoveRight(n as usize)], fused)
            &&& is_halted(Seq::new(n, |t: int| Op::MoveRight(1usize)), unit)
        }),
{
    let m = DEFAULT_MEMORY_SIZE as int;
    let pf = seq![Op::MoveRight(n as usize)];
    let pu = Seq::new(n, |t: int| Op::MoveRight(1usize));
    lemma_unit_rights(pu, s, n);
    lemma_mod_bound(n as int, m);
    lemma_small_mod(s.mp as nat, DEFAULT_MEMORY_SIZE as nat);
    lemma_add_mod_noop(s.mp as int, n as int, m);
    assert((s.mp + (n as int) % m) % m == (s.mp + n) % m);
    assert(steps(pf, s, 0) == s);
    assert(steps(pf, s, 1) == step_state(pf, s));
}

/// After `k` unit `MoveLeft(1)` instructions the cursor has moved back by
/// `k`, modulo the memory size, and nothing else has changed.
proof fn lemma_unit_lefts(p: Seq<Op>, s: RunState, k: nat)
    requires
        0 <= s.mp < DEFAULT_MEMORY_SIZE,
        s.ip == 0,
        k <= p.len(),
        forall|t: int| 0 <= t < p.len() ==> p[t] == Op::MoveLeft(1usize),
    ensures
        steps(p, s, k) == (RunState {
            mem: s.mem,
            mp: (s.mp - k) % (DEFAULT_MEMORY_SIZE as int),
            ip: k as int,
            inp: s.inp,
            outp: s.outp,
        }),
    decreases k,
{
    let m = DEFAULT_MEMORY_SIZE as int;
    if k == 0 {
        lemma_small_mod(s.mp as nat, DEFAULT_MEMORY_SIZE as nat);
    } else {
        lemma_unit_lefts(p, s, (k - 1) as nat);
        let c = (s.mp - (k - 1)) % m;
        lemma_mod_bound(s.mp - (k - 1), m);
        lemma_small_mod(1, DEFAULT_MEMORY_SIZE as nat);
        // (c + m - 1) % m == (c - 1) % m == (mp - k) % m
        lemma_mod_multiples_vanish(1, c - 1, m);
        assert((c + m - 1int % m) % m == (c - 1) % m);
        lemma_small_mod(c as nat, DEFAULT_MEMORY_SIZE as nat);
        lemma_sub_mod_noop(s.mp - (k - 1), 1, m);
        assert((c - 1) % m == (s.mp - k) % m);
    }
}

/// Run-length fusion is sound for `<`: one `MoveLeft(n)` leaves the same
/// cursor position as `n` consecutive `MoveLeft(1)` instructions.
pub proof fn lemma_move_left_fusion(s: RunState, n: nat)
    requires
        0 <= s.mp < DEFAULT_MEMORY_SIZE,
        s.ip == 0,
        1 <= n <= usize::MAX,
    ensures
        ({
            let fused = steps(seq![Op::MoveLeft(n as usize)], s, 1);
            let unit = steps(Seq::new(n, |t: int| Op::MoveLeft(1usize)), s, n);
            &&& unit.mem == fused.mem
            &&& unit.mp == fused.mp
            &&& unit.inp == fused.inp
            &&& unit.outp == fused.outp
            &&& is_halted(seq![Op::MoveLeft(n as usize)], fused)
            &&& is_halted(Seq::new(n, |t: int| Op::MoveLeft(1usize)), unit)
        }),
{
    let m = DEFAULT_MEMORY_SIZE as int;
    let pf = seq![Op::MoveLeft(n as usize)];
    let pu = Seq::new(n, |t: int| Op::MoveLeft(1usize));
    lemma_unit_lefts(pu, s, n);
    lemma_mod_bound(n as int, m);
    // (mp + m - n % m) % m == (mp - n % m) % m == (mp - n) % m
    lemma_mod_multiples_vanish(1, s.mp - (n as int) % m, m);
    assert((s.mp + m - (n as int) % m) % m == (s.mp - (n as int) % m) % m);
    lemma_small_mod(s.mp as nat, DEFAULT_MEMORY_SIZE as nat);
    lemma_sub_mod_noop(s.mp as int, n as int, m);
    assert((s.mp - (n as int) % m) % m == (s.mp - n) % m);
    assert(steps(pf, s, 0) == s);
    assert(steps(pf, s, 1) == step_state(pf, s));
}

/// The generic compiled form of the loop `[-]` zeroes the current cell and
/// halts, leaving cursor, all other cells and both streams untouched.
#[verifier::rlimit(50)]
#[verifier::spinoff_prover]
proof fn lemma_clear_loop(s: RunState, v: u8)
    requires
        0 <= s.mp < s.mem.len(),
        s.ip == 0,
        s.mem[s.mp] == v,
    ensures
        steps(seq![Op::OpenLoop(2), Op::Sub(1), Op::CloseLoop(0)], s, 3 * (v as nat) + 3)
            == (RunState {
            mem: s.mem.update(s.mp, 0),
            mp: s.mp,
            ip: 3,
            inp: s.inp,
            outp: s.outp,
        }),
    decreases v,
{
    let p = seq![Op::OpenLoop(2), Op::Sub(1), Op::CloseLoop(0)];
    let n = 3 * (v as nat) + 3;
    let s1 = step_state(p, s);
    lemma_steps_front(p, s, n);
    if v == 0 {
        // skip the loop, run the close, halt
        assert(s1.ip == 2);
        let s2 = step_state(p, s1);
        assert(s2.ip == 3);
        lemma_steps_front(p, s1, (n - 1) as nat);
        lemma_steps_halted(p, s2, (n - 2) as nat);
        assert(s.mem.update(s.mp, 0) =~= s.mem);
    } else {
        // enter the loop, decrement, and jump back or fall out
        assert(s1.ip == 1);
        let s2 = step_state(p, s1);
        lemma_mod256_range(v + 255);
        assert(s2.mem == s.mem.update(s.mp, (v - 1) as u8));
        assert(s2.ip == 2);
        let s3 = step_state(p, s2);
        lemma_steps_front(p, s1, (n - 1) as nat);
        lemma_steps_front(p, s2, (n - 2) as nat);
        if v == 1 {
            assert(s3.ip == 3);
            lemma_steps_halted(p, s3, (n - 3) as nat);
        } else {
            assert(s3.ip == 0);
            lemma_clear_loop(s3, (v - 1) as u8);
            assert(s3.mem.update(s3.mp, 0) =~= s.mem.update(s.mp, 0));
            assert((n - 3) as nat == 3 * ((v - 1) as nat) + 3);
        }
    }
}

/// Folding `[-]` into `Clear` is sound: from any starting state, the folded
/// instruction and the generic loop both zero the current cell, halt, and
/// leave the cursor, every other cell and both streams unchanged.
pub proof fn lemma_clear_equiv(s: RunState)
    requires
        0 <= s.mp < s.mem.len(),
        s.ip == 0,
    ensures
        ({
            let generic = seq![Op::OpenLoop(2), Op::Sub(1), Op::CloseLoop(0)];
            let folded = seq![Op::Clear];
            let a = steps(folded, s, 1);
            let b = steps(generic, s, 3 * (s.mem[s.mp] as nat) + 3);
            &&& a.mem == s.mem.update(s.mp, 0)
            &&& b.mem == s.mem.update(s.mp, 0)
            &&& a.mp == s.mp && b.mp == s.mp
            &&& a.inp == s.inp && b.inp == s.inp
            &&& a.outp == s.outp && b.outp == s.outp
            &&& is_halted(folded, a)
            &&& is_halted(generic, b)
        }),
{
    let folded = seq![Op::Clear];
    lemma_clear_loop(s, s.mem[s.mp]);
    assert(steps(folded, s, 0) == s);
    assert(steps(folded, s, 1) == step_state(folded, s));
}

} // verus!
