use vstd::prelude::*;
use vstd::string::StrSliceExecFns;
use crate::ops::Op;
use crate::ops::SyntaxError;
use crate::ops::lemma_mod256_inc;

verus! {

/// The eight meaningful symbols; every other character is a comment.
pub open spec fn is_command(c: char) -> bool {
    c == '>' || c == '<' || c == '+' || c == '-' || c == '.' || c == ',' || c == '[' || c == ']'
}

/// Stage A: the source with every non-command character discarded.
pub open spec fn filter_commands(s: Seq<char>) -> Seq<char>
    decreases s.len(),
{
    if s.len() == 0 {
        Seq::empty()
    } else if is_command(s[0]) {
        seq![s[0]] + filter_commands(s.skip(1))
    } else {
        filter_commands(s.skip(1))
    }
}

/// Length of the run of characters equal to `s[0]` at the head of `s`.
pub open spec fn run_len(s: Seq<char>) -> nat
    decreases s.len(),
{
    if s.len() == 0 {
        0
    } else if s.len() >= 2 && s[1] == s[0] {
        (1 + run_len(s.skip(1))) as nat
    } else {
        1
    }
}

/// The head run is nonempty, fits in `s`, and consists of copies of `s[0]`.
pub proof fn lemma_run_len(s: Seq<char>)
    requires
        s.len() >= 1,
    ensures
        1 <= run_len(s) <= s.len(),
        forall|j: int| 0 <= j < run_len(s) ==> #[trigger] s[j] == s[0],
    decreases s.len(),
{
    if s.len() >= 2 && s[1] == s[0] {
        lemma_run_len(s.skip(1));
        assert forall|j: int| 0 <= j < run_len(s) implies #[trigger] s[j] == s[0] by {
            if j >= 1 {
                assert(s.skip(1)[j - 1] == s[j]);
            }
        }
    }
}

#[via_fn]
proof fn compress_decreases(s: Seq<char>) {
    if s.len() > 0 {
        lemma_run_len(s);
    }
}

/// Stages B and C: run-length fusion of `>` `<` `+` `-` (cell counts taken
/// modulo 256) and folding of the three-symbol idiom `[-]` into `Clear`.
/// Loop instructions get placeholder targets, resolved by `resolve_from`.
pub open spec fn compress(s: Seq<char>) -> Seq<Op>
    decreases s.len(),
        via compress_decreases
{
    if s.len() == 0 {
        Seq::empty()
    } else {
        let c = s[0];
        let k = run_len(s) as int;
        if c == '>' {
            seq![Op::MoveRight(k as usize)] + compress(s.skip(k))
        } else if c == '<' {
            seq![Op::MoveLeft(k as usize)] + compress(s.skip(k))
        } else if c == '+' {
            seq![Op::Add((k % 256) as u8)] + compress(s.skip(k))
        } else if c == '-' {
            seq![Op::Sub((k % 256) as u8)] + compress(s.skip(k))
        } else if c == '.' {
            seq![Op::Output] + compress(s.skip(1))
        } else if c == ',' {
            seq![Op::Input] + compress(s.skip(1))
        } else if c == '[' {
            if s.len() >= 3 && s[1] == '-' && s[2] == ']' {
                seq![Op::Clear] + compress(s.skip(3))
            } else {
                seq![Op::OpenLoop(0)] + compress(s.skip(1))
            }
        } else if c == ']' {
            seq![Op::CloseLoop(0)] + compress(s.skip(1))
        } else {
            compress(s.skip(1))
        }
    }
}

#[via_fn]
proof fn resolve_decreases(p: Seq<Op>, i: int, stack: Seq<int>) {
    if 0 <= i < p.len() && p[i] is CloseLoop && stack.len() > 0 {
        let g = stack.last();
        let q = if 0 <= g < i {
            p.update(g, Op::OpenLoop(i as usize))
        } else {
            p
        };
        assert(q.update(i, Op::CloseLoop(g as usize)).len() == p.len());
    }
}

/// Stage D: walk the instructions with a stack of pending `OpenLoop`
/// positions; each `CloseLoop` pops its partner and the two targets are set
/// to each other's index. An unmatched `]` or a leftover `[` is an error.
pub open spec fn resolve_from(p: Seq<Op>, i: int, stack: Seq<int>) -> Result<Seq<Op>, SyntaxError>
    decreases p.len() - i,
        via resolve_decreases
{
    if !(0 <= i < p.len()) {
        if stack.len() == 0 {
            Result::Ok(p)
        } else {
            Result::Err(SyntaxError::UnterminatedLoop)
        }
    } else {
        match p[i] {
            Op::OpenLoop(_) => resolve_from(p, i + 1, stack.push(i)),
            Op::CloseLoop(_) => {
                if stack.len() == 0 {
                    Result::Err(SyntaxError::UnexpectedCloseLoop)
                } else {
                    let g = stack.last();
                    let q = if 0 <= g < i {
                        p.update(g, Op::OpenLoop(i as usize))
                    } else {
                        p
                    };
                    resolve_from(q.update(i, Op::CloseLoop(g as usize)), i + 1, stack.drop_last())
                }
            }
            _ => resolve_from(p, i + 1, stack),
        }
    }
}

/// The whole compiler: filter, fuse and fold, then resolve loop targets.
pub open spec fn compile(s: Seq<char>) -> Result<Seq<Op>, SyntaxError> {
    resolve_from(compress(filter_commands(s)), 0, Seq::empty())
}

/// The head run is exactly `k` when the first `k` characters equal `s[0]`
/// and the run stops there.
proof fn lemma_run_len_exact(s: Seq<char>, k: int)
    requires
        1 <= k <= s.len(),
        forall|t: int| 0 <= t < k ==> #[trigger] s[t] == s[0],
        k == s.len() || s[k] != s[0],
    ensures
        run_len(s) == k,
    decreases s.len(),
{
    if k >= 2 {
        assert(s[1] == s[0]);
        let s1 = s.skip(1);
        assert forall|t: int| 0 <= t < k - 1 implies #[trigger] s1[t] == s1[0] by {
            assert(s1[t] == s[t + 1]);
            assert(s1[0] == s[1]);
        }
        if k - 1 < s1.len() {
            assert(s1[k - 1] == s[k]);
        }
        lemma_run_len_exact(s1, k - 1);
    }
}

/// One fused or folded unit extends the compiled prefix by one instruction.
proof fn lemma_compress_step(f: Seq<char>, vpre: Seq<Op>, op: Op, i: int, i2: int)
    requires
        compress(f) == vpre + compress(f.skip(i)),
        compress(f.skip(i)) == seq![op] + compress(f.skip(i2)),
    ensures
        compress(f) == vpre.push(op) + compress(f.skip(i2)),
{
    assert(vpre.push(op) + compress(f.skip(i2)) =~= vpre + (seq![op] + compress(f.skip(i2))));
}

/// The characters of the source, in order.
fn to_chars(source: &str) -> (v: Vec<char>)
    ensures
        v@ == source@,
{
    let n = source.unicode_len();
    let mut v: Vec<char> = Vec::new();
    let mut i: usize = 0;
    while i < n
        invariant
            i <= n,
            n == source@.len(),
            v@ == source@.take(i as int),
        decreases n - i,
    {
        v.push(source.get_char(i));
        i += 1;
        proof {
            assert(v@ =~= source@.take(i as int));
        }
    }
    proof {
        assert(source@.take(n as int) =~= source@);
    }
    v
}

/// Stage A, executed: keep only the eight command characters.
fn filter_source(chars: &Vec<char>) -> (f: Vec<char>)
    ensures
        f@ == filter_commands(chars@),
{
    let mut f: Vec<char> = Vec::new();
    let mut i: usize = 0;
    proof {
        assert(chars@.skip(0) =~= chars@);
    }
    while i < chars.len()
        invariant
            i <= chars@.len(),
            filter_commands(chars@) == f@ + filter_commands(chars@.skip(i as int)),
        decreases chars@.len() - i,
    {
        let c = chars[i];
        let keep = c == '>' || c == '<' || c == '+' || c == '-' || c == '.' || c == ','
            || c == '[' || c == ']';
        proof {
            let s = chars@;
            assert(s.skip(i as int)[0] == s[i as int]);
            assert(s.skip(i as int).skip(1) =~= s.skip(i as int + 1));
            if keep {
                assert(f@.push(c) + filter_commands(s.skip(i as int + 1)) =~= f@ + (seq![c]
                    + filter_commands(s.skip(i as int + 1))));
            }
        }
        if keep {
            f.push(c);
        }
        i += 1;
    }
    proof {
        assert(chars@.skip(chars@.len() as int) =~= Seq::<char>::empty());
        assert(f@ + Seq::<char>::empty() =~= f@);
    }
    f
}

/// Stages B and C, executed: fuse runs of `>` `<` `+` `-` and fold `[-]`.
fn compress_source(f: &Vec<char>) -> (v: Vec<Op>)
    ensures
        v@ == compress(f@),
{
    let mut v: Vec<Op> = Vec::new();
    let mut i: usize = 0;
    proof {
        assert(f@.skip(0) =~= f@);
    }
    while i < f.len()
        invariant
            i <= f@.len(),
            compress(f@) == v@ + compress(f@.skip(i as int)),
        decreases f@.len() - i,
    {
        let ghost vpre = v@;
        let ghost i0 = i as int;
        let c = f[i];
        proof {
            assert(f@.skip(i0)[0] == f@[i0]);
            assert(f@.skip(i0).skip(1) =~= f@.skip(i0 + 1));
        }
        if c == '>' || c == '<' || c == '+' || c == '-' {
            let mut j = i + 1;
            let mut cnt: u8 = 1;
            while j < f.len() && f[j] == c
                invariant
                    i < j <= f@.len(),
                    i < f@.len(),
                    f@[i as int] == c,
                    forall|t: int| i <= t < j ==> #[trigger] f@[t] == c,
                    cnt as int == (j - i) % 256,
                decreases f@.len() - j,
            {
                proof {
                    lemma_mod256_inc((j - i) as int);
                }
                cnt = cnt.wrapping_add(1);
                j += 1;
            }
            proof {
                let s = f@.skip(i0);
                let k = j - i0;
                assert forall|t: int| 0 <= t < k implies #[trigger] s[t] == s[0] by {
                    assert(s[t] == f@[i0 + t]);
                }
                if k < s.len() {
                    assert(s[k] == f@[j as int]);
                }
                lemma_run_len_exact(s, k);
                assert(s.skip(k) =~= f@.skip(j as int));
            }
            let op = if c == '>' {
                Op::MoveRight(j - i)
            } else if c == '<' {
                Op::MoveLeft(j - i)
            } else if c == '+' {
                Op::Add(cnt)
            } else {
                Op::Sub(cnt)
            };
            proof {
                lemma_compress_step(f@, vpre, op, i0, j as int);
            }
            v.push(op);
            i = j;
        } else if c == '.' {
            proof {
                lemma_compress_step(f@, vpre, Op::Output, i0, i0 + 1);
            }
            v.push(Op::Output);
            i += 1;
        } else if c == ',' {
            proof {
                lemma_compress_step(f@, vpre, Op::Input, i0, i0 + 1);
            }
            v.push(Op::Input);
            i += 1;
        } else if c == '[' {
            if f.len() - i >= 3 && f[i + 1] == '-' && f[i + 2] == ']' {
                proof {
                    let s = f@.skip(i0);
                    assert(s[1] == f@[i0 + 1]);
                    assert(s[2] == f@[i0 + 2]);
                    assert(s.skip(3) =~= f@.skip(i0 + 3));
                    lemma_compress_step(f@, vpre, Op::Clear, i0, i0 + 3);
                }
                v.push(Op::Clear);
                i += 3;
            } else {
                proof {
                    let s = f@.skip(i0);
                    if s.len() >= 3 {
                        assert(s[1] == f@[i0 + 1]);
                        assert(s[2] == f@[i0 + 2]);
                    }
                    lemma_compress_step(f@, vpre, Op::OpenLoop(0), i0, i0 + 1);
                }
                v.push(Op::OpenLoop(0));
                i += 1;
            }
        } else if c == ']' {
            proof {
                lemma_compress_step(f@, vpre, Op::CloseLoop(0), i0, i0 + 1);
            }
            v.push(Op::CloseLoop(0));
            i += 1;
        } else {
            i += 1;
        }
    }
    proof {
        assert(f@.skip(f@.len() as int) =~= Seq::<char>::empty());
        assert(v@ + Seq::<Op>::empty() =~= v@);
    }
    v
}

/// Stage D, executed: set each loop instruction's target to its partner.
fn resolve(instrs: Vec<Op>) -> (r: Result<Vec<Op>, SyntaxError>)
    ensures
        match r {
            Ok(v) => resolve_from(instrs@, 0, Seq::empty()) == Ok::<Seq<Op>, SyntaxError>(v@),
            Err(e) => resolve_from(instrs@, 0, Seq::empty()) == Err::<Seq<Op>, SyntaxError>(e),
        },
{
    let mut p = instrs;
    let ghost p0 = p@;
    let mut stack: Vec<usize> = Vec::new();
    let mut i: usize = 0;
    proof {
        assert(stack@.map_values(|x: usize| x as int) =~= Seq::<int>::empty());
    }
    while i < p.len()
        invariant
            i <= p@.len(),
            p0 == instrs@,
            p@.len() == p0.len(),
            forall|k: int| 0 <= k < stack@.len() ==> (#[trigger] stack@[k]) < i,
            resolve_from(p0, 0, Seq::empty()) == resolve_from(
                p@,
                i as int,
                stack@.map_values(|x: usize| x as int),
            ),
        decreases p@.len() - i,
    {
        let ghost st = stack@.map_values(|x: usize| x as int);
        let op = p[i];
        match op {
            Op::OpenLoop(_) => {
                stack.push(i);
                proof {
                    assert(stack@.map_values(|x: usize| x as int) =~= st.push(i as int));
                }
            }
            Op::CloseLoop(_) => {
                match stack.pop() {
                    Some(g) => {
                        proof {
                            assert(st.last() == g as int);
                            assert(stack@.map_values(|x: usize| x as int) =~= st.drop_last());
                        }
                        p.set(g, Op::OpenLoop(i));
                        p.set(i, Op::CloseLoop(g));
                    }
                    None => {
                        proof {
                            assert(st =~= Seq::<int>::empty());
                            assert(resolve_from(p@, i as int, st) == Err::<Seq<Op>, SyntaxError>(
                                SyntaxError::UnexpectedCloseLoop,
                            ));
                        }
                        return Err(SyntaxError::UnexpectedCloseLoop);
                    }
                }
            }
            _ => {}
        }
        i += 1;
    }
    if stack.len() == 0 {
        Ok(p)
    } else {
        proof {
            assert(stack@.map_values(|x: usize| x as int).len() == stack@.len());
        }
        Err(SyntaxError::UnterminatedLoop)
    }
}

/// The whole compiler, executed: source text in, resolved instructions out,
/// or the syntax error that stops the compilation.
pub fn parse(source: &str) -> (r: Result<Vec<Op>, SyntaxError>)
    ensures
        match r {
            Ok(v) => compile(source@) == Ok::<Seq<Op>, SyntaxError>(v@),
            Err(e) => compile(source@) == Err::<Seq<Op>, SyntaxError>(e),
        },
{
    let chars = to_chars(source);
    let filtered = filter_source(&chars);
    let instrs = compress_source(&filtered);
    resolve(instrs)
}

/// Whether `to_match` is a prefix of `source`.
pub fn match_ops(source: &[char], to_match: &str) -> (r: bool)
    ensures
        r <==> (to_match@.len() <= source@.len() && source@.take(to_match@.len() as int)
            == to_match@),
{
    let n = to_match.unicode_len();
    if source.len() < n {
        return false;
    }
    let mut j: usize = 0;
    while j < n
        invariant
            j <= n,
            n == to_match@.len(),
            n <= source@.len(),
            forall|t: int| 0 <= t < j ==> source@[t] == to_match@[t],
        decreases n - j,
    {
        if source[j] != to_match.get_char(j) {
            assert(source@.take(n as int)[j as int] != to_match@[j as int]);
            return false;
        }
        j += 1;
    }
    proof {
        assert(source@.take(n as int) =~= to_match@);
    }
    true
}

} // verus!
