//! The evaluator: a value stack, variable bindings, array-bracket marks
//! and a deterministic generator state, driven token by token. Popping a
//! value slides every mark that would otherwise point past the top, which
//! is what lets `[` ... `]` capture values consumed from below. Output is
//! collected in a byte buffer that the caller writes out.

use vstd::prelude::*;

use crate::bigint::Bint;
use crate::bigint::Ord3;
use crate::value::Gval;
use crate::value::V;
use crate::value::all_wf;
use crate::value::views;
use crate::value::falsey_v;
use crate::value::lemma_views_push;
use crate::value::lemma_wf_arr;
use crate::parse::Gtoken;

verus! {

/// A fatal evaluation error.
#[derive(Clone, Copy, PartialEq, Eq, Structural, Debug)]
pub enum Gerr {
    /// The tokenizer stopped before the end of the input.
    ParseError,
    /// A pop from an empty stack.
    StackUnderflow,
    /// An operator met an operand combination it does not define.
    TypeError,
    /// A chunk or stride of size zero.
    ArithmeticError,
    /// Nested evaluation deeper than the configured bound.
    DepthLimit,
}

/// The marks after one pop from a stack of length `len`: every mark at or
/// past the new top slides down one.
pub open spec fn pop_marks(lb: Seq<usize>, len: int) -> Seq<usize> {
    Seq::new(
        lb.len(),
        |k: int|
            if 0 <= k < lb.len() {
                if lb[k] >= len && lb[k] > 0 {
                    (lb[k] - 1) as usize
                } else {
                    lb[k]
                }
            } else {
                0
            },
    )
}

/// Marks are sorted and none points past the top of the stack.
pub open spec fn marks_wf(lb: Seq<usize>, n: int) -> bool {
    &&& forall|i: int| 0 <= i < lb.len() ==> #[trigger] lb[i] <= n
    &&& forall|i: int, j: int| 0 <= i <= j < lb.len() ==> #[trigger] lb[i] <= #[trigger] lb[j]
}

/// Bindings as a map from name to value, later bindings shadowing
/// earlier ones.
pub open spec fn vars_map(vs: Seq<(Vec<u8>, Gval)>) -> Map<Seq<u8>, V>
    decreases vs.len(),
{
    if vs.len() == 0 {
        Map::empty()
    } else {
        vars_map(vs.drop_last()).insert(vs.last().0@, vs.last().1@)
    }
}

/// Every bound value is well-formed.
pub open spec fn vars_wf(vs: Seq<(Vec<u8>, Gval)>) -> bool {
    forall|i: int| 0 <= i < vs.len() ==> (#[trigger] vs[i].1).wf()
}

/// The evaluator state.
pub struct Gs {
    pub stack: Vec<Gval>,
    vars: Vec<(Vec<u8>, Gval)>,
    lb: Vec<usize>,
    rng_state: u64,
    out: Vec<u8>,
}

impl Gs {
    /// Well-formed state: stack values and bindings canonical, marks
    /// sorted and within the stack.
    pub closed spec fn wf(self) -> bool {
        &&& all_wf(self.stack@)
        &&& vars_wf(self.vars@)
        &&& marks_wf(self.lb@, self.stack@.len() as int)
    }

    /// The stack, bottom first, as abstract values.
    pub closed spec fn stack_v(self) -> Seq<V> {
        views(self.stack@)
    }

    /// The collected output bytes.
    pub closed spec fn out_v(self) -> Seq<u8> {
        self.out@
    }

    /// The array-bracket marks, bottom first.
    pub closed spec fn marks_v(self) -> Seq<usize> {
        self.lb@
    }

    /// The variable bindings as a map.
    pub closed spec fn vars_v(self) -> Map<Seq<u8>, V> {
        vars_map(self.vars@)
    }

    /// The generator state.
    pub closed spec fn rng_v(self) -> u64 {
        self.rng_state
    }

    /// A fresh evaluator: empty stack, no bindings, no marks, the
    /// documented generator seed, no output.
    pub fn new() -> (r: Gs)
        ensures
            r.wf(),
            r.stack_v() == Seq::<V>::empty(),
            r.marks_v() == Seq::<usize>::empty(),
            r.vars_v() == Map::<Seq<u8>, V>::empty(),
            r.rng_v() == 123456789u64,
            r.out_v() == Seq::<u8>::empty(),
    {
        let r = Gs {
            stack: Vec::new(),
            vars: Vec::new(),
            lb: Vec::new(),
            rng_state: 123456789u64,
            out: Vec::new(),
        };
        proof {
            assert(views(r.stack@) =~= Seq::<V>::empty());
        }
        r
    }

    /// Push a value.
    pub fn push(&mut self, val: Gval)
        requires
            old(self).wf(),
            val.wf(),
        ensures
            final(self).wf(),
            final(self).stack_v() == old(self).stack_v().push(val@),
            final(self).marks_v() == old(self).marks_v(),
            final(self).vars_v() == old(self).vars_v(),
            final(self).rng_v() == old(self).rng_v(),
            final(self).out_v() == old(self).out_v(),
    {
        let ghost prev = self.stack@;
        self.stack.push(val);
        proof {
            lemma_views_push(prev, self.stack@.last());
            assert(self.stack@ =~= prev.push(self.stack@.last()));
        }
    }

    /// The top of the stack, without popping.
    pub fn top(&self) -> (r: Result<&Gval, Gerr>)
        requires
            self.wf(),
        ensures
            match r {
                Ok(v) => self.stack_v().len() > 0 && v@ == self.stack_v().last() && v.wf(),
                Err(e) => self.stack_v().len() == 0 && e == Gerr::StackUnderflow,
            },
    {
        if self.stack.len() == 0 {
            Err(Gerr::StackUnderflow)
        } else {
            let v = &self.stack[self.stack.len() - 1];
            proof {
                assert(v@ == self.stack_v()[self.stack@.len() - 1]);
                assert(self.stack@[self.stack@.len() - 1].wf());
            }
            Ok(v)
        }
    }

    /// Pop the top of the stack; every mark at or past the new top
    /// slides down one.
    #[verifier::loop_isolation(false)]
    pub fn pop(&mut self) -> (r: Result<Gval, Gerr>)
        requires
            old(self).wf(),
        ensures
            final(self).wf(),
            final(self).vars_v() == old(self).vars_v(),
            final(self).rng_v() == old(self).rng_v(),
            final(self).out_v() == old(self).out_v(),
            match r {
                Ok(v) => old(self).stack_v().len() > 0 && v@ == old(self).stack_v().last()
                    && v.wf() && final(self).stack_v() == old(self).stack_v().drop_last()
                    && final(self).marks_v() == pop_marks(
                    old(self).marks_v(),
                    old(self).stack_v().len() as int,
                ),
                Err(e) => old(self).stack_v().len() == 0 && e == Gerr::StackUnderflow
                    && *final(self) == *old(self),
            },
    {
        if self.stack.len() == 0 {
            return Err(Gerr::StackUnderflow);
        }
        let n = self.stack.len();
        let mut i: usize = self.lb.len();
        proof {
            assert forall|k: int| i <= k < self.lb@.len() implies #[trigger] self.lb@[k]
                == pop_marks(old(self).lb@, n as int)[k] by {}
        }
        while i > 0 && self.lb[i - 1] >= n
            invariant
                i <= self.lb@.len(),
                self.lb@.len() == old(self).lb@.len(),
                self.stack@ == old(self).stack@,
                self.vars@ == old(self).vars@,
                self.rng_state == old(self).rng_state,
                self.out@ == old(self).out@,
                n == self.stack@.len(),
                forall|k: int| 0 <= k < i ==> #[trigger] self.lb@[k] == old(self).lb@[k],
                forall|k: int| i <= k < self.lb@.len() ==> #[trigger] self.lb@[k] == pop_marks(
                    old(self).lb@,
                    n as int,
                )[k],
            decreases i,
        {
            i -= 1;
            if self.lb[i] > 0 {
                let m = self.lb[i];
                self.lb[i] = m - 1;
            }
        }
        proof {
            assert forall|k: int| 0 <= k < self.lb@.len() implies #[trigger] self.lb@[k]
                == pop_marks(old(self).lb@, n as int)[k] by {
                if k < i {
                    assert(old(self).lb@[k] < n);
                }
            }
            assert(self.lb@ =~= pop_marks(old(self).lb@, n as int));
        }
        proof {
            let newlb = pop_marks(old(self).lb@, n as int);
            assert forall|a: int, b: int| 0 <= a <= b < newlb.len() implies newlb[a] <= newlb[b]
                by {
                assert(old(self).lb@[a] <= old(self).lb@[b]);
            }
            assert forall|a: int| 0 <= a < newlb.len() implies newlb[a] <= n - 1 by {
                assert(old(self).lb@[a] <= n);
            }
        }
        let v = match self.stack.pop() {
            Some(v) => v,
            None => Gval::Str(Vec::new()),
        };
        proof {
            assert(self.stack@ =~= old(self).stack@.drop_last());
            assert(views(self.stack@) =~= views(old(self).stack@).drop_last());
            assert(old(self).stack@.last().wf());
            assert(v@ == views(old(self).stack@).last());
            assert forall|k: int| 0 <= k < self.stack@.len() implies (#[trigger] self.stack@[
                k
            ]).wf() by {
                assert(old(self).stack@[k].wf());
            }
        }
        Ok(v)
    }
}


/// Whether two byte vectors hold the same bytes.
#[verifier::loop_isolation(false)]
pub(crate) fn eq_bytes(a: &Vec<u8>, b: &Vec<u8>) -> (r: bool)
    ensures
        r == (a@ == b@),
{
    if a.len() != b.len() {
        proof {
            assert(a@ != b@);
        }
        return false;
    }
    let mut i: usize = 0;
    while i < a.len()
        invariant
            i <= a.len(),
            a@.len() == b@.len(),
            forall|k: int| 0 <= k < i ==> a@[k] == #[trigger] b@[k],
        decreases a.len() - i,
    {
        if a[i] != b[i] {
            return false;
        }
        i += 1;
    }
    proof {
        assert(a@ =~= b@);
    }
    true
}

impl Gs {
    /// The value bound to a name, if any; the most recent binding wins.
    #[verifier::loop_isolation(false)]
    pub fn lookup(&self, name: &Vec<u8>) -> (r: Option<Gval>)
        requires
            self.wf(),
        ensures
            match r {
                Some(v) => self.vars_v().dom().contains(name@) && v@ == self.vars_v()[name@]
                    && v.wf(),
                None => !self.vars_v().dom().contains(name@),
            },
    {
        let mut i: usize = self.vars.len();
        proof {
            assert(self.vars@.take(self.vars@.len() as int) =~= self.vars@);
        }
        while i > 0
            invariant
                i <= self.vars@.len(),
                vars_map(self.vars@).dom().contains(name@) == vars_map(
                    self.vars@.take(i as int),
                ).dom().contains(name@),
                vars_map(self.vars@).dom().contains(name@) ==> vars_map(self.vars@)[name@]
                    == vars_map(self.vars@.take(i as int))[name@],
            decreases i,
        {
            let ghost pre = self.vars@.take(i as int);
            proof {
                assert(pre.drop_last() =~= self.vars@.take(i - 1));
                assert(pre.last() == self.vars@[i - 1]);
            }
            if eq_bytes(&self.vars[i - 1].0, name) {
                let v = self.vars[i - 1].1.clone();
                proof {
                    assert(self.vars@[i - 1].1.wf());
                }
                return Some(v);
            }
            i -= 1;
        }
        proof {
            assert(self.vars@.take(0) =~= Seq::<(Vec<u8>, Gval)>::empty());
        }
        None
    }

    /// Bind a name to a value, shadowing any earlier binding.
    pub fn bind(&mut self, name: Vec<u8>, val: Gval)
        requires
            old(self).wf(),
            val.wf(),
        ensures
            final(self).wf(),
            final(self).vars_v() == old(self).vars_v().insert(name@, val@),
            final(self).stack_v() == old(self).stack_v(),
            final(self).marks_v() == old(self).marks_v(),
            final(self).rng_v() == old(self).rng_v(),
            final(self).out_v() == old(self).out_v(),
    {
        let ghost prev = self.vars@;
        let ghost nv = (name@, val@);
        self.vars.push((name, val));
        proof {
            assert(self.vars@ =~= prev.push(self.vars@.last()));
            assert(self.vars@.drop_last() =~= prev);
            assert(self.vars@.last().0@ == nv.0);
            assert(self.vars@.last().1@ == nv.1);
            assert(vars_map(self.vars@) == vars_map(prev).insert(nv.0, nv.1));
            assert forall|k: int| 0 <= k < self.vars@.len() implies (#[trigger] self.vars@[
                k
            ].1).wf() by {
                if k < prev.len() {
                    assert(prev[k].1.wf());
                }
            }
        }
    }

    /// Advance the generator: multiply by 1664525 and add 1013904223,
    /// modulo 2^64.
    fn rng(&mut self) -> (r: u64)
        requires
            old(self).wf(),
        ensures
            final(self).wf(),
            r == final(self).rng_v(),
            final(self).rng_v() == vstd::wrapping::u64_specs::wrapping_add(
                vstd::wrapping::u64_specs::wrapping_mul(old(self).rng_v(), 1664525),
                1013904223,
            ),
            final(self).stack_v() == old(self).stack_v(),
            final(self).marks_v() == old(self).marks_v(),
            final(self).vars_v() == old(self).vars_v(),
            final(self).out_v() == old(self).out_v(),
    {
        let m = self.rng_state.wrapping_mul(1664525);
        let m2 = m.wrapping_add(1013904223);
        self.rng_state = m2;
        m2
    }

    /// Append bytes to the collected output.
    fn write_out(&mut self, bs: &Vec<u8>)
        requires
            old(self).wf(),
        ensures
            final(self).wf(),
            final(self).out_v() == old(self).out_v() + bs@,
            final(self).stack_v() == old(self).stack_v(),
            final(self).marks_v() == old(self).marks_v(),
            final(self).vars_v() == old(self).vars_v(),
            final(self).rng_v() == old(self).rng_v(),
    {
        crate::value::extend_bytes(&mut self.out, bs);
    }

    /// Duplicate the top of the stack.
    pub fn dup(&mut self) -> (r: Result<(), Gerr>)
        requires
            old(self).wf(),
        ensures
            final(self).wf(),
            final(self).vars_v() == old(self).vars_v(),
            final(self).rng_v() == old(self).rng_v(),
            final(self).out_v() == old(self).out_v(),
            match r {
                Ok(_) => old(self).stack_v().len() > 0 && final(self).stack_v() == old(
                    self,
                ).stack_v().push(old(self).stack_v().last()) && final(self).marks_v() == pop_marks(
                    old(self).marks_v(),
                    old(self).stack_v().len() as int,
                ),
                Err(e) => old(self).stack_v().len() == 0 && e == Gerr::StackUnderflow
                    && *final(self) == *old(self),
            },
    {
        let ghost pre = self.stack_v();
        let a = self.pop()?;
        let b = a.clone();
        self.push(b);
        self.push(a);
        proof {
            assert(pre.drop_last().push(pre.last()) =~= pre);
        }
        Ok(())
    }

    /// Swap the top two values.
    pub fn swap(&mut self) -> (r: Result<(), Gerr>)
        requires
            old(self).wf(),
        ensures
            final(self).wf(),
            final(self).vars_v() == old(self).vars_v(),
            final(self).rng_v() == old(self).rng_v(),
            final(self).out_v() == old(self).out_v(),
            match r {
                Ok(_) => old(self).stack_v().len() >= 2 && final(self).stack_v() == swap_v(
                    old(self).stack_v(),
                ) && final(self).marks_v() == pop_marks(
                    pop_marks(old(self).marks_v(), old(self).stack_v().len() as int),
                    old(self).stack_v().len() - 1,
                ),
                Err(e) => old(self).stack_v().len() <= 1 && e == Gerr::StackUnderflow,
            },
    {
        let ghost pre = self.stack_v();
        let b = self.pop()?;
        let a = self.pop()?;
        self.push(b);
        self.push(a);
        proof {
            assert(pre.drop_last().drop_last() =~= pre.take(pre.len() - 2));
        }
        Ok(())
    }

    /// Rotate the top three values: `a b c` becomes `b c a`.
    pub fn at_sign(&mut self) -> (r: Result<(), Gerr>)
        requires
            old(self).wf(),
        ensures
            final(self).wf(),
            final(self).vars_v() == old(self).vars_v(),
            final(self).rng_v() == old(self).rng_v(),
            final(self).out_v() == old(self).out_v(),
            match r {
                Ok(_) => old(self).stack_v().len() >= 3 && final(self).stack_v() == rot3_v(
                    old(self).stack_v(),
                ) && final(self).marks_v() == pop_marks(
                    pop_marks(
                        pop_marks(old(self).marks_v(), old(self).stack_v().len() as int),
                        old(self).stack_v().len() - 1,
                    ),
                    old(self).stack_v().len() - 2,
                ),
                Err(e) => old(self).stack_v().len() <= 2 && e == Gerr::StackUnderflow,
            },
    {
        let ghost pre = self.stack_v();
        let c = self.pop()?;
        let b = self.pop()?;
        let a = self.pop()?;
        self.push(b);
        self.push(c);
        self.push(a);
        proof {
            assert(pre.drop_last().drop_last().drop_last() =~= pre.take(pre.len() - 3));
            assert(pre.drop_last().drop_last().last() == pre[pre.len() - 3]);
            assert(pre.drop_last().last() == pre[pre.len() - 2]);
        }
        Ok(())
    }

    /// Replace the top with its inspected form.
    pub fn backtick(&mut self) -> (r: Result<(), Gerr>)
        requires
            old(self).wf(),
        ensures
            final(self).wf(),
            final(self).vars_v() == old(self).vars_v(),
            final(self).rng_v() == old(self).rng_v(),
            final(self).out_v() == old(self).out_v(),
            match r {
                Ok(_) => old(self).stack_v().len() > 0 && final(self).stack_v() == old(
                    self,
                ).stack_v().drop_last().push(
                    V::Str(crate::value::inspect_v(old(self).stack_v().last())),
                ) && final(self).marks_v() == pop_marks(
                    old(self).marks_v(),
                    old(self).stack_v().len() as int,
                ),
                Err(e) => old(self).stack_v().len() == 0 && e == Gerr::StackUnderflow,
            },
    {
        let a = self.pop()?;
        let bs = a.inspect();
        self.push(Gval::Str(bs));
        Ok(())
    }

    /// Replace the top with 1 where it was falsey, else 0.
    pub fn bang(&mut self) -> (r: Result<(), Gerr>)
        requires
            old(self).wf(),
        ensures
            final(self).wf(),
            final(self).vars_v() == old(self).vars_v(),
            final(self).rng_v() == old(self).rng_v(),
            final(self).out_v() == old(self).out_v(),
            match r {
                Ok(_) => old(self).stack_v().len() > 0 && final(self).stack_v() == old(
                    self,
                ).stack_v().drop_last().push(
                    V::Int(
                        if falsey_v(old(self).stack_v().last()) {
                            1int
                        } else {
                            0int
                        },
                    ),
                ) && final(self).marks_v() == pop_marks(
                    old(self).marks_v(),
                    old(self).stack_v().len() as int,
                ),
                Err(e) => old(self).stack_v().len() == 0 && e == Gerr::StackUnderflow,
            },
    {
        let a = self.pop()?;
        let f = a.falsey();
        self.push(Gval::bool(f));
        Ok(())
    }
}


/// Result of `-` on two values: integers subtract; sequences keep, in
/// order with duplicates, the left elements not occurring on the right.
pub open spec fn minus_v(a: V, b: V) -> V {
    let c = crate::coerce::coerce_v(a, b);
    match (c.0, c.1) {
        (V::Int(x), V::Int(y)) => V::Int(x - y),
        (V::Arr(x), V::Arr(y)) => V::Arr(x.filter(|v: V| !y.contains(v))),
        (V::Str(x), V::Str(y)) => V::Str(x.filter(|v: u8| !y.contains(v))),
        (V::Blk(x), V::Blk(y)) => V::Blk(x.filter(|v: u8| !y.contains(v))),
        _ => V::Int(0),
    }
}

/// Result of `|` on two values: integers bitwise, sequences as ordered
/// set union.
pub open spec fn bar_v(a: V, b: V) -> V {
    let c = crate::coerce::coerce_v(a, b);
    match (c.0, c.1) {
        (V::Int(x), V::Int(y)) => V::Int(crate::bigint::or_int(x, y)),
        (V::Arr(x), V::Arr(y)) => V::Arr(crate::util::dedup_first(x + y)),
        (V::Str(x), V::Str(y)) => V::Str(crate::util::dedup_first(x + y)),
        (V::Blk(x), V::Blk(y)) => V::Blk(crate::util::dedup_first(x + y)),
        _ => V::Int(0),
    }
}

/// Result of `&` on two values: integers bitwise, sequences as ordered
/// set intersection.
pub open spec fn amp_v(a: V, b: V) -> V {
    let c = crate::coerce::coerce_v(a, b);
    match (c.0, c.1) {
        (V::Int(x), V::Int(y)) => V::Int(crate::bigint::and_int(x, y)),
        (V::Arr(x), V::Arr(y)) => V::Arr(
            crate::util::dedup_first(y.filter(|v: V| x.contains(v))),
        ),
        (V::Str(x), V::Str(y)) => V::Str(
            crate::util::dedup_first(y.filter(|v: u8| x.contains(v))),
        ),
        (V::Blk(x), V::Blk(y)) => V::Blk(
            crate::util::dedup_first(y.filter(|v: u8| x.contains(v))),
        ),
        _ => V::Int(0),
    }
}

/// Result of `^` on two values: integers bitwise, sequences as ordered
/// symmetric difference.
pub open spec fn caret_v(a: V, b: V) -> V {
    let c = crate::coerce::coerce_v(a, b);
    match (c.0, c.1) {
        (V::Int(x), V::Int(y)) => V::Int(crate::bigint::xor_int(x, y)),
        (V::Arr(x), V::Arr(y)) => V::Arr(
            crate::util::dedup_first((x + y).filter(|v: V| x.contains(v) != y.contains(v))),
        ),
        (V::Str(x), V::Str(y)) => V::Str(
            crate::util::dedup_first((x + y).filter(|v: u8| x.contains(v) != y.contains(v))),
        ),
        (V::Blk(x), V::Blk(y)) => V::Blk(
            crate::util::dedup_first((x + y).filter(|v: u8| x.contains(v) != y.contains(v))),
        ),
        _ => V::Int(0),
    }
}

impl Gs {
    /// Pop `b` then `a` for a binary operator.
    fn pop2(&mut self) -> (r: Result<(Gval, Gval), Gerr>)
        requires
            old(self).wf(),
        ensures
            final(self).wf(),
            final(self).vars_v() == old(self).vars_v(),
            final(self).rng_v() == old(self).rng_v(),
            final(self).out_v() == old(self).out_v(),
            match r {
                Ok(ab) => old(self).stack_v().len() >= 2 && ab.0.wf() && ab.1.wf() && ab.0@ == old(
                    self,
                ).stack_v()[old(self).stack_v().len() - 2] && ab.1@ == old(self).stack_v().last()
                    && final(self).stack_v() == old(self).stack_v().take(
                    old(self).stack_v().len() - 2,
                ) && final(self).marks_v() == pop_marks(
                    pop_marks(old(self).marks_v(), old(self).stack_v().len() as int),
                    old(self).stack_v().len() - 1,
                ),
                Err(e) => old(self).stack_v().len() <= 1 && e == Gerr::StackUnderflow,
            },
    {
        let ghost pre = self.stack_v();
        let b = self.pop()?;
        let a = self.pop()?;
        proof {
            assert(pre.drop_last().drop_last() =~= pre.take(pre.len() - 2));
            assert(pre.drop_last().last() == pre[pre.len() - 2]);
        }
        Ok((a, b))
    }

    /// `+`: coerce, then add or concatenate.
    pub fn plus(&mut self) -> (r: Result<(), Gerr>)
        requires
            old(self).wf(),
        ensures
            final(self).wf(),
            final(self).vars_v() == old(self).vars_v(),
            final(self).rng_v() == old(self).rng_v(),
            final(self).out_v() == old(self).out_v(),
            match r {
                Ok(_) => old(self).stack_v().len() >= 2 && final(self).stack_v() == old(
                    self,
                ).stack_v().take(old(self).stack_v().len() - 2).push(
                    crate::value::plus_v(
                        old(self).stack_v()[old(self).stack_v().len() - 2],
                        old(self).stack_v().last(),
                    ),
                ) && final(self).marks_v() == pop_marks(
                    pop_marks(old(self).marks_v(), old(self).stack_v().len() as int),
                    old(self).stack_v().len() - 1,
                ),
                Err(e) => old(self).stack_v().len() <= 1 && e == Gerr::StackUnderflow,
            },
    {
        let (a, b) = self.pop2()?;
        let v = a.plus(b);
        self.push(v);
        Ok(())
    }

    /// `-`: coerce, then subtract or set-subtract.
    pub fn minus(&mut self) -> (r: Result<(), Gerr>)
        requires
            old(self).wf(),
        ensures
            final(self).wf(),
            final(self).vars_v() == old(self).vars_v(),
            final(self).rng_v() == old(self).rng_v(),
            final(self).out_v() == old(self).out_v(),
            match r {
                Ok(_) => old(self).stack_v().len() >= 2 && final(self).stack_v() == old(
                    self,
                ).stack_v().take(old(self).stack_v().len() - 2).push(
                    minus_v(
                        old(self).stack_v()[old(self).stack_v().len() - 2],
                        old(self).stack_v().last(),
                    ),
                ) && final(self).marks_v() == pop_marks(
                    pop_marks(old(self).marks_v(), old(self).stack_v().len() as int),
                    old(self).stack_v().len() - 1,
                ),
                Err(e) => old(self).stack_v().len() <= 1 && e == Gerr::StackUnderflow,
            },
    {
        let (a, b) = self.pop2()?;
        let ghost av = a@;
        let ghost bv = b@;
        let v = match crate::coerce::coerce(a, b) {
            crate::coerce::Coerced::Ints(x, y) => Gval::Int(crate::bigint::big_sub(&x, &y)),
            crate::coerce::Coerced::Arrs(x, y) => {
                proof {
                    assert(crate::coerce::coerce_v(av, bv).0->Arr_0 =~= views(x@));
                    assert(crate::coerce::coerce_v(av, bv).1->Arr_0 =~= views(y@));
                }
                let s = crate::util::set_subtract(x, y);
                let out = Gval::Arr(s);
                proof {
                    lemma_wf_arr(out);
                    assert(out@->Arr_0 =~= views(out->Arr_0@));
                    assert(out@ == V::Arr(out@->Arr_0));
                }
                out
            },
            crate::coerce::Coerced::Strs(x, y) => Gval::Str(
                crate::util::set_subtract_bytes(&x, &y),
            ),
            crate::coerce::Coerced::Blks(x, y) => Gval::Blk(
                crate::util::set_subtract_bytes(&x, &y),
            ),
        };
        self.push(v);
        Ok(())
    }

    /// `|`: coerce, then bitwise or set union.
    pub fn vertical_bar(&mut self) -> (r: Result<(), Gerr>)
        requires
            old(self).wf(),
        ensures
            final(self).wf(),
            final(self).vars_v() == old(self).vars_v(),
            final(self).rng_v() == old(self).rng_v(),
            final(self).out_v() == old(self).out_v(),
            match r {
                Ok(_) => old(self).stack_v().len() >= 2 && final(self).stack_v() == old(
                    self,
                ).stack_v().take(old(self).stack_v().len() - 2).push(
                    bar_v(
                        old(self).stack_v()[old(self).stack_v().len() - 2],
                        old(self).stack_v().last(),
                    ),
                ) && final(self).marks_v() == pop_marks(
                    pop_marks(old(self).marks_v(), old(self).stack_v().len() as int),
                    old(self).stack_v().len() - 1,
                ),
                Err(e) => old(self).stack_v().len() <= 1 && e == Gerr::StackUnderflow,
            },
    {
        let (a, b) = self.pop2()?;
        let ghost av = a@;
        let ghost bv = b@;
        let v = match crate::coerce::coerce(a, b) {
            crate::coerce::Coerced::Ints(x, y) => Gval::Int(crate::bigint::big_or(&x, &y)),
            crate::coerce::Coerced::Arrs(x, y) => {
                proof {
                    assert(crate::coerce::coerce_v(av, bv).0->Arr_0 =~= views(x@));
                    assert(crate::coerce::coerce_v(av, bv).1->Arr_0 =~= views(y@));
                }
                let s = crate::util::set_or(x, y);
                let out = Gval::Arr(s);
                proof {
                    lemma_wf_arr(out);
                    assert(out@->Arr_0 =~= views(out->Arr_0@));
                    assert(out@ == V::Arr(out@->Arr_0));
                }
                out
            },
            crate::coerce::Coerced::Strs(x, y) => Gval::Str(crate::util::set_or_bytes(&x, &y)),
            crate::coerce::Coerced::Blks(x, y) => Gval::Blk(crate::util::set_or_bytes(&x, &y)),
        };
        self.push(v);
        Ok(())
    }

    /// `&`: coerce, then bitwise or set intersection.
    pub fn ampersand(&mut self) -> (r: Result<(), Gerr>)
        requires
            old(self).wf(),
        ensures
            final(self).wf(),
            final(self).vars_v() == old(self).vars_v(),
            final(self).rng_v() == old(self).rng_v(),
            final(self).out_v() == old(self).out_v(),
            match r {
                Ok(_) => old(self).stack_v().len() >= 2 && final(self).stack_v() == old(
                    self,
                ).stack_v().take(old(self).stack_v().len() - 2).push(
                    amp_v(
                        old(self).stack_v()[old(self).stack_v().len() - 2],
                        old(self).stack_v().last(),
                    ),
                ) && final(self).marks_v() == pop_marks(
                    pop_marks(old(self).marks_v(), old(self).stack_v().len() as int),
                    old(self).stack_v().len() - 1,
                ),
                Err(e) => old(self).stack_v().len() <= 1 && e == Gerr::StackUnderflow,
            },
    {
        let (a, b) = self.pop2()?;
        let ghost av = a@;
        let ghost bv = b@;
        let v = match crate::coerce::coerce(a, b) {
            crate::coerce::Coerced::Ints(x, y) => Gval::Int(crate::bigint::big_and(&x, &y)),
            crate::coerce::Coerced::Arrs(x, y) => {
                proof {
                    assert(crate::coerce::coerce_v(av, bv).0->Arr_0 =~= views(x@));
                    assert(crate::coerce::coerce_v(av, bv).1->Arr_0 =~= views(y@));
                }
                let s = crate::util::set_and(x, y);
                let out = Gval::Arr(s);
                proof {
                    lemma_wf_arr(out);
                    assert(out@->Arr_0 =~= views(out->Arr_0@));
                    assert(out@ == V::Arr(out@->Arr_0));
                }
                out
            },
            crate::coerce::Coerced::Strs(x, y) => Gval::Str(crate::util::set_and_bytes(&x, &y)),
            crate::coerce::Coerced::Blks(x, y) => Gval::Blk(crate::util::set_and_bytes(&x, &y)),
        };
        self.push(v);
        Ok(())
    }

    /// `^`: coerce, then bitwise or symmetric difference.
    pub fn caret(&mut self) -> (r: Result<(), Gerr>)
        requires
            old(self).wf(),
        ensures
            final(self).wf(),
            final(self).vars_v() == old(self).vars_v(),
            final(self).rng_v() == old(self).rng_v(),
            final(self).out_v() == old(self).out_v(),
            match r {
                Ok(_) => old(self).stack_v().len() >= 2 && final(self).stack_v() == old(
                    self,
                ).stack_v().take(old(self).stack_v().len() - 2).push(
                    caret_v(
                        old(self).stack_v()[old(self).stack_v().len() - 2],
                        old(self).stack_v().last(),
                    ),
                ) && final(self).marks_v() == pop_marks(
                    pop_marks(old(self).marks_v(), old(self).stack_v().len() as int),
                    old(self).stack_v().len() - 1,
                ),
                Err(e) => old(self).stack_v().len() <= 1 && e == Gerr::StackUnderflow,
            },
    {
        let (a, b) = self.pop2()?;
        let ghost av = a@;
        let ghost bv = b@;
        let v = match crate::coerce::coerce(a, b) {
            crate::coerce::Coerced::Ints(x, y) => Gval::Int(crate::bigint::big_xor(&x, &y)),
            crate::coerce::Coerced::Arrs(x, y) => {
                proof {
                    assert(crate::coerce::coerce_v(av, bv).0->Arr_0 =~= views(x@));
                    assert(crate::coerce::coerce_v(av, bv).1->Arr_0 =~= views(y@));
                }
                let s = crate::util::set_xor(x, y);
                let out = Gval::Arr(s);
                proof {
                    lemma_wf_arr(out);
                    assert(out@->Arr_0 =~= views(out->Arr_0@));
                    assert(out@ == V::Arr(out@->Arr_0));
                }
                out
            },
            crate::coerce::Coerced::Strs(x, y) => Gval::Str(crate::util::set_xor_bytes(&x, &y)),
            crate::coerce::Coerced::Blks(x, y) => Gval::Blk(crate::util::set_xor_bytes(&x, &y)),
        };
        self.push(v);
        Ok(())
    }
}


/// Result of `<`, `=` or `>` on two values: an integer against a sequence
/// indexes (under `=`, yielding nothing when out of range) or slices
/// (under `<` and `>`); any other pair compares in the total order.
pub open spec fn lteqgt_v(o: Ord3, a: V, b: V) -> Option<V> {
    if a is Int && !(b is Int) || b is Int && !(a is Int) {
        let i = if a is Int {
            a->Int_0
        } else {
            b->Int_0
        };
        let s = if a is Int {
            b
        } else {
            a
        };
        if o == Ord3::Eq {
            match s {
                V::Arr(vs) => if 0 <= crate::util::norm_index(i, vs.len() as int) < vs.len() {
                    Some(vs[crate::util::norm_index(i, vs.len() as int)])
                } else {
                    None
                },
                V::Str(bs) => if 0 <= crate::util::norm_index(i, bs.len() as int) < bs.len() {
                    Some(V::Int(bs[crate::util::norm_index(i, bs.len() as int)] as int))
                } else {
                    None
                },
                V::Blk(bs) => if 0 <= crate::util::norm_index(i, bs.len() as int) < bs.len() {
                    Some(V::Int(bs[crate::util::norm_index(i, bs.len() as int)] as int))
                } else {
                    None
                },
                _ => None,
            }
        } else {
            match s {
                V::Arr(vs) => Some(
                    V::Arr(
                        if o == Ord3::Lt {
                            vs.take(crate::util::clamp_index(i, vs.len() as int))
                        } else {
                            vs.skip(crate::util::clamp_index(i, vs.len() as int))
                        },
                    ),
                ),
                V::Str(bs) => Some(
                    V::Str(
                        if o == Ord3::Lt {
                            bs.take(crate::util::clamp_index(i, bs.len() as int))
                        } else {
                            bs.skip(crate::util::clamp_index(i, bs.len() as int))
                        },
                    ),
                ),
                V::Blk(bs) => Some(
                    V::Blk(
                        if o == Ord3::Lt {
                            bs.take(crate::util::clamp_index(i, bs.len() as int))
                        } else {
                            bs.skip(crate::util::clamp_index(i, bs.len() as int))
                        },
                    ),
                ),
                _ => None,
            }
        }
    } else {
        Some(
            V::Int(
                if crate::value::cmp_v(a, b) == o {
                    1int
                } else {
                    0int
                },
            ),
        )
    }
}

impl Gs {
    /// `<`, `=` or `>`.
    pub fn lteqgt(&mut self, o: Ord3) -> (r: Result<(), Gerr>)
        requires
            old(self).wf(),
        ensures
            final(self).wf(),
            final(self).vars_v() == old(self).vars_v(),
            final(self).rng_v() == old(self).rng_v(),
            final(self).out_v() == old(self).out_v(),
            match r {
                Ok(_) => old(self).stack_v().len() >= 2 && final(self).stack_v() == (match lteqgt_v(
                    o,
                    old(self).stack_v()[old(self).stack_v().len() - 2],
                    old(self).stack_v().last(),
                ) {
                    Some(v) => old(self).stack_v().take(old(self).stack_v().len() - 2).push(v),
                    None => old(self).stack_v().take(old(self).stack_v().len() - 2),
                }) && final(self).marks_v() == pop_marks(
                    pop_marks(old(self).marks_v(), old(self).stack_v().len() as int),
                    old(self).stack_v().len() - 1,
                ),
                Err(e) => old(self).stack_v().len() <= 1 && e == Gerr::StackUnderflow,
            },
    {
        let (a, b) = self.pop2()?;
        let ghost av = a@;
        let ghost bv = b@;
        match (a, b) {
            (Gval::Int(i), Gval::Int(j)) => {
                let c = crate::value::cmp_val(&Gval::Int(i), &Gval::Int(j));
                self.push(Gval::bool(c == o));
            },
            (Gval::Int(i), s) => {
                self.int_seq_cmp(o, i, s, Ghost(av), Ghost(bv));
            },
            (s, Gval::Int(i)) => {
                self.int_seq_cmp(o, i, s, Ghost(av), Ghost(bv));
            },
            (a, b) => {
                let c = crate::value::cmp_val(&a, &b);
                self.push(Gval::bool(c == o));
            },
        }
        Ok(())
    }

    /// Index or slice a sequence by an integer.
    fn int_seq_cmp(&mut self, o: Ord3, i: Bint, s: Gval, av: Ghost<V>, bv: Ghost<V>)
        requires
            old(self).wf(),
            i.wf(),
            s.wf(),
            !(s is Int),
            lteqgt_v(o, av@, bv@) == lteqgt_v(o, V::Int(i.as_int()), s@),
        ensures
            final(self).wf(),
            final(self).vars_v() == old(self).vars_v(),
            final(self).rng_v() == old(self).rng_v(),
            final(self).out_v() == old(self).out_v(),
            final(self).marks_v() == old(self).marks_v(),
            final(self).stack_v() == match lteqgt_v(o, av@, bv@) {
                Some(v) => old(self).stack_v().push(v),
                None => old(self).stack_v(),
            },
    {
        match s {
            Gval::Arr(vs) => {
                if o == Ord3::Eq {
                    let got = match crate::util::index(&vs, i) {
                        Some(x) => Some(x.clone()),
                        None => None,
                    };
                    match got {
                        Some(x) => {
                            proof {
                                lemma_wf_arr(Gval::Arr(vs));
                                assert(s@->Arr_0 =~= views(vs@));
                            }
                            self.push(x);
                        },
                        None => {
                            proof {
                                assert(s@->Arr_0 =~= views(vs@));
                            }
                        },
                    }
                } else {
                    proof {
                        lemma_wf_arr(Gval::Arr(vs));
                        assert(s@->Arr_0 =~= views(vs@));
                    }
                    let ghost vsv = views(vs@);
                    let part = crate::util::slice(o, vs, i);
                    let out = Gval::Arr(part);
                    proof {
                        lemma_wf_arr(out);
                        assert(out@->Arr_0 =~= views(out->Arr_0@));
                        assert(out@ == V::Arr(out@->Arr_0));
                    }
                    self.push(out);
                }
            },
            Gval::Str(bs) => {
                if o == Ord3::Eq {
                    match crate::util::index_byte(&bs, &i) {
                        Some(x) => {
                            self.push(Gval::Int(Bint::from_u64(x as u64)));
                        },
                        None => {},
                    }
                } else {
                    let part = crate::util::slice_bytes(o, &bs, &i);
                    self.push(Gval::Str(part));
                }
            },
            Gval::Blk(bs) => {
                if o == Ord3::Eq {
                    match crate::util::index_byte(&bs, &i) {
                        Some(x) => {
                            self.push(Gval::Int(Bint::from_u64(x as u64)));
                        },
                        None => {},
                    }
                } else {
                    let part = crate::util::slice_bytes(o, &bs, &i);
                    self.push(Gval::Blk(part));
                }
            },
            Gval::Int(_) => {},
        }
    }

    /// `(`: decrement an integer, or split off the first element.
    pub fn left_paren(&mut self) -> (r: Result<(), Gerr>)
        requires
            old(self).wf(),
        ensures
            final(self).wf(),
            final(self).vars_v() == old(self).vars_v(),
            final(self).rng_v() == old(self).rng_v(),
            final(self).out_v() == old(self).out_v(),
            match r {
                Ok(_) => old(self).stack_v().len() >= 1 && final(self).marks_v() == pop_marks(
                    old(self).marks_v(),
                    old(self).stack_v().len() as int,
                ) && final(self).stack_v() == (match old(self).stack_v().last() {
                    V::Int(n) => old(self).stack_v().drop_last().push(V::Int(n - 1)),
                    V::Arr(vs) => old(self).stack_v().drop_last().push(
                        V::Arr(vs.drop_first()),
                    ).push(vs[0]),
                    V::Str(bs) => old(self).stack_v().drop_last().push(
                        V::Str(bs.drop_first()),
                    ).push(V::Int(bs[0] as int)),
                    V::Blk(bs) => old(self).stack_v().drop_last().push(
                        V::Blk(bs.drop_first()),
                    ).push(V::Int(bs[0] as int)),
                }),
                Err(e) => (old(self).stack_v().len() == 0 && e == Gerr::StackUnderflow) || (old(
                    self,
                ).stack_v().len() >= 1 && e == Gerr::TypeError && !(old(
                    self,
                ).stack_v().last() is Int) && crate::value::falsey_v(old(self).stack_v().last())),
            },
    {
        let a = self.pop()?;
        match a {
            Gval::Int(n) => {
                let m = crate::bigint::big_sub(&n, &Bint::from_u64(1));
                self.push(Gval::Int(m));
                Ok(())
            },
            Gval::Arr(mut vs) => {
                if vs.len() == 0 {
                    return Err(Gerr::TypeError);
                }
                proof {
                    lemma_wf_arr(Gval::Arr(vs));
                }
                let ghost vsv = views(vs@);
                proof {
                    assert(old(self).stack_v().last()->Arr_0 =~= vsv);
                }
                let first = vs.remove(0);
                proof {
                    assert(views(vs@) =~= vsv.drop_first());
                    assert(first@ == vsv[0]);
                }
                let rest = Gval::Arr(vs);
                proof {
                    lemma_wf_arr(rest);
                    assert(rest@->Arr_0 =~= views(rest->Arr_0@));
                    assert(rest@ == V::Arr(rest@->Arr_0));
                    assert(rest@ == V::Arr(old(self).stack_v().last()->Arr_0.drop_first()));
                }
                self.push(rest);
                self.push(first);
                Ok(())
            },
            Gval::Str(mut bs) => {
                if bs.len() == 0 {
                    return Err(Gerr::TypeError);
                }
                let ghost bsv = bs@;
                let first = bs.remove(0);
                proof {
                    assert(bs@ =~= bsv.drop_first());
                }
                self.push(Gval::Str(bs));
                self.push(Gval::Int(Bint::from_u64(first as u64)));
                Ok(())
            },
            Gval::Blk(mut bs) => {
                if bs.len() == 0 {
                    return Err(Gerr::TypeError);
                }
                let ghost bsv = bs@;
                let first = bs.remove(0);
                proof {
                    assert(bs@ =~= bsv.drop_first());
                }
                self.push(Gval::Blk(bs));
                self.push(Gval::Int(Bint::from_u64(first as u64)));
                Ok(())
            },
        }
    }

    /// `)`: increment an integer, or split off the last element.
    pub fn right_paren(&mut self) -> (r: Result<(), Gerr>)
        requires
            old(self).wf(),
        ensures
            final(self).wf(),
            final(self).vars_v() == old(self).vars_v(),
            final(self).rng_v() == old(self).rng_v(),
            final(self).out_v() == old(self).out_v(),
            match r {
                Ok(_) => old(self).stack_v().len() >= 1 && final(self).marks_v() == pop_marks(
                    old(self).marks_v(),
                    old(self).stack_v().len() as int,
                ) && final(self).stack_v() == (match old(self).stack_v().last() {
                    V::Int(n) => old(self).stack_v().drop_last().push(V::Int(n + 1)),
                    V::Arr(vs) => old(self).stack_v().drop_last().push(
                        V::Arr(vs.drop_last()),
                    ).push(vs.last()),
                    V::Str(bs) => old(self).stack_v().drop_last().push(
                        V::Str(bs.drop_last()),
                    ).push(V::Int(bs.last() as int)),
                    V::Blk(bs) => old(self).stack_v().drop_last().push(
                        V::Blk(bs.drop_last()),
                    ).push(V::Int(bs.last() as int)),
                }),
                Err(e) => (old(self).stack_v().len() == 0 && e == Gerr::StackUnderflow) || (old(
                    self,
                ).stack_v().len() >= 1 && e == Gerr::TypeError && !(old(
                    self,
                ).stack_v().last() is Int) && crate::value::falsey_v(old(self).stack_v().last())),
            },
    {
        let a = self.pop()?;
        match a {
            Gval::Int(n) => {
                let m = crate::bigint::big_add(&n, &Bint::from_u64(1));
                self.push(Gval::Int(m));
                Ok(())
            },
            Gval::Arr(mut vs) => {
                if vs.len() == 0 {
                    return Err(Gerr::TypeError);
                }
                proof {
                    lemma_wf_arr(Gval::Arr(vs));
                }
                let ghost vsv = views(vs@);
                proof {
                    assert(old(self).stack_v().last()->Arr_0 =~= vsv);
                }
                let last = match vs.pop() {
                    Some(v) => v,
                    None => Gval::Str(Vec::new()),
                };
                proof {
                    assert(views(vs@) =~= vsv.drop_last());
                    assert(last@ == vsv.last());
                }
                let rest = Gval::Arr(vs);
                proof {
                    lemma_wf_arr(rest);
                    assert(rest@->Arr_0 =~= views(rest->Arr_0@));
                    assert(rest@ == V::Arr(rest@->Arr_0));
                    assert(rest@ == V::Arr(old(self).stack_v().last()->Arr_0.drop_last()));
                }
                self.push(rest);
                self.push(last);
                Ok(())
            },
            Gval::Str(mut bs) => {
                if bs.len() == 0 {
                    return Err(Gerr::TypeError);
                }
                let ghost bsv = bs@;
                let last = match bs.pop() {
                    Some(v) => v,
                    None => 0,
                };
                proof {
                    assert(bs@ =~= bsv.drop_last());
                }
                self.push(Gval::Str(bs));
                self.push(Gval::Int(Bint::from_u64(last as u64)));
                Ok(())
            },
            Gval::Blk(mut bs) => {
                if bs.len() == 0 {
                    return Err(Gerr::TypeError);
                }
                let ghost bsv = bs@;
                let last = match bs.pop() {
                    Some(v) => v,
                    None => 0,
                };
                proof {
                    assert(bs@ =~= bsv.drop_last());
                }
                self.push(Gval::Blk(bs));
                self.push(Gval::Int(Bint::from_u64(last as u64)));
                Ok(())
            },
        }
    }

    /// `abs`: absolute value of an integer.
    pub fn abs_top(&mut self) -> (r: Result<(), Gerr>)
        requires
            old(self).wf(),
        ensures
            final(self).wf(),
            final(self).vars_v() == old(self).vars_v(),
            final(self).rng_v() == old(self).rng_v(),
            final(self).out_v() == old(self).out_v(),
            match r {
                Ok(_) => old(self).stack_v().len() >= 1 && old(self).stack_v().last() is Int
                    && final(self).stack_v() == old(self).stack_v().drop_last().push(
                    V::Int(
                        if old(self).stack_v().last()->Int_0 < 0 {
                            -old(self).stack_v().last()->Int_0
                        } else {
                            old(self).stack_v().last()->Int_0
                        },
                    ),
                ) && final(self).marks_v() == pop_marks(
                    old(self).marks_v(),
                    old(self).stack_v().len() as int,
                ),
                Err(e) => (old(self).stack_v().len() == 0 && e == Gerr::StackUnderflow) || (old(
                    self,
                ).stack_v().len() >= 1 && !(old(self).stack_v().last() is Int) && e
                    == Gerr::TypeError),
            },
    {
        let a = self.pop()?;
        match a {
            Gval::Int(n) => {
                let m = n.abs();
                self.push(Gval::Int(m));
                Ok(())
            },
            _ => Err(Gerr::TypeError),
        }
    }

    /// `rand`: pop a positive integer bound, advance the generator, push
    /// the new state reduced modulo the bound; any other bound pushes 0
    /// and leaves the generator alone.
    pub fn rand(&mut self) -> (r: Result<(), Gerr>)
        requires
            old(self).wf(),
        ensures
            final(self).wf(),
            final(self).vars_v() == old(self).vars_v(),
            final(self).out_v() == old(self).out_v(),
            match r {
                Ok(_) => old(self).stack_v().len() >= 1 && final(self).marks_v() == pop_marks(
                    old(self).marks_v(),
                    old(self).stack_v().len() as int,
                ) && (match old(self).stack_v().last() {
                    V::Int(n) => if n > 0 {
                        final(self).rng_v() == vstd::wrapping::u64_specs::wrapping_add(
                            vstd::wrapping::u64_specs::wrapping_mul(old(self).rng_v(), 1664525),
                            1013904223,
                        ) && final(self).stack_v() == old(self).stack_v().drop_last().push(
                            V::Int(crate::bigint::fmod(final(self).rng_v() as int, n)),
                        )
                    } else {
                        final(self).rng_v() == old(self).rng_v() && final(self).stack_v() == old(
                            self,
                        ).stack_v().drop_last().push(V::Int(0))
                    },
                    _ => final(self).rng_v() == old(self).rng_v() && final(self).stack_v() == old(
                        self,
                    ).stack_v().drop_last().push(V::Int(0)),
                }),
                Err(e) => old(self).stack_v().len() == 0 && e == Gerr::StackUnderflow,
            },
    {
        let a = self.pop()?;
        let v = match a {
            Gval::Int(n) => {
                if n.is_positive() {
                    let s = self.rng();
                    let big = Bint::from_u64(s);
                    crate::bigint::big_mod_floor(&big, &n)
                } else {
                    Bint::zero()
                }
            },
            _ => Bint::zero(),
        };
        self.push(Gval::Int(v));
        Ok(())
    }
}


/// A value inserted into a sorted run: it goes after every element not
/// above it, so equal elements keep their order.
pub open spec fn insert_sorted(x: V, s: Seq<V>) -> Seq<V>
    decreases s.len(),
{
    if s.len() == 0 {
        seq![x]
    } else if crate::value::cmp_v(x, s.last()) == Ord3::Lt {
        insert_sorted(x, s.drop_last()).push(s.last())
    } else {
        s.push(x)
    }
}

/// Stable sort in the total value order, by repeated insertion.
pub open spec fn sort_v(s: Seq<V>) -> Seq<V>
    decreases s.len(),
{
    if s.len() == 0 {
        Seq::empty()
    } else {
        insert_sorted(s.last(), sort_v(s.drop_last()))
    }
}

/// A byte inserted into a sorted run.
pub open spec fn insert_sorted_byte(x: u8, s: Seq<u8>) -> Seq<u8>
    decreases s.len(),
{
    if s.len() == 0 {
        seq![x]
    } else if x < s.last() {
        insert_sorted_byte(x, s.drop_last()).push(s.last())
    } else {
        s.push(x)
    }
}

/// Bytes sorted ascending.
pub open spec fn sort_bytes_v(s: Seq<u8>) -> Seq<u8>
    decreases s.len(),
{
    if s.len() == 0 {
        Seq::empty()
    } else {
        insert_sorted_byte(s.last(), sort_bytes_v(s.drop_last()))
    }
}

/// Where the found position is bounded below by elements not above `x`
/// and above by elements above `x`, insertion lands exactly there.
proof fn lemma_insert_at(x: V, s: Seq<V>, j: int)
    requires
        0 <= j <= s.len(),
        forall|k: int| j <= k < s.len() ==> crate::value::cmp_v(x, #[trigger] s[k]) == Ord3::Lt,
        j > 0 ==> crate::value::cmp_v(x, s[j - 1]) != Ord3::Lt,
    ensures
        insert_sorted(x, s) == s.take(j) + seq![x] + s.skip(j),
    decreases s.len(),
{
    if j == s.len() {
        if s.len() == 0 {
            assert(insert_sorted(x, s) =~= s.take(j) + seq![x] + s.skip(j));
        } else {
            assert(s.take(j) =~= s);
            assert(s.skip(j) =~= Seq::<V>::empty());
            assert(insert_sorted(x, s) =~= s.take(j) + seq![x] + s.skip(j));
        }
    } else {
        assert(crate::value::cmp_v(x, s.last()) == Ord3::Lt);
        let d = s.drop_last();
        assert forall|k: int| j <= k < d.len() implies crate::value::cmp_v(x, #[trigger] d[k])
            == Ord3::Lt by {
            assert(d[k] == s[k]);
        }
        if j > 0 {
            assert(d[j - 1] == s[j - 1]);
        }
        lemma_insert_at(x, d, j);
        assert(d.take(j) =~= s.take(j));
        assert((d.take(j) + seq![x] + d.skip(j)).push(s.last()) =~= s.take(j) + seq![x] + s.skip(
            j,
        ));
    }
}

/// The byte version of the insertion-position lemma.
proof fn lemma_insert_at_byte(x: u8, s: Seq<u8>, j: int)
    requires
        0 <= j <= s.len(),
        forall|k: int| j <= k < s.len() ==> x < #[trigger] s[k],
        j > 0 ==> !(x < s[j - 1]),
    ensures
        insert_sorted_byte(x, s) == s.take(j) + seq![x] + s.skip(j),
    decreases s.len(),
{
    if j == s.len() {
        if s.len() == 0 {
            assert(insert_sorted_byte(x, s) =~= s.take(j) + seq![x] + s.skip(j));
        } else {
            assert(s.take(j) =~= s);
            assert(s.skip(j) =~= Seq::<u8>::empty());
            assert(insert_sorted_byte(x, s) =~= s.take(j) + seq![x] + s.skip(j));
        }
    } else {
        let d = s.drop_last();
        assert forall|k: int| j <= k < d.len() implies x < #[trigger] d[k] by {
            assert(d[k] == s[k]);
        }
        if j > 0 {
            assert(d[j - 1] == s[j - 1]);
        }
        lemma_insert_at_byte(x, d, j);
        assert(d.take(j) =~= s.take(j));
        assert((d.take(j) + seq![x] + d.skip(j)).push(s.last()) =~= s.take(j) + seq![x] + s.skip(
            j,
        ));
    }
}

/// Insert one value into an already built sorted run.
#[verifier::loop_isolation(false)]
fn insert_val(r: &mut Vec<Gval>, x: Gval)
    requires
        all_wf(old(r)@),
        x.wf(),
    ensures
        all_wf(final(r)@),
        views(final(r)@) == insert_sorted(x@, views(old(r)@)),
{
    let ghost s = views(r@);
    let mut j: usize = r.len();
    while j > 0 && matches!(crate::value::cmp_val(&x, &r[j - 1]), Ord3::Lt)
        invariant
            j <= r@.len(),
            r@ == old(r)@,
            forall|k: int| j <= k < s.len() ==> crate::value::cmp_v(x@, #[trigger] s[k])
                == Ord3::Lt,
        decreases j,
    {
        j -= 1;
    }
    proof {
        lemma_insert_at(x@, s, j as int);
    }
    let ghost prev = r@;
    r.insert(j, x);
    proof {
        assert forall|k: int| 0 <= k < r@.len() implies (#[trigger] r@[k]).wf() by {
            if k < j {
                assert(r@[k] == prev[k]);
                assert(prev[k].wf());
            } else if k == j {
            } else {
                assert(r@[k] == prev[k - 1]);
                assert(prev[k - 1].wf());
            }
        }
        assert forall|k: int| 0 <= k < r@.len() implies views(r@)[k] == (s.take(j as int)
            + seq![x@] + s.skip(j as int))[k] by {
            if k < j {
                assert(r@[k] == prev[k]);
            } else if k == j {
            } else {
                assert(r@[k] == prev[k - 1]);
            }
        }
        assert(views(r@) =~= s.take(j as int) + seq![x@] + s.skip(j as int));
    }
}

/// Sort values in the total order, stably.
#[verifier::loop_isolation(false)]
pub(crate) fn sort_vals(a: Vec<Gval>) -> (r: Vec<Gval>)
    requires
        all_wf(a@),
    ensures
        all_wf(r@),
        views(r@) == sort_v(views(a@)),
{
    let ghost s = views(a@);
    let mut r: Vec<Gval> = Vec::new();
    let mut i: usize = 0;
    proof {
        assert(views(r@) =~= Seq::<V>::empty());
        assert(s.take(0) =~= Seq::<V>::empty());
        assert(sort_v(s.take(0)) =~= Seq::<V>::empty());
    }
    while i < a.len()
        invariant
            i <= a.len(),
            s.len() == a@.len(),
            all_wf(r@),
            views(r@) == sort_v(s.take(i as int)),
        decreases a.len() - i,
    {
        proof {
            assert(s.take(i + 1).drop_last() =~= s.take(i as int));
            assert(s.take(i + 1).last() == s[i as int]);
            assert(s[i as int] == a@[i as int]@);
        }
        insert_val(&mut r, a[i].clone());
        i += 1;
    }
    proof {
        assert(s.take(s.len() as int) =~= s);
    }
    r
}

/// Insert one byte into an already built sorted run.
#[verifier::loop_isolation(false)]
fn insert_byte(r: &mut Vec<u8>, x: u8)
    ensures
        final(r)@ == insert_sorted_byte(x, old(r)@),
{
    let ghost s = r@;
    let mut j: usize = r.len();
    while j > 0 && x < r[j - 1]
        invariant
            j <= r@.len(),
            r@ == old(r)@,
            forall|k: int| j <= k < s.len() ==> x < #[trigger] s[k],
        decreases j,
    {
        j -= 1;
    }
    proof {
        lemma_insert_at_byte(x, s, j as int);
    }
    let ghost prev = r@;
    r.insert(j, x);
    proof {
        assert forall|k: int| 0 <= k < r@.len() implies r@[k] == (s.take(j as int) + seq![x]
            + s.skip(j as int))[k] by {
            if k < j {
                assert(r@[k] == prev[k]);
            } else if k == j {
            } else {
                assert(r@[k] == prev[k - 1]);
            }
        }
        assert(r@ =~= s.take(j as int) + seq![x] + s.skip(j as int));
    }
}

/// Sort bytes ascending.
#[verifier::loop_isolation(false)]
pub(crate) fn sort_bytes(a: &Vec<u8>) -> (r: Vec<u8>)
    ensures
        r@ == sort_bytes_v(a@),
{
    let mut r: Vec<u8> = Vec::new();
    let mut i: usize = 0;
    proof {
        assert(a@.take(0) =~= Seq::<u8>::empty());
        assert(sort_bytes_v(a@.take(0)) =~= Seq::<u8>::empty());
    }
    while i < a.len()
        invariant
            i <= a.len(),
            r@ == sort_bytes_v(a@.take(i as int)),
        decreases a.len() - i,
    {
        proof {
            assert(a@.take(i + 1).drop_last() =~= a@.take(i as int));
            assert(a@.take(i + 1).last() == a@[i as int]);
        }
        insert_byte(&mut r, a[i]);
        i += 1;
    }
    proof {
        assert(a@.take(a@.len() as int) =~= a@);
    }
    r
}


/// Digit value of an ASCII digit byte; anything else counts zero.
pub open spec fn digit_val(b: u8) -> int {
    if 48 <= b <= 57 {
        b - 48
    } else {
        0
    }
}

/// Value of a run of decimal digit bytes.
pub open spec fn dec_val_digits(s: Seq<u8>) -> int
    decreases s.len(),
{
    if s.len() == 0 {
        0
    } else {
        dec_val_digits(s.drop_last()) * 10 + digit_val(s.last())
    }
}

/// Value of an integer lexeme: an optional leading minus, then digits.
pub open spec fn int_lex_val(s: Seq<u8>) -> int {
    if s.len() > 0 && s[0] == 45 {
        -dec_val_digits(s.drop_first())
    } else {
        dec_val_digits(s)
    }
}

/// The integer an integer literal lexeme denotes.
#[verifier::loop_isolation(false)]
pub(crate) fn parse_int_lexeme(bs: &Vec<u8>) -> (r: Bint)
    ensures
        r.wf(),
        r.as_int() == int_lex_val(bs@),
{
    let neg = bs.len() > 0 && bs[0] == 45;
    let start: usize = if neg {
        1
    } else {
        0
    };
    let ghost digits = if neg {
        bs@.drop_first()
    } else {
        bs@
    };
    let mut acc = Bint::zero();
    let mut i = start;
    let ten = Bint::from_u64(10);
    proof {
        assert(digits.take(0) =~= Seq::<u8>::empty());
    }
    while i < bs.len()
        invariant
            start <= i <= bs@.len(),
            start == if neg {
                1int
            } else {
                0int
            },
            digits == if neg {
                bs@.drop_first()
            } else {
                bs@
            },
            digits.len() == bs@.len() - start,
            acc.wf(),
            ten.wf(),
            ten.as_int() == 10,
            acc.as_int() == dec_val_digits(digits.take(i - start)),
        decreases bs.len() - i,
    {
        let b = bs[i];
        let d = Bint::from_u64(
            if 48 <= b && b <= 57 {
                (b - 48) as u64
            } else {
                0
            },
        );
        let m = crate::bigint::big_mul(&acc, &ten);
        acc = crate::bigint::big_add(&m, &d);
        proof {
            assert(digits.take(i + 1 - start).drop_last() =~= digits.take(i - start));
            assert(digits.take(i + 1 - start).last() == digits[i - start]);
            assert(digits[i - start] == bs@[i as int]);
        }
        i += 1;
    }
    proof {
        assert(digits.take(digits.len() as int) =~= digits);
    }
    if neg {
        acc.negate()
    } else {
        acc
    }
}

/// Termination measure for digit extraction: twice the magnitude, with
/// an extra step for positive numbers (a negative base can bounce a
/// positive number to its negation before shrinking it).
pub open spec fn bd_measure(n: int) -> int {
    2 * (if n >= 0 {
        n
    } else {
        -n
    }) + (if n > 0 {
        1int
    } else {
        0int
    })
}

/// Digits of `n` in base `b`, most significant first; zero has none.
/// Defined for a non-negative `n` with base at least 2, or any `n` with
/// base at most -2.
pub open spec fn base_digits(n: int, b: int) -> Seq<int>
    decreases bd_measure(n),
    when (b >= 2 && n >= 0) || b <= -2
    via base_digits_dec
{
    if n == 0 {
        Seq::empty()
    } else {
        base_digits(crate::bigint::fdiv(n, b), b).push(crate::bigint::fmod(n, b))
    }
}

/// One floored division step shrinks the measure; a positive base keeps
/// the number non-negative.
pub proof fn lemma_fdiv_measure(n: int, b: int)
    requires
        (b >= 2 && n >= 0) || b <= -2,
        n != 0,
    ensures
        bd_measure(crate::bigint::fdiv(n, b)) < bd_measure(n),
        b >= 2 ==> crate::bigint::fdiv(n, b) >= 0 && crate::bigint::fdiv(n, b) == n / b
            && crate::bigint::fmod(n, b) == n % b,
{
    let r = crate::bigint::fmod(n, b);
    let q = crate::bigint::fdiv(n, b);
    vstd::arithmetic::div_mod::lemma_fundamental_div_mod(n, b);
    assert(n % b == n - b * (n / b));
    if b > 0 {
        assert(0 <= n % b < b);
    } else {
        assert(0 <= n % b < -b);
    }
    if r == n % b {
        assert(n - r == b * (n / b));
        assert(q == (n - r) / b);
        assert(b * (n / b) / b == n / b) by (nonlinear_arith)
            requires
                b != 0,
        ;
        assert(q == n / b);
    } else {
        assert(r == n % b + b);
        assert(n - r == b * (n / b) - b);
        assert(n - r == b * (n / b - 1)) by (nonlinear_arith)
            requires
                n - r == b * (n / b) - b,
        ;
        assert(q == (n - r) / b);
        assert(b * (n / b - 1) / b == n / b - 1) by (nonlinear_arith)
            requires
                b != 0,
        ;
        assert(q == n / b - 1);
    }
    assert(q * b + r == n) by (nonlinear_arith)
        requires
            (q == n / b && r == n % b) || (q == n / b - 1 && r == n % b + b),
            n == b * (n / b) + n % b,
    ;
    if b >= 2 {
        assert(r == n % b);
        assert(q == n / b);
        assert(q >= 0 && q < n) by (nonlinear_arith)
            requires
                b >= 2,
                n > 0,
                q * b + r == n,
                0 <= r < b,
        ;
    } else {
        if n > 0 {
            assert(q <= 0 && -q <= n) by (nonlinear_arith)
                requires
                    b <= -2,
                    n > 0,
                    q * b + r == n,
                    b < r <= 0,
            ;
        } else {
            assert(q >= 0 && q <= -n - 1) by (nonlinear_arith)
                requires
                    b <= -2,
                    n < 0,
                    q * b + r == n,
                    b < r <= 0,
            ;
        }
    }
}

#[via_fn]
proof fn base_digits_dec(n: int, b: int) {
    if n != 0 {
        lemma_fdiv_measure(n, b);
    }
}

/// The integers inside a sequence of integer values.
pub open spec fn ints_of(s: Seq<V>) -> Seq<int> {
    Seq::new(
        s.len(),
        |i: int|
            if 0 <= i < s.len() {
                s[i]->Int_0
            } else {
                0
            },
    )
}

/// Every value of the sequence is an integer.
pub open spec fn all_ints(s: Seq<V>) -> bool {
    forall|i: int| 0 <= i < s.len() ==> (#[trigger] s[i]) is Int
}

/// The digits of `n` in base `b` as integer values, most significant
/// first.
pub open spec fn base_digits_v(n: int, b: int) -> Seq<V> {
    Seq::new(
        base_digits(n, b).len(),
        |i: int|
            V::Int(
                if 0 <= i < base_digits(n, b).len() {
                    base_digits(n, b)[i]
                } else {
                    0
                },
            ),
    )
}

/// Horner evaluation of digits, most significant first.
pub open spec fn horner(ds: Seq<int>, b: int) -> int
    decreases ds.len(),
{
    if ds.len() == 0 {
        0
    } else {
        horner(ds.drop_last(), b) * b + ds.last()
    }
}

/// Reassembling the base-`b` digits of a non-negative integer gives the
/// integer back.
pub proof fn lemma_base_round_trip(n: int, b: int)
    requires
        b >= 2,
        n >= 0,
    ensures
        horner(base_digits(n, b), b) == n,
    decreases n,
{
    if n != 0 {
        lemma_fdiv_measure(n, b);
        let q = crate::bigint::fdiv(n, b);
        let r = crate::bigint::fmod(n, b);
        vstd::arithmetic::div_mod::lemma_fundamental_div_mod(n, b);
        assert(q == n / b);
        assert(r == n % b);
        assert(q * b + r == n) by (nonlinear_arith)
            requires
                q == n / b,
                r == n % b,
                n == b * (n / b) + n % b,
        ;
        assert(q >= 0) by (nonlinear_arith)
            requires
                b >= 2,
                n > 0,
                q * b + r == n,
                0 <= r < b,
        ;
        lemma_base_round_trip(q, b);
        assert(base_digits(n, b).drop_last() =~= base_digits(q, b));
        assert(base_digits(n, b).last() == r);
        assert(q * b + r == n);
    }
}


/// The nesting bound for recursive evaluation; deeper nesting fails with
/// a depth error rather than overrunning the host stack.
pub const DEPTH_LIMIT: u64 = 0xffff_ffff_ffff_ffff;

/// Bytes as one-byte string values, element for element.
pub open spec fn byte_strs(bs: Seq<u8>) -> Seq<V> {
    Seq::new(
        bs.len(),
        |i: int|
            V::Str(
                if 0 <= i < bs.len() {
                    seq![bs[i]]
                } else {
                    Seq::empty()
                },
            ),
    )
}

/// Byte strings turned into one-byte string values.
#[verifier::loop_isolation(false)]
fn bytes_to_strs(bs: &Vec<u8>) -> (r: Vec<Gval>)
    ensures
        all_wf(r@),
        views(r@) == byte_strs(bs@),
{
    let mut r: Vec<Gval> = Vec::new();
    let mut i: usize = 0;
    proof {
        assert(views(r@) =~= byte_strs(bs@).take(0));
    }
    while i < bs.len()
        invariant
            i <= bs@.len(),
            all_wf(r@),
            views(r@) == byte_strs(bs@).take(i as int),
        decreases bs.len() - i,
    {
        let ghost prev = r@;
        let mut one: Vec<u8> = Vec::new();
        one.push(bs[i]);
        proof {
            assert(one@ =~= seq![bs@[i as int]]);
        }
        r.push(Gval::Str(one));
        proof {
            assert forall|k: int| 0 <= k < r@.len() implies (#[trigger] r@[k]).wf() by {
                if k < prev.len() {
                    assert(r@[k] == prev[k]);
                    assert(prev[k].wf());
                }
            }
            crate::value::lemma_views_push(prev, r@.last());
            assert(r@ =~= prev.push(r@.last()));
            assert(views(r@) =~= byte_strs(bs@).take(i + 1));
        }
        i += 1;
    }
    proof {
        assert(byte_strs(bs@).take(bs@.len() as int) =~= byte_strs(bs@));
    }
    r
}

/// Integer values turned back into their low bytes: each integer gives
/// its value mod 256, any other value a zero byte.
pub open spec fn low_bytes(s: Seq<V>) -> Seq<u8> {
    Seq::new(
        s.len(),
        |i: int|
            if 0 <= i < s.len() && s[i] is Int {
                crate::bigint::fmod(s[i]->Int_0, 256) as u8
            } else {
                0
            },
    )
}

/// Integer values turned back into their low bytes.
#[verifier::loop_isolation(false)]
fn vals_to_bytes(vs: &Vec<Gval>) -> (r: Vec<u8>)
    requires
        all_wf(vs@),
    ensures
        r@ == low_bytes(views(vs@)),
{
    let mut r: Vec<u8> = Vec::new();
    let mut i: usize = 0;
    proof {
        assert(r@ =~= low_bytes(views(vs@)).take(0));
    }
    while i < vs.len()
        invariant
            i <= vs@.len(),
            all_wf(vs@),
            r@ == low_bytes(views(vs@)).take(i as int),
        decreases vs.len() - i,
    {
        proof {
            assert(vs@[i as int].wf());
            assert(views(vs@)[i as int] == vs@[i as int]@);
        }
        match &vs[i] {
            Gval::Int(n) => {
                r.push(crate::util::to_byte(n.clone()));
            },
            _ => {
                r.push(0);
            },
        }
        proof {
            assert(r@ =~= low_bytes(views(vs@)).take(i + 1));
        }
        i += 1;
    }
    proof {
        assert(low_bytes(views(vs@)).take(vs@.len() as int) =~= low_bytes(views(vs@)));
    }
    r
}

/// Pieces as nested array values.
pub open spec fn arrs_of(ps: Seq<Seq<V>>) -> Seq<V> {
    Seq::new(
        ps.len(),
        |i: int|
            V::Arr(
                if 0 <= i < ps.len() {
                    ps[i]
                } else {
                    Seq::empty()
                },
            ),
    )
}

/// Byte pieces as string (or block) values.
pub open spec fn strs_of(ps: Seq<Seq<u8>>, as_str: bool) -> Seq<V> {
    Seq::new(
        ps.len(),
        |i: int|
            if as_str {
                V::Str(
                    if 0 <= i < ps.len() {
                        ps[i]
                    } else {
                        Seq::empty()
                    },
                )
            } else {
                V::Blk(
                    if 0 <= i < ps.len() {
                        ps[i]
                    } else {
                        Seq::empty()
                    },
                )
            },
    )
}

/// Pieces wrapped as array values.
#[verifier::loop_isolation(false)]
fn wrap_pieces_arr(pieces: Vec<Vec<Gval>>) -> (r: Gval)
    requires
        crate::util::pieces_wf(pieces@),
    ensures
        r.wf(),
        r@ == V::Arr(arrs_of(crate::util::piece_views(pieces@))),
{
    let ghost pv = crate::util::piece_views(pieces@);
    let mut r: Vec<Gval> = Vec::new();
    let mut i: usize = 0;
    proof {
        assert(views(r@) =~= arrs_of(pv).take(0));
    }
    while i < pieces.len()
        invariant
            i <= pieces@.len(),
            pv == crate::util::piece_views(pieces@),
            pv.len() == pieces@.len(),
            crate::util::pieces_wf(pieces@),
            all_wf(r@),
            views(r@) == arrs_of(pv).take(i as int),
        decreases pieces.len() - i,
    {
        let ghost prev = r@;
        proof {
            assert(all_wf(pieces@[i as int]@));
            assert(pieces@[i as int]@.subrange(0, pieces@[i as int]@.len() as int) =~= pieces@[
                i as int
            ]@);
        }
        let piece = crate::util::clone_range(&pieces[i], 0, pieces[i].len());
        let g = Gval::Arr(piece);
        proof {
            lemma_wf_arr(g);
            assert(g@->Arr_0 =~= views(g->Arr_0@));
            assert(g@->Arr_0 =~= pv[i as int]);
            assert(g@ == V::Arr(g@->Arr_0));
        }
        r.push(g);
        proof {
            assert forall|k: int| 0 <= k < r@.len() implies (#[trigger] r@[k]).wf() by {
                if k < prev.len() {
                    assert(r@[k] == prev[k]);
                    assert(prev[k].wf());
                }
            }
            crate::value::lemma_views_push(prev, r@.last());
            assert(r@ =~= prev.push(r@.last()));
            assert(views(r@) =~= arrs_of(pv).take(i + 1));
        }
        i += 1;
    }
    let out = Gval::Arr(r);
    proof {
        lemma_wf_arr(out);
        assert(out@->Arr_0 =~= views(out->Arr_0@));
        assert(arrs_of(pv).take(pv.len() as int) =~= arrs_of(pv));
        assert(out@ == V::Arr(out@->Arr_0));
    }
    out
}

/// Pieces wrapped as string or block values.
#[verifier::loop_isolation(false)]
fn wrap_pieces_bytes(pieces: Vec<Vec<u8>>, as_str: bool) -> (r: Gval)
    ensures
        r.wf(),
        r@ == V::Arr(strs_of(crate::util::byte_views(pieces@), as_str)),
{
    let ghost pv = crate::util::byte_views(pieces@);
    let mut r: Vec<Gval> = Vec::new();
    let mut i: usize = 0;
    proof {
        assert(views(r@) =~= strs_of(pv, as_str).take(0));
    }
    while i < pieces.len()
        invariant
            i <= pieces@.len(),
            pv == crate::util::byte_views(pieces@),
            pv.len() == pieces@.len(),
            all_wf(r@),
            views(r@) == strs_of(pv, as_str).take(i as int),
        decreases pieces.len() - i,
    {
        let ghost prev = r@;
        let piece = crate::value::clone_bytes(&pieces[i]);
        let g = if as_str {
            Gval::Str(piece)
        } else {
            Gval::Blk(piece)
        };
        proof {
            assert(g@ == strs_of(pv, as_str)[i as int]);
        }
        r.push(g);
        proof {
            assert forall|k: int| 0 <= k < r@.len() implies (#[trigger] r@[k]).wf() by {
                if k < prev.len() {
                    assert(r@[k] == prev[k]);
                    assert(prev[k].wf());
                }
            }
            crate::value::lemma_views_push(prev, r@.last());
            assert(r@ =~= prev.push(r@.last()));
            assert(views(r@) =~= strs_of(pv, as_str).take(i + 1));
        }
        i += 1;
    }
    let out = Gval::Arr(r);
    proof {
        lemma_wf_arr(out);
        assert(out@->Arr_0 =~= views(out->Arr_0@));
        assert(strs_of(pv, as_str).take(pv.len() as int) =~= strs_of(pv, as_str));
        assert(out@ == V::Arr(out@->Arr_0));
    }
    out
}

/// Whether a token is the single symbol `:`.
fn is_colon(t: &Gtoken) -> (r: bool)
    ensures
        r == (t@ == crate::parse::TokV::Symbol(seq![58u8])),
{
    match t {
        Gtoken::Symbol(s) => {
            let r = s.len() == 1 && s[0] == 58;
            proof {
                if r {
                    assert(s@ =~= seq![58u8]);
                } else {
                    assert(s@ != seq![58u8]);
                }
            }
            r
        },
        _ => false,
    }
}

/// What a run promises for the smallest whole programs, from the token
/// list alone: an empty program changes nothing; a single literal pushes
/// its value; `:` alone is a parse error; `:` and one following token
/// bind that token's lexeme to the unpopped top of the stack.
pub open spec fn run_prefix_post(code: Seq<u8>, pre: Gs, post: Gs, r: Result<(), Gerr>) -> bool {
    let ts = crate::parse::spec_code(code, 0);
    ts.1 == code.len() ==> {
        &&& ts.0.len() == 0 ==> r is Ok && post == pre
        &&& (ts.0.len() == 1 && lit_result(ts.0[0]) is Some && !pre.vars_v().dom().contains(
            crate::parse::lexeme_v(ts.0[0]),
        )) ==> r is Ok && post.stack_v() == pre.stack_v().push(lit_result(ts.0[0])->0)
        &&& (ts.0.len() == 1 && ts.0[0] == crate::parse::TokV::Symbol(seq![58u8])) ==> r
            == Err::<(), Gerr>(Gerr::ParseError)
        &&& (ts.0.len() == 2 && ts.0[0] == crate::parse::TokV::Symbol(seq![58u8])) ==> ((
        pre.stack_v().len() == 0 ==> r == Err::<(), Gerr>(Gerr::StackUnderflow)) && (
        pre.stack_v().len() >= 1 ==> r is Ok && post.vars_v() == pre.vars_v().insert(
            crate::parse::lexeme_v(ts.0[1]),
            pre.stack_v().last(),
        ) && post.stack_v() == pre.stack_v() && post.marks_v() == pre.marks_v() && post.rng_v()
            == pre.rng_v() && post.out_v() == pre.out_v()))
    }
}

/// The value a literal token pushes, where the token is a literal: an
/// integer, a quoted string, or a block; symbols and comments are none.
pub open spec fn lit_result(t: crate::parse::TokV) -> Option<V> {
    match t {
        crate::parse::TokV::IntLit(bs) => Some(V::Int(int_lex_val(bs))),
        crate::parse::TokV::Sq(bs) => Some(
            V::Str(
                if bs.len() >= 2 {
                    crate::unescape::unescape_seq(bs.subrange(1, bs.len() - 1), true)
                } else {
                    Seq::empty()
                },
            ),
        ),
        crate::parse::TokV::Dq(bs) => Some(
            V::Str(
                if bs.len() >= 2 {
                    crate::unescape::unescape_seq(bs.subrange(1, bs.len() - 1), false)
                } else {
                    Seq::empty()
                },
            ),
        ),
        crate::parse::TokV::Block(_, src) => Some(V::Blk(src)),
        _ => None,
    }
}

impl Gs {
    /// `[`: remember the stack height.
    fn open_bracket(&mut self)
        requires
            old(self).wf(),
        ensures
            final(self).wf(),
            final(self).stack_v() == old(self).stack_v(),
            final(self).marks_v() == old(self).marks_v().push(old(self).stack_v().len() as usize),
            final(self).vars_v() == old(self).vars_v(),
            final(self).rng_v() == old(self).rng_v(),
            final(self).out_v() == old(self).out_v(),
    {
        let n = self.stack.len();
        let ghost prev = self.lb@;
        self.lb.push(n);
        proof {
            assert(self.lb@ =~= prev.push(n));
            assert forall|a: int, b: int|
                0 <= a <= b < self.lb@.len() implies #[trigger] self.lb@[a] <= #[trigger] self.lb@[
                b
            ] by {
                if b < prev.len() {
                    assert(prev[a] <= prev[b]);
                } else if a < prev.len() {
                    assert(prev[a] <= n);
                }
            }
        }
    }

    /// `]`: gather everything above the matching mark into an array.
    fn close_bracket(&mut self)
        requires
            old(self).wf(),
        ensures
            final(self).wf(),
            final(self).vars_v() == old(self).vars_v(),
            final(self).rng_v() == old(self).rng_v(),
            final(self).out_v() == old(self).out_v(),
            ({
                let m = if old(self).marks_v().len() > 0 {
                    old(self).marks_v().last() as int
                } else {
                    0
                };
                final(self).stack_v() == old(self).stack_v().take(m).push(
                    V::Arr(old(self).stack_v().skip(m)),
                ) && final(self).marks_v() == if old(self).marks_v().len() > 0 {
                    old(self).marks_v().drop_last()
                } else {
                    old(self).marks_v()
                }
            }),
    {
        let m = match self.lb.pop() {
            Some(m) => m,
            None => 0,
        };
        proof {
            if old(self).marks_v().len() > 0 {
                assert(self.lb@ =~= old(self).lb@.drop_last());
                assert(old(self).lb@.last() <= self.stack@.len());
                assert forall|a: int| 0 <= a < self.lb@.len() implies #[trigger] self.lb@[a]
                    <= m by {
                    assert(old(self).lb@[a] <= old(self).lb@[old(self).lb@.len() - 1]);
                }
            }
        }
        let vs = self.stack.split_off(m);
        let g = Gval::Arr(vs);
        proof {
            assert(self.stack@ =~= old(self).stack@.take(m as int));
            assert(g->Arr_0@ =~= old(self).stack@.skip(m as int));
            assert forall|k: int| 0 <= k < g->Arr_0@.len() implies (#[trigger] g->Arr_0@[
                k
            ]).wf() by {
                assert(old(self).stack@[m + k].wf());
            }
            lemma_wf_arr(g);
            assert(g@->Arr_0 =~= old(self).stack_v().skip(m as int));
            assert(g@ == V::Arr(g@->Arr_0));
            assert forall|k: int| 0 <= k < self.stack@.len() implies (#[trigger] self.stack@[
                k
            ]).wf() by {
                assert(old(self).stack@[k].wf());
            }
            assert(views(self.stack@) =~= old(self).stack_v().take(m as int));
        }
        let ghost mid = *self;
        self.push(g);
        proof {
            assert(final(self).stack_v() =~= old(self).stack_v().take((if old(
                self,
            ).marks_v().len() > 0 {
                old(self).marks_v().last() as int
            } else {
                0
            })).push(V::Arr(old(self).stack_v().skip((if old(self).marks_v().len() > 0 {
                old(self).marks_v().last() as int
            } else {
                0
            })))));
        }
    }

    /// Run a block's bytes as code; push any other value.
    fn go(&mut self, val: Gval, depth: u64) -> (r: Result<(), Gerr>)
        requires
            old(self).wf(),
            val.wf(),
        ensures
            final(self).wf(),
            !(val is Blk) ==> r is Ok && final(self).stack_v() == old(self).stack_v().push(val@)
                && final(self).marks_v() == old(self).marks_v() && final(self).vars_v() == old(
                self,
            ).vars_v() && final(self).rng_v() == old(self).rng_v() && final(self).out_v() == old(
                self,
            ).out_v(),
            (val is Blk && depth >= 1) ==> ({
                let cr = code_run(old(self).stack_v(), old(self).marks_v(), val@->Blk_0);
                (code_unbound(val@->Blk_0, old(self).vars_v()) && cr is Some) ==> r is Ok
                    && final(self).stack_v() == (cr->0).0 && final(self).marks_v() == (cr->0).1
                    && final(self).vars_v() == old(self).vars_v() && final(self).rng_v() == old(
                    self,
                ).rng_v() && final(self).out_v() == old(self).out_v()
            }),
        decreases depth, 0int,
    {
        match val {
            Gval::Blk(bs) => {
                if depth == 0 {
                    return Err(Gerr::DepthLimit);
                }
                self.run_d(&bs, depth - 1)
            },
            v => {
                self.push(v);
                Ok(())
            },
        }
    }

    /// `~` on the top value: integer complement, array splat, or code.
    #[verifier::loop_isolation(false)]
    pub fn tilde(&mut self, depth: u64) -> (r: Result<(), Gerr>)
        requires
            old(self).wf(),
        ensures
            final(self).wf(),
            old(self).stack_v().len() >= 1 && (old(self).stack_v().last() is Int || old(
                self,
            ).stack_v().last() is Arr) ==> final(self).vars_v() == old(self).vars_v() && final(self).rng_v() == old(self).rng_v() && final(self).out_v() == old(self).out_v(),
            old(self).stack_v().len() == 0 ==> r == Err::<(), Gerr>(Gerr::StackUnderflow),
            old(self).stack_v().len() >= 1 ==> (match old(self).stack_v().last() {
                V::Int(n) => r is Ok && final(self).stack_v() == old(
                    self,
                ).stack_v().drop_last().push(V::Int(-n - 1)) && final(self).marks_v()
                    == pop_marks(old(self).marks_v(), old(self).stack_v().len() as int),
                V::Arr(vs) => r is Ok && final(self).stack_v() == old(self).stack_v().drop_last()
                    + vs && final(self).marks_v() == pop_marks(
                    old(self).marks_v(),
                    old(self).stack_v().len() as int,
                ),
                _ => true,
            }),
        decreases depth, 2int,
    {
        let a = self.pop()?;
        match a {
            Gval::Int(n) => {
                let neg = n.negate();
                let m = crate::bigint::big_sub(&neg, &Bint::from_u64(1));
                self.push(Gval::Int(m));
                Ok(())
            },
            Gval::Arr(vs) => {
                proof {
                    lemma_wf_arr(Gval::Arr(vs));
                    assert(old(self).stack_v().last()->Arr_0 =~= views(vs@));
                }
                let ghost base = self.stack_v();
                let ghost marks0 = self.marks_v();
                let ghost vsv = views(vs@);
                let mut i: usize = 0;
                proof {
                    assert(base + vsv.take(0) =~= base);
                }
                while i < vs.len()
                    invariant
                        i <= vs@.len(),
                        self.wf(),
                        all_wf(vs@),
                        vsv == views(vs@),
                        vsv.len() == vs@.len(),
                        self.stack_v() == base + vsv.take(i as int),
                        self.marks_v() == marks0,
                        self.vars_v() == old(self).vars_v(),
                        self.rng_v() == old(self).rng_v(),
                        self.out_v() == old(self).out_v(),
                    decreases vs.len() - i,
                {
                    proof {
                        assert(vs@[i as int].wf());
                        assert(vsv[i as int] == vs@[i as int]@);
                    }
                    self.push(vs[i].clone());
                    proof {
                        assert(self.stack_v() =~= base + vsv.take(i + 1));
                    }
                    i += 1;
                }
                proof {
                    assert(vsv.take(vsv.len() as int) =~= vsv);
                }
                Ok(())
            },
            Gval::Str(bs) => {
                if depth == 0 {
                    return Err(Gerr::DepthLimit);
                }
                self.run_d(&bs, depth - 1)
            },
            Gval::Blk(bs) => {
                if depth == 0 {
                    return Err(Gerr::DepthLimit);
                }
                self.run_d(&bs, depth - 1)
            },
        }
    }

    /// Keys computed by the block, then a stable sort by key. Whatever
    /// the block computes, the result holds exactly the input values.
    #[verifier::loop_isolation(false)]
    fn sort_by(&mut self, code: &Vec<u8>, vs: Vec<Gval>, depth: u64) -> (r: Result<
        Vec<Gval>,
        Gerr,
    >)
        requires
            old(self).wf(),
            all_wf(vs@),
        ensures
            final(self).wf(),
            match r {
                Ok(out) => all_wf(out@) && views(out@).to_multiset() == views(
                    vs@,
                ).to_multiset(),
                Err(_) => true,
            },
        decreases depth, 1int,
    {
        broadcast use vstd::seq_lib::group_to_multiset_ensures;

        if depth == 0 {
            return Err(Gerr::DepthLimit);
        }
        let mut pairs: Vec<(Gval, Gval)> = Vec::new();
        let mut i: usize = 0;
        proof {
            assert(snds_v(pairs@) =~= views(vs@).take(0));
        }
        while i < vs.len()
            invariant
                i <= vs@.len(),
                self.wf(),
                all_wf(vs@),
                forall|k: int| 0 <= k < pairs@.len() ==> (#[trigger] pairs@[k]).0.wf() && pairs@[
                    k
                ].1.wf(),
                snds_v(pairs@) == views(vs@).take(i as int),
            decreases vs.len() - i,
        {
            proof {
                assert(vs@[i as int].wf());
            }
            let v = vs[i].clone();
            self.push(v.clone());
            self.run_d(code, depth - 1)?;
            let key = self.pop()?;
            let ghost prev = pairs@;
            pairs.push((key, v));
            proof {
                assert forall|k: int|
                    0 <= k < pairs@.len() implies (#[trigger] pairs@[k]).0.wf() && pairs@[
                    k
                ].1.wf() by {
                    if k < prev.len() {
                        assert(prev[k].0.wf() && prev[k].1.wf());
                    }
                }
                assert forall|k: int| 0 <= k < prev.len() + 1 implies snds_v(pairs@)[k] == views(
                    vs@,
                ).take(i + 1)[k] by {
                    if k < prev.len() {
                        assert(pairs@[k] == prev[k]);
                    } else {
                        assert(pairs@[k] == pairs@.last());
                    }
                }
                assert(snds_v(pairs@) =~= views(vs@).take(i + 1));
            }
            i += 1;
        }
        proof {
            assert(views(vs@).take(vs@.len() as int) =~= views(vs@));
        }
        let mut sorted: Vec<(Gval, Gval)> = Vec::new();
        let mut i2: usize = 0;
        proof {
            assert(snds_v(sorted@) =~= Seq::<V>::empty());
            assert(snds_v(pairs@).take(0) =~= Seq::<V>::empty());
            assert(snds_v(sorted@).to_multiset() =~= snds_v(pairs@).take(0).to_multiset());
        }
        while i2 < pairs.len()
            invariant
                i2 <= pairs@.len(),
                forall|k: int| 0 <= k < pairs@.len() ==> (#[trigger] pairs@[k]).0.wf() && pairs@[
                    k
                ].1.wf(),
                forall|k: int| 0 <= k < sorted@.len() ==> (#[trigger] sorted@[k]).0.wf() && sorted@[
                    k
                ].1.wf(),
                snds_v(sorted@).to_multiset() == snds_v(pairs@).take(i2 as int).to_multiset(),
            decreases pairs.len() - i2,
        {
            proof {
                assert(pairs@[i2 as int].0.wf() && pairs@[i2 as int].1.wf());
            }
            let p = (pairs[i2].0.clone(), pairs[i2].1.clone());
            let ghost pv = p.1@;
            let mut j: usize = sorted.len();
            while j > 0 && matches!(
                crate::value::cmp_val(&p.0, &sorted[j - 1].0),
                Ord3::Lt,
            )
                invariant
                    j <= sorted@.len(),
                    p.0.wf(),
                    forall|k: int|
                        0 <= k < sorted@.len() ==> (#[trigger] sorted@[k]).0.wf() && sorted@[
                        k
                    ].1.wf(),
                decreases j,
            {
                j -= 1;
            }
            let ghost prev = sorted@;
            sorted.insert(j, p);
            proof {
                assert forall|k: int|
                    0 <= k < sorted@.len() implies (#[trigger] sorted@[k]).0.wf() && sorted@[
                    k
                ].1.wf() by {
                    if k < j {
                        assert(sorted@[k] == prev[k]);
                        assert(prev[k].0.wf() && prev[k].1.wf());
                    } else if k > j {
                        assert(sorted@[k] == prev[k - 1]);
                        assert(prev[k - 1].0.wf() && prev[k - 1].1.wf());
                    }
                }
                assert forall|k: int| 0 <= k < prev.len() + 1 implies snds_v(sorted@)[k] == snds_v(
                    prev,
                ).insert(j as int, pv)[k] by {
                    if k < j {
                        assert(sorted@[k] == prev[k]);
                    } else if k > j {
                        assert(sorted@[k] == prev[k - 1]);
                    }
                }
                assert(snds_v(sorted@) =~= snds_v(prev).insert(j as int, pv));
                lemma_insert_to_multiset(snds_v(prev), j as int, pv);
                assert(snds_v(pairs@)[i2 as int] == pv);
                assert(snds_v(pairs@).take(i2 + 1).drop_last() =~= snds_v(pairs@).take(
                    i2 as int,
                ));
                assert(snds_v(pairs@).take(i2 + 1) =~= snds_v(pairs@).take(i2 as int).push(pv));
            }
            i2 += 1;
        }
        proof {
            assert(snds_v(pairs@).take(pairs@.len() as int) =~= snds_v(pairs@));
        }
        let mut out: Vec<Gval> = Vec::new();
        let mut i3: usize = 0;
        proof {
            assert(views(out@) =~= snds_v(sorted@).take(0));
        }
        while i3 < sorted.len()
            invariant
                i3 <= sorted@.len(),
                all_wf(out@),
                forall|k: int| 0 <= k < sorted@.len() ==> (#[trigger] sorted@[k]).0.wf() && sorted@[
                    k
                ].1.wf(),
                views(out@) == snds_v(sorted@).take(i3 as int),
            decreases sorted.len() - i3,
        {
            proof {
                assert(sorted@[i3 as int].0.wf() && sorted@[i3 as int].1.wf());
            }
            let ghost prev = out@;
            out.push(sorted[i3].1.clone());
            proof {
                assert forall|k: int| 0 <= k < out@.len() implies (#[trigger] out@[k]).wf() by {
                    if k < prev.len() {
                        assert(out@[k] == prev[k]);
                        assert(prev[k].wf());
                    }
                }
                lemma_views_push(prev, out@.last());
                assert(out@ =~= prev.push(out@.last()));
                assert(views(out@) =~= snds_v(sorted@).take(i3 + 1));
            }
            i3 += 1;
        }
        proof {
            assert(snds_v(sorted@).take(sorted@.len() as int) =~= snds_v(sorted@));
            assert(views(out@).to_multiset() == views(vs@).to_multiset());
        }
        Ok(out)
    }

    /// `$` on the top value: copy a stack element, sort a sequence, or
    /// sort by a block-computed key.
    #[verifier::loop_isolation(false)]
    pub fn dollar(&mut self, depth: u64) -> (r: Result<(), Gerr>)
        requires
            old(self).wf(),
        ensures
            final(self).wf(),
            !(old(self).stack_v().len() >= 1 && old(self).stack_v().last() is Blk) ==> final(self).vars_v() == old(self).vars_v() && final(self).rng_v() == old(self).rng_v() && final(self).out_v() == old(self).out_v(),
            old(self).stack_v().len() == 0 ==> r == Err::<(), Gerr>(Gerr::StackUnderflow),
            old(self).stack_v().len() >= 1 ==> (match old(self).stack_v().last() {
                V::Int(n) => ({
                    let s1 = old(self).stack_v().drop_last();
                    r is Ok && final(self).stack_v() == (if n <= -2 && -n - 2 < s1.len() {
                        s1.push(s1[-n - 2])
                    } else if 0 <= n < s1.len() {
                        s1.push(s1[s1.len() - 1 - n])
                    } else {
                        s1
                    }) && final(self).marks_v() == pop_marks(
                        old(self).marks_v(),
                        old(self).stack_v().len() as int,
                    )
                }),
                V::Arr(vs) => r is Ok && final(self).stack_v() == old(
                    self,
                ).stack_v().drop_last().push(V::Arr(sort_v(vs))) && final(self).marks_v()
                    == pop_marks(old(self).marks_v(), old(self).stack_v().len() as int),
                V::Str(bs) => r is Ok && final(self).stack_v() == old(
                    self,
                ).stack_v().drop_last().push(V::Str(sort_bytes_v(bs))) && final(self).marks_v()
                    == pop_marks(old(self).marks_v(), old(self).stack_v().len() as int),
                _ => true,
            }),
            old(self).stack_v().len() >= 2 && old(self).stack_v().last() is Blk && old(
                self,
            ).stack_v()[old(self).stack_v().len() - 2] is Arr && r is Ok ==> final(self).stack_v().len() >= 1 && final(self).stack_v().last() is Arr && final(self).stack_v().last()->Arr_0.to_multiset() == old(self).stack_v()[old(
                self,
            ).stack_v().len() - 2]->Arr_0.to_multiset(),
        decreases depth, 2int,
    {
        let a = self.pop()?;
        match a {
            Gval::Int(n) => {
                let ghost s1 = self.stack_v();
                let l = self.stack.len();
                proof {
                    assert(s1.len() == self.stack@.len());
                    assert(l == s1.len());
                }
                if n.is_negative() {
                    let minus_two = crate::bigint::big_sub(
                        &Bint::zero(),
                        &Bint::from_u64(2),
                    );
                    if matches!(crate::bigint::big_cmp(&n, &minus_two), Ord3::Lt | Ord3::Eq) {
                        let idx = crate::bigint::big_sub(
                            &crate::bigint::big_sub(&Bint::zero(), &n),
                            &Bint::from_u64(2),
                        );
                        match idx.to_u64() {
                            Some(x) => {
                                if x < self.stack.len() as u64 {
                                    let v = self.stack[x as usize].clone();
                                    proof {
                                        assert(self.stack@[x as int].wf());
                                        assert(v@ == s1[x as int]);
                                    }
                                    self.push(v);
                                }
                            },
                            None => {},
                        }
                    }
                } else {
                    match n.to_u64() {
                        Some(x) => {
                            if x < self.stack.len() as u64 {
                                let pos = self.stack.len() - 1 - x as usize;
                                let v = self.stack[pos].clone();
                                proof {
                                    assert(self.stack@[pos as int].wf());
                                    assert(v@ == s1[pos as int]);
                                }
                                self.push(v);
                            }
                        },
                        None => {},
                    }
                }
                Ok(())
            },
            Gval::Arr(vs) => {
                proof {
                    lemma_wf_arr(Gval::Arr(vs));
                    assert(old(self).stack_v().last()->Arr_0 =~= views(vs@));
                }
                let sorted = sort_vals(vs);
                let g = Gval::Arr(sorted);
                proof {
                    lemma_wf_arr(g);
                    assert(g@->Arr_0 =~= views(g->Arr_0@));
                    assert(g@ == V::Arr(g@->Arr_0));
                    assert(g@ == V::Arr(sort_v(old(self).stack_v().last()->Arr_0)));
                }
                self.push(g);
                Ok(())
            },
            Gval::Str(bs) => {
                let sorted = sort_bytes(&bs);
                self.push(Gval::Str(sorted));
                Ok(())
            },
            Gval::Blk(code) => {
                let target = self.pop()?;
                proof {
                    assert(old(self).stack_v().drop_last().last() == old(self).stack_v()[old(
                        self,
                    ).stack_v().len() - 2]);
                    assert(old(self).stack_v().drop_last().drop_last() =~= old(
                        self,
                    ).stack_v().take(old(self).stack_v().len() - 2));
                }
                match target {
                    Gval::Int(_) => Err(Gerr::TypeError),
                    Gval::Arr(vs) => {
                        proof {
                            lemma_wf_arr(Gval::Arr(vs));
                            let sv = old(self).stack_v();
                            assert(sv[sv.len() - 2]->Arr_0 =~= views(vs@));
                        }
                        let sorted = self.sort_by(&code, vs, depth)?;
                        let g = Gval::Arr(sorted);
                        proof {
                            lemma_wf_arr(g);
                            assert(g@->Arr_0 =~= views(g->Arr_0@));
                        }
                        self.push(g);
                        Ok(())
                    },
                    Gval::Str(bs) => {
                        let vals = crate::value::bytes_as_ints(&bs);
                        let sorted = self.sort_by(&code, vals, depth)?;
                        let back = vals_to_bytes(&sorted);
                        self.push(Gval::Str(back));
                        Ok(())
                    },
                    Gval::Blk(bs) => {
                        let vals = crate::value::bytes_as_ints(&bs);
                        let sorted = self.sort_by(&code, vals, depth)?;
                        let back = vals_to_bytes(&sorted);
                        self.push(Gval::Blk(back));
                        Ok(())
                    },
                }
            },
        }
    }
}


impl Gs {
    /// Fold: push the first element, then push each next element and run
    /// the block between.
    #[verifier::loop_isolation(false)]
    fn fold(&mut self, code: &Vec<u8>, vs: Vec<Gval>, depth: u64) -> (r: Result<(), Gerr>)
        requires
            old(self).wf(),
            all_wf(vs@),
        ensures
            final(self).wf(),
        decreases depth, 1int,
    {
        if depth == 0 {
            return Err(Gerr::DepthLimit);
        }
        let mut i: usize = 0;
        while i < vs.len()
            invariant
                self.wf(),
                all_wf(vs@),
            decreases vs.len() - i,
        {
            proof {
                assert(vs@[i as int].wf());
            }
            self.push(vs[i].clone());
            if i >= 1 {
                self.run_d(code, depth - 1)?;
            }
            i += 1;
        }
        Ok(())
    }

    /// Each: push every element and run the block after it.
    #[verifier::loop_isolation(false)]
    fn each(&mut self, code: &Vec<u8>, vs: Vec<Gval>, depth: u64) -> (r: Result<(), Gerr>)
        requires
            old(self).wf(),
            all_wf(vs@),
        ensures
            final(self).wf(),
        decreases depth, 1int,
    {
        if depth == 0 {
            return Err(Gerr::DepthLimit);
        }
        let mut i: usize = 0;
        while i < vs.len()
            invariant
                self.wf(),
                all_wf(vs@),
            decreases vs.len() - i,
        {
            proof {
                assert(vs@[i as int].wf());
            }
            self.push(vs[i].clone());
            self.run_d(code, depth - 1)?;
            i += 1;
        }
        Ok(())
    }

    /// Map: run the block on each element and collect everything it
    /// leaves above the per-element watermark.
    #[verifier::loop_isolation(false)]
    #[verifier::rlimit(100)]
    fn gs_map(&mut self, code: &Vec<u8>, vs: Vec<Gval>, depth: u64) -> (r: Result<
        Vec<Gval>,
        Gerr,
    >)
        requires
            old(self).wf(),
            all_wf(vs@),
        ensures
            final(self).wf(),
            match r {
                Ok(out) => all_wf(out@),
                Err(_) => true,
            },
            ({
                let mr = map_run(old(self).stack_v(), old(self).marks_v(), code@, views(vs@));
                (code_unbound(code@, old(self).vars_v()) && depth >= 1 && mr is Some) ==> (match r {
                    Ok(out) => views(out@) == (mr->0).2 && final(self).stack_v() == (mr->0).0
                        && final(self).marks_v() == (mr->0).1 && final(self).vars_v() == old(
                        self,
                    ).vars_v() && final(self).rng_v() == old(self).rng_v() && final(self).out_v()
                        == old(self).out_v(),
                    Err(_) => false,
                })
            }),
        decreases depth, 1int,
    {
        if depth == 0 {
            return Err(Gerr::DepthLimit);
        }
        let ghost vsv = views(vs@);
        let ghost tgt = map_run(self.stack_v(), self.marks_v(), code@, vsv);
        let ghost live = code_unbound(code@, old(self).vars_v()) && tgt is Some;
        let mut out: Vec<Gval> = Vec::new();
        let mut i: usize = 0;
        proof {
            assert(vsv.skip(0) =~= vsv);
            assert(views(out@) + (tgt->0).2 =~= (tgt->0).2);
        }
        while i < vs.len()
            invariant
                i <= vs@.len(),
                self.wf(),
                all_wf(vs@),
                all_wf(out@),
                vsv == views(vs@),
                live ==> ({
                    let rest = map_run(self.stack_v(), self.marks_v(), code@, vsv.skip(i as int));
                    rest is Some && (rest->0).0 == (tgt->0).0 && (rest->0).1 == (tgt->0).1
                        && views(out@) + (rest->0).2 == (tgt->0).2 && self.vars_v() == old(
                        self,
                    ).vars_v() && self.rng_v() == old(self).rng_v() && self.out_v() == old(
                        self,
                    ).out_v()
                }),
            decreases vs.len() - i,
        {
            proof {
                assert(vs@[i as int].wf());
                assert(vsv[i as int] == vs@[i as int]@);
                assert(vsv.skip(i as int).first() == vsv[i as int]);
                assert(vsv.skip(i as int).drop_first() =~= vsv.skip(i + 1));
            }
            let ghost bpre = *self;
            let ghost outpre = views(out@);
            let mark = self.stack.len();
            self.push(vs[i].clone());
            proof {
                if live {
                    assert(map_step(bpre.stack_v(), bpre.marks_v(), code@, vsv[i as int])
                        is Some);
                    assert(code_run(bpre.stack_v().push(vsv[i as int]), bpre.marks_v(), code@)
                        is Some);
                }
            }
            self.run_d(code, depth - 1)?;
            let ghost smst = (self.stack_v(), self.marks_v());
            let ghost arun = *self;
            let mut batch: Vec<Gval> = Vec::new();
            let ghost keep: int = if smst.0.len() as int <= mark as int {
                smst.0.len() as int
            } else {
                mark as int
            };
            proof {
                assert(smst.0.take(smst.0.len() as int) =~= smst.0);
                assert(smst.0.skip(smst.0.len() as int).reverse() =~= views(batch@));
            }
            while self.stack.len() > mark
                invariant
                    self.wf(),
                    all_wf(batch@),
                    self.stack_v().len() <= smst.0.len(),
                    self.stack_v().len() >= keep,
                    keep == (if smst.0.len() as int <= mark as int {
                        smst.0.len() as int
                    } else {
                        mark as int
                    }),
                    self.stack_v() == smst.0.take(self.stack_v().len() as int),
                    self.marks_v() == pops_to(
                        smst.1,
                        smst.0.len() as int,
                        self.stack_v().len() as int,
                    ),
                    views(batch@) == smst.0.skip(self.stack_v().len() as int).reverse(),
                    self.vars_v() == arun.vars_v(),
                    self.rng_v() == arun.rng_v(),
                    self.out_v() == arun.out_v(),
                decreases self.stack@.len(),
            {
                let ghost pre = self.stack@.len();
                proof {
                    assert(self.stack_v().len() == pre);
                }
                let v = self.pop()?;
                proof {
                    assert(self.stack_v().len() == pre - 1);
                    assert(views(self.stack@).len() == self.stack@.len());
                    assert(self.stack@.len() < pre);
                    assert(smst.0.take(pre as int).drop_last() =~= smst.0.take(pre - 1));
                    assert(v@ == smst.0.take(pre as int).last());
                    lemma_pops_to_snoc(smst.1, smst.0.len() as int, pre - 1);
                }
                let ghost prev = batch@;
                batch.push(v);
                proof {
                    assert forall|k: int| 0 <= k < batch@.len() implies (#[trigger] batch@[
                        k
                    ]).wf() by {
                        if k < prev.len() {
                            assert(batch@[k] == prev[k]);
                            assert(prev[k].wf());
                        }
                    }
                    assert(views(batch@) =~= views(prev).push(v@));
                    assert(views(batch@) =~= smst.0.skip(pre - 1).reverse());
                }
            }
            proof {
                assert(self.stack_v().len() == keep);
                assert(self.stack_v() == smst.0.take(keep));
                assert(views(batch@) == smst.0.skip(keep).reverse());
            }
            let mut j: usize = batch.len();
            let ghost outmid = views(out@);
            proof {
                assert(views(batch@).skip(j as int).reverse() =~= Seq::<V>::empty());
                assert(views(out@) =~= outmid + views(batch@).skip(j as int).reverse());
            }
            while j > 0
                invariant
                    j <= batch@.len(),
                    all_wf(batch@),
                    all_wf(out@),
                    views(out@) == outmid + views(batch@).skip(j as int).reverse(),
                decreases j,
            {
                j -= 1;
                proof {
                    assert(batch@[j as int].wf());
                }
                let ghost prev = out@;
                out.push(batch[j].clone());
                proof {
                    assert forall|k: int| 0 <= k < out@.len() implies (#[trigger] out@[k]).wf() by {
                        if k < prev.len() {
                            assert(out@[k] == prev[k]);
                            assert(prev[k].wf());
                        }
                    }
                    assert(views(out@) =~= views(prev).push(batch@[j as int]@));
                    assert(views(batch@).skip(j as int).reverse() =~= views(batch@).skip(j + 1
                    ).reverse().push(views(batch@)[j as int]));
                    assert(views(out@) =~= outmid + views(batch@).skip(j as int).reverse());
                }
            }
            proof {
                assert(views(batch@).skip(0) =~= views(batch@));
                assert(views(out@) == outmid + views(batch@).reverse());
                if live {
                    let st = map_step(bpre.stack_v(), bpre.marks_v(), code@, vsv[i as int]);
                    assert(code_run(bpre.stack_v().push(vsv[i as int]), bpre.marks_v(), code@)
                        == Some(smst));
                    assert((st->0).0 == smst.0.take(keep));
                    assert((st->0).1 == pops_to(smst.1, smst.0.len() as int, keep));
                    assert((st->0).2 == smst.0.skip(keep));
                    assert(views(batch@).reverse() =~= smst.0.skip(keep));
                    assert(views(out@) == outpre + (st->0).2);
                    let rest = map_run(bpre.stack_v(), bpre.marks_v(), code@, vsv.skip(i as int));
                    let rest2 = map_run((st->0).0, (st->0).1, code@, vsv.skip(i + 1));
                    assert(rest2 is Some);
                    assert((rest->0).2 == (st->0).2 + (rest2->0).2);
                    assert((outpre + (st->0).2) + (rest2->0).2 =~= outpre + ((st->0).2 + (
                    rest2->0).2));
                }
            }
            i += 1;
        }
        proof {
            if live {
                assert(vsv.skip(i as int) =~= Seq::<V>::empty());
                assert(views(out@) + Seq::<V>::empty() =~= views(out@));
            }
        }
        Ok(out)
    }

    /// Select: keep the elements for which the block leaves a truthy
    /// value. Whatever the block does, the result is a subsequence of the
    /// input: the input filtered through some keep-mask.
    #[verifier::loop_isolation(false)]
    fn select(&mut self, code: &Vec<u8>, vs: Vec<Gval>, depth: u64) -> (r: Result<
        Vec<Gval>,
        Gerr,
    >)
        requires
            old(self).wf(),
            all_wf(vs@),
        ensures
            final(self).wf(),
            match r {
                Ok(out) => all_wf(out@) && (exists|m: Seq<bool>|
                    m.len() == vs@.len() && views(out@) == mask_select(views(vs@), m)),
                Err(_) => true,
            },
            ({
                let sr = select_run(old(self).stack_v(), old(self).marks_v(), code@, views(vs@));
                (code_unbound(code@, old(self).vars_v()) && depth >= 1 && sr is Some) ==> (match r {
                    Ok(out) => views(out@) == (sr->0).2 && final(self).stack_v() == (sr->0).0
                        && final(self).marks_v() == (sr->0).1 && final(self).vars_v() == old(
                        self,
                    ).vars_v() && final(self).rng_v() == old(self).rng_v() && final(self).out_v()
                        == old(self).out_v(),
                    Err(_) => false,
                })
            }),
        decreases depth, 1int,
    {
        if depth == 0 {
            return Err(Gerr::DepthLimit);
        }
        let ghost vsv = views(vs@);
        let ghost tgt = select_run(self.stack_v(), self.marks_v(), code@, vsv);
        let ghost live = code_unbound(code@, old(self).vars_v()) && tgt is Some;
        let mut out: Vec<Gval> = Vec::new();
        let mut i: usize = 0;
        let ghost mut mask: Seq<bool> = Seq::empty();
        proof {
            assert(views(out@) =~= mask_select(views(vs@).take(0), mask));
            assert(vsv.skip(0) =~= vsv);
            assert(views(out@) + (tgt->0).2 =~= (tgt->0).2);
        }
        while i < vs.len()
            invariant
                i <= vs@.len(),
                self.wf(),
                all_wf(vs@),
                all_wf(out@),
                mask.len() == i,
                views(out@) == mask_select(views(vs@).take(i as int), mask),
                vsv == views(vs@),
                live ==> ({
                    let rest = select_run(self.stack_v(), self.marks_v(), code@, vsv.skip(
                        i as int,
                    ));
                    rest is Some && (rest->0).0 == (tgt->0).0 && (rest->0).1 == (tgt->0).1
                        && views(out@) + (rest->0).2 == (tgt->0).2 && self.vars_v() == old(
                        self,
                    ).vars_v() && self.rng_v() == old(self).rng_v() && self.out_v() == old(
                        self,
                    ).out_v()
                }),
            decreases vs.len() - i,
        {
            proof {
                assert(vs@[i as int].wf());
                assert(vsv[i as int] == vs@[i as int]@);
                assert(vsv.skip(i as int).first() == vsv[i as int]);
                assert(vsv.skip(i as int).drop_first() =~= vsv.skip(i + 1));
            }
            let ghost bpre = *self;
            let ghost outpre = views(out@);
            self.push(vs[i].clone());
            proof {
                if live {
                    assert(code_run(bpre.stack_v().push(vsv[i as int]), bpre.marks_v(), code@)
                        is Some);
                }
            }
            self.run_d(code, depth - 1)?;
            let ghost smst = (self.stack_v(), self.marks_v());
            let v = self.pop()?;
            proof {
                if live {
                    let sm = (code_run(bpre.stack_v().push(vsv[i as int]), bpre.marks_v(), code@)
                        ->0);
                    assert(sm == smst);
                    assert(v@ == smst.0.last());
                    assert(self.stack_v() == smst.0.drop_last());
                    assert(self.marks_v() == pop_marks(smst.1, smst.0.len() as int));
                    let rest2 = select_run(self.stack_v(), self.marks_v(), code@, vsv.skip(i + 1));
                    assert(rest2 is Some);
                    if falsey_v(v@) {
                        assert(outpre + ((rest2->0).2) == (tgt->0).2);
                    } else {
                        assert((outpre + seq![vsv[i as int]]) + (rest2->0).2 =~= outpre + (seq![
                            vsv[i as int],
                        ] + (rest2->0).2));
                    }
                }
            }
            let ghost prevm = mask;
            let ghost prevt = views(vs@).take(i as int);
            proof {
                assert(views(vs@).take(i + 1).drop_last() =~= prevt);
                assert(views(vs@).take(i + 1).last() == views(vs@)[i as int]);
            }
            if v.truthy() {
                let ghost prev = out@;
                out.push(vs[i].clone());
                proof {
                    assert forall|k: int| 0 <= k < out@.len() implies (#[trigger] out@[k]).wf() by {
                        if k < prev.len() {
                            assert(out@[k] == prev[k]);
                            assert(prev[k].wf());
                        }
                    }
                    lemma_views_push(prev, out@.last());
                    assert(out@ =~= prev.push(out@.last()));
                    mask = mask.push(true);
                    assert(mask.drop_last() =~= prevm);
                    assert(views(out@) =~= mask_select(views(vs@).take(i + 1), mask));
                    assert(views(out@) =~= outpre.push(vsv[i as int]));
                    assert(outpre.push(vsv[i as int]) =~= outpre + seq![vsv[i as int]]);
                }
            } else {
                proof {
                    mask = mask.push(false);
                    assert(mask.drop_last() =~= prevm);
                    assert(views(out@) =~= mask_select(views(vs@).take(i + 1), mask));
                }
            }
            i += 1;
        }
        proof {
            assert(views(vs@).take(vs@.len() as int) =~= views(vs@));
            assert(views(out@) == mask_select(views(vs@), mask));
            if live {
                assert(vsv.skip(i as int) =~= Seq::<V>::empty());
                assert(views(out@) + Seq::<V>::empty() =~= views(out@));
            }
        }
        Ok(out)
    }

    /// Find: push the first element for which the block leaves a truthy
    /// value.
    #[verifier::loop_isolation(false)]
    fn find(&mut self, code: &Vec<u8>, vs: Vec<Gval>, depth: u64) -> (r: Result<(), Gerr>)
        requires
            old(self).wf(),
            all_wf(vs@),
        ensures
            final(self).wf(),
            ({
                let fr = find_run(old(self).stack_v(), old(self).marks_v(), code@, views(vs@));
                (code_unbound(code@, old(self).vars_v()) && depth >= 1 && fr is Some) ==> r is Ok
                    && final(self).stack_v() == (fr->0).0 && final(self).marks_v() == (fr->0).1
                    && final(self).vars_v() == old(self).vars_v() && final(self).rng_v() == old(
                    self,
                ).rng_v() && final(self).out_v() == old(self).out_v()
            }),
        decreases depth, 1int,
    {
        if depth == 0 {
            return Err(Gerr::DepthLimit);
        }
        let ghost vsv = views(vs@);
        let ghost tgt = find_run(self.stack_v(), self.marks_v(), code@, vsv);
        let ghost live = code_unbound(code@, old(self).vars_v()) && tgt is Some;
        let mut i: usize = 0;
        proof {
            assert(vsv.skip(0) =~= vsv);
        }
        while i < vs.len()
            invariant
                i <= vs@.len(),
                self.wf(),
                all_wf(vs@),
                vsv == views(vs@),
                live ==> find_run(self.stack_v(), self.marks_v(), code@, vsv.skip(i as int))
                    == tgt && self.vars_v() == old(self).vars_v() && self.rng_v() == old(
                    self,
                ).rng_v() && self.out_v() == old(self).out_v(),
            decreases vs.len() - i,
        {
            proof {
                assert(vs@[i as int].wf());
                assert(vsv[i as int] == vs@[i as int]@);
                assert(vsv.skip(i as int).first() == vsv[i as int]);
                assert(vsv.skip(i as int).drop_first() =~= vsv.skip(i + 1));
            }
            let ghost bpre = *self;
            self.push(vs[i].clone());
            proof {
                if live {
                    assert(code_run(bpre.stack_v().push(vsv[i as int]), bpre.marks_v(), code@)
                        is Some);
                }
            }
            self.run_d(code, depth - 1)?;
            let ghost smst = (self.stack_v(), self.marks_v());
            let v = self.pop()?;
            proof {
                if live {
                    assert(v@ == smst.0.last());
                    assert(self.stack_v() == smst.0.drop_last());
                    assert(self.marks_v() == pop_marks(smst.1, smst.0.len() as int));
                }
            }
            if v.truthy() {
                self.push(vs[i].clone());
                return Ok(());
            }
            i += 1;
        }
        proof {
            if live {
                assert(vsv.skip(i as int) =~= Seq::<V>::empty());
            }
        }
        Ok(())
    }

    /// `do`: run the body, pop, stop when the popped value is falsey.
    #[verifier::loop_isolation(false)]
    fn do_loop(&mut self, depth: u64) -> (r: Result<(), Gerr>)
        requires
            old(self).wf(),
        ensures
            final(self).wf(),
            (old(self).stack_v().len() >= 1 && old(self).stack_v().last() is Blk) ==> ({
                let f = old(self).stack_v().last()->Blk_0;
                let base = old(self).stack_v().drop_last();
                let bm = pop_marks(old(self).marks_v(), old(self).stack_v().len() as int);
                forall|fuel: nat|
                    (code_unbound(f, old(self).vars_v()) && fuel <= depth && (#[trigger] do_run(
                        base,
                        bm,
                        f,
                        fuel,
                    )) is Some) ==> r is Ok && final(self).stack_v() == (do_run(base, bm, f, fuel)->0).0
                        && final(self).marks_v() == (do_run(base, bm, f, fuel)->0).1 && final(self).vars_v() == old(self).vars_v() && final(self).rng_v() == old(self).rng_v()
                        && final(self).out_v() == old(self).out_v()
            }),
        decreases depth, 1int,
    {
        let a = self.pop()?;
        let ghost isblk = a@ is Blk;
        let ghost f = if a@ is Blk {
            a@->Blk_0
        } else {
            Seq::<u8>::empty()
        };
        let ghost base = self.stack_v();
        let ghost bm = self.marks_v();
        let mut d = depth;
        let ghost mut i: nat = 0;
        loop
            invariant
                self.wf(),
                a.wf(),
                d <= depth,
                isblk == (a@ is Blk),
                isblk ==> f == a@->Blk_0,
                i + d == depth,
                isblk ==> ({
                    let live = code_unbound(f, old(self).vars_v()) && exists|fuel: nat|
                        fuel <= depth && (#[trigger] do_run(base, bm, f, fuel)) is Some;
                    live ==> self.vars_v() == old(self).vars_v() && self.rng_v() == old(
                        self,
                    ).rng_v() && self.out_v() == old(self).out_v()
                }),
                isblk ==> (forall|fuel: nat|
                    (code_unbound(f, old(self).vars_v()) && fuel <= depth && (#[trigger] do_run(
                        base,
                        bm,
                        f,
                        fuel,
                    )) is Some) ==> fuel > i && do_run(
                        self.stack_v(),
                        self.marks_v(),
                        f,
                        (fuel - i) as nat,
                    ) == do_run(base, bm, f, fuel)),
            decreases d,
        {
            if d == 0 {
                return Err(Gerr::DepthLimit);
            }
            let ghost pre = *self;
            self.go(a.clone(), d)?;
            proof {
                if isblk && code_unbound(f, old(self).vars_v()) && exists|fuel: nat|
                    fuel <= depth && (#[trigger] do_run(base, bm, f, fuel)) is Some {
                    let fuel = choose|fuel: nat|
                        fuel <= depth && (#[trigger] do_run(base, bm, f, fuel)) is Some;
                    assert(do_run(pre.stack_v(), pre.marks_v(), f, (fuel - i) as nat) == do_run(
                        base,
                        bm,
                        f,
                        fuel,
                    ));
                    assert(code_run(pre.stack_v(), pre.marks_v(), f) is Some);
                }
            }
            let c = self.pop()?;
            if c.falsey() {
                return Ok(());
            }
            proof {
                i = i + 1;
            }
            d = d - 1;
        }
    }

    /// `while` and `until`: run the condition, pop, stop on falsey (for
    /// `while`) or truthy (for `until`), else run the body.
    #[verifier::loop_isolation(false)]
    fn while_loop(&mut self, which: bool, depth: u64) -> (r: Result<(), Gerr>)
        requires
            old(self).wf(),
        ensures
            final(self).wf(),
        decreases depth, 1int,
    {
        let b = self.pop()?;
        let a = self.pop()?;
        let mut d = depth;
        loop
            invariant
                self.wf(),
                a.wf(),
                b.wf(),
                d <= depth,
            decreases d,
        {
            if d == 0 {
                return Err(Gerr::DepthLimit);
            }
            self.go(a.clone(), d)?;
            let c = self.pop()?;
            if c.falsey() == which {
                return Ok(());
            }
            self.go(b.clone(), d)?;
            d = d - 1;
        }
    }

    /// `*` on two values: multiply, repeat, join, run a block repeatedly,
    /// or fold.
    #[verifier::loop_isolation(false)]
    pub fn asterisk(&mut self, depth: u64) -> (r: Result<(), Gerr>)
        requires
            old(self).wf(),
        ensures
            final(self).wf(),
            !(old(self).stack_v().len() >= 2 && (old(self).stack_v()[old(self).stack_v().len()
                - 2] is Blk || old(self).stack_v().last() is Blk)) ==> final(self).vars_v() == old(
                self,
            ).vars_v() && final(self).rng_v() == old(self).rng_v() && final(self).out_v() == old(
                self,
            ).out_v(),
            r is Ok && old(self).stack_v().len() >= 2 && !(old(self).stack_v()[old(
                self,
            ).stack_v().len() - 2] is Blk || old(self).stack_v().last() is Blk) ==> final(self).marks_v() == pop_marks(
                pop_marks(old(self).marks_v(), old(self).stack_v().len() as int),
                old(self).stack_v().len() - 1,
            ),
            old(self).stack_v().len() <= 1 ==> r == Err::<(), Gerr>(Gerr::StackUnderflow),
            ({
                let sv = old(self).stack_v();
                let len = sv.len() as int;
                (sv.len() >= 2 && depth >= 1 && ((sv[len - 2] is Int && sv.last() is Blk) || (
                sv[len - 2] is Blk && sv.last() is Int))) ==> ({
                    let n = if sv[len - 2] is Int {
                        sv[len - 2]->Int_0
                    } else {
                        sv.last()->Int_0
                    };
                    let f = if sv[len - 2] is Blk {
                        sv[len - 2]->Blk_0
                    } else {
                        sv.last()->Blk_0
                    };
                    let k: nat = if n >= 0 {
                        n as nat
                    } else {
                        0nat
                    };
                    let ir = iter_run(
                        sv.take(len - 2),
                        pop_marks(pop_marks(old(self).marks_v(), len), len - 1),
                        f,
                        k,
                    );
                    (code_unbound(f, old(self).vars_v()) && ir is Some) ==> r is Ok && final(self).stack_v() == (ir->0).0 && final(self).marks_v() == (ir->0).1 && final(self).vars_v() == old(self).vars_v() && final(self).rng_v() == old(self).rng_v()
                        && final(self).out_v() == old(self).out_v()
                })
            }),
            old(self).stack_v().len() >= 2 ==> (match (
                old(self).stack_v()[old(self).stack_v().len() - 2],
                old(self).stack_v().last(),
            ) {
                (V::Int(x), V::Int(y)) => r is Ok && final(self).stack_v() == old(
                    self,
                ).stack_v().take(old(self).stack_v().len() - 2).push(V::Int(x * y)) && final(self).marks_v() == pop_marks(
                    pop_marks(old(self).marks_v(), old(self).stack_v().len() as int),
                    old(self).stack_v().len() - 1,
                ),
                (V::Int(n), V::Arr(vs)) => r is Ok && final(self).stack_v() == old(
                    self,
                ).stack_v().take(old(self).stack_v().len() - 2).push(
                    V::Arr(crate::util::repeat_seq(vs, n)),
                ),
                (V::Arr(vs), V::Int(n)) => r is Ok && final(self).stack_v() == old(
                    self,
                ).stack_v().take(old(self).stack_v().len() - 2).push(
                    V::Arr(crate::util::repeat_seq(vs, n)),
                ),
                (V::Int(n), V::Str(bs)) => r is Ok && final(self).stack_v() == old(
                    self,
                ).stack_v().take(old(self).stack_v().len() - 2).push(
                    V::Str(crate::util::repeat_seq(bs, n)),
                ),
                (V::Str(bs), V::Int(n)) => r is Ok && final(self).stack_v() == old(
                    self,
                ).stack_v().take(old(self).stack_v().len() - 2).push(
                    V::Str(crate::util::repeat_seq(bs, n)),
                ),
                (V::Arr(vs), V::Arr(sep)) => r is Ok && final(self).stack_v() == old(
                    self,
                ).stack_v().take(old(self).stack_v().len() - 2).push(
                    crate::value::join_v(vs, V::Arr(sep)),
                ),
                (V::Arr(vs), V::Str(sep)) => r is Ok && final(self).stack_v() == old(
                    self,
                ).stack_v().take(old(self).stack_v().len() - 2).push(
                    crate::value::join_v(vs, V::Str(sep)),
                ),
                (V::Str(sep), V::Arr(vs)) => r is Ok && final(self).stack_v() == old(
                    self,
                ).stack_v().take(old(self).stack_v().len() - 2).push(
                    crate::value::join_v(vs, V::Str(sep)),
                ),
                (V::Str(bs), V::Str(sep)) => r is Ok && final(self).stack_v() == old(
                    self,
                ).stack_v().take(old(self).stack_v().len() - 2).push(
                    crate::value::join_v(byte_strs(bs), V::Str(sep)),
                ),
                _ => true,
            }),
        decreases depth, 2int,
    {
        let (a, b) = self.pop2()?;
        match (a, b) {
            (Gval::Int(x), Gval::Int(y)) => {
                self.push(Gval::Int(crate::bigint::big_mul(&x, &y)));
                Ok(())
            },
            (Gval::Int(n), Gval::Arr(x)) | (Gval::Arr(x), Gval::Int(n)) => {
                proof {
                    lemma_wf_arr(Gval::Arr(x));
                    let sv = old(self).stack_v();
                    if sv[sv.len() - 2] is Arr {
                        assert(sv[sv.len() - 2]->Arr_0 =~= views(x@));
                    } else {
                        assert(sv.last()->Arr_0 =~= views(x@));
                    }
                }
                let rep = crate::util::repeat(x, n);
                let g = Gval::Arr(rep);
                proof {
                    lemma_wf_arr(g);
                    assert(g@->Arr_0 =~= views(g->Arr_0@));
                    assert(g@ == V::Arr(g@->Arr_0));
                }
                self.push(g);
                Ok(())
            },
            (Gval::Int(n), Gval::Str(x)) | (Gval::Str(x), Gval::Int(n)) => {
                let rep = crate::util::repeat_bytes(&x, &n);
                self.push(Gval::Str(rep));
                Ok(())
            },
            (Gval::Int(n), Gval::Blk(f)) | (Gval::Blk(f), Gval::Int(n)) => {
                if depth == 0 {
                    return Err(Gerr::DepthLimit);
                }
                let ghost fv = f@;
                let ghost k: nat = if n.as_int() >= 0 {
                    n.as_int() as nat
                } else {
                    0nat
                };
                let ghost target = iter_run(self.stack_v(), self.marks_v(), fv, k);
                let mut m = n;
                while m.is_positive()
                    invariant
                        self.wf(),
                        m.wf(),
                        depth >= 1,
                        fv == f@,
                        ({
                            let rem: nat = if m.as_int() >= 0 {
                                m.as_int() as nat
                            } else {
                                0nat
                            };
                            (code_unbound(fv, old(self).vars_v()) && target is Some) ==> iter_run(
                                self.stack_v(),
                                self.marks_v(),
                                fv,
                                rem,
                            ) == target && self.vars_v() == old(self).vars_v() && self.rng_v()
                                == old(self).rng_v() && self.out_v() == old(self).out_v()
                        }),
                    decreases (if m.as_int() > 0 { m.as_int() } else { 0 }),
                {
                    proof {
                        if code_unbound(fv, old(self).vars_v()) && target is Some {
                            let rem: nat = m.as_int() as nat;
                            assert(iter_run(self.stack_v(), self.marks_v(), fv, rem) == target);
                            assert(code_run(self.stack_v(), self.marks_v(), fv) is Some);
                        }
                    }
                    self.run_d(&f, depth - 1)?;
                    m = crate::bigint::big_sub(&m, &Bint::from_u64(1));
                }
                Ok(())
            },
            (Gval::Arr(x), Gval::Arr(sep)) => {
                proof {
                    lemma_wf_arr(Gval::Arr(x));
                    lemma_wf_arr(Gval::Arr(sep));
                    let sv = old(self).stack_v();
                    assert(sv[sv.len() - 2]->Arr_0 =~= views(x@));
                    assert(sv.last()->Arr_0 =~= views(sep@));
                }
                let ghost sepv = Gval::Arr(sep)@;
                let j = crate::value::join(x, Gval::Arr(sep));
                proof {
                    assert(sepv == V::Arr(sepv->Arr_0));
                }
                self.push(j);
                Ok(())
            },
            (Gval::Arr(x), Gval::Str(sep)) | (Gval::Str(sep), Gval::Arr(x)) => {
                proof {
                    lemma_wf_arr(Gval::Arr(x));
                    let sv = old(self).stack_v();
                    if sv[sv.len() - 2] is Arr {
                        assert(sv[sv.len() - 2]->Arr_0 =~= views(x@));
                    } else {
                        assert(sv.last()->Arr_0 =~= views(x@));
                    }
                }
                let j = crate::value::join(x, Gval::Str(sep));
                self.push(j);
                Ok(())
            },
            (Gval::Str(x), Gval::Str(sep)) => {
                let pieces = bytes_to_strs(&x);
                let j = crate::value::join(pieces, Gval::Str(sep));
                self.push(j);
                Ok(())
            },
            (Gval::Blk(code), Gval::Blk(x)) | (Gval::Str(x), Gval::Blk(code)) | (
                Gval::Blk(code),
                Gval::Str(x),
            ) => {
                let vals = crate::value::bytes_as_ints(&x);
                self.fold(&code, vals, depth)
            },
            (Gval::Arr(x), Gval::Blk(code)) | (Gval::Blk(code), Gval::Arr(x)) => {
                proof {
                    lemma_wf_arr(Gval::Arr(x));
                }
                self.fold(&code, x, depth)
            },
        }
    }

    /// `/` on two values: floored division, split, each, chunk, or
    /// unfold.
    #[verifier::loop_isolation(false)]
    pub fn slash(&mut self, depth: u64) -> (r: Result<(), Gerr>)
        requires
            old(self).wf(),
        ensures
            final(self).wf(),
            !(old(self).stack_v().len() >= 2 && (old(self).stack_v()[old(self).stack_v().len()
                - 2] is Blk || old(self).stack_v().last() is Blk)) ==> final(self).vars_v() == old(
                self,
            ).vars_v() && final(self).rng_v() == old(self).rng_v() && final(self).out_v() == old(
                self,
            ).out_v(),
            r is Ok && old(self).stack_v().len() >= 2 && !(old(self).stack_v()[old(
                self,
            ).stack_v().len() - 2] is Blk || old(self).stack_v().last() is Blk) ==> final(self).marks_v() == pop_marks(
                pop_marks(old(self).marks_v(), old(self).stack_v().len() as int),
                old(self).stack_v().len() - 1,
            ),
            old(self).stack_v().len() >= 2 ==> (match (
                old(self).stack_v()[old(self).stack_v().len() - 2],
                old(self).stack_v().last(),
            ) {
                (V::Int(x), V::Int(y)) => if y == 0 {
                    r == Err::<(), Gerr>(Gerr::ArithmeticError)
                } else {
                    r is Ok && final(self).stack_v() == old(self).stack_v().take(
                        old(self).stack_v().len() - 2,
                    ).push(V::Int(crate::bigint::fdiv(x, y))) && final(self).marks_v()
                        == pop_marks(
                        pop_marks(old(self).marks_v(), old(self).stack_v().len() as int),
                        old(self).stack_v().len() - 1,
                    )
                },
                (V::Arr(x), V::Arr(sep)) => sep.len() > 0 ==> r is Ok && final(self).stack_v()
                    == old(self).stack_v().take(old(self).stack_v().len() - 2).push(
                    V::Arr(arrs_of(crate::util::spec_split(x, sep))),
                ),
                (V::Str(x), V::Str(sep)) => sep.len() > 0 ==> r is Ok && final(self).stack_v()
                    == old(self).stack_v().take(old(self).stack_v().len() - 2).push(
                    V::Arr(strs_of(crate::util::spec_split(x, sep), true)),
                ),
                (V::Arr(x), V::Str(sep)) => sep.len() > 0 ==> r is Ok && final(self).stack_v()
                    == old(self).stack_v().take(old(self).stack_v().len() - 2).push(
                    V::Arr(arrs_of(crate::util::spec_split(x, crate::value::byte_ints(sep)))),
                ),
                (V::Str(sep), V::Arr(x)) => sep.len() > 0 ==> r is Ok && final(self).stack_v()
                    == old(self).stack_v().take(old(self).stack_v().len() - 2).push(
                    V::Arr(arrs_of(crate::util::spec_split(x, crate::value::byte_ints(sep)))),
                ),
                (V::Int(n), V::Arr(x)) => n != 0 ==> r is Ok && final(self).stack_v() == old(
                    self,
                ).stack_v().take(old(self).stack_v().len() - 2).push(
                    V::Arr(
                        arrs_of(
                            crate::util::chunks_of(
                                if n < 0 {
                                    x.reverse()
                                } else {
                                    x
                                },
                                if n < 0 {
                                    -n
                                } else {
                                    n
                                },
                            ),
                        ),
                    ),
                ),
                (V::Arr(x), V::Int(n)) => n != 0 ==> r is Ok && final(self).stack_v() == old(
                    self,
                ).stack_v().take(old(self).stack_v().len() - 2).push(
                    V::Arr(
                        arrs_of(
                            crate::util::chunks_of(
                                if n < 0 {
                                    x.reverse()
                                } else {
                                    x
                                },
                                if n < 0 {
                                    -n
                                } else {
                                    n
                                },
                            ),
                        ),
                    ),
                ),
                (V::Int(_), V::Blk(_)) => r == Err::<(), Gerr>(Gerr::TypeError),
                (V::Blk(_), V::Int(_)) => r == Err::<(), Gerr>(Gerr::TypeError),
                _ => true,
            }),
            old(self).stack_v().len() <= 1 ==> r == Err::<(), Gerr>(Gerr::StackUnderflow),
        decreases depth, 2int,
    {
        let (a, b) = self.pop2()?;
        match (a, b) {
            (Gval::Int(x), Gval::Int(y)) => {
                if y.is_zero() {
                    return Err(Gerr::ArithmeticError);
                }
                self.push(Gval::Int(crate::bigint::big_div_floor(&x, &y)));
                Ok(())
            },
            (Gval::Arr(x), Gval::Arr(sep)) => {
                if sep.len() == 0 {
                    return Err(Gerr::TypeError);
                }
                proof {
                    lemma_wf_arr(Gval::Arr(x));
                    lemma_wf_arr(Gval::Arr(sep));
                    let sv = old(self).stack_v();
                    assert(sv[sv.len() - 2]->Arr_0 =~= views(x@));
                    assert(sv.last()->Arr_0 =~= views(sep@));
                }
                let pieces = crate::util::split(x, sep, false);
                let g = wrap_pieces_arr(pieces);
                self.push(g);
                Ok(())
            },
            (Gval::Str(x), Gval::Str(sep)) => {
                if sep.len() == 0 {
                    return Err(Gerr::TypeError);
                }
                let pieces = crate::util::split_bytes(&x, &sep, false);
                let g = wrap_pieces_bytes(pieces, true);
                self.push(g);
                Ok(())
            },
            (Gval::Arr(x), Gval::Str(sep)) | (Gval::Str(sep), Gval::Arr(x)) => {
                if sep.len() == 0 {
                    return Err(Gerr::TypeError);
                }
                proof {
                    lemma_wf_arr(Gval::Arr(x));
                    let sv = old(self).stack_v();
                    if sv[sv.len() - 2] is Arr {
                        assert(sv[sv.len() - 2]->Arr_0 =~= views(x@));
                    } else {
                        assert(sv.last()->Arr_0 =~= views(x@));
                    }
                }
                let sepv = crate::value::bytes_as_ints(&sep);
                proof {
                    assert(views(sepv@) =~= crate::value::byte_ints(sep@));
                }
                if sepv.len() == 0 {
                    return Err(Gerr::TypeError);
                }
                let pieces = crate::util::split(x, sepv, false);
                let g = wrap_pieces_arr(pieces);
                self.push(g);
                Ok(())
            },
            (Gval::Str(x), Gval::Blk(code)) | (Gval::Blk(code), Gval::Str(x)) => {
                let vals = crate::value::bytes_as_ints(&x);
                self.each(&code, vals, depth)
            },
            (Gval::Arr(x), Gval::Blk(code)) | (Gval::Blk(code), Gval::Arr(x)) => {
                proof {
                    lemma_wf_arr(Gval::Arr(x));
                }
                self.each(&code, x, depth)
            },
            (Gval::Int(n), Gval::Arr(x)) | (Gval::Arr(x), Gval::Int(n)) => {
                if n.is_zero() {
                    return Err(Gerr::ArithmeticError);
                }
                proof {
                    lemma_wf_arr(Gval::Arr(x));
                    let sv = old(self).stack_v();
                    if sv[sv.len() - 2] is Arr {
                        assert(sv[sv.len() - 2]->Arr_0 =~= views(x@));
                    } else {
                        assert(sv.last()->Arr_0 =~= views(x@));
                    }
                }
                let pieces = crate::util::chunk(x, n);
                let g = wrap_pieces_arr(pieces);
                self.push(g);
                Ok(())
            },
            (Gval::Int(n), Gval::Str(x)) | (Gval::Str(x), Gval::Int(n)) => {
                if n.is_zero() {
                    return Err(Gerr::ArithmeticError);
                }
                let pieces = crate::util::chunk_bytes(&x, &n);
                let g = wrap_pieces_bytes(pieces, true);
                self.push(g);
                Ok(())
            },
            (Gval::Blk(cond), Gval::Blk(step)) => {
                if depth == 0 {
                    return Err(Gerr::DepthLimit);
                }
                let mut acc: Vec<Gval> = Vec::new();
                let mut d = depth;
                loop
                    invariant
                        self.wf(),
                        all_wf(acc@),
                        d <= depth,
                    decreases d,
                {
                    if d == 0 {
                        return Err(Gerr::DepthLimit);
                    }
                    let t = self.top()?.clone();
                    self.push(t);
                    self.run_d(&cond, d - 1)?;
                    let c = self.pop()?;
                    if c.falsey() {
                        break;
                    }
                    let ghost prev = acc@;
                    let keep = self.top()?.clone();
                    acc.push(keep);
                    proof {
                        assert forall|k: int|
                            0 <= k < acc@.len() implies (#[trigger] acc@[k]).wf() by {
                            if k < prev.len() {
                                assert(acc@[k] == prev[k]);
                                assert(prev[k].wf());
                            }
                        }
                    }
                    self.run_d(&step, d - 1)?;
                    d = d - 1;
                }
                let _ = self.pop()?;
                let g = Gval::Arr(acc);
                proof {
                    lemma_wf_arr(g);
                }
                self.push(g);
                Ok(())
            },
            (Gval::Int(_), Gval::Blk(_)) | (Gval::Blk(_), Gval::Int(_)) => Err(Gerr::TypeError),
        }
    }

    /// `%` on two values: floored modulus, clean split, map, or stride.
    #[verifier::loop_isolation(false)]
    pub fn percent(&mut self, depth: u64) -> (r: Result<(), Gerr>)
        requires
            old(self).wf(),
        ensures
            final(self).wf(),
            !(old(self).stack_v().len() >= 2 && (old(self).stack_v()[old(self).stack_v().len()
                - 2] is Blk || old(self).stack_v().last() is Blk)) ==> final(self).vars_v() == old(
                self,
            ).vars_v() && final(self).rng_v() == old(self).rng_v() && final(self).out_v() == old(
                self,
            ).out_v(),
            r is Ok && old(self).stack_v().len() >= 2 && !(old(self).stack_v()[old(
                self,
            ).stack_v().len() - 2] is Blk || old(self).stack_v().last() is Blk) ==> final(self).marks_v() == pop_marks(
                pop_marks(old(self).marks_v(), old(self).stack_v().len() as int),
                old(self).stack_v().len() - 1,
            ),
            ({
                let sv = old(self).stack_v();
                let len = sv.len() as int;
                (sv.len() >= 2 && depth >= 1 && ((sv[len - 2] is Arr && sv.last() is Blk) || (
                sv[len - 2] is Blk && sv.last() is Arr))) ==> ({
                    let xs = if sv[len - 2] is Arr {
                        sv[len - 2]->Arr_0
                    } else {
                        sv.last()->Arr_0
                    };
                    let f = if sv[len - 2] is Blk {
                        sv[len - 2]->Blk_0
                    } else {
                        sv.last()->Blk_0
                    };
                    let mr = map_run(
                        sv.take(len - 2),
                        pop_marks(pop_marks(old(self).marks_v(), len), len - 1),
                        f,
                        xs,
                    );
                    (code_unbound(f, old(self).vars_v()) && mr is Some) ==> r is Ok && final(self).stack_v() == (mr->0).0.push(V::Arr((mr->0).2)) && final(self).marks_v() == (
                    mr->0).1 && final(self).vars_v() == old(self).vars_v() && final(self).rng_v()
                        == old(self).rng_v() && final(self).out_v() == old(self).out_v()
                })
            }),
            ({
                let sv = old(self).stack_v();
                let len = sv.len() as int;
                (sv.len() >= 2 && depth >= 1 && ((sv[len - 2] is Str && sv.last() is Blk) || (
                sv[len - 2] is Blk && sv.last() is Str))) ==> ({
                    let xs = if sv[len - 2] is Str {
                        sv[len - 2]->Str_0
                    } else {
                        sv.last()->Str_0
                    };
                    let f = if sv[len - 2] is Blk {
                        sv[len - 2]->Blk_0
                    } else {
                        sv.last()->Blk_0
                    };
                    let mr = map_run(
                        sv.take(len - 2),
                        pop_marks(pop_marks(old(self).marks_v(), len), len - 1),
                        f,
                        crate::value::byte_ints(xs),
                    );
                    (code_unbound(f, old(self).vars_v()) && mr is Some) ==> r is Ok && final(self).stack_v() == (mr->0).0.push(
                        V::Str(crate::coerce::flatten_seq((mr->0).2)),
                    ) && final(self).marks_v() == (mr->0).1 && final(self).vars_v() == old(
                        self,
                    ).vars_v() && final(self).rng_v() == old(self).rng_v() && final(self).out_v()
                        == old(self).out_v()
                })
            }),
            old(self).stack_v().len() >= 2 ==> (match (
                old(self).stack_v()[old(self).stack_v().len() - 2],
                old(self).stack_v().last(),
            ) {
                (V::Int(x), V::Int(y)) => if y == 0 {
                    r == Err::<(), Gerr>(Gerr::ArithmeticError)
                } else {
                    r is Ok && final(self).stack_v() == old(self).stack_v().take(
                        old(self).stack_v().len() - 2,
                    ).push(V::Int(crate::bigint::fmod(x, y))) && final(self).marks_v()
                        == pop_marks(
                        pop_marks(old(self).marks_v(), old(self).stack_v().len() as int),
                        old(self).stack_v().len() - 1,
                    )
                },
                (V::Arr(x), V::Arr(sep)) => sep.len() > 0 ==> r is Ok && final(self).stack_v()
                    == old(self).stack_v().take(old(self).stack_v().len() - 2).push(
                    V::Arr(arrs_of(crate::util::drop_empty(crate::util::spec_split(x, sep)))),
                ),
                (V::Str(x), V::Str(sep)) => sep.len() > 0 ==> r is Ok && final(self).stack_v()
                    == old(self).stack_v().take(old(self).stack_v().len() - 2).push(
                    V::Arr(
                        strs_of(crate::util::drop_empty(crate::util::spec_split(x, sep)), true),
                    ),
                ),
                (V::Arr(x), V::Str(sep)) => sep.len() > 0 ==> r is Ok && final(self).stack_v()
                    == old(self).stack_v().take(old(self).stack_v().len() - 2).push(
                    V::Arr(
                        arrs_of(
                            crate::util::drop_empty(
                                crate::util::spec_split(x, crate::value::byte_ints(sep)),
                            ),
                        ),
                    ),
                ),
                (V::Str(sep), V::Arr(x)) => sep.len() > 0 ==> r is Ok && final(self).stack_v()
                    == old(self).stack_v().take(old(self).stack_v().len() - 2).push(
                    V::Arr(
                        arrs_of(
                            crate::util::drop_empty(
                                crate::util::spec_split(x, crate::value::byte_ints(sep)),
                            ),
                        ),
                    ),
                ),
                (V::Int(n), V::Arr(x)) => n != 0 ==> r is Ok && final(self).stack_v() == old(
                    self,
                ).stack_v().take(old(self).stack_v().len() - 2).push(
                    V::Arr(
                        crate::util::every_kth(
                            if n < 0 {
                                x.reverse()
                            } else {
                                x
                            },
                            if n < 0 {
                                -n
                            } else {
                                n
                            },
                        ),
                    ),
                ),
                (V::Arr(x), V::Int(n)) => n != 0 ==> r is Ok && final(self).stack_v() == old(
                    self,
                ).stack_v().take(old(self).stack_v().len() - 2).push(
                    V::Arr(
                        crate::util::every_kth(
                            if n < 0 {
                                x.reverse()
                            } else {
                                x
                            },
                            if n < 0 {
                                -n
                            } else {
                                n
                            },
                        ),
                    ),
                ),
                (V::Int(n), V::Str(x)) => n != 0 ==> r is Ok && final(self).stack_v() == old(
                    self,
                ).stack_v().take(old(self).stack_v().len() - 2).push(
                    V::Str(
                        crate::util::every_kth(
                            if n < 0 {
                                x.reverse()
                            } else {
                                x
                            },
                            if n < 0 {
                                -n
                            } else {
                                n
                            },
                        ),
                    ),
                ),
                (V::Str(x), V::Int(n)) => n != 0 ==> r is Ok && final(self).stack_v() == old(
                    self,
                ).stack_v().take(old(self).stack_v().len() - 2).push(
                    V::Str(
                        crate::util::every_kth(
                            if n < 0 {
                                x.reverse()
                            } else {
                                x
                            },
                            if n < 0 {
                                -n
                            } else {
                                n
                            },
                        ),
                    ),
                ),
                (V::Int(_), V::Blk(_)) => r == Err::<(), Gerr>(Gerr::TypeError),
                (V::Blk(_), V::Int(_)) => r == Err::<(), Gerr>(Gerr::TypeError),
                (V::Blk(_), V::Blk(_)) => r == Err::<(), Gerr>(Gerr::TypeError),
                _ => true,
            }),
            old(self).stack_v().len() <= 1 ==> r == Err::<(), Gerr>(Gerr::StackUnderflow),
        decreases depth, 2int,
    {
        let (a, b) = self.pop2()?;
        match (a, b) {
            (Gval::Int(x), Gval::Int(y)) => {
                if y.is_zero() {
                    return Err(Gerr::ArithmeticError);
                }
                self.push(Gval::Int(crate::bigint::big_mod_floor(&x, &y)));
                Ok(())
            },
            (Gval::Arr(x), Gval::Arr(sep)) => {
                if sep.len() == 0 {
                    return Err(Gerr::TypeError);
                }
                proof {
                    lemma_wf_arr(Gval::Arr(x));
                    lemma_wf_arr(Gval::Arr(sep));
                    let sv = old(self).stack_v();
                    assert(sv[sv.len() - 2]->Arr_0 =~= views(x@));
                    assert(sv.last()->Arr_0 =~= views(sep@));
                }
                let pieces = crate::util::split(x, sep, true);
                let g = wrap_pieces_arr(pieces);
                self.push(g);
                Ok(())
            },
            (Gval::Str(x), Gval::Str(sep)) => {
                if sep.len() == 0 {
                    return Err(Gerr::TypeError);
                }
                let pieces = crate::util::split_bytes(&x, &sep, true);
                let g = wrap_pieces_bytes(pieces, true);
                self.push(g);
                Ok(())
            },
            (Gval::Arr(x), Gval::Str(sep)) | (Gval::Str(sep), Gval::Arr(x)) => {
                if sep.len() == 0 {
                    return Err(Gerr::TypeError);
                }
                proof {
                    lemma_wf_arr(Gval::Arr(x));
                    let sv = old(self).stack_v();
                    if sv[sv.len() - 2] is Arr {
                        assert(sv[sv.len() - 2]->Arr_0 =~= views(x@));
                    } else {
                        assert(sv.last()->Arr_0 =~= views(x@));
                    }
                }
                let sepv = crate::value::bytes_as_ints(&sep);
                proof {
                    assert(views(sepv@) =~= crate::value::byte_ints(sep@));
                }
                if sepv.len() == 0 {
                    return Err(Gerr::TypeError);
                }
                let pieces = crate::util::split(x, sepv, true);
                let g = wrap_pieces_arr(pieces);
                self.push(g);
                Ok(())
            },
            (Gval::Arr(x), Gval::Blk(code)) | (Gval::Blk(code), Gval::Arr(x)) => {
                proof {
                    lemma_wf_arr(Gval::Arr(x));
                    let sv = old(self).stack_v();
                    if sv[sv.len() - 2] is Arr {
                        assert(sv[sv.len() - 2]->Arr_0 =~= views(x@));
                    } else {
                        assert(sv.last()->Arr_0 =~= views(x@));
                    }
                }
                let out = self.gs_map(&code, x, depth)?;
                let g = Gval::Arr(out);
                proof {
                    lemma_wf_arr(g);
                    assert(g@->Arr_0 =~= views(g->Arr_0@));
                    assert(g@ == V::Arr(g@->Arr_0));
                }
                self.push(g);
                Ok(())
            },
            (Gval::Str(x), Gval::Blk(code)) | (Gval::Blk(code), Gval::Str(x)) => {
                let vals = crate::value::bytes_as_ints(&x);
                proof {
                    let sv = old(self).stack_v();
                    if sv[sv.len() - 2] is Str {
                        assert(views(vals@) =~= crate::value::byte_ints(sv[sv.len() - 2]->Str_0));
                    } else {
                        assert(views(vals@) =~= crate::value::byte_ints(sv.last()->Str_0));
                    }
                }
                let out = self.gs_map(&code, vals, depth)?;
                proof {
                    assert(Gval::Arr(out)@->Arr_0 =~= views(out@));
                }
                let bytes = crate::coerce::flatten(out);
                self.push(Gval::Str(bytes));
                Ok(())
            },
            (Gval::Int(n), Gval::Arr(x)) | (Gval::Arr(x), Gval::Int(n)) => {
                if n.is_zero() {
                    return Err(Gerr::ArithmeticError);
                }
                proof {
                    lemma_wf_arr(Gval::Arr(x));
                    let sv = old(self).stack_v();
                    if sv[sv.len() - 2] is Arr {
                        assert(sv[sv.len() - 2]->Arr_0 =~= views(x@));
                    } else {
                        assert(sv.last()->Arr_0 =~= views(x@));
                    }
                }
                let picked = crate::util::every_nth(x, n);
                let g = Gval::Arr(picked);
                proof {
                    lemma_wf_arr(g);
                    assert(g@->Arr_0 =~= views(g->Arr_0@));
                    assert(g@ == V::Arr(g@->Arr_0));
                }
                self.push(g);
                Ok(())
            },
            (Gval::Int(n), Gval::Str(x)) | (Gval::Str(x), Gval::Int(n)) => {
                if n.is_zero() {
                    return Err(Gerr::ArithmeticError);
                }
                let picked = crate::util::every_nth_bytes(&x, &n);
                self.push(Gval::Str(picked));
                Ok(())
            },
            (Gval::Int(_), Gval::Blk(_)) | (Gval::Blk(_), Gval::Int(_)) | (
                Gval::Blk(_),
                Gval::Blk(_),
            ) => Err(Gerr::TypeError),
        }
    }

    /// `,` on the top value: a range for an integer, the length of a
    /// sequence, or a block filter.
    #[verifier::loop_isolation(false)]
    #[verifier::rlimit(100)]
    pub fn comma(&mut self, depth: u64) -> (r: Result<(), Gerr>)
        requires
            old(self).wf(),
        ensures
            final(self).wf(),
            !(old(self).stack_v().len() >= 1 && old(self).stack_v().last() is Blk) ==> final(self).vars_v() == old(self).vars_v() && final(self).rng_v() == old(self).rng_v() && final(self).out_v() == old(self).out_v(),
            r is Ok && old(self).stack_v().len() >= 1 && !(old(self).stack_v().last() is Blk)
                ==> final(self).marks_v() == pop_marks(
                old(self).marks_v(),
                old(self).stack_v().len() as int,
            ),
            match r {
                Ok(_) => old(self).stack_v().len() >= 1 && (match old(self).stack_v().last() {
                    V::Int(n) => final(self).stack_v() == old(self).stack_v().drop_last().push(
                        V::Arr(range_v(n)),
                    ),
                    V::Arr(vs) => final(self).stack_v() == old(self).stack_v().drop_last().push(
                        V::Int(vs.len() as int),
                    ),
                    V::Str(bs) => final(self).stack_v() == old(self).stack_v().drop_last().push(
                        V::Int(bs.len() as int),
                    ),
                    V::Blk(_) => true,
                }),
                Err(e) => (old(self).stack_v().len() == 0 && e == Gerr::StackUnderflow) || old(
                    self,
                ).stack_v().last() is Blk,
            },
            old(self).stack_v().len() >= 2 && old(self).stack_v().last() is Blk && old(
                self,
            ).stack_v()[old(self).stack_v().len() - 2] is Arr && r is Ok ==> final(self).stack_v().len() >= 1 && final(self).stack_v().last() is Arr && (exists|m: Seq<bool>|
                m.len() == old(self).stack_v()[old(self).stack_v().len() - 2]->Arr_0.len()
                    && final(self).stack_v().last()->Arr_0 == #[trigger] mask_select(
                    old(self).stack_v()[old(self).stack_v().len() - 2]->Arr_0,
                    m,
                )),
            ({
                let sv = old(self).stack_v();
                let len = sv.len() as int;
                (sv.len() >= 2 && depth >= 1 && sv.last() is Blk && !(sv[len - 2] is Int)) ==> ({
                    let f = sv.last()->Blk_0;
                    let xs = if sv[len - 2] is Arr {
                        sv[len - 2]->Arr_0
                    } else if sv[len - 2] is Str {
                        crate::value::byte_ints(sv[len - 2]->Str_0)
                    } else {
                        crate::value::byte_ints(sv[len - 2]->Blk_0)
                    };
                    let sr = select_run(
                        sv.take(len - 2),
                        pop_marks(pop_marks(old(self).marks_v(), len), len - 1),
                        f,
                        xs,
                    );
                    (code_unbound(f, old(self).vars_v()) && sr is Some) ==> r is Ok && final(self).stack_v() == (sr->0).0.push(
                        if sv[len - 2] is Arr {
                            V::Arr((sr->0).2)
                        } else if sv[len - 2] is Str {
                            V::Str(low_bytes((sr->0).2))
                        } else {
                            V::Blk(low_bytes((sr->0).2))
                        },
                    ) && final(self).marks_v() == (sr->0).1 && final(self).vars_v() == old(
                        self,
                    ).vars_v() && final(self).rng_v() == old(self).rng_v() && final(self).out_v()
                        == old(self).out_v()
                })
            }),
        decreases depth, 2int,
    {
        let a = self.pop()?;
        match a {
            Gval::Int(n) => {
                let mut r: Vec<Gval> = Vec::new();
                let mut i = Bint::zero();
                proof {
                    assert(views(r@) =~= range_v(0));
                }
                while matches!(crate::bigint::big_cmp(&i, &n), Ord3::Lt)
                    invariant
                        self.wf(),
                        i.wf(),
                        n.wf(),
                        all_wf(r@),
                        0 <= i.as_int() <= (if n.as_int() > 0 { n.as_int() } else { 0 }),
                        views(r@) == range_v(i.as_int()),
                    decreases n.as_int() - i.as_int(),
                {
                    let ghost prev = r@;
                    r.push(Gval::Int(i.clone()));
                    proof {
                        assert forall|k: int| 0 <= k < r@.len() implies (#[trigger] r@[
                            k
                        ]).wf() by {
                            if k < prev.len() {
                                assert(r@[k] == prev[k]);
                                assert(prev[k].wf());
                            }
                        }
                        crate::value::lemma_views_push(prev, r@.last());
                        assert(r@ =~= prev.push(r@.last()));
                        assert(views(r@) =~= range_v(i.as_int() + 1));
                    }
                    i = crate::bigint::big_add(&i, &Bint::from_u64(1));
                }
                let g = Gval::Arr(r);
                proof {
                    lemma_wf_arr(g);
                    assert(g@->Arr_0 =~= views(g->Arr_0@));
                    assert(g@ == V::Arr(g@->Arr_0));
                    assert(g@ == V::Arr(range_v(old(self).stack_v().last()->Int_0)));
                }
                self.push(g);
                Ok(())
            },
            Gval::Arr(vs) => {
                proof {
                    assert(old(self).stack_v().last()->Arr_0.len() == vs@.len());
                }
                self.push(Gval::Int(Bint::from_usize(vs.len())));
                Ok(())
            },
            Gval::Str(bs) => {
                self.push(Gval::Int(Bint::from_usize(bs.len())));
                Ok(())
            },
            Gval::Blk(code) => {
                let target = self.pop()?;
                proof {
                    assert(old(self).stack_v().drop_last().last() == old(self).stack_v()[old(
                        self,
                    ).stack_v().len() - 2]);
                    assert(old(self).stack_v().drop_last().drop_last() =~= old(
                        self,
                    ).stack_v().take(old(self).stack_v().len() - 2));
                }
                match target {
                    Gval::Int(_) => Err(Gerr::TypeError),
                    Gval::Arr(vs) => {
                        proof {
                            lemma_wf_arr(Gval::Arr(vs));
                            let sv = old(self).stack_v();
                            assert(sv[sv.len() - 2]->Arr_0 =~= views(vs@));
                        }
                        let out = self.select(&code, vs, depth)?;
                        proof {
                            let sv = old(self).stack_v();
                            let len = sv.len() as int;
                            if sv.len() >= 2 && depth >= 1 && sv.last() is Blk && sv[len
                                - 2] is Arr && code_unbound(sv.last()->Blk_0, old(self).vars_v()) {
                                let sr = select_run(
                                    sv.take(len - 2),
                                    pop_marks(pop_marks(old(self).marks_v(), len), len - 1),
                                    sv.last()->Blk_0,
                                    sv[len - 2]->Arr_0,
                                );
                                if sr is Some {
                                    assert(views(out@) == (sr->0).2);
                                    assert(self.stack_v() == (sr->0).0);
                                    assert(self.marks_v() == (sr->0).1);
                                }
                            }
                        }
                        let g = Gval::Arr(out);
                        proof {
                            lemma_wf_arr(g);
                            assert(g@->Arr_0 =~= views(g->Arr_0@));
                            assert(g@ == V::Arr(g@->Arr_0));
                        }
                        self.push(g);
                        Ok(())
                    },
                    Gval::Str(bs) => {
                        let vals = crate::value::bytes_as_ints(&bs);
                        proof {
                            let sv = old(self).stack_v();
                            assert(views(vals@) =~= crate::value::byte_ints(
                                sv[sv.len() - 2]->Str_0,
                            ));
                        }
                        let out = self.select(&code, vals, depth)?;
                        proof {
                            let sv = old(self).stack_v();
                            let len = sv.len() as int;
                            if sv.len() >= 2 && depth >= 1 && sv.last() is Blk && sv[len
                                - 2] is Str && code_unbound(sv.last()->Blk_0, old(self).vars_v()) {
                                let sr = select_run(
                                    sv.take(len - 2),
                                    pop_marks(pop_marks(old(self).marks_v(), len), len - 1),
                                    sv.last()->Blk_0,
                                    crate::value::byte_ints(sv[len - 2]->Str_0),
                                );
                                if sr is Some {
                                    assert(views(out@) == (sr->0).2);
                                    assert(self.stack_v() == (sr->0).0);
                                    assert(self.marks_v() == (sr->0).1);
                                }
                            }
                        }
                        let back = vals_to_bytes(&out);
                        self.push(Gval::Str(back));
                        Ok(())
                    },
                    Gval::Blk(bs) => {
                        let vals = crate::value::bytes_as_ints(&bs);
                        proof {
                            let sv = old(self).stack_v();
                            assert(views(vals@) =~= crate::value::byte_ints(
                                sv[sv.len() - 2]->Blk_0,
                            ));
                        }
                        let out = self.select(&code, vals, depth)?;
                        proof {
                            let sv = old(self).stack_v();
                            let len = sv.len() as int;
                            if sv.len() >= 2 && depth >= 1 && sv.last() is Blk && sv[len
                                - 2] is Blk && code_unbound(sv.last()->Blk_0, old(self).vars_v()) {
                                let sr = select_run(
                                    sv.take(len - 2),
                                    pop_marks(pop_marks(old(self).marks_v(), len), len - 1),
                                    sv.last()->Blk_0,
                                    crate::value::byte_ints(sv[len - 2]->Blk_0),
                                );
                                if sr is Some {
                                    assert(views(out@) == (sr->0).2);
                                    assert(self.stack_v() == (sr->0).0);
                                    assert(self.marks_v() == (sr->0).1);
                                }
                            }
                        }
                        let back = vals_to_bytes(&out);
                        self.push(Gval::Blk(back));
                        Ok(())
                    },
                }
            },
        }
    }

    /// `?` on two values: power, index-of, substring search, or find.
    #[verifier::loop_isolation(false)]
    #[verifier::rlimit(100)]
    pub fn question(&mut self, depth: u64) -> (r: Result<(), Gerr>)
        requires
            old(self).wf(),
        ensures
            final(self).wf(),
            !(old(self).stack_v().len() >= 2 && (old(self).stack_v()[old(self).stack_v().len()
                - 2] is Blk || old(self).stack_v().last() is Blk)) ==> final(self).vars_v() == old(
                self,
            ).vars_v() && final(self).rng_v() == old(self).rng_v() && final(self).out_v() == old(
                self,
            ).out_v(),
            r is Ok && old(self).stack_v().len() >= 2 && !(old(self).stack_v()[old(
                self,
            ).stack_v().len() - 2] is Blk || old(self).stack_v().last() is Blk) ==> final(self).marks_v() == pop_marks(
                pop_marks(old(self).marks_v(), old(self).stack_v().len() as int),
                old(self).stack_v().len() - 1,
            ),
            old(self).stack_v().len() <= 1 ==> r == Err::<(), Gerr>(Gerr::StackUnderflow),
            old(self).stack_v().len() >= 2 ==> (match (
                old(self).stack_v()[old(self).stack_v().len() - 2],
                old(self).stack_v().last(),
            ) {
                (V::Int(x), V::Int(y)) => r is Ok && final(self).stack_v() == old(
                    self,
                ).stack_v().take(old(self).stack_v().len() - 2).push(
                    V::Int(
                        if 0 <= y <= u32::MAX {
                            vstd::arithmetic::power::pow(x, y as nat)
                        } else {
                            0
                        },
                    ),
                ) && final(self).marks_v() == pop_marks(
                    pop_marks(old(self).marks_v(), old(self).stack_v().len() as int),
                    old(self).stack_v().len() - 1,
                ),
                (V::Arr(h), V::Int(x)) => r is Ok && final(self).stack_v() == old(
                    self,
                ).stack_v().take(old(self).stack_v().len() - 2).push(
                    V::Int(find_index(h, V::Int(x))),
                ),
                (V::Int(x), V::Arr(h)) => r is Ok && final(self).stack_v() == old(
                    self,
                ).stack_v().take(old(self).stack_v().len() - 2).push(
                    V::Int(find_index(h, V::Int(x))),
                ),
                (V::Arr(h), V::Str(x)) => r is Ok && final(self).stack_v() == old(
                    self,
                ).stack_v().take(old(self).stack_v().len() - 2).push(
                    V::Int(find_index(h, V::Str(x))),
                ),
                (V::Str(x), V::Arr(h)) => r is Ok && final(self).stack_v() == old(
                    self,
                ).stack_v().take(old(self).stack_v().len() - 2).push(
                    V::Int(find_index(h, V::Str(x))),
                ),
                (V::Arr(h), V::Arr(x)) => r is Ok && final(self).stack_v() == old(
                    self,
                ).stack_v().take(old(self).stack_v().len() - 2).push(
                    V::Int(find_index(h, V::Arr(x))),
                ),
                (V::Str(h), V::Int(x)) => r is Ok && final(self).stack_v() == old(
                    self,
                ).stack_v().take(old(self).stack_v().len() - 2).push(
                    V::Int(byte_find(h, crate::bigint::fmod(x, 256) as u8)),
                ),
                (V::Int(x), V::Str(h)) => r is Ok && final(self).stack_v() == old(
                    self,
                ).stack_v().take(old(self).stack_v().len() - 2).push(
                    V::Int(byte_find(h, crate::bigint::fmod(x, 256) as u8)),
                ),
                (V::Str(h), V::Str(x)) => r is Ok && final(self).stack_v() == old(
                    self,
                ).stack_v().take(old(self).stack_v().len() - 2).push(V::Int(sub_find(h, x))),
                (V::Int(_), V::Blk(_)) => r == Err::<(), Gerr>(Gerr::TypeError),
                (V::Blk(_), V::Int(_)) => r == Err::<(), Gerr>(Gerr::TypeError),
                _ => true,
            }),
            ({
                let sv = old(self).stack_v();
                let len = sv.len() as int;
                (sv.len() >= 2 && depth >= 1 && ((sv[len - 2] is Blk && !(sv.last() is Int)) || (
                sv.last() is Blk && !(sv[len - 2] is Int)))) ==> ({
                    let f = if sv[len - 2] is Blk {
                        sv[len - 2]->Blk_0
                    } else {
                        sv.last()->Blk_0
                    };
                    let hs = if sv[len - 2] is Arr {
                        sv[len - 2]->Arr_0
                    } else if sv.last() is Arr {
                        sv.last()->Arr_0
                    } else if sv[len - 2] is Str {
                        crate::value::byte_ints(sv[len - 2]->Str_0)
                    } else if sv.last() is Str {
                        crate::value::byte_ints(sv.last()->Str_0)
                    } else {
                        crate::value::byte_ints(sv.last()->Blk_0)
                    };
                    let fr = find_run(
                        sv.take(len - 2),
                        pop_marks(pop_marks(old(self).marks_v(), len), len - 1),
                        f,
                        hs,
                    );
                    (code_unbound(f, old(self).vars_v()) && fr is Some) ==> r is Ok && final(self).stack_v() == (fr->0).0 && final(self).marks_v() == (fr->0).1 && final(self).vars_v() == old(self).vars_v() && final(self).rng_v() == old(self).rng_v()
                        && final(self).out_v() == old(self).out_v()
                })
            }),
        decreases depth, 2int,
    {
        let (a, b) = self.pop2()?;
        match (a, b) {
            (Gval::Int(x), Gval::Int(y)) => {
                let v = match y.to_u32() {
                    Some(e) => crate::bigint::big_pow(&x, e),
                    None => Bint::zero(),
                };
                self.push(Gval::Int(v));
                Ok(())
            },
            (Gval::Arr(h), other) => {
                proof {
                    lemma_wf_arr(Gval::Arr(h));
                    let sv = old(self).stack_v();
                    assert(sv[sv.len() - 2]->Arr_0 =~= views(h@));
                }
                match other {
                    Gval::Blk(code) => self.find(&code, h, depth),
                    n => {
                        let idx = position_of(&h, &n);
                        self.push(Gval::Int(idx));
                        Ok(())
                    },
                }
            },
            (other, Gval::Arr(h)) => {
                proof {
                    lemma_wf_arr(Gval::Arr(h));
                    let sv = old(self).stack_v();
                    assert(sv.last()->Arr_0 =~= views(h@));
                }
                match other {
                    Gval::Blk(code) => self.find(&code, h, depth),
                    n => {
                        let idx = position_of(&h, &n);
                        self.push(Gval::Int(idx));
                        Ok(())
                    },
                }
            },
            (Gval::Str(h), Gval::Int(n)) | (Gval::Int(n), Gval::Str(h)) => {
                let byte = crate::util::to_byte(n);
                let idx = byte_position_of(&h, byte);
                self.push(Gval::Int(idx));
                Ok(())
            },
            (Gval::Str(h), Gval::Str(n)) => {
                let idx = crate::util::string_index(&h, &n);
                proof {
                    lemma_sub_find_characterises(h@, n@, idx.as_int());
                }
                self.push(Gval::Int(idx));
                Ok(())
            },
            (Gval::Int(_), Gval::Blk(_)) | (Gval::Blk(_), Gval::Int(_)) => Err(Gerr::TypeError),
            (Gval::Blk(code), Gval::Blk(x)) | (Gval::Blk(code), Gval::Str(x)) | (
                Gval::Str(x),
                Gval::Blk(code),
            ) => {
                let vals = crate::value::bytes_as_ints(&x);
                proof {
                    let sv = old(self).stack_v();
                    if sv[sv.len() - 2] is Str {
                        assert(views(vals@) =~= crate::value::byte_ints(sv[sv.len() - 2]->Str_0));
                    } else if sv.last() is Str {
                        assert(views(vals@) =~= crate::value::byte_ints(sv.last()->Str_0));
                    } else {
                        assert(views(vals@) =~= crate::value::byte_ints(sv.last()->Blk_0));
                    }
                }
                self.find(&code, vals, depth)
            },
        }
    }

    /// `zip`: transpose an array of rows, padding missing entries.
    #[verifier::loop_isolation(false)]
    pub fn zip(&mut self) -> (r: Result<(), Gerr>)
        requires
            old(self).wf(),
        ensures
            final(self).wf(),
            final(self).vars_v() == old(self).vars_v(),
            final(self).rng_v() == old(self).rng_v(),
            final(self).out_v() == old(self).out_v(),
            old(self).stack_v().len() == 0 ==> r == Err::<(), Gerr>(Gerr::StackUnderflow),
            old(self).stack_v().len() >= 1 ==> (match old(self).stack_v().last() {
                V::Arr(rows) => if forall|i: int| 0 <= i < rows.len() ==> !((#[trigger] rows[
                    i
                ]) is Int) {
                    r is Ok && final(self).stack_v() == old(self).stack_v().drop_last().push(
                        V::Arr(zip_v(rows)),
                    ) && final(self).marks_v() == pop_marks(
                        old(self).marks_v(),
                        old(self).stack_v().len() as int,
                    )
                } else {
                    r == Err::<(), Gerr>(Gerr::TypeError)
                },
                _ => r == Err::<(), Gerr>(Gerr::TypeError),
            }),
    {
        let a = self.pop()?;
        let rows = match a {
            Gval::Arr(vs) => vs,
            _ => {
                return Err(Gerr::TypeError);
            },
        };
        proof {
            lemma_wf_arr(Gval::Arr(rows));
            assert(old(self).stack_v().last()->Arr_0 =~= views(rows@));
        }
        let ghost rs = views(rows@);
        let mut maxlen: usize = 0;
        let mut i: usize = 0;
        proof {
            assert(rs.take(0) =~= Seq::<V>::empty());
        }
        while i < rows.len()
            invariant
                i <= rows@.len(),
                all_wf(rows@),
                rs == views(rows@),
                rs.len() == rows@.len(),
                forall|k: int| 0 <= k < i ==> !((#[trigger] rs[k]) is Int),
                maxlen == max_row_len(rs.take(i as int)),
            decreases rows.len() - i,
        {
            proof {
                assert(rows@[i as int].wf());
                assert(rs[i as int] == rows@[i as int]@);
                assert(rs.take(i + 1).drop_last() =~= rs.take(i as int));
                assert(rs.take(i + 1).last() == rs[i as int]);
            }
            let l = match &rows[i] {
                Gval::Int(_) => {
                    proof {
                        assert(rs[i as int] is Int);
                    }
                    return Err(Gerr::TypeError);
                },
                Gval::Arr(vs) => {
                    proof {
                        assert(rs[i as int]->Arr_0 =~= views(vs@));
                    }
                    vs.len()
                },
                Gval::Str(bs) => {
                    proof {
                        assert(row_elems(rs[i as int]) =~= crate::value::byte_ints(bs@));
                    }
                    bs.len()
                },
                Gval::Blk(bs) => {
                    proof {
                        assert(row_elems(rs[i as int]) =~= crate::value::byte_ints(bs@));
                    }
                    bs.len()
                },
            };
            proof {
                assert(row_elems(rs[i as int]).len() == l);
            }
            if l > maxlen {
                maxlen = l;
            }
            i += 1;
        }
        proof {
            assert(rs.take(rs.len() as int) =~= rs);
        }
        let str_kind: u8 = if rows.len() == 0 {
            1
        } else {
            match &rows[0] {
                Gval::Str(_) => 2,
                Gval::Blk(_) => 3,
                _ => 1,
            }
        };
        let mut cols: Vec<Gval> = Vec::new();
        let mut y: usize = 0;
        proof {
            assert(views(cols@) =~= zip_v(rs).take(0));
        }
        while y < maxlen
            invariant
                y <= maxlen,
                all_wf(rows@),
                rs == views(rows@),
                rs.len() == rows@.len(),
                forall|k: int| 0 <= k < rs.len() ==> !((#[trigger] rs[k]) is Int),
                maxlen == max_row_len(rs),
                str_kind == 1 || str_kind == 2 || str_kind == 3,
                rs.len() >= 1 && rs[0] is Str <==> str_kind == 2,
                rs.len() >= 1 && rs[0] is Blk <==> str_kind == 3,
                all_wf(cols@),
                views(cols@) == zip_v(rs).take(y as int),
            decreases maxlen - y,
        {
            let col = self.zip_column(&rows, y, str_kind, Ghost(rs));
            let ghost prev = cols@;
            cols.push(col);
            proof {
                lemma_views_push(prev, cols@.last());
                assert(cols@ =~= prev.push(cols@.last()));
                assert(zip_v(rs)[y as int] == col_v(rs, y as int));
                assert(views(cols@) =~= zip_v(rs).take(y + 1));
            }
            y += 1;
        }
        proof {
            assert(zip_v(rs).take(zip_v(rs).len() as int) =~= zip_v(rs));
        }
        let g = Gval::Arr(cols);
        proof {
            lemma_wf_arr(g);
            assert(g@->Arr_0 =~= views(g->Arr_0@));
            assert(g@ == V::Arr(g@->Arr_0));
        }
        self.push(g);
        Ok(())
    }

    /// One column of the transpose: the `y`-th element of every row that
    /// has one, as a value of the first row's kind.
    #[verifier::loop_isolation(false)]
    fn zip_column(&self, rows: &Vec<Gval>, y: usize, str_kind: u8, rsg: Ghost<Seq<V>>) -> (col:
        Gval)
        requires
            all_wf(rows@),
            rsg@ == views(rows@),
            forall|k: int| 0 <= k < rsg@.len() ==> !((#[trigger] rsg@[k]) is Int),
            str_kind == 1 || str_kind == 2 || str_kind == 3,
            rsg@.len() >= 1 && rsg@[0] is Str <==> str_kind == 2,
            rsg@.len() >= 1 && rsg@[0] is Blk <==> str_kind == 3,
        ensures
            col.wf(),
            col@ == col_v(rsg@, y as int),
    {
        let ghost rs = rsg@;
        proof {
            assert(rs.take(0) =~= Seq::<V>::empty());
        }
        if str_kind == 1 {
            let mut out: Vec<Gval> = Vec::new();
            let mut i: usize = 0;
            proof {
                assert(views(out@) =~= col_elems(rs.take(0), y as int));
            }
            while i < rows.len()
                invariant
                    i <= rows@.len(),
                    all_wf(rows@),
                    rs == views(rows@),
                    rs.len() == rows@.len(),
                    forall|k: int| 0 <= k < rs.len() ==> !((#[trigger] rs[k]) is Int),
                    all_wf(out@),
                    views(out@) == col_elems(rs.take(i as int), y as int),
                decreases rows.len() - i,
            {
                proof {
                    assert(rows@[i as int].wf());
                    assert(rs[i as int] == rows@[i as int]@);
                    assert(rs.take(i + 1).drop_last() =~= rs.take(i as int));
                    assert(rs.take(i + 1).last() == rs[i as int]);
                }
                let ghost prev = out@;
                match &rows[i] {
                    Gval::Int(_) => {
                        proof {
                            assert(false);
                        }
                    },
                    Gval::Arr(vs) => {
                        proof {
                            assert(rs[i as int]->Arr_0 =~= views(vs@));
                        }
                        if y < vs.len() {
                            proof {
                                assert(vs@[y as int].wf());
                            }
                            out.push(vs[y].clone());
                            proof {
                                lemma_views_push(prev, out@.last());
                                assert(out@ =~= prev.push(out@.last()));
                            }
                        }
                    },
                    Gval::Str(bs) => {
                        proof {
                            assert(row_elems(rs[i as int]) =~= crate::value::byte_ints(bs@));
                        }
                        if y < bs.len() {
                            out.push(Gval::Int(Bint::from_u64(bs[y] as u64)));
                            proof {
                                lemma_views_push(prev, out@.last());
                                assert(out@ =~= prev.push(out@.last()));
                            }
                        }
                    },
                    Gval::Blk(bs) => {
                        proof {
                            assert(row_elems(rs[i as int]) =~= crate::value::byte_ints(bs@));
                        }
                        if y < bs.len() {
                            out.push(Gval::Int(Bint::from_u64(bs[y] as u64)));
                            proof {
                                lemma_views_push(prev, out@.last());
                                assert(out@ =~= prev.push(out@.last()));
                            }
                        }
                    },
                }
                proof {
                    assert(views(out@) =~= col_elems(rs.take(i + 1), y as int));
                }
                i += 1;
            }
            proof {
                assert(rs.take(rs.len() as int) =~= rs);
            }
            let g = Gval::Arr(out);
            proof {
                lemma_wf_arr(g);
                assert(g@->Arr_0 =~= views(g->Arr_0@));
                assert(g@ == V::Arr(g@->Arr_0));
            }
            g
        } else {
            let mut out: Vec<u8> = Vec::new();
            let mut i: usize = 0;
            proof {
                assert(out@ =~= crate::coerce::flatten_seq(col_elems(rs.take(0), y as int)));
            }
            while i < rows.len()
                invariant
                    i <= rows@.len(),
                    all_wf(rows@),
                    rs == views(rows@),
                    rs.len() == rows@.len(),
                    forall|k: int| 0 <= k < rs.len() ==> !((#[trigger] rs[k]) is Int),
                    out@ == crate::coerce::flatten_seq(col_elems(rs.take(i as int), y as int)),
                decreases rows.len() - i,
            {
                proof {
                    assert(rows@[i as int].wf());
                    assert(rs[i as int] == rows@[i as int]@);
                    assert(rs.take(i + 1).drop_last() =~= rs.take(i as int));
                    assert(rs.take(i + 1).last() == rs[i as int]);
                }
                let ghost prevb = out@;
                let ghost ce = col_elems(rs.take(i as int), y as int);
                match &rows[i] {
                    Gval::Int(_) => {
                        proof {
                            assert(false);
                        }
                    },
                    Gval::Arr(vs) => {
                        proof {
                            assert(rs[i as int]->Arr_0 =~= views(vs@));
                        }
                        if y < vs.len() {
                            proof {
                                assert(vs@[y as int].wf());
                                assert(views(vs@)[y as int] == vs@[y as int]@);
                            }
                            crate::coerce::flatten_ref(&mut out, &vs[y]);
                            proof {
                                let e = rs[i as int]->Arr_0[y as int];
                                assert(ce.push(e).drop_last() =~= ce);
                                assert(crate::coerce::flatten_seq(ce.push(e))
                                    == crate::coerce::flatten_seq(ce)
                                    + crate::coerce::flatten_v(e));
                                assert(col_elems(rs.take(i + 1), y as int) =~= ce.push(e));
                            }
                        }
                    },
                    Gval::Str(bs) => {
                        proof {
                            assert(row_elems(rs[i as int]) =~= crate::value::byte_ints(bs@));
                        }
                        if y < bs.len() {
                            out.push(bs[y]);
                            proof {
                                let e = crate::value::byte_ints(bs@)[y as int];
                                assert(e == V::Int(bs@[y as int] as int));
                                assert(crate::bigint::fmod(bs@[y as int] as int, 256) == bs@[
                                    y as int
                                ] as int);
                                assert(crate::coerce::flatten_v(e) =~= seq![bs@[y as int]]);
                                assert(ce.push(e).drop_last() =~= ce);
                                assert(crate::coerce::flatten_seq(ce.push(e))
                                    == crate::coerce::flatten_seq(ce)
                                    + crate::coerce::flatten_v(e));
                                assert(col_elems(rs.take(i + 1), y as int) =~= ce.push(e));
                                assert(out@ =~= prevb + crate::coerce::flatten_v(e));
                            }
                        }
                    },
                    Gval::Blk(bs) => {
                        proof {
                            assert(row_elems(rs[i as int]) =~= crate::value::byte_ints(bs@));
                        }
                        if y < bs.len() {
                            out.push(bs[y]);
                            proof {
                                let e = crate::value::byte_ints(bs@)[y as int];
                                assert(e == V::Int(bs@[y as int] as int));
                                assert(crate::bigint::fmod(bs@[y as int] as int, 256) == bs@[
                                    y as int
                                ] as int);
                                assert(crate::coerce::flatten_v(e) =~= seq![bs@[y as int]]);
                                assert(ce.push(e).drop_last() =~= ce);
                                assert(crate::coerce::flatten_seq(ce.push(e))
                                    == crate::coerce::flatten_seq(ce)
                                    + crate::coerce::flatten_v(e));
                                assert(col_elems(rs.take(i + 1), y as int) =~= ce.push(e));
                                assert(out@ =~= prevb + crate::coerce::flatten_v(e));
                            }
                        }
                    },
                }
                proof {
                    assert(out@ =~= crate::coerce::flatten_seq(
                        col_elems(rs.take(i + 1), y as int),
                    ));
                }
                i += 1;
            }
            proof {
                assert(rs.take(rs.len() as int) =~= rs);
            }
            if str_kind == 2 {
                Gval::Str(out)
            } else {
                Gval::Blk(out)
            }
        }
    }
}

/// The carried values of a key-value pair list, in order.
pub open spec fn snds_v(ps: Seq<(Gval, Gval)>) -> Seq<V> {
    Seq::new(
        ps.len(),
        |i: int|
            if 0 <= i < ps.len() {
                ps[i].1@
            } else {
                V::Int(0)
            },
    )
}

/// Inserting anywhere adds one occurrence to the multiset.
proof fn lemma_insert_to_multiset(s: Seq<V>, j: int, x: V)
    requires
        0 <= j <= s.len(),
    ensures
        s.insert(j, x).to_multiset() == s.to_multiset().insert(x),
{
    broadcast use vstd::seq_lib::group_to_multiset_ensures;

    let t = s.insert(j, x);
    assert(t.len() == s.len() + 1);
    assert(t[j] == x);
    assert(t.remove(j) =~= s);
    assert(t.remove(j).to_multiset() =~= t.to_multiset().remove(t[j]));
    assert(t.to_multiset().count(x) > 0) by {
        assert(t.contains(x));
    }
    assert(t.to_multiset() =~= t.to_multiset().remove(x).insert(x));
    assert(t.to_multiset() =~= s.to_multiset().insert(x));
}

/// A sequence filtered through a keep-mask, in order.
pub open spec fn mask_select(s: Seq<V>, m: Seq<bool>) -> Seq<V>
    decreases s.len(),
{
    if s.len() == 0 || m.len() == 0 {
        Seq::empty()
    } else {
        mask_select(s.drop_last(), m.drop_last()) + (if m.last() {
            seq![s.last()]
        } else {
            Seq::empty()
        })
    }
}

/// The elements of one row of a transpose: an array's elements, a
/// string's or block's bytes as integers; an integer row has none.
pub open spec fn row_elems(r: V) -> Seq<V> {
    match r {
        V::Arr(vs) => vs,
        V::Str(bs) => crate::value::byte_ints(bs),
        V::Blk(bs) => crate::value::byte_ints(bs),
        V::Int(_) => Seq::empty(),
    }
}

/// The longest row length.
pub open spec fn max_row_len(rs: Seq<V>) -> int
    decreases rs.len(),
{
    if rs.len() == 0 {
        0
    } else {
        let rest = max_row_len(rs.drop_last());
        if row_elems(rs.last()).len() > rest {
            row_elems(rs.last()).len() as int
        } else {
            rest
        }
    }
}

/// Column `y` of a transpose: the `y`-th element of every row that has
/// one, in row order.
pub open spec fn col_elems(rs: Seq<V>, y: int) -> Seq<V>
    decreases rs.len(),
{
    if rs.len() == 0 {
        Seq::empty()
    } else {
        col_elems(rs.drop_last(), y) + (if 0 <= y < row_elems(rs.last()).len() {
            seq![row_elems(rs.last())[y]]
        } else {
            Seq::empty()
        })
    }
}

/// A column as a value of the first row's kind: an array collects the
/// elements, a string or block flattens them to bytes.
pub open spec fn col_v(rs: Seq<V>, y: int) -> V {
    if rs.len() >= 1 && rs[0] is Str {
        V::Str(crate::coerce::flatten_seq(col_elems(rs, y)))
    } else if rs.len() >= 1 && rs[0] is Blk {
        V::Blk(crate::coerce::flatten_seq(col_elems(rs, y)))
    } else {
        V::Arr(col_elems(rs, y))
    }
}

/// The transpose of a sequence of rows.
pub open spec fn zip_v(rs: Seq<V>) -> Seq<V> {
    Seq::new(
        max_row_len(rs) as nat,
        |y: int| col_v(rs, y),
    )
}

/// Position of the first element equal to `n`, or -1.
#[verifier::loop_isolation(false)]
fn position_of(h: &Vec<Gval>, n: &Gval) -> (r: Bint)
    requires
        all_wf(h@),
        n.wf(),
    ensures
        r.wf(),
        r.as_int() == find_index(views(h@), n@),
{
    let ghost hv = views(h@);
    let mut i: usize = 0;
    proof {
        assert(hv.skip(0) =~= hv);
    }
    while i < h.len()
        invariant
            i <= h@.len(),
            all_wf(h@),
            n.wf(),
            hv == views(h@),
            hv.len() == h@.len(),
            find_index(hv, n@) == ({
                let rs = find_index(hv.skip(i as int), n@);
                if rs == -1 {
                    -1int
                } else {
                    i + rs
                }
            }),
        decreases h.len() - i,
    {
        proof {
            assert(h@[i as int].wf());
            assert(hv.skip(i as int)[0] == hv[i as int]);
        }
        if crate::value::eq_val(&h[i], n) {
            proof {
                assert(find_index(hv.skip(i as int), n@) == 0);
            }
            return Bint::from_usize(i);
        }
        proof {
            assert(hv.skip(i as int).drop_first() =~= hv.skip(i + 1));
            lemma_find_index_range(hv.skip(i + 1), n@);
            assert(find_index(hv.skip(i as int), n@) == ({
                let r2 = find_index(hv.skip(i + 1), n@);
                if r2 == -1 {
                    -1int
                } else {
                    1 + r2
                }
            }));
            assert(find_index(hv, n@) == ({
                let r3 = find_index(hv.skip(i + 1), n@);
                if r3 == -1 {
                    -1int
                } else {
                    i + 1 + r3
                }
            }));
        }
        i += 1;
    }
    proof {
        assert(hv.skip(h@.len() as int) =~= Seq::<V>::empty());
    }
    Bint::from_u64(1).negate()
}

/// Position of the first byte equal to `b`, or -1.
#[verifier::loop_isolation(false)]
fn byte_position_of(h: &Vec<u8>, b: u8) -> (r: Bint)
    ensures
        r.wf(),
        r.as_int() == byte_find(h@, b),
{
    let mut i: usize = 0;
    proof {
        assert(h@.skip(0) =~= h@);
    }
    while i < h.len()
        invariant
            i <= h@.len(),
            byte_find(h@, b) == ({
                let rs = byte_find(h@.skip(i as int), b);
                if rs == -1 {
                    -1int
                } else {
                    i + rs
                }
            }),
        decreases h.len() - i,
    {
        proof {
            assert(h@.skip(i as int)[0] == h@[i as int]);
        }
        if h[i] == b {
            proof {
                assert(byte_find(h@.skip(i as int), b) == 0);
            }
            return Bint::from_usize(i);
        }
        proof {
            assert(h@.skip(i as int).drop_first() =~= h@.skip(i + 1));
            lemma_byte_find_range(h@.skip(i + 1), b);
            assert(byte_find(h@.skip(i as int), b) == ({
                let r2 = byte_find(h@.skip(i + 1), b);
                if r2 == -1 {
                    -1int
                } else {
                    1 + r2
                }
            }));
        }
        i += 1;
    }
    proof {
        assert(h@.skip(h@.len() as int) =~= Seq::<u8>::empty());
    }
    Bint::from_u64(1).negate()
}


impl Gs {
    /// One token: a bound name runs or pushes its value; literals push;
    /// anything else dispatches to its primitive.
    #[verifier::loop_isolation(false)]
    #[verifier::rlimit(100)]
    fn run_token(&mut self, t: &Gtoken, depth: u64) -> (r: Result<(), Gerr>)
        requires
            old(self).wf(),
        ensures
            final(self).wf(),
            ({
                let st = step_tok(old(self).stack_v(), old(self).marks_v(), t@);
                (!old(self).vars_v().dom().contains(crate::parse::lexeme_v(t@)) && st is Some)
                    ==> r is Ok && final(self).stack_v() == (st->0).0 && final(self).marks_v() == (
                st->0).1 && final(self).vars_v() == old(self).vars_v() && final(self).rng_v()
                    == old(self).rng_v() && final(self).out_v() == old(self).out_v()
            }),
            !old(self).vars_v().dom().contains(crate::parse::lexeme_v(t@)) ==> (match t@ {
                crate::parse::TokV::IntLit(bs) => r is Ok && final(self).stack_v() == old(
                    self,
                ).stack_v().push(V::Int(int_lex_val(bs))),
                crate::parse::TokV::Sq(bs) => r is Ok && final(self).stack_v() == old(
                    self,
                ).stack_v().push(
                    V::Str(
                        if bs.len() >= 2 {
                            crate::unescape::unescape_seq(bs.subrange(1, bs.len() - 1), true)
                        } else {
                            Seq::empty()
                        },
                    ),
                ),
                crate::parse::TokV::Dq(bs) => r is Ok && final(self).stack_v() == old(
                    self,
                ).stack_v().push(
                    V::Str(
                        if bs.len() >= 2 {
                            crate::unescape::unescape_seq(bs.subrange(1, bs.len() - 1), false)
                        } else {
                            Seq::empty()
                        },
                    ),
                ),
                crate::parse::TokV::Block(_, src) => r is Ok && final(self).stack_v() == old(
                    self,
                ).stack_v().push(V::Blk(src)),
                crate::parse::TokV::Comment(_) => r is Ok && final(self).stack_v() == old(
                    self,
                ).stack_v(),
                crate::parse::TokV::Symbol(sym) => {
                    &&& sym == seq![110u8] ==> r is Ok && final(self).stack_v() == old(
                        self,
                    ).stack_v().push(V::Str(seq![10u8]))
                    &&& sym == seq![112u8, 114u8, 105u8, 110u8, 116u8] && old(
                        self,
                    ).stack_v().len() >= 1 ==> r is Ok && final(self).stack_v() == old(
                        self,
                    ).stack_v().drop_last() && final(self).out_v() == old(self).out_v()
                        + crate::value::to_gs_v(old(self).stack_v().last())
                    &&& sym == seq![112u8, 117u8, 116u8, 115u8] && old(self).stack_v().len() >= 1
                        ==> r is Ok && final(self).stack_v() == old(self).stack_v().drop_last()
                        && final(self).out_v() == old(self).out_v() + crate::value::to_gs_v(
                        old(self).stack_v().last(),
                    ) + seq![10u8]
                    &&& sym == seq![112u8] && old(self).stack_v().len() >= 1 ==> r is Ok
                        && final(self).stack_v() == old(self).stack_v().drop_last()
                        && final(self).out_v() == old(self).out_v() + crate::value::inspect_v(
                        old(self).stack_v().last(),
                    ) + seq![10u8]
                    &&& sym == seq![120u8, 111u8, 114u8] && old(self).stack_v().len() >= 2
                        ==> r is Ok && final(self).stack_v() == old(self).stack_v().take(
                        old(self).stack_v().len() - 2,
                    ).push(
                        V::Int(
                            if falsey_v(old(self).stack_v()[old(self).stack_v().len() - 2])
                                != falsey_v(old(self).stack_v().last()) {
                                1int
                            } else {
                                0int
                            },
                        ),
                    )
                    &&& sym == seq![97u8, 110u8, 100u8] && old(self).stack_v().len() >= 2 && !(({
                        let av = old(self).stack_v()[old(self).stack_v().len() - 2];
                        let bv = old(self).stack_v().last();
                        if !falsey_v(av) {
                            bv
                        } else {
                            av
                        }
                    }) is Blk) ==> r is Ok && final(self).stack_v() == old(self).stack_v().take(
                        old(self).stack_v().len() - 2,
                    ).push(
                        ({
                            let av = old(self).stack_v()[old(self).stack_v().len() - 2];
                            let bv = old(self).stack_v().last();
                            if !falsey_v(av) {
                                bv
                            } else {
                                av
                            }
                        }),
                    )
                    &&& sym == seq![111u8, 114u8] && old(self).stack_v().len() >= 2 && !(({
                        let av = old(self).stack_v()[old(self).stack_v().len() - 2];
                        let bv = old(self).stack_v().last();
                        if falsey_v(av) {
                            bv
                        } else {
                            av
                        }
                    }) is Blk) ==> r is Ok && final(self).stack_v() == old(self).stack_v().take(
                        old(self).stack_v().len() - 2,
                    ).push(
                        ({
                            let av = old(self).stack_v()[old(self).stack_v().len() - 2];
                            let bv = old(self).stack_v().last();
                            if falsey_v(av) {
                                bv
                            } else {
                                av
                            }
                        }),
                    )
                    &&& sym == seq![105u8, 102u8] && old(self).stack_v().len() >= 3 && !(({
                        let av = old(self).stack_v()[old(self).stack_v().len() - 3];
                        let bv = old(self).stack_v()[old(self).stack_v().len() - 2];
                        let cv = old(self).stack_v().last();
                        if !falsey_v(av) {
                            bv
                        } else {
                            cv
                        }
                    }) is Blk) ==> r is Ok && final(self).stack_v() == old(self).stack_v().take(
                        old(self).stack_v().len() - 3,
                    ).push(
                        ({
                            let av = old(self).stack_v()[old(self).stack_v().len() - 3];
                            let bv = old(self).stack_v()[old(self).stack_v().len() - 2];
                            let cv = old(self).stack_v().last();
                            if !falsey_v(av) {
                                bv
                            } else {
                                cv
                            }
                        }),
                    )
                },
            }),
        decreases depth, 3int,
    {
        match self.lookup(t.lexeme()) {
            Some(v) => {
                return self.go(v, depth);
            },
            None => {},
        }
        match t {
            Gtoken::IntLiteral(bs) => {
                let n = parse_int_lexeme(bs);
                self.push(Gval::Int(n));
                Ok(())
            },
            Gtoken::SingleQuotedString(bs) => {
                let decoded = if bs.len() >= 2 {
                    crate::unescape::unescape(bs, true)
                } else {
                    Vec::new()
                };
                self.push(Gval::Str(decoded));
                Ok(())
            },
            Gtoken::DoubleQuotedString(bs) => {
                let decoded = if bs.len() >= 2 {
                    crate::unescape::unescape(bs, false)
                } else {
                    Vec::new()
                };
                self.push(Gval::Str(decoded));
                Ok(())
            },
            Gtoken::Block(_, src) => {
                self.push(Gval::Blk(crate::value::clone_bytes(src)));
                Ok(())
            },
            Gtoken::Comment(_) => Ok(()),
            Gtoken::Symbol(s) => {
                if s.len() == 1 {
                    let b = s[0];
                    if b == 126 {  // ~
                        self.tilde(depth)
                    } else if b == 96 {  // `
                        self.backtick()
                    } else if b == 33 {  // !
                        self.bang()
                    } else if b == 64 {  // @
                        self.at_sign()
                    } else if b == 36 {  // $
                        self.dollar(depth)
                    } else if b == 43 {  // +
                        self.plus()
                    } else if b == 45 {  // -
                        self.minus()
                    } else if b == 42 {  // *
                        self.asterisk(depth)
                    } else if b == 47 {  // /
                        self.slash(depth)
                    } else if b == 37 {  // %
                        self.percent(depth)
                    } else if b == 124 {  // |
                        self.vertical_bar()
                    } else if b == 38 {  // &
                        self.ampersand()
                    } else if b == 94 {  // ^
                        self.caret()
                    } else if b == 91 {  // [
                        self.open_bracket();
                        Ok(())
                    } else if b == 93 {  // ]
                        self.close_bracket();
                        Ok(())
                    } else if b == 92 {  // backslash
                        self.swap()
                    } else if b == 59 {  // ;
                        let _ = self.pop()?;
                        Ok(())
                    } else if b == 60 {  // <
                        self.lteqgt(Ord3::Lt)
                    } else if b == 61 {  // =
                        self.lteqgt(Ord3::Eq)
                    } else if b == 62 {  // >
                        self.lteqgt(Ord3::Gt)
                    } else if b == 44 {  // ,
                        self.comma(depth)
                    } else if b == 46 {  // .
                        self.dup()
                    } else if b == 63 {  // ?
                        self.question(depth)
                    } else if b == 40 {  // (
                        self.left_paren()
                    } else if b == 41 {  // )
                        self.right_paren()
                    } else if b == 110 {  // n
                        let mut nl: Vec<u8> = Vec::new();
                        nl.push(10);
                        proof {
                            assert(nl@ =~= seq![10u8]);
                        }
                        self.push(Gval::Str(nl));
                        Ok(())
                    } else if b == 112 {  // p
                        let a = self.pop()?;
                        let bs = a.inspect();
                        self.write_out(&bs);
                        let mut nl: Vec<u8> = Vec::new();
                        nl.push(10);
                        proof {
                            assert(nl@ =~= seq![10u8]);
                        }
                        self.write_out(&nl);
                        Ok(())
                    } else {
                        proof {
                            assert(s@ != seq![110u8] && s@ != seq![112u8]) by {
                                assert(s@.len() == 1 && s@[0] == b);
                            }
                        }
                        Ok(())
                    }
                } else if eq_bytes(s, &kw_and()) {
                    let (a, b) = self.pop2()?;
                    if a.truthy() {
                        self.go(b, depth)
                    } else {
                        self.go(a, depth)
                    }
                } else if eq_bytes(s, &kw_or()) {
                    let (a, b) = self.pop2()?;
                    if a.falsey() {
                        self.go(b, depth)
                    } else {
                        self.go(a, depth)
                    }
                } else if eq_bytes(s, &kw_xor()) {
                    let (a, b) = self.pop2()?;
                    let r = a.truthy() != b.truthy();
                    self.push(Gval::bool(r));
                    Ok(())
                } else if eq_bytes(s, &kw_print()) {
                    let a = self.pop()?;
                    let bs = a.to_gs();
                    self.write_out(&bs);
                    Ok(())
                } else if eq_bytes(s, &kw_puts()) {
                    let a = self.pop()?;
                    let bs = a.to_gs();
                    self.write_out(&bs);
                    let mut nl: Vec<u8> = Vec::new();
                    nl.push(10);
                    proof {
                        assert(nl@ =~= seq![10u8]);
                    }
                    self.write_out(&nl);
                    Ok(())
                } else if eq_bytes(s, &kw_rand()) {
                    self.rand()
                } else if eq_bytes(s, &kw_do()) {
                    self.do_loop(depth)
                } else if eq_bytes(s, &kw_while()) {
                    self.while_loop(true, depth)
                } else if eq_bytes(s, &kw_until()) {
                    self.while_loop(false, depth)
                } else if eq_bytes(s, &kw_if()) {
                    let ghost pre = self.stack_v();
                    let c = self.pop()?;
                    let b = self.pop()?;
                    let a = self.pop()?;
                    proof {
                        assert(pre.drop_last().drop_last().drop_last() =~= pre.take(
                            pre.len() - 3,
                        ));
                        assert(pre.drop_last().drop_last().last() == pre[pre.len() - 3]);
                        assert(pre.drop_last().last() == pre[pre.len() - 2]);
                    }
                    if a.truthy() {
                        self.go(b, depth)
                    } else {
                        self.go(c, depth)
                    }
                } else if eq_bytes(s, &kw_abs()) {
                    self.abs_top()
                } else if eq_bytes(s, &kw_zip()) {
                    self.zip()
                } else if eq_bytes(s, &kw_base()) {
                    self.base()
                } else {
                    Ok(())
                }
            },
        }
    }

    /// `base`: digits of an integer in a base, or reassembly of digits.
    #[verifier::loop_isolation(false)]
    pub fn base(&mut self) -> (r: Result<(), Gerr>)
        requires
            old(self).wf(),
        ensures
            final(self).wf(),
            final(self).vars_v() == old(self).vars_v(),
            final(self).rng_v() == old(self).rng_v(),
            final(self).out_v() == old(self).out_v(),
            r is Ok && old(self).stack_v().len() >= 2 ==> final(self).marks_v() == pop_marks(
                pop_marks(old(self).marks_v(), old(self).stack_v().len() as int),
                old(self).stack_v().len() - 1,
            ),
            ({
                let sv = old(self).stack_v();
                sv.len() >= 2 && sv.last() is Int && sv[sv.len() - 2] is Str ==> r is Ok && final(self).stack_v() == sv.take(sv.len() - 2).push(
                    V::Int(
                        horner(
                            ints_of(crate::value::byte_ints(sv[sv.len() - 2]->Str_0)),
                            sv.last()->Int_0,
                        ),
                    ),
                )
            }),
            ({
                let sv = old(self).stack_v();
                sv.len() >= 2 && sv.last() is Int && sv[sv.len() - 2] is Blk ==> r is Ok && final(self).stack_v() == sv.take(sv.len() - 2).push(
                    V::Int(
                        horner(
                            ints_of(crate::value::byte_ints(sv[sv.len() - 2]->Blk_0)),
                            sv.last()->Int_0,
                        ),
                    ),
                )
            }),
            ({
                let sv = old(self).stack_v();
                (sv.len() >= 2 && sv.last() is Int && sv[sv.len() - 2] is Int && (
                sv.last()->Int_0 >= 2 || sv.last()->Int_0 <= -2)) ==> r is Ok
                    && final(self).stack_v() == sv.take(sv.len() - 2).push(
                    V::Arr(
                        base_digits_v(
                            (if sv[sv.len() - 2]->Int_0 >= 0 {
                                sv[sv.len() - 2]->Int_0
                            } else {
                                -sv[sv.len() - 2]->Int_0
                            }),
                            sv.last()->Int_0,
                        ),
                    ),
                )
            }),
            ({
                let sv = old(self).stack_v();
                sv.len() >= 2 && sv.last() is Int && sv[sv.len() - 2] is Arr && all_ints(
                    sv[sv.len() - 2]->Arr_0,
                ) ==> r is Ok && final(self).stack_v() == sv.take(sv.len() - 2).push(
                    V::Int(horner(ints_of(sv[sv.len() - 2]->Arr_0), sv.last()->Int_0)),
                )
            }),
    {
        let bv = self.pop()?;
        let b = match bv {
            Gval::Int(b) => b,
            _ => {
                return Err(Gerr::TypeError);
            },
        };
        let two = Bint::from_u64(2);
        let minus_two = two.negate();
        let big_enough = matches!(crate::bigint::big_cmp(&b, &two), Ord3::Gt | Ord3::Eq)
            || matches!(crate::bigint::big_cmp(&b, &minus_two), Ord3::Lt | Ord3::Eq);
        let v = self.pop()?;
        proof {
            assert(self.marks_v() == pop_marks(
                pop_marks(old(self).marks_v(), old(self).stack_v().len() as int),
                old(self).stack_v().len() - 1,
            ));
        }
        match v {
            Gval::Int(n) => {
                if !big_enough {
                    return Err(Gerr::ArithmeticError);
                }
                let ghost n0 = if n.as_int() >= 0 { n.as_int() } else { -n.as_int() };
                let ghost bb = b.as_int();
                let mut digits: Vec<Gval> = Vec::new();
                let mut i = n.abs();
                let ghost mut collected: Seq<int> = Seq::empty();
                proof {
                    assert(b.as_int() >= 2 ==> i.as_int() >= 0);
                    assert(collected.reverse() =~= Seq::<int>::empty());
                    assert(base_digits(n0, bb) =~= base_digits(i.as_int(), bb)
                        + collected.reverse());
                    assert(views(digits@) =~= Seq::new(
                        collected.len(),
                        |t: int|
                            V::Int(
                                if 0 <= t < collected.len() {
                                    collected[t]
                                } else {
                                    0
                                },
                            ),
                    ));
                }
                while !i.is_zero()
                    invariant
                        i.wf(),
                        b.wf(),
                        bb == b.as_int(),
                        b.as_int() >= 2 || b.as_int() <= -2,
                        b.as_int() >= 2 ==> i.as_int() >= 0,
                        all_wf(digits@),
                        digits@.len() == collected.len(),
                        base_digits(n0, bb) == base_digits(i.as_int(), bb) + collected.reverse(),
                        views(digits@) == Seq::new(
                            collected.len(),
                            |t: int|
                                V::Int(
                                    if 0 <= t < collected.len() {
                                        collected[t]
                                    } else {
                                        0
                                    },
                                ),
                        ),
                    decreases bd_measure(i.as_int()),
                {
                    proof {
                        lemma_fdiv_measure(i.as_int(), b.as_int());
                    }
                    let q = crate::bigint::big_div_floor(&i, &b);
                    let k = crate::bigint::big_mod_floor(&i, &b);
                    let ghost prev = digits@;
                    let ghost kv = k.as_int();
                    digits.push(Gval::Int(k));
                    proof {
                        assert forall|t: int| 0 <= t < digits@.len() implies (#[trigger] digits@[
                            t
                        ]).wf() by {
                            if t < prev.len() {
                                assert(digits@[t] == prev[t]);
                                assert(prev[t].wf());
                            }
                        }
                        assert(base_digits(i.as_int(), bb) == base_digits(q.as_int(), bb).push(
                            kv,
                        ));
                        assert(collected.push(kv).reverse() =~= seq![kv] + collected.reverse());
                        assert(base_digits(q.as_int(), bb) + (seq![kv] + collected.reverse())
                            =~= (base_digits(q.as_int(), bb).push(kv)) + collected.reverse());
                        crate::value::lemma_views_push(prev, digits@.last());
                        assert(digits@ =~= prev.push(digits@.last()));
                        collected = collected.push(kv);
                        assert(views(digits@) =~= Seq::new(
                            collected.len(),
                            |t: int|
                                V::Int(
                                    if 0 <= t < collected.len() {
                                        collected[t]
                                    } else {
                                        0
                                    },
                                ),
                        ));
                    }
                    i = q;
                }
                proof {
                    assert(base_digits(0, bb) =~= Seq::<int>::empty());
                    assert(base_digits(n0, bb) =~= collected.reverse());
                }
                let rev = crate::util::reverse_vals(&digits);
                let g = Gval::Arr(rev);
                proof {
                    lemma_wf_arr(g);
                    assert(g@->Arr_0 =~= views(g->Arr_0@));
                    assert(g@->Arr_0 =~= views(digits@).reverse());
                    assert forall|t: int| 0 <= t < g@->Arr_0.len() implies g@->Arr_0[t]
                        == base_digits_v(n0, bb)[t] by {
                        assert(views(digits@).reverse()[t] == views(digits@)[collected.len() - 1
                            - t]);
                        assert(collected.reverse()[t] == collected[collected.len() - 1 - t]);
                    }
                    assert(g@->Arr_0 =~= base_digits_v(n0, bb));
                    assert(g@ == V::Arr(g@->Arr_0));
                }
                self.push(g);
                Ok(())
            },
            Gval::Arr(ds) => {
                proof {
                    lemma_wf_arr(Gval::Arr(ds));
                    let sv = old(self).stack_v();
                    assert(sv[sv.len() - 2]->Arr_0 =~= views(ds@));
                }
                self.horner_exec(ds, b)
            },
            Gval::Str(bs) => {
                let ds = crate::value::bytes_as_ints(&bs);
                proof {
                    assert(views(ds@) =~= crate::value::byte_ints(bs@));
                    assert(all_ints(views(ds@)));
                }
                self.horner_exec(ds, b)
            },
            Gval::Blk(bs) => {
                let ds = crate::value::bytes_as_ints(&bs);
                proof {
                    assert(views(ds@) =~= crate::value::byte_ints(bs@));
                    assert(all_ints(views(ds@)));
                }
                self.horner_exec(ds, b)
            },
        }
    }

    /// Horner reassembly of integer digits in the given base.
    #[verifier::loop_isolation(false)]
    fn horner_exec(&mut self, ds: Vec<Gval>, b: Bint) -> (r: Result<(), Gerr>)
        requires
            old(self).wf(),
            all_wf(ds@),
            b.wf(),
        ensures
            final(self).wf(),
            final(self).vars_v() == old(self).vars_v(),
            final(self).rng_v() == old(self).rng_v(),
            final(self).out_v() == old(self).out_v(),
            final(self).marks_v() == old(self).marks_v(),
            all_ints(views(ds@)) ==> r is Ok && final(self).stack_v() == old(
                self,
            ).stack_v().push(V::Int(horner(ints_of(views(ds@)), b.as_int()))),
            !all_ints(views(ds@)) ==> r == Err::<(), Gerr>(Gerr::TypeError) && final(self).stack_v() == old(self).stack_v(),
    {
        let ghost dv = ints_of(views(ds@));
        let mut total = Bint::zero();
        let mut i: usize = 0;
        proof {
            assert(dv.take(0) =~= Seq::<int>::empty());
        }
        while i < ds.len()
            invariant
                i <= ds@.len(),
                total.wf(),
                b.wf(),
                all_wf(ds@),
                dv == ints_of(views(ds@)),
                dv.len() == ds@.len(),
                forall|k: int| 0 <= k < i ==> (#[trigger] views(ds@)[k]) is Int,
                total.as_int() == horner(dv.take(i as int), b.as_int()),
            decreases ds.len() - i,
        {
            proof {
                assert(ds@[i as int].wf());
            }
            let d = match &ds[i] {
                Gval::Int(d) => d.clone(),
                _ => {
                    proof {
                        assert(!(views(ds@)[i as int] is Int));
                    }
                    return Err(Gerr::TypeError);
                },
            };
            proof {
                assert(views(ds@)[i as int] == ds@[i as int]@);
                assert(dv[i as int] == views(ds@)[i as int]->Int_0);
                assert(dv.take(i + 1).drop_last() =~= dv.take(i as int));
                assert(dv.take(i + 1).last() == dv[i as int]);
            }
            let m = crate::bigint::big_mul(&total, &b);
            total = crate::bigint::big_add(&m, &d);
            i += 1;
        }
        proof {
            assert(dv.take(dv.len() as int) =~= dv);
        }
        self.push(Gval::Int(total));
        Ok(())
    }

    /// Run a byte string of source code: tokenize it fully, then feed
    /// the tokens through; `:` binds the following token's lexeme to the
    /// current top of the stack.
    #[verifier::loop_isolation(false)]
    fn run_d(&mut self, code: &Vec<u8>, depth: u64) -> (r: Result<(), Gerr>)
        requires
            old(self).wf(),
        ensures
            final(self).wf(),
            crate::parse::spec_code(code@, 0).1 < code@.len() ==> r == Err::<(), Gerr>(
                Gerr::ParseError,
            ) && *final(self) == *old(self),
            run_prefix_post(code@, *old(self), *final(self), r),
            ({
                let cr = code_run(old(self).stack_v(), old(self).marks_v(), code@);
                (code_unbound(code@, old(self).vars_v()) && cr is Some) ==> r is Ok && final(self).stack_v() == (cr->0).0 && final(self).marks_v() == (cr->0).1 && final(self).vars_v() == old(self).vars_v() && final(self).rng_v() == old(self).rng_v()
                    && final(self).out_v() == old(self).out_v()
            }),
        decreases depth, 4int,
    {
        let ghost gts = crate::parse::spec_code(code@, 0).0;
        let (tokens, p) = crate::parse::parse_code(code);
        if p < code.len() {
            return Err(Gerr::ParseError);
        }
        let mut idx: usize = 0;
        proof {
            assert(gts.skip(0) =~= gts);
        }
        while idx < tokens.len()
            invariant
                self.wf(),
                idx <= tokens@.len(),
                gts == crate::parse::toks_views(tokens@),
                gts.len() == tokens@.len(),
                ({
                    let cr = toks_run(old(self).stack_v(), old(self).marks_v(), gts);
                    (toks_unbound(gts, old(self).vars_v()) && cr is Some) ==> toks_run(
                        self.stack_v(),
                        self.marks_v(),
                        gts.skip(idx as int),
                    ) == cr && self.vars_v() == old(self).vars_v() && self.rng_v() == old(
                        self,
                    ).rng_v() && self.out_v() == old(self).out_v()
                }),
                idx == 0 ==> *self == *old(self),
                gts.len() == 0 ==> idx == 0,
                gts.len() >= 1 && gts[0] == crate::parse::TokV::Symbol(seq![58u8]) ==> idx == 0
                    || idx >= 2,
                gts.len() == 1 && gts[0] == crate::parse::TokV::Symbol(seq![58u8]) ==> idx == 0,
                gts.len() == 2 && gts[0] == crate::parse::TokV::Symbol(seq![58u8]) ==> idx == 0
                    || idx == 2,
                gts.len() == 1 && gts[0] != crate::parse::TokV::Symbol(seq![58u8]) ==> idx <= 1,
                gts.len() == 1 && idx == 1 && (match gts[0] {
                    crate::parse::TokV::Comment(_) => true,
                    t => lit_result(t) is Some,
                }) && !old(self).vars_v().dom().contains(crate::parse::lexeme_v(gts[0]))
                    ==> self.stack_v() == (match lit_result(gts[0]) {
                    Some(v) => old(self).stack_v().push(v),
                    None => old(self).stack_v(),
                }),
                gts.len() == 2 && idx == 2 && gts[0] == crate::parse::TokV::Symbol(seq![58u8])
                    ==> old(self).stack_v().len() >= 1 && self.vars_v() == old(
                    self,
                ).vars_v().insert(
                    crate::parse::lexeme_v(gts[1]),
                    old(self).stack_v().last(),
                ) && self.stack_v() == old(self).stack_v() && self.marks_v() == old(
                    self,
                ).marks_v() && self.rng_v() == old(self).rng_v() && self.out_v() == old(
                    self,
                ).out_v(),
            decreases tokens.len() - idx,
        {
            proof {
                assert(tokens@[idx as int]@ == gts[idx as int]);
                if idx + 1 < tokens@.len() {
                    assert(tokens@[idx + 1]@ == gts[idx + 1]);
                }
                assert(gts.skip(idx as int).first() == gts[idx as int]);
                assert(gts.skip(idx as int).drop_first() =~= gts.skip(idx + 1));
            }
            if is_colon(&tokens[idx]) {
                proof {
                    let cr = toks_run(old(self).stack_v(), old(self).marks_v(), gts);
                    if toks_unbound(gts, old(self).vars_v()) && cr is Some {
                        lemma_colon_no_step(self.stack_v(), self.marks_v());
                        assert(step_tok(self.stack_v(), self.marks_v(), gts[idx as int]) is None);
                        assert(toks_run(self.stack_v(), self.marks_v(), gts.skip(idx as int))
                            is None);
                        assert(false);
                    }
                }
                if idx + 1 >= tokens.len() {
                    return Err(Gerr::ParseError);
                }
                let name = crate::value::clone_bytes(tokens[idx + 1].lexeme());
                let bound = match self.top() {
                    Ok(v) => v.clone(),
                    Err(e) => {
                        return Err(e);
                    },
                };
                self.bind(name, bound);
                idx += 2;
            } else {
                let ghost pre = *self;
                self.run_token(&tokens[idx], depth)?;
                proof {
                    let cr = toks_run(old(self).stack_v(), old(self).marks_v(), gts);
                    if toks_unbound(gts, old(self).vars_v()) && cr is Some {
                        assert(toks_run(pre.stack_v(), pre.marks_v(), gts.skip(idx as int)) == cr);
                        let st = step_tok(pre.stack_v(), pre.marks_v(), gts[idx as int]);
                        assert(st is Some);
                        assert(toks_run((st->0).0, (st->0).1, gts.skip(idx + 1)) == cr);
                    }
                }
                idx += 1;
            }
        }
        proof {
            let cr = toks_run(old(self).stack_v(), old(self).marks_v(), gts);
            if toks_unbound(gts, old(self).vars_v()) && cr is Some {
                assert(gts.skip(idx as int) =~= Seq::<crate::parse::TokV>::empty());
                assert(toks_run(self.stack_v(), self.marks_v(), gts.skip(idx as int)) == Some(
                    (self.stack_v(), self.marks_v()),
                ));
            }
        }
        Ok(())
    }

    /// Run a program against the current state.
    pub fn run(&mut self, code: &Vec<u8>) -> (r: Result<(), Gerr>)
        requires
            old(self).wf(),
        ensures
            final(self).wf(),
            crate::parse::spec_code(code@, 0).1 < code@.len() ==> r == Err::<(), Gerr>(
                Gerr::ParseError,
            ) && *final(self) == *old(self),
            run_prefix_post(code@, *old(self), *final(self), r),
            ({
                let cr = code_run(old(self).stack_v(), old(self).marks_v(), code@);
                (code_unbound(code@, old(self).vars_v()) && cr is Some) ==> r is Ok && final(self).stack_v() == (cr->0).0 && final(self).marks_v() == (cr->0).1 && final(self).vars_v() == old(self).vars_v() && final(self).rng_v() == old(self).rng_v()
                    && final(self).out_v() == old(self).out_v()
            }),
    {
        self.run_d(code, DEPTH_LIMIT)
    }

    /// The collected output, handing the buffer over.
    pub fn take_output(&mut self) -> (r: Vec<u8>)
        requires
            old(self).wf(),
        ensures
            final(self).wf(),
            r@ == old(self).out_v(),
            final(self).out_v() == Seq::<u8>::empty(),
            final(self).stack_v() == old(self).stack_v(),
            final(self).marks_v() == old(self).marks_v(),
            final(self).vars_v() == old(self).vars_v(),
            final(self).rng_v() == old(self).rng_v(),
    {
        let mut out: Vec<u8> = Vec::new();
        core::mem::swap(&mut out, &mut self.out);
        out
    }
}

/// The bytes of `and`.
fn kw_and() -> (r: Vec<u8>)
    ensures
        r@ == seq![97u8, 110u8, 100u8],
{
    let mut v: Vec<u8> = Vec::new();
    v.push(97);
    v.push(110);
    v.push(100);
    proof {
        assert(v@ =~= seq![97u8, 110u8, 100u8]);
    }
    v
}

/// The bytes of `or`.
fn kw_or() -> (r: Vec<u8>)
    ensures
        r@ == seq![111u8, 114u8],
{
    let mut v: Vec<u8> = Vec::new();
    v.push(111);
    v.push(114);
    proof {
        assert(v@ =~= seq![111u8, 114u8]);
    }
    v
}

/// The bytes of `xor`.
fn kw_xor() -> (r: Vec<u8>)
    ensures
        r@ == seq![120u8, 111u8, 114u8],
{
    let mut v: Vec<u8> = Vec::new();
    v.push(120);
    v.push(111);
    v.push(114);
    proof {
        assert(v@ =~= seq![120u8, 111u8, 114u8]);
    }
    v
}

/// The bytes of `print`.
fn kw_print() -> (r: Vec<u8>)
    ensures
        r@ == seq![112u8, 114u8, 105u8, 110u8, 116u8],
{
    let mut v: Vec<u8> = Vec::new();
    v.push(112);
    v.push(114);
    v.push(105);
    v.push(110);
    v.push(116);
    proof {
        assert(v@ =~= seq![112u8, 114u8, 105u8, 110u8, 116u8]);
    }
    v
}

/// The bytes of `puts`.
fn kw_puts() -> (r: Vec<u8>)
    ensures
        r@ == seq![112u8, 117u8, 116u8, 115u8],
{
    let mut v: Vec<u8> = Vec::new();
    v.push(112);
    v.push(117);
    v.push(116);
    v.push(115);
    proof {
        assert(v@ =~= seq![112u8, 117u8, 116u8, 115u8]);
    }
    v
}

/// The bytes of `rand`.
fn kw_rand() -> (r: Vec<u8>)
    ensures
        r@ == seq![114u8, 97u8, 110u8, 100u8],
{
    let mut v: Vec<u8> = Vec::new();
    v.push(114);
    v.push(97);
    v.push(110);
    v.push(100);
    proof {
        assert(v@ =~= seq![114u8, 97u8, 110u8, 100u8]);
    }
    v
}

/// The bytes of `do`.
fn kw_do() -> (r: Vec<u8>)
    ensures
        r@ == seq![100u8, 111u8],
{
    let mut v: Vec<u8> = Vec::new();
    v.push(100);
    v.push(111);
    proof {
        assert(v@ =~= seq![100u8, 111u8]);
    }
    v
}

/// The bytes of `while`.
fn kw_while() -> (r: Vec<u8>)
    ensures
        r@ == seq![119u8, 104u8, 105u8, 108u8, 101u8],
{
    let mut v: Vec<u8> = Vec::new();
    v.push(119);
    v.push(104);
    v.push(105);
    v.push(108);
    v.push(101);
    proof {
        assert(v@ =~= seq![119u8, 104u8, 105u8, 108u8, 101u8]);
    }
    v
}

/// The bytes of `until`.
fn kw_until() -> (r: Vec<u8>)
    ensures
        r@ == seq![117u8, 110u8, 116u8, 105u8, 108u8],
{
    let mut v: Vec<u8> = Vec::new();
    v.push(117);
    v.push(110);
    v.push(116);
    v.push(105);
    v.push(108);
    proof {
        assert(v@ =~= seq![117u8, 110u8, 116u8, 105u8, 108u8]);
    }
    v
}

/// The bytes of `if`.
fn kw_if() -> (r: Vec<u8>)
    ensures
        r@ == seq![105u8, 102u8],
{
    let mut v: Vec<u8> = Vec::new();
    v.push(105);
    v.push(102);
    proof {
        assert(v@ =~= seq![105u8, 102u8]);
    }
    v
}

/// The bytes of `abs`.
fn kw_abs() -> (r: Vec<u8>)
    ensures
        r@ == seq![97u8, 98u8, 115u8],
{
    let mut v: Vec<u8> = Vec::new();
    v.push(97);
    v.push(98);
    v.push(115);
    proof {
        assert(v@ =~= seq![97u8, 98u8, 115u8]);
    }
    v
}

/// The bytes of `zip`.
fn kw_zip() -> (r: Vec<u8>)
    ensures
        r@ == seq![122u8, 105u8, 112u8],
{
    let mut v: Vec<u8> = Vec::new();
    v.push(122);
    v.push(105);
    v.push(112);
    proof {
        assert(v@ =~= seq![122u8, 105u8, 112u8]);
    }
    v
}

/// The bytes of `base`.
fn kw_base() -> (r: Vec<u8>)
    ensures
        r@ == seq![98u8, 97u8, 115u8, 101u8],
{
    let mut v: Vec<u8> = Vec::new();
    v.push(98);
    v.push(97);
    v.push(115);
    v.push(101);
    proof {
        assert(v@ =~= seq![98u8, 97u8, 115u8, 101u8]);
    }
    v
}


/// The integers 0 up to (but not including) `n`, as values; empty for a
/// non-positive `n`.
pub open spec fn range_v(n: int) -> Seq<V> {
    Seq::new(
        (if n > 0 {
            n
        } else {
            0
        }) as nat,
        |k: int| V::Int(k),
    )
}

/// The stack transform of `@`: the third value from the top moves to the
/// top.
pub open spec fn rot3_v(s: Seq<V>) -> Seq<V> {
    s.take(s.len() - 3).push(s[s.len() - 2]).push(s.last()).push(s[s.len() - 3])
}

/// The stack transform of `\`: the top two values change places.
pub open spec fn swap_v(s: Seq<V>) -> Seq<V> {
    s.take(s.len() - 2).push(s.last()).push(s[s.len() - 2])
}

/// Applying the rotation of `@` three times restores the stack.
pub proof fn lemma_rotate_thrice(s: Seq<V>)
    requires
        s.len() >= 3,
    ensures
        rot3_v(rot3_v(rot3_v(s))) == s,
{
    assert(rot3_v(rot3_v(rot3_v(s))) =~= s);
}

/// Applying the swap of `\` twice restores the stack.
pub proof fn lemma_swap_twice(s: Seq<V>)
    requires
        s.len() >= 2,
    ensures
        swap_v(swap_v(s)) == s,
{
    assert(swap_v(swap_v(s)) =~= s);
}

/// Two applications of `` ` `` compose: the top becomes the inspected
/// form of the inspected form, so inspecting is total on its own output.
pub proof fn lemma_backtick_twice(s: Seq<V>)
    requires
        s.len() >= 1,
    ensures
        ({
            let s1 = s.drop_last().push(V::Str(crate::value::inspect_v(s.last())));
            let s2 = s1.drop_last().push(V::Str(crate::value::inspect_v(s1.last())));
            s2.last() == V::Str(
                crate::value::inspect_v(V::Str(crate::value::inspect_v(s.last()))),
            )
        }),
{
}

/// `,` on an array leaves its length; `,` on that integer leaves a range
/// with exactly as many entries as the array had.
pub proof fn lemma_comma_twice(s: Seq<V>, vs: Seq<V>)
    requires
        s.len() >= 1,
        s.last() == V::Arr(vs),
    ensures
        ({
            let s1 = s.drop_last().push(V::Int(vs.len() as int));
            let s2 = s1.drop_last().push(V::Arr(range_v(vs.len() as int)));
            s2.last()->Arr_0.len() == vs.len()
        }),
{
}

/// One abstract stack operation, as the mark bookkeeping sees it.
pub ghost enum StackOp {
    Push(V),
    Pop,
}

/// The stack after one operation.
pub open spec fn step_stack(s: Seq<V>, op: StackOp) -> Seq<V> {
    match op {
        StackOp::Push(v) => s.push(v),
        StackOp::Pop => s.drop_last(),
    }
}

/// One mark after one operation: a pop at or below the mark slides it
/// down, exactly as `pop` treats every entry of the mark stack.
pub open spec fn step_mark(s: Seq<V>, m: int, op: StackOp) -> int {
    match op {
        StackOp::Push(_) => m,
        StackOp::Pop => if m >= s.len() && m > 0 {
            m - 1
        } else {
            m
        },
    }
}

/// Pops never outrun the stack.
pub open spec fn ops_valid(len: int, ops: Seq<StackOp>) -> bool
    decreases ops.len(),
{
    if ops.len() == 0 {
        true
    } else {
        match ops[0] {
            StackOp::Push(_) => ops_valid(len + 1, ops.drop_first()),
            StackOp::Pop => len > 0 && ops_valid(len - 1, ops.drop_first()),
        }
    }
}

/// The stack after a whole sequence of operations.
pub open spec fn run_stack(s: Seq<V>, ops: Seq<StackOp>) -> Seq<V>
    decreases ops.len(),
{
    if ops.len() == 0 {
        s
    } else {
        run_stack(step_stack(s, ops[0]), ops.drop_first())
    }
}

/// The mark after a whole sequence of operations.
pub open spec fn run_mark(s: Seq<V>, m: int, ops: Seq<StackOp>) -> int
    decreases ops.len(),
{
    if ops.len() == 0 {
        m
    } else {
        run_mark(step_stack(s, ops[0]), step_mark(s, m, ops[0]), ops.drop_first())
    }
}

/// The lowest stack height reached over the run, the starting height
/// included.
pub open spec fn low_point(len: int, ops: Seq<StackOp>) -> int
    decreases ops.len(),
{
    if ops.len() == 0 {
        len
    } else {
        let next = match ops[0] {
            StackOp::Push(_) => len + 1,
            StackOp::Pop => len - 1,
        };
        vstd::math::min(len, low_point(next, ops.drop_first()))
    }
}

/// Each entry of the mark stack moves under `pop` exactly as the
/// one-mark model's pop step moves it.
pub proof fn lemma_pop_marks_pointwise(lb: Seq<usize>, s: Seq<V>, k: int)
    requires
        0 <= k < lb.len(),
    ensures
        pop_marks(lb, s.len() as int)[k] == step_mark(s, lb[k] as int, StackOp::Pop),
{
}

/// The low point never exceeds the starting height.
pub proof fn lemma_low_point_le(len: int, ops: Seq<StackOp>)
    ensures
        low_point(len, ops) <= len,
    decreases ops.len(),
{
    if ops.len() > 0 {
        let next = match ops[0] {
            StackOp::Push(_) => len + 1,
            StackOp::Pop => len - 1,
        };
        lemma_low_point_le(next, ops.drop_first());
    }
}

/// The mark a `[` left behind ends at the low-water point of the run: the
/// lower of where it started and the lowest height the stack reached. A
/// closing `]` therefore collects `final height - low point` values, which
/// is the run's net stack change plus however many values it consumed
/// from below the original top.
pub proof fn lemma_mark_is_low_point(s: Seq<V>, m: int, ops: Seq<StackOp>)
    requires
        0 <= m <= s.len(),
        ops_valid(s.len() as int, ops),
    ensures
        run_mark(s, m, ops) == vstd::math::min(m, low_point(s.len() as int, ops)),
        run_stack(s, ops).len() == s.len() + count_pushes(ops) - count_pops(ops),
    decreases ops.len(),
{
    if ops.len() > 0 {
        let s2 = step_stack(s, ops[0]);
        let m2 = step_mark(s, m, ops[0]);
        match ops[0] {
            StackOp::Push(_) => {
                lemma_mark_is_low_point(s2, m2, ops.drop_first());
                lemma_low_point_le(s2.len() as int, ops.drop_first());
            },
            StackOp::Pop => {
                lemma_mark_is_low_point(s2, m2, ops.drop_first());
                lemma_low_point_le(s2.len() as int, ops.drop_first());
            },
        }
    }
}

/// Number of pushes in a run.
pub open spec fn count_pushes(ops: Seq<StackOp>) -> int
    decreases ops.len(),
{
    if ops.len() == 0 {
        0
    } else {
        (match ops[0] {
            StackOp::Push(_) => 1int,
            StackOp::Pop => 0int,
        }) + count_pushes(ops.drop_first())
    }
}

/// Number of pops in a run.
pub open spec fn count_pops(ops: Seq<StackOp>) -> int
    decreases ops.len(),
{
    if ops.len() == 0 {
        0
    } else {
        (match ops[0] {
            StackOp::Push(_) => 0int,
            StackOp::Pop => 1int,
        }) + count_pops(ops.drop_first())
    }
}

/// The size of the array a `]` gathers: the run's net stack change plus
/// the values it consumed from below the mark's starting height.
pub proof fn lemma_bracket_size(s: Seq<V>, ops: Seq<StackOp>)
    requires
        ops_valid(s.len() as int, ops),
    ensures
        run_stack(s, ops).len() - run_mark(s, s.len() as int, ops) == (count_pushes(ops)
            - count_pops(ops)) + (s.len() - low_point(s.len() as int, ops)),
{
    lemma_mark_is_low_point(s, s.len() as int, ops);
    lemma_low_point_le(s.len() as int, ops);
}


/// The separator-then-piece tail a piece list contributes to a join.
pub open spec fn join_tail<T>(ps: Seq<Seq<T>>, sep: Seq<T>) -> Seq<T>
    decreases ps.len(),
{
    if ps.len() == 0 {
        Seq::empty()
    } else {
        sep + ps[0] + join_tail(ps.drop_first(), sep)
    }
}

/// A joined piece list is its first piece followed by the tail.
proof fn lemma_join_pieces_tail<T>(ps: Seq<Seq<T>>, sep: Seq<T>)
    requires
        ps.len() >= 1,
    ensures
        crate::util::join_pieces(ps, sep) == ps[0] + join_tail(ps.drop_first(), sep),
    decreases ps.len(),
{
    if ps.len() == 1 {
        assert(ps.drop_first().len() == 0);
        assert(ps[0] + join_tail(ps.drop_first(), sep) =~= ps[0]);
    } else {
        let d = ps.drop_first();
        lemma_join_pieces_tail(d, sep);
        assert(d.drop_first() =~= ps.drop_first().drop_first());
        assert(ps[0] + sep + (d[0] + join_tail(d.drop_first(), sep)) =~= ps[0] + (sep + d[0]
            + join_tail(d.drop_first(), sep)));
    }
}

/// Folding string pieces into an accumulator concatenates separator and
/// piece bytes in turn.
proof fn lemma_join_acc_strs(acc: Seq<u8>, rest: Seq<Seq<u8>>, sep: Seq<u8>)
    ensures
        crate::value::join_acc(V::Str(acc), strs_of(rest, true), V::Str(sep)) == V::Str(
            acc + join_tail(rest, sep),
        ),
    decreases rest.len(),
{
    if rest.len() == 0 {
        assert(strs_of(rest, true).len() == 0);
        assert(acc + join_tail(rest, sep) =~= acc);
    } else {
        let sv = strs_of(rest, true);
        assert(sv[0] == V::Str(rest[0]));
        let step = crate::value::plus_v(
            crate::value::plus_v(V::Str(acc), V::Str(sep)),
            V::Str(rest[0]),
        );
        assert(step == V::Str(acc + sep + rest[0]));
        assert(sv.drop_first() =~= strs_of(rest.drop_first(), true));
        lemma_join_acc_strs(acc + sep + rest[0], rest.drop_first(), sep);
        assert(acc + sep + rest[0] + join_tail(rest.drop_first(), sep) =~= acc + (sep + rest[0]
            + join_tail(rest.drop_first(), sep)));
    }
}

/// Splitting a string at a separator with `/` and joining the pieces
/// with the same separator through `*` restores the string.
pub proof fn lemma_split_join_str(s: Seq<u8>, sep: Seq<u8>)
    requires
        sep.len() > 0,
    ensures
        crate::value::join_v(
            strs_of(crate::util::spec_split(s, sep), true),
            V::Str(sep),
        ) == V::Str(s),
{
    let ps = crate::util::spec_split(s, sep);
    crate::util::lemma_split_nonempty(s, sep);
    crate::util::lemma_split_join(s, sep);
    let sv = strs_of(ps, true);
    assert(sv.len() >= 1);
    assert(sv[0] == V::Str(ps[0]));
    assert(crate::coerce::coerce_v(sv[0], V::Str(sep)).0 == V::Str(ps[0]));
    assert(sv.drop_first() =~= strs_of(ps.drop_first(), true));
    lemma_join_acc_strs(ps[0], ps.drop_first(), sep);
    lemma_join_pieces_tail(ps, sep);
}

/// Folding array pieces into an accumulator concatenates separator and
/// piece elements in turn.
proof fn lemma_join_acc_arrs(acc: Seq<V>, rest: Seq<Seq<V>>, sep: Seq<V>)
    ensures
        crate::value::join_acc(V::Arr(acc), arrs_of(rest), V::Arr(sep)) == V::Arr(
            acc + join_tail(rest, sep),
        ),
    decreases rest.len(),
{
    if rest.len() == 0 {
        assert(arrs_of(rest).len() == 0);
        assert(acc + join_tail(rest, sep) =~= acc);
    } else {
        let sv = arrs_of(rest);
        assert(sv[0] == V::Arr(rest[0]));
        let step = crate::value::plus_v(
            crate::value::plus_v(V::Arr(acc), V::Arr(sep)),
            V::Arr(rest[0]),
        );
        assert(step == V::Arr(acc + sep + rest[0]));
        assert(sv.drop_first() =~= arrs_of(rest.drop_first()));
        lemma_join_acc_arrs(acc + sep + rest[0], rest.drop_first(), sep);
        assert(acc + sep + rest[0] + join_tail(rest.drop_first(), sep) =~= acc + (sep + rest[0]
            + join_tail(rest.drop_first(), sep)));
    }
}

/// Splitting an array at a separator with `/` and joining the pieces
/// with the same separator through `*` restores the array.
pub proof fn lemma_split_join_arr(s: Seq<V>, sep: Seq<V>)
    requires
        sep.len() > 0,
    ensures
        crate::value::join_v(
            arrs_of(crate::util::spec_split(s, sep)),
            V::Arr(sep),
        ) == V::Arr(s),
{
    let ps = crate::util::spec_split(s, sep);
    crate::util::lemma_split_nonempty(s, sep);
    crate::util::lemma_split_join(s, sep);
    let sv = arrs_of(ps);
    assert(sv.len() >= 1);
    assert(sv[0] == V::Arr(ps[0]));
    assert(crate::coerce::coerce_v(sv[0], V::Arr(sep)).0 == V::Arr(ps[0]));
    assert(sv.drop_first() =~= arrs_of(ps.drop_first()));
    lemma_join_acc_arrs(ps[0], ps.drop_first(), sep);
    lemma_join_pieces_tail(ps, sep);
}


/// Position of the first element equal to `n`, or -1.
pub open spec fn find_index(h: Seq<V>, n: V) -> int
    decreases h.len(),
{
    if h.len() == 0 {
        -1
    } else if h[0] == n {
        0
    } else {
        let r = find_index(h.drop_first(), n);
        if r == -1 {
            -1
        } else {
            r + 1
        }
    }
}

/// Position of the first byte equal to `b`, or -1.
pub open spec fn byte_find(h: Seq<u8>, b: u8) -> int
    decreases h.len(),
{
    if h.len() == 0 {
        -1
    } else if h[0] == b {
        0
    } else {
        let r = byte_find(h.drop_first(), b);
        if r == -1 {
            -1
        } else {
            r + 1
        }
    }
}

/// Position of the first occurrence of `n` in `h`, or -1.
pub open spec fn sub_find(h: Seq<u8>, n: Seq<u8>) -> int
    decreases h.len(),
{
    if crate::util::match_at(h, n, 0) {
        0
    } else if h.len() == 0 {
        -1
    } else {
        let r = sub_find(h.drop_first(), n);
        if r == -1 {
            -1
        } else {
            r + 1
        }
    }
}

/// A search result is a position or -1.
proof fn lemma_find_index_range(h: Seq<V>, n: V)
    ensures
        find_index(h, n) >= -1,
    decreases h.len(),
{
    if h.len() > 0 && h[0] != n {
        lemma_find_index_range(h.drop_first(), n);
    }
}

/// A byte search result is a position or -1.
proof fn lemma_byte_find_range(h: Seq<u8>, b: u8)
    ensures
        byte_find(h, b) >= -1,
    decreases h.len(),
{
    if h.len() > 0 && h[0] != b {
        lemma_byte_find_range(h.drop_first(), b);
    }
}

/// An occurrence one step into the string is an occurrence of the tail.
proof fn lemma_match_shift(h: Seq<u8>, n: Seq<u8>, j: int)
    requires
        h.len() >= 1,
        j >= 0,
    ensures
        crate::util::match_at(h, n, j + 1) == crate::util::match_at(h.drop_first(), n, j),
{
    if j + 1 + n.len() <= h.len() {
        assert(h.subrange(j + 1, j + 1 + n.len() as int) =~= h.drop_first().subrange(
            j,
            j + n.len() as int,
        ));
    }
}

/// The first-occurrence characterisation pins down `sub_find`.
proof fn lemma_sub_find_characterises(h: Seq<u8>, n: Seq<u8>, r: int)
    requires
        r == -1 ==> forall|j: int| !crate::util::match_at(h, n, j),
        r >= 0 ==> crate::util::match_at(h, n, r) && (forall|j: int|
            0 <= j < r ==> !crate::util::match_at(h, n, j)),
        r >= -1,
    ensures
        sub_find(h, n) == r,
    decreases h.len(),
{
    if crate::util::match_at(h, n, 0) {
        assert(r == 0);
    } else if h.len() == 0 {
        if r >= 0 {
            assert(crate::util::match_at(h, n, r));
            assert(false);
        }
    } else {
        let d = h.drop_first();
        if r == -1 {
            assert forall|j: int| !crate::util::match_at(d, n, j) by {
                if j >= 0 {
                    lemma_match_shift(h, n, j);
                    assert(!crate::util::match_at(h, n, j + 1));
                }
            }
            lemma_sub_find_characterises(d, n, -1);
        } else {
            assert(r != 0);
            lemma_match_shift(h, n, r - 1);
            assert(crate::util::match_at(d, n, r - 1));
            assert forall|j: int| 0 <= j < r - 1 implies !crate::util::match_at(d, n, j) by {
                lemma_match_shift(h, n, j);
                assert(!crate::util::match_at(h, n, j + 1));
            }
            lemma_sub_find_characterises(d, n, r - 1);
        }
    }
}

// ---------------------------------------------------------------------
// A spec-level model of evaluation. A token is a pure step where its
// operator neither runs a block nor touches the bindings, the generator
// or the output; `step_sym` states each such symbol's effect exactly as
// the operator's own contract states it, and `toks_run` chains the
// steps. `run_token` and `run` are proved to conform: a program all of
// whose tokens are pure steps ends exactly where the model says. The
// block-running forms (`map`, `select`, `find`, the repetition of `*`,
// `do`) then state their outcome through the model, so a whole scenario
// is fixed by contracts alone whenever the block's own tokens are pure.
// ---------------------------------------------------------------------

/// The effect of one pure symbol on the stack and the marks, `None` for
/// a symbol outside the modelled set or an operand shape that would run
/// a block, write output, draw from the generator, or fail.
pub open spec fn step_sym(stk: Seq<V>, mks: Seq<usize>, sym: Seq<u8>) -> Option<
    (Seq<V>, Seq<usize>),
> {
    let len = stk.len() as int;
    let m1 = pop_marks(mks, len);
    let m2 = pop_marks(pop_marks(mks, len), len - 1);
    if sym == seq![46u8] {
        // `.`
        if len >= 1 {
            Some((stk.push(stk.last()), m1))
        } else {
            None
        }
    } else if sym == seq![92u8] {
        // `\`
        if len >= 2 {
            Some((swap_v(stk), m2))
        } else {
            None
        }
    } else if sym == seq![64u8] {
        // `@`
        if len >= 3 {
            Some((rot3_v(stk), pop_marks(m2, len - 2)))
        } else {
            None
        }
    } else if sym == seq![59u8] {
        // `;`
        if len >= 1 {
            Some((stk.drop_last(), m1))
        } else {
            None
        }
    } else if sym == seq![33u8] {
        // `!`
        if len >= 1 {
            Some(
                (
                    stk.drop_last().push(
                        V::Int(
                            if falsey_v(stk.last()) {
                                1int
                            } else {
                                0int
                            },
                        ),
                    ),
                    m1,
                ),
            )
        } else {
            None
        }
    } else if sym == seq![96u8] {
        // backtick
        if len >= 1 {
            Some((stk.drop_last().push(V::Str(crate::value::inspect_v(stk.last()))), m1))
        } else {
            None
        }
    } else if sym == seq![126u8] {
        // `~` on an integer or an array
        if len >= 1 && stk.last() is Int {
            Some((stk.drop_last().push(V::Int(-stk.last()->Int_0 - 1)), m1))
        } else if len >= 1 && stk.last() is Arr {
            Some((stk.drop_last() + stk.last()->Arr_0, m1))
        } else {
            None
        }
    } else if sym == seq![40u8] {
        // `(`
        if len >= 1 && (stk.last() is Int || !falsey_v(stk.last())) {
            Some(
                (
                    (match stk.last() {
                        V::Int(n) => stk.drop_last().push(V::Int(n - 1)),
                        V::Arr(vs) => stk.drop_last().push(V::Arr(vs.drop_first())).push(vs[0]),
                        V::Str(bs) => stk.drop_last().push(V::Str(bs.drop_first())).push(
                            V::Int(bs[0] as int),
                        ),
                        V::Blk(bs) => stk.drop_last().push(V::Blk(bs.drop_first())).push(
                            V::Int(bs[0] as int),
                        ),
                    }),
                    m1,
                ),
            )
        } else {
            None
        }
    } else if sym == seq![41u8] {
        // `)`
        if len >= 1 && (stk.last() is Int || !falsey_v(stk.last())) {
            Some(
                (
                    (match stk.last() {
                        V::Int(n) => stk.drop_last().push(V::Int(n + 1)),
                        V::Arr(vs) => stk.drop_last().push(V::Arr(vs.drop_last())).push(vs.last()),
                        V::Str(bs) => stk.drop_last().push(V::Str(bs.drop_last())).push(
                            V::Int(bs.last() as int),
                        ),
                        V::Blk(bs) => stk.drop_last().push(V::Blk(bs.drop_last())).push(
                            V::Int(bs.last() as int),
                        ),
                    }),
                    m1,
                ),
            )
        } else {
            None
        }
    } else if sym == seq![43u8] {
        // `+`
        if len >= 2 {
            Some((stk.take(len - 2).push(crate::value::plus_v(stk[len - 2], stk.last())), m2))
        } else {
            None
        }
    } else if sym == seq![45u8] {
        // `-`
        if len >= 2 {
            Some((stk.take(len - 2).push(minus_v(stk[len - 2], stk.last())), m2))
        } else {
            None
        }
    } else if sym == seq![124u8] {
        // `|`
        if len >= 2 {
            Some((stk.take(len - 2).push(bar_v(stk[len - 2], stk.last())), m2))
        } else {
            None
        }
    } else if sym == seq![38u8] {
        // `&`
        if len >= 2 {
            Some((stk.take(len - 2).push(amp_v(stk[len - 2], stk.last())), m2))
        } else {
            None
        }
    } else if sym == seq![94u8] {
        // `^`
        if len >= 2 {
            Some((stk.take(len - 2).push(caret_v(stk[len - 2], stk.last())), m2))
        } else {
            None
        }
    } else if sym == seq![60u8] || sym == seq![61u8] || sym == seq![62u8] {
        // `<`, `=`, `>`
        let o = if sym == seq![60u8] {
            Ord3::Lt
        } else if sym == seq![61u8] {
            Ord3::Eq
        } else {
            Ord3::Gt
        };
        if len >= 2 {
            Some(
                (
                    (match lteqgt_v(o, stk[len - 2], stk.last()) {
                        Some(v) => stk.take(len - 2).push(v),
                        None => stk.take(len - 2),
                    }),
                    m2,
                ),
            )
        } else {
            None
        }
    } else if sym == seq![42u8] {
        // `*` on two integers
        if len >= 2 && stk[len - 2] is Int && stk.last() is Int {
            Some((stk.take(len - 2).push(V::Int(stk[len - 2]->Int_0 * stk.last()->Int_0)), m2))
        } else {
            None
        }
    } else if sym == seq![47u8] {
        // `/` on two integers
        if len >= 2 && stk[len - 2] is Int && stk.last() is Int && stk.last()->Int_0 != 0 {
            Some(
                (
                    stk.take(len - 2).push(
                        V::Int(crate::bigint::fdiv(stk[len - 2]->Int_0, stk.last()->Int_0)),
                    ),
                    m2,
                ),
            )
        } else {
            None
        }
    } else if sym == seq![37u8] {
        // `%` on two integers
        if len >= 2 && stk[len - 2] is Int && stk.last() is Int && stk.last()->Int_0 != 0 {
            Some(
                (
                    stk.take(len - 2).push(
                        V::Int(crate::bigint::fmod(stk[len - 2]->Int_0, stk.last()->Int_0)),
                    ),
                    m2,
                ),
            )
        } else {
            None
        }
    } else if sym == seq![63u8] {
        // `?` on two integers
        if len >= 2 && stk[len - 2] is Int && stk.last() is Int {
            Some(
                (
                    stk.take(len - 2).push(
                        V::Int(
                            if 0 <= stk.last()->Int_0 <= u32::MAX {
                                vstd::arithmetic::power::pow(
                                    stk[len - 2]->Int_0,
                                    stk.last()->Int_0 as nat,
                                )
                            } else {
                                0
                            },
                        ),
                    ),
                    m2,
                ),
            )
        } else {
            None
        }
    } else if sym == seq![44u8] {
        // `,` on anything but a block
        if len >= 1 && !(stk.last() is Blk) {
            Some(
                (
                    (match stk.last() {
                        V::Int(n) => stk.drop_last().push(V::Arr(range_v(n))),
                        V::Arr(vs) => stk.drop_last().push(V::Int(vs.len() as int)),
                        V::Str(bs) => stk.drop_last().push(V::Int(bs.len() as int)),
                        V::Blk(_) => stk,
                    }),
                    m1,
                ),
            )
        } else {
            None
        }
    } else if sym == seq![36u8] {
        // `$` on anything but a block
        if len >= 1 && !(stk.last() is Blk) {
            Some(
                (
                    (match stk.last() {
                        V::Int(n) => {
                            let s1 = stk.drop_last();
                            if n <= -2 && -n - 2 < s1.len() {
                                s1.push(s1[-n - 2])
                            } else if 0 <= n < s1.len() {
                                s1.push(s1[s1.len() - 1 - n])
                            } else {
                                s1
                            }
                        },
                        V::Arr(vs) => stk.drop_last().push(V::Arr(sort_v(vs))),
                        V::Str(bs) => stk.drop_last().push(V::Str(sort_bytes_v(bs))),
                        V::Blk(_) => stk,
                    }),
                    m1,
                ),
            )
        } else {
            None
        }
    } else if sym == seq![91u8] {
        // `[`
        Some((stk, mks.push(stk.len() as usize)))
    } else if sym == seq![93u8] {
        // `]`
        let m = if mks.len() > 0 {
            mks.last() as int
        } else {
            0
        };
        Some(
            (
                stk.take(m).push(V::Arr(stk.skip(m))),
                if mks.len() > 0 {
                    mks.drop_last()
                } else {
                    mks
                },
            ),
        )
    } else if sym == seq![110u8] {
        // `n`
        Some((stk.push(V::Str(seq![10u8])), mks))
    } else {
        None
    }
}

/// The binder `:` is no pure step: it is handled a token ahead of the
/// dispatcher.
proof fn lemma_colon_no_step(stk: Seq<V>, mks: Seq<usize>)
    ensures
        step_sym(stk, mks, seq![58u8]) is None,
{
    assert(seq![58u8][0] == 58u8);
    assert(seq![46u8][0] == 46u8);
    assert(seq![92u8][0] == 92u8);
    assert(seq![64u8][0] == 64u8);
    assert(seq![59u8][0] == 59u8);
    assert(seq![33u8][0] == 33u8);
    assert(seq![96u8][0] == 96u8);
    assert(seq![126u8][0] == 126u8);
    assert(seq![40u8][0] == 40u8);
    assert(seq![41u8][0] == 41u8);
    assert(seq![43u8][0] == 43u8);
    assert(seq![45u8][0] == 45u8);
    assert(seq![124u8][0] == 124u8);
    assert(seq![38u8][0] == 38u8);
    assert(seq![94u8][0] == 94u8);
    assert(seq![60u8][0] == 60u8);
    assert(seq![61u8][0] == 61u8);
    assert(seq![62u8][0] == 62u8);
    assert(seq![42u8][0] == 42u8);
    assert(seq![47u8][0] == 47u8);
    assert(seq![37u8][0] == 37u8);
    assert(seq![63u8][0] == 63u8);
    assert(seq![44u8][0] == 44u8);
    assert(seq![36u8][0] == 36u8);
    assert(seq![91u8][0] == 91u8);
    assert(seq![93u8][0] == 93u8);
    assert(seq![110u8][0] == 110u8);
}

/// The effect of one pure token: a literal pushes its value, a comment
/// does nothing, a symbol acts as `step_sym` says.
pub open spec fn step_tok(stk: Seq<V>, mks: Seq<usize>, t: crate::parse::TokV) -> Option<
    (Seq<V>, Seq<usize>),
> {
    match t {
        crate::parse::TokV::Symbol(sym) => step_sym(stk, mks, sym),
        crate::parse::TokV::Comment(_) => Some((stk, mks)),
        _ => Some((stk.push(lit_result(t)->0), mks)),
    }
}

/// A token list fed through the pure steps, `None` as soon as one token
/// is outside them.
pub open spec fn toks_run(stk: Seq<V>, mks: Seq<usize>, ts: Seq<crate::parse::TokV>) -> Option<
    (Seq<V>, Seq<usize>),
>
    decreases ts.len(),
{
    if ts.len() == 0 {
        Some((stk, mks))
    } else {
        match step_tok(stk, mks, ts.first()) {
            Some(sm) => toks_run(sm.0, sm.1, ts.drop_first()),
            None => None,
        }
    }
}

/// No token's lexeme is a bound name, so no step is shadowed by a
/// variable.
pub open spec fn toks_unbound(ts: Seq<crate::parse::TokV>, vars: Map<Seq<u8>, V>) -> bool {
    forall|i: int|
        0 <= i < ts.len() ==> !vars.dom().contains(crate::parse::lexeme_v(#[trigger] ts[i]))
}

/// A whole program fed through the pure steps: it must tokenize to its
/// end, and every token must be a pure step.
pub open spec fn code_run(stk: Seq<V>, mks: Seq<usize>, code: Seq<u8>) -> Option<
    (Seq<V>, Seq<usize>),
> {
    let ts = crate::parse::spec_code(code, 0);
    if ts.1 == code.len() {
        toks_run(stk, mks, ts.0)
    } else {
        None
    }
}

/// No token of the program is a bound name.
pub open spec fn code_unbound(code: Seq<u8>, vars: Map<Seq<u8>, V>) -> bool {
    toks_unbound(crate::parse::spec_code(code, 0).0, vars)
}

/// A pure block run `k` times in a row.
pub open spec fn iter_run(stk: Seq<V>, mks: Seq<usize>, code: Seq<u8>, k: nat) -> Option<
    (Seq<V>, Seq<usize>),
>
    decreases k,
{
    if k == 0 {
        Some((stk, mks))
    } else {
        match code_run(stk, mks, code) {
            Some(sm) => iter_run(sm.0, sm.1, code, (k - 1) as nat),
            None => None,
        }
    }
}

/// The `do` loop over a pure body: run it, pop, stop on a falsey value.
/// `None` when the fuel runs out, a pop underflows, or the body is no
/// pure run; the fuel counts the runs of the body.
pub open spec fn do_run(stk: Seq<V>, mks: Seq<usize>, code: Seq<u8>, fuel: nat) -> Option<
    (Seq<V>, Seq<usize>),
>
    decreases fuel,
{
    if fuel == 0 {
        None
    } else {
        match code_run(stk, mks, code) {
            Some(sm) => if sm.0.len() == 0 {
                None
            } else {
                let c = sm.0.last();
                let s2 = sm.0.drop_last();
                let m2 = pop_marks(sm.1, sm.0.len() as int);
                if falsey_v(c) {
                    Some((s2, m2))
                } else {
                    do_run(s2, m2, code, (fuel - 1) as nat)
                }
            },
            None => None,
        }
    }
}

/// The marks after a stack of length `len` is popped down to length `h`,
/// one value at a time.
pub open spec fn pops_to(mks: Seq<usize>, len: int, h: int) -> Seq<usize>
    decreases (if len > h {
        len - h
    } else {
        0
    }),
{
    if len <= h {
        mks
    } else {
        pops_to(pop_marks(mks, len), len - 1, h)
    }
}

/// Peeling the last pop off a run of pops.
proof fn lemma_pops_to_snoc(mks: Seq<usize>, len: int, h: int)
    requires
        h < len,
    ensures
        pops_to(mks, len, h) == pop_marks(pops_to(mks, len, h + 1), h + 1),
    decreases len - h,
{
    if len == h + 1 {
        assert(pops_to(mks, len, h) == pops_to(pop_marks(mks, len), len - 1, h));
        assert(pops_to(pop_marks(mks, len), len - 1, h) == pop_marks(mks, len));
        assert(pops_to(mks, len, h + 1) == mks);
    } else {
        lemma_pops_to_snoc(pop_marks(mks, len), len - 1, h);
        assert(pops_to(mks, len, h) == pops_to(pop_marks(mks, len), len - 1, h));
        assert(pops_to(mks, len, h + 1) == pops_to(pop_marks(mks, len), len - 1, h + 1));
    }
}

/// One element mapped: push it, run the block, and collect whatever it
/// left above the element's watermark, in stack order.
pub open spec fn map_step(stk: Seq<V>, mks: Seq<usize>, code: Seq<u8>, v: V) -> Option<
    (Seq<V>, Seq<usize>, Seq<V>),
> {
    let base = stk.len() as int;
    match code_run(stk.push(v), mks, code) {
        Some(sm) => {
            let l = sm.0.len() as int;
            let keep = if l <= base {
                l
            } else {
                base
            };
            Some((sm.0.take(keep), pops_to(sm.1, l, keep), sm.0.skip(keep)))
        },
        None => None,
    }
}

/// A whole sequence mapped over a pure block, the collected batches
/// concatenated in element order.
pub open spec fn map_run(stk: Seq<V>, mks: Seq<usize>, code: Seq<u8>, vs: Seq<V>) -> Option<
    (Seq<V>, Seq<usize>, Seq<V>),
>
    decreases vs.len(),
{
    if vs.len() == 0 {
        Some((stk, mks, Seq::empty()))
    } else {
        match map_step(stk, mks, code, vs.first()) {
            Some(sm) => match map_run(sm.0, sm.1, code, vs.drop_first()) {
                Some(rest) => Some((rest.0, rest.1, sm.2 + rest.2)),
                None => None,
            },
            None => None,
        }
    }
}

/// Selection by a pure block: each element is pushed, the block run, one
/// value popped, and the element kept exactly where that value is
/// truthy; the kept elements stay in order.
pub open spec fn select_run(stk: Seq<V>, mks: Seq<usize>, code: Seq<u8>, vs: Seq<V>) -> Option<
    (Seq<V>, Seq<usize>, Seq<V>),
>
    decreases vs.len(),
{
    if vs.len() == 0 {
        Some((stk, mks, Seq::empty()))
    } else {
        match code_run(stk.push(vs.first()), mks, code) {
            Some(sm) => if sm.0.len() == 0 {
                None
            } else {
                let c = sm.0.last();
                let s2 = sm.0.drop_last();
                let m2 = pop_marks(sm.1, sm.0.len() as int);
                match select_run(s2, m2, code, vs.drop_first()) {
                    Some(rest) => Some(
                        (
                            rest.0,
                            rest.1,
                            if falsey_v(c) {
                                rest.2
                            } else {
                                seq![vs.first()] + rest.2
                            },
                        ),
                    ),
                    None => None,
                }
            },
            None => None,
        }
    }
}

/// Search by a pure block: the first element for which the block leaves
/// a truthy value is pushed back and the walk stops; with no such
/// element nothing is pushed.
pub open spec fn find_run(stk: Seq<V>, mks: Seq<usize>, code: Seq<u8>, vs: Seq<V>) -> Option<
    (Seq<V>, Seq<usize>),
>
    decreases vs.len(),
{
    if vs.len() == 0 {
        Some((stk, mks))
    } else {
        match code_run(stk.push(vs.first()), mks, code) {
            Some(sm) => if sm.0.len() == 0 {
                None
            } else {
                let c = sm.0.last();
                let s2 = sm.0.drop_last();
                let m2 = pop_marks(sm.1, sm.0.len() as int);
                if !falsey_v(c) {
                    Some((s2.push(vs.first()), m2))
                } else {
                    find_run(s2, m2, code, vs.drop_first())
                }
            },
            None => None,
        }
    }
}

} // verus!
