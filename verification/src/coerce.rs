//! The four-way coercion matrix: any two values are promoted to a common
//! kind, the higher of the two ranks (integer, array, string, block).

use vstd::prelude::*;

use crate::bigint::Bint;
use crate::bigint::dec_of;
use crate::bigint::fmod;
use crate::value::Gval;
use crate::value::V;
use crate::value::all_wf;
use crate::value::kind_rank;
use crate::value::to_gs_v;
use crate::value::to_gs_bytes;
use crate::value::extend_bytes;
use crate::value::lemma_wf_arr;

verus! {

/// Bytes of one value under the flatten rule: an integer is one byte (its
/// value mod 256), an array flattens recursively, strings and blocks give
/// their bytes.
pub open spec fn flatten_v(v: V) -> Seq<u8>
    decreases v,
    via flatten_v_dec
{
    match v {
        V::Int(n) => seq![fmod(n, 256) as u8],
        V::Arr(vs) => flatten_seq(vs),
        V::Str(bs) => bs,
        V::Blk(bs) => bs,
    }
}

#[via_fn]
proof fn flatten_v_dec(v: V) {
    if v is Arr {
        assert(decreases_to!(v => v->Arr_0));
    }
}

/// Bytes of a sequence of values under the flatten rule.
pub open spec fn flatten_seq(vs: Seq<V>) -> Seq<u8>
    decreases vs,
    via flatten_seq_dec
{
    if vs.len() == 0 {
        Seq::empty()
    } else {
        flatten_seq(vs.drop_last()) + flatten_v(vs.last())
    }
}

#[via_fn]
proof fn flatten_seq_dec(vs: Seq<V>) {
    if vs.len() > 0 {
        assert(decreases_to!(vs => vs.drop_last()));
        assert(decreases_to!(vs => vs.last()));
    }
}

/// Elements stringified and joined by single spaces.
pub open spec fn words_seq(vs: Seq<V>) -> Seq<u8>
    decreases vs,
    via words_seq_dec
{
    if vs.len() == 0 {
        Seq::empty()
    } else if vs.len() == 1 {
        to_gs_v(vs[0])
    } else {
        words_seq(vs.drop_last()) + seq![32u8] + to_gs_v(vs.last())
    }
}

#[via_fn]
proof fn words_seq_dec(vs: Seq<V>) {
    if vs.len() == 1 {
        assert(decreases_to!(vs => vs[0]));
    } else if vs.len() > 1 {
        assert(decreases_to!(vs => vs.drop_last()));
        assert(decreases_to!(vs => vs.last()));
    }
}

/// Promotion of a value to the kind of the given rank, per the coercion
/// table; the rank must be at least the value's own.
pub open spec fn promote_v(v: V, k: int) -> V {
    if kind_rank(v) == k {
        v
    } else if k == 1 {
        V::Arr(seq![v])
    } else if k == 2 {
        match v {
            V::Int(n) => V::Str(dec_of(n)),
            V::Arr(vs) => V::Str(flatten_seq(vs)),
            _ => v,
        }
    } else {
        match v {
            V::Int(n) => V::Blk(dec_of(n)),
            V::Arr(vs) => V::Blk(words_seq(vs)),
            V::Str(bs) => V::Blk(bs),
            _ => v,
        }
    }
}

/// The common rank of a coerced pair: the higher of the two ranks.
pub open spec fn coerced_rank(a: V, b: V) -> int {
    if kind_rank(a) >= kind_rank(b) {
        kind_rank(a)
    } else {
        kind_rank(b)
    }
}

/// The coerced pair.
pub open spec fn coerce_v(a: V, b: V) -> (V, V) {
    (promote_v(a, coerced_rank(a, b)), promote_v(b, coerced_rank(a, b)))
}

/// A pair of values promoted to a common kind.
pub enum Coerced {
    Ints(Bint, Bint),
    Arrs(Vec<Gval>, Vec<Gval>),
    Strs(Vec<u8>, Vec<u8>),
    Blks(Vec<u8>, Vec<u8>),
}

impl Coerced {
    /// View of the left value.
    pub open spec fn left_v(self) -> V {
        match self {
            Coerced::Ints(a, _) => V::Int(a.as_int()),
            Coerced::Arrs(a, _) => Gval::Arr(a)@,
            Coerced::Strs(a, _) => V::Str(a@),
            Coerced::Blks(a, _) => V::Blk(a@),
        }
    }

    /// View of the right value.
    pub open spec fn right_v(self) -> V {
        match self {
            Coerced::Ints(_, b) => V::Int(b.as_int()),
            Coerced::Arrs(_, b) => Gval::Arr(b)@,
            Coerced::Strs(_, b) => V::Str(b@),
            Coerced::Blks(_, b) => V::Blk(b@),
        }
    }

    /// Both halves are well-formed.
    pub open spec fn wf(self) -> bool {
        match self {
            Coerced::Ints(a, b) => a.wf() && b.wf(),
            Coerced::Arrs(a, b) => all_wf(a@) && all_wf(b@),
            _ => true,
        }
    }

    /// The left value, rewrapped.
    pub fn left(self) -> (r: Gval)
        requires
            self.wf(),
        ensures
            r.wf(),
            r@ == self.left_v(),
    {
        match self {
            Coerced::Ints(a, _) => Gval::Int(a),
            Coerced::Arrs(a, _) => {
                proof {
                    lemma_wf_arr(Gval::Arr(a));
                }
                Gval::Arr(a)
            },
            Coerced::Strs(a, _) => Gval::Str(a),
            Coerced::Blks(a, _) => Gval::Blk(a),
        }
    }
}

/// Append the flattened bytes of a value.
pub(crate) fn flatten_ref(bytes: &mut Vec<u8>, v: &Gval)
    requires
        v.wf(),
    ensures
        final(bytes)@ == old(bytes)@ + flatten_v(v@),
    decreases *v,
{
    match v {
        Gval::Int(a) => {
            bytes.push(crate::util::to_byte(a.clone()));
        },
        Gval::Str(bs) => {
            extend_bytes(bytes, bs);
        },
        Gval::Blk(bs) => {
            extend_bytes(bytes, bs);
        },
        Gval::Arr(vs) => {
            let ghost s = (*v)@->Arr_0;
            let ghost orig = bytes@;
            proof {
                lemma_wf_arr(*v);
                assert(s.take(0) =~= Seq::<V>::empty());
                assert(orig + flatten_seq(s.take(0)) =~= orig);
            }
            let mut i: usize = 0;
            while i < vs.len()
                invariant
                    i <= vs.len(),
                    v.wf(),
                    *v == Gval::Arr(*vs),
                    s.len() == vs@.len(),
                    s == (*v)@->Arr_0,
                    bytes@ == orig + flatten_seq(s.take(i as int)),
                decreases vs.len() - i,
            {
                proof {
                    let m = (*v)->Arr_0;
                    assert(m == *vs);
                    assert(decreases_to!(*v => (*v)->Arr_0));
                    assert(decreases_to!(m => m@));
                    assert(decreases_to!(m@ => m@[i as int]));
                    assert(vs@[i as int].wf());
                }
                flatten_ref(bytes, &vs[i]);
                proof {
                    assert(s[i as int] == vs@[i as int]@);
                    assert(s.take(i + 1).drop_last() =~= s.take(i as int));
                    assert(s.take(i + 1).last() == s[i as int]);
                    assert(orig + flatten_seq(s.take(i as int)) + flatten_v(s[i as int]) =~= orig
                        + flatten_seq(s.take(i + 1)));
                }
                i += 1;
            }
            proof {
                assert(s.take(s.len() as int) =~= s);
            }
        },
    }
}

/// Append the flattened bytes of a value.
pub fn flatten_append(bytes: &mut Vec<u8>, val: Gval)
    requires
        val.wf(),
    ensures
        final(bytes)@ == old(bytes)@ + flatten_v(val@),
{
    flatten_ref(bytes, &val);
}

/// Flattened bytes of an array.
pub fn flatten(arr: Vec<Gval>) -> (r: Vec<u8>)
    requires
        all_wf(arr@),
    ensures
        r@ == flatten_seq(Gval::Arr(arr)@->Arr_0),
{
    let mut bytes: Vec<u8> = Vec::new();
    proof {
        lemma_wf_arr(Gval::Arr(arr));
    }
    flatten_append(&mut bytes, Gval::Arr(arr));
    proof {
        assert(bytes@ =~= flatten_v(Gval::Arr(arr)@));
    }
    bytes
}

/// Elements stringified and joined by single spaces.
fn show_words(arr: Vec<Gval>) -> (r: Vec<u8>)
    requires
        all_wf(arr@),
    ensures
        r@ == words_seq(Gval::Arr(arr)@->Arr_0),
{
    let ghost s = Gval::Arr(arr)@->Arr_0;
    let mut bytes: Vec<u8> = Vec::new();
    let mut i: usize = 0;
    proof {
        assert(s.take(0) =~= Seq::<V>::empty());
    }
    while i < arr.len()
        invariant
            i <= arr.len(),
            all_wf(arr@),
            s.len() == arr@.len(),
            s == Gval::Arr(arr)@->Arr_0,
            bytes@ == words_seq(s.take(i as int)),
        decreases arr.len() - i,
    {
        proof {
            assert(arr@[i as int].wf());
            assert(s[i as int] == arr@[i as int]@);
        }
        if i > 0 {
            bytes.push(32);
        }
        let mut piece = to_gs_bytes(&arr[i]);
        bytes.append(&mut piece);
        proof {
            if i == 0 {
                assert(s.take(1).len() == 1);
                assert(s.take(1)[0] == s[0]);
                assert(bytes@ =~= words_seq(s.take(1)));
            } else {
                assert(s.take(i + 1).drop_last() =~= s.take(i as int));
                assert(s.take(i + 1).last() == s[i as int]);
                assert(bytes@ =~= words_seq(s.take(i + 1)));
            }
        }
        i += 1;
    }
    proof {
        assert(s.take(s.len() as int) =~= s);
    }
    bytes
}

/// Promote two values to their common kind per the coercion table.
pub fn coerce(a: Gval, b: Gval) -> (r: Coerced)
    requires
        a.wf(),
        b.wf(),
    ensures
        r.wf(),
        r.left_v() == coerce_v(a@, b@).0,
        r.right_v() == coerce_v(a@, b@).1,
{
    match (a, b) {
        (Gval::Int(x), Gval::Int(y)) => Coerced::Ints(x, y),
        (Gval::Arr(x), Gval::Arr(y)) => {
            proof {
                lemma_wf_arr(Gval::Arr(x));
                lemma_wf_arr(Gval::Arr(y));
            }
            Coerced::Arrs(x, y)
        },
        (Gval::Str(x), Gval::Str(y)) => Coerced::Strs(x, y),
        (Gval::Blk(x), Gval::Blk(y)) => Coerced::Blks(x, y),
        (Gval::Str(x), Gval::Blk(y)) => Coerced::Blks(x, y),
        (Gval::Blk(x), Gval::Str(y)) => Coerced::Blks(x, y),
        (Gval::Int(x), Gval::Arr(y)) => {
            proof {
                lemma_wf_arr(Gval::Arr(y));
            }
            let mut w: Vec<Gval> = Vec::new();
            w.push(Gval::Int(x));
            proof {
                assert(Gval::Arr(w)@->Arr_0[0] == w@[0]@);
                assert(Gval::Arr(w)@->Arr_0 =~= seq![w@[0]@]);
                lemma_wf_arr(Gval::Arr(w));
            }
            Coerced::Arrs(w, y)
        },
        (Gval::Arr(x), Gval::Int(y)) => {
            proof {
                lemma_wf_arr(Gval::Arr(x));
            }
            let mut w: Vec<Gval> = Vec::new();
            w.push(Gval::Int(y));
            proof {
                assert(Gval::Arr(w)@->Arr_0[0] == w@[0]@);
                assert(Gval::Arr(w)@->Arr_0 =~= seq![w@[0]@]);
                lemma_wf_arr(Gval::Arr(w));
            }
            Coerced::Arrs(x, w)
        },
        (Gval::Int(x), Gval::Str(y)) => Coerced::Strs(crate::bigint::big_to_dec(&x), y),
        (Gval::Str(x), Gval::Int(y)) => Coerced::Strs(x, crate::bigint::big_to_dec(&y)),
        (Gval::Int(x), Gval::Blk(y)) => Coerced::Blks(crate::bigint::big_to_dec(&x), y),
        (Gval::Blk(x), Gval::Int(y)) => Coerced::Blks(x, crate::bigint::big_to_dec(&y)),
        (Gval::Arr(x), Gval::Str(y)) => {
            proof {
                lemma_wf_arr(Gval::Arr(x));
            }
            Coerced::Strs(flatten(x), y)
        },
        (Gval::Str(x), Gval::Arr(y)) => {
            proof {
                lemma_wf_arr(Gval::Arr(y));
            }
            Coerced::Strs(x, flatten(y))
        },
        (Gval::Arr(x), Gval::Blk(y)) => {
            proof {
                lemma_wf_arr(Gval::Arr(x));
            }
            Coerced::Blks(show_words(x), y)
        },
        (Gval::Blk(x), Gval::Arr(y)) => {
            proof {
                lemma_wf_arr(Gval::Arr(y));
            }
            Coerced::Blks(x, show_words(y))
        },
    }
}

/// The two orders of coercion meet in the same kind.
pub proof fn lemma_coerce_symmetric_kind(a: V, b: V)
    ensures
        kind_rank(coerce_v(a, b).0) == kind_rank(coerce_v(b, a).0),
        kind_rank(coerce_v(a, b).0) == kind_rank(coerce_v(a, b).1),
{
}

} // verus!
