//! The tagged value model: integers, arrays, strings and blocks. Strings
//! and blocks are byte sequences; arrays nest arbitrarily. Every contract
//! speaks of the abstract view `V`, where integers are mathematical and
//! sequences are `Seq`.

use vstd::prelude::*;

use crate::bigint::Bint;
use crate::bigint::Ord3;
use crate::bigint::dec_of;

verus! {

/// A value of the language.
pub enum Gval {
    Int(Bint),
    Arr(Vec<Gval>),
    Str(Vec<u8>),
    Blk(Vec<u8>),
}

/// Abstract view of a value.
#[verifier::ext_equal]
pub enum V {
    Int(int),
    Arr(Seq<V>),
    Str(Seq<u8>),
    Blk(Seq<u8>),
}

/// View of a value: integers become mathematical integers, arrays become
/// sequences of views, strings and blocks their byte sequences.
pub open spec fn view_rec(g: Gval) -> V
    decreases g,
    via view_rec_dec
{
    match g {
        Gval::Int(b) => V::Int(b.as_int()),
        Gval::Arr(vs) => V::Arr(
            Seq::new(
                vs@.len(),
                |i: int|
                    if 0 <= i < vs@.len() {
                        view_rec(vs@[i])
                    } else {
                        V::Int(0)
                    },
            ),
        ),
        Gval::Str(bs) => V::Str(bs@),
        Gval::Blk(bs) => V::Blk(bs@),
    }
}

#[via_fn]
proof fn view_rec_dec(g: Gval) {
    if g is Arr {
        let m = g->Arr_0;
        assert forall|i: int| 0 <= i < m@.len() implies decreases_to!(g => m@[i]) by {
            assert(decreases_to!(g => g->Arr_0));
            assert(decreases_to!(m => m@));
            assert(decreases_to!(m@ => m@[i]));
        }
    }
}

impl View for Gval {
    type V = V;

    open spec fn view(&self) -> V {
        view_rec(*self)
    }
}

/// Well-formed: every integer inside is canonical.
pub open spec fn wf_rec(g: Gval) -> bool
    decreases g,
    via wf_rec_dec
{
    match g {
        Gval::Int(b) => b.wf(),
        Gval::Arr(vs) => forall|i: int| 0 <= i < vs@.len() ==> wf_rec(#[trigger] vs@[i]),
        Gval::Str(_) => true,
        Gval::Blk(_) => true,
    }
}

#[via_fn]
proof fn wf_rec_dec(g: Gval) {
    if g is Arr {
        let m = g->Arr_0;
        assert forall|i: int| 0 <= i < m@.len() implies decreases_to!(g => m@[i]) by {
            assert(decreases_to!(g => g->Arr_0));
            assert(decreases_to!(m => m@));
            assert(decreases_to!(m@ => m@[i]));
        }
    }
}

impl Gval {
    /// Well-formed: every integer inside is canonical.
    pub open spec fn wf(self) -> bool {
        wf_rec(self)
    }
}

/// Views of a sequence of values, element for element.
pub open spec fn views(s: Seq<Gval>) -> Seq<V> {
    Seq::new(
        s.len(),
        |i: int|
            if 0 <= i < s.len() {
                s[i]@
            } else {
                V::Int(0)
            },
    )
}

/// One more value under `views`.
pub proof fn lemma_views_push(s: Seq<Gval>, x: Gval)
    ensures
        views(s.push(x)) == views(s).push(x@),
{
    assert forall|k: int| 0 <= k < s.len() + 1 implies views(s.push(x))[k] == views(s).push(x@)[k]
        by {
        if k < s.len() {
            assert(s.push(x)[k] == s[k]);
        } else {
            assert(s.push(x)[k] == x);
        }
    }
    assert(views(s.push(x)) =~= views(s).push(x@));
}

/// Every value of a sequence is well-formed.
pub open spec fn all_wf(vs: Seq<Gval>) -> bool {
    forall|i: int| 0 <= i < vs.len() ==> #[trigger] vs[i].wf()
}

/// An array value is well-formed exactly when all its elements are.
pub proof fn lemma_wf_arr(g: Gval)
    requires
        g is Arr,
    ensures
        g.wf() <==> all_wf(g->Arr_0@),
{
    let m = g->Arr_0;
    if g.wf() {
        assert forall|i: int| 0 <= i < m@.len() implies #[trigger] m@[i].wf() by {
            assert(m@[i].wf());
        }
    }
    if all_wf(m@) {
        assert forall|i: int| 0 <= i < m@.len() implies wf_rec(#[trigger] m@[i]) by {
            assert(m@[i].wf());
        }
        assert(wf_rec(g));
    }
}

/// A value is falsey exactly when it is the integer zero or an empty
/// array, string or block.
pub open spec fn falsey_v(v: V) -> bool {
    match v {
        V::Int(n) => n == 0,
        V::Arr(vs) => vs.len() == 0,
        V::Str(bs) => bs.len() == 0,
        V::Blk(bs) => bs.len() == 0,
    }
}

/// Bytes as integer values, element for element.
pub open spec fn byte_ints(bs: Seq<u8>) -> Seq<V> {
    Seq::new(
        bs.len(),
        |i: int|
            V::Int(
                if 0 <= i < bs.len() {
                    bs[i] as int
                } else {
                    0
                },
            ),
    )
}

/// Bytes as integer values, in order.
#[verifier::loop_isolation(false)]
pub(crate) fn bytes_as_ints(bs: &Vec<u8>) -> (r: Vec<Gval>)
    ensures
        all_wf(r@),
        r@.len() == bs@.len(),
        forall|i: int| 0 <= i < r@.len() ==> #[trigger] r@[i]@ == V::Int(bs@[i] as int),
{
    let mut r: Vec<Gval> = Vec::new();
    let mut i: usize = 0;
    while i < bs.len()
        invariant
            i <= bs@.len(),
            r@.len() == i,
            all_wf(r@),
            forall|k: int| 0 <= k < i ==> #[trigger] r@[k]@ == V::Int(bs@[k] as int),
        decreases bs.len() - i,
    {
        let ghost prev = r@;
        r.push(Gval::Int(crate::bigint::Bint::from_u64(bs[i] as u64)));
        proof {
            assert forall|k: int| 0 <= k < r@.len() implies (#[trigger] r@[k]).wf() && r@[k]@
                == V::Int(bs@[k] as int) by {
                if k < prev.len() {
                    assert(r@[k] == prev[k]);
                    assert(prev[k].wf());
                    assert(prev[k]@ == V::Int(bs@[k] as int));
                }
            }
        }
        i += 1;
    }
    r
}

/// Clone of a byte vector, element for element.
pub(crate) fn clone_bytes(v: &Vec<u8>) -> (r: Vec<u8>)
    ensures
        r@ == v@,
{
    let mut r: Vec<u8> = Vec::new();
    let mut i: usize = 0;
    while i < v.len()
        invariant
            i <= v.len(),
            r@ == v@.take(i as int),
        decreases v.len() - i,
    {
        r.push(v[i]);
        proof {
            assert(r@ =~= v@.take(i + 1));
        }
        i += 1;
    }
    proof {
        assert(v@.take(v@.len() as int) =~= v@);
    }
    r
}

impl Clone for Gval {
    /// Clone; the copy has the same view and stays well-formed.
    #[verifier::loop_isolation(false)]
    fn clone(&self) -> (r: Gval)
        ensures
            r@ == self@,
            self.wf() ==> r.wf(),
        decreases *self,
    {
        match self {
            Gval::Int(b) => {
                let nb = b.clone();
                proof {
                    assert(*self == Gval::Int(*b));
                    assert((*self).wf() ==> b.wf());
                    assert(b.wf() ==> nb.wf());
                    assert(nb.wf() ==> Gval::Int(nb).wf());
                    assert((Gval::Int(nb))@ == (*self)@);
                }
                Gval::Int(nb)
            },
            Gval::Str(bs) => Gval::Str(clone_bytes(bs)),
            Gval::Blk(bs) => Gval::Blk(clone_bytes(bs)),
            Gval::Arr(vs) => {
                let mut r: Vec<Gval> = Vec::new();
                let mut i: usize = 0;
                while i < vs.len()
                    invariant
                        i <= vs.len(),
                        r@.len() == i,
                        forall|j: int| 0 <= j < i ==> #[trigger] r[j]@ == vs[j]@,
                        forall|j: int| 0 <= j < i ==> vs[j].wf() ==> #[trigger] r[j].wf(),
                    decreases vs.len() - i,
                {
                    proof {
                        let g = *self;
                        let m = g->Arr_0;
                        assert(m == *vs);
                        assert(decreases_to!(g => g->Arr_0));
                        assert(decreases_to!(m => m@));
                        assert(decreases_to!(m@ => m@[i as int]));
                    }
                    r.push(vs[i].clone());
                    i += 1;
                }
                let out = Gval::Arr(r);
                proof {
                    assert(*self == Gval::Arr(*vs));
                    let s1 = out@->Arr_0;
                    let s2 = (*self)@->Arr_0;
                    assert forall|j: int| 0 <= j < s1.len() implies s1[j] == s2[j] by {
                        assert(r[j]@ == vs[j]@);
                    }
                    assert(s1 =~= s2);
                    assert(out@ == V::Arr(s1));
                    assert((*self)@ == V::Arr(s2));
                    if (*self).wf() {
                        lemma_wf_arr(*self);
                        assert(all_wf(vs@));
                        assert forall|j: int| 0 <= j < r@.len() implies wf_rec(#[trigger] r@[j]) by {
                            assert(vs@[j].wf());
                            assert(r@[j].wf());
                        }
                        assert(out.wf());
                    }
                }
                out
            },
        }
    }
}

impl Gval {
    /// The integer 1 for true, 0 for false.
    pub fn bool(value: bool) -> (r: Gval)
        ensures
            r.wf(),
            r@ == V::Int(if value { 1int } else { 0int }),
    {
        Gval::Int(Bint::from_u64(if value { 1 } else { 0 }))
    }

    /// Whether the value is falsey.
    pub fn falsey(&self) -> (r: bool)
        requires
            self.wf(),
        ensures
            r == falsey_v(self@),
    {
        match self {
            Gval::Int(b) => b.is_zero(),
            Gval::Arr(vs) => vs.len() == 0,
            Gval::Str(bs) => bs.len() == 0,
            Gval::Blk(bs) => bs.len() == 0,
        }
    }

    /// Whether the value is truthy.
    pub fn truthy(&self) -> (r: bool)
        requires
            self.wf(),
        ensures
            r == !falsey_v(self@),
    {
        !self.falsey()
    }

    /// The empty value of the same kind.
    pub fn factory(&self) -> (r: Gval)
        ensures
            r.wf(),
            r@ == match self@ {
                V::Int(_) => V::Int(0),
                V::Arr(_) => V::Arr(Seq::<V>::empty()),
                V::Str(_) => V::Str(Seq::<u8>::empty()),
                V::Blk(_) => V::Blk(Seq::<u8>::empty()),
            },
    {
        match self {
            Gval::Int(_) => Gval::Int(Bint::zero()),
            Gval::Arr(_) => {
                let r = Gval::Arr(Vec::new());
                proof {
                    let s = r@->Arr_0;
                    assert(s =~= Seq::<V>::empty());
                    assert(r@ == V::Arr(s));
                }
                r
            },
            Gval::Str(_) => Gval::Str(Vec::new()),
            Gval::Blk(_) => Gval::Blk(Vec::new()),
        }
    }

    /// The integer inside; the caller must know the value is an integer.
    pub fn unwrap_int(self) -> (r: Bint)
        requires
            self is Int,
            self.wf(),
    ensures
            r.wf(),
            V::Int(r.as_int()) == self@,
    {
        match self {
            Gval::Int(n) => n,
            _ => Bint::zero(),
        }
    }

    /// The value as an element vector: an array gives its elements, a
    /// string or block its bytes as integers; an integer has none.
    pub fn as_arr(self) -> (r: Vec<Gval>)
        requires
            !(self is Int),
            self.wf(),
        ensures
            all_wf(r@),
            self@ is Arr ==> self@->Arr_0.len() == r@.len() && (forall|i: int|
                0 <= i < r@.len() ==> self@->Arr_0[i] == #[trigger] r@[i]@),
            self@ is Str ==> views(r@) == Seq::new(
                self@->Str_0.len(),
                |i: int|
                    V::Int(
                        if 0 <= i < self@->Str_0.len() {
                            self@->Str_0[i] as int
                        } else {
                            0
                        },
                    ),
            ),
            self@ is Blk ==> views(r@) == Seq::new(
                self@->Blk_0.len(),
                |i: int|
                    V::Int(
                        if 0 <= i < self@->Blk_0.len() {
                            self@->Blk_0[i] as int
                        } else {
                            0
                        },
                    ),
            ),
    {
        match self {
            Gval::Int(_) => Vec::new(),
            Gval::Arr(a) => {
                proof {
                    assert(Gval::Arr(a).wf());
                }
                a
            },
            Gval::Str(bs) => {
                let r = bytes_as_ints(&bs);
                proof {
                    assert(views(r@) =~= Seq::new(
                        bs@.len(),
                        |i: int|
                            V::Int(
                                if 0 <= i < bs@.len() {
                                    bs@[i] as int
                                } else {
                                    0
                                },
                            ),
                    ));
                }
                r
            },
            Gval::Blk(bs) => {
                let r = bytes_as_ints(&bs);
                proof {
                    assert(views(r@) =~= Seq::new(
                        bs@.len(),
                        |i: int|
                            V::Int(
                                if 0 <= i < bs@.len() {
                                    bs@[i] as int
                                } else {
                                    0
                                },
                            ),
                    ));
                }
                r
            },
        }
    }

    /// The element vector inside; the caller must know the value is an array.
    pub fn unwrap_arr(self) -> (r: Vec<Gval>)
        requires
            self is Arr,
            self.wf(),
        ensures
            all_wf(r@),
            self@ is Arr,
            self@->Arr_0.len() == r@.len(),
            forall|i: int| 0 <= i < r@.len() ==> self@->Arr_0[i] == #[trigger] r@[i]@,
    {
        match self {
            Gval::Arr(a) => {
                proof {
                    assert(self == Gval::Arr(a));
                    assert(Gval::Arr(a).wf());
                }
                a
            },
            _ => Vec::new(),
        }
    }
}

/// Concatenation of the stringified forms of a sequence of values.
pub open spec fn to_gs_seq(vs: Seq<V>) -> Seq<u8>
    decreases vs,
    via to_gs_seq_dec
{
    if vs.len() == 0 {
        Seq::empty()
    } else {
        to_gs_seq(vs.drop_last()) + to_gs_v(vs.last())
    }
}

#[via_fn]
proof fn to_gs_seq_dec(vs: Seq<V>) {
    if vs.len() > 0 {
        assert(decreases_to!(vs => vs.drop_last()));
        assert(decreases_to!(vs => vs.last()));
    }
}

/// Stringified form: integers in decimal, arrays concatenated, strings as
/// their bytes, blocks in braces.
pub open spec fn to_gs_v(v: V) -> Seq<u8>
    decreases v,
    via to_gs_v_dec
{
    match v {
        V::Int(n) => dec_of(n),
        V::Arr(vs) => to_gs_seq(vs),
        V::Str(bs) => bs,
        V::Blk(bs) => seq![123u8] + bs + seq![125u8],
    }
}

#[via_fn]
proof fn to_gs_v_dec(v: V) {
    if v is Arr {
        assert(decreases_to!(v => v->Arr_0));
    }
}

/// One byte of a string in inspected form: a single quote stays, the
/// common escapes and the double quote take a backslash, other printable
/// bytes stay, anything else becomes a hexadecimal escape.
pub open spec fn escape_byte(b: u8) -> Seq<u8> {
    if b == 39 {
        seq![b]
    } else if b == 9 {
        seq![92u8, 116u8]
    } else if b == 13 {
        seq![92u8, 114u8]
    } else if b == 10 {
        seq![92u8, 110u8]
    } else if b == 92 {
        seq![92u8, 92u8]
    } else if b == 34 {
        seq![92u8, 34u8]
    } else if 0x20 <= b < 0x7f {
        seq![b]
    } else {
        seq![92u8, 120u8, hex_digit((b / 16) as int), hex_digit((b % 16) as int)]
    }
}

/// Lower-case hexadecimal digit.
pub open spec fn hex_digit(d: int) -> u8 {
    if d < 10 {
        (48 + d) as u8
    } else {
        (87 + d) as u8
    }
}

/// A whole byte string in inspected form.
pub open spec fn escape_seq(bs: Seq<u8>) -> Seq<u8>
    decreases bs.len(),
{
    if bs.len() == 0 {
        Seq::empty()
    } else {
        escape_seq(bs.drop_last()) + escape_byte(bs.last())
    }
}

/// Elements of an array in inspected form, separated by single spaces.
pub open spec fn inspect_seq(vs: Seq<V>) -> Seq<u8>
    decreases vs,
    via inspect_seq_dec
{
    if vs.len() == 0 {
        Seq::empty()
    } else if vs.len() == 1 {
        inspect_v(vs[0])
    } else {
        inspect_seq(vs.drop_last()) + seq![32u8] + inspect_v(vs.last())
    }
}

#[via_fn]
proof fn inspect_seq_dec(vs: Seq<V>) {
    if vs.len() == 1 {
        assert(decreases_to!(vs => vs[0]));
    } else if vs.len() > 1 {
        assert(decreases_to!(vs => vs.drop_last()));
        assert(decreases_to!(vs => vs.last()));
    }
}

/// Inspected form: arrays bracketed with spaced elements, strings quoted
/// and escaped, anything else as `to_gs_v`.
pub open spec fn inspect_v(v: V) -> Seq<u8>
    decreases v,
    via inspect_v_dec
{
    match v {
        V::Arr(vs) => seq![91u8] + inspect_seq(vs) + seq![93u8],
        V::Str(bs) => seq![34u8] + escape_seq(bs) + seq![34u8],
        _ => to_gs_v(v),
    }
}

#[via_fn]
proof fn inspect_v_dec(v: V) {
    if v is Arr {
        assert(decreases_to!(v => v->Arr_0));
    }
}

/// Append a copy of `src` to `dst`.
pub(crate) fn extend_bytes(dst: &mut Vec<u8>, src: &Vec<u8>)
    ensures
        final(dst)@ == old(dst)@ + src@,
{
    let mut i: usize = 0;
    while i < src.len()
        invariant
            i <= src.len(),
            dst@ == old(dst)@ + src@.take(i as int),
        decreases src.len() - i,
    {
        dst.push(src[i]);
        proof {
            assert(old(dst)@ + src@.take(i + 1) =~= (old(dst)@ + src@.take(i as int)).push(
                src@[i as int],
            ));
        }
        i += 1;
    }
    proof {
        assert(old(dst)@ + src@.take(src@.len() as int) =~= old(dst)@ + src@);
    }
}


/// Stringified bytes of a value.
pub(crate) fn to_gs_bytes(v: &Gval) -> (r: Vec<u8>)
    requires
        v.wf(),
    ensures
        r@ == to_gs_v(v@),
    decreases *v,
{
    match v {
        Gval::Int(b) => crate::bigint::big_to_dec(b),
        Gval::Str(bs) => clone_bytes(bs),
        Gval::Blk(bs) => {
            let mut r: Vec<u8> = Vec::new();
            r.push(123);
            extend_bytes(&mut r, bs);
            r.push(125);
            proof {
                assert(r@ =~= seq![123u8] + bs@ + seq![125u8]);
            }
            r
        },
        Gval::Arr(vs) => {
            let ghost s = (*v)@->Arr_0;
            let mut r: Vec<u8> = Vec::new();
            let mut i: usize = 0;
            proof {
                assert(s.take(0) =~= Seq::<V>::empty());
            }
            while i < vs.len()
                invariant
                    i <= vs.len(),
                    vs@.len() == s.len(),
                    v.wf(),
                    *v == Gval::Arr(*vs),
                    s == (*v)@->Arr_0,
                    r@ == to_gs_seq(s.take(i as int)),
                decreases vs.len() - i,
            {
                proof {
                    let m = (*v)->Arr_0;
                    assert(m == *vs);
                    assert(decreases_to!(*v => (*v)->Arr_0));
                    assert(decreases_to!(m => m@));
                    assert(decreases_to!(m@ => m@[i as int]));
                    assert(vs@[i as int].wf());
                }
                let mut piece = to_gs_bytes(&vs[i]);
                r.append(&mut piece);
                proof {
                    assert(s[i as int] == vs@[i as int]@);
                    assert(s.take(i + 1).drop_last() =~= s.take(i as int));
                    assert(s.take(i + 1).last() == s[i as int]);
                }
                i += 1;
            }
            proof {
                assert(s.take(s.len() as int) =~= s);
                assert((*v)@ == V::Arr(s));
            }
            r
        },
    }
}

/// Inspected bytes of a value.
pub(crate) fn inspect_bytes(v: &Gval) -> (r: Vec<u8>)
    requires
        v.wf(),
    ensures
        r@ == inspect_v(v@),
    decreases *v,
{
    match v {
        Gval::Str(bs) => {
            let mut r: Vec<u8> = Vec::new();
            r.push(34);
            let ghost pre = r@;
            let mut i: usize = 0;
            proof {
                assert(bs@.take(0) =~= Seq::<u8>::empty());
            }
            while i < bs.len()
                invariant
                    i <= bs.len(),
                    r@ == seq![34u8] + escape_seq(bs@.take(i as int)),
                decreases bs.len() - i,
            {
                let b = bs[i];
                if b == 39 || (0x20 <= b && b < 0x7f && b != 92 && b != 34) {
                    r.push(b);
                } else if b == 9 {
                    r.push(92);
                    r.push(116);
                } else if b == 13 {
                    r.push(92);
                    r.push(114);
                } else if b == 10 {
                    r.push(92);
                    r.push(110);
                } else if b == 92 || b == 34 {
                    r.push(92);
                    r.push(b);
                } else {
                    r.push(92);
                    r.push(120);
                    let hi = b / 16;
                    let lo = b % 16;
                    r.push(if hi < 10 { 48 + hi } else { 87 + hi });
                    r.push(if lo < 10 { 48 + lo } else { 87 + lo });
                }
                proof {
                    assert(bs@.take(i + 1).drop_last() =~= bs@.take(i as int));
                    assert(bs@.take(i + 1).last() == bs@[i as int]);
                    assert(r@ =~= seq![34u8] + escape_seq(bs@.take(i + 1)));
                }
                i += 1;
            }
            r.push(34);
            proof {
                assert(bs@.take(bs@.len() as int) =~= bs@);
                assert(r@ =~= seq![34u8] + escape_seq(bs@) + seq![34u8]);
            }
            r
        },
        Gval::Arr(vs) => {
            let ghost s = (*v)@->Arr_0;
            let mut r: Vec<u8> = Vec::new();
            r.push(91);
            let mut i: usize = 0;
            while i < vs.len()
                invariant
                    i <= vs.len(),
                    vs@.len() == s.len(),
                    v.wf(),
                    *v == Gval::Arr(*vs),
                    s == (*v)@->Arr_0,
                    r@ == seq![91u8] + inspect_seq(s.take(i as int)),
                decreases vs.len() - i,
            {
                proof {
                    let m = (*v)->Arr_0;
                    assert(m == *vs);
                    assert(decreases_to!(*v => (*v)->Arr_0));
                    assert(decreases_to!(m => m@));
                    assert(decreases_to!(m@ => m@[i as int]));
                    assert(vs@[i as int].wf());
                }
                if i > 0 {
                    r.push(32);
                }
                let mut piece = inspect_bytes(&vs[i]);
                r.append(&mut piece);
                proof {
                    assert(s[i as int] == vs@[i as int]@);
                    if i == 0 {
                        assert(s.take(1).len() == 1);
                        assert(s.take(1)[0] == s[0]);
                        assert(r@ =~= seq![91u8] + inspect_seq(s.take(1)));
                    } else {
                        assert(s.take(i + 1).drop_last() =~= s.take(i as int));
                        assert(s.take(i + 1).last() == s[i as int]);
                        assert(r@ =~= seq![91u8] + inspect_seq(s.take(i + 1)));
                    }
                }
                i += 1;
            }
            r.push(93);
            proof {
                assert(s.take(s.len() as int) =~= s);
                assert((*v)@ == V::Arr(s));
                assert(r@ =~= seq![91u8] + inspect_seq(s) + seq![93u8]);
            }
            r
        },
        _ => to_gs_bytes(v),
    }
}

impl Gval {
    /// Stringified bytes: decimal for an integer, concatenation for an
    /// array, the bytes themselves for a string, braces round a block.
    pub fn to_gs(self) -> (r: Vec<u8>)
        requires
            self.wf(),
        ensures
            r@ == to_gs_v(self@),
    {
        to_gs_bytes(&self)
    }

    /// Inspected bytes: a re-readable rendering of the value.
    pub fn inspect(self) -> (r: Vec<u8>)
        requires
            self.wf(),
        ensures
            r@ == inspect_v(self@),
    {
        inspect_bytes(&self)
    }
}


/// Rank of a kind in the cross-kind total order used for comparisons and
/// sort tie-breaks: integers, then arrays, then strings, then blocks.
pub open spec fn kind_rank(v: V) -> int {
    match v {
        V::Int(_) => 0,
        V::Arr(_) => 1,
        V::Str(_) => 2,
        V::Blk(_) => 3,
    }
}

/// Lexicographic order on byte sequences.
pub open spec fn cmp_bytes(a: Seq<u8>, b: Seq<u8>) -> Ord3
    decreases a.len(),
{
    if a.len() == 0 && b.len() == 0 {
        Ord3::Eq
    } else if a.len() == 0 {
        Ord3::Lt
    } else if b.len() == 0 {
        Ord3::Gt
    } else if a[0] < b[0] {
        Ord3::Lt
    } else if a[0] > b[0] {
        Ord3::Gt
    } else {
        cmp_bytes(a.drop_first(), b.drop_first())
    }
}

/// Lexicographic order on value sequences.
pub open spec fn cmp_seq(a: Seq<V>, b: Seq<V>) -> Ord3
    decreases a,
    via cmp_seq_dec
{
    if a.len() == 0 && b.len() == 0 {
        Ord3::Eq
    } else if a.len() == 0 {
        Ord3::Lt
    } else if b.len() == 0 {
        Ord3::Gt
    } else {
        match cmp_v(a[0], b[0]) {
            Ord3::Eq => cmp_seq(a.drop_first(), b.drop_first()),
            o => o,
        }
    }
}

#[via_fn]
proof fn cmp_seq_dec(a: Seq<V>, b: Seq<V>) {
    if a.len() > 0 && b.len() > 0 {
        assert(decreases_to!(a => a[0]));
        assert(decreases_to!(a => a.drop_first()));
    }
}

/// Total order on values: across kinds by rank, integers numerically,
/// sequences lexicographically.
pub open spec fn cmp_v(a: V, b: V) -> Ord3
    decreases a,
    via cmp_v_dec
{
    if kind_rank(a) < kind_rank(b) {
        Ord3::Lt
    } else if kind_rank(a) > kind_rank(b) {
        Ord3::Gt
    } else {
        match (a, b) {
            (V::Int(x), V::Int(y)) => if x < y {
                Ord3::Lt
            } else if x > y {
                Ord3::Gt
            } else {
                Ord3::Eq
            },
            (V::Arr(x), V::Arr(y)) => cmp_seq(x, y),
            (V::Str(x), V::Str(y)) => cmp_bytes(x, y),
            (V::Blk(x), V::Blk(y)) => cmp_bytes(x, y),
            _ => Ord3::Eq,
        }
    }
}

#[via_fn]
proof fn cmp_v_dec(a: V, b: V) {
    if a is Arr {
        assert(decreases_to!(a => a->Arr_0));
    }
}

/// Byte order is equality exactly on equal sequences.
pub proof fn lemma_cmp_bytes_eq(a: Seq<u8>, b: Seq<u8>)
    ensures
        cmp_bytes(a, b) == Ord3::Eq <==> a == b,
    decreases a.len(),
{
    if a.len() > 0 && b.len() > 0 {
        lemma_cmp_bytes_eq(a.drop_first(), b.drop_first());
        if a[0] == b[0] && a.drop_first() == b.drop_first() {
            assert forall|k: int| 0 <= k < a.len() implies a[k] == b[k] by {
                if k > 0 {
                    assert(a[k] == a.drop_first()[k - 1]);
                    assert(b[k] == b.drop_first()[k - 1]);
                }
            }
            assert(a =~= b);
        }
        if a == b {
            assert(a.drop_first() =~= b.drop_first());
        }
    } else {
        if a.len() == 0 && b.len() == 0 {
            assert(a =~= b);
        }
    }
}

/// Value order is equality exactly on equal values.
pub proof fn lemma_cmp_v_eq(a: V, b: V)
    ensures
        cmp_v(a, b) == Ord3::Eq <==> a == b,
    decreases a, 1int,
{
    if a is Arr && b is Arr {
        lemma_cmp_seq_eq(a->Arr_0, b->Arr_0);
    } else if a is Str && b is Str {
        lemma_cmp_bytes_eq(a->Str_0, b->Str_0);
    } else if a is Blk && b is Blk {
        lemma_cmp_bytes_eq(a->Blk_0, b->Blk_0);
    }
}

/// Sequence order is equality exactly on equal sequences.
pub proof fn lemma_cmp_seq_eq(a: Seq<V>, b: Seq<V>)
    ensures
        cmp_seq(a, b) == Ord3::Eq <==> a == b,
    decreases a, 0int,
{
    if a.len() == 0 && b.len() == 0 {
        assert(a =~= b);
    } else if a.len() > 0 && b.len() > 0 {
        assert(decreases_to!(a => a[0]));
        lemma_cmp_v_eq(a[0], b[0]);
        assert(decreases_to!(a => a.drop_first()));
        lemma_cmp_seq_eq(a.drop_first(), b.drop_first());
        if a[0] == b[0] && a.drop_first() == b.drop_first() {
            assert forall|k: int| 0 <= k < a.len() implies a[k] == b[k] by {
                if k > 0 {
                    assert(a[k] == a.drop_first()[k - 1]);
                    assert(b[k] == b.drop_first()[k - 1]);
                }
            }
            assert(a =~= b);
        }
        if a == b {
            assert(a.drop_first() =~= b.drop_first());
        }
    }
}

/// Lexicographic comparison of two byte vectors.
pub(crate) fn cmp_bytes_exec(a: &Vec<u8>, b: &Vec<u8>) -> (r: Ord3)
    ensures
        r == cmp_bytes(a@, b@),
{
    let mut i: usize = 0;
    proof {
        assert(a@.skip(0) =~= a@);
        assert(b@.skip(0) =~= b@);
    }
    loop
        invariant
            i <= a.len(),
            i <= b.len(),
            cmp_bytes(a@, b@) == cmp_bytes(a@.skip(i as int), b@.skip(i as int)),
        decreases a.len() - i,
    {
        let ghost sa = a@.skip(i as int);
        let ghost sb = b@.skip(i as int);
        if i == a.len() && i == b.len() {
            return Ord3::Eq;
        } else if i == a.len() {
            return Ord3::Lt;
        } else if i == b.len() {
            return Ord3::Gt;
        } else if a[i] < b[i] {
            return Ord3::Lt;
        } else if a[i] > b[i] {
            return Ord3::Gt;
        }
        proof {
            assert(sa.drop_first() =~= a@.skip(i + 1));
            assert(sb.drop_first() =~= b@.skip(i + 1));
        }
        i += 1;
    }
}

/// Comparison of two values in the total order `cmp_v`.
pub(crate) fn cmp_val(a: &Gval, b: &Gval) -> (r: Ord3)
    requires
        a.wf(),
        b.wf(),
    ensures
        r == cmp_v(a@, b@),
    decreases *a,
{
    match (a, b) {
        (Gval::Int(x), Gval::Int(y)) => crate::bigint::big_cmp(x, y),
        (Gval::Str(x), Gval::Str(y)) => cmp_bytes_exec(x, y),
        (Gval::Blk(x), Gval::Blk(y)) => cmp_bytes_exec(x, y),
        (Gval::Arr(x), Gval::Arr(y)) => {
            let ghost sa = (*a)@->Arr_0;
            let ghost sb = (*b)@->Arr_0;
            let mut i: usize = 0;
            proof {
                assert(sa.skip(0) =~= sa);
                assert(sb.skip(0) =~= sb);
            }
            loop
                invariant
                    i <= x.len(),
                    i <= y.len(),
                    a.wf(),
                    b.wf(),
                    *a == Gval::Arr(*x),
                    *b == Gval::Arr(*y),
                    sa == (*a)@->Arr_0,
                    sb == (*b)@->Arr_0,
                    sa.len() == x@.len(),
                    sb.len() == y@.len(),
                    cmp_seq(sa, sb) == cmp_seq(sa.skip(i as int), sb.skip(i as int)),
                decreases x.len() - i,
            {
                let ghost ra = sa.skip(i as int);
                let ghost rb = sb.skip(i as int);
                if i == x.len() && i == y.len() {
                    return Ord3::Eq;
                } else if i == x.len() {
                    return Ord3::Lt;
                } else if i == y.len() {
                    return Ord3::Gt;
                }
                proof {
                    let m = (*a)->Arr_0;
                    assert(m == *x);
                    assert(decreases_to!(*a => (*a)->Arr_0));
                    assert(decreases_to!(m => m@));
                    assert(decreases_to!(m@ => m@[i as int]));
                    assert(x@[i as int].wf());
                    assert(y@[i as int].wf());
                }
                let o = cmp_val(&x[i], &y[i]);
                proof {
                    assert(ra[0] == sa[i as int]);
                    assert(rb[0] == sb[i as int]);
                    assert(sa[i as int] == x@[i as int]@);
                    assert(sb[i as int] == y@[i as int]@);
                    assert(ra.drop_first() =~= sa.skip(i + 1));
                    assert(rb.drop_first() =~= sb.skip(i + 1));
                }
                match o {
                    Ord3::Eq => {
                        i += 1;
                    },
                    _ => {
                        return o;
                    },
                }
            }
        },
        _ => {
            let ra = kind_rank_exec(a);
            let rb = kind_rank_exec(b);
            if ra < rb {
                Ord3::Lt
            } else {
                Ord3::Gt
            }
        },
    }
}

/// Rank of a value's kind.
fn kind_rank_exec(v: &Gval) -> (r: u8)
    ensures
        r == kind_rank(v@),
{
    match v {
        Gval::Int(_) => 0,
        Gval::Arr(_) => 1,
        Gval::Str(_) => 2,
        Gval::Blk(_) => 3,
    }
}

/// Structural equality of two values.
pub(crate) fn eq_val(a: &Gval, b: &Gval) -> (r: bool)
    requires
        a.wf(),
        b.wf(),
    ensures
        r == (a@ == b@),
{
    let o = cmp_val(a, b);
    proof {
        lemma_cmp_v_eq(a@, b@);
    }
    match o {
        Ord3::Eq => true,
        _ => false,
    }
}

} // verus!

verus! {

/// Sum of two values after coercion: integers add, arrays and strings
/// concatenate, blocks concatenate with one space between.
pub open spec fn plus_v(a: V, b: V) -> V {
    let c = crate::coerce::coerce_v(a, b);
    match (c.0, c.1) {
        (V::Int(x), V::Int(y)) => V::Int(x + y),
        (V::Arr(x), V::Arr(y)) => V::Arr(x + y),
        (V::Str(x), V::Str(y)) => V::Str(x + y),
        (V::Blk(x), V::Blk(y)) => V::Blk(x + seq![32u8] + y),
        _ => V::Int(0),
    }
}

impl Gval {
    /// Sum after coercion.
    pub fn plus(self, other: Gval) -> (r: Gval)
        requires
            self.wf(),
            other.wf(),
        ensures
            r.wf(),
            r@ == plus_v(self@, other@),
    {
        let ghost cv = crate::coerce::coerce_v(self@, other@);
        match crate::coerce::coerce(self, other) {
            crate::coerce::Coerced::Ints(x, y) => {
                let r = Gval::Int(crate::bigint::big_add(&x, &y));
                proof {
                    assert(cv.0 == V::Int(x.as_int()));
                    assert(cv.1 == V::Int(y.as_int()));
                    assert(plus_v(self@, other@) == V::Int(x.as_int() + y.as_int()));
                    assert(r@ == V::Int(x.as_int() + y.as_int()));
                }
                r
            },
            crate::coerce::Coerced::Arrs(mut x, y) => {
                proof {
                    assert(cv.0->Arr_0 =~= views(x@));
                    assert(cv.1->Arr_0 =~= views(y@));
                }
                crate::util::extend_vals(&mut x, &y);
                let r = Gval::Arr(x);
                proof {
                    lemma_wf_arr(r);
                    assert(r@->Arr_0 =~= views(r->Arr_0@));
                    assert(r@->Arr_0 =~= cv.0->Arr_0 + cv.1->Arr_0);
                    assert(plus_v(self@, other@) == V::Arr(cv.0->Arr_0 + cv.1->Arr_0));
                    assert(r@ == V::Arr(r@->Arr_0));
                }
                r
            },
            crate::coerce::Coerced::Strs(mut x, y) => {
                proof {
                    assert(cv.0->Str_0 == x@);
                    assert(cv.1->Str_0 == y@);
                }
                extend_bytes(&mut x, &y);
                let r = Gval::Str(x);
                proof {
                    assert(plus_v(self@, other@) == V::Str(cv.0->Str_0 + cv.1->Str_0));
                    assert(r@ == V::Str(cv.0->Str_0 + cv.1->Str_0));
                }
                r
            },
            crate::coerce::Coerced::Blks(mut x, y) => {
                proof {
                    assert(cv.0->Blk_0 == x@);
                    assert(cv.1->Blk_0 == y@);
                }
                x.push(32);
                extend_bytes(&mut x, &y);
                let r = Gval::Blk(x);
                proof {
                    assert(r@->Blk_0 =~= cv.0->Blk_0 + seq![32u8] + cv.1->Blk_0);
                    assert(plus_v(self@, other@) == V::Blk(cv.0->Blk_0 + seq![32u8]
                        + cv.1->Blk_0));
                    assert(r@ == V::Blk(r@->Blk_0));
                }
                r
            },
        }
    }

    /// Append a value to a sequence kind: arrays take the value itself,
    /// strings and blocks its flattened bytes.
    pub fn push(&mut self, other: Gval)
        requires
            !((*old(self)) is Int),
            old(self).wf(),
            other.wf(),
        ensures
            final(self).wf(),
            old(self)@ is Arr ==> final(self)@ == V::Arr(old(self)@->Arr_0.push(other@)),
            old(self)@ is Str ==> final(self)@ == V::Str(
                old(self)@->Str_0 + crate::coerce::flatten_v(other@),
            ),
            old(self)@ is Blk ==> final(self)@ == V::Blk(
                old(self)@->Blk_0 + crate::coerce::flatten_v(other@),
            ),
    {
        match self {
            Gval::Int(_) => {
            },
            Gval::Arr(vs) => {
                let ghost prev = vs@;
                vs.push(other);
                proof {
                    lemma_views_push(prev, vs@.last());
                    assert(vs@ =~= prev.push(vs@.last()));
                    lemma_wf_arr(*self);
                    assert((*self)@->Arr_0 =~= old(self)@->Arr_0.push(vs@.last()@));
                }
            },
            Gval::Str(bs) => {
                crate::coerce::flatten_ref(bs, &other);
            },
            Gval::Blk(bs) => {
                crate::coerce::flatten_ref(bs, &other);
            },
        }
    }
}

/// Folding the elements after the first into the joined value.
pub open spec fn join_acc(acc: V, rest: Seq<V>, sep: V) -> V
    decreases rest.len(),
{
    if rest.len() == 0 {
        acc
    } else {
        join_acc(plus_v(plus_v(acc, sep), rest[0]), rest.drop_first(), sep)
    }
}

/// Elements joined with a separator value between them; an empty input
/// gives an empty array for an array separator, else an empty string.
pub open spec fn join_v(s: Seq<V>, sep: V) -> V {
    if s.len() == 0 {
        if sep is Arr {
            V::Arr(Seq::empty())
        } else {
            V::Str(Seq::empty())
        }
    } else {
        join_acc(crate::coerce::coerce_v(s[0], sep).0, s.drop_first(), sep)
    }
}

/// Join the elements with the separator between them.
#[verifier::loop_isolation(false)]
pub fn join(a: Vec<Gval>, sep: Gval) -> (r: Gval)
    requires
        all_wf(a@),
        sep.wf(),
    ensures
        r.wf(),
        r@ == join_v(views(a@), sep@),
{
    let ghost gs = views(a@);
    if a.len() == 0 {
        match sep {
            Gval::Arr(_) => {
                let r = Gval::Arr(Vec::new());
                proof {
                    lemma_wf_arr(r);
                    assert(r@->Arr_0 =~= Seq::<V>::empty());
                }
                r
            },
            _ => Gval::Str(Vec::new()),
        }
    } else {
        let first = a[0].clone();
        let mut r = crate::coerce::coerce(first, sep.clone()).left();
        let mut i: usize = 1;
        proof {
            assert(gs[0] == a@[0]@);
            assert(gs.drop_first() =~= gs.skip(1));
        }
        while i < a.len()
            invariant
                1 <= i <= a.len(),
                gs.len() == a@.len(),
                r.wf(),
                sep.wf(),
                join_v(gs, sep@) == join_acc(r@, gs.skip(i as int), sep@),
            decreases a.len() - i,
        {
            let ghost acc0 = r@;
            r = r.plus(sep.clone()).plus(a[i].clone());
            proof {
                let rest = gs.skip(i as int);
                assert(rest[0] == gs[i as int]);
                assert(gs[i as int] == a@[i as int]@);
                assert(rest.drop_first() =~= gs.skip(i + 1));
            }
            i += 1;
        }
        proof {
            assert(gs.skip(a@.len() as int) =~= Seq::<V>::empty());
        }
        r
    }
}

} // verus!
