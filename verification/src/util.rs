//! Sequence utilities: split, chunk, every-nth, order-preserving set
//! operations, indexing, slicing and substring search.

use vstd::prelude::*;

use crate::bigint::Bint;
use crate::bigint::Ord3;
use crate::bigint::fmod;
use crate::value::Gval;
use crate::value::V;
use crate::value::all_wf;
use crate::value::views;
use crate::value::eq_val;
use crate::value::clone_bytes;
use crate::value::lemma_views_push;

verus! {

/// The low byte of an integer under the flatten rule: its value mod 256.
pub fn to_byte(n: Bint) -> (r: u8)
    requires
        n.wf(),
    ensures
        r == fmod(n.as_int(), 256),
{
    let m = crate::bigint::big_mod_floor(&n, &Bint::from_u64(256));
    match m.to_u64() {
        Some(x) => x as u8,
        None => 0,
    }
}


/// A separator occurrence at position `j`.
pub open spec fn match_at<T>(s: Seq<T>, sep: Seq<T>, j: int) -> bool {
    0 <= j && j + sep.len() <= s.len() && s.subrange(j, j + sep.len() as int) == sep
}

/// The first result piece grown at the front.
pub open spec fn attach<T>(piece: Seq<T>, pieces: Seq<Seq<T>>) -> Seq<Seq<T>> {
    seq![piece + pieces[0]] + pieces.drop_first()
}

/// Split at every separator occurrence, scanning left to right; empty
/// pieces are kept.
pub open spec fn spec_split<T>(s: Seq<T>, sep: Seq<T>) -> Seq<Seq<T>>
    decreases s.len(),
{
    if sep.len() == 0 || s.len() == 0 {
        seq![s]
    } else if match_at(s, sep, 0) {
        seq![Seq::<T>::empty()] + spec_split(s.skip(sep.len() as int), sep)
    } else {
        attach(seq![s[0]], spec_split(s.drop_first(), sep))
    }
}

/// A split result always holds at least one piece.
pub proof fn lemma_split_nonempty<T>(s: Seq<T>, sep: Seq<T>)
    ensures
        spec_split(s, sep).len() >= 1,
    decreases s.len(),
{
    if !(sep.len() == 0 || s.len() == 0) {
        if match_at(s, sep, 0) {
            lemma_split_nonempty(s.skip(sep.len() as int), sep);
        } else {
            lemma_split_nonempty(s.drop_first(), sep);
        }
    }
}

/// Keeping only the non-empty pieces.
pub open spec fn drop_empty<T>(pieces: Seq<Seq<T>>) -> Seq<Seq<T>> {
    pieces.filter(|p: Seq<T>| p.len() != 0)
}

/// Filtering one more piece appends it when the predicate holds.
pub proof fn lemma_filter_push<T>(s: Seq<Seq<T>>, p: Seq<T>)
    ensures
        drop_empty(s.push(p)) == drop_empty(s) + if p.len() != 0 {
            seq![p]
        } else {
            Seq::<Seq<T>>::empty()
        },
{
    reveal_with_fuel(Seq::filter, 2);
    let pred = |q: Seq<T>| q.len() != 0;
    assert(s.push(p) =~= s + seq![p]);
    Seq::filter_distributes_over_add(s, seq![p], pred);
    assert(seq![p].drop_last() =~= Seq::<Seq<T>>::empty());
    assert(Seq::<Seq<T>>::empty().filter(pred) =~= Seq::<Seq<T>>::empty());
    if p.len() != 0 {
        assert(seq![p].filter(pred) =~= seq![p]);
        assert(drop_empty(s.push(p)) =~= drop_empty(s) + seq![p]);
    } else {
        assert(seq![p].filter(pred) =~= Seq::<Seq<T>>::empty());
        assert(drop_empty(s.push(p)) =~= drop_empty(s) + Seq::<Seq<T>>::empty());
    }
}


/// Splitting an empty remainder leaves one empty piece.
proof fn lemma_split_empty<T>(s: Seq<T>, sep: Seq<T>)
    requires
        s.len() == 0,
    ensures
        spec_split(s, sep) == seq![Seq::<T>::empty()],
{
    assert(s =~= Seq::<T>::empty());
    assert(spec_split(s, sep) =~= seq![Seq::<T>::empty()]);
}

/// A separator occurrence at `j` splits off an empty first piece of the
/// remainder at `j`.
proof fn lemma_split_match_step<T>(s: Seq<T>, sep: Seq<T>, j: int)
    requires
        sep.len() > 0,
        match_at(s, sep, j),
    ensures
        spec_split(s.skip(j), sep) == seq![Seq::<T>::empty()] + spec_split(
            s.skip(j + sep.len()),
            sep,
        ),
{
    let rem = s.skip(j);
    assert(rem.subrange(0, sep.len() as int) =~= s.subrange(j, j + sep.len()));
    assert(match_at(rem, sep, 0));
    assert(rem.skip(sep.len() as int) =~= s.skip(j + sep.len()));
}

/// No occurrence at `j`: the remainder at `j` starts with the plain
/// element `s[j]`.
proof fn lemma_split_nomatch_step<T>(s: Seq<T>, sep: Seq<T>, j: int)
    requires
        sep.len() > 0,
        0 <= j < s.len(),
        !match_at(s, sep, j),
    ensures
        spec_split(s.skip(j), sep) == attach(seq![s[j]], spec_split(s.skip(j + 1), sep)),
{
    let rem = s.skip(j);
    if j + sep.len() <= s.len() {
        assert(rem.subrange(0, sep.len() as int) =~= s.subrange(j, j + sep.len()));
    }
    assert(!match_at(rem, sep, 0));
    assert(rem.drop_first() =~= s.skip(j + 1));
    assert(rem[0] == s[j]);
}

/// Growing the first piece element by element.
proof fn lemma_attach_snoc<T>(c: Seq<T>, x: T, p: Seq<Seq<T>>)
    requires
        p.len() >= 1,
    ensures
        attach(c, attach(seq![x], p)) == attach(c.push(x), p),
{
    assert(c + (seq![x] + p[0]) =~= c.push(x) + p[0]);
    assert(attach(c, attach(seq![x], p)) =~= attach(c.push(x), p));
}

/// Attaching an empty prefix changes nothing.
proof fn lemma_attach_empty<T>(p: Seq<Seq<T>>)
    requires
        p.len() >= 1,
    ensures
        attach(Seq::<T>::empty(), p) == p,
{
    assert(Seq::<T>::empty() + p[0] =~= p[0]);
    assert(attach(Seq::<T>::empty(), p) =~= p);
}

/// Closing the current piece at a separator occurrence.
proof fn lemma_done_step<T>(done: Seq<Seq<T>>, c: Seq<T>, rest: Seq<Seq<T>>)
    requires
        rest.len() >= 1,
    ensures
        done + attach(c, seq![Seq::<T>::empty()] + rest) == done.push(c) + attach(
            Seq::<T>::empty(),
            rest,
        ),
{
    lemma_attach_empty(rest);
    assert(c + (seq![Seq::<T>::empty()] + rest)[0] =~= c);
    assert((seq![Seq::<T>::empty()] + rest).drop_first() =~= rest);
    assert(attach(c, seq![Seq::<T>::empty()] + rest) =~= seq![c] + rest);
    assert(done + attach(c, seq![Seq::<T>::empty()] + rest) =~= done.push(c) + rest);
}

/// Views of a sequence of value vectors, piece for piece.
pub open spec fn piece_views(r: Seq<Vec<Gval>>) -> Seq<Seq<V>> {
    Seq::new(
        r.len(),
        |i: int|
            if 0 <= i < r.len() {
                views(r[i]@)
            } else {
                Seq::empty()
            },
    )
}

/// Views of a sequence of byte vectors, piece for piece.
pub open spec fn byte_views(r: Seq<Vec<u8>>) -> Seq<Seq<u8>> {
    Seq::new(
        r.len(),
        |i: int|
            if 0 <= i < r.len() {
                r[i]@
            } else {
                Seq::empty()
            },
    )
}

/// Every piece is made of well-formed values.
pub open spec fn pieces_wf(r: Seq<Vec<Gval>>) -> bool {
    forall|i: int| 0 <= i < r.len() ==> all_wf(#[trigger] r[i]@)
}

/// Whether the separator occurs at position `j`.
#[verifier::loop_isolation(false)]
fn window_matches(a: &Vec<Gval>, sep: &Vec<Gval>, j: usize) -> (r: bool)
    requires
        all_wf(a@),
        all_wf(sep@),
        j <= a@.len(),
    ensures
        r == match_at(views(a@), views(sep@), j as int),
{
    if sep.len() > a.len() - j {
        proof {
            assert(!match_at(views(a@), views(sep@), j as int));
        }
        return false;
    }
    let mut i: usize = 0;
    while i < sep.len()
        invariant
            i <= sep.len(),
            j + sep@.len() <= a@.len(),
            all_wf(a@),
            all_wf(sep@),
            forall|k: int| 0 <= k < i ==> views(a@)[j + k] == #[trigger] views(sep@)[k],
        decreases sep.len() - i,
    {
        if !eq_val(&a[j + i], &sep[i]) {
            proof {
                let sa = views(a@).subrange(j as int, j + views(sep@).len());
                assert(sa[i as int] == views(a@)[j + i]);
                assert(sa[i as int] != views(sep@)[i as int]);
            }
            return false;
        }
        i += 1;
    }
    proof {
        let sa = views(a@).subrange(j as int, j + views(sep@).len());
        assert forall|k: int| 0 <= k < sa.len() implies sa[k] == views(sep@)[k] by {
            assert(sa[k] == views(a@)[j + k]);
        }
        assert(sa =~= views(sep@));
    }
    true
}

/// Whether the byte separator occurs at position `j`.
#[verifier::loop_isolation(false)]
fn window_matches_bytes(a: &Vec<u8>, sep: &Vec<u8>, j: usize) -> (r: bool)
    requires
        j <= a@.len(),
    ensures
        r == match_at(a@, sep@, j as int),
{
    if sep.len() > a.len() - j {
        proof {
            assert(!match_at(a@, sep@, j as int));
        }
        return false;
    }
    let mut i: usize = 0;
    while i < sep.len()
        invariant
            i <= sep.len(),
            j + sep@.len() <= a@.len(),
            forall|k: int| 0 <= k < i ==> a@[j + k] == #[trigger] sep@[k],
        decreases sep.len() - i,
    {
        if a[j + i] != sep[i] {
            proof {
                let sa = a@.subrange(j as int, j + sep@.len());
                assert(sa[i as int] == a@[j + i]);
                assert(sa[i as int] != sep@[i as int]);
            }
            return false;
        }
        i += 1;
    }
    proof {
        let sa = a@.subrange(j as int, j + sep@.len());
        assert forall|k: int| 0 <= k < sa.len() implies sa[k] == sep@[k] by {
            assert(sa[k] == a@[j + k]);
        }
        assert(sa =~= sep@);
    }
    true
}

/// Split a sequence of values at every occurrence of the separator; with
/// `clean`, drop the empty pieces.
#[verifier::loop_isolation(false)]
pub fn split(a: Vec<Gval>, sep: Vec<Gval>, clean: bool) -> (r: Vec<Vec<Gval>>)
    requires
        sep@.len() > 0,
        all_wf(a@),
        all_wf(sep@),
    ensures
        pieces_wf(r@),
        piece_views(r@) == if clean {
            drop_empty(spec_split(views(a@), views(sep@)))
        } else {
            spec_split(views(a@), views(sep@))
        },
{
    let ghost gs = views(a@);
    let ghost gp = views(sep@);
    let mut r: Vec<Vec<Gval>> = Vec::new();
    let mut cur: Vec<Gval> = Vec::new();
    let ghost mut done: Seq<Seq<V>> = Seq::empty();
    let mut j: usize = 0;
    proof {
        assert(gs.skip(0) =~= gs);
        lemma_split_nonempty(gs, gp);
        lemma_attach_empty(spec_split(gs, gp));
        assert(done + attach(views(cur@), spec_split(gs.skip(0), gp)) =~= spec_split(gs, gp));
        assert(piece_views(r@) =~= Seq::<Seq<V>>::empty());
        assert(drop_empty(Seq::<Seq<V>>::empty()) =~= Seq::<Seq<V>>::empty()) by {
            reveal_with_fuel(Seq::filter, 1);
        }
    }
    while j < a.len()
        invariant
            j <= a.len(),
            gs.len() == a@.len(),
            all_wf(cur@),
            pieces_wf(r@),
            spec_split(gs, gp) == done + attach(views(cur@), spec_split(gs.skip(j as int), gp)),
            piece_views(r@) == if clean {
                drop_empty(done)
            } else {
                done
            },
        decreases a.len() - j,
    {
        let ghost old_cur = views(cur@);
        let ghost rest = spec_split(gs.skip(j as int), gp);
        if window_matches(&a, &sep, j) {
            proof {
                lemma_split_match_step(gs, gp, j as int);
                let tail = spec_split(gs.skip(j + gp.len()), gp);
                lemma_split_nonempty(gs.skip(j + gp.len()), gp);
                lemma_done_step(done, old_cur, tail);
                lemma_filter_push(done, old_cur);
            }
            if !clean || cur.len() > 0 {
                r.push(cur);
                proof {
                    assert(piece_views(r@) =~= piece_views(r@.drop_last()).push(old_cur));
                    assert(piece_views(r@.drop_last()) =~= if clean {
                        drop_empty(done)
                    } else {
                        done
                    });
                }
            } else {
                proof {
                    assert(drop_empty(done.push(old_cur)) =~= drop_empty(done));
                }
            }
            cur = Vec::new();
            proof {
                done = done.push(old_cur);
                assert(views(cur@) =~= Seq::<V>::empty());
            }
            j += sep.len();
        } else {
            proof {
                lemma_split_nomatch_step(gs, gp, j as int);
                let tail = spec_split(gs.skip(j + 1), gp);
                lemma_split_nonempty(gs.skip(j + 1), gp);
                lemma_attach_snoc(old_cur, gs[j as int], tail);
                assert(gs[j as int] == a@[j as int]@);
            }
            cur.push(a[j].clone());
            proof {
                assert(views(cur@) =~= old_cur.push(a@[j as int]@));
            }
            j += 1;
        }
    }
    proof {
        lemma_split_empty(gs.skip(j as int), gp);
        assert(gs.skip(j as int) =~= Seq::<V>::empty());
        assert(views(cur@) + seq![Seq::<V>::empty()][0] =~= views(cur@));
        assert(seq![Seq::<V>::empty()].drop_first() =~= Seq::<Seq<V>>::empty());
        assert(attach(views(cur@), seq![Seq::<V>::empty()]) =~= seq![views(cur@)]);
        assert(spec_split(gs, gp) =~= done.push(views(cur@)));
        lemma_filter_push(done, views(cur@));
    }
    let ghost old_cur = views(cur@);
    if !clean || cur.len() > 0 {
        r.push(cur);
        proof {
            assert(piece_views(r@) =~= piece_views(r@.drop_last()).push(old_cur));
            assert(piece_views(r@.drop_last()) =~= if clean {
                drop_empty(done)
            } else {
                done
            });
        }
    } else {
        proof {
            assert(drop_empty(done.push(old_cur)) =~= drop_empty(done));
        }
    }
    r
}


/// Split a byte sequence at every occurrence of the separator; with
/// `clean`, drop the empty pieces.
#[verifier::loop_isolation(false)]
pub(crate) fn split_bytes(a: &Vec<u8>, sep: &Vec<u8>, clean: bool) -> (r: Vec<Vec<u8>>)
    requires
        sep@.len() > 0,
    ensures
        byte_views(r@) == if clean {
            drop_empty(spec_split(a@, sep@))
        } else {
            spec_split(a@, sep@)
        },
{
    let ghost gs = a@;
    let ghost gp = sep@;
    let mut r: Vec<Vec<u8>> = Vec::new();
    let mut cur: Vec<u8> = Vec::new();
    let ghost mut done: Seq<Seq<u8>> = Seq::empty();
    let mut j: usize = 0;
    proof {
        assert(gs.skip(0) =~= gs);
        lemma_split_nonempty(gs, gp);
        lemma_attach_empty(spec_split(gs, gp));
        assert(done + attach(cur@, spec_split(gs.skip(0), gp)) =~= spec_split(gs, gp));
        assert(byte_views(r@) =~= Seq::<Seq<u8>>::empty());
        assert(drop_empty(Seq::<Seq<u8>>::empty()) =~= Seq::<Seq<u8>>::empty()) by {
            reveal_with_fuel(Seq::filter, 1);
        }
    }
    while j < a.len()
        invariant
            j <= a.len(),
            spec_split(gs, gp) == done + attach(cur@, spec_split(gs.skip(j as int), gp)),
            byte_views(r@) == if clean {
                drop_empty(done)
            } else {
                done
            },
        decreases a.len() - j,
    {
        let ghost old_cur = cur@;
        if window_matches_bytes(a, sep, j) {
            proof {
                lemma_split_match_step(gs, gp, j as int);
                let tail = spec_split(gs.skip(j + gp.len()), gp);
                lemma_split_nonempty(gs.skip(j + gp.len()), gp);
                lemma_done_step(done, old_cur, tail);
                lemma_filter_push(done, old_cur);
            }
            if !clean || cur.len() > 0 {
                r.push(cur);
                proof {
                    assert(byte_views(r@) =~= byte_views(r@.drop_last()).push(old_cur));
                    assert(byte_views(r@.drop_last()) =~= if clean {
                        drop_empty(done)
                    } else {
                        done
                    });
                }
            } else {
                proof {
                    assert(drop_empty(done.push(old_cur)) =~= drop_empty(done));
                }
            }
            cur = Vec::new();
            proof {
                done = done.push(old_cur);
                assert(cur@ =~= Seq::<u8>::empty());
            }
            j += sep.len();
        } else {
            proof {
                lemma_split_nomatch_step(gs, gp, j as int);
                let tail = spec_split(gs.skip(j + 1), gp);
                lemma_split_nonempty(gs.skip(j + 1), gp);
                lemma_attach_snoc(old_cur, gs[j as int], tail);
            }
            cur.push(a[j]);
            j += 1;
        }
    }
    proof {
        lemma_split_empty(gs.skip(j as int), gp);
        assert(gs.skip(j as int) =~= Seq::<u8>::empty());
        assert(cur@ + seq![Seq::<u8>::empty()][0] =~= cur@);
        assert(seq![Seq::<u8>::empty()].drop_first() =~= Seq::<Seq<u8>>::empty());
        assert(attach(cur@, seq![Seq::<u8>::empty()]) =~= seq![cur@]);
        assert(spec_split(gs, gp) =~= done.push(cur@));
        lemma_filter_push(done, cur@);
    }
    let ghost old_cur = cur@;
    if !clean || cur.len() > 0 {
        r.push(cur);
        proof {
            assert(byte_views(r@) =~= byte_views(r@.drop_last()).push(old_cur));
            assert(byte_views(r@.drop_last()) =~= if clean {
                drop_empty(done)
            } else {
                done
            });
        }
    } else {
        proof {
            assert(drop_empty(done.push(old_cur)) =~= drop_empty(done));
        }
    }
    r
}

/// Whether a sequence of values holds the given one.
#[verifier::loop_isolation(false)]
pub(crate) fn contains_val(xs: &Vec<Gval>, x: &Gval) -> (r: bool)
    requires
        all_wf(xs@),
        x.wf(),
    ensures
        r == views(xs@).contains(x@),
{
    let mut i: usize = 0;
    while i < xs.len()
        invariant
            i <= xs.len(),
            forall|k: int| 0 <= k < i ==> views(xs@)[k] != x@,
        decreases xs.len() - i,
    {
        if eq_val(&xs[i], x) {
            proof {
                assert(views(xs@)[i as int] == x@);
            }
            return true;
        }
        i += 1;
    }
    proof {
        assert forall|k: int| 0 <= k < views(xs@).len() implies views(xs@)[k] != x@ by {}
    }
    false
}

/// Whether a byte vector holds the given byte.
#[verifier::loop_isolation(false)]
pub(crate) fn contains_byte(xs: &Vec<u8>, x: u8) -> (r: bool)
    ensures
        r == xs@.contains(x),
{
    let mut i: usize = 0;
    while i < xs.len()
        invariant
            i <= xs.len(),
            forall|k: int| 0 <= k < i ==> xs@[k] != x,
        decreases xs.len() - i,
    {
        if xs[i] == x {
            return true;
        }
        i += 1;
    }
    false
}

/// First occurrences kept, later duplicates dropped.
pub open spec fn dedup_first<T>(s: Seq<T>) -> Seq<T>
    decreases s.len(),
{
    if s.len() == 0 {
        Seq::empty()
    } else if s.drop_last().contains(s.last()) {
        dedup_first(s.drop_last())
    } else {
        dedup_first(s.drop_last()).push(s.last())
    }
}

/// Keeping the values satisfying a predicate, in order.
pub open spec fn keep<T>(s: Seq<T>, pred: spec_fn(T) -> bool) -> Seq<T> {
    s.filter(pred)
}

/// Elements of `a`, in order with duplicates, that do not occur in `b`.
#[verifier::loop_isolation(false)]
pub fn set_subtract(a: Vec<Gval>, b: Vec<Gval>) -> (r: Vec<Gval>)
    requires
        all_wf(a@),
        all_wf(b@),
    ensures
        all_wf(r@),
        views(r@) == views(a@).filter(|v: V| !views(b@).contains(v)),
{
    let ghost pred = |v: V| !views(b@).contains(v);
    let mut r: Vec<Gval> = Vec::new();
    let mut i: usize = 0;
    proof {
        reveal_with_fuel(Seq::filter, 1);
        assert(views(a@).take(0) =~= Seq::<V>::empty());
        assert(views(r@) =~= Seq::<V>::empty());
    }
    while i < a.len()
        invariant
            i <= a.len(),
            all_wf(r@),
            views(r@) == views(a@).take(i as int).filter(pred),
        decreases a.len() - i,
    {
        let ghost pre = views(a@).take(i as int);
        proof {
            assert(views(a@).take(i + 1).drop_last() =~= pre);
            assert(views(a@).take(i + 1).last() == views(a@)[i as int]);
            reveal_with_fuel(Seq::filter, 2);
        }
        if !contains_val(&b, &a[i]) {
            r.push(a[i].clone());
            proof {
                assert(views(r@) =~= pre.filter(pred).push(views(a@)[i as int]));
            }
        }
        i += 1;
    }
    proof {
        assert(views(a@).take(a@.len() as int) =~= views(a@));
    }
    r
}

/// The bytes of `a`, in order with duplicates, that do not occur in `b`.
#[verifier::loop_isolation(false)]
pub(crate) fn set_subtract_bytes(a: &Vec<u8>, b: &Vec<u8>) -> (r: Vec<u8>)
    ensures
        r@ == a@.filter(|v: u8| !b@.contains(v)),
{
    let ghost pred = |v: u8| !b@.contains(v);
    let mut r: Vec<u8> = Vec::new();
    let mut i: usize = 0;
    proof {
        reveal_with_fuel(Seq::filter, 1);
        assert(a@.take(0) =~= Seq::<u8>::empty());
    }
    while i < a.len()
        invariant
            i <= a.len(),
            r@ == a@.take(i as int).filter(pred),
        decreases a.len() - i,
    {
        let ghost pre = a@.take(i as int);
        proof {
            assert(a@.take(i + 1).drop_last() =~= pre);
            assert(a@.take(i + 1).last() == a@[i as int]);
            reveal_with_fuel(Seq::filter, 2);
        }
        if !contains_byte(b, a[i]) {
            r.push(a[i]);
            proof {
                assert(r@ =~= pre.filter(pred).push(a@[i as int]));
            }
        }
        i += 1;
    }
    proof {
        assert(a@.take(a@.len() as int) =~= a@);
    }
    r
}


/// Dropping later duplicates keeps exactly the values of the sequence.
pub proof fn lemma_dedup_contains<T>(s: Seq<T>, x: T)
    ensures
        dedup_first(s).contains(x) == s.contains(x),
    decreases s.len(),
{
    broadcast use vstd::seq_lib::lemma_seq_contains_after_push;

    if s.len() == 0 {
    } else {
        let d = s.drop_last();
        lemma_dedup_contains(d, x);
        lemma_dedup_contains(d, s.last());
        if s.contains(x) {
            let i = choose|i: int| 0 <= i < s.len() && s[i] == x;
            if i < s.len() - 1 {
                assert(d[i] == x);
                assert(d.contains(x));
            }
        }
        if d.contains(x) {
            let i = choose|i: int| 0 <= i < d.len() && d[i] == x;
            assert(s[i] == x);
            assert(s.contains(x));
        }
        if s.last() == x {
            assert(s.contains(x));
        }
        assert(s =~= d.push(s.last()));
    }
}

/// One more value under `dedup_first`.
pub proof fn lemma_dedup_push<T>(s: Seq<T>, x: T)
    ensures
        dedup_first(s.push(x)) == if s.contains(x) {
            dedup_first(s)
        } else {
            dedup_first(s).push(x)
        },
{
    assert(s.push(x).drop_last() =~= s);
    assert(s.push(x).last() == x);
}

/// One more value under `filter`.
pub proof fn lemma_seq_filter_push<T>(s: Seq<T>, x: T, pred: spec_fn(T) -> bool)
    ensures
        s.push(x).filter(pred) == if pred(x) {
            s.filter(pred).push(x)
        } else {
            s.filter(pred)
        },
{
    reveal_with_fuel(Seq::filter, 2);
    assert(s.push(x).drop_last() =~= s);
    assert(s.push(x).last() == x);
}

/// Concatenation of `a` and `b` with only first occurrences kept.
#[verifier::loop_isolation(false)]
pub fn set_or(a: Vec<Gval>, b: Vec<Gval>) -> (r: Vec<Gval>)
    requires
        all_wf(a@),
        all_wf(b@),
    ensures
        all_wf(r@),
        views(r@) == dedup_first(views(a@) + views(b@)),
{
    let ghost all = views(a@) + views(b@);
    let mut r: Vec<Gval> = Vec::new();
    let ghost mut seen: Seq<V> = Seq::empty();
    proof {
        assert(seen =~= all.take(0));
        assert(views(r@) =~= dedup_first(all.take(0)));
    }
    let mut i: usize = 0;
    while i < a.len()
        invariant
            i <= a.len(),
            all.len() == a@.len() + b@.len(),
            all_wf(r@),
            seen == all.take(i as int),
            views(r@) == dedup_first(seen),
        decreases a.len() - i,
    {
        let v = a[i].clone();
        proof {
            assert(v@ == all[i as int]);
            lemma_dedup_contains(seen, all[i as int]);
            lemma_dedup_push(seen, all[i as int]);
        }
        if !contains_val(&r, &v) {
            r.push(v);
            proof {
                assert(views(r@) =~= dedup_first(seen).push(all[i as int]));
            }
        }
        proof {
            seen = seen.push(all[i as int]);
            assert(seen =~= all.take(i + 1));
        }
        i += 1;
    }
    let mut k: usize = 0;
    while k < b.len()
        invariant
            k <= b.len(),
            all.len() == a@.len() + b@.len(),
            all_wf(r@),
            seen == all.take(a@.len() + k),
            views(r@) == dedup_first(seen),
        decreases b.len() - k,
    {
        let v = b[k].clone();
        proof {
            assert(v@ == all[a@.len() + k]);
            lemma_dedup_contains(seen, all[a@.len() + k]);
            lemma_dedup_push(seen, all[a@.len() + k]);
        }
        if !contains_val(&r, &v) {
            r.push(v);
            proof {
                assert(views(r@) =~= dedup_first(seen).push(all[a@.len() + k]));
            }
        }
        proof {
            seen = seen.push(all[a@.len() + k]);
            assert(seen =~= all.take(a@.len() + k + 1));
        }
        k += 1;
    }
    proof {
        assert(all.take(all.len() as int) =~= all);
    }
    r
}

/// Bytes of `a` then `b` with only first occurrences kept.
#[verifier::loop_isolation(false)]
pub(crate) fn set_or_bytes(a: &Vec<u8>, b: &Vec<u8>) -> (r: Vec<u8>)
    ensures
        r@ == dedup_first(a@ + b@),
{
    let ghost all = a@ + b@;
    let mut r: Vec<u8> = Vec::new();
    let ghost mut seen: Seq<u8> = Seq::empty();
    proof {
        assert(seen =~= all.take(0));
        assert(r@ =~= dedup_first(all.take(0)));
    }
    let mut i: usize = 0;
    while i < a.len()
        invariant
            i <= a.len(),
            all.len() == a@.len() + b@.len(),
            seen == all.take(i as int),
            r@ == dedup_first(seen),
        decreases a.len() - i,
    {
        let v = a[i];
        proof {
            assert(v == all[i as int]);
            lemma_dedup_contains(seen, all[i as int]);
            lemma_dedup_push(seen, all[i as int]);
        }
        if !contains_byte(&r, v) {
            r.push(v);
        }
        proof {
            seen = seen.push(all[i as int]);
            assert(seen =~= all.take(i + 1));
        }
        i += 1;
    }
    let mut k: usize = 0;
    while k < b.len()
        invariant
            k <= b.len(),
            all.len() == a@.len() + b@.len(),
            seen == all.take(a@.len() + k),
            r@ == dedup_first(seen),
        decreases b.len() - k,
    {
        let v = b[k];
        proof {
            assert(v == all[a@.len() + k]);
            lemma_dedup_contains(seen, all[a@.len() + k]);
            lemma_dedup_push(seen, all[a@.len() + k]);
        }
        if !contains_byte(&r, v) {
            r.push(v);
        }
        proof {
            seen = seen.push(all[a@.len() + k]);
            assert(seen =~= all.take(a@.len() + k + 1));
        }
        k += 1;
    }
    proof {
        assert(all.take(all.len() as int) =~= all);
    }
    r
}

/// Values of `b`, first occurrences only, that also occur in `a`.
#[verifier::loop_isolation(false)]
pub fn set_and(a: Vec<Gval>, b: Vec<Gval>) -> (r: Vec<Gval>)
    requires
        all_wf(a@),
        all_wf(b@),
    ensures
        all_wf(r@),
        views(r@) == dedup_first(views(b@).filter(|v: V| views(a@).contains(v))),
{
    let ghost pred = |v: V| views(a@).contains(v);
    let mut r: Vec<Gval> = Vec::new();
    let ghost mut seen: Seq<V> = Seq::empty();
    proof {
        reveal_with_fuel(Seq::filter, 1);
        assert(seen =~= views(b@).take(0));
        assert(views(b@).take(0).filter(pred) =~= Seq::<V>::empty());
        assert(views(r@) =~= dedup_first(views(b@).take(0).filter(pred)));
    }
    let mut i: usize = 0;
    while i < b.len()
        invariant
            i <= b.len(),
            all_wf(r@),
            seen == views(b@).take(i as int),
            views(r@) == dedup_first(seen.filter(pred)),
        decreases b.len() - i,
    {
        let ghost w = views(b@)[i as int];
        let v = b[i].clone();
        proof {
            assert(v@ == w);
            lemma_seq_filter_push(seen, w, pred);
            lemma_dedup_contains(seen.filter(pred), w);
            lemma_dedup_push(seen.filter(pred), w);
        }
        let in_a = contains_val(&a, &v);
        if in_a && !contains_val(&r, &v) {
            r.push(v);
            proof {
                assert(views(r@) =~= dedup_first(seen.filter(pred)).push(w));
            }
        }
        proof {
            seen = seen.push(w);
            assert(seen =~= views(b@).take(i + 1));
        }
        i += 1;
    }
    proof {
        assert(views(b@).take(b@.len() as int) =~= views(b@));
    }
    r
}

/// Bytes of `b`, first occurrences only, that also occur in `a`.
#[verifier::loop_isolation(false)]
pub(crate) fn set_and_bytes(a: &Vec<u8>, b: &Vec<u8>) -> (r: Vec<u8>)
    ensures
        r@ == dedup_first(b@.filter(|v: u8| a@.contains(v))),
{
    let ghost pred = |v: u8| a@.contains(v);
    let mut r: Vec<u8> = Vec::new();
    let ghost mut seen: Seq<u8> = Seq::empty();
    proof {
        reveal_with_fuel(Seq::filter, 1);
        assert(seen =~= b@.take(0));
        assert(b@.take(0).filter(pred) =~= Seq::<u8>::empty());
        assert(r@ =~= dedup_first(b@.take(0).filter(pred)));
    }
    let mut i: usize = 0;
    while i < b.len()
        invariant
            i <= b.len(),
            seen == b@.take(i as int),
            r@ == dedup_first(seen.filter(pred)),
        decreases b.len() - i,
    {
        let ghost w = b@[i as int];
        let v = b[i];
        proof {
            assert(v == w);
            lemma_seq_filter_push(seen, w, pred);
            lemma_dedup_contains(seen.filter(pred), w);
            lemma_dedup_push(seen.filter(pred), w);
        }
        let in_a = contains_byte(a, v);
        if in_a && !contains_byte(&r, v) {
            r.push(v);
        }
        proof {
            seen = seen.push(w);
            assert(seen =~= b@.take(i + 1));
        }
        i += 1;
    }
    proof {
        assert(b@.take(b@.len() as int) =~= b@);
    }
    r
}

/// Values occurring in exactly one of `a` and `b`, first occurrences
/// only, in order of appearance.
#[verifier::loop_isolation(false)]
pub fn set_xor(a: Vec<Gval>, b: Vec<Gval>) -> (r: Vec<Gval>)
    requires
        all_wf(a@),
        all_wf(b@),
    ensures
        all_wf(r@),
        views(r@) == dedup_first(
            (views(a@) + views(b@)).filter(
                |v: V| views(a@).contains(v) != views(b@).contains(v),
            ),
        ),
{
    let ghost pred = |v: V| views(a@).contains(v) != views(b@).contains(v);
    let ghost all = views(a@) + views(b@);
    let mut r: Vec<Gval> = Vec::new();
    let ghost mut seen: Seq<V> = Seq::empty();
    proof {
        reveal_with_fuel(Seq::filter, 1);
        assert(seen =~= all.take(0));
        assert(all.take(0).filter(pred) =~= Seq::<V>::empty());
        assert(views(r@) =~= dedup_first(all.take(0).filter(pred)));
    }
    let mut i: usize = 0;
    while i < a.len()
        invariant
            i <= a.len(),
            all.len() == a@.len() + b@.len(),
            all_wf(r@),
            seen == all.take(i as int),
            views(r@) == dedup_first(seen.filter(pred)),
        decreases a.len() - i,
    {
        let ghost w = all[i as int];
        let v = a[i].clone();
        proof {
            assert(v@ == w);
            lemma_seq_filter_push(seen, w, pred);
            lemma_dedup_contains(seen.filter(pred), w);
            lemma_dedup_push(seen.filter(pred), w);
        }
        let in_a = contains_val(&a, &v);
        let in_b = contains_val(&b, &v);
        if in_a != in_b && !contains_val(&r, &v) {
            r.push(v);
            proof {
                assert(views(r@) =~= dedup_first(seen.filter(pred)).push(w));
            }
        }
        proof {
            seen = seen.push(w);
            assert(seen =~= all.take(i + 1));
        }
        i += 1;
    }
    let mut k: usize = 0;
    while k < b.len()
        invariant
            k <= b.len(),
            all.len() == a@.len() + b@.len(),
            all_wf(r@),
            seen == all.take(a@.len() + k),
            views(r@) == dedup_first(seen.filter(pred)),
        decreases b.len() - k,
    {
        let ghost w = all[a@.len() + k];
        let v = b[k].clone();
        proof {
            assert(v@ == w);
            lemma_seq_filter_push(seen, w, pred);
            lemma_dedup_contains(seen.filter(pred), w);
            lemma_dedup_push(seen.filter(pred), w);
        }
        let in_a = contains_val(&a, &v);
        let in_b = contains_val(&b, &v);
        if in_a != in_b && !contains_val(&r, &v) {
            r.push(v);
            proof {
                assert(views(r@) =~= dedup_first(seen.filter(pred)).push(w));
            }
        }
        proof {
            seen = seen.push(w);
            assert(seen =~= all.take(a@.len() + k + 1));
        }
        k += 1;
    }
    proof {
        assert(all.take(all.len() as int) =~= all);
    }
    r
}

/// Bytes occurring in exactly one of `a` and `b`, first occurrences only.
#[verifier::loop_isolation(false)]
pub(crate) fn set_xor_bytes(a: &Vec<u8>, b: &Vec<u8>) -> (r: Vec<u8>)
    ensures
        r@ == dedup_first((a@ + b@).filter(|v: u8| a@.contains(v) != b@.contains(v))),
{
    let ghost pred = |v: u8| a@.contains(v) != b@.contains(v);
    let ghost all = a@ + b@;
    let mut r: Vec<u8> = Vec::new();
    let ghost mut seen: Seq<u8> = Seq::empty();
    proof {
        reveal_with_fuel(Seq::filter, 1);
        assert(seen =~= all.take(0));
        assert(all.take(0).filter(pred) =~= Seq::<u8>::empty());
        assert(r@ =~= dedup_first(all.take(0).filter(pred)));
    }
    let mut i: usize = 0;
    while i < a.len()
        invariant
            i <= a.len(),
            all.len() == a@.len() + b@.len(),
            seen == all.take(i as int),
            r@ == dedup_first(seen.filter(pred)),
        decreases a.len() - i,
    {
        let ghost w = all[i as int];
        let v = a[i];
        proof {
            assert(v == w);
            lemma_seq_filter_push(seen, w, pred);
            lemma_dedup_contains(seen.filter(pred), w);
            lemma_dedup_push(seen.filter(pred), w);
        }
        let in_a = contains_byte(a, v);
        let in_b = contains_byte(b, v);
        if in_a != in_b && !contains_byte(&r, v) {
            r.push(v);
        }
        proof {
            seen = seen.push(w);
            assert(seen =~= all.take(i + 1));
        }
        i += 1;
    }
    let mut k: usize = 0;
    while k < b.len()
        invariant
            k <= b.len(),
            all.len() == a@.len() + b@.len(),
            seen == all.take(a@.len() + k),
            r@ == dedup_first(seen.filter(pred)),
        decreases b.len() - k,
    {
        let ghost w = all[a@.len() + k];
        let v = b[k];
        proof {
            assert(v == w);
            lemma_seq_filter_push(seen, w, pred);
            lemma_dedup_contains(seen.filter(pred), w);
            lemma_dedup_push(seen.filter(pred), w);
        }
        let in_a = contains_byte(a, v);
        let in_b = contains_byte(b, v);
        if in_a != in_b && !contains_byte(&r, v) {
            r.push(v);
        }
        proof {
            seen = seen.push(w);
            assert(seen =~= all.take(a@.len() + k + 1));
        }
        k += 1;
    }
    proof {
        assert(all.take(all.len() as int) =~= all);
    }
    r
}


/// `k` copies of a sequence, concatenated; none for `k <= 0`.
pub open spec fn repeat_seq<T>(s: Seq<T>, k: int) -> Seq<T>
    decreases (if k > 0 { k } else { 0 }),
{
    if k <= 0 {
        Seq::empty()
    } else {
        repeat_seq(s, k - 1) + s
    }
}

/// Append clones of all values of `src`.
#[verifier::loop_isolation(false)]
pub(crate) fn extend_vals(dst: &mut Vec<Gval>, src: &Vec<Gval>)
    requires
        all_wf(old(dst)@),
        all_wf(src@),
    ensures
        all_wf(final(dst)@),
        views(final(dst)@) == views(old(dst)@) + views(src@),
{
    let mut i: usize = 0;
    proof {
        assert(views(dst@) =~= views(old(dst)@) + views(src@).take(0));
    }
    while i < src.len()
        invariant
            i <= src.len(),
            all_wf(dst@),
            views(dst@) == views(old(dst)@) + views(src@).take(i as int),
        decreases src.len() - i,
    {
        let ghost prev = dst@;
        dst.push(src[i].clone());
        proof {
            lemma_views_push(prev, dst@.last());
            assert(dst@ =~= prev.push(dst@.last()));
            assert(views(dst@) =~= views(old(dst)@) + views(src@).take(i + 1));
        }
        i += 1;
    }
    proof {
        assert(views(src@).take(src@.len() as int) =~= views(src@));
    }
}

/// The sequence repeated `n` times; non-positive `n` gives the empty
/// result.
#[verifier::loop_isolation(false)]
pub fn repeat(a: Vec<Gval>, n: Bint) -> (r: Vec<Gval>)
    requires
        all_wf(a@),
        n.wf(),
    ensures
        all_wf(r@),
        views(r@) == repeat_seq(views(a@), n.as_int()),
{
    let ghost n0 = n.as_int();
    let mut r: Vec<Gval> = Vec::new();
    let mut m = n;
    proof {
        assert(views(r@) =~= repeat_seq(views(a@), n0 - m.as_int()));
    }
    while m.is_positive()
        invariant
            m.wf(),
            m.as_int() <= n0,
            n0 > 0 ==> m.as_int() >= 0,
            n0 <= 0 ==> m.as_int() == n0,
            all_wf(r@),
            views(r@) == repeat_seq(views(a@), n0 - m.as_int()),
        decreases (if m.as_int() > 0 { m.as_int() } else { 0 }),
    {
        extend_vals(&mut r, &a);
        m = crate::bigint::big_sub(&m, &Bint::from_u64(1));
        proof {
            assert(views(r@) =~= repeat_seq(views(a@), n0 - m.as_int()));
        }
    }
    proof {
        if n0 > 0 {
            assert(m.as_int() == 0);
        } else {
            assert(repeat_seq(views(a@), n0 - m.as_int()) =~= repeat_seq(views(a@), n0));
        }
    }
    r
}

/// The byte sequence repeated `n` times.
#[verifier::loop_isolation(false)]
pub(crate) fn repeat_bytes(a: &Vec<u8>, n: &Bint) -> (r: Vec<u8>)
    requires
        n.wf(),
    ensures
        r@ == repeat_seq(a@, n.as_int()),
{
    let ghost n0 = n.as_int();
    let mut r: Vec<u8> = Vec::new();
    let mut m = n.clone();
    proof {
        assert(r@ =~= repeat_seq(a@, n0 - m.as_int()));
    }
    while m.is_positive()
        invariant
            m.wf(),
            m.as_int() <= n0,
            n0 > 0 ==> m.as_int() >= 0,
            n0 <= 0 ==> m.as_int() == n0,
            r@ == repeat_seq(a@, n0 - m.as_int()),
        decreases (if m.as_int() > 0 { m.as_int() } else { 0 }),
    {
        crate::value::extend_bytes(&mut r, a);
        m = crate::bigint::big_sub(&m, &Bint::from_u64(1));
        proof {
            assert(r@ =~= repeat_seq(a@, n0 - m.as_int()));
        }
    }
    proof {
        if n0 > 0 {
            assert(m.as_int() == 0);
        } else {
            assert(repeat_seq(a@, n0 - m.as_int()) =~= repeat_seq(a@, n0));
        }
    }
    r
}

/// Pieces of `k` consecutive values; the last piece may be shorter.
pub open spec fn chunks_of<T>(s: Seq<T>, k: int) -> Seq<Seq<T>>
    decreases s.len(),
{
    if k <= 0 || s.len() == 0 {
        Seq::empty()
    } else if s.len() <= k {
        seq![s]
    } else {
        seq![s.take(k)] + chunks_of(s.skip(k), k)
    }
}

/// A clone of the values from `from` (inclusive) to `to` (exclusive).
#[verifier::loop_isolation(false)]
pub(crate) fn clone_range(a: &Vec<Gval>, from: usize, to: usize) -> (r: Vec<Gval>)
    requires
        all_wf(a@),
        from <= to <= a@.len(),
    ensures
        all_wf(r@),
        views(r@) == views(a@).subrange(from as int, to as int),
{
    let mut r: Vec<Gval> = Vec::new();
    let mut i: usize = from;
    proof {
        assert(views(r@) =~= views(a@).subrange(from as int, from as int));
    }
    while i < to
        invariant
            from <= i <= to,
            all_wf(r@),
            views(r@) == views(a@).subrange(from as int, i as int),
        decreases to - i,
    {
        r.push(a[i].clone());
        proof {
            assert(views(r@) =~= views(a@).subrange(from as int, i + 1));
        }
        i += 1;
    }
    r
}

/// A copy of the bytes from `from` (inclusive) to `to` (exclusive).
#[verifier::loop_isolation(false)]
pub(crate) fn clone_range_bytes(a: &Vec<u8>, from: usize, to: usize) -> (r: Vec<u8>)
    requires
        from <= to <= a@.len(),
    ensures
        r@ == a@.subrange(from as int, to as int),
{
    let mut r: Vec<u8> = Vec::new();
    let mut i: usize = from;
    proof {
        assert(r@ =~= a@.subrange(from as int, from as int));
    }
    while i < to
        invariant
            from <= i <= to,
            r@ == a@.subrange(from as int, i as int),
        decreases to - i,
    {
        r.push(a[i]);
        proof {
            assert(r@ =~= a@.subrange(from as int, i + 1));
        }
        i += 1;
    }
    r
}

/// The values in reverse order.
#[verifier::loop_isolation(false)]
pub(crate) fn reverse_vals(a: &Vec<Gval>) -> (r: Vec<Gval>)
    requires
        all_wf(a@),
    ensures
        all_wf(r@),
        views(r@) == views(a@).reverse(),
{
    let mut r: Vec<Gval> = Vec::new();
    let mut i: usize = a.len();
    while i > 0
        invariant
            i <= a.len(),
            all_wf(r@),
            views(r@).len() == a@.len() - i,
            forall|k: int| 0 <= k < a@.len() - i ==> #[trigger] views(r@)[k] == views(a@)[a@.len()
                - 1 - k],
        decreases i,
    {
        i -= 1;
        let ghost prev = r@;
        r.push(a[i].clone());
        proof {
            lemma_views_push(prev, r@.last());
            assert(r@ =~= prev.push(r@.last()));
        }
    }
    proof {
        assert(views(r@) =~= views(a@).reverse());
    }
    r
}

/// The bytes in reverse order.
#[verifier::loop_isolation(false)]
pub(crate) fn reverse_bytes(a: &Vec<u8>) -> (r: Vec<u8>)
    ensures
        r@ == a@.reverse(),
{
    let mut r: Vec<u8> = Vec::new();
    let mut i: usize = a.len();
    while i > 0
        invariant
            i <= a.len(),
            r@.len() == a@.len() - i,
            forall|k: int| 0 <= k < a@.len() - i ==> #[trigger] r@[k] == a@[a@.len() - 1 - k],
        decreases i,
    {
        i -= 1;
        r.push(a[i]);
    }
    proof {
        assert(r@ =~= a@.reverse());
    }
    r
}


/// Magnitude of an integer as a chunk or stride size, saturated to the
/// sequence length when it does not fit a machine word.
fn abs_size(n: &Bint, len: usize) -> (r: usize)
    requires
        n.wf(),
        n.as_int() != 0,
    ensures
        r >= 1,
        r == if n.as_int() < 0 {
            -n.as_int()
        } else {
            n.as_int()
        } || (r >= len && (if n.as_int() < 0 {
            -n.as_int()
        } else {
            n.as_int()
        }) >= len),
{
    let a = n.abs();
    match a.to_u64() {
        Some(x) => {
            if x <= usize::MAX as u64 {
                if x as usize >= 1 {
                    x as usize
                } else {
                    1
                }
            } else {
                if len >= 1 {
                    len
                } else {
                    1
                }
            }
        },
        None => {
            if len >= 1 {
                len
            } else {
                1
            }
        },
    }
}

/// One more piece under `piece_views`.
proof fn lemma_piece_views_push(s: Seq<Vec<Gval>>, x: Vec<Gval>)
    ensures
        piece_views(s.push(x)) == piece_views(s).push(views(x@)),
{
    assert forall|k: int| 0 <= k < s.len() + 1 implies piece_views(s.push(x))[k] == piece_views(
        s,
    ).push(views(x@))[k] by {
        if k < s.len() {
            assert(s.push(x)[k] == s[k]);
        } else {
            assert(s.push(x)[k] == x);
        }
    }
    assert(piece_views(s.push(x)) =~= piece_views(s).push(views(x@)));
}

/// Chunks of `|n|` consecutive values, the input reversed first for
/// negative `n`.
#[verifier::loop_isolation(false)]
pub fn chunk(a: Vec<Gval>, n: Bint) -> (r: Vec<Vec<Gval>>)
    requires
        all_wf(a@),
        n.wf(),
        n.as_int() != 0,
    ensures
        pieces_wf(r@),
        piece_views(r@) == chunks_of(
            if n.as_int() < 0 {
                views(a@).reverse()
            } else {
                views(a@)
            },
            if n.as_int() < 0 {
                -n.as_int()
            } else {
                n.as_int()
            },
        ),
{
    let src = if n.is_negative() {
        reverse_vals(&a)
    } else {
        a
    };
    let ghost s0 = views(src@);
    let ghost k0 = if n.as_int() < 0 { -n.as_int() } else { n.as_int() };
    let k = abs_size(&n, src.len());
    proof {
        lemma_chunks_saturate(s0, k as int, k0);
    }
    let mut r: Vec<Vec<Gval>> = Vec::new();
    let mut j: usize = 0;
    proof {
        assert(s0.skip(0) =~= s0);
        assert(piece_views(r@) =~= Seq::<Seq<V>>::empty());
        assert(piece_views(r@) + chunks_of(s0, k as int) =~= chunks_of(s0, k as int));
    }
    while j < src.len()
        invariant
            j <= src.len(),
            k >= 1,
            s0.len() == src@.len(),
            all_wf(src@),
            pieces_wf(r@),
            chunks_of(s0, k as int) == piece_views(r@) + chunks_of(s0.skip(j as int), k as int),
        decreases src.len() - j,
    {
        let ghost prev = r@;
        let end = if src.len() - j <= k {
            src.len()
        } else {
            j + k
        };
        let piece = clone_range(&src, j, end);
        let ghost pv = views(piece@);
        r.push(piece);
        proof {
            lemma_piece_views_push(prev, r@.last());
            assert(r@ =~= prev.push(r@.last()));
            let remv = s0.skip(j as int);
            if s0.len() - j <= k {
                assert(pv =~= remv);
                assert(chunks_of(remv, k as int) == seq![remv]);
                assert(s0.skip(end as int) =~= Seq::<V>::empty());
                assert(piece_views(prev) + seq![remv] =~= piece_views(prev).push(pv)
                    + chunks_of(s0.skip(end as int), k as int));
            } else {
                assert(pv =~= remv.take(k as int));
                assert(remv.skip(k as int) =~= s0.skip(end as int));
                assert(chunks_of(remv, k as int) == seq![remv.take(k as int)] + chunks_of(
                    s0.skip(end as int),
                    k as int,
                ));
                assert(piece_views(prev) + (seq![pv] + chunks_of(s0.skip(end as int), k as int))
                    =~= piece_views(prev).push(pv) + chunks_of(s0.skip(end as int), k as int));
            }
        }
        j = end;
    }
    proof {
        assert(s0.skip(j as int) =~= Seq::<V>::empty());
        assert(piece_views(r@) + Seq::<Seq<V>>::empty() =~= piece_views(r@));
    }
    r
}

/// A saturated chunk size cuts the same chunks as the true one.
proof fn lemma_chunks_saturate<T>(s: Seq<T>, k: int, k0: int)
    requires
        k >= 1,
        k == k0 || (k >= s.len() && k0 >= s.len()),
    ensures
        chunks_of(s, k) == chunks_of(s, k0),
{
    if k != k0 && s.len() > 0 {
        assert(chunks_of(s, k) =~= seq![s]);
        assert(chunks_of(s, k0) =~= seq![s]);
    }
}

/// Every `k`-th value, starting with the first.
pub open spec fn every_kth<T>(s: Seq<T>, k: int) -> Seq<T>
    decreases s.len(),
{
    if k <= 0 || s.len() == 0 {
        Seq::empty()
    } else if s.len() <= k {
        seq![s[0]]
    } else {
        seq![s[0]] + every_kth(s.skip(k), k)
    }
}

/// Every `|n|`-th value, the input reversed first for negative `n`.
#[verifier::loop_isolation(false)]
pub fn every_nth(a: Vec<Gval>, n: Bint) -> (r: Vec<Gval>)
    requires
        all_wf(a@),
        n.wf(),
        n.as_int() != 0,
    ensures
        all_wf(r@),
        views(r@) == every_kth(
            if n.as_int() < 0 {
                views(a@).reverse()
            } else {
                views(a@)
            },
            if n.as_int() < 0 {
                -n.as_int()
            } else {
                n.as_int()
            },
        ),
{
    let src = if n.is_negative() {
        reverse_vals(&a)
    } else {
        a
    };
    let ghost s0 = views(src@);
    let ghost k0 = if n.as_int() < 0 { -n.as_int() } else { n.as_int() };
    let k = abs_size(&n, src.len());
    proof {
        lemma_every_kth_saturate(s0, k as int, k0);
    }
    let mut r: Vec<Gval> = Vec::new();
    let mut j: usize = 0;
    proof {
        assert(s0.skip(0) =~= s0);
        assert(views(r@) =~= Seq::<V>::empty());
        assert(views(r@) + every_kth(s0, k as int) =~= every_kth(s0, k as int));
    }
    while j < src.len()
        invariant
            j <= src.len(),
            k >= 1,
            s0.len() == src@.len(),
            all_wf(src@),
            all_wf(r@),
            every_kth(s0, k as int) == views(r@) + every_kth(s0.skip(j as int), k as int),
        decreases src.len() - j,
    {
        let ghost prev = r@;
        r.push(src[j].clone());
        proof {
            lemma_views_push(prev, r@.last());
            assert(r@ =~= prev.push(r@.last()));
        }
        let next = if src.len() - j <= k {
            src.len()
        } else {
            j + k
        };
        proof {
            let remv = s0.skip(j as int);
            assert(remv[0] == s0[j as int]);
            if s0.len() - j <= k {
                assert(every_kth(remv, k as int) == seq![remv[0]]);
                assert(s0.skip(next as int) =~= Seq::<V>::empty());
                assert(views(prev) + seq![remv[0]] =~= views(prev).push(s0[j as int]) + every_kth(
                    s0.skip(next as int),
                    k as int,
                ));
            } else {
                assert(remv.skip(k as int) =~= s0.skip(next as int));
                assert(every_kth(remv, k as int) == seq![remv[0]] + every_kth(
                    s0.skip(next as int),
                    k as int,
                ));
                assert(views(prev) + (seq![remv[0]] + every_kth(s0.skip(next as int), k as int))
                    =~= views(prev).push(s0[j as int]) + every_kth(s0.skip(next as int), k as int));
            }
        }
        j = next;
    }
    proof {
        assert(s0.skip(j as int) =~= Seq::<V>::empty());
        assert(views(r@) + Seq::<V>::empty() =~= views(r@));
    }
    r
}

/// A saturated stride picks the same values as the true one.
proof fn lemma_every_kth_saturate<T>(s: Seq<T>, k: int, k0: int)
    requires
        k >= 1,
        k == k0 || (k >= s.len() && k0 >= s.len()),
    ensures
        every_kth(s, k) == every_kth(s, k0),
{
}


/// The index a signed position resolves to: non-negative positions count
/// from the front, negative ones from the back.
pub open spec fn norm_index(i: int, l: int) -> int {
    if i >= 0 {
        i
    } else {
        i + l
    }
}

/// The element at a signed position, when it resolves inside the
/// sequence.
#[verifier::loop_isolation(false)]
pub fn index(a: &Vec<Gval>, i: Bint) -> (r: Option<&Gval>)
    requires
        all_wf(a@),
        i.wf(),
    ensures
        match r {
            Some(v) => 0 <= norm_index(i.as_int(), a@.len() as int) < a@.len() && v@ == views(a@)[
                norm_index(i.as_int(), a@.len() as int)
            ] && v.wf(),
            None => !(0 <= norm_index(i.as_int(), a@.len() as int) < a@.len()),
        },
{
    let l = a.len();
    proof {
        assert(a@.len() == l);
    }
    if i.is_negative() {
        let j = crate::bigint::big_add(&i, &Bint::from_usize(a.len()));
        if j.is_negative() {
            None
        } else {
            match j.to_u64() {
                Some(x) => {
                    if x < a.len() as u64 {
                        proof {
                            assert(norm_index(i.as_int(), a@.len() as int) == x);
                            assert(a@[x as int].wf());
                            assert(views(a@)[x as int] == a@[x as int]@);
                        }
                        Some(&a[x as usize])
                    } else {
                        proof {
                            assert(x < a@.len());
                        }
                        None
                    }
                },
                None => {
                    proof {
                        assert(!(0 <= norm_index(i.as_int(), a@.len() as int) < a@.len()));
                    }
                    None
                },
            }
        }
    } else {
        match i.to_u64() {
            Some(x) => {
                if x < a.len() as u64 {
                    proof {
                        assert(norm_index(i.as_int(), a@.len() as int) == x);
                        assert(a@[x as int].wf());
                        assert(views(a@)[x as int] == a@[x as int]@);
                    }
                    Some(&a[x as usize])
                } else {
                    None
                }
            },
            None => {
                proof {
                    assert(!(0 <= norm_index(i.as_int(), a@.len() as int) < a@.len()));
                }
                None
            },
        }
    }
}

/// The index a byte position resolves to inside a byte vector.
#[verifier::loop_isolation(false)]
pub(crate) fn index_byte(a: &Vec<u8>, i: &Bint) -> (r: Option<u8>)
    requires
        i.wf(),
    ensures
        match r {
            Some(v) => 0 <= norm_index(i.as_int(), a@.len() as int) < a@.len() && v == a@[
                norm_index(i.as_int(), a@.len() as int)
            ],
            None => !(0 <= norm_index(i.as_int(), a@.len() as int) < a@.len()),
        },
{
    let l = a.len();
    proof {
        assert(a@.len() == l);
    }
    if i.is_negative() {
        let j = crate::bigint::big_add(i, &Bint::from_usize(a.len()));
        if j.is_negative() {
            None
        } else {
            match j.to_u64() {
                Some(x) => {
                    if x < a.len() as u64 {
                        proof {
                            assert(norm_index(i.as_int(), a@.len() as int) == x);
                        }
                        Some(a[x as usize])
                    } else {
                        proof {
                            assert(x < a@.len());
                        }
                        None
                    }
                },
                None => {
                    proof {
                        assert(!(0 <= norm_index(i.as_int(), a@.len() as int) < a@.len()));
                    }
                    None
                },
            }
        }
    } else {
        match i.to_u64() {
            Some(x) => {
                if x < a.len() as u64 {
                    proof {
                        assert(norm_index(i.as_int(), a@.len() as int) == x);
                    }
                    Some(a[x as usize])
                } else {
                    None
                }
            },
            None => {
                proof {
                    assert(!(0 <= norm_index(i.as_int(), a@.len() as int) < a@.len()));
                }
                None
            },
        }
    }
}

/// The position a signed slice index clamps to.
pub open spec fn clamp_index(i: int, l: int) -> int {
    if i >= l {
        l
    } else if i >= 0 {
        i
    } else if i >= -l {
        i + l
    } else {
        0
    }
}

/// The clamped machine position of a signed slice index.
fn clamp_exec(i: &Bint, l: usize) -> (r: usize)
    requires
        i.wf(),
    ensures
        r == clamp_index(i.as_int(), l as int),
{
    if i.is_negative() {
        let j = crate::bigint::big_add(i, &Bint::from_usize(l));
        if j.is_negative() {
            0
        } else {
            match j.to_u64() {
                Some(x) => {
                    if x < l as u64 {
                        x as usize
                    } else {
                        proof {
                            assert(x < l);
                        }
                        0
                    }
                },
                None => 0,
            }
        }
    } else {
        match i.to_u64() {
            Some(x) => {
                if x < l as u64 {
                    x as usize
                } else {
                    l
                }
            },
            None => l,
        }
    }
}

/// The values before (`Lt`) or from (`Gt`) a signed position, clamped to
/// the ends.
pub fn slice(o: Ord3, a: Vec<Gval>, i: Bint) -> (r: Vec<Gval>)
    requires
        o != Ord3::Eq,
        all_wf(a@),
        i.wf(),
    ensures
        all_wf(r@),
        views(r@) == if o == Ord3::Lt {
            views(a@).take(clamp_index(i.as_int(), a@.len() as int))
        } else {
            views(a@).skip(clamp_index(i.as_int(), a@.len() as int))
        },
{
    let ix = clamp_exec(&i, a.len());
    let r = match o {
        Ord3::Lt => clone_range(&a, 0, ix),
        _ => clone_range(&a, ix, a.len()),
    };
    proof {
        if o == Ord3::Lt {
            assert(views(a@).subrange(0, ix as int) =~= views(a@).take(ix as int));
        } else {
            assert(views(a@).subrange(ix as int, a@.len() as int) =~= views(a@).skip(ix as int));
        }
    }
    r
}

/// The bytes before or from a signed position, clamped to the ends.
pub(crate) fn slice_bytes(o: Ord3, a: &Vec<u8>, i: &Bint) -> (r: Vec<u8>)
    requires
        o != Ord3::Eq,
        i.wf(),
    ensures
        r@ == if o == Ord3::Lt {
            a@.take(clamp_index(i.as_int(), a@.len() as int))
        } else {
            a@.skip(clamp_index(i.as_int(), a@.len() as int))
        },
{
    let ix = clamp_exec(i, a.len());
    let r = match o {
        Ord3::Lt => clone_range_bytes(a, 0, ix),
        _ => clone_range_bytes(a, ix, a.len()),
    };
    proof {
        if o == Ord3::Lt {
            assert(a@.subrange(0, ix as int) =~= a@.take(ix as int));
        } else {
            assert(a@.subrange(ix as int, a@.len() as int) =~= a@.skip(ix as int));
        }
    }
    r
}

/// Position of the first occurrence of `needle` in `haystack`, or -1.
#[verifier::loop_isolation(false)]
pub fn string_index(haystack: &Vec<u8>, needle: &Vec<u8>) -> (r: Bint)
    ensures
        r.wf(),
        r.as_int() == -1 ==> forall|j: int| !match_at(haystack@, needle@, j),
        r.as_int() >= 0 ==> match_at(haystack@, needle@, r.as_int()) && (forall|j: int|
            0 <= j < r.as_int() ==> !match_at(haystack@, needle@, j)),
        r.as_int() >= -1,
{
    if needle.len() > haystack.len() {
        let neg_one = Bint::from_u64(1).negate();
        return neg_one;
    }
    let limit = haystack.len() - needle.len();
    let mut i: usize = 0;
    loop
        invariant
            needle@.len() <= haystack@.len(),
            limit == haystack@.len() - needle@.len(),
            i <= limit,
            forall|j: int| 0 <= j < i ==> !match_at(haystack@, needle@, j),
        decreases limit - i,
    {
        if window_matches_bytes(haystack, needle, i) {
            return Bint::from_usize(i);
        }
        if i == limit {
            proof {
                assert forall|j: int| !match_at(haystack@, needle@, j) by {
                    if 0 <= j && j + needle@.len() <= haystack@.len() {
                        assert(j <= limit);
                    }
                }
            }
            return Bint::from_u64(1).negate();
        }
        i += 1;
    }
}


/// Chunks of `|n|` consecutive bytes, the input reversed first for
/// negative `n`.
#[verifier::loop_isolation(false)]
pub(crate) fn chunk_bytes(a: &Vec<u8>, n: &Bint) -> (r: Vec<Vec<u8>>)
    requires
        n.wf(),
        n.as_int() != 0,
    ensures
        byte_views(r@) == chunks_of(
            if n.as_int() < 0 {
                a@.reverse()
            } else {
                a@
            },
            if n.as_int() < 0 {
                -n.as_int()
            } else {
                n.as_int()
            },
        ),
{
    let src = if n.is_negative() {
        reverse_bytes(a)
    } else {
        clone_bytes(a)
    };
    let ghost s0 = src@;
    let ghost k0 = if n.as_int() < 0 { -n.as_int() } else { n.as_int() };
    let k = abs_size(n, src.len());
    proof {
        lemma_chunks_saturate(s0, k as int, k0);
    }
    let mut r: Vec<Vec<u8>> = Vec::new();
    let mut j: usize = 0;
    proof {
        assert(s0.skip(0) =~= s0);
        assert(byte_views(r@) =~= Seq::<Seq<u8>>::empty());
        assert(byte_views(r@) + chunks_of(s0, k as int) =~= chunks_of(s0, k as int));
    }
    while j < src.len()
        invariant
            j <= src.len(),
            k >= 1,
            s0 == src@,
            chunks_of(s0, k as int) == byte_views(r@) + chunks_of(s0.skip(j as int), k as int),
        decreases src.len() - j,
    {
        let ghost prev = r@;
        let end = if src.len() - j <= k {
            src.len()
        } else {
            j + k
        };
        let piece = clone_range_bytes(&src, j, end);
        let ghost pv = piece@;
        r.push(piece);
        proof {
            assert forall|t: int| 0 <= t < prev.len() + 1 implies byte_views(r@)[t] == byte_views(
                prev,
            ).push(pv)[t] by {
                if t < prev.len() {
                    assert(r@[t] == prev[t]);
                } else {
                    assert(r@[t] == r@.last());
                }
            }
            assert(byte_views(r@) =~= byte_views(prev).push(pv));
            let remv = s0.skip(j as int);
            if s0.len() - j <= k {
                assert(pv =~= remv);
                assert(chunks_of(remv, k as int) == seq![remv]);
                assert(s0.skip(end as int) =~= Seq::<u8>::empty());
                assert(byte_views(prev) + seq![remv] =~= byte_views(prev).push(pv) + chunks_of(
                    s0.skip(end as int),
                    k as int,
                ));
            } else {
                assert(pv =~= remv.take(k as int));
                assert(remv.skip(k as int) =~= s0.skip(end as int));
                assert(chunks_of(remv, k as int) == seq![remv.take(k as int)] + chunks_of(
                    s0.skip(end as int),
                    k as int,
                ));
                assert(byte_views(prev) + (seq![pv] + chunks_of(s0.skip(end as int), k as int))
                    =~= byte_views(prev).push(pv) + chunks_of(s0.skip(end as int), k as int));
            }
        }
        j = end;
    }
    proof {
        assert(s0.skip(j as int) =~= Seq::<u8>::empty());
        assert(byte_views(r@) + Seq::<Seq<u8>>::empty() =~= byte_views(r@));
    }
    r
}

/// Every `|n|`-th byte, the input reversed first for negative `n`.
#[verifier::loop_isolation(false)]
pub(crate) fn every_nth_bytes(a: &Vec<u8>, n: &Bint) -> (r: Vec<u8>)
    requires
        n.wf(),
        n.as_int() != 0,
    ensures
        r@ == every_kth(
            if n.as_int() < 0 {
                a@.reverse()
            } else {
                a@
            },
            if n.as_int() < 0 {
                -n.as_int()
            } else {
                n.as_int()
            },
        ),
{
    let src = if n.is_negative() {
        reverse_bytes(a)
    } else {
        clone_bytes(a)
    };
    let ghost s0 = src@;
    let ghost k0 = if n.as_int() < 0 { -n.as_int() } else { n.as_int() };
    let k = abs_size(n, src.len());
    proof {
        lemma_every_kth_saturate(s0, k as int, k0);
    }
    let mut r: Vec<u8> = Vec::new();
    let mut j: usize = 0;
    proof {
        assert(s0.skip(0) =~= s0);
        assert(r@ + every_kth(s0, k as int) =~= every_kth(s0, k as int));
    }
    while j < src.len()
        invariant
            j <= src.len(),
            k >= 1,
            s0 == src@,
            every_kth(s0, k as int) == r@ + every_kth(s0.skip(j as int), k as int),
        decreases src.len() - j,
    {
        let ghost prev = r@;
        r.push(src[j]);
        let next = if src.len() - j <= k {
            src.len()
        } else {
            j + k
        };
        proof {
            let remv = s0.skip(j as int);
            assert(remv[0] == s0[j as int]);
            if s0.len() - j <= k {
                assert(every_kth(remv, k as int) == seq![remv[0]]);
                assert(s0.skip(next as int) =~= Seq::<u8>::empty());
                assert(prev + seq![remv[0]] =~= prev.push(s0[j as int]) + every_kth(
                    s0.skip(next as int),
                    k as int,
                ));
            } else {
                assert(remv.skip(k as int) =~= s0.skip(next as int));
                assert(every_kth(remv, k as int) == seq![remv[0]] + every_kth(
                    s0.skip(next as int),
                    k as int,
                ));
                assert(prev + (seq![remv[0]] + every_kth(s0.skip(next as int), k as int))
                    =~= prev.push(s0[j as int]) + every_kth(s0.skip(next as int), k as int));
            }
        }
        j = next;
    }
    proof {
        assert(s0.skip(j as int) =~= Seq::<u8>::empty());
        assert(r@ + Seq::<u8>::empty() =~= r@);
    }
    r
}


/// Pieces joined with the separator between them.
pub open spec fn join_pieces<T>(ps: Seq<Seq<T>>, sep: Seq<T>) -> Seq<T>
    decreases ps.len(),
{
    if ps.len() == 0 {
        Seq::empty()
    } else if ps.len() == 1 {
        ps[0]
    } else {
        ps[0] + sep + join_pieces(ps.drop_first(), sep)
    }
}

/// Joining an `attach`ed first piece prepends its bytes.
proof fn lemma_join_attach<T>(c: Seq<T>, ps: Seq<Seq<T>>, sep: Seq<T>)
    requires
        ps.len() >= 1,
    ensures
        join_pieces(attach(c, ps), sep) == c + join_pieces(ps, sep),
{
    let a = attach(c, ps);
    assert(a.len() == ps.len());
    assert(a[0] == c + ps[0]);
    if ps.len() == 1 {
        assert(join_pieces(a, sep) == a[0]);
        assert(join_pieces(ps, sep) == ps[0]);
    } else {
        assert(a.drop_first() =~= ps.drop_first());
        assert(join_pieces(a, sep) == a[0] + sep + join_pieces(ps.drop_first(), sep));
        assert(c + (ps[0] + sep + join_pieces(ps.drop_first(), sep)) =~= (c + ps[0]) + sep
            + join_pieces(ps.drop_first(), sep));
    }
}

/// Splitting at a separator and joining the pieces with the same
/// separator restores the original sequence.
pub proof fn lemma_split_join<T>(s: Seq<T>, sep: Seq<T>)
    requires
        sep.len() > 0,
    ensures
        join_pieces(spec_split(s, sep), sep) == s,
    decreases s.len(),
{
    if s.len() == 0 {
        assert(spec_split(s, sep) == seq![s]);
        assert(join_pieces(seq![s], sep) == s);
    } else if match_at(s, sep, 0) {
        let rest = spec_split(s.skip(sep.len() as int), sep);
        lemma_split_nonempty(s.skip(sep.len() as int), sep);
        lemma_split_join(s.skip(sep.len() as int), sep);
        let whole = seq![Seq::<T>::empty()] + rest;
        assert(whole[0] =~= Seq::<T>::empty());
        assert(whole.len() >= 2);
        assert(whole.drop_first() =~= rest);
        assert(join_pieces(whole, sep) == whole[0] + sep + join_pieces(rest, sep));
        assert(whole[0] + sep + s.skip(sep.len() as int) =~= s) by {
            assert(s.subrange(0, sep.len() as int) == sep);
        }
    } else {
        let rest = spec_split(s.drop_first(), sep);
        lemma_split_nonempty(s.drop_first(), sep);
        lemma_split_join(s.drop_first(), sep);
        lemma_join_attach(seq![s[0]], rest, sep);
        assert(seq![s[0]] + s.drop_first() =~= s);
    }
}

} // verus!
