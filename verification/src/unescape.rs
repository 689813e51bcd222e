//! Escape decoding for quoted string literals. The lexeme arrives with
//! its delimiters still in place; the bytes between them are decoded.

use vstd::prelude::*;

verus! {

/// The byte a double-quoted escape stands for.
pub open spec fn esc_byte(b: u8) -> u8 {
    if b == 97 {
        7
    } else if b == 98 {
        8
    } else if b == 116 {
        9
    } else if b == 110 {
        10
    } else if b == 118 {
        11
    } else if b == 102 {
        12
    } else if b == 114 {
        13
    } else if b == 101 {
        27
    } else if b == 115 {
        32
    } else {
        b
    }
}

/// Decoded form of the bytes between the delimiters. In a single-quoted
/// literal only a backslash or a quote drops its backslash; in a
/// double-quoted literal the common escapes are decoded and any other
/// escaped byte stands for itself. A trailing lone backslash vanishes.
pub open spec fn unescape_seq(s: Seq<u8>, single_quoted: bool) -> Seq<u8>
    decreases s.len(),
{
    if s.len() == 0 {
        Seq::empty()
    } else if s[0] == 92 {
        if s.len() == 1 {
            Seq::empty()
        } else {
            let e = if single_quoted {
                if s[1] == 92 || s[1] == 39 {
                    seq![s[1]]
                } else {
                    seq![92u8, s[1]]
                }
            } else {
                seq![esc_byte(s[1])]
            };
            e + unescape_seq(s.skip(2), single_quoted)
        }
    } else {
        seq![s[0]] + unescape_seq(s.skip(1), single_quoted)
    }
}

/// Decode a quoted lexeme: the delimiters are stripped and the escapes
/// between them resolved.
#[verifier::loop_isolation(false)]
pub fn unescape(lexeme: &Vec<u8>, single_quoted: bool) -> (r: Vec<u8>)
    requires
        lexeme@.len() >= 2,
    ensures
        r@ == unescape_seq(lexeme@.subrange(1, lexeme@.len() - 1), single_quoted),
{
    let ghost inner = lexeme@.subrange(1, lexeme@.len() - 1);
    let end = lexeme.len() - 1;
    let mut r: Vec<u8> = Vec::new();
    let mut i: usize = 1;
    proof {
        assert(inner.skip(0) =~= inner);
        assert(r@ + unescape_seq(inner, single_quoted) =~= unescape_seq(inner, single_quoted));
    }
    while i < end
        invariant
            1 <= i <= end,
            end == lexeme@.len() - 1,
            unescape_seq(inner, single_quoted) == r@ + unescape_seq(
                inner.skip(i - 1),
                single_quoted,
            ),
        decreases end - i,
    {
        let ghost rem = inner.skip(i - 1);
        let b = lexeme[i];
        proof {
            assert(rem[0] == inner[i - 1]);
            assert(inner[i - 1] == lexeme@[i as int]);
        }
        if b == 92 {
            if i + 1 < end {
                let c = lexeme[i + 1];
                proof {
                    assert(rem[1] == lexeme@[i + 1]);
                    assert(rem.skip(2) =~= inner.skip(i + 1));
                }
                if single_quoted {
                    if c == 92 || c == 39 {
                        r.push(c);
                    } else {
                        r.push(92);
                        r.push(c);
                    }
                } else {
                    r.push(
                        if c == 97 {
                            7
                        } else if c == 98 {
                            8
                        } else if c == 116 {
                            9
                        } else if c == 110 {
                            10
                        } else if c == 118 {
                            11
                        } else if c == 102 {
                            12
                        } else if c == 114 {
                            13
                        } else if c == 101 {
                            27
                        } else if c == 115 {
                            32
                        } else {
                            c
                        },
                    );
                }
                i += 2;
            } else {
                proof {
                    assert(rem.len() == 1);
                    assert(inner.skip(i as int) =~= Seq::<u8>::empty());
                }
                i += 1;
            }
        } else {
            proof {
                assert(rem.skip(1) =~= inner.skip(i as int));
            }
            r.push(b);
            i += 1;
        }
    }
    proof {
        assert(inner.skip(end - 1) =~= Seq::<u8>::empty());
    }
    r
}

} // verus!
