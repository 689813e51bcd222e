//! The tokenizer: bytes to tokens. Identifiers, quoted strings, integer
//! literals, comments, brace-balanced blocks and single-byte symbols, by
//! greedy left-to-right scanning. Scanning stops at the first position
//! where no token starts; the caller treats a leftover as a parse error.

use vstd::prelude::*;

use crate::util::clone_range_bytes;

verus! {

/// A token. Each carries its lexeme; a block also carries the tokens of
/// its interior, whose bytes are its lexeme (without the braces).
pub enum Gtoken {
    Symbol(Vec<u8>),
    SingleQuotedString(Vec<u8>),
    DoubleQuotedString(Vec<u8>),
    IntLiteral(Vec<u8>),
    Comment(Vec<u8>),
    Block(Vec<Gtoken>, Vec<u8>),
}

/// Abstract view of a token.
#[verifier::ext_equal]
pub ghost enum TokV {
    Symbol(Seq<u8>),
    Sq(Seq<u8>),
    Dq(Seq<u8>),
    IntLit(Seq<u8>),
    Comment(Seq<u8>),
    Block(Seq<TokV>, Seq<u8>),
}

/// View of a token.
pub open spec fn tok_view(t: Gtoken) -> TokV
    decreases t,
    via tok_view_dec
{
    match t {
        Gtoken::Symbol(s) => TokV::Symbol(s@),
        Gtoken::SingleQuotedString(s) => TokV::Sq(s@),
        Gtoken::DoubleQuotedString(s) => TokV::Dq(s@),
        Gtoken::IntLiteral(s) => TokV::IntLit(s@),
        Gtoken::Comment(s) => TokV::Comment(s@),
        Gtoken::Block(ts, src) => TokV::Block(
            Seq::new(
                ts@.len(),
                |i: int|
                    if 0 <= i < ts@.len() {
                        tok_view(ts@[i])
                    } else {
                        TokV::Symbol(Seq::empty())
                    },
            ),
            src@,
        ),
    }
}

#[via_fn]
proof fn tok_view_dec(t: Gtoken) {
    if t is Block {
        let m = t->Block_0;
        assert forall|i: int| 0 <= i < m@.len() implies decreases_to!(t => m@[i]) by {
            assert(decreases_to!(t => t->Block_0));
            assert(decreases_to!(m => m@));
            assert(decreases_to!(m@ => m@[i]));
        }
    }
}

impl View for Gtoken {
    type V = TokV;

    open spec fn view(&self) -> TokV {
        tok_view(*self)
    }
}

/// Lexeme of a token view.
pub open spec fn lexeme_v(t: TokV) -> Seq<u8> {
    match t {
        TokV::Symbol(s) => s,
        TokV::Sq(s) => s,
        TokV::Dq(s) => s,
        TokV::IntLit(s) => s,
        TokV::Comment(s) => s,
        TokV::Block(_, s) => s,
    }
}

impl Gtoken {
    /// The source bytes of the token; for a block, its interior.
    pub fn lexeme(&self) -> (r: &Vec<u8>)
        ensures
            r@ == lexeme_v(self@),
    {
        match self {
            Gtoken::Symbol(s) => s,
            Gtoken::SingleQuotedString(s) => s,
            Gtoken::DoubleQuotedString(s) => s,
            Gtoken::IntLiteral(s) => s,
            Gtoken::Comment(s) => s,
            Gtoken::Block(_, s) => s,
        }
    }
}

/// An ASCII letter.
pub open spec fn is_alpha(b: u8) -> bool {
    (65 <= b <= 90) || (97 <= b <= 122)
}

/// An ASCII digit.
pub open spec fn is_digit(b: u8) -> bool {
    48 <= b <= 57
}

/// A byte that may continue an identifier.
pub open spec fn is_word(b: u8) -> bool {
    is_alpha(b) || is_digit(b) || b == 95
}

/// End of the identifier run starting at `i`.
pub open spec fn scan_word(s: Seq<u8>, i: int) -> int
    decreases s.len() - i,
{
    if 0 <= i < s.len() && is_word(s[i]) {
        scan_word(s, i + 1)
    } else {
        i
    }
}

/// End of the digit run starting at `i`.
pub open spec fn scan_digits(s: Seq<u8>, i: int) -> int
    decreases s.len() - i,
{
    if 0 <= i < s.len() && is_digit(s[i]) {
        scan_digits(s, i + 1)
    } else {
        i
    }
}

/// End of the comment line starting at `i`: everything up to a carriage
/// return or newline.
pub open spec fn scan_line(s: Seq<u8>, i: int) -> int
    decreases s.len() - i,
{
    if 0 <= i < s.len() && s[i] != 13 && s[i] != 10 {
        scan_line(s, i + 1)
    } else {
        i
    }
}

/// Position after the closing delimiter of a quoted literal whose body
/// starts at `i`; a backslash escapes the next byte. `None` when the
/// literal never closes.
pub open spec fn scan_string(s: Seq<u8>, i: int, delim: u8) -> Option<int>
    decreases s.len() - i,
{
    if i < 0 || i >= s.len() {
        None
    } else if s[i] == delim {
        Some(i + 1)
    } else if s[i] == 92 && i + 1 < s.len() {
        scan_string(s, i + 2, delim)
    } else {
        scan_string(s, i + 1, delim)
    }
}

/// The token starting at `pos`, with the position after it: identifiers
/// first, then quoted strings, integer literals, comments, blocks, and
/// last any single byte that is not a brace or a quote.
pub open spec fn spec_token(s: Seq<u8>, pos: int) -> Option<(TokV, int)>
    decreases s.len() - pos, 1int,
{
    if pos < 0 || pos >= s.len() {
        None
    } else {
        let b = s[pos];
        if is_alpha(b) || b == 95 {
            let end = scan_word(s, pos + 1);
            Some((TokV::Symbol(s.subrange(pos, end)), end))
        } else if b == 39 {
            match scan_string(s, pos + 1, 39) {
                Some(end) => Some((TokV::Sq(s.subrange(pos, end)), end)),
                None => None,
            }
        } else if b == 34 {
            match scan_string(s, pos + 1, 34) {
                Some(end) => Some((TokV::Dq(s.subrange(pos, end)), end)),
                None => None,
            }
        } else if is_digit(b) {
            let end = scan_digits(s, pos + 1);
            Some((TokV::IntLit(s.subrange(pos, end)), end))
        } else if b == 45 && pos + 1 < s.len() && is_digit(s[pos + 1]) {
            let end = scan_digits(s, pos + 2);
            Some((TokV::IntLit(s.subrange(pos, end)), end))
        } else if b == 35 {
            let end = scan_line(s, pos + 1);
            Some((TokV::Comment(s.subrange(pos, end)), end))
        } else if b == 123 {
            let r = spec_code(s, pos + 1);
            if r.1 < s.len() && s[r.1] == 125 {
                Some((TokV::Block(r.0, s.subrange(pos + 1, r.1)), r.1 + 1))
            } else {
                None
            }
        } else if b == 125 || b == 34 || b == 39 {
            None
        } else {
            Some((TokV::Symbol(seq![b]), pos + 1))
        }
    }
}

/// All tokens from `pos` on, with the position where scanning stops.
pub open spec fn spec_code(s: Seq<u8>, pos: int) -> (Seq<TokV>, int)
    decreases s.len() - pos, 2int,
{
    if pos < 0 || pos > s.len() {
        (Seq::empty(), pos)
    } else {
        match spec_token(s, pos) {
            None => (Seq::empty(), pos),
            Some((t, p)) => if pos < p <= s.len() {
                let r = spec_code(s, p);
                (seq![t] + r.0, r.1)
            } else {
                (seq![t], p)
            },
        }
    }
}

/// Every scanner moves forward and stays within the input.
pub proof fn lemma_scan_bounds(s: Seq<u8>, i: int)
    requires
        0 <= i <= s.len(),
    ensures
        i <= scan_word(s, i) <= s.len(),
        i <= scan_digits(s, i) <= s.len(),
        i <= scan_line(s, i) <= s.len(),
        match scan_string(s, i, 39) {
            Some(e) => i < e <= s.len(),
            None => true,
        },
        match scan_string(s, i, 34) {
            Some(e) => i < e <= s.len(),
            None => true,
        },
    decreases s.len() - i,
{
    if i < s.len() {
        lemma_scan_bounds(s, i + 1);
        if i + 2 <= s.len() {
            lemma_scan_bounds(s, i + 2);
        }
    }
}

/// A token ends after the position it starts at, within the input.
pub proof fn lemma_token_advances(s: Seq<u8>, pos: int)
    requires
        0 <= pos,
    ensures
        match spec_token(s, pos) {
            Some((t, p)) => pos < p <= s.len(),
            None => true,
        },
    decreases s.len() - pos, 3int,
{
    if pos < s.len() {
        lemma_scan_bounds(s, pos + 1);
        if pos + 2 <= s.len() {
            lemma_scan_bounds(s, pos + 2);
        }
        if s[pos] == 123 {
            lemma_code_bounds(s, pos + 1);
        }
    }
}

/// Scanning tokens never runs past the input.
pub proof fn lemma_code_bounds(s: Seq<u8>, pos: int)
    requires
        0 <= pos <= s.len(),
    ensures
        pos <= spec_code(s, pos).1 <= s.len(),
    decreases s.len() - pos, 4int,
{
    lemma_token_advances(s, pos);
    match spec_token(s, pos) {
        Some((t, p)) => {
            if pos < p <= s.len() {
                lemma_code_bounds(s, p);
            }
        },
        None => {},
    }
}


/// Views of a sequence of tokens.
pub open spec fn toks_views(ts: Seq<Gtoken>) -> Seq<TokV> {
    Seq::new(
        ts.len(),
        |i: int|
            if 0 <= i < ts.len() {
                ts[i]@
            } else {
                TokV::Symbol(Seq::empty())
            },
    )
}

/// One more token under `toks_views`.
proof fn lemma_toks_views_push(s: Seq<Gtoken>, x: Gtoken)
    ensures
        toks_views(s.push(x)) == toks_views(s).push(x@),
{
    assert forall|k: int| 0 <= k < s.len() + 1 implies toks_views(s.push(x))[k] == toks_views(
        s,
    ).push(x@)[k] by {
        if k < s.len() {
            assert(s.push(x)[k] == s[k]);
        } else {
            assert(s.push(x)[k] == x);
        }
    }
    assert(toks_views(s.push(x)) =~= toks_views(s).push(x@));
}

/// A letter or an underscore.
fn is_head_exec(b: u8) -> (r: bool)
    ensures
        r == (is_alpha(b) || b == 95),
{
    (65 <= b && b <= 90) || (97 <= b && b <= 122) || b == 95
}

/// A byte that may continue an identifier.
fn is_word_exec(b: u8) -> (r: bool)
    ensures
        r == is_word(b),
{
    (65 <= b && b <= 90) || (97 <= b && b <= 122) || (48 <= b && b <= 57) || b == 95
}

/// End of the identifier run starting at `start`.
#[verifier::loop_isolation(false)]
fn scan_word_exec(s: &Vec<u8>, start: usize) -> (r: usize)
    requires
        start <= s@.len(),
    ensures
        r == scan_word(s@, start as int),
        start <= r <= s@.len(),
{
    let mut j = start;
    while j < s.len() && is_word_exec(s[j])
        invariant
            start <= j <= s@.len(),
            scan_word(s@, start as int) == scan_word(s@, j as int),
        decreases s@.len() - j,
    {
        j += 1;
    }
    j
}

/// End of the digit run starting at `start`.
#[verifier::loop_isolation(false)]
fn scan_digits_exec(s: &Vec<u8>, start: usize) -> (r: usize)
    requires
        start <= s@.len(),
    ensures
        r == scan_digits(s@, start as int),
        start <= r <= s@.len(),
{
    let mut j = start;
    while j < s.len() && 48 <= s[j] && s[j] <= 57
        invariant
            start <= j <= s@.len(),
            scan_digits(s@, start as int) == scan_digits(s@, j as int),
        decreases s@.len() - j,
    {
        j += 1;
    }
    j
}

/// End of the comment line starting at `start`.
#[verifier::loop_isolation(false)]
fn scan_line_exec(s: &Vec<u8>, start: usize) -> (r: usize)
    requires
        start <= s@.len(),
    ensures
        r == scan_line(s@, start as int),
        start <= r <= s@.len(),
{
    let mut j = start;
    while j < s.len() && s[j] != 13 && s[j] != 10
        invariant
            start <= j <= s@.len(),
            scan_line(s@, start as int) == scan_line(s@, j as int),
        decreases s@.len() - j,
    {
        j += 1;
    }
    j
}

/// Position after the closing delimiter, scanning from `start`.
#[verifier::loop_isolation(false)]
fn scan_string_exec(s: &Vec<u8>, start: usize, delim: u8) -> (r: Option<usize>)
    requires
        start <= s@.len(),
    ensures
        match r {
            Some(e) => scan_string(s@, start as int, delim) == Some(e as int) && start < e
                <= s@.len(),
            None => scan_string(s@, start as int, delim) is None,
        },
{
    let mut j = start;
    loop
        invariant
            start <= j <= s@.len(),
            scan_string(s@, start as int, delim) == scan_string(s@, j as int, delim),
        decreases s@.len() - j,
    {
        if j >= s.len() {
            return None;
        }
        if s[j] == delim {
            return Some(j + 1);
        }
        if s[j] == 92 && j + 1 < s.len() {
            j += 2;
        } else {
            j += 1;
        }
    }
}

/// The token starting at `pos`, or nothing where no token starts.
pub fn parse_token(i: &Vec<u8>, pos: usize) -> (r: Option<(Gtoken, usize)>)
    requires
        pos <= i@.len(),
    ensures
        match r {
            Some(tp) => spec_token(i@, pos as int) == Some((tp.0@, tp.1 as int)) && pos < tp.1
                <= i@.len(),
            None => spec_token(i@, pos as int) is None,
        },
    decreases i@.len() - pos, 1int,
{
    proof {
        lemma_token_advances(i@, pos as int);
    }
    if pos >= i.len() {
        return None;
    }
    let b = i[pos];
    if is_head_exec(b) {
        let end = scan_word_exec(i, pos + 1);
        let lex = clone_range_bytes(i, pos, end);
        Some((Gtoken::Symbol(lex), end))
    } else if b == 39 {
        match scan_string_exec(i, pos + 1, 39) {
            Some(end) => {
                let lex = clone_range_bytes(i, pos, end);
                Some((Gtoken::SingleQuotedString(lex), end))
            },
            None => None,
        }
    } else if b == 34 {
        match scan_string_exec(i, pos + 1, 34) {
            Some(end) => {
                let lex = clone_range_bytes(i, pos, end);
                Some((Gtoken::DoubleQuotedString(lex), end))
            },
            None => None,
        }
    } else if 48 <= b && b <= 57 {
        let end = scan_digits_exec(i, pos + 1);
        let lex = clone_range_bytes(i, pos, end);
        Some((Gtoken::IntLiteral(lex), end))
    } else if b == 45 && pos + 1 < i.len() && 48 <= i[pos + 1] && i[pos + 1] <= 57 {
        let end = scan_digits_exec(i, pos + 2);
        let lex = clone_range_bytes(i, pos, end);
        Some((Gtoken::IntLiteral(lex), end))
    } else if b == 35 {
        let end = scan_line_exec(i, pos + 1);
        let lex = clone_range_bytes(i, pos, end);
        Some((Gtoken::Comment(lex), end))
    } else if b == 123 {
        let (ts, p) = parse_tokens(i, pos + 1);
        if p < i.len() && i[p] == 125 {
            let src = clone_range_bytes(i, pos + 1, p);
            let t = Gtoken::Block(ts, src);
            proof {
                let sv = spec_code(i@, pos + 1);
                assert(t@->Block_0 =~= sv.0);
                assert(t@ == TokV::Block(t@->Block_0, t@->Block_1));
            }
            Some((t, p + 1))
        } else {
            None
        }
    } else if b == 125 {
        None
    } else {
        let mut lex: Vec<u8> = Vec::new();
        lex.push(b);
        proof {
            assert(lex@ =~= seq![b]);
        }
        Some((Gtoken::Symbol(lex), pos + 1))
    }
}

/// All tokens from `pos` on, and the position where scanning stopped.
#[verifier::loop_isolation(false)]
pub fn parse_tokens(i: &Vec<u8>, pos: usize) -> (r: (Vec<Gtoken>, usize))
    requires
        pos <= i@.len(),
    ensures
        toks_views(r.0@) == spec_code(i@, pos as int).0,
        r.1 == spec_code(i@, pos as int).1,
        pos <= r.1 <= i@.len(),
    decreases i@.len() - pos, 2int,
{
    let mut toks: Vec<Gtoken> = Vec::new();
    let mut cur = pos;
    proof {
        assert(toks_views(toks@) =~= Seq::<TokV>::empty());
    }
    loop
        invariant
            pos <= cur <= i@.len(),
            spec_code(i@, pos as int).0 == toks_views(toks@) + spec_code(i@, cur as int).0,
            spec_code(i@, pos as int).1 == spec_code(i@, cur as int).1,
        decreases i@.len() - cur,
    {
        proof {
            lemma_token_advances(i@, cur as int);
        }
        match parse_token(i, cur) {
            Some((t, p)) => {
                let ghost prev = toks@;
                toks.push(t);
                proof {
                    lemma_toks_views_push(prev, toks@.last());
                    assert(toks@ =~= prev.push(toks@.last()));
                    let sc = spec_code(i@, cur as int);
                    let scn = spec_code(i@, p as int);
                    assert(sc.0 == seq![toks@.last()@] + scn.0);
                    assert(toks_views(toks@) + scn.0 =~= (toks_views(prev) + sc.0));
                }
                cur = p;
            },
            None => {
                proof {
                    assert(spec_code(i@, cur as int).0 =~= Seq::<TokV>::empty());
                    assert(toks_views(toks@) + Seq::<TokV>::empty() =~= toks_views(toks@));
                }
                return (toks, cur);
            },
        }
    }
}

/// Tokenize from the start; the second component is where scanning
/// stopped, the whole input length on full success.
pub fn parse_code(i: &Vec<u8>) -> (r: (Vec<Gtoken>, usize))
    ensures
        toks_views(r.0@) == spec_code(i@, 0).0,
        r.1 == spec_code(i@, 0).1,
        r.1 <= i@.len(),
{
    parse_tokens(i, 0)
}

} // verus!
