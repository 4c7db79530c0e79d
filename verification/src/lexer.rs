use vstd::prelude::*;
use vstd::utf8::*;
use vstd::string::*;
use crate::token::{Type, TokenData, TokenDataV, Token, TokenV};
use crate::text::{substring, lemma_ascii_boundaries};

verus! {

/// Space, tab, line feed or carriage return.
pub open spec fn is_ws(c: u8) -> bool {
    c == 32 || c == 9 || c == 10 || c == 13
}

/// An ASCII decimal digit.
pub open spec fn is_digit(c: u8) -> bool {
    48 <= c <= 57
}

/// An ASCII letter.
pub open spec fn is_alpha(c: u8) -> bool {
    (65 <= c <= 90) || (97 <= c <= 122)
}

/// A byte that may start an identifier: a letter or `_`.
pub open spec fn is_ident_start(c: u8) -> bool {
    is_alpha(c) || c == 95
}

/// A byte that may continue an identifier: a letter, a digit or `_`.
pub open spec fn is_ident_char(c: u8) -> bool {
    is_alpha(c) || is_digit(c) || c == 95
}

/// A byte of an integer literal: a digit or `_`.
pub open spec fn is_num_char(c: u8) -> bool {
    is_digit(c) || c == 95
}

/// The first position at or after `i` that is not white space.
pub open spec fn skip_ws(s: Seq<u8>, i: int) -> int
    decreases s.len() - i,
{
    if 0 <= i < s.len() && is_ws(s[i]) {
        skip_ws(s, i + 1)
    } else {
        i
    }
}

/// The end of the run of identifier bytes that starts at `i`.
pub open spec fn ident_end(s: Seq<u8>, i: int) -> int
    decreases s.len() - i,
{
    if 0 <= i < s.len() && is_ident_char(s[i]) {
        ident_end(s, i + 1)
    } else {
        i
    }
}

/// The end of the run of digits and underscores that starts at `i`.
pub open spec fn num_end(s: Seq<u8>, i: int) -> int
    decreases s.len() - i,
{
    if 0 <= i < s.len() && is_num_char(s[i]) {
        num_end(s, i + 1)
    } else {
        i
    }
}

/// The first double quote at or after `i`, or the length when there is none.
pub open spec fn quote_end(s: Seq<u8>, i: int) -> int
    decreases s.len() - i,
{
    if 0 <= i < s.len() && s[i] != 34 {
        quote_end(s, i + 1)
    } else {
        i
    }
}

/// The value of the decimal digits in `s[i..e]`, underscores skipped.
pub open spec fn num_value(s: Seq<u8>, i: int, e: int) -> int
    decreases e - i,
{
    if e <= i {
        0
    } else if s[e - 1] == 95 {
        num_value(s, i, e - 1)
    } else {
        num_value(s, i, e - 1) * 10 + (s[e - 1] - 48)
    }
}

/// `e` with the underscores at the end of `s[i..e]` taken off.
pub open spec fn strip_us(s: Seq<u8>, i: int, e: int) -> int
    decreases e - i,
{
    if e > i && s[e - 1] == 95 {
        strip_us(s, i, e - 1)
    } else {
        e
    }
}

/// The start of the run of digits in `s[i..k]` that ends at `k`.
pub open spec fn run_start(s: Seq<u8>, i: int, k: int) -> int
    decreases k - i,
{
    if k > i && is_digit(s[k - 1]) {
        run_start(s, i, k - 1)
    } else {
        k
    }
}

/// `s` holds the bytes `l` at position `q`.
pub open spec fn lit_at(s: Seq<u8>, q: int, l: Seq<u8>) -> bool {
    0 <= q && q + l.len() <= s.len() && s.subrange(q, q + l.len()) == l
}

/// The characters whose UTF-8 encoding is `s[a..b]`.
pub open spec fn chars(s: Seq<u8>, a: int, b: int) -> Seq<char> {
    decode_utf8(s.subrange(a, b))
}

/// A token of `n` bytes at `q` and the position after it.
pub open spec fn fixed(q: int, n: int, d: TokenDataV) -> Option<(TokenV, int)> {
    Some((TokenV { start: q, end: q + n, data: d }, q + n))
}

/// The token that starts at `q`, where no white space is, and the position after it, trying
/// in order: the keywords `let func return if`, `true false`, the types `i64 void str`, an
/// integer, `== != && ||`, `= ->`, `!`, `/ * + -`, `( ) { } , :`, a string literal and an
/// identifier. An integer is a digit followed by digits and underscores whose value fits in
/// `i64`; its span is its first byte and the length of its last run of digits. A string literal
/// spans the bytes between its quotes.
pub open spec fn lex_token(s: Seq<u8>, q: int) -> Option<(TokenV, int)> {
    if lit_at(s, q, seq![108u8, 101, 116]) {
        fixed(q, 3, TokenDataV::K_LET)
    } else if lit_at(s, q, seq![102u8, 117, 110, 99]) {
        fixed(q, 4, TokenDataV::K_FUNC)
    } else if lit_at(s, q, seq![114u8, 101, 116, 117, 114, 110]) {
        fixed(q, 6, TokenDataV::K_RETURN)
    } else if lit_at(s, q, seq![105u8, 102]) {
        fixed(q, 2, TokenDataV::K_IF)
    } else if lit_at(s, q, seq![116u8, 114, 117, 101]) {
        fixed(q, 4, TokenDataV::BOOL(true))
    } else if lit_at(s, q, seq![102u8, 97, 108, 115, 101]) {
        fixed(q, 5, TokenDataV::BOOL(false))
    } else if lit_at(s, q, seq![105u8, 54, 52]) {
        fixed(q, 3, TokenDataV::TYPE(Type::Int))
    } else if lit_at(s, q, seq![118u8, 111, 105, 100]) {
        fixed(q, 4, TokenDataV::TYPE(Type::Void))
    } else if lit_at(s, q, seq![115u8, 116, 114]) {
        fixed(q, 3, TokenDataV::TYPE(Type::String))
    } else if 0 <= q < s.len() && is_digit(s[q]) {
        let e = num_end(s, q);
        let v = num_value(s, q, e);
        if v <= i64::MAX {
            let k = strip_us(s, q, e);
            Some((TokenV { start: q, end: q + (k - run_start(s, q, k)), data: TokenDataV::INT(v) }, e))
        } else {
            None
        }
    } else if lit_at(s, q, seq![61u8, 61]) {
        fixed(q, 2, TokenDataV::OP1_b(seq!['=', '=']))
    } else if lit_at(s, q, seq![33u8, 61]) {
        fixed(q, 2, TokenDataV::OP1_b(seq!['!', '=']))
    } else if lit_at(s, q, seq![38u8, 38]) {
        fixed(q, 2, TokenDataV::OP2_b(seq!['&', '&']))
    } else if lit_at(s, q, seq![124u8, 124]) {
        fixed(q, 2, TokenDataV::OP2_b(seq!['|', '|']))
    } else if lit_at(s, q, seq![61u8]) {
        fixed(q, 1, TokenDataV::EQ_1)
    } else if lit_at(s, q, seq![45u8, 62]) {
        fixed(q, 2, TokenDataV::ARROW)
    } else if lit_at(s, q, seq![33u8]) {
        fixed(q, 1, TokenDataV::OP_UNARY(seq!['!']))
    } else if lit_at(s, q, seq![42u8]) {
        fixed(q, 1, TokenDataV::OP4_n(seq!['*']))
    } else if lit_at(s, q, seq![47u8]) {
        fixed(q, 1, TokenDataV::OP4_n(seq!['/']))
    } else if lit_at(s, q, seq![43u8]) {
        fixed(q, 1, TokenDataV::OP3_n(seq!['+']))
    } else if lit_at(s, q, seq![45u8]) {
        fixed(q, 1, TokenDataV::OP3_n(seq!['-']))
    } else if lit_at(s, q, seq![40u8]) {
        fixed(q, 1, TokenDataV::PAREN_L)
    } else if lit_at(s, q, seq![41u8]) {
        fixed(q, 1, TokenDataV::PAREN_R)
    } else if lit_at(s, q, seq![123u8]) {
        fixed(q, 1, TokenDataV::CURLY_L)
    } else if lit_at(s, q, seq![125u8]) {
        fixed(q, 1, TokenDataV::CURLY_R)
    } else if lit_at(s, q, seq![44u8]) {
        fixed(q, 1, TokenDataV::COMMA)
    } else if lit_at(s, q, seq![58u8]) {
        fixed(q, 1, TokenDataV::COLON)
    } else if lit_at(s, q, seq![34u8]) {
        let c = quote_end(s, q + 1);
        if c < s.len() {
            Some((TokenV { start: q + 1, end: c, data: TokenDataV::STR_LIT(chars(s, q + 1, c)) }, c + 1))
        } else {
            None
        }
    } else if 0 <= q < s.len() && is_ident_start(s[q]) {
        let e = ident_end(s, q);
        Some((TokenV { start: q, end: e, data: TokenDataV::IDENT(chars(s, q, e)) }, e))
    } else {
        None
    }
}

/// The tokens from position `p`, which is past any white space, to the end: `Err` with the
/// position where no token starts.
pub open spec fn lex_from(s: Seq<u8>, p: int) -> Result<Seq<TokenV>, int>
    decreases s.len() - p,
{
    if p < 0 || p >= s.len() {
        Ok(seq![])
    } else {
        match lex_token(s, p) {
            None => Err(p),
            Some((t, n)) => {
                if n <= p || n > s.len() {
                    Err(p)
                } else {
                    proof {
                        lemma_skip_ws(s, n);
                    }
                    match lex_from(s, skip_ws(s, n)) {
                        Ok(r) => Ok(seq![t] + r),
                        Err(e) => Err(e),
                    }
                }
            },
        }
    }
}

/// The token stream of a source: its tokens, white space between them skipped, followed by an
/// `EOF` token at the end. `Err` with a position where no token starts, or with the length when
/// the source holds no token at all.
pub open spec fn lex(s: Seq<u8>) -> Result<Seq<TokenV>, int> {
    let p = skip_ws(s, 0);
    if p >= s.len() {
        Err(p)
    } else {
        match lex_from(s, p) {
            Ok(ts) => Ok(ts.push(TokenV { start: s.len() as int, end: s.len() as int, data: TokenDataV::EOF })),
            Err(e) => Err(e),
        }
    }
}

/// Skipping white space from `i` stops between `i` and the end, at a byte that is no white space.
pub proof fn lemma_skip_ws(s: Seq<u8>, i: int)
    requires
        0 <= i <= s.len(),
    ensures
        i <= skip_ws(s, i) <= s.len(),
        skip_ws(s, i) < s.len() ==> !is_ws(s[skip_ws(s, i)]),
    decreases s.len() - i,
{
    if i < s.len() && is_ws(s[i]) {
        lemma_skip_ws(s, i + 1);
    }
}

/// The run of integer bytes from `i` ends between `i` and the end.
proof fn lemma_num_end(s: Seq<u8>, i: int)
    requires
        0 <= i <= s.len(),
    ensures
        i <= num_end(s, i) <= s.len(),
    decreases s.len() - i,
{
    if i < s.len() && is_num_char(s[i]) {
        lemma_num_end(s, i + 1);
    }
}

/// The text of a string literal from `i` ends between `i` and the end.
proof fn lemma_quote_end(s: Seq<u8>, i: int)
    requires
        0 <= i <= s.len(),
    ensures
        i <= quote_end(s, i) <= s.len(),
    decreases s.len() - i,
{
    if i < s.len() && s[i] != 34 {
        lemma_quote_end(s, i + 1);
    }
}

/// Trailing `_` stripped from `s[i..e]` leaves at least the first byte where it is a digit.
proof fn lemma_strip_us(s: Seq<u8>, i: int, e: int)
    requires
        0 <= i < e <= s.len(),
        is_digit(s[i]),
    ensures
        i < strip_us(s, i, e) <= e,
    decreases e - i,
{
    if e > i && s[e - 1] == 95 {
        lemma_strip_us(s, i, e - 1);
    }
}

/// The last run of digits before `k` starts between `i` and `k`.
proof fn lemma_run_start(s: Seq<u8>, i: int, k: int)
    requires
        i <= k,
    ensures
        i <= run_start(s, i, k) <= k,
    decreases k - i,
{
    if k > i && is_digit(s[k - 1]) {
        lemma_run_start(s, i, k - 1);
    }
}

/// A token read at `q` starts at or after `q`, before the position after it, and ends at or
/// before that position.
proof fn lemma_lex_token_span(s: Seq<u8>, q: int)
    requires
        0 <= q < s.len(),
        lex_token(s, q) is Some,
    ensures
        q <= lex_token(s, q).unwrap().0.start,
        lex_token(s, q).unwrap().0.start <= lex_token(s, q).unwrap().0.end,
        lex_token(s, q).unwrap().0.end <= lex_token(s, q).unwrap().1,
        lex_token(s, q).unwrap().0.start < lex_token(s, q).unwrap().1,
        lex_token(s, q).unwrap().1 <= s.len(),
{
    if is_digit(s[q]) {
        lemma_num_end(s, q + 1);
        let e = num_end(s, q);
        assert(e == num_end(s, q + 1));
        lemma_strip_us(s, q, e);
        let k = strip_us(s, q, e);
        lemma_run_start(s, q, k);
    }
    if lit_at(s, q, seq![34u8]) {
        lemma_quote_end(s, q + 1);
    }
    if is_ident_start(s[q]) {
        lemma_ident_end(s, q + 1);
        assert(ident_end(s, q) == ident_end(s, q + 1));
    }
}

/// The tokens read from `p` lie in order within the source, each starting before the next
/// does and ending at or before the next starts.
proof fn lemma_lex_from_order(s: Seq<u8>, p: int)
    requires
        0 <= p,
        lex_from(s, p) is Ok,
    ensures
        forall|i: int| 0 <= i < lex_from(s, p)->Ok_0.len() ==> {
            let t = #[trigger] lex_from(s, p)->Ok_0[i];
            p <= t.start <= t.end <= s.len() && t.start < s.len()
        },
        forall|i: int| 0 <= i < lex_from(s, p)->Ok_0.len() - 1 ==>
            #[trigger] lex_from(s, p)->Ok_0[i].end <= lex_from(s, p)->Ok_0[i + 1].start
            && lex_from(s, p)->Ok_0[i].start < lex_from(s, p)->Ok_0[i + 1].start,
    decreases s.len() - p,
{
    if p < s.len() {
        lemma_lex_token_span(s, p);
        let (t, n) = lex_token(s, p).unwrap();
        lemma_skip_ws(s, n);
        let q = skip_ws(s, n);
        lemma_lex_from_order(s, q);
        let r = lex_from(s, q)->Ok_0;
        let all = lex_from(s, p)->Ok_0;
        assert(all == seq![t] + r);
        assert forall|i: int| 0 <= i < all.len() implies {
            let u = #[trigger] all[i];
            p <= u.start <= u.end <= s.len() && u.start < s.len()
        } by {
            if i > 0 {
                assert(all[i] == r[i - 1]);
            }
        }
        assert forall|i: int| 0 <= i < all.len() - 1 implies
            #[trigger] all[i].end <= all[i + 1].start && all[i].start < all[i + 1].start by {
            assert(all[i + 1] == r[i]);
            if i > 0 {
                assert(all[i] == r[i - 1]);
            }
        }
    }
}

/// The token stream of a source that lexes holds at least one token and then the `EOF` token
/// at the end of the source; each token starts before the next one does, ends at or before
/// the next one starts, and lies within the source.
pub proof fn lex_tokens_in_order(s: Seq<u8>)
    requires
        lex(s) is Ok,
    ensures
        lex(s)->Ok_0.len() >= 2,
        lex(s)->Ok_0.last() == (TokenV { start: s.len() as int, end: s.len() as int, data: TokenDataV::EOF }),
        forall|i: int| 0 <= i < lex(s)->Ok_0.len() ==>
            0 <= #[trigger] lex(s)->Ok_0[i].start <= lex(s)->Ok_0[i].end <= s.len(),
        forall|i: int| 0 <= i < lex(s)->Ok_0.len() - 1 ==>
            #[trigger] lex(s)->Ok_0[i].end <= lex(s)->Ok_0[i + 1].start
            && lex(s)->Ok_0[i].start < lex(s)->Ok_0[i + 1].start,
{
    let p = skip_ws(s, 0);
    lemma_skip_ws(s, 0);
    lemma_lex_from_order(s, p);
    let r = lex_from(s, p)->Ok_0;
    let ts = lex(s)->Ok_0;
    lemma_lex_token_span(s, p);
    assert(r.len() >= 1);
    assert(ts == r.push(TokenV { start: s.len() as int, end: s.len() as int, data: TokenDataV::EOF }));
    assert forall|i: int| 0 <= i < ts.len() implies 0 <= #[trigger] ts[i].start <= ts[i].end <= s.len() by {
        if i < r.len() {
            assert(ts[i] == r[i]);
        }
    }
    assert forall|i: int| 0 <= i < ts.len() - 1 implies
        #[trigger] ts[i].end <= ts[i + 1].start && ts[i].start < ts[i + 1].start by {
        assert(ts[i] == r[i]);
        if i + 1 < r.len() {
            assert(ts[i + 1] == r[i + 1]);
        }
    }
}

/// A token matches the source text of its span: an identifier and a string literal hold the
/// characters between its start and end, an operator holds exactly its source text (the
/// token read from `!=` holds `!=`), and a keyword, boolean, `=`, `->`, bracket or separator
/// spans exactly its spelling.
pub open spec fn text_matches(s: Seq<u8>, t: TokenV) -> bool {
    match t.data {
        TokenDataV::IDENT(x) => x == chars(s, t.start, t.end),
        TokenDataV::STR_LIT(x) => x == chars(s, t.start, t.end),
        TokenDataV::OP1_b(x) => ascii_text(x, s.subrange(t.start, t.end)),
        TokenDataV::OP2_b(x) => ascii_text(x, s.subrange(t.start, t.end)),
        TokenDataV::OP3_n(x) => ascii_text(x, s.subrange(t.start, t.end)),
        TokenDataV::OP4_n(x) => ascii_text(x, s.subrange(t.start, t.end)),
        TokenDataV::OP_UNARY(x) => ascii_text(x, s.subrange(t.start, t.end)),
        TokenDataV::K_LET => s.subrange(t.start, t.end) == seq!['l' as u8, 'e' as u8, 't' as u8],
        TokenDataV::K_FUNC => s.subrange(t.start, t.end) == seq!['f' as u8, 'u' as u8, 'n' as u8, 'c' as u8],
        TokenDataV::K_RETURN => s.subrange(t.start, t.end) == seq!['r' as u8, 'e' as u8, 't' as u8, 'u' as u8, 'r' as u8, 'n' as u8],
        TokenDataV::K_IF => s.subrange(t.start, t.end) == seq!['i' as u8, 'f' as u8],
        TokenDataV::BOOL(b) => s.subrange(t.start, t.end) == if b { seq!['t' as u8, 'r' as u8, 'u' as u8, 'e' as u8] } else { seq!['f' as u8, 'a' as u8, 'l' as u8, 's' as u8, 'e' as u8] },
        TokenDataV::EQ_1 => s.subrange(t.start, t.end) == seq!['=' as u8],
        TokenDataV::ARROW => s.subrange(t.start, t.end) == seq!['-' as u8, '>' as u8],
        TokenDataV::PAREN_L => s.subrange(t.start, t.end) == seq!['(' as u8],
        TokenDataV::PAREN_R => s.subrange(t.start, t.end) == seq![')' as u8],
        TokenDataV::CURLY_L => s.subrange(t.start, t.end) == seq!['{' as u8],
        TokenDataV::CURLY_R => s.subrange(t.start, t.end) == seq!['}' as u8],
        TokenDataV::COMMA => s.subrange(t.start, t.end) == seq![',' as u8],
        TokenDataV::COLON => s.subrange(t.start, t.end) == seq![':' as u8],
        _ => true,
    }
}

/// The characters `x` are the bytes `b`, one for one.
pub open spec fn ascii_text(x: Seq<char>, b: Seq<u8>) -> bool {
    &&& x.len() == b.len()
    &&& forall|i: int| 0 <= i < x.len() ==> (#[trigger] x[i]) as u32 == b[i] as u32
}

/// The token read at `q` carries the source text of its span.
proof fn lemma_lex_token_text(s: Seq<u8>, q: int)
    requires
        0 <= q < s.len(),
        lex_token(s, q) is Some,
    ensures
        text_matches(s, lex_token(s, q).unwrap().0),
{
    let t = lex_token(s, q).unwrap().0;
    let b = s.subrange(t.start, t.end);
    match t.data {
        TokenDataV::OP1_b(x) => {
            assert forall|i: int| 0 <= i < x.len() implies (#[trigger] x[i]) as u32 == b[i] as u32 by {
                assert(b[i] == s[q + i]);
            }
        },
        TokenDataV::OP2_b(x) => {
            assert forall|i: int| 0 <= i < x.len() implies (#[trigger] x[i]) as u32 == b[i] as u32 by {
                assert(b[i] == s[q + i]);
            }
        },
        TokenDataV::OP3_n(x) => {
            assert forall|i: int| 0 <= i < x.len() implies (#[trigger] x[i]) as u32 == b[i] as u32 by {
                assert(b[i] == s[q + i]);
            }
        },
        TokenDataV::OP4_n(x) => {
            assert forall|i: int| 0 <= i < x.len() implies (#[trigger] x[i]) as u32 == b[i] as u32 by {
                assert(b[i] == s[q + i]);
            }
        },
        TokenDataV::OP_UNARY(x) => {
            assert forall|i: int| 0 <= i < x.len() implies (#[trigger] x[i]) as u32 == b[i] as u32 by {
                assert(b[i] == s[q + i]);
            }
        },
        _ => {},
    }
}

/// The tokens read from `p` carry the source text of their spans.
proof fn lemma_lex_from_text(s: Seq<u8>, p: int)
    requires
        0 <= p,
        lex_from(s, p) is Ok,
    ensures
        forall|i: int| 0 <= i < lex_from(s, p)->Ok_0.len() ==> text_matches(s, #[trigger] lex_from(s, p)->Ok_0[i]),
    decreases s.len() - p,
{
    if p < s.len() {
        lemma_lex_token_span(s, p);
        lemma_lex_token_text(s, p);
        let (t, n) = lex_token(s, p).unwrap();
        lemma_skip_ws(s, n);
        let q = skip_ws(s, n);
        lemma_lex_from_text(s, q);
        let r = lex_from(s, q)->Ok_0;
        let all = lex_from(s, p)->Ok_0;
        assert(all == seq![t] + r);
        assert forall|i: int| 0 <= i < all.len() implies text_matches(s, #[trigger] all[i]) by {
            if i > 0 {
                assert(all[i] == r[i - 1]);
            }
        }
    }
}

/// Every token of a source that lexes matches the source text of its span, as
/// `text_matches` says: identifiers, string literals and operators hold exactly that text.
pub proof fn lexed_tokens_carry_their_text(s: Seq<u8>)
    requires
        lex(s) is Ok,
    ensures
        forall|i: int| 0 <= i < lex(s)->Ok_0.len() ==> text_matches(s, #[trigger] lex(s)->Ok_0[i]),
{
    let p = skip_ws(s, 0);
    lemma_skip_ws(s, 0);
    lemma_lex_from_text(s, p);
    let r = lex_from(s, p)->Ok_0;
    let ts = lex(s)->Ok_0;
    assert forall|i: int| 0 <= i < ts.len() implies text_matches(s, #[trigger] ts[i]) by {
        if i < r.len() {
            assert(ts[i] == r[i]);
        }
    }
}

/// An error of the lexer: no token starts at `pos`.
#[derive(Clone, Copy, Debug, PartialEq, Eq, Structural)]
pub struct LexError {
    pub pos: usize,
}


/// Whether `b` holds the bytes `l` at position `q`.
fn lit_at_exec(b: &[u8], q: usize, l: &[u8]) -> (r: bool)
    ensures
        r == lit_at(b@, q as int, l@),
{
    if q > b.len() || l.len() > b.len() - q {
        return false;
    }
    let mut k: usize = 0;
    while k < l.len()
        invariant
            k <= l@.len(),
            q + l@.len() <= b.len(),
            forall|j: int| 0 <= j < k ==> b@[q + j] == l@[j],
        decreases l@.len() - k,
    {
        if b[q + k] != l[k] {
            assert(b@.subrange(q as int, q + l@.len())[k as int] != l@[k as int]);
            return false;
        }
        k += 1;
    }
    assert(b@.subrange(q as int, q + l@.len()) =~= l@);
    true
}

/// Whether `b` holds the byte `c` at position `q`.
fn byte_at(b: &[u8], q: usize, c: u8) -> (r: bool)
    ensures
        r == lit_at(b@, q as int, seq![c]),
{
    if q < b.len() && b[q] == c {
        assert(b@.subrange(q as int, q + 1) =~= seq![c]);
        true
    } else {
        if q < b.len() {
            assert(b@.subrange(q as int, q + 1)[0] == b@[q as int]);
        }
        false
    }
}

/// The first position at or after `i` that is not white space.
fn skip_ws_at(b: &[u8], i: usize) -> (r: usize)
    requires
        i <= b@.len(),
    ensures
        r == skip_ws(b@, i as int),
        i <= r <= b@.len(),
{
    let mut j = i;
    while j < b.len() && (b[j] == 32 || b[j] == 9 || b[j] == 10 || b[j] == 13)
        invariant
            i <= j <= b@.len(),
            skip_ws(b@, j as int) == skip_ws(b@, i as int),
        decreases b@.len() - j,
    {
        j += 1;
    }
    j
}

/// The end of the run of identifier bytes from `i`.
fn ident_end_at(b: &[u8], i: usize) -> (r: usize)
    requires
        i <= b@.len(),
    ensures
        r == ident_end(b@, i as int),
        i <= r <= b@.len(),
        forall|k: int| i <= k < r ==> is_ident_char(#[trigger] b@[k]),
{
    let mut j = i;
    while j < b.len() && ((65 <= b[j] && b[j] <= 90) || (97 <= b[j] && b[j] <= 122) || (48 <= b[j] && b[j] <= 57) || b[j] == 95)
        invariant
            i <= j <= b@.len(),
            ident_end(b@, j as int) == ident_end(b@, i as int),
            forall|k: int| i <= k < j ==> is_ident_char(#[trigger] b@[k]),
        decreases b@.len() - j,
    {
        j += 1;
    }
    j
}

/// The end of the run of digits and underscores from `i`.
fn num_end_at(b: &[u8], i: usize) -> (r: usize)
    requires
        i <= b@.len(),
    ensures
        r == num_end(b@, i as int),
        i <= r <= b@.len(),
        forall|k: int| i <= k < r ==> is_num_char(#[trigger] b@[k]),
{
    let mut j = i;
    while j < b.len() && ((48 <= b[j] && b[j] <= 57) || b[j] == 95)
        invariant
            i <= j <= b@.len(),
            num_end(b@, j as int) == num_end(b@, i as int),
            forall|k: int| i <= k < j ==> is_num_char(#[trigger] b@[k]),
        decreases b@.len() - j,
    {
        j += 1;
    }
    j
}

/// The first double quote at or after `i`, or the length.
fn quote_end_at(b: &[u8], i: usize) -> (r: usize)
    requires
        i <= b@.len(),
    ensures
        r == quote_end(b@, i as int),
        i <= r <= b@.len(),
        r < b@.len() ==> b@[r as int] == 34,
{
    let mut j = i;
    while j < b.len() && b[j] != 34
        invariant
            i <= j <= b@.len(),
            quote_end(b@, j as int) == quote_end(b@, i as int),
        decreases b@.len() - j,
    {
        j += 1;
    }
    j
}

/// The value of digits never shrinks as digits are added, and is never negative.
proof fn lemma_num_mono(s: Seq<u8>, i: int, k: int, e: int)
    requires
        i <= k <= e <= s.len(),
        forall|j: int| i <= j < e ==> is_num_char(#[trigger] s[j]),
    ensures
        0 <= num_value(s, i, k) <= num_value(s, i, e),
    decreases e - i,
{
    if e > k {
        lemma_num_mono(s, i, k, e - 1);
    } else if k > i {
        lemma_num_mono(s, i, k - 1, k - 1);
    }
}

/// The run of identifier bytes from `i` ends between `i` and the end.
proof fn lemma_ident_end(s: Seq<u8>, i: int)
    requires
        0 <= i <= s.len(),
    ensures
        i <= ident_end(s, i) <= s.len(),
    decreases s.len() - i,
{
    if i < s.len() && is_ident_char(s[i]) {
        lemma_ident_end(s, i + 1);
    }
}

/// The value of the integer literal `b[q..e]`, or `None` when it does not fit in `i64`.
fn num_value_at(b: &[u8], q: usize, e: usize) -> (r: Option<i64>)
    requires
        q <= e <= b@.len(),
        forall|k: int| q <= k < e ==> is_num_char(#[trigger] b@[k]),
    ensures
        match r {
            Some(v) => v == num_value(b@, q as int, e as int),
            None => num_value(b@, q as int, e as int) > i64::MAX,
        },
{
    let mut acc: i64 = 0;
    let mut k = q;
    while k < e
        invariant
            q <= k <= e <= b@.len(),
            forall|j: int| q <= j < e ==> is_num_char(#[trigger] b@[j]),
            acc == num_value(b@, q as int, k as int),
        decreases e - k,
    {
        let c = b[k];
        assert(is_num_char(b@[k as int]));
        if c != 95 {
            let d = (c - 48) as i64;
            proof {
                lemma_num_mono(b@, q as int, k as int, k as int);
            }
            let m = acc.checked_mul(10);
            let n = match m {
                Some(m) => m.checked_add(d),
                None => None,
            };
            match n {
                Some(n) => {
                    acc = n;
                },
                None => {
                    proof {
                        lemma_num_mono(b@, q as int, (k + 1) as int, e as int);
                    }
                    return None;
                },
            }
        }
        k += 1;
    }
    Some(acc)
}

/// A string of one character.
fn str1(c: char) -> (r: String)
    ensures
        r@ == seq![c],
{
    let mut s = String::new();
    s.push(c);
    assert(s@ =~= seq![c]);
    s
}

/// A string of two characters.
fn str2(c: char, d: char) -> (r: String)
    ensures
        r@ == seq![c, d],
{
    let mut s = String::new();
    s.push(c);
    s.push(d);
    assert(s@ =~= seq![c, d]);
    s
}

/// A token of `n` bytes at `q` and the position after it.
fn fixed_at(q: usize, n: usize, d: TokenData) -> (r: Option<(Token, usize)>)
    requires
        q + n <= usize::MAX,
    ensures
        r matches Some((t, e)) && t@ == (TokenV { start: q as int, end: q + n, data: d@ }) && e == q + n,
{
    Some((Token { start: q, end: q + n, data: d }, q + n))
}

/// A type keyword at `q`: `i64`, `void` or `str`, as a `TYPE` token, and the position after it.
pub open spec fn type_keyword(s: Seq<u8>, q: int) -> Option<(TokenV, int)> {
    if lit_at(s, q, seq![105u8, 54, 52]) {
        fixed(q, 3, TokenDataV::TYPE(Type::Int))
    } else if lit_at(s, q, seq![118u8, 111, 105, 100]) {
        fixed(q, 4, TokenDataV::TYPE(Type::Void))
    } else if lit_at(s, q, seq![115u8, 116, 114]) {
        fixed(q, 3, TokenDataV::TYPE(Type::String))
    } else {
        None
    }
}

/// Reads a type keyword at `q` with white space around it skipped, as `type_keyword` says:
/// the token, and the position after the white space that follows it.
pub fn types(source: &str, q: usize) -> (r: Option<(Token, usize)>)
    requires
        q <= source.spec_bytes().len(),
    ensures
        match (type_keyword(source.spec_bytes(), skip_ws(source.spec_bytes(), q as int)), r) {
            (None, None) => true,
            (Some((t, e)), Some((x, n))) => x@ == t && n == skip_ws(source.spec_bytes(), e),
            _ => false,
        },
{
    let b = source.as_bytes();
    let blen = b.len();
    let p = skip_ws_at(b, q);
    assert(p <= blen);
    let found = if lit_at_exec(b, p, &[105u8, 54, 52]) {
        fixed_at(p, 3, TokenData::TYPE(Type::Int))
    } else if lit_at_exec(b, p, &[118u8, 111, 105, 100]) {
        fixed_at(p, 4, TokenData::TYPE(Type::Void))
    } else if lit_at_exec(b, p, &[115u8, 116, 114]) {
        fixed_at(p, 3, TokenData::TYPE(Type::String))
    } else {
        None
    };
    match found {
        Some((t, e)) => Some((t, skip_ws_at(b, e))),
        None => None,
    }
}

/// The token that starts at `q` and the position after it, as `lex_token` says.
#[verifier::rlimit(50)]
fn lex_token_at(source: &str, b: &[u8], q: usize) -> (r: Option<(Token, usize)>)
    requires
        b@ == source.spec_bytes(),
        q < b@.len(),
    ensures
        match r {
            None => lex_token(b@, q as int) is None,
            Some((t, n)) => lex_token(b@, q as int) == Some((t@, n as int)),
        },
{
    let ghost s = b@;
    let blen = b.len();
    if lit_at_exec(b, q, &[108u8, 101, 116]) {
        return fixed_at(q, 3, TokenData::K_LET);
    }
    if lit_at_exec(b, q, &[102u8, 117, 110, 99]) {
        return fixed_at(q, 4, TokenData::K_FUNC);
    }
    if lit_at_exec(b, q, &[114u8, 101, 116, 117, 114, 110]) {
        return fixed_at(q, 6, TokenData::K_RETURN);
    }
    if lit_at_exec(b, q, &[105u8, 102]) {
        return fixed_at(q, 2, TokenData::K_IF);
    }
    if lit_at_exec(b, q, &[116u8, 114, 117, 101]) {
        return fixed_at(q, 4, TokenData::BOOL(true));
    }
    if lit_at_exec(b, q, &[102u8, 97, 108, 115, 101]) {
        return fixed_at(q, 5, TokenData::BOOL(false));
    }
    if lit_at_exec(b, q, &[105u8, 54, 52]) {
        return fixed_at(q, 3, TokenData::TYPE(Type::Int));
    }
    if lit_at_exec(b, q, &[118u8, 111, 105, 100]) {
        return fixed_at(q, 4, TokenData::TYPE(Type::Void));
    }
    if lit_at_exec(b, q, &[115u8, 116, 114]) {
        return fixed_at(q, 3, TokenData::TYPE(Type::String));
    }
    if 48 <= b[q] && b[q] <= 57 {
        let e = num_end_at(b, q);
        let v = num_value_at(b, q, e);
        match v {
            None => {
                return None;
            },
            Some(v) => {
                let mut k = e;
                while k > q && b[k - 1] == 95
                    invariant
                        s == b@,
                        q <= k <= e <= b@.len(),
                        strip_us(s, q as int, k as int) == strip_us(s, q as int, e as int),
                    decreases k,
                {
                    k -= 1;
                }
                let mut r = k;
                while r > q && 48 <= b[r - 1] && b[r - 1] <= 57
                    invariant
                        s == b@,
                        q <= r <= k <= e <= b@.len(),
                        run_start(s, q as int, r as int) == run_start(s, q as int, k as int),
                    decreases r,
                {
                    r -= 1;
                }
                return Some((Token { start: q, end: q + (k - r), data: TokenData::INT(v) }, e));
            },
        }
    }
    if lit_at_exec(b, q, &[61u8, 61]) {
        return fixed_at(q, 2, TokenData::OP1_b(str2('=', '=')));
    }
    if lit_at_exec(b, q, &[33u8, 61]) {
        return fixed_at(q, 2, TokenData::OP1_b(str2('!', '=')));
    }
    if lit_at_exec(b, q, &[38u8, 38]) {
        return fixed_at(q, 2, TokenData::OP2_b(str2('&', '&')));
    }
    if lit_at_exec(b, q, &[124u8, 124]) {
        return fixed_at(q, 2, TokenData::OP2_b(str2('|', '|')));
    }
    if byte_at(b, q, 61) {
        return fixed_at(q, 1, TokenData::EQ_1);
    }
    if lit_at_exec(b, q, &[45u8, 62]) {
        return fixed_at(q, 2, TokenData::ARROW);
    }
    if byte_at(b, q, 33) {
        return fixed_at(q, 1, TokenData::OP_UNARY(str1('!')));
    }
    if byte_at(b, q, 42) {
        return fixed_at(q, 1, TokenData::OP4_n(str1('*')));
    }
    if byte_at(b, q, 47) {
        return fixed_at(q, 1, TokenData::OP4_n(str1('/')));
    }
    if byte_at(b, q, 43) {
        return fixed_at(q, 1, TokenData::OP3_n(str1('+')));
    }
    if byte_at(b, q, 45) {
        return fixed_at(q, 1, TokenData::OP3_n(str1('-')));
    }
    if byte_at(b, q, 40) {
        return fixed_at(q, 1, TokenData::PAREN_L);
    }
    if byte_at(b, q, 41) {
        return fixed_at(q, 1, TokenData::PAREN_R);
    }
    if byte_at(b, q, 123) {
        return fixed_at(q, 1, TokenData::CURLY_L);
    }
    if byte_at(b, q, 125) {
        return fixed_at(q, 1, TokenData::CURLY_R);
    }
    if byte_at(b, q, 44) {
        return fixed_at(q, 1, TokenData::COMMA);
    }
    if byte_at(b, q, 58) {
        return fixed_at(q, 1, TokenData::COLON);
    }
    proof {
        encode_utf8_valid_utf8(source@);
    }
    if b[q] == 34 {
        assert(lit_at(s, q as int, seq![34u8])) by {
            assert(s.subrange(q as int, q + 1) =~= seq![34u8]);
        }
        let c = quote_end_at(b, q + 1);
        if c < b.len() {
            proof {
                lemma_ascii_boundaries(s, q as int);
                lemma_ascii_boundaries(s, c as int);
            }
            let text = substring(source, q + 1, c);
            return Some((Token { start: q + 1, end: c, data: TokenData::STR_LIT(text) }, c + 1));
        } else {
            return None;
        }
    }
    assert(!lit_at(s, q as int, seq![34u8])) by {
        if lit_at(s, q as int, seq![34u8]) {
            assert(s.subrange(q as int, q + 1)[0] == 34);
        }
    }
    if (65 <= b[q] && b[q] <= 90) || (97 <= b[q] && b[q] <= 122) || b[q] == 95 {
        let e = ident_end_at(b, q);
        proof {
            lemma_ascii_boundaries(s, q as int);
            lemma_ident_end(s, q + 1);
            if e < s.len() {
                assert(is_ident_char(b@[e - 1]));
                lemma_ascii_boundaries(s, e - 1);
            } else {
                is_char_boundary_start_end_of_seq(s);
            }
        }
        let text = substring(source, q, e);
        return Some((Token { start: q, end: e, data: TokenData::IDENT(text) }, e));
    }
    None
}

/// Splits a source into tokens, as `lex` says: `Ok` with the tokens and a final `EOF`, or `Err`
/// with the position where no token starts.
pub fn tokenize(source: &str) -> (r: Result<Vec<Token>, LexError>)
    ensures
        match (lex(source.spec_bytes()), r) {
            (Ok(ts), Ok(v)) => v@.map_values(|t: Token| t@) == ts,
            (Err(p), Err(e)) => e.pos == p,
            _ => false,
        },
{
    let b = source.as_bytes();
    let ghost s = b@;
    let p0 = skip_ws_at(b, 0);
    if p0 >= b.len() {
        return Err(LexError { pos: p0 });
    }
    let mut toks: Vec<Token> = Vec::new();
    let mut p = p0;
    while p < b.len()
        invariant
            b@ == s,
            s == source.spec_bytes(),
            p <= s.len(),
            p0 == skip_ws(s, 0),
            p0 < s.len(),
            lex_from(s, p0 as int) == match lex_from(s, p as int) {
                Ok(r) => Ok(toks@.map_values(|t: Token| t@) + r),
                Err(e) => Err(e),
            },
        decreases s.len() - p,
    {
        match lex_token_at(source, b, p) {
            None => {
                return Err(LexError { pos: p });
            },
            Some((t, n)) => {
                if n <= p || n > b.len() {
                    return Err(LexError { pos: p });
                }
                let ghost before = toks@;
                let ghost tv = t@;
                toks.push(t);
                proof {
                    lemma_skip_ws(s, n as int);
                    assert(toks@.map_values(|t: Token| t@) =~= before.map_values(|t: Token| t@) + seq![tv]);
                }
                p = skip_ws_at(b, n);
                proof {
                    match lex_from(s, p as int) {
                        Ok(r) => {
                            assert(before.map_values(|t: Token| t@) + (seq![tv] + r) =~= toks@.map_values(|t: Token| t@) + r);
                        },
                        Err(e) => {},
                    }
                }
            },
        }
    }
    let ghost before = toks@;
    toks.push(Token { start: b.len(), end: b.len(), data: TokenData::EOF });
    proof {
        assert(toks@.map_values(|t: Token| t@) =~= (before.map_values(|t: Token| t@) + seq![]).push(TokenV { start: s.len() as int, end: s.len() as int, data: TokenDataV::EOF }));
    }
    Ok(toks)
}

} // verus!
