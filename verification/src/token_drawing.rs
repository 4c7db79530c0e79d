use vstd::prelude::*;
use vstd::utf8::encode_utf8;
use vstd::string::{is_ascii, StringSliceAdditionalSpecFns};
use crate::token::{Token, TokenV};
use crate::lexer::{lex, lex_tokens_in_order};
use crate::visual::{blanks, data_text, esc, fit, pad_right, push_blanks, push_esc, push_fit};

verus! {

/// The width of a token drawing's lines before they wrap, in columns.
pub const WRAP: usize = 150;

/// The columns given to each byte of the source in a token drawing.
pub const COLS: usize = 3;

/// The label of token `j`: its value, cut or filled to end one column before the next
/// token's column starts (the last token's in full).
pub open spec fn label(toks: Seq<TokenV>, j: int) -> Seq<char> {
    if j == toks.len() - 1 {
        data_text(toks[j].data)
    } else {
        fit(data_text(toks[j].data), (COLS * (toks[j + 1].start - toks[j].start) - 1) as nat)
    }
}

/// The labels of tokens from `j` on, at the column of each token's start, from column `i` of
/// a line whose first column is `ls`; a label starts only before `WRAP` columns are used up,
/// and none past them. Columns are counted in bytes.
pub open spec fn label_line(toks: Seq<TokenV>, j: int, i: int, ls: int) -> Seq<char>
    decreases toks.len() - j,
{
    if 0 <= j < toks.len() && i - ls < WRAP {
        let st = toks[j].start * COLS;
        let pad = if i < st { blanks((st - i) as nat) } else { seq![] };
        let i2 = if i < st { st } else { i };
        if i2 - ls > WRAP {
            pad
        } else {
            pad + label(toks, j) + label_line(toks, j + 1, i2 + encode_utf8(label(toks, j)).len(), ls)
        }
    } else {
        seq![]
    }
}

/// A mark `│` at the column of each token's start from token `j` on, from column `i` of a
/// line whose first column is `ls`, up to the first token past `WRAP` columns; and that
/// token's index.
pub open spec fn mark_line(toks: Seq<TokenV>, j: int, i: int, ls: int) -> (Seq<char>, int)
    decreases toks.len() - j,
{
    if 0 <= j < toks.len() {
        let st = toks[j].start * COLS;
        let pad = if i < st { blanks((st - i) as nat) } else { seq![] };
        let i2 = if i < st { st } else { i };
        if i2 - ls > WRAP {
            (pad, j)
        } else {
            let (t, e) = mark_line(toks, j + 1, i2 + 1, ls);
            (pad + seq!['│'] + t, e)
        }
    } else {
        (seq![], j)
    }
}

/// The source characters from `c` on, each escaped and filled to `COLS` columns, while they
/// fall within `WRAP` columns of a line whose first column is `ls`; and the index after them.
pub open spec fn char_line(src: Seq<char>, c: int, ls: int) -> (Seq<char>, int)
    decreases src.len() - c,
{
    if 0 <= c < src.len() && c * COLS - ls < WRAP {
        let (t, e) = char_line(src, c + 1, ls);
        (pad_right(esc(src[c], true, true), COLS as nat) + t, e)
    } else {
        (seq![], c)
    }
}

/// The drawing of the tokens from `ts` on against the source from byte `ci` on, in blocks of
/// three lines: the labels, the marks, and the source characters; each block starts its
/// columns where the source characters of the previous one ended.
pub open spec fn token_blocks(toks: Seq<TokenV>, src: Seq<char>, ts: int, ci: int) -> Seq<char>
    decreases toks.len() - ts, src.len() - ci,
{
    if 0 <= ts < toks.len() && 0 <= ci {
        let ls = ci * COLS;
        let (l2, te) = mark_line(toks, ts, ls, ls);
        let (l3, ce) = char_line(src, ci, ls);
        let out = label_line(toks, ts, ls, ls) + seq!['\n'] + l2 + seq!['\n'] + l3 + seq!['\n'];
        if (ts < te <= toks.len() && ci <= ce) || (te == ts && ci < ce <= src.len()) {
            out + token_blocks(toks, src, te, ce)
        } else {
            out
        }
    } else {
        seq![]
    }
}

/// The token drawing of `toks` against the source `src`, as `token_blocks` says from the start.
pub open spec fn tokens_text(toks: Seq<TokenV>, src: Seq<char>) -> Seq<char> {
    token_blocks(toks, src, 0, 0)
}

/// What a token drawing needs: token starts that grow strictly and lie within the source.
pub open spec fn drawable(toks: Seq<TokenV>, n: int) -> bool {
    &&& forall|j: int| 0 <= j < toks.len() ==> 0 <= #[trigger] toks[j].start <= n
    &&& forall|j: int| 0 <= j < toks.len() - 1 ==> #[trigger] toks[j].start < toks[j + 1].start
}


/// The views of tokens.
pub open spec fn toks_v(toks: Seq<Token>) -> Seq<TokenV> {
    toks.map_values(|t: Token| t@)
}

/// The marks stop at a token index between `j` and the end; where they stop at `j` itself,
/// that token lies past `WRAP` columns.
proof fn lemma_mark_line(toks: Seq<TokenV>, j: int, i: int, ls: int)
    requires
        0 <= j <= toks.len(),
    ensures
        j <= mark_line(toks, j, i, ls).1 <= toks.len(),
        mark_line(toks, j, i, ls).1 == j && j < toks.len() ==> {
            let st = toks[j].start * COLS;
            (if i < st { st } else { i }) - ls > WRAP
        },
    decreases toks.len() - j,
{
    if j < toks.len() {
        let st = toks[j].start * COLS;
        let i2 = if i < st { st } else { i };
        if i2 - ls <= WRAP {
            lemma_mark_line(toks, j + 1, i2 + 1, ls);
        }
    }
}

/// The source characters stop at an index between `c` and the end, past `c` where the
/// character at `c` falls within `WRAP` columns.
proof fn lemma_char_line(src: Seq<char>, c: int, ls: int)
    requires
        0 <= c <= src.len(),
    ensures
        c <= char_line(src, c, ls).1 <= src.len(),
        c < src.len() && c * COLS - ls < WRAP ==> char_line(src, c, ls).1 > c,
    decreases src.len() - c,
{
    if c < src.len() && c * COLS - ls < WRAP {
        lemma_char_line(src, c + 1, ls);
    }
}

/// Labels past `WRAP` columns are none.
proof fn lemma_label_line_done(toks: Seq<TokenV>, j: int, i: int, ls: int)
    requires
        i - ls >= WRAP,
    ensures
        label_line(toks, j, i, ls) == Seq::<char>::empty(),
{
}

/// The label of token `j`, as `label` says.
fn label_exec(toks: &Vec<Token>, j: usize, n: usize) -> (r: String)
    requires
        j < toks@.len(),
        drawable(toks_v(toks@), n as int),
        n <= usize::MAX / 8,
    ensures
        r@ == label(toks_v(toks@), j as int),
{
    let ghost tv = toks_v(toks@);
    let t = toks[j].data.to_string();
    if j == toks.len() - 1 {
        t
    } else {
        assert(tv[j as int].start < tv[j + 1].start);
        let d = COLS * (toks[j + 1].start - toks[j].start) - 1;
        let mut r = String::new();
        push_fit(&mut r, t.as_str(), d);
        assert(r@ =~= label(tv, j as int));
        r
    }
}

/// One label of a block: the blanks up to the token's column, then the label, then the rest.
proof fn lemma_label_step(toks: Seq<TokenV>, j: int, i: int, ls: int)
    requires
        0 <= j < toks.len(),
        i - ls < WRAP,
    ensures
        ({
            let st = toks[j].start * COLS;
            let pad = if i < st { blanks((st - i) as nat) } else { seq![] };
            let i2 = if i < st { st } else { i };
            &&& i2 - ls > WRAP ==> label_line(toks, j, i, ls) == pad
            &&& i2 - ls <= WRAP ==> label_line(toks, j, i, ls) == pad + label(toks, j)
                + label_line(toks, j + 1, i2 + encode_utf8(label(toks, j)).len(), ls)
        }),
{
}

/// Appends the labels of a block, as `label_line` says from its first column.
#[verifier::spinoff_prover]
fn push_label_line(s: &mut String, toks: &Vec<Token>, ts: usize, ls: usize, n: usize)
    requires
        ts < toks@.len(),
        drawable(toks_v(toks@), n as int),
        n <= usize::MAX / 8,
        ls <= n * COLS,
    ensures
        final(s)@ == old(s)@ + label_line(toks_v(toks@), ts as int, ls as int, ls as int),
{
    let ghost tv = toks_v(toks@);
    let ghost total = old(s)@ + label_line(tv, ts as int, ls as int, ls as int);
    let mut i: usize = ls;
    let ghost mut gi: int = ls as int;
    let mut j: usize = ts;
    while j < toks.len() && i - ls < WRAP
        invariant
            ts <= j <= toks@.len(),
            ls <= i,
            ls <= gi,
            tv == toks_v(toks@),
            drawable(tv, n as int),
            n <= usize::MAX / 8,
            ls <= n * COLS,
            (gi <= usize::MAX && i == gi) || (gi > usize::MAX && i == usize::MAX),
            s@ + label_line(tv, j as int, gi, ls as int) == total,
        ensures
            s@ + label_line(tv, j as int, gi, ls as int) == total,
            !(j < toks@.len() && gi - ls < WRAP),
        decreases toks@.len() - j,
    {
        let ghost sj = s@;
        let ghost gi0 = gi;
        proof {
            lemma_label_step(tv, j as int, gi0, ls as int);
        }
        assert(tv[j as int].start == toks@[j as int].start);
        let st = toks[j].start * COLS;
        if i < st {
            push_blanks(s, st - i);
            i = st;
            proof {
                gi = st as int;
            }
        }
        if i - ls > WRAP {
            proof {
                lemma_label_line_done(tv, j as int, gi, ls as int);
            }
            break;
        }
        let lab = label_exec(toks, j, n);
        s.push_str(lab.as_str());
        let k = lab.as_str().as_bytes().len();
        i = i.saturating_add(k);
        proof {
            gi = gi + k;
        }
        j += 1;
    }
    proof {
        if j < toks@.len() {
            lemma_label_line_done(tv, j as int, gi, ls as int);
        }
    }
}


/// One mark of a block: the blanks up to the token's column, then the mark, then the rest.
proof fn lemma_mark_step(toks: Seq<TokenV>, j: int, i: int, ls: int)
    requires
        0 <= j < toks.len(),
    ensures
        ({
            let st = toks[j].start * COLS;
            let pad = if i < st { blanks((st - i) as nat) } else { seq![] };
            let i2 = if i < st { st } else { i };
            &&& i2 - ls > WRAP ==> mark_line(toks, j, i, ls) == (pad, j)
            &&& i2 - ls <= WRAP ==> mark_line(toks, j, i, ls) == (pad + seq!['│'] + mark_line(toks, j + 1, i2 + 1, ls).0, mark_line(toks, j + 1, i2 + 1, ls).1)
        }),
{
}

/// Appends the marks of a block, as `mark_line` says from its first column; the index of the
/// token it stopped at.
#[verifier::spinoff_prover]
fn push_mark_line(s: &mut String, toks: &Vec<Token>, ts: usize, ls: usize, n: usize) -> (te: usize)
    requires
        ts < toks@.len(),
        drawable(toks_v(toks@), n as int),
        n <= usize::MAX / 8,
        ls <= n * COLS,
    ensures
        final(s)@ == old(s)@ + mark_line(toks_v(toks@), ts as int, ls as int, ls as int).0,
        te == mark_line(toks_v(toks@), ts as int, ls as int, ls as int).1,
{
    let ghost tv = toks_v(toks@);
    let ghost total = mark_line(tv, ts as int, ls as int, ls as int);
    let ghost s0 = s@;
    let mut i: usize = ls;
    let mut j: usize = ts;
    while j < toks.len()
        invariant_except_break
            ls <= i <= ls + WRAP + 1,
            s@ + mark_line(tv, j as int, i as int, ls as int).0 == s0 + total.0,
            mark_line(tv, j as int, i as int, ls as int).1 == total.1,
        invariant
            ts <= j <= toks@.len(),
            tv == toks_v(toks@),
            drawable(tv, n as int),
            n <= usize::MAX / 8,
            ls <= n * COLS,
        ensures
            s@ == s0 + total.0,
            j == total.1,
        decreases toks@.len() - j,
    {
        let ghost i0 = i;
        proof {
            lemma_mark_step(tv, j as int, i0 as int, ls as int);
        }
        assert(tv[j as int].start == toks@[j as int].start);
        let st = toks[j].start * COLS;
        if i < st {
            push_blanks(s, st - i);
            i = st;
        }
        if i - ls > WRAP {
            assert(s@ =~= s0 + total.0);
            break;
        }
        s.push('│');
        i += 1;
        j += 1;
    }
    j
}

/// One character of the source line: escaped, filled out, then the rest.
proof fn lemma_char_step(src: Seq<char>, c: int, ls: int)
    requires
        0 <= c < src.len(),
        c * COLS - ls < WRAP,
    ensures
        char_line(src, c, ls) == (pad_right(esc(src[c], true, true), COLS as nat) + char_line(src, c + 1, ls).0, char_line(src, c + 1, ls).1),
{
}

/// The character at byte `c` of an ASCII source.
pub(crate) fn ascii_at(source: &str, b: &[u8], c: usize) -> (ch: char)
    requires
        is_ascii(source),
        b@ == source.spec_bytes(),
        c < source@.len(),
    ensures
        ch == source@[c as int],
{
    proof {
        vstd::string::is_ascii_spec_bytes(source);
    }
    let x = b[c];
    assert(x == source@[c as int] as u8);
    assert(source@[c as int] <= '\u{7f}');
    x as char
}

/// Appends the source characters of a block, as `char_line` says; the index after them.
#[verifier::spinoff_prover]
fn push_char_line(s: &mut String, source: &str, b: &[u8], ci: usize, ls: usize) -> (ce: usize)
    requires
        is_ascii(source),
        b@ == source.spec_bytes(),
        ci <= source@.len(),
        source@.len() <= usize::MAX / 8,
        ls == ci * COLS,
    ensures
        final(s)@ == old(s)@ + char_line(source@, ci as int, ls as int).0,
        ce == char_line(source@, ci as int, ls as int).1,
{
    proof {
        vstd::string::is_ascii_spec_bytes(source);
    }
    let ghost src = source@;
    let ghost total = char_line(src, ci as int, ls as int);
    let ghost s0 = s@;
    let n = b.len();
    let mut c: usize = ci;
    while c < n && c * COLS - ls < WRAP
        invariant
            ci <= c <= n,
            n == src.len(),
            n <= usize::MAX / 8,
            ls == ci * COLS,
            src == source@,
            is_ascii(source),
            b@ == source.spec_bytes(),
            s@ + char_line(src, c as int, ls as int).0 == s0 + total.0,
            char_line(src, c as int, ls as int).1 == total.1,
        decreases n - c,
    {
        proof {
            lemma_char_step(src, c as int, ls as int);
        }
        let ch = ascii_at(source, b, c);
        let mut e = String::new();
        push_esc(&mut e, ch, true, true);
        let w = e.as_str().unicode_len();
        s.push_str(e.as_str());
        if w < COLS {
            push_blanks(s, COLS - w);
        }
        assert(e@ + (if w < COLS { blanks((COLS - w) as nat) } else { seq![] }) =~= pad_right(esc(src[c as int], true, true), COLS as nat));
        c += 1;
    }
    assert(char_line(src, c as int, ls as int).0 =~= Seq::<char>::empty());
    assert(s@ =~= s0 + total.0);
    c
}

/// One block of a token drawing: the labels, the marks and the source characters, each line
/// ended.
pub open spec fn block_text(toks: Seq<TokenV>, src: Seq<char>, ts: int, ci: int) -> Seq<char> {
    let ls = ci * COLS;
    label_line(toks, ts, ls, ls) + seq!['\n'] + mark_line(toks, ts, ls, ls).0 + seq!['\n']
        + char_line(src, ci, ls).0 + seq!['\n']
}

/// Appends one block, as `block_text` says; where the next one starts, which is further on in
/// the tokens or in the source.
fn push_block(s: &mut String, toks: &Vec<Token>, source: &str, b: &[u8], ts: usize, ci: usize) -> (r: (usize, usize))
    requires
        is_ascii(source),
        b@ == source.spec_bytes(),
        ts < toks@.len(),
        ci <= source@.len(),
        source@.len() <= usize::MAX / 8,
        drawable(toks_v(toks@), source@.len() as int),
    ensures
        final(s)@ == old(s)@ + block_text(toks_v(toks@), source@, ts as int, ci as int),
        r.0 == mark_line(toks_v(toks@), ts as int, (ci * COLS) as int, (ci * COLS) as int).1,
        r.1 == char_line(source@, ci as int, (ci * COLS) as int).1,
        (ts < r.0 <= toks@.len() && ci <= r.1 <= source@.len()) || (r.0 == ts && ci < r.1 <= source@.len()),
{
    proof {
        vstd::string::is_ascii_spec_bytes(source);
    }
    let ghost tv = toks_v(toks@);
    let ghost src = source@;
    let ghost s0 = s@;
    let n = b.len();
    let ls = ci * COLS;
    push_label_line(s, toks, ts, ls, n);
    s.push('\n');
    let te = push_mark_line(s, toks, ts, ls, n);
    s.push('\n');
    let ce = push_char_line(s, source, b, ci, ls);
    s.push('\n');
    proof {
        lemma_mark_line(tv, ts as int, ls as int, ls as int);
        lemma_char_line(src, ci as int, ls as int);
        if te == ts {
            assert(tv[ts as int].start * COLS > ls + WRAP);
            assert(tv[ts as int].start <= n);
        }
        assert(s@ =~= s0 + block_text(tv, src, ts as int, ci as int));
    }
    (te, ce)
}

/// Draws the tokens `toks` against the source they were read from: blocks of three lines,
/// the tokens' values at the columns of their starts, a mark `│` at each start, and the
/// source with each byte escaped in three columns, wrapped at about 150 columns, as
/// `tokens_text` says.
pub fn print_tokens(toks: &Vec<Token>, source: &str) -> (r: String)
    requires
        is_ascii(source),
        drawable(toks_v(toks@), source@.len() as int),
        source@.len() <= usize::MAX / 8,
    ensures
        r@ == tokens_text(toks_v(toks@), source@),
{
    proof {
        vstd::string::is_ascii_spec_bytes(source);
    }
    let ghost tv = toks_v(toks@);
    let ghost src = source@;
    let b = source.as_bytes();
    let n = b.len();
    let mut s = String::new();
    let mut ts: usize = 0;
    let mut ci: usize = 0;
    while ts < toks.len()
        invariant
            ts <= toks@.len(),
            ci <= n,
            n == src.len(),
            n <= usize::MAX / 8,
            tv == toks_v(toks@),
            src == source@,
            is_ascii(source),
            b@ == source.spec_bytes(),
            drawable(tv, n as int),
            s@ + token_blocks(tv, src, ts as int, ci as int) == tokens_text(tv, src),
        decreases toks@.len() - ts, n - ci,
    {
        let ghost s0 = s@;
        let (te, ce) = push_block(&mut s, toks, source, b, ts, ci);
        assert(token_blocks(tv, src, ts as int, ci as int) == block_text(tv, src, ts as int, ci as int) + token_blocks(tv, src, te as int, ce as int));
        ts = te;
        ci = ce;
    }
    s
}

/// Whether the starts of `toks` lie within `n` and grow strictly.
fn starts_in_order(toks: &Vec<Token>, n: usize) -> (r: bool)
    ensures
        r == drawable(toks_v(toks@), n as int),
{
    let ghost tv = toks_v(toks@);
    let mut j: usize = 0;
    while j < toks.len()
        invariant
            j <= toks@.len(),
            tv == toks_v(toks@),
            forall|k: int| 0 <= k < j ==> #[trigger] toks@[k].start <= n,
            forall|k: int| 0 <= k < j - 1 ==> #[trigger] toks@[k].start < toks@[k + 1].start,
        decreases toks@.len() - j,
    {
        if toks[j].start > n {
            assert(tv[j as int].start == toks@[j as int].start);
            return false;
        }
        if j > 0 && toks[j - 1].start >= toks[j].start {
            assert(tv[j - 1].start == toks@[j - 1].start);
            assert(tv[j as int].start == toks@[j as int].start);
            return false;
        }
        j += 1;
    }
    assert forall|k: int| 0 <= k < tv.len() implies 0 <= #[trigger] tv[k].start <= n by {
        assert(tv[k].start == toks@[k].start);
    }
    assert forall|k: int| 0 <= k < tv.len() - 1 implies #[trigger] tv[k].start < tv[k + 1].start by {
        assert(tv[k].start == toks@[k].start);
        assert(tv[k + 1].start == toks@[k + 1].start);
    }
    true
}

/// Whether `print_tokens` can draw `toks` against `source`: the source is ASCII and not too
/// long, and the tokens are `drawable` in it.
pub fn can_print_tokens(toks: &Vec<Token>, source: &str) -> (r: bool)
    ensures
        r == (is_ascii(source) && drawable(toks_v(toks@), source@.len() as int)
            && source@.len() <= usize::MAX / 8),
{
    proof {
        vstd::string::is_ascii_spec_bytes(source);
    }
    if !source.is_ascii() {
        return false;
    }
    let n = source.as_bytes().len();
    if n > usize::MAX / 8 {
        return false;
    }
    starts_in_order(toks, n)
}


/// The tokens of every source that lexes can be drawn against it.
pub proof fn lexed_tokens_drawable(s: Seq<u8>)
    requires
        lex(s) is Ok,
    ensures
        drawable(lex(s)->Ok_0, s.len() as int),
{
    lex_tokens_in_order(s);
}

} // verus!
