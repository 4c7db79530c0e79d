use vstd::prelude::*;
use vstd::string::{StringSliceAdditionalSpecFns, StrSliceExecFns};
use vstd::utf8::{decode_utf8, is_char_boundary, encode_utf8_valid_utf8, encode_utf8_decode_utf8, valid_utf8_split, is_char_boundary_start_end_of_seq, is_char_boundary_iff_not_is_continuation_byte};
use crate::token::Type;
use crate::text::dec;
use crate::grammar::ElemT;
use crate::typecheck::{TypeError, TypeErrorV};
use crate::scope::ScopeError;
use crate::parser::{SyntaxError, SyntaxErrorV};
use crate::visual::{blanks, esc, node_kind_name, node_name, push_blanks, push_esc, push_plain_arg, sym_name, symbol_name, tok_name, token_name, type_label, type_text, with_arg};

verus! {

/// The bytes of a source, each read as the character of its value: the text around an error
/// is read byte by byte.
pub open spec fn byte_chars(b: Seq<u8>) -> Seq<char> {
    b.map_values(|x: u8| x as char)
}

/// The characters that `char::escape_debug` gives for `c`.
pub uninterp spec fn escape_debug_of(c: char) -> Seq<char>;

/// A character of the source as an error shows it: an ASCII one escaped as `esc` says, any
/// other as `char::escape_debug` gives it.
pub open spec fn shown_char(c: char) -> Seq<char> {
    if (c as u32) < 128 {
        esc(c, true, true)
    } else {
        escape_debug_of(c)
    }
}

/// Characters one after another, each as `shown_char` gives it.
pub open spec fn shown_str(s: Seq<char>) -> Seq<char>
    decreases s.len(),
{
    if s.len() == 0 {
        seq![]
    } else {
        shown_str(s.drop_last()) + shown_char(s.last())
    }
}

/// The characters that the source bytes from `a` up to `e` encode.
pub open spec fn text_between(b: Seq<u8>, a: int, e: int) -> Seq<char> {
    decode_utf8(b.subrange(a, e))
}

/// An ASCII control character.
pub open spec fn is_control(c: char) -> bool {
    c < ' ' || c == '\u{7f}'
}

/// Where the source line around an error starts: going back from `a` at most `k` more steps,
/// just after a control character, or at the start of the source.
pub open spec fn line_start(src: Seq<char>, a: int, k: nat) -> int
    decreases k,
{
    if k == 0 {
        a
    } else if is_control(src[a]) {
        a + 1
    } else if a - 1 == 0 {
        0
    } else {
        line_start(src, a - 1, (k - 1) as nat)
    }
}

/// Where the source line around an error ends: going on from `b` at most `k` more steps, at a
/// control character or the end of the source.
pub open spec fn line_end(src: Seq<char>, b: int, k: nat) -> int
    decreases k,
{
    if k == 0 || b >= src.len() || is_control(src[b]) {
        b
    } else {
        line_end(src, b + 1, (k - 1) as nat)
    }
}

/// The line of an error, at most twenty characters either side of `start`.
pub open spec fn error_window(src: Seq<char>, start: int) -> (int, int) {
    (line_start(src, start, 20), line_end(src, start, 20))
}

/// What showing a type error needs of the source bytes `b`: the error lies within them past
/// the first byte, the line shown starts and ends at character boundaries, and neither the
/// error's byte nor any other of the line shown is an ASCII control character. The line is
/// found byte by byte.
pub open spec fn shows_error(b: Seq<u8>, start: int) -> bool {
    let src = byte_chars(b);
    &&& 0 < start < src.len()
    &&& !is_control(src[start])
    &&& is_char_boundary(b, error_window(src, start).0)
    &&& is_char_boundary(b, error_window(src, start).1)
    &&& forall|k: int| error_window(src, start).0 <= k < error_window(src, start).1
        ==> !is_control(#[trigger] src[k])
}

/// A note on a type when there is one.
pub open spec fn type_note(label: Seq<char>, t: Option<Type>) -> Seq<char> {
    match t {
        Some(x) => label + type_label(x) + seq!['\n'],
        None => seq![],
    }
}

/// A type error shown against its source: a header, the position, the line around it
/// (escaped), a caret under the error's start followed by the message, and the types expected
/// and found where the error has them.
pub open spec fn type_error_text(e: TypeErrorV, b: Seq<u8>) -> Seq<char> {
    let (a, z) = error_window(byte_chars(b), e.start);
    "=== Type Error ===\n"@ + "Error at: "@ + dec(e.start as nat) + seq!['\n'] + "    "@
        + shown_str(text_between(b, a, z)) + "\n    "@ + blanks((e.start - a) as nat)
        + seq!['^'] + "-----"@ + e.msg + seq!['\n']
        + type_note("  expected type: "@, e.expected) + type_note("  found type: "@, e.found)
}

/// The line end stays between `b` and the end of the source.
proof fn lemma_line_end(src: Seq<char>, b: int, k: nat)
    requires
        0 <= b <= src.len(),
    ensures
        b <= line_end(src, b, k) <= src.len(),
    decreases k,
{
    if k > 0 && b < src.len() && !is_control(src[b]) {
        lemma_line_end(src, b + 1, (k - 1) as nat);
    }
}

/// The byte at `k` read as a character.
fn byte_char(b: &[u8], k: usize) -> (c: char)
    requires
        k < b@.len(),
    ensures
        c == byte_chars(b@)[k as int],
{
    b[k] as char
}

/// `char::escape_debug` of `c`, collected into a string: the escape code of `c` as std's
/// documentation describes it. Which characters that is for a given `c` is not stated here.
#[verifier::external_body]
fn escape_debug_text(c: char) -> (r: String)
    ensures
        r@ == escape_debug_of(c),
{
    c.escape_debug().to_string()
}

/// Appends a character as `shown_char` gives it.
fn push_shown(s: &mut String, c: char)
    ensures
        final(s)@ == old(s)@ + shown_char(c),
{
    if (c as u32) < 128 {
        push_esc(s, c, true, true);
    } else {
        let t = escape_debug_text(c);
        s.push_str(t.as_str());
    }
}

/// The part of `source` between the byte positions `a` and `e`, both character boundaries.
fn slice_between<'a>(source: &'a str, a: usize, e: usize) -> (w: &'a str)
    requires
        a <= e <= source.spec_bytes().len(),
        is_char_boundary(source.spec_bytes(), a as int),
        is_char_boundary(source.spec_bytes(), e as int),
    ensures
        w@ == text_between(source.spec_bytes(), a as int, e as int),
{
    let ghost bytes = source.spec_bytes();
    proof {
        encode_utf8_valid_utf8(source@);
        valid_utf8_split(bytes, a as int);
    }
    let (_, rest) = source.split_at(a);
    let ghost rb = rest.spec_bytes();
    proof {
        assert(rb =~= bytes.subrange(a as int, bytes.len() as int));
        if e as int == bytes.len() {
            is_char_boundary_start_end_of_seq(rb);
            assert(rb.len() == e - a);
        } else {
            is_char_boundary_iff_not_is_continuation_byte(bytes, e as int);
            is_char_boundary_iff_not_is_continuation_byte(rb, e - a);
            assert(rb[e - a] == bytes[e as int]);
        }
    }
    let (w, _) = rest.split_at(e - a);
    proof {
        assert(w.spec_bytes() =~= bytes.subrange(a as int, e as int));
        encode_utf8_decode_utf8(w@);
    }
    w
}

/// Whether `c` is an ASCII control character.
fn is_control_exec(c: char) -> (r: bool)
    ensures
        r == is_control(c),
{
    c < ' ' || c == '\u{7f}'
}

/// Appends a note on a type, as `type_note` says.
fn push_type_note(s: &mut String, label: &str, t: Option<Type>)
    ensures
        final(s)@ == old(s)@ + type_note(label@, t),
{
    let ghost s0 = s@;
    match t {
        Some(x) => {
            s.push_str(label);
            s.push_str(type_text(x));
            s.push('\n');
        },
        None => {},
    }
    assert(s@ =~= s0 + type_note(label@, t));
}

impl TypeError {
    /// Where the line shown for this error starts and ends, as `error_window` says.
    fn window(&self, b: &[u8]) -> (r: (usize, usize))
        requires
            0 < self.start < b@.len(),
            !is_control(byte_chars(b@)[self.start as int]),
        ensures
            r.0 == error_window(byte_chars(b@), self.start as int).0,
            r.1 == error_window(byte_chars(b@), self.start as int).1,
            r.0 <= self.start < r.1 <= b@.len(),
    {
        let ghost src = byte_chars(b@);
        let a = line_start_exec(b, self.start);
        proof {
            assert(line_end(src, self.start as int, 20) == line_end(src, self.start + 1, 19));
            lemma_line_end(src, self.start + 1, 19);
        }
        let e = line_end_exec(b, self.start);
        (a, e)
    }

    /// This error shown against its source, as `type_error_text` says.
    pub fn to_text(&self, source: &str) -> (r: String)
        requires
            shows_error(source.spec_bytes(), self.start as int),
        ensures
            r@ == type_error_text(self@, source.spec_bytes()),
    {
        let ghost src = byte_chars(source.spec_bytes());
        let b = source.as_bytes();
        let (a, e) = self.window(b);
        let w = slice_between(source, a, e);
        let n = w.unicode_len();
        let mut s = String::new();
        s.push_str("=== Type Error ===\n");
        s.push_str("Error at: ");
        crate::text::push_u64(&mut s, self.start as u64);
        s.push('\n');
        s.push_str("    ");
        let ghost s1 = s@;
        let mut k: usize = 0;
        while k < n
            invariant
                k <= n,
                n == w@.len(),
                s@ == s1 + shown_str(w@.subrange(0, k as int)),
            decreases n - k,
        {
            let c = w.get_char(k);
            push_shown(&mut s, c);
            assert(w@.subrange(0, k + 1).drop_last() =~= w@.subrange(0, k as int));
            k += 1;
        }
        assert(w@.subrange(0, n as int) =~= w@);
        s.push_str("\n    ");
        push_blanks(&mut s, self.start - a);
        s.push('^');
        s.push_str("-----");
        s.push_str(self.msg.as_str());
        s.push('\n');
        push_type_note(&mut s, "  expected type: ", self.expected);
        push_type_note(&mut s, "  found type: ", self.found);
        assert(s@ =~= type_error_text(self@, source.spec_bytes()));
        s
    }

    /// Whether this error can be shown against `source`, as `shows_error` says.
    pub fn shows_in(&self, source: &str) -> (r: bool)
        ensures
            r == shows_error(source.spec_bytes(), self.start as int),
    {
        let ghost src = byte_chars(source.spec_bytes());
        let b = source.as_bytes();
        let n = b.len();
        if self.start == 0 || self.start >= n {
            return false;
        }
        if is_control_exec(byte_char(b, self.start)) {
            return false;
        }
        let (a, e) = self.window(b);
        if !source.is_char_boundary(a) || !source.is_char_boundary(e) {
            return false;
        }
        let mut k: usize = a;
        while k < e
            invariant
                a <= k <= e,
                e <= src.len(),
                a == error_window(src, self.start as int).0 && e == error_window(src, self.start as int).1,
                src == byte_chars(b@),
                b@ == source.spec_bytes(),
                forall|j: int| a <= j < k ==> !is_control(#[trigger] src[j]),
            decreases e - k,
        {
            let c = byte_char(b, k);
            if is_control_exec(c) {
                return false;
            }
            k += 1;
        }
        true
    }
}

impl ScopeError {
    /// This error shown: the header of a scope error.
    pub fn to_text(&self) -> (r: String)
        ensures
            r@ == "== Scope Error =="@,
    {
        let mut s = String::new();
        s.push_str("== Scope Error ==");
        s
    }
}


/// `n` dashes.
pub open spec fn dashes(n: nat) -> Seq<char> {
    Seq::new(n, |i: int| '-')
}

/// A symbol as `Token(..)` or `Node(..)` with its kind's name.
pub open spec fn sym_dbg(e: ElemT) -> Seq<char> {
    match e {
        ElemT::Token(t) => with_arg("Token"@, tok_name(t)),
        ElemT::Node(n) => with_arg("Node"@, node_name(n)),
    }
}

/// Symbols one after another, separated by `, `.
pub open spec fn syms_list(v: Seq<ElemT>) -> Seq<char>
    decreases v.len(),
{
    if v.len() == 0 {
        seq![]
    } else if v.len() == 1 {
        sym_dbg(v[0])
    } else {
        syms_list(v.drop_last()) + ", "@ + sym_dbg(v.last())
    }
}

/// The source characters shown for a syntax error: a line break as a blank, each other one
/// escaped.
pub open spec fn segment_text(s: Seq<char>) -> Seq<char>
    decreases s.len(),
{
    if s.len() == 0 {
        seq![]
    } else {
        segment_text(s.drop_last()) + if s.last() == '\n' { seq![' '] } else { shown_char(s.last()) }
    }
}

/// The part of the source shown for a syntax error: from at most twenty characters before the
/// top of the stack to at most twenty after the token found.
pub open spec fn syntax_window(src: Seq<char>, e: SyntaxErrorV) -> (int, int) {
    (line_start(src, e.at, 20), line_end(src, e.end, 20))
}

/// What showing a syntax error needs of the source bytes `b`: the top of the stack lies
/// within them past the first byte and not at an ASCII control character, the token found
/// lies after it within the source, and the part of the source shown starts and ends at
/// character boundaries. The part is found byte by byte.
pub open spec fn shows_syntax_error(b: Seq<u8>, e: SyntaxErrorV) -> bool {
    let src = byte_chars(b);
    &&& 0 < e.at < src.len()
    &&& !is_control(src[e.at])
    &&& e.at <= e.start <= e.end <= src.len()
    &&& is_char_boundary(b, syntax_window(src, e).0)
    &&& is_char_boundary(b, syntax_window(src, e).1)
}

/// A syntax error shown against its source: a header, the position, the part of the source
/// around it, a line marking the stack's top to the token found with `^` at that token, the
/// token found and the symbols the parser expected.
pub open spec fn syntax_error_text(e: SyntaxErrorV, b: Seq<u8>) -> Seq<char> {
    let (a, z) = syntax_window(byte_chars(b), e);
    "==Syntax Error==\n"@ + "Error At: "@ + dec(e.at as nat) + seq!['\n'] + "    "@
        + segment_text(text_between(b, a, z)) + "...\n"@ + "    "@ + blanks((e.at - a) as nat)
        + dashes((e.start - e.at) as nat) + seq!['^'] + dashes((e.end - e.start) as nat) + seq!['\n']
        + "unexpected token: "@ + sym_name(e.found) + seq!['\n']
        + "expected: "@ + seq!['['] + syms_list(e.expected) + seq![']'] + seq!['\n']
}

/// Appends `n` dashes.
fn push_dashes(s: &mut String, n: usize)
    ensures
        final(s)@ == old(s)@ + dashes(n as nat),
{
    let mut i: usize = 0;
    while i < n
        invariant
            i <= n,
            s@ == old(s)@ + dashes(i as nat),
        decreases n - i,
    {
        s.push('-');
        assert(dashes(i as nat).push('-') =~= dashes((i + 1) as nat));
        i += 1;
    }
}

/// Appends a symbol, as `sym_dbg` says.
fn push_sym(s: &mut String, e: ElemT)
    ensures
        final(s)@ == old(s)@ + sym_dbg(e),
{
    match e {
        ElemT::Token(t) => push_plain_arg(s, "Token", token_name(t)),
        ElemT::Node(n) => push_plain_arg(s, "Node", node_kind_name(n)),
    }
}

/// Where the line start from `a` ends up, as `line_start` says.
fn line_start_exec(b: &[u8], a0: usize) -> (r: usize)
    requires
        0 < a0 < b@.len(),
        !is_control(byte_chars(b@)[a0 as int]),
    ensures
        r == line_start(byte_chars(b@), a0 as int, 20),
        r <= a0,
{
    let ghost src = byte_chars(b@);
    let n = b.len();
    let mut a = a0;
    let mut k: usize = 20;
    let mut done = false;
    while k > 0 && !done
        invariant
            a <= a0 < n,
            n == src.len(),
            !done ==> 1 <= a,
            !is_control(src[a0 as int]),
            src == byte_chars(b@),
            !done ==> line_start(src, a0 as int, 20) == line_start(src, a as int, k as nat),
            done ==> line_start(src, a0 as int, 20) == a,
        decreases k + if done { 0int } else { 1int },
    {
        let c = byte_char(b, a);
        if is_control_exec(c) {
            a += 1;
            done = true;
        } else {
            a -= 1;
            if a == 0 {
                done = true;
            } else {
                k -= 1;
            }
        }
    }
    a
}

/// Where the line end from `e0` ends up, as `line_end` says.
fn line_end_exec(b: &[u8], e0: usize) -> (r: usize)
    requires
        e0 <= b@.len(),
    ensures
        r == line_end(byte_chars(b@), e0 as int, 20),
        e0 <= r <= b@.len(),
{
    let ghost src = byte_chars(b@);
    let n = b.len();
    let mut e = e0;
    let mut k: usize = 20;
    proof {
        lemma_line_end(src, e0 as int, 20);
    }
    while k > 0 && e < n && !is_control_exec(byte_char(b, e))
        invariant
            e0 <= e <= n,
            n == src.len(),
            src == byte_chars(b@),
            line_end(src, e0 as int, 20) == line_end(src, e as int, k as nat),
        decreases k,
    {
        e += 1;
        k -= 1;
    }
    e
}

impl SyntaxError {
    /// This error shown against its source, as `syntax_error_text` says.
    pub fn to_text(&self, source: &str) -> (r: String)
        requires
            shows_syntax_error(source.spec_bytes(), self@),
        ensures
            r@ == syntax_error_text(self@, source.spec_bytes()),
    {
        let ghost src = byte_chars(source.spec_bytes());
        let b = source.as_bytes();
        let a = line_start_exec(b, self.at);
        let e = line_end_exec(b, self.end);
        let w = slice_between(source, a, e);
        let n = w.unicode_len();
        let mut s = String::new();
        s.push_str("==Syntax Error==\n");
        s.push_str("Error At: ");
        crate::text::push_u64(&mut s, self.at as u64);
        s.push('\n');
        s.push_str("    ");
        let ghost s1 = s@;
        let mut k: usize = 0;
        while k < n
            invariant
                k <= n,
                n == w@.len(),
                s@ == s1 + segment_text(w@.subrange(0, k as int)),
            decreases n - k,
        {
            let c = w.get_char(k);
            if c == '\n' {
                s.push(' ');
            } else {
                push_shown(&mut s, c);
            }
            assert(w@.subrange(0, k + 1).drop_last() =~= w@.subrange(0, k as int));
            k += 1;
        }
        assert(w@.subrange(0, n as int) =~= w@);
        s.push_str("...\n");
        s.push_str("    ");
        push_blanks(&mut s, self.at - a);
        push_dashes(&mut s, self.start - self.at);
        s.push('^');
        push_dashes(&mut s, self.end - self.start);
        s.push('\n');
        s.push_str("unexpected token: ");
        s.push_str(symbol_name(self.found));
        s.push('\n');
        s.push_str("expected: ");
        s.push('[');
        let ghost s2 = s@;
        let mut i: usize = 0;
        while i < self.expected.len()
            invariant
                i <= self.expected@.len(),
                s@ == s2 + syms_list(self.expected@.subrange(0, i as int)),
            decreases self.expected@.len() - i,
        {
            if i > 0 {
                s.push_str(", ");
            }
            push_sym(&mut s, self.expected[i]);
            proof {
                let cur = self.expected@.subrange(0, i + 1);
                assert(cur.drop_last() =~= self.expected@.subrange(0, i as int));
                if i == 0 {
                    assert(cur.len() == 1);
                }
            }
            assert(s@ =~= s2 + syms_list(self.expected@.subrange(0, i + 1)));
            i += 1;
        }
        assert(self.expected@.subrange(0, self.expected@.len() as int) =~= self.expected@);
        s.push(']');
        s.push('\n');
        assert(s@ =~= syntax_error_text(self@, source.spec_bytes()));
        s
    }

    /// Whether this error can be shown against `source`, as `shows_syntax_error` says.
    pub fn shows_in(&self, source: &str) -> (r: bool)
        ensures
            r == shows_syntax_error(source.spec_bytes(), self@),
    {
        let b = source.as_bytes();
        let n = b.len();
        if self.at == 0 || self.at >= n || is_control_exec(byte_char(b, self.at)) {
            return false;
        }
        if !(self.at <= self.start && self.start <= self.end && self.end <= n) {
            return false;
        }
        let a = line_start_exec(b, self.at);
        let e = line_end_exec(b, self.end);
        source.is_char_boundary(a) && source.is_char_boundary(e)
    }
}

} // verus!
