use vstd::prelude::*;
use crate::token::Type;
use crate::typecheck::{TypeTable, TableV, SigV, FuncSig, alist_get};

verus! {

/// A white-space character as Unicode defines it.
pub open spec fn is_space(c: char) -> bool {
    ('\u{9}' <= c <= '\u{d}') || c == ' ' || c == '\u{85}' || c == '\u{a0}' || c == '\u{1680}'
        || ('\u{2000}' <= c <= '\u{200a}') || c == '\u{2028}' || c == '\u{2029}' || c == '\u{202f}'
        || c == '\u{205f}' || c == '\u{3000}'
}

/// The first position at or after `i` where `s` holds `c`, or the length.
pub open spec fn find_from(s: Seq<char>, c: char, i: int) -> int
    decreases s.len() - i,
{
    if i < 0 || i >= s.len() {
        s.len() as int
    } else if s[i] == c {
        i
    } else {
        find_from(s, c, i + 1)
    }
}

/// The first position of `c` in `s`.
pub open spec fn find(s: Seq<char>, c: char) -> Option<int> {
    if find_from(s, c, 0) < s.len() {
        Some(find_from(s, c, 0))
    } else {
        None
    }
}

/// The number of white-space characters at the start of `s`.
pub open spec fn lead(s: Seq<char>, i: int) -> int
    decreases s.len() - i,
{
    if 0 <= i < s.len() && is_space(s[i]) {
        lead(s, i + 1)
    } else {
        i
    }
}

/// Where the white space at the end of `s[..j]` starts, not before `i`.
pub open spec fn trail(s: Seq<char>, i: int, j: int) -> int
    decreases j - i,
{
    if i < j && is_space(s[j - 1]) {
        trail(s, i, j - 1)
    } else {
        j
    }
}

/// `s` without white space at either end.
pub open spec fn trim(s: Seq<char>) -> Seq<char> {
    let a = lead(s, 0);
    s.subrange(a, trail(s, a, s.len() as int))
}

/// The lines of `s` from position `i`: split at `\n`, a `\r` before it dropped.
pub open spec fn lines_from(s: Seq<char>, i: int) -> Seq<Seq<char>>
    decreases s.len() + 1 - i,
{
    if i < 0 || i >= s.len() {
        seq![]
    } else {
        let j = find_from(s, '\n', i);
        let l = s.subrange(i, j);
        let line = if j < s.len() && l.len() > 0 && l.last() == '\r' { l.drop_last() } else { l };
        proof {
            lemma_find_from(s, '\n', i);
        }
        seq![line] + lines_from(s, j + 1)
    }
}

/// The parts of `s` between commas, from position `i` on.
pub open spec fn split_from(s: Seq<char>, i: int) -> Seq<Seq<char>>
    decreases s.len() - i,
{
    if i < 0 || i > s.len() {
        seq![]
    } else {
        let j = find_from(s, ',', i);
        proof {
            lemma_find_from(s, ',', i);
        }
        if j < s.len() {
            seq![s.subrange(i, j)] + split_from(s, j + 1)
        } else {
            seq![s.subrange(i, s.len() as int)]
        }
    }
}

/// The type named at the start of `s` after white space: `i64`, `void` or `str`.
pub open spec fn to_type(s: Seq<char>) -> Option<Type> {
    let t = s.subrange(lead(s, 0), s.len() as int);
    if t.len() >= 3 && t.subrange(0, 3) == seq!['i', '6', '4'] {
        Some(Type::Int)
    } else if t.len() >= 4 && t.subrange(0, 4) == seq!['v', 'o', 'i', 'd'] {
        Some(Type::Void)
    } else if t.len() >= 3 && t.subrange(0, 3) == seq!['s', 't', 'r'] {
        Some(Type::String)
    } else {
        None
    }
}

/// The types of the first `k` parts, each trimmed; `None` when one is not a type.
pub open spec fn types_of(ps: Seq<Seq<char>>, k: int) -> Option<Seq<Type>>
    decreases k,
{
    if k <= 0 || k > ps.len() {
        Some(seq![])
    } else {
        match (types_of(ps, k - 1), to_type(trim(ps[k - 1]))) {
            (Some(r), Some(t)) => Some(r.push(t)),
            _ => None,
        }
    }
}

/// The prefix of a signature annotation: `;;@signature `.
pub open spec fn sig_prefix() -> Seq<char> {
    seq![';', ';', '@', 's', 'i', 'g', 'n', 'a', 't', 'u', 'r', 'e', ' ']
}

/// The signature that an annotation body `$ident : ret (p0, p1, ...)` declares; `None` when a
/// mark is missing, the marks are out of order, or a type is not one.
pub open spec fn parse_sig(l: Seq<char>) -> Option<(Seq<char>, SigV)> {
    match (find(l, '$'), find(l, ':'), find(l, '('), find(l, ')')) {
        (Some(a), Some(b), Some(c), Some(d)) => if a + 1 <= b && b + 1 <= c && c + 1 <= d {
            match (to_type(trim(l.subrange(b + 1, c))), types_of(split_from(l.subrange(c + 1, d), 0), split_from(l.subrange(c + 1, d), 0).len() as int)) {
                (Some(r), Some(ps)) => Some((trim(l.subrange(a + 1, b)), (ps, r))),
                _ => None,
            }
        } else {
            None
        },
        _ => None,
    }
}

/// The table of the library's signatures after its first `k` lines: each line that, trimmed,
/// starts with `;;@signature ` declares a function; `None` when one is malformed or declares a
/// function a second time.
pub open spec fn std_upto(ls: Seq<Seq<char>>, k: int) -> Option<Seq<(Seq<char>, SigV)>>
    decreases k,
{
    if k <= 0 || k > ls.len() {
        Some(seq![])
    } else {
        match std_upto(ls, k - 1) {
            None => None,
            Some(fs) => {
                let l = trim(ls[k - 1]);
                if l.len() >= 13 && l.subrange(0, 13) == sig_prefix() {
                    match parse_sig(l.subrange(13, l.len() as int)) {
                        Some((id, sig)) => if alist_get(fs, id) is Some {
                            None
                        } else {
                            Some(fs.push((id, sig)))
                        },
                        None => None,
                    }
                } else {
                    Some(fs)
                }
            },
        }
    }
}

/// The signatures a library text declares, as `std_upto` says over all its lines.
pub open spec fn std_sigs(lib: Seq<char>) -> Option<Seq<(Seq<char>, SigV)>> {
    std_upto(lines_from(lib, 0), lines_from(lib, 0).len() as int)
}

/// The position found is the character or the end, with no such character before it.
pub proof fn lemma_find_from(s: Seq<char>, c: char, i: int)
    requires
        0 <= i <= s.len(),
    ensures
        i <= find_from(s, c, i) <= s.len(),
        find_from(s, c, i) < s.len() ==> s[find_from(s, c, i)] == c,
        forall|k: int| i <= k < find_from(s, c, i) ==> s[k] != c,
    decreases s.len() - i,
{
    if i < s.len() && s[i] != c {
        lemma_find_from(s, c, i + 1);
    }
}


/// The views of a sequence of character vectors.
pub open spec fn vv(v: Seq<Vec<char>>) -> Seq<Seq<char>> {
    v.map_values(|x: Vec<char>| x@)
}

/// The characters of a string.
fn chars_of(s: &str) -> (r: Vec<char>)
    ensures
        r@ == s@,
{
    let n = s.unicode_len();
    let mut r: Vec<char> = Vec::new();
    let mut i: usize = 0;
    while i < n
        invariant
            i <= n,
            n == s@.len(),
            r@ == s@.subrange(0, i as int),
        decreases n - i,
    {
        r.push(s.get_char(i));
        assert(r@ =~= s@.subrange(0, i + 1));
        i += 1;
    }
    assert(r@ =~= s@);
    r
}

/// A string of the characters `v`.
fn string_of(v: &Vec<char>) -> (r: String)
    ensures
        r@ == v@,
{
    let mut r = String::new();
    let mut i: usize = 0;
    while i < v.len()
        invariant
            i <= v@.len(),
            r@ == v@.subrange(0, i as int),
        decreases v@.len() - i,
    {
        r.push(v[i]);
        assert(r@ =~= v@.subrange(0, i + 1));
        i += 1;
    }
    assert(r@ =~= v@);
    r
}

/// The characters of `s` from `a` to `b`.
fn slice_chars(s: &Vec<char>, a: usize, b: usize) -> (r: Vec<char>)
    requires
        a <= b <= s@.len(),
    ensures
        r@ == s@.subrange(a as int, b as int),
{
    let mut r: Vec<char> = Vec::new();
    let mut i = a;
    while i < b
        invariant
            a <= i <= b,
            b <= s@.len(),
            r@ == s@.subrange(a as int, i as int),
        decreases b - i,
    {
        r.push(s[i]);
        assert(r@ =~= s@.subrange(a as int, i + 1));
        i += 1;
    }
    r
}

/// Whether `c` is white space, as `is_space` says.
fn is_space_exec(c: char) -> (r: bool)
    ensures
        r == is_space(c),
{
    ('\u{9}' <= c && c <= '\u{d}') || c == ' ' || c == '\u{85}' || c == '\u{a0}' || c == '\u{1680}'
        || ('\u{2000}' <= c && c <= '\u{200a}') || c == '\u{2028}' || c == '\u{2029}' || c == '\u{202f}'
        || c == '\u{205f}' || c == '\u{3000}'
}

/// The first position at or after `i` where `s` holds `c`, or the length.
fn find_from_exec(s: &Vec<char>, c: char, i: usize) -> (r: usize)
    requires
        i <= s@.len(),
    ensures
        r == find_from(s@, c, i as int),
        i <= r <= s@.len(),
{
    let mut j = i;
    while j < s.len() && s[j] != c
        invariant
            i <= j <= s@.len(),
            find_from(s@, c, j as int) == find_from(s@, c, i as int),
        decreases s@.len() - j,
    {
        j += 1;
    }
    j
}

/// `s` without white space at either end.
fn trim_exec(s: &Vec<char>) -> (r: Vec<char>)
    ensures
        r@ == trim(s@),
{
    let mut a: usize = 0;
    while a < s.len() && is_space_exec(s[a])
        invariant
            a <= s@.len(),
            lead(s@, a as int) == lead(s@, 0),
        decreases s@.len() - a,
    {
        a += 1;
    }
    let mut b = s.len();
    while a < b && is_space_exec(s[b - 1])
        invariant
            a <= b <= s@.len(),
            trail(s@, a as int, b as int) == trail(s@, a as int, s@.len() as int),
        decreases b,
    {
        b -= 1;
    }
    slice_chars(s, a, b)
}

/// The type named at the start of `s`, as `to_type` says.
fn to_type_exec(s: &Vec<char>) -> (r: Option<Type>)
    ensures
        r == to_type(s@),
{
    let mut a: usize = 0;
    while a < s.len() && is_space_exec(s[a])
        invariant
            a <= s@.len(),
            lead(s@, a as int) == lead(s@, 0),
        decreases s@.len() - a,
    {
        a += 1;
    }
    let ghost t = s@.subrange(a as int, s@.len() as int);
    let n = s.len() - a;
    if n >= 3 && s[a] == 'i' && s[a + 1] == '6' && s[a + 2] == '4' {
        assert(t.subrange(0, 3) =~= seq!['i', '6', '4']);
        return Some(Type::Int);
    }
    assert(!(t.len() >= 3 && t.subrange(0, 3) == seq!['i', '6', '4'])) by {
        if t.len() >= 3 && t.subrange(0, 3) == seq!['i', '6', '4'] {
            assert(t.subrange(0, 3)[0] == s@[a as int]);
            assert(t.subrange(0, 3)[1] == s@[a + 1]);
            assert(t.subrange(0, 3)[2] == s@[a + 2]);
        }
    }
    if n >= 4 && s[a] == 'v' && s[a + 1] == 'o' && s[a + 2] == 'i' && s[a + 3] == 'd' {
        assert(t.subrange(0, 4) =~= seq!['v', 'o', 'i', 'd']);
        return Some(Type::Void);
    }
    assert(!(t.len() >= 4 && t.subrange(0, 4) == seq!['v', 'o', 'i', 'd'])) by {
        if t.len() >= 4 && t.subrange(0, 4) == seq!['v', 'o', 'i', 'd'] {
            assert(t.subrange(0, 4)[0] == s@[a as int]);
            assert(t.subrange(0, 4)[1] == s@[a + 1]);
            assert(t.subrange(0, 4)[2] == s@[a + 2]);
            assert(t.subrange(0, 4)[3] == s@[a + 3]);
        }
    }
    if n >= 3 && s[a] == 's' && s[a + 1] == 't' && s[a + 2] == 'r' {
        assert(t.subrange(0, 3) =~= seq!['s', 't', 'r']);
        return Some(Type::String);
    }
    assert(!(t.len() >= 3 && t.subrange(0, 3) == seq!['s', 't', 'r'])) by {
        if t.len() >= 3 && t.subrange(0, 3) == seq!['s', 't', 'r'] {
            assert(t.subrange(0, 3)[0] == s@[a as int]);
            assert(t.subrange(0, 3)[1] == s@[a + 1]);
            assert(t.subrange(0, 3)[2] == s@[a + 2]);
        }
    }
    None
}

/// The parts of `s` between commas, as `split_from` says from the start.
fn split_exec(s: &Vec<char>) -> (r: Vec<Vec<char>>)
    ensures
        vv(r@) == split_from(s@, 0),
{
    let mut parts: Vec<Vec<char>> = Vec::new();
    let mut i: usize = 0;
    loop
        invariant
            i <= s@.len(),
            split_from(s@, 0) == vv(parts@) + split_from(s@, i as int),
        decreases s@.len() - i,
    {
        let j = find_from_exec(s, ',', i);
        let ghost before = vv(parts@);
        if j < s.len() {
            parts.push(slice_chars(s, i, j));
            assert(vv(parts@) =~= before.push(s@.subrange(i as int, j as int)));
            assert(split_from(s@, i as int) == seq![s@.subrange(i as int, j as int)] + split_from(s@, j + 1));
            assert(before + (seq![s@.subrange(i as int, j as int)] + split_from(s@, j + 1)) =~= vv(parts@) + split_from(s@, j + 1));
            i = j + 1;
        } else {
            parts.push(slice_chars(s, i, s.len()));
            assert(vv(parts@) =~= before.push(s@.subrange(i as int, s@.len() as int)));
            assert(split_from(s@, i as int) == seq![s@.subrange(i as int, s@.len() as int)]);
            assert(before + seq![s@.subrange(i as int, s@.len() as int)] =~= vv(parts@));
            return parts;
        }
    }
}

/// The lines of `s`, as `lines_from` says from the start.
fn lines_exec(s: &Vec<char>) -> (r: Vec<Vec<char>>)
    ensures
        vv(r@) == lines_from(s@, 0),
{
    let mut ls: Vec<Vec<char>> = Vec::new();
    let mut i: usize = 0;
    assert(vv(ls@) =~= seq![]);
    while i < s.len()
        invariant
            i <= s@.len(),
            lines_from(s@, 0) == vv(ls@) + lines_from(s@, i as int),
        decreases s@.len() - i,
    {
        let j = find_from_exec(s, '\n', i);
        let mut l = slice_chars(s, i, j);
        if j < s.len() && l.len() > 0 && l[l.len() - 1] == '\r' {
            l.pop();
        }
        let ghost before = vv(ls@);
        let ghost lv = l@;
        ls.push(l);
        assert(vv(ls@) =~= before.push(lv));
        assert(before + (seq![lv] + lines_from(s@, j + 1)) =~= vv(ls@) + lines_from(s@, j + 1));
        if j < s.len() {
            i = j + 1;
        } else {
            assert(lines_from(s@, j + 1) == Seq::<Seq<char>>::empty());
            assert(vv(ls@) + lines_from(s@, j + 1) =~= vv(ls@));
            return ls;
        }
    }
    assert(vv(ls@) + lines_from(s@, i as int) =~= vv(ls@));
    ls
}

/// The types of the parts, each trimmed, as `types_of` says.
fn types_exec(ps: &Vec<Vec<char>>) -> (r: Option<Vec<Type>>)
    ensures
        match (types_of(vv(ps@), ps@.len() as int), r) {
            (Some(v), Some(x)) => x@ == v,
            (None, None) => true,
            _ => false,
        },
{
    let ghost pv = vv(ps@);
    let mut out: Vec<Type> = Vec::new();
    let mut i: usize = 0;
    while i < ps.len()
        invariant
            i <= ps@.len(),
            pv == vv(ps@),
            types_of(pv, i as int) == Some(out@),
        decreases ps@.len() - i,
    {
        let t = trim_exec(&ps[i]);
        assert(pv[i as int] == ps@[i as int]@);
        match to_type_exec(&t) {
            Some(ty) => {
                out.push(ty);
            },
            None => {
                proof {
                    lemma_types_none(pv, i as int + 1, ps@.len() as int);
                }
                return None;
            },
        }
        i += 1;
    }
    Some(out)
}

/// Once the types of a prefix fail, those of a longer prefix fail.
proof fn lemma_types_none(ps: Seq<Seq<char>>, j: int, k: int)
    requires
        0 <= j <= k <= ps.len(),
        types_of(ps, j) is None,
    ensures
        types_of(ps, k) is None,
    decreases k - j,
{
    if j < k {
        lemma_types_none(ps, j + 1, k);
    }
}

/// The signature an annotation body declares, as `parse_sig` says.
fn parse_sig_exec(l: &Vec<char>) -> (r: Option<(Vec<char>, Vec<Type>, Type)>)
    ensures
        match (parse_sig(l@), r) {
            (Some((id, sig)), Some((x, ps, rt))) => x@ == id && ps@ == sig.0 && rt == sig.1,
            (None, None) => true,
            _ => false,
        },
{
    let n = l.len();
    let a = find_from_exec(l, '$', 0);
    let b = find_from_exec(l, ':', 0);
    let c = find_from_exec(l, '(', 0);
    let d = find_from_exec(l, ')', 0);
    if a >= n || b >= n || c >= n || d >= n {
        return None;
    }
    if !(a + 1 <= b && b + 1 <= c && c + 1 <= d) {
        return None;
    }
    let rt = to_type_exec(&trim_exec(&slice_chars(l, b + 1, c)));
    let parts = split_exec(&slice_chars(l, c + 1, d));
    let ps = types_exec(&parts);
    match (rt, ps) {
        (Some(rt), Some(ps)) => Some((trim_exec(&slice_chars(l, a + 1, b)), ps, rt)),
        _ => None,
    }
}

/// Whether `l` starts with `;;@signature `.
fn has_sig_prefix(l: &Vec<char>) -> (r: bool)
    ensures
        r == (l@.len() >= 13 && l@.subrange(0, 13) == sig_prefix()),
{
    let p = [';', ';', '@', 's', 'i', 'g', 'n', 'a', 't', 'u', 'r', 'e', ' '];
    if l.len() < 13 {
        return false;
    }
    let mut i: usize = 0;
    while i < 13
        invariant
            i <= 13,
            l@.len() >= 13,
            p@ == sig_prefix(),
            forall|k: int| 0 <= k < i ==> l@[k] == sig_prefix()[k],
        decreases 13 - i,
    {
        if l[i] != p[i] {
            assert(l@.subrange(0, 13)[i as int] != sig_prefix()[i as int]);
            return false;
        }
        i += 1;
    }
    assert(l@.subrange(0, 13) =~= sig_prefix());
    true
}

impl TypeTable {
    /// The table of the signatures that the library text `lib` declares, as `std_sigs` says,
    /// with no variables; `None` when an annotation is malformed or repeats a name.
    #[verifier::loop_isolation(false)]
    pub fn with_std(lib: &str) -> (r: Option<TypeTable>)
        ensures
            match (std_sigs(lib@), r) {
                (Some(fs), Some(t)) => t@.funcs == fs && t@.vars == Seq::<(Seq<char>, Type)>::empty(),
                (None, None) => true,
                _ => false,
            },
    {
        let text = chars_of(lib);
        let ls = lines_exec(&text);
        let ghost lv = vv(ls@);
        let mut table = TypeTable::new();
        let mut k: usize = 0;
        while k < ls.len()
            invariant
                k <= ls@.len(),
                lv == vv(ls@),
                lv == lines_from(lib@, 0),
                std_upto(lv, k as int) == Some(table@.funcs),
                table@.vars == Seq::<(Seq<char>, Type)>::empty(),
            decreases ls@.len() - k,
        {
            let l = trim_exec(&ls[k]);
            assert(lv[k as int] == ls@[k as int]@);
            if has_sig_prefix(&l) {
                let body = slice_chars(&l, 13, l.len());
                match parse_sig_exec(&body) {
                    Some((id, ps, rt)) => {
                        let name = string_of(&id);
                        if !table.define_f(&name, (ps, rt)) {
                            proof {
                                lemma_std_none(lv, k as int + 1, lv.len() as int);
                            }
                            return None;
                        }
                    },
                    None => {
                        proof {
                            lemma_std_none(lv, k as int + 1, lv.len() as int);
                        }
                        return None;
                    },
                }
            }
            k += 1;
        }
        Some(table)
    }
}

/// Once the signatures of a prefix of the lines fail, those of a longer prefix fail.
proof fn lemma_std_none(ls: Seq<Seq<char>>, j: int, k: int)
    requires
        0 <= j <= k <= ls.len(),
        std_upto(ls, j) is None,
    ensures
        std_upto(ls, k) is None,
    decreases k - j,
{
    if j < k {
        lemma_std_none(ls, j + 1, k);
    }
}

} // verus!
