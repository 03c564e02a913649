//! Reading the lexical units of a pipeline definition.
use vstd::prelude::*;
use vstd::string::StrSliceExecFns;
use crate::parsing::rules;
use crate::text::chars_of;

verus! {

broadcast use vstd::string::group_string_axioms;

/// A pipeline definition together with its characters.
pub struct Input<'a> {
    pub text: &'a str,
    pub chars: Vec<char>,
}

impl<'a> Input<'a> {
    /// The characters of the definition.
    pub open spec fn s(&self) -> Seq<char> {
        self.chars@
    }

    pub open spec fn wf(&self) -> bool {
        &&& self.chars@ == self.text@
        &&& self.chars@.len() <= usize::MAX
    }

    pub fn new(text: &'a str) -> (r: Self)
        ensures
            r.wf(),
            r.text == text,
    {
        let chars = chars_of(text);
        let _ = chars.len();
        Input { text, chars }
    }

    /// The characters from `from` to `to`, as a slice of the definition.
    pub fn slice(&self, from: usize, to: usize) -> (r: &'a str)
        requires
            self.wf(),
            from <= to <= self.chars@.len(),
        ensures
            r@ == self.s().subrange(from as int, to as int),
    {
        self.text.substring_char(from, to)
    }
}

/// An exec result agrees with the rule's result.
pub open spec fn agrees<T: View>(r: Option<(T, usize)>, m: Option<(T::V, int)>) -> bool {
    match r {
        Some((v, q)) => m == Some((v@, q as int)),
        None => m is None,
    }
}

/// An exec result of plain value and position agrees with the rule's result.
pub open spec fn agrees_plain<T>(r: Option<(T, usize)>, m: Option<(T, int)>) -> bool {
    match r {
        Some((v, q)) => m == Some((v, q as int)),
        None => m is None,
    }
}

/// An exec position agrees with the rule's position.
pub open spec fn agrees_pos(r: Option<usize>, m: Option<int>) -> bool {
    match r {
        Some(q) => m == Some(q as int),
        None => m is None,
    }
}

/// The literal `l` is found at `p`.
pub fn lit(inp: &Input, p: usize, l: &str) -> (r: bool)
    requires
        inp.wf(),
    ensures
        r == rules::lit(inp.s(), p as int, l@),
{
    let lc = chars_of(l);
    let n = inp.chars.len();
    if p > n || lc.len() > n - p {
        return false;
    }
    let mut i: usize = 0;
    while i < lc.len()
        invariant
            lc@ == l@,
            n == inp.s().len(),
            p + lc@.len() <= n,
            i <= lc@.len(),
            forall|k: int| 0 <= k < i ==> inp.s()[p + k] == lc@[k],
        decreases lc@.len() - i,
    {
        if inp.chars[p + i] != lc[i] {
            assert(inp.s().subrange(p as int, p + lc@.len())[i as int] != l@[i as int]);
            return false;
        }
        i = i + 1;
    }
    assert(inp.s().subrange(p as int, p + lc@.len()) =~= l@);
    true
}

/// The literal `l` at `p`, and the position after it.
pub fn lit_end(inp: &Input, p: usize, l: &str) -> (r: Option<usize>)
    requires
        inp.wf(),
    ensures
        r == (if rules::lit(inp.s(), p as int, l@) {
            Some((p + l@.len()) as usize)
        } else {
            None::<usize>
        }),
        r matches Some(q) ==> p <= q <= inp.s().len(),
{
    if lit(inp, p, l) {
        let lc = chars_of(l);
        let n = inp.chars.len();
        assert(p + lc@.len() <= n);
        Some(p + lc.len())
    } else {
        None
    }
}

/// Position after the whitespace starting at `p`.
pub fn skip_ws(inp: &Input, p: usize) -> (r: usize)
    requires
        inp.wf(),
        p <= inp.s().len(),
    ensures
        r as int == rules::skip_ws(inp.s(), p as int),
        p <= r <= inp.s().len(),
{
    let mut i = p;
    while i < inp.chars.len() && (inp.chars[i] == ' ' || inp.chars[i] == '\n' || inp.chars[i] == '\r'
        || inp.chars[i] == '\t')
        invariant
            p <= i <= inp.s().len(),
            rules::skip_ws(inp.s(), p as int) == rules::skip_ws(inp.s(), i as int),
        decreases inp.s().len() - i,
    {
        i = i + 1;
    }
    i
}

/// `c` may stand in an identifier.
pub fn is_ident_char(c: char) -> (r: bool)
    ensures
        r == rules::is_ident_char(c),
{
    ('a' <= c && c <= 'z') || ('A' <= c && c <= 'Z') || ('0' <= c && c <= '9') || c == '-' || c
        == '_'
}

/// Position after the identifier characters starting at `p`.
pub fn scan_ident(inp: &Input, p: usize) -> (r: usize)
    requires
        inp.wf(),
        p <= inp.s().len(),
    ensures
        r as int == rules::scan_ident(inp.s(), p as int),
        p <= r <= inp.s().len(),
{
    let mut i = p;
    while i < inp.chars.len() && is_ident_char(inp.chars[i])
        invariant
            p <= i <= inp.s().len(),
            rules::scan_ident(inp.s(), p as int) == rules::scan_ident(inp.s(), i as int),
        decreases inp.s().len() - i,
    {
        i = i + 1;
    }
    i
}

/// An identifier at `p`.
pub fn identifier<'a>(inp: &Input<'a>, p: usize) -> (r: Option<(&'a str, usize)>)
    requires
        inp.wf(),
        p <= inp.s().len(),
    ensures
        agrees(r, rules::identifier(inp.s(), p as int)),
        r matches Some((_, q)) ==> p < q <= inp.s().len(),
{
    let q = scan_ident(inp, p);
    if p < q {
        Some((inp.slice(p, q), q))
    } else {
        None
    }
}

/// Position after the digits starting at `p`.
pub fn scan_digits(inp: &Input, p: usize) -> (r: usize)
    requires
        inp.wf(),
        p <= inp.s().len(),
    ensures
        r as int == rules::scan_digits(inp.s(), p as int),
        p <= r <= inp.s().len(),
{
    let mut i = p;
    while i < inp.chars.len() && '0' <= inp.chars[i] && inp.chars[i] <= '9'
        invariant
            p <= i <= inp.s().len(),
            rules::scan_digits(inp.s(), p as int) == rules::scan_digits(inp.s(), i as int),
        decreases inp.s().len() - i,
    {
        i = i + 1;
    }
    i
}

/// The value of a digit run grows with the run.
proof fn lemma_digits_value_prefix(d: Seq<char>, k: int)
    requires
        0 <= k <= d.len(),
        forall|i: int| 0 <= i < d.len() ==> rules::is_digit(#[trigger] d[i]),
    ensures
        rules::digits_value(d.subrange(0, k)) <= rules::digits_value(d),
    decreases d.len(),
{
    if k < d.len() {
        assert(d.drop_last().subrange(0, k) =~= d.subrange(0, k));
        lemma_digits_value_prefix(d.drop_last(), k);
    } else {
        assert(d.subrange(0, k) =~= d);
    }
}

/// A number at `p`.
pub fn number(inp: &Input, p: usize) -> (r: Option<(usize, usize)>)
    requires
        inp.wf(),
        p <= inp.s().len(),
    ensures
        agrees_plain(r, rules::number(inp.s(), p as int)),
        r matches Some((_, q)) ==> p < q <= inp.s().len(),
{
    let q = scan_digits(inp, p);
    if q == p {
        return None;
    }
    let ghost s = inp.s();
    proof {
        assert forall|i: int| p <= i < q implies rules::is_digit(#[trigger] s[i]) by {
            lemma_scan_digits(s, p as int, i);
        }
    }
    let mut v: usize = 0;
    let mut i = p;
    while i < q
        invariant
            p <= i <= q <= s.len(),
            s == inp.s(),
            q == rules::scan_digits(s, p as int),
            forall|k: int| p <= k < q ==> rules::is_digit(#[trigger] s[k]),
            v as nat == rules::digits_value(s.subrange(p as int, i as int)),
        decreases q - i,
    {
        let c = inp.chars[i];
        let d: u32 = (c as u32) - ('0' as u32);
        assert(s.subrange(p as int, i + 1).drop_last() =~= s.subrange(p as int, i as int));
        match v.checked_mul(10) {
            Some(t) => match t.checked_add(d as usize) {
                Some(u) => {
                    v = u;
                },
                None => {
                    proof {
                        let whole = s.subrange(p as int, q as int);
                        assert(whole.subrange(0, i + 1 - p) =~= s.subrange(p as int, i + 1));
                        lemma_digits_value_prefix(whole, i + 1 - p);
                    }
                    return None;
                },
            },
            None => {
                proof {
                    let whole = s.subrange(p as int, q as int);
                    assert(whole.subrange(0, i + 1 - p) =~= s.subrange(p as int, i + 1));
                    lemma_digits_value_prefix(whole, i + 1 - p);
                }
                return None;
            },
        }
        i = i + 1;
    }
    Some((v, q))
}

/// Every character before the end of a digit run is a digit.
proof fn lemma_scan_digits(s: Seq<char>, p: int, i: int)
    requires
        0 <= p <= i < rules::scan_digits(s, p),
    ensures
        rules::is_digit(s[i]),
    decreases s.len() - p,
{
    if p < i {
        lemma_scan_digits(s, p + 1, i);
    }
}

/// Position of the first `stop` at or after `p`, or the end.
pub fn scan_until(inp: &Input, p: usize, stop: char) -> (r: usize)
    requires
        inp.wf(),
        p <= inp.s().len(),
    ensures
        r as int == rules::scan_until(inp.s(), p as int, stop),
        p <= r <= inp.s().len(),
{
    let mut i = p;
    while i < inp.chars.len() && inp.chars[i] != stop
        invariant
            p <= i <= inp.s().len(),
            rules::scan_until(inp.s(), p as int, stop) == rules::scan_until(inp.s(), i as int, stop),
        decreases inp.s().len() - i,
    {
        i = i + 1;
    }
    i
}

/// A value in `quote` characters at `p`.
pub fn quoted<'a>(inp: &Input<'a>, p: usize, quote: char) -> (r: Option<(&'a str, usize)>)
    requires
        inp.wf(),
        p <= inp.s().len(),
    ensures
        agrees(r, rules::quoted(inp.s(), p as int, quote)),
        r matches Some((_, q)) ==> p < q <= inp.s().len(),
{
    if p < inp.chars.len() && inp.chars[p] == quote {
        let e = scan_until(inp, p + 1, quote);
        if p + 1 < e && e < inp.chars.len() {
            Some((inp.slice(p + 1, e), e + 1))
        } else {
            None
        }
    } else {
        None
    }
}

/// `string_value` at `p`.
pub fn string_value<'a>(inp: &Input<'a>, p: usize) -> (r: Option<(&'a str, usize)>)
    requires
        inp.wf(),
        p <= inp.s().len(),
    ensures
        agrees(r, rules::string_value(inp.s(), p as int)),
        r matches Some((_, q)) ==> p < q <= inp.s().len(),
{
    match quoted(inp, p, '"') {
        Some(r) => Some(r),
        None => match quoted(inp, p, '\'') {
            Some(r) => Some(r),
            None => quoted(inp, p, '?'),
        },
    }
}

/// The first of two keywords at `p`, and the position after it.
pub fn keyword2(inp: &Input, p: usize, k1: &str, k2: &str) -> (r: Option<usize>)
    requires
        inp.wf(),
    ensures
        agrees_pos(r, rules::keyword2(inp.s(), p as int, k1@, k2@)),
        r matches Some(q) ==> p <= q <= inp.s().len(),
{
    match lit_end(inp, p, k1) {
        Some(q) => Some(q),
        None => lit_end(inp, p, k2),
    }
}

/// The first of three keywords at `p`, and the position after it.
pub fn keyword3(inp: &Input, p: usize, k1: &str, k2: &str, k3: &str) -> (r: Option<usize>)
    requires
        inp.wf(),
    ensures
        agrees_pos(r, rules::keyword3(inp.s(), p as int, k1@, k2@, k3@)),
        r matches Some(q) ==> p <= q <= inp.s().len(),
{
    match keyword2(inp, p, k1, k2) {
        Some(q) => Some(q),
        None => lit_end(inp, p, k3),
    }
}

/// A pipe (`|` with optional whitespace around it) at `p`, and the position after it.
pub fn pipe(inp: &Input, p: usize) -> (r: Option<usize>)
    requires
        inp.wf(),
        p <= inp.s().len(),
    ensures
        agrees_pos(r, rules::pipe(inp.s(), p as int)),
        r matches Some(q) ==> p < q <= inp.s().len(),
{
    let a = skip_ws(inp, p);
    if a < inp.chars.len() && inp.chars[a] == '|' {
        Some(skip_ws(inp, a + 1))
    } else {
        None
    }
}

/// An assignment marker at `p`.
pub fn assign_marker(inp: &Input, p: usize) -> (r: Option<usize>)
    requires
        inp.wf(),
    ensures
        agrees_pos(r, rules::assign_marker(inp.s(), p as int)),
        r matches Some(q) ==> p <= q <= inp.s().len(),
{
    proof {
        reveal_strlit("<=");
    }
    match lit_end(inp, p, "↤") {
        Some(q) => Some(q),
        None => lit_end(inp, p, "<="),
    }
}

/// An iteration marker at `p`.
pub fn iterate_marker(inp: &Input, p: usize) -> (r: Option<usize>)
    requires
        inp.wf(),
    ensures
        agrees_pos(r, rules::iterate_marker(inp.s(), p as int)),
        r matches Some(q) ==> p <= q <= inp.s().len(),
{
    proof {
        reveal_strlit("=>");
    }
    match lit_end(inp, p, "↦") {
        Some(q) => Some(q),
        None => lit_end(inp, p, "=>"),
    }
}

} // verus!
