//! Operations on the string values that commands write into the document.
use vstd::prelude::*;
use crate::text::chars_of;

verus! {

broadcast use vstd::string::group_string_axioms;

/// `String::push`: the string with `c` added at its end.
#[verifier::external_body]
pub(crate) fn push_char(s: &mut String, c: char)
    ensures
        final(s)@ == old(s)@.push(c),
{
    s.push(c)
}

/// The entity that stands for `c` in HTML text (`quotes` also for `"`), or `c` itself.
pub open spec fn escape_char(c: char, quotes: bool) -> Seq<char> {
    if c == '&' {
        seq!['&', 'a', 'm', 'p', ';']
    } else if c == '<' {
        seq!['&', 'l', 't', ';']
    } else if c == '>' {
        seq!['&', 'g', 't', ';']
    } else if quotes && c == '"' {
        seq!['&', 'q', 'u', 'o', 't', ';']
    } else {
        seq![c]
    }
}

/// `s` with each character escaped.
pub open spec fn escaped(s: Seq<char>, quotes: bool) -> Seq<char>
    decreases s.len(),
{
    if s.len() == 0 {
        Seq::empty()
    } else {
        escaped(s.drop_last(), quotes) + escape_char(s.last(), quotes)
    }
}

/// `html_escape::encode_text`: every `&`, `<` and `>` replaced by `&amp;`, `&lt;`, `&gt;`.
#[verifier::external_body]
pub(crate) fn encode_text(s: &str) -> (r: String)
    ensures
        r@ == escaped(s@, false),
{
    html_escape::encode_text(s).into_owned()
}

/// `html_escape::encode_double_quoted_attribute`: as `encode_text`, and every `"` replaced
/// by `&quot;`.
#[verifier::external_body]
pub(crate) fn encode_double_quoted_attribute(s: &str) -> (r: String)
    ensures
        r@ == escaped(s@, true),
{
    html_escape::encode_double_quoted_attribute(s).into_owned()
}

/// `s` with each line break written as a backslash and `n`.
pub open spec fn newlines_escaped(s: Seq<char>) -> Seq<char>
    decreases s.len(),
{
    if s.len() == 0 {
        Seq::empty()
    } else {
        newlines_escaped(s.drop_last()) + if s.last() == '\n' {
            seq!['\\', 'n']
        } else {
            seq![s.last()]
        }
    }
}

/// `s` with each `--`, read from the left, written as `\x2D\x2D`.
pub open spec fn dashes_escaped(s: Seq<char>) -> Seq<char>
    decreases s.len(),
{
    if s.len() == 0 {
        Seq::empty()
    } else if s.len() >= 2 && s[0] == '-' && s[1] == '-' {
        seq!['\\', 'x', '2', 'D', '\\', 'x', '2', 'D'] + dashes_escaped(s.skip(2))
    } else {
        seq![s[0]] + dashes_escaped(s.skip(1))
    }
}

/// `s` with each line break written as a backslash and `n`.
pub fn escape_newlines(s: &str) -> (r: String)
    ensures
        r@ == newlines_escaped(s@),
{
    let cs = chars_of(s);
    let mut r = String::new();
    for i in 0..cs.len()
        invariant
            cs@ == s@,
            r@ == newlines_escaped(cs@.take(i as int)),
    {
        assert(cs@.take(i + 1).drop_last() =~= cs@.take(i as int));
        if cs[i] == '\n' {
            push_char(&mut r, '\\');
            push_char(&mut r, 'n');
        } else {
            push_char(&mut r, cs[i]);
        }
        assert(r@ =~= newlines_escaped(cs@.take(i + 1)));
    }
    assert(cs@.take(cs@.len() as int) =~= cs@);
    r
}

/// `s` with each `--`, read from the left, written as `\x2D\x2D`.
pub fn escape_dashes(s: &str) -> (r: String)
    ensures
        r@ == dashes_escaped(s@),
{
    let cs = chars_of(s);
    let n = cs.len();
    let mut r = String::new();
    let mut i: usize = 0;
    assert(cs@.skip(0) =~= cs@);
    assert(r@ + dashes_escaped(cs@) =~= dashes_escaped(cs@));
    while i < n
        invariant
            n == cs@.len(),
            cs@ == s@,
            i <= n,
            r@ + dashes_escaped(cs@.skip(i as int)) == dashes_escaped(cs@),
        decreases n - i,
    {
        let ghost rest = cs@.skip(i as int);
        if i + 1 < n && cs[i] == '-' && cs[i + 1] == '-' {
            assert(rest[0] == '-' && rest[1] == '-');
            assert(rest.skip(2) =~= cs@.skip(i + 2));
            let ghost before = r@;
            push_char(&mut r, '\\');
            push_char(&mut r, 'x');
            push_char(&mut r, '2');
            push_char(&mut r, 'D');
            push_char(&mut r, '\\');
            push_char(&mut r, 'x');
            push_char(&mut r, '2');
            push_char(&mut r, 'D');
            assert(r@ =~= before + seq!['\\', 'x', '2', 'D', '\\', 'x', '2', 'D']);
            i = i + 2;
        } else {
            assert(rest[0] == cs@[i as int]);
            assert(!(rest.len() >= 2 && rest[0] == '-' && rest[1] == '-'));
            assert(rest.skip(1) =~= cs@.skip(i + 1));
            let ghost before = r@;
            push_char(&mut r, cs[i]);
            assert(r@ =~= before + seq![cs@[i as int]]);
            i = i + 1;
        }
    }
    assert(cs@.skip(n as int) =~= Seq::<char>::empty());
    r
}

#[verifier::external_type_specification]
#[verifier::external_body]
pub struct ExRegex(regex::Regex);

#[verifier::external_type_specification]
#[verifier::external_body]
pub struct ExRegexError(regex::Error);

/// A regular expression compiled from a pattern.
pub struct CompiledRegex {
    re: regex::Regex,
    pattern: Ghost<Seq<char>>,
}

impl View for CompiledRegex {
    type V = Seq<char>;

    closed spec fn view(&self) -> Seq<char> {
        self.pattern@
    }
}

/// Whether `regex::Regex::new` accepts the pattern.
pub uninterp spec fn regex_accepts(pattern: Seq<char>) -> bool;

/// What `regex::Regex::replace_all` makes of `text` for the pattern and the replacement.
pub uninterp spec fn regex_replaced(pattern: Seq<char>, text: Seq<char>, replacement: Seq<char>) -> Seq<char>;

/// What `str::to_lowercase` makes of `s`.
pub uninterp spec fn lowercase(s: Seq<char>) -> Seq<char>;

/// What `str::to_uppercase` makes of `s`.
pub uninterp spec fn uppercase(s: Seq<char>) -> Seq<char>;

/// `regex::Regex::new`: succeeds exactly where the pattern is accepted.
#[verifier::external_body]
pub(crate) fn compile_regex(pattern: &str) -> (r: Result<CompiledRegex, regex::Error>)
    ensures
        r is Ok <==> regex_accepts(pattern@),
        r matches Ok(c) ==> c@ == pattern@,
{
    match regex::Regex::new(pattern) {
        Ok(re) => Ok(CompiledRegex { re, pattern: Ghost(pattern@) }),
        Err(e) => Err(e),
    }
}

/// `regex::Regex::replace_all` of every match in `text` by `replacement`.
#[verifier::external_body]
pub(crate) fn replace_all(re: &CompiledRegex, text: &str, replacement: &str) -> (r: String)
    ensures
        r@ == regex_replaced(re@, text@, replacement@),
{
    re.re.replace_all(text, replacement).into_owned()
}

/// `str::to_lowercase`.
#[verifier::external_body]
pub(crate) fn to_lowercase(s: &str) -> (r: String)
    ensures
        r@ == lowercase(s@),
{
    s.to_lowercase()
}

/// `str::to_uppercase`.
#[verifier::external_body]
pub(crate) fn to_uppercase(s: &str) -> (r: String)
    ensures
        r@ == uppercase(s@),
{
    s.to_uppercase()
}

} // verus!
