//! The pipeline grammar, stated as parsing expression rules over the characters
//! of the definition. Each rule takes the text and a position and either fails
//! (`None`) or yields the model of what it read and the position after it.
use vstd::prelude::*;
use crate::css::{
    AttributeSelectorModel, CssAttributeComparison, CssPseudoClass, CssSelectorCombinator,
    SelectorModel, StepModel,
};
use crate::element_creating::{CreatingModel, CreationModel};
use crate::element_processing::ProcessingModel;
use crate::string_creating::{ExtractingModel, SelectingModel, StringPipelineModel, ValueProcessingModel};
use crate::ValueSourceModel;

verus! {

// ---------------------------------------------------------------- lexical level

/// `s` holds the literal `l` at position `p`.
pub open spec fn lit(s: Seq<char>, p: int, l: Seq<char>) -> bool {
    0 <= p && p + l.len() <= s.len() && s.subrange(p, p + l.len()) == l
}

/// Whitespace of the grammar: space, tab, and the line breaks `\n` and `\r` (so `\r\n` too).
pub open spec fn is_ws(c: char) -> bool {
    c == ' ' || c == '\n' || c == '\r' || c == '\t'
}

/// Position after the (possibly empty) run of whitespace starting at `p`.
pub open spec fn skip_ws(s: Seq<char>, p: int) -> int
    decreases s.len() - p,
{
    if 0 <= p < s.len() && is_ws(s[p]) {
        skip_ws(s, p + 1)
    } else {
        p
    }
}

pub open spec fn is_ident_char(c: char) -> bool {
    ('a' <= c && c <= 'z') || ('A' <= c && c <= 'Z') || ('0' <= c && c <= '9') || c == '-' || c
        == '_'
}

/// Position after the (possibly empty) run of identifier characters starting at `p`.
pub open spec fn scan_ident(s: Seq<char>, p: int) -> int
    decreases s.len() - p,
{
    if 0 <= p < s.len() && is_ident_char(s[p]) {
        scan_ident(s, p + 1)
    } else {
        p
    }
}

/// `identifier = $(['a'..='z' | 'A'..='Z' | '0'..='9' | '-' | '_']+)`
pub open spec fn identifier(s: Seq<char>, p: int) -> Option<(Seq<char>, int)> {
    let q = scan_ident(s, p);
    if 0 <= p < q {
        Some((s.subrange(p, q), q))
    } else {
        None
    }
}

pub open spec fn is_digit(c: char) -> bool {
    '0' <= c && c <= '9'
}

/// Position after the (possibly empty) run of decimal digits starting at `p`.
pub open spec fn scan_digits(s: Seq<char>, p: int) -> int
    decreases s.len() - p,
{
    if 0 <= p < s.len() && is_digit(s[p]) {
        scan_digits(s, p + 1)
    } else {
        p
    }
}

/// The value of a run of decimal digits.
pub open spec fn digits_value(d: Seq<char>) -> nat
    decreases d.len(),
{
    if d.len() == 0 {
        0
    } else {
        digits_value(d.drop_last()) * 10 + ((d.last() as u32) - ('0' as u32)) as nat
    }
}

/// `number = $(['0'..='9']+)`, read as a `usize` (a value beyond `usize::MAX` does not match).
pub open spec fn number(s: Seq<char>, p: int) -> Option<(usize, int)> {
    let q = scan_digits(s, p);
    if 0 <= p < q && digits_value(s.subrange(p, q)) <= usize::MAX {
        Some((digits_value(s.subrange(p, q)) as usize, q))
    } else {
        None
    }
}

/// Position of the first `stop` at or after `p`, or the end of the text.
pub open spec fn scan_until(s: Seq<char>, p: int, stop: char) -> int
    decreases s.len() - p,
{
    if 0 <= p < s.len() && s[p] != stop {
        scan_until(s, p + 1, stop)
    } else {
        p
    }
}

/// A non-empty value enclosed in `quote` characters, which it cannot contain.
pub open spec fn quoted(s: Seq<char>, p: int, quote: char) -> Option<(Seq<char>, int)> {
    if 0 <= p < s.len() && s[p] == quote {
        let e = scan_until(s, p + 1, quote);
        if p + 1 < e < s.len() {
            Some((s.subrange(p + 1, e), e + 1))
        } else {
            None
        }
    } else {
        None
    }
}

/// `string_value = "\"" $([^'"']+) "\"" / "'" $([^'\'']+) "'" / "?" $([^'?']+) "?"`
pub open spec fn string_value(s: Seq<char>, p: int) -> Option<(Seq<char>, int)> {
    match quoted(s, p, '"') {
        Some(r) => Some(r),
        None => match quoted(s, p, '\'') {
            Some(r) => Some(r),
            None => quoted(s, p, '?'),
        },
    }
}

/// `assign_marker = "↤" / "<="`
pub open spec fn assign_marker(s: Seq<char>, p: int) -> Option<int> {
    if lit(s, p, "↤"@) {
        Some(p + "↤"@.len())
    } else if lit(s, p, "<="@) {
        Some(p + 2)
    } else {
        None
    }
}

/// `iterate_marker = "↦" / "=>"`
pub open spec fn iterate_marker(s: Seq<char>, p: int) -> Option<int> {
    if lit(s, p, "↦"@) {
        Some(p + "↦"@.len())
    } else if lit(s, p, "=>"@) {
        Some(p + 2)
    } else {
        None
    }
}

/// Position after the first of the three keywords found at `p`.
pub open spec fn keyword3(s: Seq<char>, p: int, k1: Seq<char>, k2: Seq<char>, k3: Seq<char>) -> Option<int> {
    match keyword2(s, p, k1, k2) {
        Some(q) => Some(q),
        None => if lit(s, p, k3) {
            Some(p + k3.len())
        } else {
            None
        },
    }
}

/// `pipe = whitespace? "|" whitespace?`: the position after it.
pub open spec fn pipe(s: Seq<char>, p: int) -> Option<int> {
    let a = skip_ws(s, p);
    if 0 <= a < s.len() && s[a] == '|' {
        Some(skip_ws(s, a + 1))
    } else {
        None
    }
}

/// Position after the first of the two keywords found at `p`.
pub open spec fn keyword2(s: Seq<char>, p: int, k1: Seq<char>, k2: Seq<char>) -> Option<int> {
    if lit(s, p, k1) {
        Some(p + k1.len())
    } else if lit(s, p, k2) {
        Some(p + k2.len())
    } else {
        None
    }
}

// ---------------------------------------------------------------- selectors

/// The operator of an attribute selector with a value, and the position after it.
pub open spec fn attribute_operator(s: Seq<char>, p: int) -> Option<(CssAttributeComparison, int)> {
    if lit(s, p, "="@) {
        Some((CssAttributeComparison::EqualsExact, p + 1))
    } else if lit(s, p, "|="@) {
        Some((CssAttributeComparison::EqualsTillHyphen, p + 2))
    } else if lit(s, p, "^="@) {
        Some((CssAttributeComparison::Starts, p + 2))
    } else if lit(s, p, "$="@) {
        Some((CssAttributeComparison::Ends, p + 2))
    } else if lit(s, p, "*="@) {
        Some((CssAttributeComparison::CharacterContains, p + 2))
    } else if lit(s, p, "~="@) {
        Some((CssAttributeComparison::TermContains, p + 2))
    } else {
        None
    }
}

/// `css_attribute = "[" a:identifier "]" / "[" a:identifier op v:string_value "]"`
pub open spec fn css_attribute(s: Seq<char>, p: int) -> Option<(AttributeSelectorModel, int)> {
    if lit(s, p, "["@) {
        match identifier(s, p + 1) {
            Some((a, q)) => if lit(s, q, "]"@) {
                Some(
                    (
                        AttributeSelectorModel {
                            attribute: a,
                            operator: CssAttributeComparison::Exist,
                            value: None,
                        },
                        q + 1,
                    ),
                )
            } else {
                match attribute_operator(s, q) {
                    Some((op, r)) => match string_value(s, r) {
                        Some((v, t)) => if lit(s, t, "]"@) {
                            Some(
                                (
                                    AttributeSelectorModel {
                                        attribute: a,
                                        operator: op,
                                        value: Some(v),
                                    },
                                    t + 1,
                                ),
                            )
                        } else {
                            None
                        },
                        None => None,
                    },
                    None => None,
                }
            },
            None => None,
        }
    } else {
        None
    }
}

/// `css_class = "." identifier`
pub open spec fn css_class(s: Seq<char>, p: int) -> Option<(Seq<char>, int)> {
    if lit(s, p, "."@) {
        identifier(s, p + 1)
    } else {
        None
    }
}

/// `css_id = "#" identifier`
pub open spec fn css_id(s: Seq<char>, p: int) -> Option<(Seq<char>, int)> {
    if lit(s, p, "#"@) {
        identifier(s, p + 1)
    } else {
        None
    }
}

/// A pseudo class whose argument is a number in brackets.
pub open spec fn numbered(s: Seq<char>, p: int, k: Seq<char>) -> Option<(usize, int)> {
    if lit(s, p, k) {
        match number(s, p + k.len()) {
            Some((n, q)) => if lit(s, q, ")"@) {
                Some((n, q + 1))
            } else {
                None
            },
            None => None,
        }
    } else {
        None
    }
}

/// `css_pseudo_class`: the pseudo classes, tried in the order of the grammar.
pub open spec fn css_pseudo_class(s: Seq<char>, p: int) -> Option<(CssPseudoClass, int)> {
    if lit(s, p, ":first-child"@) {
        Some((CssPseudoClass::FirstChild, p + ":first-child"@.len()))
    } else if lit(s, p, ":first-of-type"@) {
        Some((CssPseudoClass::FirstOfType, p + ":first-of-type"@.len()))
    } else if numbered(s, p, ":nth-child("@) is Some {
        let (n, q) = numbered(s, p, ":nth-child("@).unwrap();
        Some((CssPseudoClass::NthChild(n), q))
    } else if numbered(s, p, ":nth-of-type("@) is Some {
        let (n, q) = numbered(s, p, ":nth-of-type("@).unwrap();
        Some((CssPseudoClass::NthOfType(n), q))
    } else if lit(s, p, ":last-child"@) {
        Some((CssPseudoClass::LastChild, p + ":last-child"@.len()))
    } else if lit(s, p, ":last-of-type"@) {
        Some((CssPseudoClass::LastOfType, p + ":last-of-type"@.len()))
    } else if numbered(s, p, ":nth-last-child("@) is Some {
        let (n, q) = numbered(s, p, ":nth-last-child("@).unwrap();
        Some((CssPseudoClass::NthLastChild(n), q))
    } else if numbered(s, p, ":nth-last-of-type("@) is Some {
        let (n, q) = numbered(s, p, ":nth-last-of-type("@).unwrap();
        Some((CssPseudoClass::NthLastOfType(n), q))
    } else {
        None
    }
}

/// Zero or more classes, as many as follow each other.
pub open spec fn css_classes(s: Seq<char>, p: int) -> (Seq<Seq<char>>, int)
    decreases s.len() - p,
{
    match css_class(s, p) {
        Some((c, q)) => if p < q <= s.len() {
            let (rest, r) = css_classes(s, q);
            (seq![c] + rest, r)
        } else {
            (seq![], p)
        },
        None => (seq![], p),
    }
}

/// Zero or more pseudo classes, as many as follow each other.
pub open spec fn css_pseudo_classes(s: Seq<char>, p: int) -> (Seq<CssPseudoClass>, int)
    decreases s.len() - p,
{
    match css_pseudo_class(s, p) {
        Some((c, q)) => if p < q <= s.len() {
            let (rest, r) = css_pseudo_classes(s, q);
            (seq![c] + rest, r)
        } else {
            (seq![], p)
        },
        None => (seq![], p),
    }
}

/// Zero or more attribute selectors, as many as follow each other.
pub open spec fn css_attributes(s: Seq<char>, p: int) -> (Seq<AttributeSelectorModel>, int)
    decreases s.len() - p,
{
    match css_attribute(s, p) {
        Some((c, q)) => if p < q <= s.len() {
            let (rest, r) = css_attributes(s, q);
            (seq![c] + rest, r)
        } else {
            (seq![], p)
        },
        None => (seq![], p),
    }
}

/// Classes, pseudo classes and attribute selectors, each group possibly empty.
pub open spec fn selector_tail(
    s: Seq<char>,
    p: int,
    element: Option<Seq<char>>,
    id: Option<Seq<char>>,
) -> (SelectorModel, int) {
    let (c, q1) = css_classes(s, p);
    let (pc, q2) = css_pseudo_classes(s, q1);
    let (a, q3) = css_attributes(s, q2);
    (SelectorModel { element, id, classes: c, pseudo_classes: pc, attributes: a }, q3)
}

/// `css_selector`: an element name, an id or a non-empty tail, in this order.
pub open spec fn css_selector(s: Seq<char>, p: int) -> Option<(SelectorModel, int)> {
    match identifier(s, p) {
        Some((e, q)) => match css_id(s, q) {
            Some((i, r)) => Some(selector_tail(s, r, Some(e), Some(i))),
            None => Some(selector_tail(s, q, Some(e), None)),
        },
        None => match css_id(s, p) {
            Some((i, r)) => Some(selector_tail(s, r, None, Some(i))),
            None => {
                let (m, q) = selector_tail(s, p, None, None);
                if q == p {
                    None
                } else {
                    Some((m, q))
                }
            },
        },
    }
}

/// Position after an optional single space.
pub open spec fn opt_space(s: Seq<char>, p: int) -> int {
    if lit(s, p, " "@) {
        p + 1
    } else {
        p
    }
}

/// `css_selector_step`: a combinator (`>`, `~`, `+` or a space) followed by a selector.
pub open spec fn css_selector_step(s: Seq<char>, p: int) -> Option<(StepModel, int)> {
    let p1 = opt_space(s, p);
    let comb = if lit(s, p1, ">"@) {
        Some(CssSelectorCombinator::DirectChild)
    } else if lit(s, p1, "~"@) {
        Some(CssSelectorCombinator::GeneralSibling)
    } else if lit(s, p1, "+"@) {
        Some(CssSelectorCombinator::AdjacentSibling)
    } else {
        None
    };
    match comb {
        Some(c) => match css_selector(s, opt_space(s, p1 + 1)) {
            Some((sel, q)) => Some((StepModel { selector: sel, combinator: c }, q)),
            None => None,
        },
        None => if p1 == p + 1 {
            match css_selector(s, p1) {
                Some((sel, q)) => Some(
                    (StepModel { selector: sel, combinator: CssSelectorCombinator::Descendent }, q),
                ),
                None => None,
            }
        } else {
            None
        },
    }
}

/// Zero or more steps, as many as follow each other.
pub open spec fn css_selector_steps(s: Seq<char>, p: int) -> (Seq<StepModel>, int)
    decreases s.len() - p,
{
    match css_selector_step(s, p) {
        Some((st, q)) => if p < q <= s.len() {
            let (rest, r) = css_selector_steps(s, q);
            (seq![st] + rest, r)
        } else {
            (seq![], p)
        },
        None => (seq![], p),
    }
}

/// `css_selector_path = whitespace? f:css_selector l:css_selector_step? whitespace?`
pub open spec fn css_selector_path(s: Seq<char>, p: int) -> Option<(Seq<StepModel>, int)> {
    match css_selector(s, skip_ws(s, p)) {
        Some((f, q)) => {
            let (rest, r) = css_selector_steps(s, q);
            Some(
                (
                    seq![StepModel { selector: f, combinator: CssSelectorCombinator::Start }]
                        + rest,
                    skip_ws(s, r),
                ),
            )
        },
        None => None,
    }
}

/// Further paths, each after a comma.
pub open spec fn css_selector_paths(s: Seq<char>, p: int) -> (Seq<Seq<StepModel>>, int)
    decreases s.len() - p,
{
    if lit(s, p, ","@) {
        match css_selector_path(s, p + 1) {
            Some((path, q)) => if p < q <= s.len() {
                let (rest, r) = css_selector_paths(s, q);
                (seq![path] + rest, r)
            } else {
                (seq![], p)
            },
            None => (seq![], p),
        }
    } else {
        (seq![], p)
    }
}

/// `css_selector_list = css_selector_path ++ ","`
pub open spec fn css_selector_list(s: Seq<char>, p: int) -> Option<(Seq<Seq<StepModel>>, int)> {
    match css_selector_path(s, p) {
        Some((first, q)) => {
            let (rest, r) = css_selector_paths(s, q);
            Some((seq![first] + rest, r))
        },
        None => None,
    }
}

/// `"{" whitespace? css_selector_list whitespace? "}"` after a keyword ending at `p`.
pub open spec fn braced_list(s: Seq<char>, p: int) -> Option<(Seq<Seq<StepModel>>, int)> {
    if lit(s, p, "{"@) {
        match css_selector_list(s, skip_ws(s, p + 1)) {
            Some((l, q)) => if lit(s, skip_ws(s, q), "}"@) {
                Some((l, skip_ws(s, q) + 1))
            } else {
                None
            },
            None => None,
        }
    } else {
        None
    }
}

// ---------------------------------------------------------------- string value pipelines

/// `element_selecting_command`
pub open spec fn element_selecting_command(s: Seq<char>, p: int) -> Option<(SelectingModel, int)> {
    if keyword2(s, p, "USE-ELEMENT"@, "THIS"@) is Some {
        Some((SelectingModel::UseElement, keyword2(s, p, "USE-ELEMENT"@, "THIS"@).unwrap()))
    } else if keyword2(s, p, "USE-PARENT"@, "PARENT"@) is Some {
        Some((SelectingModel::UseParent, keyword2(s, p, "USE-PARENT"@, "PARENT"@).unwrap()))
    } else if lit(s, p, "QUERY-ELEMENT"@) && braced_list(s, p + "QUERY-ELEMENT"@.len()) is Some {
        let (l, q) = braced_list(s, p + "QUERY-ELEMENT"@.len()).unwrap();
        Some((SelectingModel::QueryElement(l), q))
    } else if lit(s, p, "QUERY-PARENT"@) && braced_list(s, p + "QUERY-PARENT"@.len()) is Some {
        let (l, q) = braced_list(s, p + "QUERY-PARENT"@.len()).unwrap();
        Some((SelectingModel::QueryParent(l), q))
    } else if lit(s, p, "QUERY-ROOT"@) && braced_list(s, p + "QUERY-ROOT"@.len()) is Some {
        let (l, q) = braced_list(s, p + "QUERY-ROOT"@.len()).unwrap();
        Some((SelectingModel::QueryRoot(l), q))
    } else {
        None
    }
}

/// `"{" whitespace? identifier whitespace? "}"` after a keyword ending at `p`.
pub open spec fn braced_identifier(s: Seq<char>, p: int) -> Option<(Seq<char>, int)> {
    if lit(s, p, "{"@) {
        match identifier(s, skip_ws(s, p + 1)) {
            Some((a, q)) => if lit(s, skip_ws(s, q), "}"@) {
                Some((a, skip_ws(s, q) + 1))
            } else {
                None
            },
            None => None,
        }
    } else {
        None
    }
}

/// `value_extracting_command = "GET-ATTR{" .. "}" / "GET-TEXT-CONTENT"`
pub open spec fn value_extracting_command(s: Seq<char>, p: int) -> Option<(ExtractingModel, int)> {
    if lit(s, p, "GET-ATTR"@) && braced_identifier(s, p + "GET-ATTR"@.len()) is Some {
        let (a, q) = braced_identifier(s, p + "GET-ATTR"@.len()).unwrap();
        Some((ExtractingModel::GetAttribute(a), q))
    } else if lit(s, p, "GET-TEXT-CONTENT"@) {
        Some((ExtractingModel::GetTextContent, p + "GET-TEXT-CONTENT"@.len()))
    } else {
        None
    }
}

/// `value_processing_command = "REGEX-REPLACE{" .. "}" / "TO-LOWER" / "TO-UPPER" / "ADD-PREFIX{" .. "}"`
pub open spec fn value_processing_command(s: Seq<char>, p: int) -> Option<(ValueProcessingModel, int)> {
    if lit(s, p, "REGEX-REPLACE{"@) {
        match string_value(s, skip_ws(s, p + "REGEX-REPLACE{"@.len())) {
            Some((re, q)) => match assign_marker(s, skip_ws(s, q)) {
                Some(r) => match string_value(s, skip_ws(s, r)) {
                    Some((rep, t)) => match close(s, t) {
                        Some(u) => Some((ValueProcessingModel::RegexReplace(re, rep), u)),
                        None => None,
                    },
                    None => None,
                },
                None => None,
            },
            None => None,
        }
    } else if lit(s, p, "TO-LOWER"@) {
        Some((ValueProcessingModel::ToLower, p + "TO-LOWER"@.len()))
    } else if lit(s, p, "TO-UPPER"@) {
        Some((ValueProcessingModel::ToUpper, p + "TO-UPPER"@.len()))
    } else if lit(s, p, "ADD-PREFIX"@) {
        match braced_string(s, p + "ADD-PREFIX"@.len()) {
            Some((a, q)) => Some((ValueProcessingModel::AddPrefix(a), q)),
            None => None,
        }
    } else {
        None
    }
}

/// Further value processing commands, each after a pipe.
pub open spec fn value_processing_rest(s: Seq<char>, p: int) -> (Seq<ValueProcessingModel>, int)
    decreases s.len() - p,
{
    match pipe(s, p) {
        Some(q0) => match value_processing_command(s, q0) {
            Some((c, q)) => if p < q <= s.len() {
                let (rest, r) = value_processing_rest(s, q);
                (seq![c] + rest, r)
            } else {
                (seq![], p)
            },
            None => (seq![], p),
        },
        None => (seq![], p),
    }
}

/// `string_creating_pipeline = element_selecting_command pipe value_extracting_command (pipe value_processing_command)*`
pub open spec fn string_creating_pipeline(s: Seq<char>, p: int) -> Option<(StringPipelineModel, int)> {
    match element_selecting_command(s, p) {
        Some((sel, q)) => match pipe(s, q) {
            Some(q2) => match value_extracting_command(s, q2) {
                Some((ext, r)) => {
                    let (cmds, t) = value_processing_rest(s, r);
                    Some((StringPipelineModel { selector: sel, extractor: ext, processing: cmds }, t))
                },
                None => None,
            },
            None => None,
        },
        None => None,
    }
}

/// `value_source = string_value / string_creating_pipeline`
pub open spec fn value_source(s: Seq<char>, p: int) -> Option<(ValueSourceModel, int)> {
    match string_value(s, p) {
        Some((v, q)) => Some((ValueSourceModel::StringValue(v), q)),
        None => match string_creating_pipeline(s, p) {
            Some((v, q)) => Some((ValueSourceModel::SubPipeline(v), q)),
            None => None,
        },
    }
}

// ---------------------------------------------------------------- element creating commands

/// `create_element_command / from_file_command`, and with `replaced` first `query_replaced_command`
/// (`QUERY-REPLACED`, `KEEP` or `FROM-REPLACED`).
pub open spec fn element_creating_command(s: Seq<char>, p: int, replaced: bool) -> Option<
    (CreationModel, int),
> {
    if replaced && keyword3(s, p, "QUERY-REPLACED"@, "KEEP"@, "FROM-REPLACED"@) is Some && braced_list(
        s,
        keyword3(s, p, "QUERY-REPLACED"@, "KEEP"@, "FROM-REPLACED"@).unwrap(),
    ) is Some {
        let (l, q) = braced_list(s, keyword3(s, p, "QUERY-REPLACED"@, "KEEP"@, "FROM-REPLACED"@).unwrap()).unwrap();
        Some((CreationModel::FromReplaced(l), q))
    } else if keyword2(s, p, "CREATE-ELEMENT"@, "NEW"@) is Some && braced_identifier(
        s,
        keyword2(s, p, "CREATE-ELEMENT"@, "NEW"@).unwrap(),
    ) is Some {
        let (n, q) = braced_identifier(s, keyword2(s, p, "CREATE-ELEMENT"@, "NEW"@).unwrap()).unwrap();
        Some((CreationModel::CreateElement(n), q))
    } else if keyword2(s, p, "FROM-FILE"@, "SOURCE"@) is Some && braced_string(
        s,
        keyword2(s, p, "FROM-FILE"@, "SOURCE"@).unwrap(),
    ) is Some {
        let (f, q) = braced_string(s, keyword2(s, p, "FROM-FILE"@, "SOURCE"@).unwrap()).unwrap();
        Some((CreationModel::FromFile(f), q))
    } else {
        None
    }
}

/// `"{" whitespace? string_value whitespace? "}"` after a keyword ending at `p`.
pub open spec fn braced_string(s: Seq<char>, p: int) -> Option<(Seq<char>, int)> {
    if lit(s, p, "{"@) {
        match string_value(s, skip_ws(s, p + 1)) {
            Some((a, q)) => if lit(s, skip_ws(s, q), "}"@) {
                Some((a, skip_ws(s, q) + 1))
            } else {
                None
            },
            None => None,
        }
    } else {
        None
    }
}

// ---------------------------------------------------------------- element processing commands

/// `"{" whitespace? (assign_marker whitespace?)?` after a keyword ending at `p`: the start of the value.
pub open spec fn open_with_optional_marker(s: Seq<char>, p: int) -> Option<int> {
    if lit(s, p, "{"@) {
        let q = skip_ws(s, p + 1);
        match assign_marker(s, q) {
            Some(r) => Some(skip_ws(s, r)),
            None => Some(q),
        }
    } else {
        None
    }
}

/// `whitespace? "}"`: the position after the closing bracket.
pub open spec fn close(s: Seq<char>, p: int) -> Option<int> {
    if lit(s, skip_ws(s, p), "}"@) {
        Some(skip_ws(s, p) + 1)
    } else {
        None
    }
}

/// A command taking a value: `KEYWORD{ (marker)? value_source }`.
pub open spec fn value_command(s: Seq<char>, p: int, k: Seq<char>) -> Option<(ValueSourceModel, int)> {
    if lit(s, p, k) {
        match open_with_optional_marker(s, p + k.len()) {
            Some(q) => match value_source(s, q) {
                Some((v, r)) => match close(s, r) {
                    Some(t) => Some((v, t)),
                    None => None,
                },
                None => None,
            },
            None => None,
        }
    } else {
        None
    }
}

/// `set_attr_command = "SET-ATTR{" whitespace? identifier whitespace? assign_marker whitespace? value_source whitespace? "}"`
pub open spec fn set_attr_command(s: Seq<char>, p: int) -> Option<(ProcessingModel, int)> {
    if lit(s, p, "SET-ATTR{"@) {
        match identifier(s, skip_ws(s, p + "SET-ATTR{"@.len())) {
            Some((a, q)) => match assign_marker(s, skip_ws(s, q)) {
                Some(r) => match value_source(s, skip_ws(s, r)) {
                    Some((v, t)) => match close(s, t) {
                        Some(u) => Some((ProcessingModel::SetAttribute(a, v), u)),
                        None => None,
                    },
                    None => None,
                },
                None => None,
            },
            None => None,
        }
    } else {
        None
    }
}

/// The commands without sub-pipelines, in the order of the grammar's choice.
pub open spec fn simple_command(s: Seq<char>, p: int, which: int) -> Option<(ProcessingModel, int)> {
    if which == 0 {
        // extract_element_command
        match keyword2(s, p, "EXTRACT-ELEMENT"@, "ONLY"@) {
            Some(q) => match braced_list(s, q) {
                Some((l, r)) => Some((ProcessingModel::ExtractElement(l), r)),
                None => None,
            },
            None => None,
        }
    } else if which == 1 {
        // remove_element_command
        match keyword2(s, p, "REMOVE-ELEMENT"@, "WITHOUT"@) {
            Some(q) => match braced_list(s, q) {
                Some((l, r)) => Some((ProcessingModel::RemoveElement(l), r)),
                None => None,
            },
            None => None,
        }
    } else if which == 2 {
        // clear_attr_command
        if lit(s, p, "CLEAR-ATTR"@) {
            match braced_identifier(s, p + "CLEAR-ATTR"@.len()) {
                Some((a, r)) => Some((ProcessingModel::ClearAttribute(a), r)),
                None => None,
            }
        } else {
            None
        }
    } else if which == 3 {
        // clear_content_command
        if lit(s, p, "CLEAR-CONTENT"@) {
            Some((ProcessingModel::ClearContent, p + "CLEAR-CONTENT"@.len()))
        } else {
            None
        }
    } else if which == 4 {
        set_attr_command(s, p)
    } else if which == 5 {
        match value_command(s, p, "SET-TEXT-CONTENT"@) {
            Some((v, q)) => Some((ProcessingModel::SetTextContent(v), q)),
            None => None,
        }
    } else if which == 6 {
        match value_command(s, p, "ADD-TEXT-CONTENT"@) {
            Some((v, q)) => Some((ProcessingModel::AddTextContent(v), q)),
            None => match value_command(s, p, "APPEND-TEXT-CONTENT"@) {
                Some((v, q)) => Some((ProcessingModel::AddTextContent(v), q)),
                None => None,
            },
        }
    } else if which == 7 {
        match value_command(s, p, "ADD-COMMENT"@) {
            Some((v, q)) => Some((ProcessingModel::AddComment(v), q)),
            None => match value_command(s, p, "APPEND-COMMENT"@) {
                Some((v, q)) => Some((ProcessingModel::AddComment(v), q)),
                None => None,
            },
        }
    } else if which == 8 {
        match value_command(s, p, "PREPEND-TEXT-CONTENT"@) {
            Some((v, q)) => Some((ProcessingModel::PrependTextContent(v), q)),
            None => None,
        }
    } else {
        match value_command(s, p, "PREPEND-COMMENT"@) {
            Some((v, q)) => Some((ProcessingModel::PrependComment(v), q)),
            None => None,
        }
    }
}

/// `pipeline = element_processing_command ** pipe`: zero or more commands.
pub open spec fn pipeline(s: Seq<char>, p: int) -> (Seq<ProcessingModel>, int)
    decreases s.len() - p, 2int,
{
    if 0 <= p <= s.len() {
        match element_processing_command(s, p) {
            Some((c, q)) => if p < q <= s.len() {
                let (rest, r) = pipeline_rest(s, q);
                (seq![c] + rest, r)
            } else {
                (seq![], p)
            },
            None => (seq![], p),
        }
    } else {
        (seq![], p)
    }
}

/// Further commands of a pipeline, each after a pipe.
pub open spec fn pipeline_rest(s: Seq<char>, p: int) -> (Seq<ProcessingModel>, int)
    decreases s.len() - p, 2int,
{
    match pipe(s, p) {
        Some(q0) => if p < q0 <= s.len() {
            match element_processing_command(s, q0) {
                Some((c, q)) => if q0 < q <= s.len() {
                    let (rest, r) = pipeline_rest(s, q);
                    (seq![c] + rest, r)
                } else {
                    (seq![], p)
                },
                None => (seq![], p),
            }
        } else {
            (seq![], p)
        },
        None => (seq![], p),
    }
}

/// `element_creating_pipeline` (or, with `replaced`, `element_subselect_or_creating_pipeline`):
/// a creating command, optionally followed by a pipe and a pipeline.
pub open spec fn element_creating_pipeline(s: Seq<char>, p: int, replaced: bool) -> Option<
    (CreatingModel, int),
>
    decreases s.len() - p, 1int,
{
    match element_creating_command(s, p, replaced) {
        Some((c, q)) => match pipe(s, q) {
            Some(q2) => if p < q2 <= s.len() {
                let (cmds, r) = pipeline(s, q2);
                Some((CreatingModel { creation: c, processing: cmds }, r))
            } else {
                Some((CreatingModel { creation: c, processing: seq![] }, q))
            },
            None => Some((CreatingModel { creation: c, processing: seq![] }, q)),
        },
        None => None,
    }
}

/// `element_processing_command`: the alternatives in the order of the grammar.
pub open spec fn element_processing_command(s: Seq<char>, p: int) -> Option<(ProcessingModel, int)>
    decreases s.len() - p, 1int,
{
    if !(0 <= p <= s.len()) {
        None
    } else if simple_command(s, p, 0) is Some {
        simple_command(s, p, 0)
    } else if simple_command(s, p, 1) is Some {
        simple_command(s, p, 1)
    } else if for_each_command(s, p) is Some {
        for_each_command(s, p)
    } else if simple_command(s, p, 2) is Some {
        simple_command(s, p, 2)
    } else if simple_command(s, p, 3) is Some {
        simple_command(s, p, 3)
    } else if simple_command(s, p, 4) is Some {
        simple_command(s, p, 4)
    } else if simple_command(s, p, 5) is Some {
        simple_command(s, p, 5)
    } else if simple_command(s, p, 6) is Some {
        simple_command(s, p, 6)
    } else if simple_command(s, p, 7) is Some {
        simple_command(s, p, 7)
    } else if simple_command(s, p, 8) is Some {
        simple_command(s, p, 8)
    } else if simple_command(s, p, 9) is Some {
        simple_command(s, p, 9)
    } else if add_element_command(s, p, false) is Some {
        add_element_command(s, p, false)
    } else if add_element_command(s, p, true) is Some {
        add_element_command(s, p, true)
    } else {
        replace_command(s, p)
    }
}

/// `for_each_command = ("FOR-EACH"/"WITH"/"FOR") "{" whitespace? list whitespace? iterate_marker whitespace? pipeline whitespace? "}"`
pub open spec fn for_each_command(s: Seq<char>, p: int) -> Option<(ProcessingModel, int)>
    decreases s.len() - p, 0int,
{
    match keyword3(s, p, "FOR-EACH"@, "WITH"@, "FOR"@) {
        Some(q) => if lit(s, q, "{"@) {
            match css_selector_list(s, skip_ws(s, q + 1)) {
                Some((l, r)) => match iterate_marker(s, skip_ws(s, r)) {
                    Some(t) => if p < skip_ws(s, t) <= s.len() {
                        let (cmds, u) = pipeline(s, skip_ws(s, t));
                        match close(s, u) {
                            Some(v) => Some((ProcessingModel::ForEach(l, cmds), v)),
                            None => None,
                        }
                    } else {
                        None
                    },
                    None => None,
                },
                None => None,
            }
        } else {
            None
        },
        None => None,
    }
}

/// `add_element_command = ("ADD-ELEMENT"/"APPEND-ELEMENT") "{" whitespace? (assign_marker whitespace?)? element_creating_pipeline whitespace? "}"`,
/// and with `first`, the same with `"PREPEND-ELEMENT"`.
pub open spec fn add_element_command(s: Seq<char>, p: int, first: bool) -> Option<(ProcessingModel, int)>
    decreases s.len() - p, 0int,
{
    let k = if first {
        keyword2(s, p, "PREPEND-ELEMENT"@, "PREPEND-ELEMENT"@)
    } else {
        keyword2(s, p, "ADD-ELEMENT"@, "APPEND-ELEMENT"@)
    };
    match k {
        Some(q0) => match open_with_optional_marker(s, q0) {
            Some(q) => if p < q <= s.len() {
                match element_creating_pipeline(s, q, false) {
                    Some((cp, r)) => match close(s, r) {
                        Some(t) => Some((
                            if first {
                                ProcessingModel::PrependElement(cp)
                            } else {
                                ProcessingModel::AddElement(cp)
                            },
                            t,
                        )),
                        None => None,
                    },
                    None => None,
                }
            } else {
                None
            },
            None => None,
        },
        None => None,
    }
}

/// `replace_command = ("REPLACE"/"MAP") "{" whitespace? list whitespace? assign_marker whitespace? element_subselect_or_creating_pipeline whitespace? "}"`
pub open spec fn replace_command(s: Seq<char>, p: int) -> Option<(ProcessingModel, int)>
    decreases s.len() - p, 0int,
{
    match keyword2(s, p, "REPLACE"@, "MAP"@) {
        Some(q) => if lit(s, q, "{"@) {
            match css_selector_list(s, skip_ws(s, q + 1)) {
                Some((l, r)) => match assign_marker(s, skip_ws(s, r)) {
                    Some(t) => if p < skip_ws(s, t) <= s.len() {
                        match element_creating_pipeline(s, skip_ws(s, t), true) {
                            Some((cp, u)) => match close(s, u) {
                                Some(v) => Some((ProcessingModel::Replace(l, cp), v)),
                                None => None,
                            },
                            None => None,
                        }
                    } else {
                        None
                    },
                    None => None,
                },
                None => None,
            }
        } else {
            None
        },
        None => None,
    }
}

/// A rule that must read the whole text.
pub open spec fn whole<V>(r: Option<(V, int)>, s: Seq<char>) -> Option<V> {
    match r {
        Some((v, q)) => if q == s.len() {
            Some(v)
        } else {
            None
        },
        None => None,
    }
}

} // verus!
