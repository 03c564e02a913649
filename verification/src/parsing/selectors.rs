//! Reading CSS selectors.
use vstd::prelude::*;
use crate::css::{
    attrs_view, paths_view, steps_view, strs_view, CssAttributeComparison, CssAttributeSelector,
    CssPseudoClass, CssSelector, CssSelectorCombinator, CssSelectorList, CssSelectorPath,
    CssSelectorStep,
};
use crate::parsing::lexer::{
    agrees, agrees_plain, identifier, lit, lit_end, number, skip_ws, string_value, Input,
};
use crate::parsing::rules;

verus! {

broadcast use vstd::string::group_string_axioms;

/// The operator of an attribute selector at `p`.
pub fn attribute_operator(inp: &Input, p: usize) -> (r: Option<(CssAttributeComparison, usize)>)
    requires
        inp.wf(),
    ensures
        agrees_plain(r, rules::attribute_operator(inp.s(), p as int)),
        r matches Some((_, q)) ==> p < q <= inp.s().len(),
{
    proof {
        reveal_strlit("=");
        reveal_strlit("|=");
        reveal_strlit("^=");
        reveal_strlit("$=");
        reveal_strlit("*=");
        reveal_strlit("~=");
    }
    if lit(inp, p, "=") {
        Some((CssAttributeComparison::EqualsExact, p + 1))
    } else if lit(inp, p, "|=") {
        Some((CssAttributeComparison::EqualsTillHyphen, p + 2))
    } else if lit(inp, p, "^=") {
        Some((CssAttributeComparison::Starts, p + 2))
    } else if lit(inp, p, "$=") {
        Some((CssAttributeComparison::Ends, p + 2))
    } else if lit(inp, p, "*=") {
        Some((CssAttributeComparison::CharacterContains, p + 2))
    } else if lit(inp, p, "~=") {
        Some((CssAttributeComparison::TermContains, p + 2))
    } else {
        None
    }
}

/// An attribute selector at `p`.
pub fn css_attribute<'a>(inp: &Input<'a>, p: usize) -> (r: Option<(CssAttributeSelector<'a>, usize)>)
    requires
        inp.wf(),
        p <= inp.s().len(),
    ensures
        agrees(r, rules::css_attribute(inp.s(), p as int)),
        r matches Some((_, q)) ==> p < q <= inp.s().len(),
{
    proof {
        reveal_strlit("[");
        reveal_strlit("]");
    }
    if !lit(inp, p, "[") {
        return None;
    }
    match identifier(inp, p + 1) {
        Some((a, q)) => {
            if lit(inp, q, "]") {
                Some(
                    (
                        CssAttributeSelector {
                            attribute: a,
                            operator: CssAttributeComparison::Exist,
                            value: None,
                        },
                        q + 1,
                    ),
                )
            } else {
                match attribute_operator(inp, q) {
                    Some((op, r)) => match string_value(inp, r) {
                        Some((v, t)) => if lit(inp, t, "]") {
                            Some(
                                (
                                    CssAttributeSelector { attribute: a, operator: op, value: Some(v) },
                                    t + 1,
                                ),
                            )
                        } else {
                            None
                        },
                        None => None,
                    },
                    None => None,
                }
            }
        },
        None => None,
    }
}

/// A class (`.name`) at `p`.
pub fn css_class<'a>(inp: &Input<'a>, p: usize) -> (r: Option<(&'a str, usize)>)
    requires
        inp.wf(),
        p <= inp.s().len(),
    ensures
        agrees(r, rules::css_class(inp.s(), p as int)),
        r matches Some((_, q)) ==> p < q <= inp.s().len(),
{
    proof {
        reveal_strlit(".");
    }
    if lit(inp, p, ".") {
        identifier(inp, p + 1)
    } else {
        None
    }
}

/// An id (`#name`) at `p`.
pub fn css_id<'a>(inp: &Input<'a>, p: usize) -> (r: Option<(&'a str, usize)>)
    requires
        inp.wf(),
        p <= inp.s().len(),
    ensures
        agrees(r, rules::css_id(inp.s(), p as int)),
        r matches Some((_, q)) ==> p < q <= inp.s().len(),
{
    proof {
        reveal_strlit("#");
    }
    if lit(inp, p, "#") {
        identifier(inp, p + 1)
    } else {
        None
    }
}

/// A pseudo class `k` followed by a number and a closing bracket.
pub fn numbered(inp: &Input, p: usize, k: &str) -> (r: Option<(usize, usize)>)
    requires
        inp.wf(),
        p <= inp.s().len(),
    ensures
        agrees_plain(r, rules::numbered(inp.s(), p as int, k@)),
        r matches Some((_, q)) ==> p < q <= inp.s().len(),
{
    proof {
        reveal_strlit(")");
    }
    match lit_end(inp, p, k) {
        Some(q) => match number(inp, q) {
            Some((n, r)) => if lit(inp, r, ")") {
                Some((n, r + 1))
            } else {
                None
            },
            None => None,
        },
        None => None,
    }
}

/// A pseudo class at `p`.
pub fn css_pseudo_class(inp: &Input, p: usize) -> (r: Option<(CssPseudoClass, usize)>)
    requires
        inp.wf(),
        p <= inp.s().len(),
    ensures
        agrees_plain(r, rules::css_pseudo_class(inp.s(), p as int)),
        r matches Some((_, q)) ==> p < q <= inp.s().len(),
{
    proof {
        reveal_strlit(":first-child");
        reveal_strlit(":first-of-type");
        reveal_strlit(":last-child");
        reveal_strlit(":last-of-type");
    }
    if let Some(q) = lit_end(inp, p, ":first-child") {
        return Some((CssPseudoClass::FirstChild, q));
    }
    if let Some(q) = lit_end(inp, p, ":first-of-type") {
        return Some((CssPseudoClass::FirstOfType, q));
    }
    if let Some((n, q)) = numbered(inp, p, ":nth-child(") {
        return Some((CssPseudoClass::NthChild(n), q));
    }
    if let Some((n, q)) = numbered(inp, p, ":nth-of-type(") {
        return Some((CssPseudoClass::NthOfType(n), q));
    }
    if let Some(q) = lit_end(inp, p, ":last-child") {
        return Some((CssPseudoClass::LastChild, q));
    }
    if let Some(q) = lit_end(inp, p, ":last-of-type") {
        return Some((CssPseudoClass::LastOfType, q));
    }
    if let Some((n, q)) = numbered(inp, p, ":nth-last-child(") {
        return Some((CssPseudoClass::NthLastChild(n), q));
    }
    if let Some((n, q)) = numbered(inp, p, ":nth-last-of-type(") {
        return Some((CssPseudoClass::NthLastOfType(n), q));
    }
    None
}

/// Classes following each other from `p`.
pub fn css_classes<'a>(inp: &Input<'a>, p: usize) -> (r: (Vec<&'a str>, usize))
    requires
        inp.wf(),
        p <= inp.s().len(),
    ensures
        (strs_view(r.0@), r.1 as int) == rules::css_classes(inp.s(), p as int),
        p <= r.1 <= inp.s().len(),
{
    let mut acc: Vec<&'a str> = Vec::new();
    let mut i = p;
    loop
        invariant
            inp.wf(),
            p <= i <= inp.s().len(),
            rules::css_classes(inp.s(), p as int) == (
                strs_view(acc@) + rules::css_classes(inp.s(), i as int).0,
                rules::css_classes(inp.s(), i as int).1,
            ),
        decreases inp.s().len() - i,
    {
        match css_class(inp, i) {
            Some((c, q)) => {
                let ghost old_acc = acc@;
                acc.push(c);
                assert(strs_view(acc@) =~= strs_view(old_acc) + seq![c@]);
                assert(strs_view(acc@) + rules::css_classes(inp.s(), q as int).0 =~= strs_view(old_acc)
                    + (seq![c@] + rules::css_classes(inp.s(), q as int).0));
                i = q;
            },
            None => {
                assert(strs_view(acc@) + rules::css_classes(inp.s(), i as int).0 =~= strs_view(acc@));
                return (acc, i);
            },
        }
    }
}

/// Pseudo classes following each other from `p`.
pub fn css_pseudo_classes(inp: &Input, p: usize) -> (r: (Vec<CssPseudoClass>, usize))
    requires
        inp.wf(),
        p <= inp.s().len(),
    ensures
        (r.0@, r.1 as int) == rules::css_pseudo_classes(inp.s(), p as int),
        p <= r.1 <= inp.s().len(),
{
    let mut acc: Vec<CssPseudoClass> = Vec::new();
    let mut i = p;
    loop
        invariant
            inp.wf(),
            p <= i <= inp.s().len(),
            rules::css_pseudo_classes(inp.s(), p as int) == (
                acc@ + rules::css_pseudo_classes(inp.s(), i as int).0,
                rules::css_pseudo_classes(inp.s(), i as int).1,
            ),
        decreases inp.s().len() - i,
    {
        match css_pseudo_class(inp, i) {
            Some((c, q)) => {
                let ghost old_acc = acc@;
                assert(rules::css_pseudo_classes(inp.s(), i as int) == (seq![c]
                    + rules::css_pseudo_classes(inp.s(), q as int).0, rules::css_pseudo_classes(
                    inp.s(),
                    q as int,
                ).1));
                acc.push(c);
                assert(acc@ + rules::css_pseudo_classes(inp.s(), q as int).0 =~= old_acc + (seq![c]
                    + rules::css_pseudo_classes(inp.s(), q as int).0));
                i = q;
            },
            None => {
                assert(acc@ + rules::css_pseudo_classes(inp.s(), i as int).0 =~= acc@);
                return (acc, i);
            },
        }
    }
}

/// Attribute selectors following each other from `p`.
pub fn css_attributes<'a>(inp: &Input<'a>, p: usize) -> (r: (Vec<CssAttributeSelector<'a>>, usize))
    requires
        inp.wf(),
        p <= inp.s().len(),
    ensures
        (attrs_view(r.0@), r.1 as int) == rules::css_attributes(inp.s(), p as int),
        p <= r.1 <= inp.s().len(),
{
    let mut acc: Vec<CssAttributeSelector<'a>> = Vec::new();
    let mut i = p;
    loop
        invariant
            inp.wf(),
            p <= i <= inp.s().len(),
            rules::css_attributes(inp.s(), p as int) == (
                attrs_view(acc@) + rules::css_attributes(inp.s(), i as int).0,
                rules::css_attributes(inp.s(), i as int).1,
            ),
        decreases inp.s().len() - i,
    {
        match css_attribute(inp, i) {
            Some((c, q)) => {
                let ghost old_acc = acc@;
                let ghost cv = c@;
                acc.push(c);
                assert(attrs_view(acc@) =~= attrs_view(old_acc) + seq![cv]);
                assert(attrs_view(acc@) + rules::css_attributes(inp.s(), q as int).0
                    =~= attrs_view(old_acc) + (seq![cv] + rules::css_attributes(
                    inp.s(),
                    q as int,
                ).0));
                i = q;
            },
            None => {
                assert(attrs_view(acc@) + rules::css_attributes(inp.s(), i as int).0 =~= attrs_view(
                    acc@,
                ));
                return (acc, i);
            },
        }
    }
}

/// Classes, pseudo classes and attribute selectors from `p`.
pub fn selector_tail<'a>(
    inp: &Input<'a>,
    p: usize,
    element: Option<&'a str>,
    id: Option<&'a str>,
) -> (r: (CssSelector<'a>, usize))
    requires
        inp.wf(),
        p <= inp.s().len(),
    ensures
        (r.0@, r.1 as int) == rules::selector_tail(
            inp.s(),
            p as int,
            crate::css::opt_str_view(element),
            crate::css::opt_str_view(id),
        ),
        p <= r.1 <= inp.s().len(),
{
    let (classes, q1) = css_classes(inp, p);
    let (pseudo_classes, q2) = css_pseudo_classes(inp, q1);
    let (attributes, q3) = css_attributes(inp, q2);
    (CssSelector { element, id, classes, pseudo_classes, attributes }, q3)
}

/// A selector at `p`.
pub fn css_selector<'a>(inp: &Input<'a>, p: usize) -> (r: Option<(CssSelector<'a>, usize)>)
    requires
        inp.wf(),
        p <= inp.s().len(),
    ensures
        agrees(r, rules::css_selector(inp.s(), p as int)),
        r matches Some((_, q)) ==> p < q <= inp.s().len(),
{
    match identifier(inp, p) {
        Some((e, q)) => match css_id(inp, q) {
            Some((i, r)) => Some(selector_tail(inp, r, Some(e), Some(i))),
            None => Some(selector_tail(inp, q, Some(e), None)),
        },
        None => match css_id(inp, p) {
            Some((i, r)) => Some(selector_tail(inp, r, None, Some(i))),
            None => {
                let (m, q) = selector_tail(inp, p, None, None);
                if q == p {
                    None
                } else {
                    Some((m, q))
                }
            },
        },
    }
}

/// Position after an optional space.
pub fn opt_space(inp: &Input, p: usize) -> (r: usize)
    requires
        inp.wf(),
        p <= inp.s().len(),
    ensures
        r as int == rules::opt_space(inp.s(), p as int),
        p <= r <= inp.s().len(),
{
    proof {
        reveal_strlit(" ");
    }
    if lit(inp, p, " ") {
        p + 1
    } else {
        p
    }
}

/// A selector step at `p`.
pub fn css_selector_step<'a>(inp: &Input<'a>, p: usize) -> (r: Option<(CssSelectorStep<'a>, usize)>)
    requires
        inp.wf(),
        p <= inp.s().len(),
    ensures
        agrees(r, rules::css_selector_step(inp.s(), p as int)),
        r matches Some((_, q)) ==> p < q <= inp.s().len(),
{
    proof {
        reveal_strlit(">");
        reveal_strlit("~");
        reveal_strlit("+");
    }
    let p1 = opt_space(inp, p);
    let comb = if lit(inp, p1, ">") {
        Some(CssSelectorCombinator::DirectChild)
    } else if lit(inp, p1, "~") {
        Some(CssSelectorCombinator::GeneralSibling)
    } else if lit(inp, p1, "+") {
        Some(CssSelectorCombinator::AdjacentSibling)
    } else {
        None
    };
    match comb {
        Some(c) => {
            let p2 = opt_space(inp, p1 + 1);
            match css_selector(inp, p2) {
                Some((sel, q)) => Some((CssSelectorStep { selector: sel, combinator: c }, q)),
                None => None,
            }
        },
        None => if p1 > p {
            match css_selector(inp, p1) {
                Some((sel, q)) => Some(
                    (CssSelectorStep { selector: sel, combinator: CssSelectorCombinator::Descendent }, q),
                ),
                None => None,
            }
        } else {
            None
        },
    }
}

/// Steps following each other from `p`.
pub fn css_selector_steps<'a>(inp: &Input<'a>, p: usize) -> (r: (Vec<CssSelectorStep<'a>>, usize))
    requires
        inp.wf(),
        p <= inp.s().len(),
    ensures
        (steps_view(r.0@), r.1 as int) == rules::css_selector_steps(inp.s(), p as int),
        p <= r.1 <= inp.s().len(),
{
    let mut acc: Vec<CssSelectorStep<'a>> = Vec::new();
    let mut i = p;
    loop
        invariant
            inp.wf(),
            p <= i <= inp.s().len(),
            rules::css_selector_steps(inp.s(), p as int) == (
                steps_view(acc@) + rules::css_selector_steps(inp.s(), i as int).0,
                rules::css_selector_steps(inp.s(), i as int).1,
            ),
        decreases inp.s().len() - i,
    {
        match css_selector_step(inp, i) {
            Some((c, q)) => {
                let ghost old_acc = acc@;
                let ghost cv = c@;
                acc.push(c);
                assert(steps_view(acc@) =~= steps_view(old_acc) + seq![cv]);
                assert(steps_view(acc@) + rules::css_selector_steps(inp.s(), q as int).0
                    =~= steps_view(old_acc) + (seq![cv] + rules::css_selector_steps(
                    inp.s(),
                    q as int,
                ).0));
                i = q;
            },
            None => {
                assert(steps_view(acc@) + rules::css_selector_steps(inp.s(), i as int).0
                    =~= steps_view(acc@));
                return (acc, i);
            },
        }
    }
}

/// A selector path at `p`.
pub fn css_selector_path<'a>(inp: &Input<'a>, p: usize) -> (r: Option<(CssSelectorPath<'a>, usize)>)
    requires
        inp.wf(),
        p <= inp.s().len(),
    ensures
        agrees(r, rules::css_selector_path(inp.s(), p as int)),
        r matches Some((_, q)) ==> p < q <= inp.s().len(),
{
    let p0 = skip_ws(inp, p);
    match css_selector(inp, p0) {
        Some((f, q)) => {
            let ghost fv = f@;
            let (rest, r) = css_selector_steps(inp, q);
            let ghost rv = steps_view(rest@);
            let path = CssSelectorPath::new(f, rest);
            assert(path@ =~= seq![
                crate::css::StepModel { selector: fv, combinator: CssSelectorCombinator::Start },
            ] + rv);
            Some((path, skip_ws(inp, r)))
        },
        None => None,
    }
}

/// Further paths, each after a comma, from `p`.
pub fn css_selector_paths<'a>(inp: &Input<'a>, p: usize) -> (r: (Vec<CssSelectorPath<'a>>, usize))
    requires
        inp.wf(),
        p <= inp.s().len(),
    ensures
        (paths_view(r.0@), r.1 as int) == rules::css_selector_paths(inp.s(), p as int),
        p <= r.1 <= inp.s().len(),
{
    let mut acc: Vec<CssSelectorPath<'a>> = Vec::new();
    let mut i = p;
    loop
        invariant
            inp.wf(),
            p <= i <= inp.s().len(),
            rules::css_selector_paths(inp.s(), p as int) == (
                paths_view(acc@) + rules::css_selector_paths(inp.s(), i as int).0,
                rules::css_selector_paths(inp.s(), i as int).1,
            ),
        decreases inp.s().len() - i,
    {
        proof {
            reveal_strlit(",");
        }
        let next = if lit(inp, i, ",") {
            css_selector_path(inp, i + 1)
        } else {
            None
        };
        match next {
            Some((c, q)) => {
                let ghost old_acc = acc@;
                let ghost cv = c@;
                acc.push(c);
                assert(paths_view(acc@) =~= paths_view(old_acc) + seq![cv]);
                assert(paths_view(acc@) + rules::css_selector_paths(inp.s(), q as int).0
                    =~= paths_view(old_acc) + (seq![cv] + rules::css_selector_paths(
                    inp.s(),
                    q as int,
                ).0));
                i = q;
            },
            None => {
                assert(paths_view(acc@) + rules::css_selector_paths(inp.s(), i as int).0
                    =~= paths_view(acc@));
                return (acc, i);
            },
        }
    }
}

/// A selector list at `p`.
pub fn css_selector_list<'a>(inp: &Input<'a>, p: usize) -> (r: Option<(CssSelectorList<'a>, usize)>)
    requires
        inp.wf(),
        p <= inp.s().len(),
    ensures
        agrees(r, rules::css_selector_list(inp.s(), p as int)),
        r matches Some((_, q)) ==> p < q <= inp.s().len(),
{
    match css_selector_path(inp, p) {
        Some((first, q)) => {
            let ghost fv = first@;
            let (rest, r) = css_selector_paths(inp, q);
            let ghost rv = paths_view(rest@);
            let mut all: Vec<CssSelectorPath<'a>> = Vec::new();
            all.push(first);
            let mut rest = rest;
            all.append(&mut rest);
            assert(paths_view(all@) =~= seq![fv] + rv);
            Some((CssSelectorList(all), r))
        },
        None => None,
    }
}

/// `{ list }` at `p`.
pub fn braced_list<'a>(inp: &Input<'a>, p: usize) -> (r: Option<(CssSelectorList<'a>, usize)>)
    requires
        inp.wf(),
        p <= inp.s().len(),
    ensures
        agrees(r, rules::braced_list(inp.s(), p as int)),
        r matches Some((_, q)) ==> p < q <= inp.s().len(),
{
    proof {
        reveal_strlit("{");
        reveal_strlit("}");
    }
    if !lit(inp, p, "{") {
        return None;
    }
    let p0 = skip_ws(inp, p + 1);
    match css_selector_list(inp, p0) {
        Some((l, q)) => {
            let q1 = skip_ws(inp, q);
            if lit(inp, q1, "}") {
                Some((l, q1 + 1))
            } else {
                None
            }
        },
        None => None,
    }
}

} // verus!
