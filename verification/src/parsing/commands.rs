//! Reading commands and pipelines.
use vstd::prelude::*;
use crate::css::CssSelectorList;
use crate::element_creating::{ElementCreatingCommand, ElementCreatingPipeline};
use crate::element_processing::{
    commands_model, lemma_commands_model, ElementProcessingCommand, ElementProcessingPipeline,
};
use crate::parsing::lexer::{
    agrees, agrees_pos, assign_marker, identifier, iterate_marker, keyword2, keyword3, lit, lit_end, pipe,
    skip_ws, string_value, Input,
};
use crate::parsing::rules;
use crate::parsing::selectors::{braced_list, css_selector_list};
use crate::string_creating::{
    ElementSelectingCommand, StringValueCreatingPipeline, ValueExtractingCommand,
    ValueProcessingCommand,
};
use crate::ValueSource;

verus! {

broadcast use vstd::string::group_string_axioms;

/// An element selecting command at `p`.
pub fn element_selecting_command<'a>(inp: &Input<'a>, p: usize) -> (r: Option<
    (ElementSelectingCommand<'a>, usize),
>)
    requires
        inp.wf(),
        p <= inp.s().len(),
    ensures
        agrees(r, rules::element_selecting_command(inp.s(), p as int)),
        r matches Some((_, q)) ==> p < q <= inp.s().len(),
{
    proof {
        reveal_strlit("USE-ELEMENT");
        reveal_strlit("THIS");
        reveal_strlit("USE-PARENT");
        reveal_strlit("PARENT");
    }
    if let Some(q) = keyword2(inp, p, "USE-ELEMENT", "THIS") {
        return Some((ElementSelectingCommand::UseElement, q));
    }
    if let Some(q) = keyword2(inp, p, "USE-PARENT", "PARENT") {
        return Some((ElementSelectingCommand::UseParent, q));
    }
    if let Some(q) = lit_end(inp, p, "QUERY-ELEMENT") {
        if let Some((l, t)) = braced_list(inp, q) {
            return Some((ElementSelectingCommand::QueryElement(l), t));
        }
    }
    if let Some(q) = lit_end(inp, p, "QUERY-PARENT") {
        if let Some((l, t)) = braced_list(inp, q) {
            return Some((ElementSelectingCommand::QueryParent(l), t));
        }
    }
    if let Some(q) = lit_end(inp, p, "QUERY-ROOT") {
        if let Some((l, t)) = braced_list(inp, q) {
            return Some((ElementSelectingCommand::QueryRoot(l), t));
        }
    }
    None
}

/// `{ identifier }` at `p`.
pub fn braced_identifier<'a>(inp: &Input<'a>, p: usize) -> (r: Option<(&'a str, usize)>)
    requires
        inp.wf(),
        p <= inp.s().len(),
    ensures
        agrees(r, rules::braced_identifier(inp.s(), p as int)),
        r matches Some((_, q)) ==> p < q <= inp.s().len(),
{
    proof {
        reveal_strlit("{");
        reveal_strlit("}");
    }
    if !lit(inp, p, "{") {
        return None;
    }
    match identifier(inp, skip_ws(inp, p + 1)) {
        Some((a, q)) => {
            let q1 = skip_ws(inp, q);
            if lit(inp, q1, "}") {
                Some((a, q1 + 1))
            } else {
                None
            }
        },
        None => None,
    }
}

/// `{ string_value }` at `p`.
pub fn braced_string<'a>(inp: &Input<'a>, p: usize) -> (r: Option<(&'a str, usize)>)
    requires
        inp.wf(),
        p <= inp.s().len(),
    ensures
        agrees(r, rules::braced_string(inp.s(), p as int)),
        r matches Some((_, q)) ==> p < q <= inp.s().len(),
{
    proof {
        reveal_strlit("{");
        reveal_strlit("}");
    }
    if !lit(inp, p, "{") {
        return None;
    }
    match string_value(inp, skip_ws(inp, p + 1)) {
        Some((a, q)) => {
            let q1 = skip_ws(inp, q);
            if lit(inp, q1, "}") {
                Some((a, q1 + 1))
            } else {
                None
            }
        },
        None => None,
    }
}

/// A value extracting command at `p`.
pub fn value_extracting_command<'a>(inp: &Input<'a>, p: usize) -> (r: Option<
    (ValueExtractingCommand<'a>, usize),
>)
    requires
        inp.wf(),
        p <= inp.s().len(),
    ensures
        agrees(r, rules::value_extracting_command(inp.s(), p as int)),
        r matches Some((_, q)) ==> p < q <= inp.s().len(),
{
    proof {
        reveal_strlit("GET-TEXT-CONTENT");
    }
    if let Some(q) = lit_end(inp, p, "GET-ATTR") {
        if let Some((a, t)) = braced_identifier(inp, q) {
            return Some((ValueExtractingCommand::GetAttribute(a), t));
        }
    }
    if let Some(q) = lit_end(inp, p, "GET-TEXT-CONTENT") {
        return Some((ValueExtractingCommand::GetTextContent, q));
    }
    None
}

/// A value processing command at `p`.
pub fn value_processing_command<'a>(inp: &Input<'a>, p: usize) -> (r: Option<
    (ValueProcessingCommand<'a>, usize),
>)
    requires
        inp.wf(),
        p <= inp.s().len(),
    ensures
        agrees(r, rules::value_processing_command(inp.s(), p as int)),
        r matches Some((_, q)) ==> p < q <= inp.s().len(),
{
    proof {
        reveal_strlit("REGEX-REPLACE{");
        reveal_strlit("TO-LOWER");
        reveal_strlit("TO-UPPER");
        reveal_strlit("ADD-PREFIX");
    }
    if let Some(q0) = lit_end(inp, p, "REGEX-REPLACE{") {
        match string_value(inp, skip_ws(inp, q0)) {
            Some((re, q)) => match assign_marker(inp, skip_ws(inp, q)) {
                Some(r) => match string_value(inp, skip_ws(inp, r)) {
                    Some((rep, t)) => match close(inp, t) {
                        Some(u) => Some((ValueProcessingCommand::RegexReplace(re, rep), u)),
                        None => None,
                    },
                    None => None,
                },
                None => None,
            },
            None => None,
        }
    } else if let Some(q) = lit_end(inp, p, "TO-LOWER") {
        Some((ValueProcessingCommand::ToLower, q))
    } else if let Some(q) = lit_end(inp, p, "TO-UPPER") {
        Some((ValueProcessingCommand::ToUpper, q))
    } else if let Some(q0) = lit_end(inp, p, "ADD-PREFIX") {
        match braced_string(inp, q0) {
            Some((a, q)) => Some((ValueProcessingCommand::AddPrefix(a), q)),
            None => None,
        }
    } else {
        None
    }
}

/// Further value processing commands, each after a pipe, from `p`.
pub fn value_processing_rest<'a>(inp: &Input<'a>, p: usize) -> (r: (Vec<ValueProcessingCommand<'a>>, usize))
    requires
        inp.wf(),
        p <= inp.s().len(),
    ensures
        (r.0@.map_values(|c: ValueProcessingCommand| c@), r.1 as int) == rules::value_processing_rest(
            inp.s(),
            p as int,
        ),
        p <= r.1 <= inp.s().len(),
{
    let mut acc: Vec<ValueProcessingCommand<'a>> = Vec::new();
    let mut i = p;
    loop
        invariant
            inp.wf(),
            p <= i <= inp.s().len(),
            rules::value_processing_rest(inp.s(), p as int) == (
                acc@.map_values(|c: ValueProcessingCommand| c@) + rules::value_processing_rest(
                    inp.s(),
                    i as int,
                ).0,
                rules::value_processing_rest(inp.s(), i as int).1,
            ),
        decreases inp.s().len() - i,
    {
        let next = match pipe(inp, i) {
            Some(q0) => value_processing_command(inp, q0),
            None => None,
        };
        match next {
            Some((c, q)) => {
                let ghost old_acc = acc@;
                let ghost cv = c@;
                acc.push(c);
                proof {
                    assert(acc@.map_values(|c: ValueProcessingCommand| c@) =~= old_acc.map_values(
                        |c: ValueProcessingCommand| c@,
                    ) + seq![cv]);
                    assert(acc@.map_values(|c: ValueProcessingCommand| c@) + rules::value_processing_rest(
                        inp.s(),
                        q as int,
                    ).0 =~= old_acc.map_values(|c: ValueProcessingCommand| c@) + (seq![cv]
                        + rules::value_processing_rest(inp.s(), q as int).0));
                }
                i = q;
            },
            None => {
                assert(acc@.map_values(|c: ValueProcessingCommand| c@) + rules::value_processing_rest(
                    inp.s(),
                    i as int,
                ).0 =~= acc@.map_values(|c: ValueProcessingCommand| c@));
                return (acc, i);
            },
        }
    }
}

/// A string value creating pipeline at `p`.
pub fn string_creating_pipeline<'a>(inp: &Input<'a>, p: usize) -> (r: Option<
    (StringValueCreatingPipeline<'a>, usize),
>)
    requires
        inp.wf(),
        p <= inp.s().len(),
    ensures
        agrees(r, rules::string_creating_pipeline(inp.s(), p as int)),
        r matches Some((_, q)) ==> p < q <= inp.s().len(),
{
    match element_selecting_command(inp, p) {
        Some((sel, q)) => match pipe(inp, q) {
            Some(q2) => match value_extracting_command(inp, q2) {
                Some((ext, t)) => {
                    let (cmds, u) = value_processing_rest(inp, t);
                    let pl = StringValueCreatingPipeline::with_value_processing(sel, ext, cmds);
                    Some((pl, u))
                },
                None => None,
            },
            None => None,
        },
        None => None,
    }
}

/// A value source at `p`.
pub fn value_source<'a>(inp: &Input<'a>, p: usize) -> (r: Option<(ValueSource<'a>, usize)>)
    requires
        inp.wf(),
        p <= inp.s().len(),
    ensures
        agrees(r, rules::value_source(inp.s(), p as int)),
        r matches Some((_, q)) ==> p < q <= inp.s().len(),
{
    match string_value(inp, p) {
        Some((v, q)) => Some((ValueSource::StringValue(v), q)),
        None => match string_creating_pipeline(inp, p) {
            Some((v, q)) => Some((ValueSource::SubPipeline(v), q)),
            None => None,
        },
    }
}

/// An element creating command at `p` (with `replaced`, also `QUERY-REPLACED`).
pub fn element_creating_command<'a>(inp: &Input<'a>, p: usize, replaced: bool) -> (r: Option<
    (ElementCreatingCommand<'a>, usize),
>)
    requires
        inp.wf(),
        p <= inp.s().len(),
    ensures
        agrees(r, rules::element_creating_command(inp.s(), p as int, replaced)),
        r matches Some((_, q)) ==> p < q <= inp.s().len(),
{
    if replaced {
        if let Some(q) = keyword3(inp, p, "QUERY-REPLACED", "KEEP", "FROM-REPLACED") {
            if let Some((l, t)) = braced_list(inp, q) {
                return Some((ElementCreatingCommand::FromReplaced(l), t));
            }
        }
    }
    if let Some(q) = keyword2(inp, p, "CREATE-ELEMENT", "NEW") {
        if let Some((n, t)) = braced_identifier(inp, q) {
            return Some((ElementCreatingCommand::CreateElement(n), t));
        }
    }
    if let Some(q) = keyword2(inp, p, "FROM-FILE", "SOURCE") {
        if let Some((f, t)) = braced_string(inp, q) {
            return Some((ElementCreatingCommand::FromFile(f), t));
        }
    }
    None
}

/// The start of the value after `{` and an optional assignment marker.
pub fn open_with_optional_marker(inp: &Input, p: usize) -> (r: Option<usize>)
    requires
        inp.wf(),
        p <= inp.s().len(),
    ensures
        agrees_pos(r, rules::open_with_optional_marker(inp.s(), p as int)),
        r matches Some(q) ==> p < q <= inp.s().len(),
{
    proof {
        reveal_strlit("{");
    }
    if !lit(inp, p, "{") {
        return None;
    }
    let q = skip_ws(inp, p + 1);
    match assign_marker(inp, q) {
        Some(r) => Some(skip_ws(inp, r)),
        None => Some(q),
    }
}

/// The position after optional whitespace and `}`.
pub fn close(inp: &Input, p: usize) -> (r: Option<usize>)
    requires
        inp.wf(),
        p <= inp.s().len(),
    ensures
        agrees_pos(r, rules::close(inp.s(), p as int)),
        r matches Some(q) ==> p < q <= inp.s().len(),
{
    proof {
        reveal_strlit("}");
    }
    let q = skip_ws(inp, p);
    if lit(inp, q, "}") {
        Some(q + 1)
    } else {
        None
    }
}

/// A command taking a value, with keyword `k`, at `p`.
pub fn value_command<'a>(inp: &Input<'a>, p: usize, k: &str) -> (r: Option<(ValueSource<'a>, usize)>)
    requires
        inp.wf(),
        p <= inp.s().len(),
    ensures
        agrees(r, rules::value_command(inp.s(), p as int, k@)),
        r matches Some((_, q)) ==> p < q <= inp.s().len(),
{
    match lit_end(inp, p, k) {
        Some(q) => match open_with_optional_marker(inp, q) {
            Some(q1) => match value_source(inp, q1) {
                Some((v, r)) => match close(inp, r) {
                    Some(t) => Some((v, t)),
                    None => None,
                },
                None => None,
            },
            None => None,
        },
        None => None,
    }
}

/// `SET-ATTR{..}` at `p`.
pub fn set_attr_command<'a>(inp: &Input<'a>, p: usize) -> (r: Option<
    (ElementProcessingCommand<'a>, usize),
>)
    requires
        inp.wf(),
        p <= inp.s().len(),
    ensures
        agrees(r, rules::set_attr_command(inp.s(), p as int)),
        r matches Some((_, q)) ==> p < q <= inp.s().len(),
{
    match lit_end(inp, p, "SET-ATTR{") {
        Some(q) => match identifier(inp, skip_ws(inp, q)) {
            Some((a, q1)) => match assign_marker(inp, skip_ws(inp, q1)) {
                Some(r) => match value_source(inp, skip_ws(inp, r)) {
                    Some((v, t)) => match close(inp, t) {
                        Some(u) => Some((ElementProcessingCommand::SetAttribute(a, v), u)),
                        None => None,
                    },
                    None => None,
                },
                None => None,
            },
            None => None,
        },
        None => None,
    }
}

/// The commands without sub-pipelines, selected by `which` in the order of the grammar.
#[verifier::spinoff_prover]
#[verifier::rlimit(40)]
pub fn simple_command<'a>(inp: &Input<'a>, p: usize, which: usize) -> (r: Option<
    (ElementProcessingCommand<'a>, usize),
>)
    requires
        inp.wf(),
        p <= inp.s().len(),
    ensures
        agrees(r, rules::simple_command(inp.s(), p as int, which as int)),
        r matches Some((_, q)) ==> p < q <= inp.s().len(),
{
    proof {
        reveal_strlit("CLEAR-CONTENT");
    }
    if which == 0 {
        match keyword2(inp, p, "EXTRACT-ELEMENT", "ONLY") {
            Some(q) => match braced_list(inp, q) {
                Some((l, r)) => Some((ElementProcessingCommand::ExtractElement(l), r)),
                None => None,
            },
            None => None,
        }
    } else if which == 1 {
        match keyword2(inp, p, "REMOVE-ELEMENT", "WITHOUT") {
            Some(q) => match braced_list(inp, q) {
                Some((l, r)) => Some((ElementProcessingCommand::RemoveElement(l), r)),
                None => None,
            },
            None => None,
        }
    } else if which == 2 {
        match lit_end(inp, p, "CLEAR-ATTR") {
            Some(q) => match braced_identifier(inp, q) {
                Some((a, r)) => Some((ElementProcessingCommand::ClearAttribute(a), r)),
                None => None,
            },
            None => None,
        }
    } else if which == 3 {
        match lit_end(inp, p, "CLEAR-CONTENT") {
            Some(q) => Some((ElementProcessingCommand::ClearContent, q)),
            None => None,
        }
    } else if which == 4 {
        set_attr_command(inp, p)
    } else if which == 5 {
        match value_command(inp, p, "SET-TEXT-CONTENT") {
            Some((v, q)) => Some((ElementProcessingCommand::SetTextContent(v), q)),
            None => None,
        }
    } else if which == 6 {
        match value_command(inp, p, "ADD-TEXT-CONTENT") {
            Some((v, q)) => Some((ElementProcessingCommand::AddTextContent(v), q)),
            None => match value_command(inp, p, "APPEND-TEXT-CONTENT") {
                Some((v, q)) => Some((ElementProcessingCommand::AddTextContent(v), q)),
                None => None,
            },
        }
    } else if which == 7 {
        match value_command(inp, p, "ADD-COMMENT") {
            Some((v, q)) => Some((ElementProcessingCommand::AddComment(v), q)),
            None => match value_command(inp, p, "APPEND-COMMENT") {
                Some((v, q)) => Some((ElementProcessingCommand::AddComment(v), q)),
                None => None,
            },
        }
    } else if which == 8 {
        match value_command(inp, p, "PREPEND-TEXT-CONTENT") {
            Some((v, q)) => Some((ElementProcessingCommand::PrependTextContent(v), q)),
            None => None,
        }
    } else {
        match value_command(inp, p, "PREPEND-COMMENT") {
            Some((v, q)) => Some((ElementProcessingCommand::PrependComment(v), q)),
            None => None,
        }
    }
}

/// The commands of a pipeline starting at `p`.
pub fn pipeline<'a>(inp: &Input<'a>, p: usize) -> (r: (Vec<ElementProcessingCommand<'a>>, usize))
    requires
        inp.wf(),
        p <= inp.s().len(),
    ensures
        (commands_model(r.0@), r.1 as int) == rules::pipeline(inp.s(), p as int),
        p <= r.1 <= inp.s().len(),
    decreases inp.s().len() - p, 2int,
{
    match element_processing_command(inp, p) {
        Some((c, q)) => {
            let (rest, r) = pipeline_rest(inp, q);
            let mut all: Vec<ElementProcessingCommand<'a>> = Vec::new();
            let ghost cv = c@;
            let ghost rv = rest@;
            all.push(c);
            let mut rest = rest;
            all.append(&mut rest);
            proof {
                lemma_commands_model(all@);
                lemma_commands_model(rv);
                assert(commands_model(all@) =~= seq![cv] + commands_model(rv));
            }
            (all, r)
        },
        None => (Vec::new(), p),
    }
}

/// Further commands of a pipeline, each after a pipe, from `p`.
pub fn pipeline_rest<'a>(inp: &Input<'a>, p: usize) -> (r: (Vec<ElementProcessingCommand<'a>>, usize))
    requires
        inp.wf(),
        p <= inp.s().len(),
    ensures
        (commands_model(r.0@), r.1 as int) == rules::pipeline_rest(inp.s(), p as int),
        p <= r.1 <= inp.s().len(),
    decreases inp.s().len() - p, 2int,
{
    let mut acc: Vec<ElementProcessingCommand<'a>> = Vec::new();
    let mut i = p;
    loop
        invariant
            inp.wf(),
            p <= i <= inp.s().len(),
            rules::pipeline_rest(inp.s(), p as int) == (
                commands_model(acc@) + rules::pipeline_rest(inp.s(), i as int).0,
                rules::pipeline_rest(inp.s(), i as int).1,
            ),
        decreases inp.s().len() - i,
    {
        let next = match pipe(inp, i) {
            Some(q0) => match element_processing_command(inp, q0) {
                Some((c, q)) => if q0 < q {
                    Some((c, q))
                } else {
                    None
                },
                None => None,
            },
            None => None,
        };
        match next {
            Some((c, q)) => {
                let ghost old_acc = acc@;
                let ghost cv = c@;
                acc.push(c);
                proof {
                    lemma_commands_model(acc@);
                    lemma_commands_model(old_acc);
                    assert(commands_model(acc@) =~= commands_model(old_acc) + seq![cv]);
                    assert(commands_model(acc@) + rules::pipeline_rest(inp.s(), q as int).0
                        =~= commands_model(old_acc) + (seq![cv] + rules::pipeline_rest(
                        inp.s(),
                        q as int,
                    ).0));
                }
                i = q;
            },
            None => {
                assert(commands_model(acc@) + rules::pipeline_rest(inp.s(), i as int).0
                    =~= commands_model(acc@));
                return (acc, i);
            },
        }
    }
}

/// An element creating pipeline at `p` (with `replaced`, also starting with `QUERY-REPLACED`).
pub fn element_creating_pipeline<'a>(inp: &Input<'a>, p: usize, replaced: bool) -> (r: Option<
    (ElementCreatingPipeline<'a>, usize),
>)
    requires
        inp.wf(),
        p <= inp.s().len(),
    ensures
        agrees(r, rules::element_creating_pipeline(inp.s(), p as int, replaced)),
        r matches Some((_, q)) ==> p < q <= inp.s().len(),
    decreases inp.s().len() - p, 1int,
{
    match element_creating_command(inp, p, replaced) {
        Some((c, q)) => match pipe(inp, q) {
            Some(q2) => {
                let (cmds, r) = pipeline(inp, q2);
                Some((ElementCreatingPipeline(c, cmds), r))
            },
            None => {
                let cp = ElementCreatingPipeline(c, Vec::new());
                assert(commands_model(cp.1@) =~= Seq::<crate::element_processing::ProcessingModel>::empty());
                Some((cp, q))
            },
        },
        None => None,
    }
}

/// An element processing command at `p`.
pub fn element_processing_command<'a>(inp: &Input<'a>, p: usize) -> (r: Option<
    (ElementProcessingCommand<'a>, usize),
>)
    requires
        inp.wf(),
        p <= inp.s().len(),
    ensures
        agrees(r, rules::element_processing_command(inp.s(), p as int)),
        r matches Some((_, q)) ==> p < q <= inp.s().len(),
    decreases inp.s().len() - p, 1int,
{
    if let Some(r) = simple_command(inp, p, 0) {
        return Some(r);
    }
    if let Some(r) = simple_command(inp, p, 1) {
        return Some(r);
    }
    if let Some(r) = for_each_command(inp, p) {
        return Some(r);
    }
    if let Some(r) = simple_command(inp, p, 2) {
        return Some(r);
    }
    if let Some(r) = simple_command(inp, p, 3) {
        return Some(r);
    }
    if let Some(r) = simple_command(inp, p, 4) {
        return Some(r);
    }
    if let Some(r) = simple_command(inp, p, 5) {
        return Some(r);
    }
    if let Some(r) = simple_command(inp, p, 6) {
        return Some(r);
    }
    if let Some(r) = simple_command(inp, p, 7) {
        return Some(r);
    }
    if let Some(r) = simple_command(inp, p, 8) {
        return Some(r);
    }
    if let Some(r) = simple_command(inp, p, 9) {
        return Some(r);
    }
    if let Some(r) = add_element_command(inp, p, false) {
        return Some(r);
    }
    if let Some(r) = add_element_command(inp, p, true) {
        return Some(r);
    }
    replace_command(inp, p)
}

/// `FOR-EACH{..}` at `p`.
pub fn for_each_command<'a>(inp: &Input<'a>, p: usize) -> (r: Option<
    (ElementProcessingCommand<'a>, usize),
>)
    requires
        inp.wf(),
        p <= inp.s().len(),
    ensures
        agrees(r, rules::for_each_command(inp.s(), p as int)),
        r matches Some((_, q)) ==> p < q <= inp.s().len(),
    decreases inp.s().len() - p, 0int,
{
    proof {
        reveal_strlit("{");
        reveal_strlit("FOR-EACH");
        reveal_strlit("WITH");
        reveal_strlit("FOR");
    }
    match keyword3(inp, p, "FOR-EACH", "WITH", "FOR") {
        Some(q) => if lit(inp, q, "{") {
            match css_selector_list(inp, skip_ws(inp, q + 1)) {
                Some((l, r)) => match iterate_marker(inp, skip_ws(inp, r)) {
                    Some(t) => {
                        let t1 = skip_ws(inp, t);
                        let (cmds, u) = pipeline(inp, t1);
                        match close(inp, u) {
                            Some(v) => Some(
                                (
                                    ElementProcessingCommand::ForEach(
                                        l,
                                        ElementProcessingPipeline(cmds),
                                    ),
                                    v,
                                ),
                            ),
                            None => None,
                        }
                    },
                    None => None,
                },
                None => None,
            }
        } else {
            None
        },
        None => None,
    }
}

/// `ADD-ELEMENT{..}` (or `APPEND-ELEMENT{..}`) at `p`; with `first`, `PREPEND-ELEMENT{..}`.
pub fn add_element_command<'a>(inp: &Input<'a>, p: usize, first: bool) -> (r: Option<
    (ElementProcessingCommand<'a>, usize),
>)
    requires
        inp.wf(),
        p <= inp.s().len(),
    ensures
        agrees(r, rules::add_element_command(inp.s(), p as int, first)),
        r matches Some((_, q)) ==> p < q <= inp.s().len(),
    decreases inp.s().len() - p, 0int,
{
    let k = if first {
        keyword2(inp, p, "PREPEND-ELEMENT", "PREPEND-ELEMENT")
    } else {
        keyword2(inp, p, "ADD-ELEMENT", "APPEND-ELEMENT")
    };
    match k {
        Some(q0) => match open_with_optional_marker(inp, q0) {
            Some(q) => match element_creating_pipeline(inp, q, false) {
                Some((cp, r)) => match close(inp, r) {
                    Some(t) => if first {
                        Some((ElementProcessingCommand::PrependElement(cp), t))
                    } else {
                        Some((ElementProcessingCommand::AddElement(cp), t))
                    },
                    None => None,
                },
                None => None,
            },
            None => None,
        },
        None => None,
    }
}

/// `REPLACE{..}` at `p`.
pub fn replace_command<'a>(inp: &Input<'a>, p: usize) -> (r: Option<
    (ElementProcessingCommand<'a>, usize),
>)
    requires
        inp.wf(),
        p <= inp.s().len(),
    ensures
        agrees(r, rules::replace_command(inp.s(), p as int)),
        r matches Some((_, q)) ==> p < q <= inp.s().len(),
    decreases inp.s().len() - p, 0int,
{
    proof {
        reveal_strlit("{");
        reveal_strlit("REPLACE");
        reveal_strlit("MAP");
    }
    match keyword2(inp, p, "REPLACE", "MAP") {
        Some(q) => if lit(inp, q, "{") {
            match css_selector_list(inp, skip_ws(inp, q + 1)) {
                Some((l, r)) => match assign_marker(inp, skip_ws(inp, r)) {
                    Some(t) => {
                        let t1 = skip_ws(inp, t);
                        match element_creating_pipeline(inp, t1, true) {
                            Some((cp, u)) => match close(inp, u) {
                                Some(v) => Some((ElementProcessingCommand::Replace(l, cp), v)),
                                None => None,
                            },
                            None => None,
                        }
                    },
                    None => None,
                },
                None => None,
            }
        } else {
            None
        },
        None => None,
    }
}

} // verus!
