//! Reading whole texts with the rules of the pipeline grammar.
use vstd::prelude::*;
use crate::css::{CssSelector, CssSelectorList, CssSelectorPath};
use crate::element_processing::{commands_model, ElementProcessingCommand, ElementProcessingPipeline};
use crate::parsing::{commands, lexer, rules, selectors};
use crate::parsing::lexer::Input;
use crate::string_creating::{
    ElementSelectingCommand, StringValueCreatingPipeline, ValueExtractingCommand,
};

verus! {

/// The text did not match the rule: `position` is where the rule stopped reading
/// when it matched only a prefix, and 0 when it did not match at all.
#[derive(Debug, Clone, PartialEq, Eq)]
pub struct SyntaxError {
    pub position: usize,
}

/// Where a rule that does not read the whole text stopped reading.
pub open spec fn stop_position<V>(r: Option<(V, int)>) -> int {
    match r {
        Some((_, q)) => q,
        None => 0,
    }
}

/// A single CSS selector, such as `a#some.foo[a="b"]`.
pub fn css_selector<'a>(input: &'a str) -> (r: Result<CssSelector<'a>, SyntaxError>)
    ensures
        ({
            let s = input@;
            match r {
                Ok(v) => rules::whole(rules::css_selector(s, 0), s) == Some(v@),
                Err(e) => rules::whole(rules::css_selector(s, 0), s) is None && e.position == stop_position(rules::css_selector(s, 0)),
            }
        }),
{
    let inp = Input::new(input);
    let n = inp.chars.len();
    match selectors::css_selector(&inp, 0) {
        Some((v, q)) => if q == n {
            Ok(v)
        } else {
            Err(SyntaxError { position: q })
        },
        None => Err(SyntaxError { position: 0 }),
    }
}

/// A CSS selector path, such as `main > .content`.
pub fn css_selector_path<'a>(input: &'a str) -> (r: Result<CssSelectorPath<'a>, SyntaxError>)
    ensures
        ({
            let s = input@;
            match r {
                Ok(v) => rules::whole(rules::css_selector_path(s, 0), s) == Some(v@),
                Err(e) => rules::whole(rules::css_selector_path(s, 0), s) is None && e.position == stop_position(rules::css_selector_path(s, 0)),
            }
        }),
{
    let inp = Input::new(input);
    let n = inp.chars.len();
    match selectors::css_selector_path(&inp, 0) {
        Some((v, q)) => if q == n {
            Ok(v)
        } else {
            Err(SyntaxError { position: q })
        },
        None => Err(SyntaxError { position: 0 }),
    }
}

/// A comma-separated list of CSS selector paths.
pub fn css_selector_list<'a>(input: &'a str) -> (r: Result<CssSelectorList<'a>, SyntaxError>)
    ensures
        ({
            let s = input@;
            match r {
                Ok(v) => rules::whole(rules::css_selector_list(s, 0), s) == Some(v@),
                Err(e) => rules::whole(rules::css_selector_list(s, 0), s) is None && e.position == stop_position(rules::css_selector_list(s, 0)),
            }
        }),
{
    let inp = Input::new(input);
    let n = inp.chars.len();
    match selectors::css_selector_list(&inp, 0) {
        Some((v, q)) => if q == n {
            Ok(v)
        } else {
            Err(SyntaxError { position: q })
        },
        None => Err(SyntaxError { position: 0 }),
    }
}

/// A value in double quotes, single quotes or question marks, without the quotes.
pub fn string_value<'a>(input: &'a str) -> (r: Result<&'a str, SyntaxError>)
    ensures
        ({
            let s = input@;
            match r {
                Ok(v) => rules::whole(rules::string_value(s, 0), s) == Some(v@),
                Err(e) => rules::whole(rules::string_value(s, 0), s) is None && e.position == stop_position(rules::string_value(s, 0)),
            }
        }),
{
    let inp = Input::new(input);
    let n = inp.chars.len();
    match lexer::string_value(&inp, 0) {
        Some((v, q)) => if q == n {
            Ok(v)
        } else {
            Err(SyntaxError { position: q })
        },
        None => Err(SyntaxError { position: 0 }),
    }
}

/// A single command of the main pipeline.
pub fn element_processing_command<'a>(input: &'a str) -> (r: Result<ElementProcessingCommand<'a>, SyntaxError>)
    ensures
        ({
            let s = input@;
            match r {
                Ok(v) => rules::whole(rules::element_processing_command(s, 0), s) == Some(v@),
                Err(e) => rules::whole(rules::element_processing_command(s, 0), s) is None && e.position == stop_position(rules::element_processing_command(s, 0)),
            }
        }),
{
    let inp = Input::new(input);
    let n = inp.chars.len();
    match commands::element_processing_command(&inp, 0) {
        Some((v, q)) => if q == n {
            Ok(v)
        } else {
            Err(SyntaxError { position: q })
        },
        None => Err(SyntaxError { position: 0 }),
    }
}

/// A sub-pipeline creating a string value.
pub fn string_creating_pipeline<'a>(input: &'a str) -> (r: Result<StringValueCreatingPipeline<'a>, SyntaxError>)
    ensures
        ({
            let s = input@;
            match r {
                Ok(v) => rules::whole(rules::string_creating_pipeline(s, 0), s) == Some(v@),
                Err(e) => rules::whole(rules::string_creating_pipeline(s, 0), s) is None && e.position == stop_position(rules::string_creating_pipeline(s, 0)),
            }
        }),
{
    let inp = Input::new(input);
    let n = inp.chars.len();
    match commands::string_creating_pipeline(&inp, 0) {
        Some((v, q)) => if q == n {
            Ok(v)
        } else {
            Err(SyntaxError { position: q })
        },
        None => Err(SyntaxError { position: 0 }),
    }
}

/// A command selecting the elements a value is taken from.
pub fn element_selecting_command<'a>(input: &'a str) -> (r: Result<ElementSelectingCommand<'a>, SyntaxError>)
    ensures
        ({
            let s = input@;
            match r {
                Ok(v) => rules::whole(rules::element_selecting_command(s, 0), s) == Some(v@),
                Err(e) => rules::whole(rules::element_selecting_command(s, 0), s) is None && e.position == stop_position(rules::element_selecting_command(s, 0)),
            }
        }),
{
    let inp = Input::new(input);
    let n = inp.chars.len();
    match commands::element_selecting_command(&inp, 0) {
        Some((v, q)) => if q == n {
            Ok(v)
        } else {
            Err(SyntaxError { position: q })
        },
        None => Err(SyntaxError { position: 0 }),
    }
}

/// A command extracting values from elements.
pub fn value_extracting_command<'a>(input: &'a str) -> (r: Result<ValueExtractingCommand<'a>, SyntaxError>)
    ensures
        ({
            let s = input@;
            match r {
                Ok(v) => rules::whole(rules::value_extracting_command(s, 0), s) == Some(v@),
                Err(e) => rules::whole(rules::value_extracting_command(s, 0), s) is None && e.position == stop_position(rules::value_extracting_command(s, 0)),
            }
        }),
{
    let inp = Input::new(input);
    let n = inp.chars.len();
    match commands::value_extracting_command(&inp, 0) {
        Some((v, q)) => if q == n {
            Ok(v)
        } else {
            Err(SyntaxError { position: q })
        },
        None => Err(SyntaxError { position: 0 }),
    }
}

/// A whole pipeline definition.
pub fn pipeline<'a>(input: &'a str) -> (r: Result<ElementProcessingPipeline<'a>, SyntaxError>)
    ensures
        ({
            let s = input@;
            match r {
                Ok(v) => rules::pipeline(s, 0).1 == s.len() && v@ == rules::pipeline(s, 0).0,
                Err(e) => rules::pipeline(s, 0).1 != s.len() && e.position == rules::pipeline(s, 0).1,
            }
        }),
{
    let inp = Input::new(input);
    let n = inp.chars.len();
    let (cmds, q) = commands::pipeline(&inp, 0);
    if q == n {
        Ok(ElementProcessingPipeline(cmds))
    } else {
        Err(SyntaxError { position: q })
    }
}

} // verus!
