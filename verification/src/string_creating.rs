//! Sub-pipelines that produce string values from the currently processed element.
use vstd::prelude::*;
use crate::css::{CssSelectorList, StepModel};

verus! {

/// Selects the element(s) a value is taken from.
#[derive(Debug, Clone, PartialEq)]
pub enum ElementSelectingCommand<'a> {
    /// Returns the previously selected element
    UseElement,
    /// Returns the parent of the previously selected element (if exists)
    UseParent,
    /// Run a CSS selector on the previously selected element
    QueryElement(CssSelectorList<'a>),
    /// Run a CSS selector on the parent of the previously selected element (if exists)
    QueryParent(CssSelectorList<'a>),
    /// Run a CSS selector on the root of the tree the previously selected element belongs to
    QueryRoot(CssSelectorList<'a>),
}

/// Model of an element selecting command.
pub enum SelectingModel {
    UseElement,
    UseParent,
    QueryElement(Seq<Seq<StepModel>>),
    QueryParent(Seq<Seq<StepModel>>),
    QueryRoot(Seq<Seq<StepModel>>),
}

impl<'a> View for ElementSelectingCommand<'a> {
    type V = SelectingModel;

    open spec fn view(&self) -> SelectingModel {
        match self {
            ElementSelectingCommand::UseElement => SelectingModel::UseElement,
            ElementSelectingCommand::UseParent => SelectingModel::UseParent,
            ElementSelectingCommand::QueryElement(l) => SelectingModel::QueryElement(l@),
            ElementSelectingCommand::QueryParent(l) => SelectingModel::QueryParent(l@),
            ElementSelectingCommand::QueryRoot(l) => SelectingModel::QueryRoot(l@),
        }
    }
}

/// Extracts string values from the selected elements.
#[derive(Debug, Clone, PartialEq)]
pub enum ValueExtractingCommand<'a> {
    /// returns the content of a named attribute
    GetAttribute(&'a str),
    /// return the text content of that element
    GetTextContent,
}

/// Model of a value extracting command.
pub enum ExtractingModel {
    GetAttribute(Seq<char>),
    GetTextContent,
}

impl<'a> View for ValueExtractingCommand<'a> {
    type V = ExtractingModel;

    open spec fn view(&self) -> ExtractingModel {
        match self {
            ValueExtractingCommand::GetAttribute(a) => ExtractingModel::GetAttribute(a@),
            ValueExtractingCommand::GetTextContent => ExtractingModel::GetTextContent,
        }
    }
}

/// Transforms extracted string values.
#[derive(Debug, Clone, PartialEq)]
pub enum ValueProcessingCommand<'a> {
    /// replaces all matches of a regular expression
    RegexReplace(&'a str, &'a str),
    /// returns an all-lower-case version of the input
    ToLower,
    /// returns an all-upper-case version of the input
    ToUpper,
    /// puts the given text in front of the input
    AddPrefix(&'a str),
}

/// Model of a value processing command.
pub enum ValueProcessingModel {
    RegexReplace(Seq<char>, Seq<char>),
    ToLower,
    ToUpper,
    AddPrefix(Seq<char>),
}

impl<'a> View for ValueProcessingCommand<'a> {
    type V = ValueProcessingModel;

    open spec fn view(&self) -> ValueProcessingModel {
        match self {
            ValueProcessingCommand::RegexReplace(r, p) => ValueProcessingModel::RegexReplace(r@, p@),
            ValueProcessingCommand::ToLower => ValueProcessingModel::ToLower,
            ValueProcessingCommand::ToUpper => ValueProcessingModel::ToUpper,
            ValueProcessingCommand::AddPrefix(a) => ValueProcessingModel::AddPrefix(a@),
        }
    }
}

/// A pipeline that selects elements, extracts values and processes them.
#[derive(Debug, Clone, PartialEq)]
pub struct StringValueCreatingPipeline<'a> {
    pub element_selector: ElementSelectingCommand<'a>,
    pub value_extractor: ValueExtractingCommand<'a>,
    pub value_processing: Vec<ValueProcessingCommand<'a>>,
}

/// Model of a string value creating pipeline.
pub struct StringPipelineModel {
    pub selector: SelectingModel,
    pub extractor: ExtractingModel,
    pub processing: Seq<ValueProcessingModel>,
}

impl<'a> View for StringValueCreatingPipeline<'a> {
    type V = StringPipelineModel;

    open spec fn view(&self) -> StringPipelineModel {
        StringPipelineModel {
            selector: self.element_selector@,
            extractor: self.value_extractor@,
            processing: self.value_processing@.map_values(|c: ValueProcessingCommand| c@),
        }
    }
}

impl<'a> StringValueCreatingPipeline<'a> {
    /// A pipeline without value processing.
    pub fn new(
        element_selector: ElementSelectingCommand<'a>,
        value_extractor: ValueExtractingCommand<'a>,
    ) -> (r: Self)
        ensures
            r.element_selector == element_selector,
            r.value_extractor == value_extractor,
            r.value_processing@.len() == 0,
    {
        StringValueCreatingPipeline { element_selector, value_extractor, value_processing: vec![] }
    }

    /// A pipeline with the given value processing commands.
    pub fn with_value_processing(
        element_selector: ElementSelectingCommand<'a>,
        value_extractor: ValueExtractingCommand<'a>,
        value_processing: Vec<ValueProcessingCommand<'a>>,
    ) -> (r: Self)
        ensures
            r.element_selector == element_selector,
            r.value_extractor == value_extractor,
            r.value_processing == value_processing,
    {
        StringValueCreatingPipeline { element_selector, value_extractor, value_processing }
    }
}

} // verus!
