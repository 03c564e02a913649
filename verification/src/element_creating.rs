//! Sub-pipelines that create new elements.
use vstd::prelude::*;
use crate::css::{CssSelectorList, StepModel};
use crate::element_processing::{ElementProcessingCommand, ProcessingModel, commands_model};

verus! {

/// The first command of an element creating pipeline.
#[derive(Debug, Clone, PartialEq)]
pub enum ElementCreatingCommand<'a> {
    /// creates an HTML element of given type
    CreateElement(&'a str),
    /// reads a different file into memory
    FromFile(&'a str),
    /// Starting at the element being replaced run a sub-query
    FromReplaced(CssSelectorList<'a>),
}

/// Model of an element creating command.
pub enum CreationModel {
    CreateElement(Seq<char>),
    FromFile(Seq<char>),
    FromReplaced(Seq<Seq<StepModel>>),
}

impl<'a> View for ElementCreatingCommand<'a> {
    type V = CreationModel;

    open spec fn view(&self) -> CreationModel {
        match self {
            ElementCreatingCommand::CreateElement(n) => CreationModel::CreateElement(n@),
            ElementCreatingCommand::FromFile(f) => CreationModel::FromFile(f@),
            ElementCreatingCommand::FromReplaced(l) => CreationModel::FromReplaced(l@),
        }
    }
}

/// A creating command followed by processing commands run on its result.
#[derive(Debug, PartialEq)]
pub struct ElementCreatingPipeline<'a>(
    pub ElementCreatingCommand<'a>,
    pub Vec<ElementProcessingCommand<'a>>,
);

/// Model of an element creating pipeline.
pub struct CreatingModel {
    pub creation: CreationModel,
    pub processing: Seq<ProcessingModel>,
}

impl<'a> View for ElementCreatingPipeline<'a> {
    type V = CreatingModel;

    open spec fn view(&self) -> CreatingModel {
        CreatingModel { creation: self.0@, processing: commands_model(self.1@) }
    }
}

impl<'a> ElementCreatingPipeline<'a> {
    /// The pipeline of `creation` followed by `processing`, if any.
    pub fn new(
        creation: ElementCreatingCommand<'a>,
        processing: Option<Vec<ElementProcessingCommand<'a>>>,
    ) -> (r: Self)
        ensures
            r.0 == creation,
            r.1@ == (match processing {
                Some(v) => v@,
                None => Seq::<ElementProcessingCommand<'a>>::empty(),
            }),
    {
        match processing {
            Some(v) => ElementCreatingPipeline(creation, v),
            None => ElementCreatingPipeline(creation, Vec::new()),
        }
    }
}

} // verus!
