//! The main pipeline: commands that process the selected elements.
use vstd::prelude::*;
use crate::css::{CssSelectorList, StepModel};
use crate::element_creating::{ElementCreatingPipeline, CreatingModel};
use crate::ValueSource;
use crate::ValueSourceModel;

verus! {

/// A command of the main (element processing) pipeline.
#[derive(Debug, PartialEq)]
pub enum ElementProcessingCommand<'a> {
    /// Find all nodes matching the selector and return detached copies of them
    ExtractElement(CssSelectorList<'a>),
    /// Find all nodes matching the selector and remove them from their parents.
    /// Returns the input as result.
    RemoveElement(CssSelectorList<'a>),
    /// runs a sub-pipeline on each element matching the given CSS selector.
    /// Returns the input as result.
    ForEach(CssSelectorList<'a>, ElementProcessingPipeline<'a>),
    /// replaces each element matching the selector with the result of the pipeline.
    /// Returns the input as result.
    Replace(CssSelectorList<'a>, ElementCreatingPipeline<'a>),
    /// Remove the given attribute from all currently selected nodes.
    ClearAttribute(&'a str),
    /// Remove all children of the currently selected nodes.
    ClearContent,
    /// Add or reset a given attribute with a new value.
    SetAttribute(&'a str, ValueSource<'a>),
    /// Replace all children of the currently selected nodes by one text child.
    SetTextContent(ValueSource<'a>),
    /// adds a new text as child
    AddTextContent(ValueSource<'a>),
    /// adds a new comment as child
    AddComment(ValueSource<'a>),
    /// runs a sub-pipeline and adds its last result as child
    AddElement(ElementCreatingPipeline<'a>),
    /// adds a new text as first child
    PrependTextContent(ValueSource<'a>),
    /// adds a new comment as first child
    PrependComment(ValueSource<'a>),
    /// runs a sub-pipeline and adds its last result as first child
    PrependElement(ElementCreatingPipeline<'a>),
}

/// Model of an element processing command.
pub enum ProcessingModel {
    ExtractElement(Seq<Seq<StepModel>>),
    RemoveElement(Seq<Seq<StepModel>>),
    ForEach(Seq<Seq<StepModel>>, Seq<ProcessingModel>),
    Replace(Seq<Seq<StepModel>>, CreatingModel),
    ClearAttribute(Seq<char>),
    ClearContent,
    SetAttribute(Seq<char>, ValueSourceModel),
    SetTextContent(ValueSourceModel),
    AddTextContent(ValueSourceModel),
    AddComment(ValueSourceModel),
    AddElement(CreatingModel),
    PrependTextContent(ValueSourceModel),
    PrependComment(ValueSourceModel),
    PrependElement(CreatingModel),
}

/// The model of a command.
pub open spec fn command_model(c: ElementProcessingCommand) -> ProcessingModel
    decreases c,
{
    match c {
        ElementProcessingCommand::ExtractElement(l) => ProcessingModel::ExtractElement(l@),
        ElementProcessingCommand::RemoveElement(l) => ProcessingModel::RemoveElement(l@),
        ElementProcessingCommand::ForEach(l, p) => ProcessingModel::ForEach(l@, commands_model(p.0@)),
        ElementProcessingCommand::Replace(l, p) => ProcessingModel::Replace(
            l@,
            CreatingModel { creation: p.0@, processing: commands_model(p.1@) },
        ),
        ElementProcessingCommand::ClearAttribute(a) => ProcessingModel::ClearAttribute(a@),
        ElementProcessingCommand::ClearContent => ProcessingModel::ClearContent,
        ElementProcessingCommand::SetAttribute(a, v) => ProcessingModel::SetAttribute(a@, v@),
        ElementProcessingCommand::SetTextContent(v) => ProcessingModel::SetTextContent(v@),
        ElementProcessingCommand::AddTextContent(v) => ProcessingModel::AddTextContent(v@),
        ElementProcessingCommand::AddComment(v) => ProcessingModel::AddComment(v@),
        ElementProcessingCommand::AddElement(p) => ProcessingModel::AddElement(
            CreatingModel { creation: p.0@, processing: commands_model(p.1@) },
        ),
        ElementProcessingCommand::PrependTextContent(v) => ProcessingModel::PrependTextContent(v@),
        ElementProcessingCommand::PrependComment(v) => ProcessingModel::PrependComment(v@),
        ElementProcessingCommand::PrependElement(p) => ProcessingModel::PrependElement(
            CreatingModel { creation: p.0@, processing: commands_model(p.1@) },
        ),
    }
}

/// The models of a sequence of commands.
pub open spec fn commands_model(s: Seq<ElementProcessingCommand>) -> Seq<ProcessingModel>
    decreases s,
{
    if s.len() == 0 {
        Seq::empty()
    } else {
        seq![command_model(s[0])] + commands_model(s.subrange(1, s.len() as int))
    }
}

/// The models of a sequence of commands, element by element.
pub proof fn lemma_commands_model(s: Seq<ElementProcessingCommand>)
    ensures
        commands_model(s).len() == s.len(),
        forall|i: int| 0 <= i < s.len() ==> #[trigger] commands_model(s)[i] == command_model(s[i]),
    decreases s.len(),
{
    if s.len() > 0 {
        lemma_commands_model(s.subrange(1, s.len() as int));
        assert forall|i: int| 0 <= i < s.len() implies #[trigger] commands_model(s)[i] == command_model(
            s[i],
        ) by {
            if i > 0 {
                assert(s.subrange(1, s.len() as int)[i - 1] == s[i]);
            }
        }
    }
}

impl<'a> View for ElementProcessingCommand<'a> {
    type V = ProcessingModel;

    open spec fn view(&self) -> ProcessingModel {
        command_model(*self)
    }
}

/// Two commands, one after the other.
impl<'a> core::ops::Add<ElementProcessingCommand<'a>> for ElementProcessingCommand<'a> {
    type Output = Vec<ElementProcessingCommand<'a>>;

    fn add(self, rhs: ElementProcessingCommand<'a>) -> (r: Vec<ElementProcessingCommand<'a>>)
        ensures
            r@ == seq![self, rhs],
    {
        vec![self, rhs]
    }
}

impl<'a> vstd::std_specs::ops::AddSpecImpl<ElementProcessingCommand<'a>> for ElementProcessingCommand<'a> {
    open spec fn obeys_add_spec() -> bool {
        false
    }

    open spec fn add_req(self, rhs: ElementProcessingCommand<'a>) -> bool {
        true
    }

    open spec fn add_spec(self, rhs: ElementProcessingCommand<'a>) -> Vec<ElementProcessingCommand<'a>> {
        vstd::pervasive::arbitrary()
    }
}

/// A command in front of the commands that follow it, if any.
impl<'a> core::ops::Add<Option<Vec<ElementProcessingCommand<'a>>>> for ElementProcessingCommand<'a> {
    type Output = Vec<ElementProcessingCommand<'a>>;

    fn add(self, rhs: Option<Vec<ElementProcessingCommand<'a>>>) -> (r: Vec<ElementProcessingCommand<'a>>)
        ensures
            r@ == seq![self] + (match rhs {
                Some(v) => v@,
                None => Seq::empty(),
            }),
    {
        match rhs {
            Some(mut v) => {
                v.insert(0, self);
                assert(v@ =~= seq![self] + rhs->0@);
                v
            },
            None => {
                let v = vec![self];
                assert(v@ =~= seq![self] + Seq::<ElementProcessingCommand<'a>>::empty());
                v
            },
        }
    }
}

impl<'a> vstd::std_specs::ops::AddSpecImpl<Option<Vec<ElementProcessingCommand<'a>>>> for ElementProcessingCommand<'a> {
    open spec fn obeys_add_spec() -> bool {
        false
    }

    open spec fn add_req(self, rhs: Option<Vec<ElementProcessingCommand<'a>>>) -> bool {
        true
    }

    open spec fn add_spec(self, rhs: Option<Vec<ElementProcessingCommand<'a>>>) -> Vec<ElementProcessingCommand<'a>> {
        vstd::pervasive::arbitrary()
    }
}

/// The command pipeline: a list of commands, each executed on the result of the previous one.
#[derive(Debug, PartialEq)]
pub struct ElementProcessingPipeline<'a>(pub Vec<ElementProcessingCommand<'a>>);

impl<'a> View for ElementProcessingPipeline<'a> {
    type V = Seq<ProcessingModel>;

    open spec fn view(&self) -> Seq<ProcessingModel> {
        commands_model(self.0@)
    }
}

impl<'a> ElementProcessingPipeline<'a> {
    /// The pipeline of the given commands.
    pub fn new(content: Vec<ElementProcessingCommand<'a>>) -> (r: Self)
        ensures
            r.0 == content,
    {
        ElementProcessingPipeline(content)
    }
}

} // verus!
