use vstd::prelude::*;

pub mod text;
pub mod values;
pub mod css;
pub mod string_creating;
pub mod element_creating;
pub mod element_processing;
pub mod parsing;
pub mod html;
pub mod semantics;
pub mod execution;
pub mod editor;
pub mod laws;

pub use crate::editor::{HtmlStreamingEditor, StreamingEditorError};
pub use crate::execution::{CommandError, LoadedFile, PipelineError};

use crate::string_creating::{StringValueCreatingPipeline, StringPipelineModel};

verus! {

/// Is the value directly defined or is it a sub-pipeline?
#[derive(Debug, Clone, PartialEq)]
pub enum ValueSource<'a> {
    StringValue(&'a str),
    SubPipeline(StringValueCreatingPipeline<'a>),
}

/// Model of a value source.
pub enum ValueSourceModel {
    StringValue(Seq<char>),
    SubPipeline(StringPipelineModel),
}

impl<'a> View for ValueSource<'a> {
    type V = ValueSourceModel;

    open spec fn view(&self) -> ValueSourceModel {
        match self {
            ValueSource::StringValue(s) => ValueSourceModel::StringValue(s@),
            ValueSource::SubPipeline(p) => ValueSourceModel::SubPipeline(p@),
        }
    }
}

} // verus!
