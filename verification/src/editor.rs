//! The editor: a pipeline definition run on an HTML text.
use vstd::prelude::*;
use crate::execution::{LoadedFile, PipelineError, files_model};
use crate::html::import::{load_model, parse_html};
use crate::html::query::all_valid;
use crate::html::render::{concat_all, outer_html};
use crate::html::tree::{HtmlTree, NodeModel, fragment, wf};
use crate::parsing::grammar;
use crate::parsing::rules;
use crate::semantics::{FilesModel, PipelineErrorModel, commands_run};

verus! {

/// Why a run of the editor failed.
#[derive(Debug)]
pub enum StreamingEditorError {
    /// The input could not be read; the reason.
    ReadingInputFailed(String),
    /// The output could not be written; the reason.
    WritingOutputFailed(String),
    /// The input could not be parsed as HTML.
    ParsingInputFailed,
    /// The parsed input holds no element that could be loaded.
    LoadingParsedHtmlFailed,
    /// The pipeline definition does not follow the grammar; where reading stopped.
    ParsingPipelineFailed(grammar::SyntaxError),
    /// A command of the pipeline failed.
    RunningPipelineFailed(PipelineError),
}

/// Model of an editor error.
pub enum EditorErrorModel {
    ReadingInputFailed(Seq<char>),
    WritingOutputFailed(Seq<char>),
    ParsingInputFailed,
    LoadingParsedHtmlFailed,
    ParsingPipelineFailed(int),
    RunningPipelineFailed(PipelineErrorModel),
}

impl View for StreamingEditorError {
    type V = EditorErrorModel;

    open spec fn view(&self) -> EditorErrorModel {
        match self {
            StreamingEditorError::ReadingInputFailed(s) => EditorErrorModel::ReadingInputFailed(s@),
            StreamingEditorError::WritingOutputFailed(s) => EditorErrorModel::WritingOutputFailed(s@),
            StreamingEditorError::ParsingInputFailed => EditorErrorModel::ParsingInputFailed,
            StreamingEditorError::LoadingParsedHtmlFailed => EditorErrorModel::LoadingParsedHtmlFailed,
            StreamingEditorError::ParsingPipelineFailed(e) => EditorErrorModel::ParsingPipelineFailed(
                e.position as int,
            ),
            StreamingEditorError::RunningPipelineFailed(e) => EditorErrorModel::RunningPipelineFailed(e@),
        }
    }
}

/// The markup of the nodes, one after the other.
pub open spec fn rendered_nodes(t: Seq<NodeModel>, nodes: Seq<usize>) -> Seq<char>
    decreases nodes.len(),
{
    if nodes.len() == 0 {
        Seq::empty()
    } else {
        rendered_nodes(t, nodes.drop_last()) + outer_html(fragment(t, nodes.last() as int))
    }
}

/// What the editor makes of an input text with a pipeline definition: the pipeline is
/// parsed, then the input, and the pipeline runs on the loaded document; the output is
/// the markup of the nodes of its result, one after the other.
pub open spec fn edited(input: Seq<char>, definition: Seq<char>, files: FilesModel) -> Result<
    Seq<char>,
    EditorErrorModel,
> {
    let (cmds, q) = rules::pipeline(definition, 0);
    if q != definition.len() {
        Err(EditorErrorModel::ParsingPipelineFailed(q))
    } else if vstd::utf8::encode_utf8(input).len() > u32::MAX {
        Err(EditorErrorModel::ParsingInputFailed)
    } else {
        let (t1, root) = load_model(Seq::empty(), input);
        match root {
            None => Err(EditorErrorModel::LoadingParsedHtmlFailed),
            Some(r) => {
                let (t2, out) = commands_run(t1, cmds, seq![r], files, 0);
                match out {
                    Err(e) => Err(EditorErrorModel::RunningPipelineFailed(e)),
                    Ok(nodes) => Ok(rendered_nodes(t2, nodes)),
                }
            },
        }
    }
}

/// The editor, holding the input text.
pub struct HtmlStreamingEditor {
    pub input: String,
}

impl HtmlStreamingEditor {
    /// An editor of the given input text.
    pub fn new(input: String) -> (r: Self)
        ensures
            r.input@ == input@,
    {
        HtmlStreamingEditor { input }
    }

    /// Runs the pipeline definition on the input; returns the output text. `files` holds
    /// the files the pipeline may load.
    pub fn run(&self, pipeline_definition: &str, files: &Vec<LoadedFile>) -> (r: Result<
        String,
        StreamingEditorError,
    >)
        ensures
            match r {
                Ok(s) => edited(self.input@, pipeline_definition@, files_model(files@)) == Ok::<
                    Seq<char>,
                    EditorErrorModel,
                >(s@),
                Err(e) => edited(self.input@, pipeline_definition@, files_model(files@)) == Err::<
                    Seq<char>,
                    EditorErrorModel,
                >(e@),
            },
    {
        let pipeline = match grammar::pipeline(pipeline_definition) {
            Ok(p) => p,
            Err(e) => {
                return Err(StreamingEditorError::ParsingPipelineFailed(e));
            },
        };
        let parsed = match parse_html(self.input.as_str()) {
            Ok(p) => p,
            Err(_) => {
                return Err(StreamingEditorError::ParsingInputFailed);
            },
        };
        let mut tree = HtmlTree::new();
        let root = match tree.load(&parsed) {
            Some(r) => r,
            None => {
                return Err(StreamingEditorError::LoadingParsedHtmlFailed);
            },
        };
        let start = vec![root];
        assert(start@ =~= seq![root]);
        let result = match pipeline.run_on(&mut tree, start, files) {
            Ok(v) => v,
            Err(e) => {
                return Err(StreamingEditorError::RunningPipelineFailed(e));
            },
        };
        let mut output = String::new();
        for i in 0..result.len()
            invariant
                wf(tree@),
                all_valid(tree@, result@),
                output@ == rendered_nodes(tree@, result@.take(i as int)),
        {
            assert(result@.take(i + 1).drop_last() =~= result@.take(i as int));
            let part = tree.outer_html(result[i]);
            output.append(part.as_str());
        }
        assert(result@.take(result@.len() as int) =~= result@);
        Ok(output)
    }
}

} // verus!
