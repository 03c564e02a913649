//! What running commands and pipelines does to the arena, and what they return.
use vstd::prelude::*;
use crate::ValueSourceModel;
use crate::css::StepModel;
use crate::element_creating::{CreatingModel, CreationModel};
use crate::element_processing::ProcessingModel;
use crate::html::attributes::lookup;
use crate::html::import::{load_model, imported_document};
use crate::html::query::query_outcome;
use crate::html::render::{concat_all, text_content};
use crate::html::tree::{
    ContentModel, NodeModel, append_model, clear_attr_model, copy_model, detach_model, fragment,
    insert_before_model, prepend_model, set_attr_model,
};
use crate::string_creating::{ExtractingModel, SelectingModel, StringPipelineModel, ValueProcessingModel};
use crate::values::{
    dashes_escaped, escaped, lowercase, newlines_escaped, regex_accepts, regex_replaced, uppercase,
};

verus! {

/// Model of an error of a command.
pub enum CommandErrorModel {
    SubpipelineFailed(Box<PipelineErrorModel>),
    ReadingCommandInputFailed(Seq<char>),
    ParsingCommandInputFailed,
    LoadingParsedCommandHtmlFailed,
    ParsingRegexFailed,
    UnsupportedSelector,
}

/// Model of an error of a pipeline: the command at `index` failed.
pub enum PipelineErrorModel {
    CommandFailed { index: int, source: CommandErrorModel },
}

/// A command's index as an error reports it: the position, or the largest index where
/// the position would not fit.
pub open spec fn reported_index(k: int) -> int {
    if k <= usize::MAX {
        k
    } else {
        usize::MAX as int
    }
}

/// The files a pipeline may load: for each path, its text or why it could not be read.
pub type FilesModel = Seq<(Seq<char>, Result<Seq<char>, Seq<char>>)>;

/// What is known of the file at `path`: the first entry for it.
pub open spec fn file_lookup(files: FilesModel, path: Seq<char>) -> Option<Result<Seq<char>, Seq<char>>>
    decreases files.len(),
{
    if files.len() == 0 {
        None
    } else if files[0].0 == path {
        Some(files[0].1)
    } else {
        file_lookup(files.drop_first(), path)
    }
}

/// The topmost ancestor of node `n`.
pub open spec fn root_of(t: Seq<NodeModel>, n: int) -> int
    decreases n,
{
    match t[n].parent {
        Some(p) => if 0 <= p < n {
            root_of(t, p as int)
        } else {
            n
        },
        None => n,
    }
}

/// The nodes an element selecting command picks from node `n`; `None` where its selector
/// cannot be decided.
pub open spec fn selected(t: Seq<NodeModel>, s: SelectingModel, n: int) -> Option<Seq<usize>> {
    match s {
        SelectingModel::UseElement => Some(seq![n as usize]),
        SelectingModel::UseParent => match t[n].parent {
            Some(p) => Some(seq![p]),
            None => Some(Seq::empty()),
        },
        SelectingModel::QueryElement(l) => query_outcome(t, l, seq![n as usize]),
        SelectingModel::QueryParent(l) => match t[n].parent {
            Some(p) => query_outcome(t, l, seq![p]),
            None => Some(Seq::empty()),
        },
        SelectingModel::QueryRoot(l) => query_outcome(t, l, seq![root_of(t, n) as usize]),
    }
}

/// The value of attribute `a` of an element.
pub open spec fn attribute_of(c: ContentModel, a: Seq<char>) -> Option<Seq<char>> {
    match c {
        ContentModel::Tag(_, attrs) => lookup(attrs, a),
        _ => None,
    }
}

/// The values extracted from the nodes, in order: the attribute where the node has it, or
/// the text where it is not empty.
pub open spec fn extracted(t: Seq<NodeModel>, e: ExtractingModel, nodes: Seq<usize>) -> Seq<Seq<char>>
    decreases nodes.len(),
{
    if nodes.len() == 0 {
        Seq::empty()
    } else {
        let rest = extracted(t, e, nodes.drop_last());
        let n = nodes.last() as int;
        match e {
            ExtractingModel::GetAttribute(a) => match attribute_of(t[n].content, a) {
                Some(v) => rest.push(v),
                None => rest,
            },
            ExtractingModel::GetTextContent => {
                let s = text_content(fragment(t, n));
                if s.len() == 0 {
                    rest
                } else {
                    rest.push(s)
                }
            },
        }
    }
}

/// The values after one value processing command.
pub open spec fn value_command_run(c: ValueProcessingModel, v: Seq<Seq<char>>) -> Result<
    Seq<Seq<char>>,
    CommandErrorModel,
> {
    match c {
        ValueProcessingModel::RegexReplace(re, rep) => if regex_accepts(re) {
            Ok(v.map_values(|x: Seq<char>| regex_replaced(re, x, rep)))
        } else {
            Err(CommandErrorModel::ParsingRegexFailed)
        },
        ValueProcessingModel::ToLower => Ok(v.map_values(|x: Seq<char>| lowercase(x))),
        ValueProcessingModel::ToUpper => Ok(v.map_values(|x: Seq<char>| uppercase(x))),
        ValueProcessingModel::AddPrefix(a) => Ok(v.map_values(|x: Seq<char>| a + x)),
    }
}

/// The values after the value processing commands; the `k`th of them has index `k + 2`
/// in its pipeline.
pub open spec fn processed(cmds: Seq<ValueProcessingModel>, values: Seq<Seq<char>>) -> Result<
    Seq<Seq<char>>,
    PipelineErrorModel,
>
    decreases cmds.len(),
{
    if cmds.len() == 0 {
        Ok(values)
    } else {
        match processed(cmds.drop_last(), values) {
            Err(e) => Err(e),
            Ok(v) => match value_command_run(cmds.last(), v) {
                Err(e) => Err(PipelineErrorModel::CommandFailed { index: reported_index(cmds.len() + 1int), source: e }),
                Ok(w) => Ok(w),
            },
        }
    }
}

/// The values a string value creating pipeline computes on node `n`.
pub open spec fn string_values(t: Seq<NodeModel>, p: StringPipelineModel, n: int) -> Result<
    Seq<Seq<char>>,
    PipelineErrorModel,
> {
    match selected(t, p.selector, n) {
        None => Err(
            PipelineErrorModel::CommandFailed {
                index: 0,
                source: CommandErrorModel::UnsupportedSelector,
            },
        ),
        Some(nodes) => processed(p.processing, extracted(t, p.extractor, nodes)),
    }
}

/// The values of a value source on node `n`.
pub open spec fn source_values(t: Seq<NodeModel>, v: ValueSourceModel, n: int) -> Result<
    Seq<Seq<char>>,
    PipelineErrorModel,
> {
    match v {
        ValueSourceModel::StringValue(s) => Ok(seq![s]),
        ValueSourceModel::SubPipeline(p) => string_values(t, p, n),
    }
}

/// The values of a value source on node `n`, joined, as a command takes them.
pub open spec fn joined_value(t: Seq<NodeModel>, v: ValueSourceModel, n: int) -> Result<
    Seq<char>,
    CommandErrorModel,
> {
    match source_values(t, v, n) {
        Ok(vs) => Ok(concat_all(vs)),
        Err(e) => Err(CommandErrorModel::SubpipelineFailed(Box::new(e))),
    }
}

/// The arena after the nodes `s` are detached, one after the other.
pub open spec fn detach_all(t: Seq<NodeModel>, s: Seq<usize>) -> Seq<NodeModel>
    decreases s.len(),
{
    if s.len() == 0 {
        t
    } else {
        detach_model(detach_all(t, s.drop_last()), s.last() as int)
    }
}

/// The arena after the subtrees below the nodes `s` are copied one after the other, and
/// the roots of the copies.
pub open spec fn copy_all(t: Seq<NodeModel>, s: Seq<usize>) -> (Seq<NodeModel>, Seq<usize>)
    decreases s.len(),
{
    if s.len() == 0 {
        (t, Seq::empty())
    } else {
        let (t1, r) = copy_all(t, s.drop_last());
        (copy_model(t1, s.last() as int, t1.len() as int), r.push(t1.len() as usize))
    }
}

/// The arena after the attribute `a` is removed from the first `k` nodes of `s`.
pub open spec fn clear_attr_all(t: Seq<NodeModel>, s: Seq<usize>, a: Seq<char>, k: int) -> Seq<NodeModel>
    decreases k,
{
    if k <= 0 {
        t
    } else {
        clear_attr_model(clear_attr_all(t, s, a, k - 1), s[k - 1] as int, a)
    }
}

/// The arena after the children of the first `k` nodes of `s` are detached.
pub open spec fn clear_content_all(t: Seq<NodeModel>, s: Seq<usize>, k: int) -> Seq<NodeModel>
    decreases k,
{
    if k <= 0 {
        t
    } else {
        let t1 = clear_content_all(t, s, k - 1);
        detach_all(t1, t1[s[k - 1] as int].children)
    }
}

/// The arena after node `n` gets the new last child `c`, a node without children.
pub open spec fn add_child(t: Seq<NodeModel>, n: int, c: ContentModel) -> Seq<NodeModel> {
    append_model(
        t.push(NodeModel { content: c, parent: None, children: Seq::empty() }),
        n,
        t.len() as int,
    )
}

/// The arena after a new node with content `c` is added as first child of node `n`.
pub open spec fn prepend_child(t: Seq<NodeModel>, n: int, c: ContentModel) -> Seq<NodeModel> {
    prepend_model(
        t.push(NodeModel { content: c, parent: None, children: Seq::empty() }),
        n,
        t.len() as int,
    )
}

/// What a command that writes a value does to one node.
pub enum ValueTarget {
    SetAttribute(Seq<char>),
    SetTextContent,
    AddTextContent,
    AddComment,
    PrependTextContent,
    PrependComment,
}

/// The arena after a value command writes into node `n`, or the error of its value. The
/// value is computed first; setting the text content then drops the old children.
pub open spec fn write_value(t: Seq<NodeModel>, w: ValueTarget, v: ValueSourceModel, n: int) -> (
    Seq<NodeModel>,
    Result<(), CommandErrorModel>,
) {
    match joined_value(t, v, n) {
        Err(e) => (t, Err(e)),
        Ok(s) => (
            match w {
                ValueTarget::SetAttribute(a) => set_attr_model(t, n, a, newlines_escaped(escaped(s, true))),
                ValueTarget::SetTextContent => add_child(
                    detach_all(t, t[n].children),
                    n,
                    ContentModel::Text(escaped(s, false)),
                ),
                ValueTarget::AddTextContent => add_child(t, n, ContentModel::Text(escaped(s, false))),
                ValueTarget::AddComment => add_child(t, n, ContentModel::Comment(dashes_escaped(s))),
                ValueTarget::PrependTextContent => prepend_child(t, n, ContentModel::Text(escaped(s, false))),
                ValueTarget::PrependComment => prepend_child(t, n, ContentModel::Comment(dashes_escaped(s))),
            },
            Ok(()),
        ),
    }
}

/// The arena after a value command writes into the first `k` nodes of `s`, up to the first
/// error.
pub open spec fn write_all(
    t: Seq<NodeModel>,
    w: ValueTarget,
    v: ValueSourceModel,
    s: Seq<usize>,
    k: int,
) -> (Seq<NodeModel>, Result<(), CommandErrorModel>)
    decreases k,
{
    if k <= 0 {
        (t, Ok(()))
    } else {
        let (t1, r) = write_all(t, w, v, s, k - 1);
        match r {
            Err(e) => (t1, Err(e)),
            Ok(()) => write_value(t1, w, v, s[k - 1] as int),
        }
    }
}

/// The arena after an HTML text is parsed and its document loaded, and the root of the
/// document.
pub open spec fn html_loaded(t: Seq<NodeModel>, text: Seq<char>) -> (Seq<NodeModel>, Result<usize, CommandErrorModel>) {
    if vstd::utf8::encode_utf8(text).len() > u32::MAX {
        (t, Err(CommandErrorModel::ParsingCommandInputFailed))
    } else {
        let (t1, r) = load_model(t, text);
        match r {
            None => (t1, Err(CommandErrorModel::LoadingParsedCommandHtmlFailed)),
            Some(root) => (t1, Ok(root)),
        }
    }
}

/// The paths of the files an element creating command loads.
pub open spec fn creation_paths(c: CreationModel) -> Seq<Seq<char>> {
    match c {
        CreationModel::FromFile(path) => seq![path],
        _ => Seq::empty(),
    }
}

/// The paths of the files a processing command may load, in order.
pub open spec fn command_paths(c: ProcessingModel) -> Seq<Seq<char>>
    decreases c, 1int,
{
    match c {
        ProcessingModel::ForEach(_, sub) => commands_paths(sub),
        ProcessingModel::Replace(_, p) => creating_paths(p),
        ProcessingModel::AddElement(p) => creating_paths(p),
        ProcessingModel::PrependElement(p) => creating_paths(p),
        _ => Seq::empty(),
    }
}

/// The paths of the files the commands may load, in order.
pub open spec fn commands_paths(cs: Seq<ProcessingModel>) -> Seq<Seq<char>>
    decreases cs, 0int,
{
    if cs.len() == 0 {
        Seq::empty()
    } else {
        commands_paths(cs.drop_last()) + command_paths(cs.last())
    }
}

/// The paths of the files an element creating pipeline may load, in order.
pub open spec fn creating_paths(p: CreatingModel) -> Seq<Seq<char>>
    decreases p, 0int,
{
    creation_paths(p.creation) + commands_paths(p.processing)
}

/// The arena after an element creating command, and the nodes it creates.
pub open spec fn created(t: Seq<NodeModel>, c: CreationModel, input: Seq<usize>, files: FilesModel) -> (
    Seq<NodeModel>,
    Result<Seq<usize>, CommandErrorModel>,
) {
    match c {
        CreationModel::CreateElement(name) => (
            t.push(
                NodeModel {
                    content: ContentModel::Tag(name, Seq::empty()),
                    parent: None,
                    children: Seq::empty(),
                },
            ),
            Ok(seq![t.len() as usize]),
        ),
        CreationModel::FromFile(path) => match file_lookup(files, path) {
            None => (t, Err(CommandErrorModel::ReadingCommandInputFailed(path))),
            Some(Err(why)) => (t, Err(CommandErrorModel::ReadingCommandInputFailed(why))),
            Some(Ok(text)) => {
                let (t1, r) = html_loaded(t, text);
                match r {
                    Err(e) => (t1, Err(e)),
                    Ok(root) => (t1, Ok(seq![root])),
                }
            },
        },
        CreationModel::FromReplaced(l) => match query_outcome(t, l, input) {
            None => (t, Err(CommandErrorModel::UnsupportedSelector)),
            Some(found) => {
                let (t1, r) = copy_all(t, found);
                (t1, Ok(r))
            },
        },
    }
}

/// The arena after the processing command `c` runs on the nodes `input`, and its result.
pub open spec fn command_run(
    t: Seq<NodeModel>,
    c: ProcessingModel,
    input: Seq<usize>,
    files: FilesModel,
) -> (Seq<NodeModel>, Result<Seq<usize>, CommandErrorModel>)
    decreases c, 0int,
{
    match c {
        ProcessingModel::ExtractElement(l) => match query_outcome(t, l, input) {
            None => (t, Err(CommandErrorModel::UnsupportedSelector)),
            Some(found) => {
                let (t1, r) = copy_all(t, found);
                (t1, Ok(r))
            },
        },
        ProcessingModel::RemoveElement(l) => match query_outcome(t, l, input) {
            None => (t, Err(CommandErrorModel::UnsupportedSelector)),
            Some(found) => (detach_all(t, found), Ok(input)),
        },
        ProcessingModel::ForEach(l, sub) => match query_outcome(t, l, input) {
            None => (t, Err(CommandErrorModel::UnsupportedSelector)),
            Some(found) => (commands_run(t, sub, found, files, 0).0, Ok(input)),
        },
        ProcessingModel::Replace(l, p) => match query_outcome(t, l, input) {
            None => (t, Err(CommandErrorModel::UnsupportedSelector)),
            Some(found) => {
                let (t1, r) = replace_run(t, p, found, files, found.len() as int);
                match r {
                    Err(e) => (t1, Err(e)),
                    Ok(()) => (t1, Ok(input)),
                }
            },
        },
        ProcessingModel::ClearAttribute(a) => (clear_attr_all(t, input, a, input.len() as int), Ok(input)),
        ProcessingModel::ClearContent => (clear_content_all(t, input, input.len() as int), Ok(input)),
        ProcessingModel::SetAttribute(a, v) => {
            let (t1, r) = write_all(t, ValueTarget::SetAttribute(a), v, input, input.len() as int);
            (t1, match r { Err(e) => Err(e), Ok(()) => Ok(input) })
        },
        ProcessingModel::SetTextContent(v) => {
            let (t1, r) = write_all(t, ValueTarget::SetTextContent, v, input, input.len() as int);
            (t1, match r { Err(e) => Err(e), Ok(()) => Ok(input) })
        },
        ProcessingModel::AddTextContent(v) => {
            let (t1, r) = write_all(t, ValueTarget::AddTextContent, v, input, input.len() as int);
            (t1, match r { Err(e) => Err(e), Ok(()) => Ok(input) })
        },
        ProcessingModel::AddComment(v) => {
            let (t1, r) = write_all(t, ValueTarget::AddComment, v, input, input.len() as int);
            (t1, match r { Err(e) => Err(e), Ok(()) => Ok(input) })
        },
        ProcessingModel::AddElement(p) => {
            let (t1, r) = add_element_run(t, p, input, files, input.len() as int, false);
            (t1, match r { Err(e) => Err(e), Ok(()) => Ok(input) })
        },
        ProcessingModel::PrependTextContent(v) => {
            let (t1, r) = write_all(t, ValueTarget::PrependTextContent, v, input, input.len() as int);
            (t1, match r { Err(e) => Err(e), Ok(()) => Ok(input) })
        },
        ProcessingModel::PrependComment(v) => {
            let (t1, r) = write_all(t, ValueTarget::PrependComment, v, input, input.len() as int);
            (t1, match r { Err(e) => Err(e), Ok(()) => Ok(input) })
        },
        ProcessingModel::PrependElement(p) => {
            let (t1, r) = add_element_run(t, p, input, files, input.len() as int, true);
            (t1, match r { Err(e) => Err(e), Ok(()) => Ok(input) })
        },
    }
}

/// The arena after the commands run one after the other, each on the result of the one
/// before, and the result of the last; the `k`th command has index `offset + k`.
pub open spec fn commands_run(
    t: Seq<NodeModel>,
    cs: Seq<ProcessingModel>,
    input: Seq<usize>,
    files: FilesModel,
    offset: int,
) -> (Seq<NodeModel>, Result<Seq<usize>, PipelineErrorModel>)
    decreases cs, 0int,
{
    if cs.len() == 0 {
        (t, Ok(input))
    } else {
        let (t1, r) = commands_run(t, cs.drop_last(), input, files, offset);
        match r {
            Err(e) => (t1, Err(e)),
            Ok(v) => {
                let (t2, r2) = command_run(t1, cs.last(), v, files);
                match r2 {
                    Err(e) => (
                        t2,
                        Err(PipelineErrorModel::CommandFailed { index: reported_index(offset + cs.len() - 1), source: e }),
                    ),
                    Ok(w) => (t2, Ok(w)),
                }
            },
        }
    }
}

/// The arena after an element creating pipeline runs on the nodes `input`, and the
/// elements it creates.
pub open spec fn creating_run(
    t: Seq<NodeModel>,
    p: CreatingModel,
    input: Seq<usize>,
    files: FilesModel,
) -> (Seq<NodeModel>, Result<Seq<usize>, PipelineErrorModel>)
    decreases p, 0int,
{
    let (t1, r) = created(t, p.creation, input, files);
    match r {
        Err(e) => (t1, Err(PipelineErrorModel::CommandFailed { index: 0, source: e })),
        Ok(v) => commands_run(t1, p.processing, v, files, 1),
    }
}

/// The arena after the copies of `copies` are inserted, one after the other, before node `e`.
pub open spec fn insert_copies(t: Seq<NodeModel>, e: int, copies: Seq<usize>) -> Seq<NodeModel>
    decreases copies.len(),
{
    if copies.len() == 0 {
        t
    } else {
        let t1 = insert_copies(t, e, copies.drop_last());
        let t2 = copy_model(t1, copies.last() as int, t1.len() as int);
        insert_before_model(t2, e, t1.len() as int)
    }
}

/// The roots of the copies `insert_copies` makes, in order.
pub open spec fn copy_roots(t: Seq<NodeModel>, e: int, copies: Seq<usize>) -> Seq<usize>
    decreases copies.len(),
{
    if copies.len() == 0 {
        Seq::empty()
    } else {
        copy_roots(t, e, copies.drop_last()).push(insert_copies(t, e, copies.drop_last()).len() as usize)
    }
}

/// The arena after the first `k` found nodes are each replaced by copies of what the
/// creating pipeline makes of them, up to the first error.
pub open spec fn replace_run(
    t: Seq<NodeModel>,
    p: CreatingModel,
    found: Seq<usize>,
    files: FilesModel,
    k: int,
) -> (Seq<NodeModel>, Result<(), CommandErrorModel>)
    decreases p, k + 1,
{
    if k <= 0 {
        (t, Ok(()))
    } else {
        let (t1, r) = replace_run(t, p, found, files, k - 1);
        match r {
            Err(e) => (t1, Err(e)),
            Ok(()) => {
                let e = found[k - 1] as int;
                let (t2, made) = creating_run(t1, p, seq![e as usize], files);
                match made {
                    Err(pe) => (t2, Err(CommandErrorModel::SubpipelineFailed(Box::new(pe)))),
                    Ok(news) => (detach_model(insert_copies(t2, e, news), e), Ok(())),
                }
            },
        }
    }
}

/// The arena after the first `k` nodes of `input` each get, as last child (as first child
/// where `first`), the last element the creating pipeline makes from nothing, up to the
/// first error.
pub open spec fn add_element_run(
    t: Seq<NodeModel>,
    p: CreatingModel,
    input: Seq<usize>,
    files: FilesModel,
    k: int,
    first: bool,
) -> (Seq<NodeModel>, Result<(), CommandErrorModel>)
    decreases p, k + 1,
{
    if k <= 0 {
        (t, Ok(()))
    } else {
        let (t1, r) = add_element_run(t, p, input, files, k - 1, first);
        match r {
            Err(e) => (t1, Err(e)),
            Ok(()) => {
                let (t2, made) = creating_run(t1, p, Seq::empty(), files);
                match made {
                    Err(pe) => (t2, Err(CommandErrorModel::SubpipelineFailed(Box::new(pe)))),
                    Ok(news) => if news.len() > 0 {
                        if first {
                            (prepend_model(t2, input[k - 1] as int, news.last() as int), Ok(()))
                        } else {
                            (append_model(t2, input[k - 1] as int, news.last() as int), Ok(()))
                        }
                    } else {
                        (t2, Ok(()))
                    },
                }
            },
        }
    }
}

} // verus!
