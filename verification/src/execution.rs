//! Running commands and pipelines on the arena.
use vstd::prelude::*;
use crate::{ValueSource, ValueSourceModel};
use crate::html::attributes::lookup;
use crate::html::query::{all_valid, query_outcome};
use crate::html::render::concat_all;
use crate::html::tree::{ContentModel, HtmlContent, HtmlTree, NodeModel, fragment, lemma_fragment_frame, wf};
use crate::element_creating::{CreatingModel, ElementCreatingCommand, ElementCreatingPipeline};
use crate::element_processing::{
    ElementProcessingCommand, ElementProcessingPipeline, ProcessingModel, commands_model,
    lemma_commands_model,
};
use crate::html::import::parse_html;
use crate::html::tree::HtmlTag;
use crate::css::strs_view;
use crate::semantics::{
    html_loaded, creation_paths, command_paths, commands_paths, creating_paths,
    command_run, commands_run, created, creating_run, replace_run, add_element_run, insert_copies,
    file_lookup,
    ValueTarget, write_value, write_all, detach_all, copy_all, clear_attr_all, clear_content_all,
    CommandErrorModel, FilesModel, PipelineErrorModel, extracted, processed, root_of, selected,
    source_values, string_values, value_command_run, reported_index,
};
use crate::string_creating::{
    ElementSelectingCommand, ExtractingModel, StringValueCreatingPipeline, ValueExtractingCommand,
    ValueProcessingCommand, ValueProcessingModel,
};
use crate::values::{
    compile_regex, lowercase, regex_replaced, replace_all, to_lowercase, to_uppercase, uppercase,
};

verus! {

broadcast use vstd::string::group_string_axioms;

/// Why a command failed.
#[derive(Debug)]
pub enum CommandError {
    /// A sub-pipeline of the command failed.
    SubpipelineFailed(Box<PipelineError>),
    /// A file could not be read; the reason.
    ReadingCommandInputFailed(String),
    /// A file could not be parsed as HTML.
    ParsingCommandInputFailed,
    /// A parsed file holds no element that could be loaded.
    LoadingParsedCommandHtmlFailed,
    /// A regular expression could not be compiled.
    ParsingRegexFailed,
    /// A selector asks for what matching does not support (pseudo-classes, or an
    /// attribute comparison without value).
    UnsupportedSelector,
}

/// Why a pipeline failed: the command at `index` failed.
#[derive(Debug)]
pub enum PipelineError {
    CommandFailed { index: usize, source: CommandError },
}

/// The model of a command error.
pub open spec fn command_error_model(e: CommandError) -> CommandErrorModel
    decreases e,
{
    match e {
        CommandError::SubpipelineFailed(b) => CommandErrorModel::SubpipelineFailed(
            Box::new(pipeline_error_model(*b)),
        ),
        CommandError::ReadingCommandInputFailed(s) => CommandErrorModel::ReadingCommandInputFailed(s@),
        CommandError::ParsingCommandInputFailed => CommandErrorModel::ParsingCommandInputFailed,
        CommandError::LoadingParsedCommandHtmlFailed => CommandErrorModel::LoadingParsedCommandHtmlFailed,
        CommandError::ParsingRegexFailed => CommandErrorModel::ParsingRegexFailed,
        CommandError::UnsupportedSelector => CommandErrorModel::UnsupportedSelector,
    }
}

/// The model of a pipeline error.
pub open spec fn pipeline_error_model(e: PipelineError) -> PipelineErrorModel
    decreases e,
{
    match e {
        PipelineError::CommandFailed { index, source } => PipelineErrorModel::CommandFailed {
            index: index as int,
            source: command_error_model(source),
        },
    }
}

impl View for CommandError {
    type V = CommandErrorModel;

    open spec fn view(&self) -> CommandErrorModel {
        command_error_model(*self)
    }
}

impl View for PipelineError {
    type V = PipelineErrorModel;

    open spec fn view(&self) -> PipelineErrorModel {
        pipeline_error_model(*self)
    }
}

/// A file a pipeline may load: its path, and its text or why it could not be read.
#[derive(Debug)]
pub struct LoadedFile {
    pub path: String,
    pub content: Result<String, String>,
}

/// The model of the files a pipeline may load.
pub open spec fn files_model(files: Seq<LoadedFile>) -> FilesModel {
    files.map_values(
        |f: LoadedFile|
            (
                f.path@,
                match f.content {
                    Ok(s) => Ok(s@),
                    Err(s) => Err(s@),
                },
            ),
    )
}

/// The views of the strings.
pub open spec fn strings_view(v: Seq<String>) -> Seq<Seq<char>> {
    v.map_values(|s: String| s@)
}

/// The topmost ancestor of node `n`.
fn find_root(tree: &HtmlTree, n: usize) -> (r: usize)
    requires
        wf(tree@),
        n < tree@.len(),
    ensures
        r == root_of(tree@, n as int),
        r < tree@.len(),
{
    let mut cur = n;
    loop
        invariant
            wf(tree@),
            cur < tree@.len(),
            n < tree@.len(),
            root_of(tree@, n as int) == root_of(tree@, cur as int),
        decreases cur,
    {
        match tree.parent(cur) {
            Some(p) => {
                cur = p;
            },
            None => {
                return cur;
            },
        }
    }
}

impl<'a> ElementSelectingCommand<'a> {
    /// The nodes this command picks from node `node`.
    pub fn execute(&self, tree: &HtmlTree, node: usize) -> (r: Result<Vec<usize>, CommandError>)
        requires
            wf(tree@),
            node < tree@.len(),
        ensures
            match r {
                Ok(v) => selected(tree@, self@, node as int) == Some(v@) && all_valid(tree@, v@),
                Err(e) => selected(tree@, self@, node as int) is None && e@
                    == CommandErrorModel::UnsupportedSelector,
            },
    {
        match self {
            ElementSelectingCommand::UseElement => {
                let v = vec![node];
                assert(v@ =~= seq![node]);
                Ok(v)
            },
            ElementSelectingCommand::UseParent => match tree.parent(node) {
                Some(p) => {
                    assert(p < node);
                    let v = vec![p];
                    assert(v@ =~= seq![p]);
                    Ok(v)
                },
                None => {
                    let v: Vec<usize> = Vec::new();
                    assert(v@ =~= Seq::<usize>::empty());
                    Ok(v)
                },
            },
            ElementSelectingCommand::QueryElement(l) => {
                let start = vec![node];
                assert(start@ =~= seq![node]);
                match tree.query(l, &start) {
                    Some(v) => Ok(v),
                    None => Err(CommandError::UnsupportedSelector),
                }
            },
            ElementSelectingCommand::QueryParent(l) => match tree.parent(node) {
                Some(p) => {
                    let start = vec![p];
                    assert(p < node);
                    assert(start@ =~= seq![p]);
                    match tree.query(l, &start) {
                        Some(v) => Ok(v),
                        None => Err(CommandError::UnsupportedSelector),
                    }
                },
                None => {
                    let v: Vec<usize> = Vec::new();
                    assert(v@ =~= Seq::<usize>::empty());
                    Ok(v)
                },
            },
            ElementSelectingCommand::QueryRoot(l) => {
                let root = find_root(tree, node);
                let start = vec![root];
                assert(start@ =~= seq![root]);
                match tree.query(l, &start) {
                    Some(v) => Ok(v),
                    None => Err(CommandError::UnsupportedSelector),
                }
            },
        }
    }
}

impl<'a> ValueExtractingCommand<'a> {
    /// The values this command extracts from the nodes, in order.
    pub fn execute(&self, tree: &HtmlTree, nodes: &Vec<usize>) -> (r: Result<Vec<String>, CommandError>)
        requires
            wf(tree@),
            all_valid(tree@, nodes@),
        ensures
            r matches Ok(v) && strings_view(v@) == extracted(tree@, self@, nodes@),
    {
        let mut r: Vec<String> = Vec::new();
        for i in 0..nodes.len()
            invariant
                wf(tree@),
                all_valid(tree@, nodes@),
                strings_view(r@) == extracted(tree@, self@, nodes@.take(i as int)),
        {
            let n = nodes[i];
            assert(nodes@.take(i + 1).drop_last() =~= nodes@.take(i as int));
            let ghost before = r@;
            match self {
                ValueExtractingCommand::GetAttribute(a) => {
                    match tree.content(n) {
                        HtmlContent::Tag(t) => {
                            match t.attributes.get(a) {
                                Some(v) => {
                                    r.push(v.clone());
                                },
                                None => {},
                            }
                        },
                        _ => {},
                    }
                },
                ValueExtractingCommand::GetTextContent => {
                    let s = tree.text_content(n);
                    if !s.as_str().is_empty() {
                        r.push(s);
                    }
                },
            }
            assert(strings_view(r@) =~= extracted(tree@, self@, nodes@.take(i + 1)));
        }
        assert(nodes@.take(nodes@.len() as int) =~= nodes@);
        Ok(r)
    }
}

impl<'a> ValueProcessingCommand<'a> {
    /// The values after this command.
    pub fn execute(&self, values: &[String]) -> (r: Result<Vec<String>, CommandError>)
        ensures
            match r {
                Ok(v) => value_command_run(self@, strings_view(values@)) == Ok::<
                    Seq<Seq<char>>,
                    CommandErrorModel,
                >(strings_view(v@)),
                Err(e) => value_command_run(self@, strings_view(values@)) == Err::<
                    Seq<Seq<char>>,
                    CommandErrorModel,
                >(e@),
            },
    {
        let ghost vs = strings_view(values@);
        let mut r: Vec<String> = Vec::new();
        match self {
            ValueProcessingCommand::RegexReplace(pattern, replacement) => {
                let re = match compile_regex(pattern) {
                    Ok(re) => re,
                    Err(_) => {
                        return Err(CommandError::ParsingRegexFailed);
                    },
                };
                for i in 0..values.len()
                    invariant
                        re@ == pattern@,
                        vs == strings_view(values@),
                        r@.len() == i,
                        forall|j: int| 0 <= j < i ==> #[trigger] r@[j]@ == regex_replaced(pattern@, vs[j], replacement@),
                {
                    let v = replace_all(&re, values[i].as_str(), replacement);
                    assert(vs[i as int] == values@[i as int]@);
                    r.push(v);
                }
            },
            ValueProcessingCommand::ToLower => {
                for i in 0..values.len()
                    invariant
                        vs == strings_view(values@),
                        r@.len() == i,
                        forall|j: int| 0 <= j < i ==> #[trigger] r@[j]@ == lowercase(vs[j]),
                {
                    let v = to_lowercase(values[i].as_str());
                    assert(vs[i as int] == values@[i as int]@);
                    r.push(v);
                }
            },
            ValueProcessingCommand::ToUpper => {
                for i in 0..values.len()
                    invariant
                        vs == strings_view(values@),
                        r@.len() == i,
                        forall|j: int| 0 <= j < i ==> #[trigger] r@[j]@ == uppercase(vs[j]),
                {
                    let v = to_uppercase(values[i].as_str());
                    assert(vs[i as int] == values@[i as int]@);
                    r.push(v);
                }
            },
            ValueProcessingCommand::AddPrefix(a) => {
                for i in 0..values.len()
                    invariant
                        vs == strings_view(values@),
                        r@.len() == i,
                        forall|j: int| 0 <= j < i ==> #[trigger] r@[j]@ == a@ + vs[j],
                {
                    let mut v = String::from_str(a);
                    v.append(values[i].as_str());
                    assert(vs[i as int] == values@[i as int]@);
                    r.push(v);
                }
            },
        }
        proof {
            match self@ {
                ValueProcessingModel::RegexReplace(p, rep) => {
                    assert(strings_view(r@) =~= vs.map_values(|x: Seq<char>| regex_replaced(p, x, rep)));
                },
                ValueProcessingModel::ToLower => {
                    assert(strings_view(r@) =~= vs.map_values(|x: Seq<char>| lowercase(x)));
                },
                ValueProcessingModel::ToUpper => {
                    assert(strings_view(r@) =~= vs.map_values(|x: Seq<char>| uppercase(x)));
                },
                ValueProcessingModel::AddPrefix(a) => {
                    assert(strings_view(r@) =~= vs.map_values(|x: Seq<char>| a + x));
                },
            }
        }
        Ok(r)
    }
}

impl<'a> StringValueCreatingPipeline<'a> {
    /// The values this pipeline computes on node `node`.
    pub fn run_on(&self, tree: &HtmlTree, node: usize) -> (r: Result<Vec<String>, PipelineError>)
        requires
            wf(tree@),
            node < tree@.len(),
        ensures
            match r {
                Ok(v) => string_values(tree@, self@, node as int) == Ok::<
                    Seq<Seq<char>>,
                    PipelineErrorModel,
                >(strings_view(v@)),
                Err(e) => string_values(tree@, self@, node as int) == Err::<
                    Seq<Seq<char>>,
                    PipelineErrorModel,
                >(e@),
            },
    {
        let elements = match self.element_selector.execute(tree, node) {
            Ok(v) => v,
            Err(e) => {
                return Err(PipelineError::CommandFailed { index: 0, source: e });
            },
        };
        let mut values = match self.value_extractor.execute(tree, &elements) {
            Ok(v) => v,
            Err(e) => {
                return Err(PipelineError::CommandFailed { index: 1, source: e });
            },
        };
        let ghost cmds = self@.processing;
        assert(cmds.take(0) =~= Seq::<ValueProcessingModel>::empty());
        for i in 0..self.value_processing.len()
            invariant
                cmds == self@.processing,
                selected(tree@, self@.selector, node as int) == Some(elements@),
                cmds == self.value_processing@.map_values(|c: ValueProcessingCommand| c@),
                processed(cmds.take(i as int), extracted(tree@, self@.extractor, elements@)) == Ok::<
                    Seq<Seq<char>>,
                    PipelineErrorModel,
                >(strings_view(values@)),
        {
            assert(cmds.take(i + 1).drop_last() =~= cmds.take(i as int));
            assert(cmds.take(i + 1).last() == self.value_processing@[i as int]@);
            match self.value_processing[i].execute(values.as_slice()) {
                Ok(v) => {
                    values = v;
                },
                Err(e) => {
                    proof {
                        let ex = extracted(tree@, self@.extractor, elements@);
                        assert(processed(cmds.take(i + 1), ex) == Err::<Seq<Seq<char>>, PipelineErrorModel>(
                            PipelineErrorModel::CommandFailed { index: reported_index(i + 2), source: e@ },
                        ));
                        lemma_processed_stops(cmds, ex, i + 1);
                    }
                    let index = i.saturating_add(2);
                    return Err(PipelineError::CommandFailed { index, source: e });
                },
            }
        }
        assert(cmds.take(self.value_processing@.len() as int) =~= cmds);
        Ok(values)
    }
}

/// Once a value processing command fails, the whole processing fails with its error.
proof fn lemma_processed_stops(cmds: Seq<ValueProcessingModel>, values: Seq<Seq<char>>, k: int)
    requires
        0 < k <= cmds.len(),
        processed(cmds.take(k), values) is Err,
    ensures
        processed(cmds, values) == processed(cmds.take(k), values),
    decreases cmds.len() - k,
{
    if k < cmds.len() {
        assert(cmds.take(k + 1).drop_last() =~= cmds.take(k));
        lemma_processed_stops(cmds, values, k + 1);
    } else {
        assert(cmds.take(k) =~= cmds);
    }
}

impl<'a> ValueSource<'a> {
    /// The values of this source on node `node`.
    pub fn render(&self, tree: &HtmlTree, node: usize) -> (r: Result<Vec<String>, PipelineError>)
        requires
            wf(tree@),
            node < tree@.len(),
        ensures
            match r {
                Ok(v) => source_values(tree@, self@, node as int) == Ok::<
                    Seq<Seq<char>>,
                    PipelineErrorModel,
                >(strings_view(v@)),
                Err(e) => source_values(tree@, self@, node as int) == Err::<
                    Seq<Seq<char>>,
                    PipelineErrorModel,
                >(e@),
            },
    {
        match self {
            ValueSource::StringValue(s) => {
                let v = vec![String::from_str(s)];
                assert(strings_view(v@) =~= seq![s@]);
                Ok(v)
            },
            ValueSource::SubPipeline(p) => p.run_on(tree, node),
        }
    }
}

/// The view of a command's outcome.
pub open spec fn command_result_view(r: Result<Vec<usize>, CommandError>) -> Result<Seq<usize>, CommandErrorModel> {
    match r {
        Ok(v) => Ok(v@),
        Err(e) => Err(e@),
    }
}

/// The view of a pipeline's outcome.
pub open spec fn pipeline_result_view(r: Result<Vec<usize>, PipelineError>) -> Result<Seq<usize>, PipelineErrorModel> {
    match r {
        Ok(v) => Ok(v@),
        Err(e) => Err(e@),
    }
}

/// The view of the outcome of a command that writes into nodes.
pub open spec fn unit_result_view(r: Result<(), CommandError>) -> Result<(), CommandErrorModel> {
    match r {
        Ok(()) => Ok(()),
        Err(e) => Err(e@),
    }
}

/// The result holds only nodes of the input and nodes added since `t0`.
pub open spec fn from_input_or_new(t0: Seq<NodeModel>, t1: Seq<NodeModel>, input: Seq<usize>, out: Seq<usize>) -> bool {
    forall|j: int|
        0 <= j < out.len() ==> input.contains(#[trigger] out[j]) || t0.len() <= out[j] < t1.len()
}

/// What a command that writes a value does to each node.
pub enum ValueWrite<'a> {
    SetAttribute(&'a str),
    SetTextContent,
    AddTextContent,
    AddComment,
    PrependTextContent,
    PrependComment,
}

impl<'a> View for ValueWrite<'a> {
    type V = ValueTarget;

    open spec fn view(&self) -> ValueTarget {
        match self {
            ValueWrite::SetAttribute(a) => ValueTarget::SetAttribute(a@),
            ValueWrite::SetTextContent => ValueTarget::SetTextContent,
            ValueWrite::AddTextContent => ValueTarget::AddTextContent,
            ValueWrite::AddComment => ValueTarget::AddComment,
            ValueWrite::PrependTextContent => ValueTarget::PrependTextContent,
            ValueWrite::PrependComment => ValueTarget::PrependComment,
        }
    }
}

/// A copy of the indices.
fn copy_indices(v: &Vec<usize>) -> (r: Vec<usize>)
    ensures
        r@ == v@,
{
    let mut r: Vec<usize> = Vec::new();
    for i in 0..v.len()
        invariant
            r@ == v@.take(i as int),
    {
        r.push(v[i]);
        assert(r@ =~= v@.take(i + 1));
    }
    assert(v@.take(v@.len() as int) =~= v@);
    r
}

/// The strings one after the other.
fn concat_strings(v: &Vec<String>) -> (r: String)
    ensures
        r@ == concat_all(strings_view(v@)),
{
    let ghost sv = strings_view(v@);
    let mut r = String::new();
    for i in 0..v.len()
        invariant
            sv == strings_view(v@),
            r@ == concat_all(sv.take(i as int)),
    {
        assert(sv.take(i + 1).drop_last() =~= sv.take(i as int));
        assert(sv[i as int] == v@[i as int]@);
        r.append(v[i].as_str());
    }
    assert(sv.take(v@.len() as int) =~= sv);
    r
}

/// Detaches the nodes one after the other.
fn detach_each(tree: &mut HtmlTree, s: &Vec<usize>)
    requires
        wf(old(tree)@),
        all_valid(old(tree)@, s@),
    ensures
        final(tree)@ == detach_all(old(tree)@, s@),
        wf(final(tree)@),
        final(tree)@.len() == old(tree)@.len(),
{
    let ghost t0 = tree@;
    for i in 0..s.len()
        invariant
            wf(tree@),
            tree@.len() == t0.len(),
            all_valid(t0, s@),
            tree@ == detach_all(t0, s@.take(i as int)),
    {
        assert(s@.take(i + 1).drop_last() =~= s@.take(i as int));
        assert(s@[i as int] < t0.len());
        tree.detach(s[i]);
    }
    assert(s@.take(s@.len() as int) =~= s@);
}

/// Copies the subtrees below the nodes one after the other; returns the roots of the copies.
fn copy_each(tree: &mut HtmlTree, s: &Vec<usize>) -> (r: Vec<usize>)
    requires
        wf(old(tree)@),
        all_valid(old(tree)@, s@),
    ensures
        (final(tree)@, r@) == copy_all(old(tree)@, s@),
        wf(final(tree)@),
        old(tree)@.len() <= final(tree)@.len(),
        r@.len() == s@.len(),
        forall|j: int| 0 <= j < r@.len() ==> old(tree)@.len() <= #[trigger] r@[j] < final(tree)@.len(),
        forall|j: int|
            0 <= j < r@.len() ==> fragment(final(tree)@, #[trigger] r@[j] as int) == fragment(
                old(tree)@,
                s@[j] as int,
            ),
{
    let ghost t0 = tree@;
    let mut r: Vec<usize> = Vec::new();
    proof {
        assert(tree@.subrange(0, t0.len() as int) =~= t0);
    }
    for i in 0..s.len()
        invariant
            wf(tree@),
            wf(t0),
            t0.len() <= tree@.len(),
            tree@.subrange(0, t0.len() as int) == t0,
            all_valid(t0, s@),
            (tree@, r@) == copy_all(t0, s@.take(i as int)),
            r@.len() == i,
            forall|j: int| 0 <= j < r@.len() ==> t0.len() <= #[trigger] r@[j] < tree@.len(),
            forall|j: int|
                0 <= j < r@.len() ==> fragment(tree@, #[trigger] r@[j] as int) == fragment(
                    t0,
                    s@[j] as int,
                ),
    {
        assert(s@.take(i + 1).drop_last() =~= s@.take(i as int));
        assert(s@[i as int] < t0.len());
        let ghost t1 = tree@;
        let c = tree.deep_copy(s[i]);
        let ghost t2 = tree@;
        proof {
            assert forall|j: int| 0 <= j < t1.len() implies #[trigger] t2[j] == t1[j] by {
                assert(t2.subrange(0, t1.len() as int)[j] == t2[j]);
            }
            assert forall|j: int| 0 <= j < t0.len() implies #[trigger] t1[j] == t0[j] by {
                assert(t1.subrange(0, t0.len() as int)[j] == t1[j]);
            }
            assert(t2.subrange(0, t0.len() as int) =~= t0);
            lemma_fragment_frame(t0, t1, s@[i as int] as int, 0, t0.len() as int);
            assert forall|j: int|
                0 <= j < r@.len() implies fragment(t2, #[trigger] r@[j] as int) == fragment(
                    t0,
                    s@[j] as int,
                ) by {
                lemma_fragment_frame(t1, t2, r@[j] as int, 0, t1.len() as int);
            }
        }
        r.push(c);
    }
    assert(s@.take(s@.len() as int) =~= s@);
    r
}

/// Removes the attribute from each node.
fn clear_attr_each(tree: &mut HtmlTree, s: &Vec<usize>, a: &str)
    requires
        wf(old(tree)@),
        all_valid(old(tree)@, s@),
    ensures
        final(tree)@ == clear_attr_all(old(tree)@, s@, a@, s@.len() as int),
        wf(final(tree)@),
        final(tree)@.len() == old(tree)@.len(),
{
    let ghost t0 = tree@;
    for i in 0..s.len()
        invariant
            wf(tree@),
            tree@.len() == t0.len(),
            all_valid(t0, s@),
            tree@ == clear_attr_all(t0, s@, a@, i as int),
    {
        assert(s@[i as int] < t0.len());
        tree.clear_attribute(s[i], a);
    }
}

/// Detaches the children of each node.
fn clear_content_each(tree: &mut HtmlTree, s: &Vec<usize>)
    requires
        wf(old(tree)@),
        all_valid(old(tree)@, s@),
    ensures
        final(tree)@ == clear_content_all(old(tree)@, s@, s@.len() as int),
        wf(final(tree)@),
        final(tree)@.len() == old(tree)@.len(),
{
    let ghost t0 = tree@;
    for i in 0..s.len()
        invariant
            wf(tree@),
            tree@.len() == t0.len(),
            all_valid(t0, s@),
            tree@ == clear_content_all(t0, s@, i as int),
    {
        assert(s@[i as int] < t0.len());
        let children = copy_indices(tree.children(s[i]));
        assert(all_valid(tree@, children@));
        detach_each(tree, &children);
    }
}

/// Writes the value of `v` on node `n` into node `n`.
fn write_value_exec(tree: &mut HtmlTree, w: &ValueWrite, v: &ValueSource, n: usize) -> (r: Result<(), CommandError>)
    requires
        wf(old(tree)@),
        n < old(tree)@.len(),
    ensures
        (final(tree)@, unit_result_view(r)) == write_value(old(tree)@, w@, v@, n as int),
        wf(final(tree)@),
        old(tree)@.len() <= final(tree)@.len(),
{
    let values = match v.render(tree, n) {
        Ok(values) => values,
        Err(e) => {
            return Err(CommandError::SubpipelineFailed(Box::new(e)));
        },
    };
    let joined = concat_strings(&values);
    match w {
        ValueWrite::SetAttribute(a) => {
            let quoted = crate::values::encode_double_quoted_attribute(joined.as_str());
            let value = crate::values::escape_newlines(quoted.as_str());
            tree.set_attribute(n, String::from_str(a), value);
        },
        ValueWrite::SetTextContent => {
            let children = copy_indices(tree.children(n));
            assert(all_valid(tree@, children@));
            detach_each(tree, &children);
            let text = crate::values::encode_text(joined.as_str());
            let id = tree.create(HtmlContent::Text(text));
            tree.append(n, id);
        },
        ValueWrite::AddTextContent => {
            let text = crate::values::encode_text(joined.as_str());
            let id = tree.create(HtmlContent::Text(text));
            tree.append(n, id);
        },
        ValueWrite::AddComment => {
            let text = crate::values::escape_dashes(joined.as_str());
            let id = tree.create(HtmlContent::Comment(text));
            tree.append(n, id);
        },
        ValueWrite::PrependTextContent => {
            let text = crate::values::encode_text(joined.as_str());
            let id = tree.create(HtmlContent::Text(text));
            tree.prepend(n, id);
        },
        ValueWrite::PrependComment => {
            let text = crate::values::escape_dashes(joined.as_str());
            let id = tree.create(HtmlContent::Comment(text));
            tree.prepend(n, id);
        },
    }
    Ok(())
}

/// Writes the value of `v` into each node, up to the first error.
fn write_each(tree: &mut HtmlTree, w: &ValueWrite, v: &ValueSource, s: &Vec<usize>) -> (r: Result<(), CommandError>)
    requires
        wf(old(tree)@),
        all_valid(old(tree)@, s@),
    ensures
        (final(tree)@, unit_result_view(r)) == write_all(old(tree)@, w@, v@, s@, s@.len() as int),
        wf(final(tree)@),
        old(tree)@.len() <= final(tree)@.len(),
{
    let ghost t0 = tree@;
    for i in 0..s.len()
        invariant
            wf(tree@),
            t0.len() <= tree@.len(),
            all_valid(t0, s@),
            t0 == old(tree)@,
            write_all(t0, w@, v@, s@, i as int) == (tree@, Ok::<(), CommandErrorModel>(())),
    {
        assert(s@[i as int] < t0.len());
        let ghost before = tree@;
        match write_value_exec(tree, w, v, s[i]) {
            Ok(()) => {},
            Err(e) => {
                proof {
                    assert(write_value(before, w@, v@, s@[i as int] as int) == (tree@, Err::<(), CommandErrorModel>(e@)));
                    assert(write_all(t0, w@, v@, s@, i + 1) == (tree@, Err::<(), CommandErrorModel>(e@)));
                    lemma_write_all_stops(t0, w@, v@, s@, i + 1, s@.len() as int);
                }
                return Err(e);
            },
        }
    }
    Ok(())
}

/// Once writing into a node fails, writing into the rest is not tried.
proof fn lemma_write_all_stops(
    t: Seq<NodeModel>,
    w: ValueTarget,
    v: ValueSourceModel,
    s: Seq<usize>,
    k: int,
    n: int,
)
    requires
        0 < k <= n,
        write_all(t, w, v, s, k).1 is Err,
    ensures
        write_all(t, w, v, s, n) == write_all(t, w, v, s, k),
    decreases n - k,
{
    if k < n {
        lemma_write_all_stops(t, w, v, s, k, n - 1);
    }
}

/// The first file of the given path.
fn find_file<'f>(files: &'f Vec<LoadedFile>, path: &str) -> (r: Option<&'f LoadedFile>)
    ensures
        match r {
            Some(f) => file_lookup(files_model(files@), path@) == Some(
                match f.content {
                    Ok(s) => Ok::<Seq<char>, Seq<char>>(s@),
                    Err(s) => Err::<Seq<char>, Seq<char>>(s@),
                },
            ),
            None => file_lookup(files_model(files@), path@) is None,
        },
{
    let ghost fm = files_model(files@);
    assert(fm.skip(0) =~= fm);
    for i in 0..files.len()
        invariant
            fm == files_model(files@),
            file_lookup(fm, path@) == file_lookup(fm.skip(i as int), path@),
    {
        assert(fm.skip(i as int)[0] == fm[i as int]);
        assert(fm.skip(i as int).drop_first() =~= fm.skip(i + 1));
        if crate::html::attributes::str_eq(files[i].path.as_str(), path) {
            return Some(&files[i]);
        }
    }
    assert(fm.skip(files@.len() as int) =~= Seq::<(Seq<char>, Result<Seq<char>, Seq<char>>)>::empty());
    None
}

/// Parses an HTML text and loads its document into the arena; returns the root of the
/// document.
pub fn load_html(tree: &mut HtmlTree, text: &str) -> (r: Result<usize, CommandError>)
    requires
        wf(old(tree)@),
    ensures
        (final(tree)@, match r {
            Ok(id) => Ok::<usize, CommandErrorModel>(id),
            Err(e) => Err::<usize, CommandErrorModel>(e@),
        }) == html_loaded(old(tree)@, text@),
        wf(final(tree)@),
        old(tree)@.len() <= final(tree)@.len(),
        r matches Ok(id) ==> id == old(tree)@.len() && id < final(tree)@.len(),
{
    match parse_html(text) {
        Err(_) => Err(CommandError::ParsingCommandInputFailed),
        Ok(parsed) => match tree.load(&parsed) {
            None => Err(CommandError::LoadingParsedCommandHtmlFailed),
            Some(root) => Ok(root),
        },
    }
}

/// The paths of the files the pipeline may load, in order.
pub fn file_paths<'a>(pipeline: &ElementProcessingPipeline<'a>) -> (r: Vec<&'a str>)
    ensures
        strs_view(r@) == commands_paths(pipeline@),
{
    let mut r: Vec<&'a str> = Vec::new();
    collect_commands_paths(&pipeline.0, &mut r);
    r
}

fn collect_command_paths<'a>(c: &ElementProcessingCommand<'a>, out: &mut Vec<&'a str>)
    ensures
        strs_view(final(out)@) == strs_view(old(out)@) + command_paths(c@),
    decreases c@, 1int,
{
    match c {
        ElementProcessingCommand::ForEach(_, p) => {
            proof {
                assert(c@->ForEach_1 == commands_model(p.0@));
                assert(decreases_to!(c@, 1int => c@->ForEach_1, 0int));
            }
            collect_commands_paths(&p.0, out);
        },
        ElementProcessingCommand::Replace(_, p) => {
            proof {
                assert(c@->Replace_1 == p@);
                assert(decreases_to!(c@, 1int => c@->Replace_1, 0int));
            }
            collect_creating_paths(p, out);
        },
        ElementProcessingCommand::AddElement(p) => {
            proof {
                assert(c@->AddElement_0 == p@);
                assert(decreases_to!(c@, 1int => c@->AddElement_0, 0int));
            }
            collect_creating_paths(p, out);
        },
        ElementProcessingCommand::PrependElement(p) => {
            proof {
                assert(c@->PrependElement_0 == p@);
                assert(decreases_to!(c@, 1int => c@->PrependElement_0, 0int));
            }
            collect_creating_paths(p, out);
        },
        _ => {
            assert(strs_view(out@) =~= strs_view(out@) + command_paths(c@));
        },
    }
}

fn collect_commands_paths<'a>(cs: &Vec<ElementProcessingCommand<'a>>, out: &mut Vec<&'a str>)
    ensures
        strs_view(final(out)@) == strs_view(old(out)@) + commands_paths(commands_model(cs@)),
    decreases commands_model(cs@), 0int,
{
    let ghost o0 = strs_view(out@);
    let ghost cms = commands_model(cs@);
    proof {
        lemma_commands_model(cs@);
        assert(cms.take(0) =~= Seq::<ProcessingModel>::empty());
    }
    for i in 0..cs.len()
        invariant
            cms == commands_model(cs@),
            cms.len() == cs@.len(),
            forall|j: int| 0 <= j < cs@.len() ==> #[trigger] cms[j] == cs@[j]@,
            strs_view(out@) == o0 + commands_paths(cms.take(i as int)),
    {
        assert(cms.take(i + 1).drop_last() =~= cms.take(i as int));
        assert(cms.take(i + 1).last() == cs@[i as int]@);
        proof {
            assert(decreases_to!(cms, 0int => cms[i as int], 1int));
        }
        collect_command_paths(&cs[i], out);
        assert(strs_view(out@) =~= o0 + commands_paths(cms.take(i + 1)));
    }
    assert(cms.take(cs@.len() as int) =~= cms);
}

fn collect_creating_paths<'a>(p: &ElementCreatingPipeline<'a>, out: &mut Vec<&'a str>)
    ensures
        strs_view(final(out)@) == strs_view(old(out)@) + creating_paths(p@),
    decreases p@, 0int,
{
    let ghost o0 = strs_view(out@);
    match &p.0 {
        ElementCreatingCommand::FromFile(path) => {
            out.push(path);
        },
        _ => {},
    }
    assert(strs_view(out@) =~= o0 + creation_paths(p@.creation));
    proof {
        assert(p@.processing == commands_model(p.1@));
        assert(decreases_to!(p@, 0int => p@.processing, 0int));
    }
    collect_commands_paths(&p.1, out);
    assert(strs_view(out@) =~= o0 + creating_paths(p@));
}

impl<'a> ElementCreatingCommand<'a> {
    /// Creates elements: a new element, the document of a file, or copies of what the
    /// selector finds from the input.
    pub fn execute(&self, tree: &mut HtmlTree, input: &Vec<usize>, files: &Vec<LoadedFile>) -> (r: Result<
        Vec<usize>,
        CommandError,
    >)
        requires
            wf(old(tree)@),
            all_valid(old(tree)@, input@),
        ensures
            (final(tree)@, command_result_view(r)) == created(
                old(tree)@,
                self@,
                input@,
                files_model(files@),
            ),
            wf(final(tree)@),
            old(tree)@.len() <= final(tree)@.len(),
            r matches Ok(v) ==> forall|j: int|
                0 <= j < v@.len() ==> old(tree)@.len() <= #[trigger] v@[j] < final(tree)@.len(),
    {
        match self {
            ElementCreatingCommand::CreateElement(name) => {
                let id = tree.create(HtmlContent::Tag(HtmlTag::of_name(name)));
                let v = vec![id];
                assert(v@ =~= seq![id]);
                Ok(v)
            },
            ElementCreatingCommand::FromFile(path) => {
                match find_file(files, path) {
                    None => Err(CommandError::ReadingCommandInputFailed(String::from_str(path))),
                    Some(f) => match &f.content {
                        Err(why) => Err(CommandError::ReadingCommandInputFailed(why.clone())),
                        Ok(text) => match load_html(tree, text.as_str()) {
                            Err(e) => Err(e),
                            Ok(root) => {
                                let v = vec![root];
                                assert(v@ =~= seq![root]);
                                Ok(v)
                            },
                        },
                    },
                }
            },
            ElementCreatingCommand::FromReplaced(l) => match tree.query(l, input) {
                None => Err(CommandError::UnsupportedSelector),
                Some(found) => Ok(copy_each(tree, &found)),
            },
        }
    }
}

impl<'a> ElementProcessingCommand<'a> {
    /// Runs the command on the nodes `input`; returns its result.
    pub fn execute(&self, tree: &mut HtmlTree, input: &Vec<usize>, files: &Vec<LoadedFile>) -> (r: Result<
        Vec<usize>,
        CommandError,
    >)
        requires
            wf(old(tree)@),
            all_valid(old(tree)@, input@),
        ensures
            (final(tree)@, command_result_view(r)) == command_run(
                old(tree)@,
                self@,
                input@,
                files_model(files@),
            ),
            wf(final(tree)@),
            old(tree)@.len() <= final(tree)@.len(),
            r matches Ok(v) ==> all_valid(final(tree)@, v@) && from_input_or_new(
                old(tree)@,
                final(tree)@,
                input@,
                v@,
            ),
            self@ is ExtractElement && r is Ok ==> ({
                let v = r->Ok_0;
                let found = query_outcome(old(tree)@, self@->ExtractElement_0, input@)->0;
                &&& v@.len() == found.len()
                &&& forall|j: int|
                    0 <= j < v@.len() ==> fragment(final(tree)@, #[trigger] v@[j] as int) == fragment(
                        old(tree)@,
                        found[j] as int,
                    )
            }),
        decreases self@, 2int,
    {
        let ghost t0 = tree@;
        match self {
            ElementProcessingCommand::ExtractElement(l) => match tree.query(l, input) {
                None => Err(CommandError::UnsupportedSelector),
                Some(found) => Ok(copy_each(tree, &found)),
            },
            ElementProcessingCommand::RemoveElement(l) => match tree.query(l, input) {
                None => Err(CommandError::UnsupportedSelector),
                Some(found) => {
                    detach_each(tree, &found);
                    Ok(copy_indices(input))
                },
            },
            ElementProcessingCommand::ForEach(l, p) => match tree.query(l, input) {
                None => Err(CommandError::UnsupportedSelector),
                Some(found) => {
                    proof {
                        assert(self@ == ProcessingModel::ForEach(l@, commands_model(p.0@)));
                        assert(self@->ForEach_1 == commands_model(p.0@));
                        assert(decreases_to!(self@, 2int => self@->ForEach_1, 0int));
                    }
                    let _ = run_commands(tree, &p.0, found, files, 0);
                    Ok(copy_indices(input))
                },
            },
            ElementProcessingCommand::Replace(l, p) => match tree.query(l, input) {
                None => Err(CommandError::UnsupportedSelector),
                Some(found) => {
                    proof {
                        assert(self@ == ProcessingModel::Replace(l@, p@));
                        assert(self@->Replace_1 == p@);
                        assert(decreases_to!(self@, 2int => self@->Replace_1, 1int));
                    }
                    match replace_each(tree, p, &found, files) {
                        Err(e) => Err(e),
                        Ok(()) => Ok(copy_indices(input)),
                    }
                },
            },
            ElementProcessingCommand::ClearAttribute(a) => {
                clear_attr_each(tree, input, a);
                Ok(copy_indices(input))
            },
            ElementProcessingCommand::ClearContent => {
                clear_content_each(tree, input);
                Ok(copy_indices(input))
            },
            ElementProcessingCommand::SetAttribute(a, v) => {
                match write_each(tree, &ValueWrite::SetAttribute(a), v, input) {
                    Err(e) => Err(e),
                    Ok(()) => Ok(copy_indices(input)),
                }
            },
            ElementProcessingCommand::SetTextContent(v) => {
                match write_each(tree, &ValueWrite::SetTextContent, v, input) {
                    Err(e) => Err(e),
                    Ok(()) => Ok(copy_indices(input)),
                }
            },
            ElementProcessingCommand::AddTextContent(v) => {
                match write_each(tree, &ValueWrite::AddTextContent, v, input) {
                    Err(e) => Err(e),
                    Ok(()) => Ok(copy_indices(input)),
                }
            },
            ElementProcessingCommand::AddComment(v) => {
                match write_each(tree, &ValueWrite::AddComment, v, input) {
                    Err(e) => Err(e),
                    Ok(()) => Ok(copy_indices(input)),
                }
            },
            ElementProcessingCommand::AddElement(p) => {
                proof {
                    assert(self@ == ProcessingModel::AddElement(p@));
                    assert(self@->AddElement_0 == p@);
                    assert(decreases_to!(self@, 2int => self@->AddElement_0, 1int));
                }
                match add_element_each(tree, p, input, files, false) {
                    Err(e) => Err(e),
                    Ok(()) => Ok(copy_indices(input)),
                }
            },
            ElementProcessingCommand::PrependTextContent(v) => {
                match write_each(tree, &ValueWrite::PrependTextContent, v, input) {
                    Err(e) => Err(e),
                    Ok(()) => Ok(copy_indices(input)),
                }
            },
            ElementProcessingCommand::PrependComment(v) => {
                match write_each(tree, &ValueWrite::PrependComment, v, input) {
                    Err(e) => Err(e),
                    Ok(()) => Ok(copy_indices(input)),
                }
            },
            ElementProcessingCommand::PrependElement(p) => {
                proof {
                    assert(self@ == ProcessingModel::PrependElement(p@));
                    assert(self@->PrependElement_0 == p@);
                    assert(decreases_to!(self@, 2int => self@->PrependElement_0, 1int));
                }
                match add_element_each(tree, p, input, files, true) {
                    Err(e) => Err(e),
                    Ok(()) => Ok(copy_indices(input)),
                }
            },
        }
    }
}

/// Runs the commands one after the other, each on the result of the one before; the `k`th
/// command has index `offset + k`.
fn run_commands(
    tree: &mut HtmlTree,
    cs: &Vec<ElementProcessingCommand>,
    input: Vec<usize>,
    files: &Vec<LoadedFile>,
    offset: usize,
) -> (r: Result<Vec<usize>, PipelineError>)
    requires
        wf(old(tree)@),
        all_valid(old(tree)@, input@),
        offset <= 1,
    ensures
        (final(tree)@, pipeline_result_view(r)) == commands_run(
            old(tree)@,
            commands_model(cs@),
            input@,
            files_model(files@),
            offset as int,
        ),
        wf(final(tree)@),
        old(tree)@.len() <= final(tree)@.len(),
        r matches Ok(v) ==> all_valid(final(tree)@, v@) && from_input_or_new(
            old(tree)@,
            final(tree)@,
            input@,
            v@,
        ),
    decreases commands_model(cs@), 0int,
{
    let ghost t0 = tree@;
    let ghost cms = commands_model(cs@);
    proof {
        lemma_commands_model(cs@);
        assert(cms.take(0) =~= Seq::<ProcessingModel>::empty());
    }
    let ghost input0 = input@;
    let mut current = input;
    for i in 0..cs.len()
        invariant
            cms == commands_model(cs@),
            cms.len() == cs@.len(),
            forall|j: int| 0 <= j < cs@.len() ==> #[trigger] cms[j] == cs@[j]@,
            offset <= 1,
            t0 == old(tree)@,
            input0 == input@,
            wf(tree@),
            t0.len() <= tree@.len(),
            all_valid(tree@, current@),
            from_input_or_new(t0, tree@, input0, current@),
            commands_run(t0, cms.take(i as int), input0, files_model(files@), offset as int) == (
                tree@,
                Ok::<Seq<usize>, PipelineErrorModel>(current@),
            ),
    {
        assert(cms.take(i + 1).drop_last() =~= cms.take(i as int));
        assert(cms.take(i + 1).last() == cs@[i as int]@);
        proof {
            assert(decreases_to!(cms => cms[i as int]));
        }
        let ghost t1 = tree@;
        match cs[i].execute(tree, &current, files) {
            Ok(v) => {
                proof {
                    assert forall|j: int| 0 <= j < v@.len() implies input0.contains(#[trigger] v@[j]) || t0.len() <= v@[j] < tree@.len() by {
                        if current@.contains(v@[j]) {
                            let m = choose|m: int| 0 <= m < current@.len() && current@[m] == v@[j];
                            assert(input0.contains(current@[m]) || t0.len() <= current@[m] < t1.len());
                        }
                    }
                }
                current = v;
            },
            Err(e) => {
                let index = i.saturating_add(offset);
                proof {
                    assert(commands_run(t0, cms.take(i + 1), input0, files_model(files@), offset as int) == (
                        tree@,
                        Err::<Seq<usize>, PipelineErrorModel>(PipelineErrorModel::CommandFailed {
                            index: reported_index(offset + i),
                            source: e@,
                        }),
                    ));
                    lemma_commands_stop(t0, cms, input0, files_model(files@), offset as int, i + 1);
                }
                return Err(PipelineError::CommandFailed { index, source: e });
            },
        }
    }
    assert(cms.take(cs@.len() as int) =~= cms);
    Ok(current)
}

/// Once a command fails, the commands after it are not run.
proof fn lemma_commands_stop(
    t: Seq<NodeModel>,
    cs: Seq<ProcessingModel>,
    input: Seq<usize>,
    files: FilesModel,
    offset: int,
    k: int,
)
    requires
        0 < k <= cs.len(),
        commands_run(t, cs.take(k), input, files, offset).1 is Err,
    ensures
        commands_run(t, cs, input, files, offset) == commands_run(t, cs.take(k), input, files, offset),
    decreases cs.len() - k,
{
    if k < cs.len() {
        assert(cs.take(k + 1).drop_last() =~= cs.take(k));
        lemma_commands_stop(t, cs, input, files, offset, k + 1);
    } else {
        assert(cs.take(k) =~= cs);
    }
}

impl<'a> ElementCreatingPipeline<'a> {
    /// Runs the creating command on the nodes `input`, then the processing commands on
    /// its result; returns the elements made.
    pub fn run_on(&self, tree: &mut HtmlTree, input: &Vec<usize>, files: &Vec<LoadedFile>) -> (r: Result<
        Vec<usize>,
        PipelineError,
    >)
        requires
            wf(old(tree)@),
            all_valid(old(tree)@, input@),
        ensures
            (final(tree)@, pipeline_result_view(r)) == creating_run(
                old(tree)@,
                self@,
                input@,
                files_model(files@),
            ),
            wf(final(tree)@),
            old(tree)@.len() <= final(tree)@.len(),
            r matches Ok(v) ==> forall|j: int|
                0 <= j < v@.len() ==> old(tree)@.len() <= #[trigger] v@[j] < final(tree)@.len(),
        decreases self@, 0int,
    {
        let ghost t0 = tree@;
        let made = match self.0.execute(tree, input, files) {
            Ok(v) => v,
            Err(e) => {
                return Err(PipelineError::CommandFailed { index: 0, source: e });
            },
        };
        let ghost t1 = tree@;
        let ghost m = made@;
        proof {
            assert(self@.processing == commands_model(self.1@));
            assert(decreases_to!(self@, 0int => commands_model(self.1@), 0int));
        }
        let r = run_commands(tree, &self.1, made, files, 1);
        proof {
            if r is Ok {
                let v = r->Ok_0@;
                assert forall|j: int| 0 <= j < v.len() implies t0.len() <= #[trigger] v[j] < tree@.len() by {
                    if m.contains(v[j]) {
                        let k = choose|k: int| 0 <= k < m.len() && m[k] == v[j];
                        assert(t0.len() <= m[k] < t1.len());
                    }
                }
            }
        }
        r
    }
}

/// Replaces each found node by copies of what the pipeline makes of it, up to the first error.
#[verifier::spinoff_prover]
fn replace_each(
    tree: &mut HtmlTree,
    p: &ElementCreatingPipeline,
    found: &Vec<usize>,
    files: &Vec<LoadedFile>,
) -> (r: Result<(), CommandError>)
    requires
        wf(old(tree)@),
        all_valid(old(tree)@, found@),
    ensures
        (final(tree)@, unit_result_view(r)) == replace_run(
            old(tree)@,
            p@,
            found@,
            files_model(files@),
            found@.len() as int,
        ),
        wf(final(tree)@),
        old(tree)@.len() <= final(tree)@.len(),
    decreases p@, 1int,
{
    let ghost t0 = tree@;
    for i in 0..found.len()
        invariant
            wf(tree@),
            t0 == old(tree)@,
            t0.len() <= tree@.len(),
            all_valid(t0, found@),
            replace_run(t0, p@, found@, files_model(files@), i as int) == (
                tree@,
                Ok::<(), CommandErrorModel>(()),
            ),
    {
        let e = found[i];
        assert(e < t0.len());
        let start = vec![e];
        assert(start@ =~= seq![e]);
        let ghost t1 = tree@;
        match p.run_on(tree, &start, files) {
            Err(pe) => {
                proof {
                    lemma_replace_stops(t0, p@, found@, files_model(files@), i + 1, found@.len() as int);
                }
                return Err(CommandError::SubpipelineFailed(Box::new(pe)));
            },
            Ok(made) => {
                insert_copies_before(tree, e, &made);
                tree.detach(e);
            },
        }
    }
    Ok(())
}

/// Inserts copies of the subtrees below `made` before node `e`, one after the other.
fn insert_copies_before(tree: &mut HtmlTree, e: usize, made: &Vec<usize>)
    requires
        wf(old(tree)@),
        e < old(tree)@.len(),
        forall|k: int| 0 <= k < made@.len() ==> e < #[trigger] made@[k] < old(tree)@.len(),
    ensures
        final(tree)@ == insert_copies(old(tree)@, e as int, made@),
        wf(final(tree)@),
        old(tree)@.len() <= final(tree)@.len(),
{
    let ghost t2 = tree@;
    for j in 0..made.len()
        invariant
            wf(tree@),
            e < t2.len(),
            t2.len() <= tree@.len(),
            forall|k: int| 0 <= k < made@.len() ==> e < #[trigger] made@[k] < t2.len(),
            tree@ == insert_copies(t2, e as int, made@.take(j as int)),
    {
        assert(made@.take(j + 1).drop_last() =~= made@.take(j as int));
        assert(made@[j as int] < t2.len());
        let c = tree.deep_copy(made[j]);
        tree.insert_before(e, c);
        assert(tree@ == insert_copies(t2, e as int, made@.take(j + 1)));
    }
    assert(made@.take(made@.len() as int) =~= made@);
}

/// Once a replacement fails, the rest is not tried.
proof fn lemma_replace_stops(
    t: Seq<NodeModel>,
    p: CreatingModel,
    found: Seq<usize>,
    files: FilesModel,
    k: int,
    n: int,
)
    requires
        0 < k <= n,
        replace_run(t, p, found, files, k).1 is Err,
    ensures
        replace_run(t, p, found, files, n) == replace_run(t, p, found, files, k),
    decreases n - k,
{
    if k < n {
        lemma_replace_stops(t, p, found, files, k, n - 1);
    }
}

/// Adds to each input node, as last child (as first child where `first`), the last element
/// the pipeline makes from nothing, up to the first error.
fn add_element_each(
    tree: &mut HtmlTree,
    p: &ElementCreatingPipeline,
    input: &Vec<usize>,
    files: &Vec<LoadedFile>,
    first: bool,
) -> (r: Result<(), CommandError>)
    requires
        wf(old(tree)@),
        all_valid(old(tree)@, input@),
    ensures
        (final(tree)@, unit_result_view(r)) == add_element_run(
            old(tree)@,
            p@,
            input@,
            files_model(files@),
            input@.len() as int,
            first,
        ),
        wf(final(tree)@),
        old(tree)@.len() <= final(tree)@.len(),
    decreases p@, 1int,
{
    let ghost t0 = tree@;
    for i in 0..input.len()
        invariant
            wf(tree@),
            t0 == old(tree)@,
            t0.len() <= tree@.len(),
            all_valid(t0, input@),
            add_element_run(t0, p@, input@, files_model(files@), i as int, first) == (
                tree@,
                Ok::<(), CommandErrorModel>(()),
            ),
    {
        let n = input[i];
        assert(n < t0.len());
        let nothing: Vec<usize> = Vec::new();
        assert(nothing@ =~= Seq::<usize>::empty());
        let ghost t1 = tree@;
        match p.run_on(tree, &nothing, files) {
            Err(pe) => {
                proof {
                    lemma_add_element_stops(t0, p@, input@, files_model(files@), i + 1, input@.len() as int, first);
                }
                return Err(CommandError::SubpipelineFailed(Box::new(pe)));
            },
            Ok(made) => {
                if made.len() > 0 {
                    let last = made[made.len() - 1];
                    assert(t1.len() <= made@[made@.len() - 1]);
                    if first {
                        tree.prepend(n, last);
                    } else {
                        tree.append(n, last);
                    }
                }
            },
        }
    }
    Ok(())
}

/// Once making an element fails, the rest is not tried.
proof fn lemma_add_element_stops(
    t: Seq<NodeModel>,
    p: CreatingModel,
    input: Seq<usize>,
    files: FilesModel,
    k: int,
    n: int,
    first: bool,
)
    requires
        0 < k <= n,
        add_element_run(t, p, input, files, k, first).1 is Err,
    ensures
        add_element_run(t, p, input, files, n, first) == add_element_run(t, p, input, files, k, first),
    decreases n - k,
{
    if k < n {
        lemma_add_element_stops(t, p, input, files, k, n - 1, first);
    }
}

impl<'a> ElementProcessingPipeline<'a> {
    /// Runs the commands one after the other, each on the result of the one before;
    /// returns the result of the last.
    pub fn run_on(&self, tree: &mut HtmlTree, input: Vec<usize>, files: &Vec<LoadedFile>) -> (r: Result<
        Vec<usize>,
        PipelineError,
    >)
        requires
            wf(old(tree)@),
            all_valid(old(tree)@, input@),
        ensures
            (final(tree)@, pipeline_result_view(r)) == commands_run(
                old(tree)@,
                self@,
                input@,
                files_model(files@),
                0,
            ),
            wf(final(tree)@),
            r matches Ok(v) ==> all_valid(final(tree)@, v@),
    {
        run_commands(tree, &self.0, input, files, 0)
    }
}

} // verus!
