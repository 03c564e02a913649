use html_streaming_editor::css::{CssSelector, CssSelectorList, CssSelectorPath};
use html_streaming_editor::element_creating::{ElementCreatingCommand, ElementCreatingPipeline};
use html_streaming_editor::element_processing::{ElementProcessingCommand, ElementProcessingPipeline};
use html_streaming_editor::parsing::grammar;
use html_streaming_editor::string_creating::{
    ElementSelectingCommand, StringValueCreatingPipeline, ValueExtractingCommand,
    ValueProcessingCommand,
};
use html_streaming_editor::ValueSource;

fn list(name: &'static str) -> CssSelectorList<'static> {
    CssSelectorList::new(vec![CssSelectorPath::single(CssSelector::for_element(name))])
}

#[test]
fn parse_for_each_alias_for() {
    let parsed = grammar::element_processing_command("FOR{li ↦ CLEAR-CONTENT}");
    assert_eq!(
        parsed,
        Ok(ElementProcessingCommand::ForEach(
            list("li"),
            ElementProcessingPipeline::new(vec![ElementProcessingCommand::ClearContent]),
        ))
    );
}

#[test]
fn parse_append_aliases() {
    assert_eq!(
        grammar::element_processing_command("APPEND-TEXT-CONTENT{'x'}"),
        Ok(ElementProcessingCommand::AddTextContent(ValueSource::StringValue("x")))
    );
    assert_eq!(
        grammar::element_processing_command("APPEND-COMMENT{'x'}"),
        Ok(ElementProcessingCommand::AddComment(ValueSource::StringValue("x")))
    );
    assert_eq!(
        grammar::element_processing_command("APPEND-ELEMENT{CREATE-ELEMENT{div}}"),
        Ok(ElementProcessingCommand::AddElement(ElementCreatingPipeline::new(
            ElementCreatingCommand::CreateElement("div"),
            None,
        )))
    );
}

#[test]
fn parse_prepend_commands() {
    assert_eq!(
        grammar::element_processing_command("PREPEND-TEXT-CONTENT{'x'}"),
        Ok(ElementProcessingCommand::PrependTextContent(ValueSource::StringValue("x")))
    );
    assert_eq!(
        grammar::element_processing_command("PREPEND-COMMENT{ ↤ 'x' }"),
        Ok(ElementProcessingCommand::PrependComment(ValueSource::StringValue("x")))
    );
    assert_eq!(
        grammar::element_processing_command("PREPEND-ELEMENT{ NEW{p} }"),
        Ok(ElementProcessingCommand::PrependElement(ElementCreatingPipeline::new(
            ElementCreatingCommand::CreateElement("p"),
            None,
        )))
    );
}

#[test]
fn parse_from_replaced_alias() {
    assert_eq!(
        grammar::element_processing_command("REPLACE{.x ↤ FROM-REPLACED{abbr}}"),
        Ok(ElementProcessingCommand::Replace(
            CssSelectorList::new(vec![CssSelectorPath::single(CssSelector::for_class("x"))]),
            ElementCreatingPipeline::new(ElementCreatingCommand::FromReplaced(list("abbr")), None),
        ))
    );
}

#[test]
fn parse_string_pipeline_with_value_processing() {
    let parsed = grammar::string_creating_pipeline(
        r#"USE-ELEMENT | GET-ATTR{id} | REGEX-REPLACE{'\W' ↤ "_"} | TO-UPPER | TO-LOWER | ADD-PREFIX{'id-'}"#,
    );
    assert_eq!(
        parsed,
        Ok(StringValueCreatingPipeline::with_value_processing(
            ElementSelectingCommand::UseElement,
            ValueExtractingCommand::GetAttribute("id"),
            vec![
                ValueProcessingCommand::RegexReplace("\\W", "_"),
                ValueProcessingCommand::ToUpper,
                ValueProcessingCommand::ToLower,
                ValueProcessingCommand::AddPrefix("id-"),
            ],
        ))
    );
}

#[test]
fn parse_unknown_value_processing_is_refused() {
    assert!(grammar::string_creating_pipeline("USE-ELEMENT | GET-ATTR{id} | TO-TITLE").is_err());
}
