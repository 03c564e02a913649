use html_streaming_editor::element_processing::ElementProcessingCommand;
use html_streaming_editor::execution::{CommandError, LoadedFile, PipelineError};
use html_streaming_editor::string_creating::ValueProcessingCommand;
use html_streaming_editor::values::{escape_dashes, escape_newlines};
use html_streaming_editor::{HtmlStreamingEditor, StreamingEditorError};

const PAGE: &str = r#"<div id="top"><p id="a" class="x">one</p><p id="b">two</p><ul><li>1</li><li>2</li></ul></div>"#;

fn no_files() -> Vec<LoadedFile> {
    Vec::new()
}

fn run(command: &str) -> Result<String, StreamingEditorError> {
    HtmlStreamingEditor::new(String::from(PAGE)).run(command, &no_files())
}

#[test]
fn newlines_are_written_as_backslash_n() {
    assert_eq!(escape_newlines("a\nb\n"), String::from("a\\nb\\n"));
    assert_eq!(escape_newlines(""), String::new());
}

#[test]
fn double_dashes_are_written_as_hex_escapes() {
    assert_eq!(escape_dashes("a--b---c"), String::from("a\\x2D\\x2Db\\x2D\\x2D-c"));
    assert_eq!(escape_dashes("-"), String::from("-"));
}

#[test]
fn a_selector_list_finds_each_element_once() {
    let result = run("EXTRACT-ELEMENT{#a, p, .x}").unwrap();
    assert_eq!(result, String::from(r#"<p class="x" id="a">one</p><p id="b">two</p>"#));
}

#[test]
fn for_each_hands_on_its_input() {
    let result = run("EXTRACT-ELEMENT{ul} | FOR-EACH{li ↦ CLEAR-CONTENT}").unwrap();
    assert_eq!(result, String::from("<ul><li></li><li></li></ul>"));
}

#[test]
fn clear_content_leaves_no_children() {
    let result = run("EXTRACT-ELEMENT{div} | CLEAR-CONTENT").unwrap();
    assert_eq!(result, String::from(r#"<div id="top"></div>"#));
}

#[test]
fn removed_elements_are_gone_from_the_output() {
    let result = run("EXTRACT-ELEMENT{div} | REMOVE-ELEMENT{p, li}").unwrap();
    assert_eq!(result, String::from(r#"<div id="top"><ul></ul></div>"#));
}

#[test]
fn written_attribute_is_read_back() {
    let result = run("EXTRACT-ELEMENT{#b} | SET-ATTR{title ↤ 'x'} | SET-ATTR{title ↤ 'y'}").unwrap();
    assert_eq!(result, String::from(r#"<p id="b" title="y">two</p>"#));
}

#[test]
fn removed_attribute_is_gone_and_others_stay() {
    let result = run("EXTRACT-ELEMENT{#a} | CLEAR-ATTR{class}").unwrap();
    assert_eq!(result, String::from(r#"<p id="a">one</p>"#));
}

#[test]
fn attribute_values_are_escaped() {
    let result = run(r#"EXTRACT-ELEMENT{#b} | SET-ATTR{title ↤ 'say "hi" & <go>'}"#).unwrap();
    assert_eq!(
        result,
        String::from(r#"<p id="b" title="say &quot;hi&quot; &amp; &lt;go&gt;">two</p>"#)
    );
}

#[test]
fn text_content_is_set_as_a_single_escaped_text() {
    let result = run("EXTRACT-ELEMENT{div} | SET-TEXT-CONTENT{'<b>'}").unwrap();
    assert_eq!(result, String::from(r#"<div id="top">&lt;b&gt;</div>"#));
}

#[test]
fn added_comment_is_the_last_child() {
    let result = run("EXTRACT-ELEMENT{#a} | ADD-COMMENT{'a--b'}").unwrap();
    assert_eq!(result, String::from("<p class=\"x\" id=\"a\">one<!-- a\\x2D\\x2Db --></p>"));
}

#[test]
fn added_text_is_the_last_child() {
    let result = run("EXTRACT-ELEMENT{#a} | ADD-TEXT-CONTENT{' & more'}").unwrap();
    assert_eq!(result, String::from(r#"<p class="x" id="a">one &amp; more</p>"#));
}

#[test]
fn a_pipeline_runs_its_commands_in_order() {
    let both = run("EXTRACT-ELEMENT{ul} | EXTRACT-ELEMENT{li}").unwrap();
    assert_eq!(both, String::from("<li>1</li><li>2</li>"));
}

#[test]
fn pseudo_classes_are_refused_with_the_index_of_the_command() {
    let result = run("EXTRACT-ELEMENT{div} | EXTRACT-ELEMENT{li:first-child}");
    match result {
        Err(StreamingEditorError::RunningPipelineFailed(PipelineError::CommandFailed { index, source })) => {
            assert_eq!(index, 1);
            assert!(matches!(source, CommandError::UnsupportedSelector));
        }
        other => panic!("unexpected result: {:?}", other),
    }
}

#[test]
fn a_malformed_pipeline_is_refused() {
    let result = run("EXTRACT-ELEMENT{div");
    assert!(matches!(result, Err(StreamingEditorError::ParsingPipelineFailed(_))));
}

#[test]
fn an_unreadable_file_is_reported() {
    let files = vec![LoadedFile {
        path: String::from("missing.html"),
        content: Err(String::from("not found")),
    }];
    let result = HtmlStreamingEditor::new(String::from(PAGE))
        .run(r#"EXTRACT-ELEMENT{#a} | ADD-ELEMENT{FROM-FILE{'missing.html'}}"#, &files);
    match result {
        Err(StreamingEditorError::RunningPipelineFailed(PipelineError::CommandFailed { index, source })) => {
            assert_eq!(index, 1);
            match source {
                CommandError::SubpipelineFailed(inner) => match *inner {
                    PipelineError::CommandFailed { index, source } => {
                        assert_eq!(index, 0);
                        assert!(matches!(source, CommandError::ReadingCommandInputFailed(ref m) if m == "not found"));
                    }
                },
                other => panic!("unexpected error: {:?}", other),
            }
        }
        other => panic!("unexpected result: {:?}", other),
    }
}

#[test]
fn a_file_without_elements_is_reported() {
    let files = vec![LoadedFile {
        path: String::from("text.html"),
        content: Ok(String::from("only text")),
    }];
    let result = HtmlStreamingEditor::new(String::from(PAGE))
        .run(r#"EXTRACT-ELEMENT{#a} | ADD-ELEMENT{FROM-FILE{'text.html'}}"#, &files);
    match result {
        Err(StreamingEditorError::RunningPipelineFailed(PipelineError::CommandFailed { source, .. })) => {
            match source {
                CommandError::SubpipelineFailed(inner) => match *inner {
                    PipelineError::CommandFailed { source, .. } => {
                        assert!(matches!(source, CommandError::LoadingParsedCommandHtmlFailed));
                    }
                },
                other => panic!("unexpected error: {:?}", other),
            }
        }
        other => panic!("unexpected result: {:?}", other),
    }
}

#[test]
fn an_invalid_regex_is_refused() {
    let command = ValueProcessingCommand::RegexReplace("(", "x");
    let result = command.execute(&vec![String::from("abc")]);
    assert!(matches!(result, Err(CommandError::ParsingRegexFailed)));
}

#[test]
fn regex_replace_rewrites_every_match() {
    let command = ValueProcessingCommand::RegexReplace("[0-9]+", "#");
    let result = command
        .execute(&vec![String::from("a1b22c333"), String::new()])
        .unwrap();
    assert_eq!(result, vec![String::from("a#b#c#"), String::new()]);
}

#[test]
fn case_changes_cover_non_ascii_letters() {
    let lower = ValueProcessingCommand::ToLower
        .execute(&vec![String::from("ÄÖÜ Straße")])
        .unwrap();
    assert_eq!(lower, vec![String::from("äöü straße")]);
    let upper = ValueProcessingCommand::ToUpper
        .execute(&vec![String::from("äöü straße")])
        .unwrap();
    assert_eq!(upper, vec![String::from("ÄÖÜ STRASSE")]);
}

#[test]
fn replaced_element_makes_way_for_the_new_ones() {
    let result = run("EXTRACT-ELEMENT{div} | REPLACE{#b ↤ QUERY-REPLACED{li} }").unwrap();
    assert_eq!(
        result,
        String::from(r#"<div id="top"><p class="x" id="a">one</p><ul><li>1</li><li>2</li></ul></div>"#)
    );
    let result = run("EXTRACT-ELEMENT{div} | REPLACE{#b ↤ CREATE-ELEMENT{span} | SET-ATTR{id ↤ 'new'}}").unwrap();
    assert_eq!(
        result,
        String::from(r#"<div id="top"><p class="x" id="a">one</p><span id="new"></span><ul><li>1</li><li>2</li></ul></div>"#)
    );
}

#[test]
fn every_copy_of_a_replacement_is_put_in_place() {
    let result = run("EXTRACT-ELEMENT{ul} | REPLACE{li ↤ CREATE-ELEMENT{b}}").unwrap();
    assert_eq!(result, String::from("<ul><b></b><b></b></ul>"));
}

#[test]
fn windows_line_breaks_count_as_whitespace() {
    let result = run("EXTRACT-ELEMENT{ul}\r\n| EXTRACT-ELEMENT{li}").unwrap();
    assert_eq!(result, String::from("<li>1</li><li>2</li>"));
}

#[test]
fn pipes_may_have_any_whitespace_around_them() {
    let result = run("EXTRACT-ELEMENT{ul}\n    |   EXTRACT-ELEMENT{li}|EXTRACT-ELEMENT{li}").unwrap();
    assert_eq!(result, String::from("<li>1</li><li>2</li>"));
    let nested = run("EXTRACT-ELEMENT{#a} | SET-ATTR{title ↤ USE-ELEMENT\n| GET-ATTR{id}}").unwrap();
    assert_eq!(nested, String::from(r#"<p class="x" id="a" title="a">one</p>"#));
}

#[test]
fn commands_add_up_to_a_list() {
    let two = ElementProcessingCommand::ClearContent + ElementProcessingCommand::ClearAttribute("id");
    assert_eq!(
        two,
        vec![ElementProcessingCommand::ClearContent, ElementProcessingCommand::ClearAttribute("id")]
    );
    let more = ElementProcessingCommand::ClearContent + Some(vec![ElementProcessingCommand::ClearAttribute("id")]);
    assert_eq!(
        more,
        vec![ElementProcessingCommand::ClearContent, ElementProcessingCommand::ClearAttribute("id")]
    );
    let one = ElementProcessingCommand::ClearContent + None;
    assert_eq!(one, vec![ElementProcessingCommand::ClearContent]);
}

#[test]
fn hyphen_prefix_comparison_matches_exact_values_and_hyphenated_prefixes() {
    let html = r#"<div><p lang="en-US">a</p><p lang="en">b</p><p lang="english">c</p><p lang="en-GB">d</p></div>"#;
    let result = HtmlStreamingEditor::new(String::from(html))
        .run("EXTRACT-ELEMENT{p[lang|='en-US']}", &no_files())
        .unwrap();
    assert_eq!(result, String::from(r#"<p lang="en-US">a</p>"#));
    let result = HtmlStreamingEditor::new(String::from(html))
        .run("EXTRACT-ELEMENT{p[lang|='en']}", &no_files())
        .unwrap();
    assert_eq!(
        result,
        String::from(r#"<p lang="en-US">a</p><p lang="en">b</p><p lang="en-GB">d</p>"#)
    );
}

#[test]
fn comments_keep_what_is_not_the_spaced_delimiters() {
    let result = HtmlStreamingEditor::new(String::from("<p>a<!--x--><!-- y --><!-- --></p>"))
        .run("EXTRACT-ELEMENT{p}", &no_files())
        .unwrap();
    assert_eq!(result, String::from("<p>a<!-- <!--x--> --><!-- y --><!--  --></p>"));
}

#[test]
fn attributes_come_out_ordered_by_name_whatever_their_number() {
    let html = r#"<div><p z="1" y="2" x="3" w="4" id="i" class="c">t</p></div>"#;
    let result = HtmlStreamingEditor::new(String::from(html))
        .run("EXTRACT-ELEMENT{p}", &no_files())
        .unwrap();
    assert_eq!(
        result,
        String::from(r#"<p class="c" id="i" w="4" x="3" y="2" z="1">t</p>"#)
    );
}

#[test]
fn a_repeated_attribute_keeps_its_last_value() {
    let few = HtmlStreamingEditor::new(String::from(r#"<div><p x="1" x="2">t</p></div>"#))
        .run("EXTRACT-ELEMENT{p}", &no_files())
        .unwrap();
    assert_eq!(few, String::from(r#"<p x="2">t</p>"#));
    let many = HtmlStreamingEditor::new(String::from(r#"<div><p a="1" b="2" c="3" a="4">t</p></div>"#))
        .run("EXTRACT-ELEMENT{p}", &no_files())
        .unwrap();
    assert_eq!(many, String::from(r#"<p a="4" b="2" c="3">t</p>"#));
}
