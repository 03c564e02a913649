use html_streaming_editor::{HtmlStreamingEditor, LoadedFile, StreamingEditorError};

const HTML_INPUT: &str = r#"<html>
    <head>
        <meta name="test" content="some value">
    </head>
    <body>
        <h1>Title</h1>
        <p id="first-para">Some first text</p>
        <p id="second-para">Some more text, even with an <img src=""></p>
        <p id="third-para">Third text of <abbr>HTML</abbr>, but no <abbr>CSS</abbr></p>
        <ul id="list">
            <li id="item-1">1</li>
            <li id="item-2">2</li>
            <li id="item-3">3</li>
        </ul>
    </body>
</html>"#;

fn files() -> Vec<LoadedFile> {
    vec![
        LoadedFile {
            path: String::from("tests/source.html"),
            content: Ok(String::from(SOURCE_HTML)),
        },
        LoadedFile {
            path: String::from("tests/single_div.html"),
            content: Ok(String::from("<div class=\"new\">This is new</div>\n")),
        },
    ]
}

const SOURCE_HTML: &str = r#"<html lang="en">
<head>
    <meta charset="UTF-8">
    <title>LOAD-FILE Source</title>
</head>
<body>
    <div>Some other stuff</div>
    <ul id="first">
        <li>1</li>
        <li>2</li>
        <li>3</li>
    </ul>
    <ul id="second">
        <li>a</li>
        <li><!-- Some Comment -->b</li>
        <li><em class="intense">c</em></li>
    </ul>
    <!-- not taken into account -->
</body>
</html>
"#;

#[test]
fn overwrite_first_p_id() -> Result<(), StreamingEditorError> {
    let command = "EXTRACT-ELEMENT{#first-para} | SET-ATTR{id ↤ 'new-id'}";

    let hse = HtmlStreamingEditor::new(String::from(HTML_INPUT));
    let result_string = hse.run(command, &files())?;

    assert_eq!(
        result_string,
        String::from(r#"<p id="new-id">Some first text</p>"#)
    );

    Ok(())
}

#[test]
fn add_attr_to_first_p() -> Result<(), StreamingEditorError> {
    let command = r#"EXTRACT-ELEMENT{#first-para} | SET-ATTR{data-test ↤ "some value"}"#;

    let hse = HtmlStreamingEditor::new(String::from(HTML_INPUT));
    let result_string = hse.run(command, &files())?;

    assert_eq!(
        result_string,
        String::from(r#"<p data-test="some value" id="first-para">Some first text</p>"#)
    );

    Ok(())
}

#[test]
fn set_attr_with_double_quotes() -> Result<(), StreamingEditorError> {
    let command = r#"EXTRACT-ELEMENT{#first-para} | SET-ATTR{data-test ↤ 'some "value"'}"#;

    let hse = HtmlStreamingEditor::new(String::from(HTML_INPUT));
    let result_string = hse.run(command, &files())?;

    assert_eq!(
        result_string,
        String::from(
            r#"<p data-test="some &quot;value&quot;" id="first-para">Some first text</p>"#
        )
    );

    Ok(())
}

#[test]
fn set_attr_with_line_break() -> Result<(), StreamingEditorError> {
    let command = "EXTRACT-ELEMENT{#first-para} | SET-ATTR{data-test ↤ 'some \nvalue'}";

    let hse = HtmlStreamingEditor::new(String::from(HTML_INPUT));
    let result_string = hse.run(command, &files())?;

    assert_eq!(
        result_string,
        String::from(r#"<p data-test="some \nvalue" id="first-para">Some first text</p>"#)
    );

    Ok(())
}

#[test]
fn set_attr_from_other_attr() -> Result<(), StreamingEditorError> {
    let command = "EXTRACT-ELEMENT{#first-para} | SET-ATTR{data-test ↤ USE-ELEMENT | GET-ATTR{id}}";

    let hse = HtmlStreamingEditor::new(String::from(HTML_INPUT));
    let result_string = hse.run(command, &files())?;

    assert_eq!(
        result_string,
        String::from(r#"<p data-test="first-para" id="first-para">Some first text</p>"#)
    );

    Ok(())
}

#[test]
fn set_attr_from_attr_of_sibling() -> Result<(), StreamingEditorError> {
    let command =
        "FOR-EACH{#first-para ↦ SET-ATTR{data-test ↤ QUERY-PARENT{#second-para} | GET-ATTR{id}}} | EXTRACT-ELEMENT{#first-para}";

    let hse = HtmlStreamingEditor::new(String::from(HTML_INPUT));
    let result_string = hse.run(command, &files())?;

    assert_eq!(
        result_string,
        String::from(r#"<p data-test="second-para" id="first-para">Some first text</p>"#)
    );

    Ok(())
}

#[test]
fn set_attr_from_attr_of_head_meta() -> Result<(), StreamingEditorError> {
    let command = "FOR-EACH{#first-para ↦ SET-ATTR{data-test ↤ QUERY-ROOT{meta[name='test']} | GET-ATTR{content}}}";

    let hse = HtmlStreamingEditor::new(String::from(HTML_INPUT));
    let result_string = hse.run(command, &files())?;

    assert_eq!(
        result_string,
        String::from(
            r#"<html>
    <head>
        <meta content="some value" name="test">
    </head>
    <body>
        <h1>Title</h1>
        <p data-test="some value" id="first-para">Some first text</p>
        <p id="second-para">Some more text, even with an <img src=""></p>
        <p id="third-para">Third text of <abbr>HTML</abbr>, but no <abbr>CSS</abbr></p>
        <ul id="list">
            <li id="item-1">1</li>
            <li id="item-2">2</li>
            <li id="item-3">3</li>
        </ul>
    </body>
</html>"#
        )
    );

    Ok(())
}

#[test]
fn replace_and_characters_in_first_id() -> Result<(), StreamingEditorError> {
    let command = "EXTRACT-ELEMENT{#first-para} | SET-ATTR{id ↤ USE-ELEMENT | GET-ATTR{id} | REGEX-REPLACE{'\\W' ↤ '_'} }";
    let input = String::from(HTML_INPUT);
    let hse = HtmlStreamingEditor::new(input);

    let result_string = hse.run(command, &files())?;

    assert_eq!(
        result_string,
        String::from(r#"<p id="first_para">Some first text</p>"#)
    );

    Ok(())
}

#[test]
fn uppercase_first_id() -> Result<(), StreamingEditorError> {
    let command =
        "EXTRACT-ELEMENT{#first-para} | SET-ATTR{id ↤ USE-ELEMENT | GET-ATTR{id} | TO-UPPER }";
    let input = String::from(HTML_INPUT);
    let hse = HtmlStreamingEditor::new(input);

    let result_string = hse.run(command, &files())?;

    assert_eq!(
        result_string,
        String::from(r#"<p id="FIRST-PARA">Some first text</p>"#)
    );

    Ok(())
}

#[test]
fn set_attr_from_other_attr_but_uppercase() -> Result<(), StreamingEditorError> {
    let command = "EXTRACT-ELEMENT{#first-para} | SET-ATTR{data-test ↤ USE-ELEMENT | GET-ATTR{id} | TO-UPPER}";

    let input = String::from(HTML_INPUT);
    let hse = HtmlStreamingEditor::new(input);

    let result_string = hse.run(command, &files())?;

    assert_eq!(
        result_string,
        String::from(r#"<p data-test="FIRST-PARA" id="first-para">Some first text</p>"#)
    );

    Ok(())
}

#[test]
fn set_first_word_lowercased_as_id() -> Result<(), StreamingEditorError> {
    let command = r#"EXTRACT-ELEMENT{#first-para} | SET-ATTR{id ↤ USE-ELEMENT | GET-TEXT-CONTENT | REGEX-REPLACE{"^(\w+).*" ↤ "$1"} | TO-LOWER }"#;

    let input = String::from(HTML_INPUT);
    let hse = HtmlStreamingEditor::new(input);

    let result_string = hse.run(command, &files())?;

    assert_eq!(
        result_string,
        String::from(r#"<p id="some">Some first text</p>"#)
    );

    Ok(())
}

#[test]
fn set_first_word_prefixed_as_id() -> Result<(), StreamingEditorError> {
    let command = r#"EXTRACT-ELEMENT{#first-para} | SET-ATTR{id ↤ USE-ELEMENT | GET-TEXT-CONTENT | REGEX-REPLACE{"^(\w+).*" ↤ "$1"} | ADD-PREFIX{"id-"} }"#;

    let input = String::from(HTML_INPUT);
    let hse = HtmlStreamingEditor::new(input);

    let result_string = hse.run(command, &files())?;

    assert_eq!(
        result_string,
        String::from(r#"<p id="id-Some">Some first text</p>"#)
    );

    Ok(())
}

