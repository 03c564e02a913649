use html_streaming_editor::{HtmlStreamingEditor, LoadedFile, StreamingEditorError};

const HTML_INPUT: &str = r#"<html>
    <head></head>
    <body>
        <h1>Title</h1>
        <p id="first-para">Some first text</p>
        <p id="second-para">Some more text, even with an <img src=""></p>
        <p id="third-para">Third text of <abbr>HTML</abbr>, but no <abbr>CSS</abbr></p>
        <ul id="list">
            <li id="item-1">1</li>
            <li id="item-2">2</li>
            <li id="item-3">3</li>
        </ul>
    </body>
</html>"#;

fn files() -> Vec<LoadedFile> {
    vec![
        LoadedFile {
            path: String::from("tests/source.html"),
            content: Ok(String::from(SOURCE_HTML)),
        },
        LoadedFile {
            path: String::from("tests/single_div.html"),
            content: Ok(String::from("<div class=\"new\">This is new</div>\n")),
        },
    ]
}

const SOURCE_HTML: &str = r#"<html lang="en">
<head>
    <meta charset="UTF-8">
    <title>LOAD-FILE Source</title>
</head>
<body>
    <div>Some other stuff</div>
    <ul id="first">
        <li>1</li>
        <li>2</li>
        <li>3</li>
    </ul>
    <ul id="second">
        <li>a</li>
        <li><!-- Some Comment -->b</li>
        <li><em class="intense">c</em></li>
    </ul>
    <!-- not taken into account -->
</body>
</html>
"#;

#[test]
fn add_simple_div_to_first_p_content() -> Result<(), StreamingEditorError> {
    let command = "EXTRACT-ELEMENT{#first-para} | ADD-ELEMENT{ CREATE-ELEMENT{div} }";

    let hse = HtmlStreamingEditor::new(String::from(HTML_INPUT));
    let result_string = hse.run(command, &files())?;

    assert_eq!(
        result_string,
        String::from(r#"<p id="first-para">Some first text<div></div></p>"#)
    );

    Ok(())
}

#[test]
fn add_two_divs_to_first_p_content() -> Result<(), StreamingEditorError> {
    let command = "EXTRACT-ELEMENT{#first-para} | ADD-ELEMENT{ CREATE-ELEMENT{div} } | ADD-ELEMENT{ CREATE-ELEMENT{div} }";

    let hse = HtmlStreamingEditor::new(String::from(HTML_INPUT));
    let result_string = hse.run(command, &files())?;

    assert_eq!(
        result_string,
        String::from(r#"<p id="first-para">Some first text<div></div><div></div></p>"#)
    );

    Ok(())
}

#[test]
fn add_div_with_attr_to_first_p_content() -> Result<(), StreamingEditorError> {
    let command =
        "EXTRACT-ELEMENT{#first-para} | ADD-ELEMENT{ CREATE-ELEMENT{div} | SET-ATTR{id ↤ 'new'} }";

    let hse = HtmlStreamingEditor::new(String::from(HTML_INPUT));
    let result_string = hse.run(command, &files())?;

    assert_eq!(
        result_string,
        String::from(r#"<p id="first-para">Some first text<div id="new"></div></p>"#)
    );

    Ok(())
}
