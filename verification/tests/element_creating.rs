use html_streaming_editor::css::{CssSelector, CssSelectorList, CssSelectorPath};
use html_streaming_editor::element_creating::ElementCreatingCommand;
use html_streaming_editor::execution::{load_html, LoadedFile};
use html_streaming_editor::html::attributes::AttributeMap;
use html_streaming_editor::html::tree::{HtmlContent, HtmlTag, HtmlTree};

const SOURCE_HTML: &str = r#"<html lang="en">
<head>
    <meta charset="UTF-8">
    <title>LOAD-FILE Source</title>
</head>
<body>
    <div>Some other stuff</div>
    <ul id="first">
        <li>1</li>
        <li>2</li>
        <li>3</li>
    </ul>
    <ul id="second">
        <li>a</li>
        <li><!-- Some Comment -->b</li>
        <li><em class="intense">c</em></li>
    </ul>
    <!-- not taken into account -->
</body>
</html>
"#;

fn files() -> Vec<LoadedFile> {
    vec![LoadedFile {
        path: String::from("tests/source.html"),
        content: Ok(String::from(SOURCE_HTML)),
    }]
}

#[test]
fn create_element_builds_new_element_on_empty_input() {
    let command = ElementCreatingCommand::CreateElement("div");
    let mut tree = HtmlTree::new();

    let mut result = command.execute(&mut tree, &vec![], &files()).unwrap();

    assert_eq!(result.len(), 1);

    let first_result = result.pop().unwrap();
    assert_eq!(*tree.content(first_result), HtmlContent::Tag(HtmlTag::of_name("div")));
}

#[test]
fn create_element_builds_new_element_ignoring_input() {
    let command = ElementCreatingCommand::CreateElement("div");
    let mut tree = HtmlTree::new();
    let root = tree.create(HtmlContent::Tag(HtmlTag::of_name("html")));

    let mut result = command.execute(&mut tree, &vec![root], &files()).unwrap();

    assert_eq!(result.len(), 1);

    let first_result = result.pop().unwrap();
    assert_eq!(*tree.content(first_result), HtmlContent::Tag(HtmlTag::of_name("div")));
}

#[test]
fn load_file_read_file_content() {
    let command = ElementCreatingCommand::FromFile("tests/source.html");
    let mut tree = HtmlTree::new();
    let mut result = command.execute(&mut tree, &vec![], &files()).unwrap();

    assert_eq!(result.len(), 1);

    let first_result = result.pop().unwrap();
    assert_eq!(
        tree.outer_html(first_result),
        r#"<html lang="en">
<head>
    <meta charset="UTF-8">
    <title>LOAD-FILE Source</title>
</head>
<body>
    <div>Some other stuff</div>
    <ul id="first">
        <li>1</li>
        <li>2</li>
        <li>3</li>
    </ul>
    <ul id="second">
        <li>a</li>
        <li><!-- Some Comment -->b</li>
        <li><em class="intense">c</em></li>
    </ul>
    <!-- not taken into account -->
</body>
</html>"#
    );
}

#[test]
fn query_replaced_returns_matching_descendent_of_input() {
    let command = ElementCreatingCommand::FromReplaced(CssSelectorList::new(vec![
        CssSelectorPath::single(CssSelector::for_class("test-source")),
    ]));
    let mut tree = HtmlTree::new();
    let root = load_html(
        &mut tree,
        r#"<div id="replaced"><p class="first"></p><aside class="test-source"></aside></div>"#,
    )
    .unwrap();

    let mut result = command.execute(&mut tree, &vec![root], &files()).unwrap();

    assert_eq!(result.len(), 1);

    let first_result = result.pop().unwrap();
    assert_eq!(
        *tree.content(first_result),
        HtmlContent::Tag(HtmlTag {
            name: String::from("aside"),
            attributes: AttributeMap::from_pairs(vec![(
                String::from("class"),
                String::from("test-source")
            )])
        })
    );
}

#[test]
fn query_replaced_returns_all_matching_descendents_of_input() {
    let command = ElementCreatingCommand::FromReplaced(CssSelectorList::new(vec![
        CssSelectorPath::single(CssSelector::for_class("test-source")),
    ]));
    let mut tree = HtmlTree::new();
    let root = load_html(
        &mut tree,
        r#"<div id="replaced">
    <p class="first">
        <em class="test-source">Content 1</em>
    </p>
    <aside class="test-source">Content 2</aside>
    <div>
        <div></div>
        <div><img src="" class="test-source"></div>
        <div></div>
    </div>
</div>"#,
    )
    .unwrap();

    let result = command.execute(&mut tree, &vec![root], &files()).unwrap();
    let result = result.iter().map(|n| tree.outer_html(*n)).collect::<Vec<_>>();

    assert_eq!(result.len(), 3);
    assert!(result.contains(&String::from(r#"<em class="test-source">Content 1</em>"#)));
    assert!(result.contains(&String::from(
        r#"<aside class="test-source">Content 2</aside>"#
    )));
    assert!(result.contains(&String::from(r#"<img class="test-source" src="">"#)));
}

#[test]
fn query_replaced_returns_empty_on_no_match() {
    let command = ElementCreatingCommand::FromReplaced(CssSelectorList::new(vec![
        CssSelectorPath::single(CssSelector::for_class("test-source")),
    ]));
    let mut tree = HtmlTree::new();
    let root = load_html(
        &mut tree,
        r#"<div id="replaced"><p class="first"></p><aside></aside></div>"#,
    )
    .unwrap();

    let result = command.execute(&mut tree, &vec![root], &files()).unwrap();

    assert_eq!(result.len(), 0);
}

#[test]
fn query_replaced_returns_empty_on_empty_input() {
    let command = ElementCreatingCommand::FromReplaced(CssSelectorList::new(vec![
        CssSelectorPath::single(CssSelector::for_class("test-source")),
    ]));
    let mut tree = HtmlTree::new();

    let result = command.execute(&mut tree, &vec![], &files()).unwrap();

    assert_eq!(result.len(), 0);
}
