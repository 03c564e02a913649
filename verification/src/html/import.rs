//! Loading markup parsed by `tl` into the arena.
use vstd::prelude::*;
use crate::html::attributes::{AttributeMap, lemma_sorted_unique, lookup, put, sorted};
use crate::laws::{law_attribute_read_after_write, law_attribute_write_keeps_order};
use crate::html::render::concat_all;
use crate::html::matching::{occurs_at, occurs_at_exec};
use crate::text::chars_of;
use crate::html::tree::{
    ContentModel, Fragment, HTMLVersion, HtmlContent, HtmlDocument, HtmlTag, HtmlTree, NodeModel,
    closed, fragment, lemma_fragment, lemma_fragment_frame, lemma_detach_wf, detach_model, wf,
    append_model,
};

verus! {

broadcast use vstd::string::group_string_axioms;

#[verifier::external_type_specification]
#[verifier::external_body]
pub struct ExVDom<'a>(tl::VDom<'a>);

#[verifier::external_type_specification]
#[verifier::external_body]
pub struct ExParseError(tl::ParseError);

/// A document as `tl` parsed it, with the text it was parsed from.
pub struct ParsedHtml<'a> {
    dom: tl::VDom<'a>,
    source: Ghost<Seq<char>>,
}

impl<'a> View for ParsedHtml<'a> {
    type V = Seq<char>;

    closed spec fn view(&self) -> Seq<char> {
        self.source@
    }
}

/// One node as `tl` parsed it: an element by its name, a text, or a comment with its
/// delimiters.
pub enum ParsedNode {
    Tag(String),
    Raw(String),
    Comment(String),
}

/// Model of a parsed node.
pub enum ParsedNodeModel {
    Tag(Seq<char>),
    Raw(Seq<char>),
    Comment(Seq<char>),
}

impl View for ParsedNode {
    type V = ParsedNodeModel;

    open spec fn view(&self) -> ParsedNodeModel {
        match self {
            ParsedNode::Tag(s) => ParsedNodeModel::Tag(s@),
            ParsedNode::Raw(s) => ParsedNodeModel::Raw(s@),
            ParsedNode::Comment(s) => ParsedNodeModel::Comment(s@),
        }
    }
}

/// The nodes `tl` finds in a text (`VDom::nodes`), each indexed by its handle.
pub uninterp spec fn tl_nodes(source: Seq<char>) -> Seq<ParsedNodeModel>;

/// The handles of the top-level nodes `tl` finds in a text (`VDom::children`).
pub uninterp spec fn tl_top(source: Seq<char>) -> Seq<u32>;

/// The HTML version `tl` reads from the document type declaration of a text.
pub uninterp spec fn tl_version(source: Seq<char>) -> Option<HTMLVersion>;

/// The attributes of the element of handle `h`, by name: for each name the value (if any)
/// its last occurrence in the text gives it.
pub uninterp spec fn tl_attribute_map(source: Seq<char>, h: int) -> Map<Seq<char>, Option<Seq<char>>>;

/// The map one gets by entering the pairs one after the other, later ones winning.
pub open spec fn last_wins(s: Seq<(Seq<char>, Option<Seq<char>>)>) -> Map<Seq<char>, Option<Seq<char>>>
    decreases s.len(),
{
    if s.len() == 0 {
        Map::empty()
    } else {
        last_wins(s.drop_last()).insert(s.last().0, s.last().1)
    }
}

/// A name/value pair as values.
pub open spec fn attr_view(a: (String, Option<String>)) -> (Seq<char>, Option<Seq<char>>) {
    (
        a.0@,
        match a.1 {
            Some(v) => Some(v@),
            None => None,
        },
    )
}

/// The handles of the direct children of the element of handle `h` (`HTMLTag::children`).
pub uninterp spec fn tl_children(source: Seq<char>, h: int) -> Seq<u32>;

/// `tl::parse` with the default options. It fails exactly when the text takes more than
/// `u32::MAX` bytes; what it finds is named by the `tl_` functions of the text.
#[verifier::external_body]
pub(crate) fn parse_html<'a>(text: &'a str) -> (r: Result<ParsedHtml<'a>, tl::ParseError>)
    ensures
        r is Err <==> vstd::utf8::encode_utf8(text@).len() > u32::MAX,
        r matches Ok(p) ==> p@ == text@,
{
    match tl::parse(text, tl::ParserOptions::default()) {
        Ok(dom) => Ok(ParsedHtml { dom, source: Ghost(text@) }),
        Err(e) => Err(e),
    }
}

/// `VDom::nodes`, its length.
#[verifier::external_body]
fn node_count(p: &ParsedHtml) -> (r: usize)
    ensures
        r == tl_nodes(p@).len(),
{
    p.dom.nodes().len()
}

/// `VDom::children`, its length.
#[verifier::external_body]
fn top_count(p: &ParsedHtml) -> (r: usize)
    ensures
        r == tl_top(p@).len(),
{
    p.dom.children().len()
}

/// `VDom::children`, the `k`th handle.
#[verifier::external_body]
fn top_handle(p: &ParsedHtml, k: usize) -> (r: u32)
    requires
        k < tl_top(p@).len(),
    ensures
        r == tl_top(p@)[k as int],
{
    p.dom.children()[k].get_inner()
}

/// `VDom::version`.
#[verifier::external_body]
fn version(p: &ParsedHtml) -> (r: Option<HTMLVersion>)
    ensures
        r == tl_version(p@),
{
    match p.dom.version() {
        None => None,
        Some(tl::HTMLVersion::HTML5) => Some(HTMLVersion::HTML5),
        Some(tl::HTMLVersion::StrictHTML401) => Some(HTMLVersion::StrictHTML401),
        Some(tl::HTMLVersion::TransitionalHTML401) => Some(HTMLVersion::TransitionalHTML401),
        Some(tl::HTMLVersion::FramesetHTML401) => Some(HTMLVersion::FramesetHTML401),
    }
}

/// `VDom::nodes`, the node of handle `h`: the name of an element, or the bytes of a text
/// or of a comment, read as UTF-8.
#[verifier::external_body]
fn node(p: &ParsedHtml, h: u32) -> (r: ParsedNode)
    requires
        h < tl_nodes(p@).len(),
    ensures
        r@ == tl_nodes(p@)[h as int],
{
    match &p.dom.nodes()[h as usize] {
        tl::Node::Tag(t) => ParsedNode::Tag(t.name().as_utf8_str().into_owned()),
        tl::Node::Raw(b) => ParsedNode::Raw(b.as_utf8_str().into_owned()),
        tl::Node::Comment(b) => ParsedNode::Comment(b.as_utf8_str().into_owned()),
    }
}

/// `HTMLTag::attributes`: the pairs it iterates over, each name with its value if it has
/// one. tl keeps up to two attributes in the order of the text and more in a `HashMap`
/// that holds one value per name, the last one written; so entering the pairs in the order
/// given, later ones winning, gives the named map. The order itself, which follows the
/// seed of the `HashMap`, is left unsaid.
#[verifier::external_body]
fn attributes(p: &ParsedHtml, h: u32) -> (r: Vec<(String, Option<String>)>)
    requires
        h < tl_nodes(p@).len(),
        tl_nodes(p@)[h as int] is Tag,
    ensures
        last_wins(r@.map_values(|a: (String, Option<String>)| attr_view(a))) == tl_attribute_map(
            p@,
            h as int,
        ),
{
    let mut r = Vec::new();
    for (key, value) in p.dom.nodes()[h as usize].as_tag().unwrap().attributes().iter() {
        let value = match value {
            Some(v) => Some(v.into_owned()),
            None => None,
        };
        r.push((key.into_owned(), value));
    }
    r
}

/// `HTMLTag::children`, the number of its direct children.
#[verifier::external_body]
fn child_count(p: &ParsedHtml, h: u32) -> (r: usize)
    requires
        h < tl_nodes(p@).len(),
        tl_nodes(p@)[h as int] is Tag,
    ensures
        r == tl_children(p@, h as int).len(),
{
    p.dom.nodes()[h as usize].as_tag().unwrap().children().top().len()
}

/// `HTMLTag::children`, the handle of its `k`th direct child.
#[verifier::external_body]
fn child(p: &ParsedHtml, h: u32, k: usize) -> (r: u32)
    requires
        h < tl_nodes(p@).len(),
        tl_nodes(p@)[h as int] is Tag,
        k < tl_children(p@, h as int).len(),
    ensures
        r == tl_children(p@, h as int)[k as int],
{
    p.dom.nodes()[h as usize].as_tag().unwrap().children().top()[k].get_inner()
}

/// `s` without all leading copies of `p`, as `str::trim_start_matches` gives it.
pub open spec fn trim_start(s: Seq<char>, p: Seq<char>) -> Seq<char>
    decreases s.len(),
{
    if p.len() > 0 && s.len() >= p.len() && s.take(p.len() as int) == p {
        trim_start(s.skip(p.len() as int), p)
    } else {
        s
    }
}

/// `s` without all trailing copies of `p`, as `str::trim_end_matches` gives it.
pub open spec fn trim_end(s: Seq<char>, p: Seq<char>) -> Seq<char>
    decreases s.len(),
{
    if p.len() > 0 && s.len() >= p.len() && s.skip(s.len() - p.len()) == p {
        trim_end(s.take(s.len() - p.len()), p)
    } else {
        s
    }
}

/// `<!-- ` with its space.
pub open spec fn comment_open() -> Seq<char> {
    seq!['<', '!', '-', '-', ' ']
}

/// ` -->` with its space.
pub open spec fn comment_close() -> Seq<char> {
    seq![' ', '-', '-', '>']
}

/// The text of a comment: the raw comment without leading `<!-- ` and trailing ` -->`;
/// the empty comment `<!-- -->` gives the empty text.
pub open spec fn comment_text(raw: Seq<char>) -> Seq<char> {
    if raw == comment_open() + seq!['-', '-', '>'] {
        Seq::empty()
    } else {
        trim_end(trim_start(raw, comment_open()), comment_close())
    }
}

/// The value an attribute gets: its value, or the empty value where it has none.
pub open spec fn attribute_value(v: Option<Seq<char>>) -> Seq<char> {
    match v {
        Some(x) => x,
        None => Seq::empty(),
    }
}

/// `e` lists, ordered by name, exactly the attributes of `m`, each with its value.
pub open spec fn lists_map(e: Seq<(Seq<char>, Seq<char>)>, m: Map<Seq<char>, Option<Seq<char>>>) -> bool {
    &&& sorted(e)
    &&& forall|k: Seq<char>| #[trigger] lookup(e, k) == (if m.dom().contains(k) {
        Some(attribute_value(m[k]))
    } else {
        None
    })
}

/// The attributes of the element of handle `h`, ordered by name; an attribute without
/// value gets the empty value.
pub open spec fn imported_attributes(source: Seq<char>, h: int) -> Seq<(Seq<char>, Seq<char>)> {
    choose|e: Seq<(Seq<char>, Seq<char>)>| lists_map(e, tl_attribute_map(source, h))
}

/// The subtree below the node of handle `h`; `None` where a handle names no node, or a
/// child does not come after its parent.
pub open spec fn imported(source: Seq<char>, h: int) -> Option<Fragment>
    decreases tl_nodes(source).len() - h, 1int, 0int,
{
    if 0 <= h < tl_nodes(source).len() {
        match tl_nodes(source)[h] {
            ParsedNodeModel::Raw(s) => Some(Fragment { content: ContentModel::Text(s), children: seq![] }),
            ParsedNodeModel::Comment(s) => Some(
                Fragment { content: ContentModel::Comment(comment_text(s)), children: seq![] },
            ),
            ParsedNodeModel::Tag(name) => match imported_children(
                source,
                h,
                tl_children(source, h).len() as int,
            ) {
                Some(cs) => Some(
                    Fragment {
                        content: ContentModel::Tag(
                            name,
                            imported_attributes(source, h),
                        ),
                        children: cs,
                    },
                ),
                None => None,
            },
        }
    } else {
        None
    }
}

/// The subtrees below the first `k` children of the element of handle `h`.
pub open spec fn imported_children(source: Seq<char>, h: int, k: int) -> Option<Seq<Fragment>>
    decreases tl_nodes(source).len() - h, 0int, k,
{
    if k <= 0 || !(0 <= h < tl_nodes(source).len()) {
        Some(seq![])
    } else {
        match imported_children(source, h, k - 1) {
            None => None,
            Some(cs) => {
                let c = tl_children(source, h)[k - 1] as int;
                if h < c < tl_nodes(source).len() {
                    match imported(source, c) {
                        Some(f) => Some(cs.push(f)),
                        None => None,
                    }
                } else {
                    None
                }
            },
        }
    }
}

/// The handle of the last top-level element among the first `k` top-level nodes.
pub open spec fn last_top_element(source: Seq<char>, k: int) -> Option<u32>
    decreases k,
{
    if k <= 0 {
        None
    } else {
        let h = tl_top(source)[k - 1];
        if (h as int) < tl_nodes(source).len() && tl_nodes(source)[h as int] is Tag {
            Some(h)
        } else {
            last_top_element(source, k - 1)
        }
    }
}

/// The tree loaded from a text: the last top-level element, inside a document when it
/// is `html`; `None` where there is no such element or it cannot be loaded.
pub open spec fn imported_document(source: Seq<char>) -> Option<Fragment> {
    match last_top_element(source, tl_top(source).len() as int) {
        None => None,
        Some(h) => match imported(source, h as int) {
            None => None,
            Some(f) => if tl_nodes(source)[h as int] == ParsedNodeModel::Tag("html"@) {
                Some(Fragment { content: ContentModel::Document(tl_version(source)), children: seq![f] })
            } else {
                Some(f)
            },
        },
    }
}

/// The arena after the subtree below the node of handle `h` is loaded, and the root of
/// the loaded subtree: a new parentless node, then, child by child, the child's subtree
/// appended to it. `None` where the subtree cannot be loaded.
pub open spec fn load_node_model(t: Seq<NodeModel>, source: Seq<char>, h: int) -> (Seq<NodeModel>, Option<usize>)
    decreases tl_nodes(source).len() - h, 1int, 0int,
{
    if 0 <= h < tl_nodes(source).len() {
        match tl_nodes(source)[h] {
            ParsedNodeModel::Raw(s) => (
                t.push(NodeModel { content: ContentModel::Text(s), parent: None, children: seq![] }),
                Some(t.len() as usize),
            ),
            ParsedNodeModel::Comment(s) => (
                t.push(
                    NodeModel {
                        content: ContentModel::Comment(comment_text(s)),
                        parent: None,
                        children: seq![],
                    },
                ),
                Some(t.len() as usize),
            ),
            ParsedNodeModel::Tag(name) => {
                let t1 = t.push(
                    NodeModel {
                        content: ContentModel::Tag(
                            name,
                            imported_attributes(source, h),
                        ),
                        parent: None,
                        children: seq![],
                    },
                );
                load_children_model(t1, source, h, t.len() as int, tl_children(source, h).len() as int)
            },
        }
    } else {
        (t, None)
    }
}

/// The arena after the subtrees below the first `k` children of the element of handle `h`
/// are loaded and appended to node `r`; `Some(r)` where all of them could be loaded.
pub open spec fn load_children_model(
    t: Seq<NodeModel>,
    source: Seq<char>,
    h: int,
    r: int,
    k: int,
) -> (Seq<NodeModel>, Option<usize>)
    decreases tl_nodes(source).len() - h, 0int, k,
{
    if k <= 0 || !(0 <= h < tl_nodes(source).len()) {
        (t, Some(r as usize))
    } else {
        let (t1, o) = load_children_model(t, source, h, r, k - 1);
        match o {
            None => (t1, None),
            Some(_) => {
                let c = tl_children(source, h)[k - 1] as int;
                if h < c < tl_nodes(source).len() {
                    let (t2, oc) = load_node_model(t1, source, c);
                    match oc {
                        None => (t2, None),
                        Some(cc) => (append_model(t2, r, cc as int), Some(r as usize)),
                    }
                } else {
                    (t1, None)
                }
            },
        }
    }
}

/// The arena after the document of a text is loaded, and its root: the last top-level
/// element, below a new document node when it is `html`.
pub open spec fn load_model(t: Seq<NodeModel>, source: Seq<char>) -> (Seq<NodeModel>, Option<usize>) {
    match last_top_element(source, tl_top(source).len() as int) {
        None => (t, None),
        Some(h) => if tl_nodes(source)[h as int] == ParsedNodeModel::Tag("html"@) {
            let t1 = t.push(
                NodeModel {
                    content: ContentModel::Document(tl_version(source)),
                    parent: None,
                    children: seq![],
                },
            );
            let (t2, o) = load_node_model(t1, source, h as int);
            match o {
                None => (t2, None),
                Some(root) => (append_model(t2, t.len() as int, root as int), Some(t.len() as usize)),
            }
        } else {
            load_node_model(t, source, h as int)
        },
    }
}

/// What loading leaves of the arena: the old nodes unchanged, the new ones closed, the
/// arena consistent.
pub open spec fn extends(t0: Seq<NodeModel>, t: Seq<NodeModel>) -> bool {
    &&& wf(t)
    &&& t0.len() <= t.len()
    &&& t.subrange(0, t0.len() as int) == t0
    &&& closed(t, t0.len() as int, t.len() as int)
}

fn strip_comment(raw: &str) -> (r: String)
    ensures
        r@ == comment_text(raw@),
{
    let cs = chars_of(raw);
    let empty = vec!['<', '!', '-', '-', ' ', '-', '-', '>'];
    if cs.len() == 8 && occurs_at_exec(&cs, &empty, 0) {
        assert(cs@ =~= cs@.subrange(0, 8));
        assert(empty@ =~= comment_open() + seq!['-', '-', '>']);
        return String::new();
    }
    proof {
        if raw@ == comment_open() + seq!['-', '-', '>'] {
            assert(empty@ =~= comment_open() + seq!['-', '-', '>']);
            assert(cs@.subrange(0, 8) =~= cs@);
        }
    }
    let lo = trimmed_start(&cs);
    let hi = trimmed_end(&cs, lo);
    String::from_str(raw.substring_char(lo, hi))
}

/// Where `cs` starts once all leading `<!-- ` are dropped.
fn trimmed_start(cs: &Vec<char>) -> (lo: usize)
    ensures
        lo <= cs@.len(),
        cs@.skip(lo as int) == trim_start(cs@, comment_open()),
{
    let open = vec!['<', '!', '-', '-', ' '];
    assert(open@ =~= comment_open());
    let mut lo: usize = 0;
    assert(cs@.skip(0) =~= cs@);
    while occurs_at_exec(cs, &open, lo)
        invariant
            open@ == comment_open(),
            open@.len() == 5,
            lo <= cs@.len(),
            trim_start(cs@, comment_open()) == trim_start(cs@.skip(lo as int), comment_open()),
        decreases cs@.len() - lo,
    {
        assert(occurs_at(cs@, open@, lo as int));
        assert(lo + 5 <= cs.len());
        let ghost s = cs@.skip(lo as int);
        assert(s.take(5) =~= cs@.subrange(lo as int, lo + 5));
        assert(s.skip(5) =~= cs@.skip(lo + 5));
        lo = lo + 5;
    }
    proof {
        let s = cs@.skip(lo as int);
        if s.len() >= 5 && s.take(5) == comment_open() {
            assert(cs@.subrange(lo as int, lo + 5) =~= s.take(5));
        }
    }
    lo
}

/// Where the part of `cs` from `lo` ends once all trailing ` -->` are dropped.
fn trimmed_end(cs: &Vec<char>, lo: usize) -> (hi: usize)
    requires
        lo <= cs@.len(),
    ensures
        lo <= hi <= cs@.len(),
        cs@.subrange(lo as int, hi as int) == trim_end(cs@.skip(lo as int), comment_close()),
{
    let close = vec![' ', '-', '-', '>'];
    assert(close@ =~= comment_close());
    let mut hi: usize = cs.len();
    assert(cs@.subrange(lo as int, hi as int) =~= cs@.skip(lo as int));
    while hi - lo >= 4 && occurs_at_exec(cs, &close, hi - 4)
        invariant
            close@ == comment_close(),
            close@.len() == 4,
            lo <= hi <= cs@.len(),
            trim_end(cs@.skip(lo as int), comment_close()) == trim_end(
                cs@.subrange(lo as int, hi as int),
                comment_close(),
            ),
        decreases hi,
    {
        let ghost s = cs@.subrange(lo as int, hi as int);
        assert(s.skip(s.len() - 4) =~= cs@.subrange(hi - 4, hi as int));
        assert(s.take(s.len() - 4) =~= cs@.subrange(lo as int, hi - 4));
        hi = hi - 4;
    }
    proof {
        let s = cs@.subrange(lo as int, hi as int);
        if s.len() >= 4 && s.skip(s.len() - 4) == comment_close() {
            assert(cs@.subrange(hi - 4, hi as int) =~= s.skip(s.len() - 4));
        }
    }
    hi
}

/// The attributes of the element of handle `h`.
fn load_attributes(p: &ParsedHtml, h: u32) -> (r: AttributeMap)
    requires
        h < tl_nodes(p@).len(),
        tl_nodes(p@)[h as int] is Tag,
    ensures
        r@ == imported_attributes(p@, h as int),
{
    let pairs = attributes(p, h);
    let ghost s = pairs@.map_values(|a: (String, Option<String>)| attr_view(a));
    let mut r = AttributeMap::new();
    assert(s.take(0) =~= Seq::<(Seq<char>, Option<Seq<char>>)>::empty());
    assert(lists_map(r@, last_wins(s.take(0))));
    for k in 0..pairs.len()
        invariant
            s == pairs@.map_values(|a: (String, Option<String>)| attr_view(a)),
            lists_map(r@, last_wins(s.take(k as int))),
    {
        let key = pairs[k].0.clone();
        let value = match &pairs[k].1 {
            Some(v) => v.clone(),
            None => String::new(),
        };
        let ghost before = r@;
        r.insert(key, value);
        proof {
            assert(s.take(k + 1).drop_last() =~= s.take(k as int));
            assert(s.take(k + 1).last() == s[k as int]);
            assert(s[k as int] == attr_view(pairs@[k as int]));
            lemma_put_lists(before, last_wins(s.take(k as int)), s[k as int].0, s[k as int].1);
        }
    }
    proof {
        assert(s.take(s.len() as int) =~= s);
        let m = tl_attribute_map(p@, h as int);
        let e = imported_attributes(p@, h as int);
        assert(lists_map(e, m));
        assert forall|k: Seq<char>| lookup(e, k) == lookup(r@, k) by {
            assert(lookup(e, k) == (if m.dom().contains(k) { Some(attribute_value(m[k])) } else { None }));
            assert(lookup(r@, k) == (if m.dom().contains(k) { Some(attribute_value(m[k])) } else { None }));
        }
        lemma_sorted_unique(e, r@);
    }
    r
}

/// Putting an attribute into a list of a map lists the map with that attribute entered.
proof fn lemma_put_lists(
    e: Seq<(Seq<char>, Seq<char>)>,
    m: Map<Seq<char>, Option<Seq<char>>>,
    k: Seq<char>,
    v: Option<Seq<char>>,
)
    requires
        lists_map(e, m),
    ensures
        lists_map(put(e, k, attribute_value(v)), m.insert(k, v)),
{
    law_attribute_write_keeps_order(e, k, attribute_value(v));
    assert forall|x: Seq<char>| #[trigger] lookup(put(e, k, attribute_value(v)), x) == (if m.insert(k, v).dom().contains(x) {
        Some(attribute_value(m.insert(k, v)[x]))
    } else {
        None
    }) by {
        law_attribute_read_after_write(e, k, attribute_value(v), x);
        assert(lookup(e, x) == (if m.dom().contains(x) { Some(attribute_value(m[x])) } else { None }));
    }
}

impl HtmlTree {
    /// Adds the subtree below the node of handle `h` as a new tree; returns its root, or
    /// `None` where the subtree cannot be loaded.
    fn load_node(&mut self, p: &ParsedHtml, h: u32) -> (r: Option<usize>)
        requires
            wf(old(self)@),
        ensures
            extends(old(self)@, final(self)@),
            r is Some <==> imported(p@, h as int) is Some,
            r matches Some(id) ==> id == old(self)@.len() && id < final(self)@.len()
                && final(self)@[id as int].parent is None
                && fragment(final(self)@, id as int) == imported(p@, h as int)->0,
            (final(self)@, r) == load_node_model(old(self)@, p@, h as int),
        decreases tl_nodes(p@).len() - h,
    {
        let ghost t0 = self@;
        proof {
            assert(t0.subrange(0, t0.len() as int) =~= t0);
        }
        let count = node_count(p);
        if h as usize >= count {
            return None;
        }
        match node(p, h) {
            ParsedNode::Raw(s) => {
                let id = self.create(HtmlContent::Text(s));
                proof {
                    assert(self@.subrange(0, t0.len() as int) =~= t0);
                    lemma_fragment(self@, id as int);
                    assert(fragment(self@, id as int).children =~= Seq::<Fragment>::empty());
                }
                Some(id)
            },
            ParsedNode::Comment(s) => {
                let text = strip_comment(s.as_str());
                let id = self.create(HtmlContent::Comment(text));
                proof {
                    assert(self@.subrange(0, t0.len() as int) =~= t0);
                    lemma_fragment(self@, id as int);
                    assert(fragment(self@, id as int).children =~= Seq::<Fragment>::empty());
                }
                Some(id)
            },
            ParsedNode::Tag(name) => {
                let attributes = load_attributes(p, h);
                let r = self.create(HtmlContent::Tag(HtmlTag { name, attributes }));
                let ghost tr = self@;
                let n = child_count(p, h);
                assert(load_node_model(t0, p@, h as int) == load_children_model(tr, p@, h as int, r as int, n as int));
                assert(self@.subrange(0, t0.len() as int) =~= t0);
                for k in 0..n
                    invariant
                        h < tl_nodes(p@).len(),
                        tl_nodes(p@)[h as int] is Tag,
                        n == tl_children(p@, h as int).len(),
                        count == tl_nodes(p@).len(),
                        load_children_model(tr, p@, h as int, r as int, k as int) == (self@, Some(r)),
                        tl_nodes(p@)[h as int] == ParsedNodeModel::Tag(name@),
                        load_node_model(t0, p@, h as int) == load_children_model(tr, p@, h as int, r as int, n as int),
                        tr == t0.push(
                            NodeModel {
                                content: ContentModel::Tag(
                                    name@,
                                    imported_attributes(p@, h as int),
                                ),
                                parent: None,
                                children: seq![],
                            },
                        ),
                        t0 == old(self)@,
                        r == t0.len(),
                        r < self@.len(),
                        wf(t0),
                        extends(t0, self@),
                        self@[r as int].parent is None,
                        self@[r as int].children.len() == k,
                        self@[r as int].content == ContentModel::Tag(
                            name@,
                            imported_attributes(p@, h as int),
                        ),
                        imported_children(p@, h as int, k as int) is Some,
                        imported_children(p@, h as int, k as int)->0.len() == k,
                        forall|j: int|
                            0 <= j < k ==> fragment(self@, #[trigger] self@[r as int].children[j] as int)
                                == imported_children(p@, h as int, k as int)->0[j],
                {
                    let c = child(p, h, k);
                    if c <= h || c as usize >= count {
                        proof {
                            lemma_children_none(p@, h as int, k as int + 1, n as int);
                            assert(load_children_model(tr, p@, h as int, r as int, k + 1) == (self@, None::<usize>));
                            lemma_load_children_stops(tr, p@, h as int, r as int, k as int + 1, n as int);
                        }
                        return None;
                    }
                    let ghost t1 = self@;
                    match self.load_node(p, c) {
                        None => {
                            proof {
                                lemma_children_none(p@, h as int, k as int + 1, n as int);
                                lemma_extends_trans(t0, t1, self@);
                                assert(load_children_model(tr, p@, h as int, r as int, k + 1) == (self@, None::<usize>));
                                lemma_load_children_stops(tr, p@, h as int, r as int, k as int + 1, n as int);
                            }
                            return None;
                        },
                        Some(cc) => {
                            let ghost t2 = self@;
                            proof {
                                assert forall|j: int| 0 <= j < t1.len() implies #[trigger] t2[j] == t1[j] by {
                                    assert(t2.subrange(0, t1.len() as int)[j] == t2[j]);
                                }
                                lemma_detach_wf(t2, cc as int);
                                assert(detach_model(t2, cc as int) == t2);
                            }
                            self.append(r, cc);
                            let ghost t3 = self@;
                            proof {
                                assert(load_children_model(tr, p@, h as int, r as int, k + 1) == (t3, Some(r)));
                                assert forall|j: int| 0 <= j < t3.len() && j != r && j != cc implies #[trigger] t3[j]
                                    == t2[j] by {}
                                assert forall|j: int|
                                    cc <= j < t2.len() implies (#[trigger] t3[j]).content == t2[j].content
                                    && t3[j].children == t2[j].children by {}
                                lemma_fragment_frame(t2, t3, cc as int, cc as int, t2.len() as int);
                                let prev = imported_children(p@, h as int, k as int)->0;
                                assert(imported_children(p@, h as int, k + 1) == Some(
                                    prev.push(imported(p@, c as int)->0),
                                ));
                                assert forall|j: int|
                                    0 <= j < k + 1 implies fragment(t3, #[trigger] t3[r as int].children[j] as int)
                                        == imported_children(p@, h as int, k + 1)->0[j] by {
                                    if j < k {
                                        let x = t1[r as int].children[j] as int;
                                        assert(t3[r as int].children[j] == t1[r as int].children[j]);
                                        assert(r < x < t1.len());
                                        assert forall|m: int| x <= m < t1.len() implies (#[trigger] t3[m]).content
                                            == t1[m].content && t3[m].children == t1[m].children by {}
                                        lemma_fragment_frame(t1, t3, x, x, t1.len() as int);
                                    } else {
                                        assert(t3[r as int].children[j] == cc);
                                    }
                                }
                                assert forall|j: int, m: int|
                                    #![trigger t3[j].children[m]]
                                    t0.len() <= j < t3.len() && 0 <= m < t3[j].children.len() implies t3[j].children[m]
                                        < t3.len() by {
                                    if j != r && j != cc {
                                        assert(t3[j] == t2[j]);
                                        if j < t1.len() {
                                            assert(t2[j] == t1[j]);
                                        }
                                    }
                                }
                                assert(t3.subrange(0, t0.len() as int) =~= t0) by {
                                    assert forall|j: int| 0 <= j < t0.len() implies t3.subrange(0, t0.len() as int)[j] == t0[j] by {
                                        assert(t3[j] == t2[j]);
                                        assert(t2[j] == t1[j]);
                                        assert(t1.subrange(0, t0.len() as int)[j] == t1[j]);
                                    }
                                }
                            }
                        },
                    }
                }
                proof {
                    let t = self@;
                    lemma_fragment(t, r as int);
                    assert(fragment(t, r as int).children =~= imported_children(p@, h as int, n as int)->0);
                }
                Some(r)
            },
        }
    }

    /// Loads the document `tl` parsed: its last top-level element, inside a new document
    /// node when it is `html`. `None` where there is no such element or it cannot be loaded.
    pub fn load(&mut self, p: &ParsedHtml) -> (r: Option<usize>)
        requires
            wf(old(self)@),
        ensures
            extends(old(self)@, final(self)@),
            r is Some <==> imported_document(p@) is Some,
            r matches Some(id) ==> id == old(self)@.len() && id < final(self)@.len()
                && final(self)@[id as int].parent is None
                && fragment(final(self)@, id as int) == imported_document(p@)->0,
            (final(self)@, r) == load_model(old(self)@, p@),
    {
        let ghost t0 = self@;
        proof {
            assert(t0.subrange(0, t0.len() as int) =~= t0);
        }
        match find_root(p) {
            None => None,
            Some(h) => {
                let is_html = match node(p, h) {
                    ParsedNode::Tag(name) => crate::html::attributes::str_eq(name.as_str(), "html"),
                    _ => false,
                };
                assert(is_html == (tl_nodes(p@)[h as int] == ParsedNodeModel::Tag("html"@)));
                if is_html {
                    let v = version(p);
                    let doc = self.create(HtmlContent::Document(HtmlDocument { doctype: v }));
                    let ghost t1 = self@;
                    proof {
                        assert(t1.subrange(0, t0.len() as int) =~= t0);
                    }
                    match self.load_node(p, h) {
                        None => {
                            proof {
                                lemma_extends_trans(t0, t1, self@);
                            }
                            None
                        },
                        Some(root) => {
                            let ghost t2 = self@;
                            proof {
                                lemma_extends_trans(t0, t1, t2);
                                assert forall|j: int| 0 <= j < t1.len() implies #[trigger] t2[j] == t1[j] by {
                                    assert(t2.subrange(0, t1.len() as int)[j] == t2[j]);
                                }
                                lemma_detach_wf(t2, root as int);
                                assert(detach_model(t2, root as int) == t2);
                            }
                            self.append(doc, root);
                            let ghost t3 = self@;
                            proof {
                                assert forall|j: int| 0 <= j < t3.len() && j != doc && j != root implies #[trigger] t3[j]
                                    == t2[j] by {}
                                assert forall|j: int|
                                    root <= j < t2.len() implies (#[trigger] t3[j]).content == t2[j].content
                                    && t3[j].children == t2[j].children by {}
                                lemma_fragment_frame(t2, t3, root as int, root as int, t2.len() as int);
                                lemma_fragment(t3, doc as int);
                                assert(t3[doc as int].children =~= seq![root]);
                                assert(fragment(t3, doc as int).children =~= seq![fragment(t3, root as int)]);
                                assert forall|j: int, m: int|
                                    #![trigger t3[j].children[m]]
                                    t0.len() <= j < t3.len() && 0 <= m < t3[j].children.len() implies t3[j].children[m]
                                        < t3.len() by {
                                    if j != doc && j != root {
                                        assert(t3[j] == t2[j]);
                                    }
                                }
                                assert(t3.subrange(0, t0.len() as int) =~= t0) by {
                                    assert forall|j: int| 0 <= j < t0.len() implies t3.subrange(0, t0.len() as int)[j] == t0[j] by {
                                        assert(t3[j] == t2[j]);
                                        assert(t2.subrange(0, t0.len() as int)[j] == t2[j]);
                                    }
                                }
                            }
                            Some(doc)
                        },
                    }
                } else {
                    self.load_node(p, h)
                }
            },
        }
    }
}

/// The handle of the last top-level element.
fn find_root(p: &ParsedHtml) -> (r: Option<u32>)
    ensures
        r == last_top_element(p@, tl_top(p@).len() as int),
        r matches Some(h) ==> h < tl_nodes(p@).len() && tl_nodes(p@)[h as int] is Tag,
{
    let n = top_count(p);
    let count = node_count(p);
    let mut k = n;
    while k > 0
        invariant
            n == tl_top(p@).len(),
            count == tl_nodes(p@).len(),
            k <= n,
            last_top_element(p@, n as int) == last_top_element(p@, k as int),
        decreases k,
    {
        let h = top_handle(p, k - 1);
        if (h as usize) < count {
            match node(p, h) {
                ParsedNode::Tag(_) => {
                    return Some(h);
                },
                _ => {},
            }
        }
        k = k - 1;
    }
    None
}

/// Once a child cannot be loaded, the children of its parent cannot be loaded.
proof fn lemma_children_none(source: Seq<char>, h: int, k: int, n: int)
    requires
        0 < k <= n,
        0 <= h < tl_nodes(source).len(),
        imported_children(source, h, k - 1) is Some,
        !(h < tl_children(source, h)[k - 1] < tl_nodes(source).len()) || imported(source, tl_children(source, h)[k - 1] as int) is None,
    ensures
        imported_children(source, h, n) is None,
    decreases n - k,
{
    if k < n {
        lemma_children_none_extends(source, h, k, n);
    }
}

proof fn lemma_children_none_extends(source: Seq<char>, h: int, k: int, n: int)
    requires
        0 < k <= n,
        imported_children(source, h, k) is None,
    ensures
        imported_children(source, h, n) is None,
    decreases n - k,
{
    if k < n {
        lemma_children_none_extends(source, h, k + 1, n);
    }
}

/// Once a child cannot be loaded, loading the children of its parent stops there.
proof fn lemma_load_children_stops(t: Seq<NodeModel>, source: Seq<char>, h: int, r: int, k: int, n: int)
    requires
        0 < k <= n,
        load_children_model(t, source, h, r, k).1 is None,
    ensures
        load_children_model(t, source, h, r, n) == load_children_model(t, source, h, r, k),
    decreases n - k,
{
    if k < n {
        lemma_load_children_stops(t, source, h, r, k, n - 1);
    }
}

proof fn lemma_extends_trans(t0: Seq<NodeModel>, t1: Seq<NodeModel>, t2: Seq<NodeModel>)
    requires
        extends(t0, t1),
        extends(t1, t2),
    ensures
        extends(t0, t2),
{
    assert forall|j: int| 0 <= j < t1.len() implies #[trigger] t2[j] == t1[j] by {
        assert(t2.subrange(0, t1.len() as int)[j] == t2[j]);
    }
    assert forall|j: int| 0 <= j < t0.len() implies #[trigger] t1[j] == t0[j] by {
        assert(t1.subrange(0, t0.len() as int)[j] == t1[j]);
    }
    assert(t2.subrange(0, t0.len() as int) =~= t0);
    assert forall|j: int, m: int|
        #![trigger t2[j].children[m]]
        t0.len() <= j < t2.len() && 0 <= m < t2[j].children.len() implies t2[j].children[m]
            < t2.len() by {
        if j < t1.len() {
            assert(t2[j] == t1[j]);
        }
    }
}

} // verus!
