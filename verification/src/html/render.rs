//! Rendering subtrees as HTML markup and as text.
use vstd::prelude::*;
use crate::html::attributes::{pair_view, str_eq};
use crate::html::tree::{
    ContentModel, Fragment, HTMLVersion, HtmlContent, HtmlTree, fragment, lemma_fragment, wf,
};

verus! {

broadcast use vstd::string::group_string_axioms;

/// The pieces one after the other.
pub open spec fn concat_all(s: Seq<Seq<char>>) -> Seq<char>
    decreases s.len(),
{
    if s.len() == 0 {
        Seq::empty()
    } else {
        concat_all(s.drop_last()) + s.last()
    }
}

/// The pieces one after the other, with `sep` between each two.
pub open spec fn join_with(s: Seq<Seq<char>>, sep: Seq<char>) -> Seq<char>
    decreases s.len(),
{
    if s.len() == 0 {
        Seq::empty()
    } else if s.len() == 1 {
        s[0]
    } else {
        join_with(s.drop_last(), sep) + sep + s.last()
    }
}

/// Elements that have no end tag.
pub open spec fn is_void_element(name: Seq<char>) -> bool {
    ||| name == "area"@
    ||| name == "base"@
    ||| name == "br"@
    ||| name == "col"@
    ||| name == "command"@
    ||| name == "embed"@
    ||| name == "hr"@
    ||| name == "img"@
    ||| name == "input"@
    ||| name == "keygen"@
    ||| name == "link"@
    ||| name == "meta"@
    ||| name == "param"@
    ||| name == "source"@
    ||| name == "track"@
    ||| name == "wbr"@
}

/// ` key="value"` for each attribute, in order.
pub open spec fn attributes_text(attrs: Seq<(Seq<char>, Seq<char>)>) -> Seq<char>
    decreases attrs.len(),
{
    if attrs.len() == 0 {
        Seq::empty()
    } else {
        attributes_text(attrs.drop_last()) + " "@ + attrs.last().0 + "=\""@ + attrs.last().1
            + "\""@
    }
}

/// The start tag of an element.
pub open spec fn start_tag(name: Seq<char>, attrs: Seq<(Seq<char>, Seq<char>)>) -> Seq<char> {
    "<"@ + name + attributes_text(attrs) + ">"@
}

/// The end tag of an element, empty for void elements.
pub open spec fn end_tag(name: Seq<char>) -> Seq<char> {
    if is_void_element(name) {
        Seq::empty()
    } else {
        "</"@ + name + ">"@
    }
}

/// The document type declaration, with its line break.
pub open spec fn doctype_text(d: Option<HTMLVersion>) -> Seq<char> {
    match d {
        None => Seq::empty(),
        Some(HTMLVersion::HTML5) => "<!DOCTYPE html>\n"@,
        Some(HTMLVersion::StrictHTML401) => "<!DOCTYPE HTML PUBLIC \"-//W3C//DTD HTML 4.01//EN\" \"http://www.w3.org/TR/html4/strict.dtd\">\n"@,
        Some(HTMLVersion::TransitionalHTML401) => "<!DOCTYPE HTML PUBLIC \"-//W3C//DTD HTML 4.01 Transitional//EN\" \"http://www.w3.org/TR/html4/loose.dtd\">\n"@,
        Some(HTMLVersion::FramesetHTML401) => "<!DOCTYPE HTML PUBLIC \"-//W3C//DTD HTML 4.01 Frameset//EN\" \"http://www.w3.org/TR/html4/frameset.dtd\">\n"@,
    }
}

/// The markup of a fragment, the node itself included.
pub open spec fn outer_html(f: Fragment) -> Seq<char>
    decreases f,
{
    match f.content {
        ContentModel::Comment(s) => "<!-- "@ + s + " -->"@,
        ContentModel::Text(s) => s,
        ContentModel::Tag(name, attrs) => start_tag(name, attrs) + outer_children(f.children)
            + end_tag(name),
        ContentModel::Document(d) => doctype_text(d) + outer_children(f.children),
    }
}

/// The markup of the fragments one after the other.
pub open spec fn outer_children(fs: Seq<Fragment>) -> Seq<char>
    decreases fs,
{
    if fs.len() == 0 {
        Seq::empty()
    } else {
        outer_children(fs.drop_last()) + outer_html(fs.last())
    }
}

/// The markup of what a fragment holds: nothing for a comment, the text for a text,
/// the children for an element, the whole for a document.
pub open spec fn inner_html(f: Fragment) -> Seq<char> {
    match f.content {
        ContentModel::Comment(_) => Seq::empty(),
        ContentModel::Text(s) => s,
        ContentModel::Tag(_, _) => outer_children(f.children),
        ContentModel::Document(_) => outer_html(f),
    }
}

/// The text of a fragment: the text of a text node, nothing for a comment, and for an
/// element or a document the non-empty texts of its children joined by a space.
pub open spec fn text_content(f: Fragment) -> Seq<char>
    decreases f,
{
    match f.content {
        ContentModel::Comment(_) => Seq::empty(),
        ContentModel::Text(s) => s,
        _ => join_with(text_parts(f.children), " "@),
    }
}

/// The non-empty texts of the fragments, in order.
pub open spec fn text_parts(fs: Seq<Fragment>) -> Seq<Seq<char>>
    decreases fs,
{
    if fs.len() == 0 {
        Seq::empty()
    } else {
        let rest = text_parts(fs.drop_last());
        let t = text_content(fs.last());
        if t.len() == 0 {
            rest
        } else {
            rest.push(t)
        }
    }
}

/// Whether `name` is the name of a void element.
pub fn void_element(name: &str) -> (r: bool)
    ensures
        r == is_void_element(name@),
{
    str_eq(name, "area") || str_eq(name, "base") || str_eq(name, "br") || str_eq(name, "col")
        || str_eq(name, "command") || str_eq(name, "embed") || str_eq(name, "hr") || str_eq(
        name,
        "img",
    ) || str_eq(name, "input") || str_eq(name, "keygen") || str_eq(name, "link") || str_eq(
        name,
        "meta",
    ) || str_eq(name, "param") || str_eq(name, "source") || str_eq(name, "track") || str_eq(
        name,
        "wbr",
    )
}

fn doctype_string(d: Option<HTMLVersion>) -> (r: String)
    ensures
        r@ == doctype_text(d),
{
    match d {
        None => String::new(),
        Some(HTMLVersion::HTML5) => String::from_str("<!DOCTYPE html>\n"),
        Some(HTMLVersion::StrictHTML401) => String::from_str(
            "<!DOCTYPE HTML PUBLIC \"-//W3C//DTD HTML 4.01//EN\" \"http://www.w3.org/TR/html4/strict.dtd\">\n",
        ),
        Some(HTMLVersion::TransitionalHTML401) => String::from_str(
            "<!DOCTYPE HTML PUBLIC \"-//W3C//DTD HTML 4.01 Transitional//EN\" \"http://www.w3.org/TR/html4/loose.dtd\">\n",
        ),
        Some(HTMLVersion::FramesetHTML401) => String::from_str(
            "<!DOCTYPE HTML PUBLIC \"-//W3C//DTD HTML 4.01 Frameset//EN\" \"http://www.w3.org/TR/html4/frameset.dtd\">\n",
        ),
    }
}

fn start_tag_string(name: &str, attrs: &Vec<(String, String)>) -> (r: String)
    ensures
        r@ == start_tag(name@, attrs@.map_values(|p: (String, String)| pair_view(p))),
{
    let ghost av = attrs@.map_values(|p: (String, String)| pair_view(p));
    let mut s = String::from_str("<");
    s.append(name);
    let ghost prefix = s@;
    for i in 0..attrs.len()
        invariant
            av == attrs@.map_values(|p: (String, String)| pair_view(p)),
            s@ == prefix + attributes_text(av.take(i as int)),
    {
        s.append(" ");
        s.append(attrs[i].0.as_str());
        s.append("=\"");
        s.append(attrs[i].1.as_str());
        s.append("\"");
        assert(av.take(i + 1).drop_last() =~= av.take(i as int));
    }
    assert(av.take(attrs.len() as int) =~= av);
    s.append(">");
    s
}

impl HtmlTree {
    /// The markup of the subtree below node `id`, the node itself included.
    pub fn outer_html(&self, id: usize) -> (r: String)
        requires
            wf(self@),
            id < self@.len(),
        ensures
            r@ == outer_html(fragment(self@, id as int)),
        decreases self@.len() - id,
    {
        proof {
            lemma_fragment(self@, id as int);
        }
        let ghost f = fragment(self@, id as int);
        match self.content(id) {
            HtmlContent::Comment(s) => {
                let mut r = String::from_str("<!-- ");
                r.append(s.as_str());
                r.append(" -->");
                r
            },
            HtmlContent::Text(s) => s.clone(),
            HtmlContent::Tag(t) => {
                let mut r = start_tag_string(t.name.as_str(), &t.attributes.entries);
                let inner = self.children_html(id);
                r.append(inner.as_str());
                if !void_element(t.name.as_str()) {
                    r.append("</");
                    r.append(t.name.as_str());
                    r.append(">");
                }
                r
            },
            HtmlContent::Document(d) => {
                let mut r = doctype_string(d.doctype);
                let inner = self.children_html(id);
                r.append(inner.as_str());
                r
            },
        }
    }

    /// The markup of the children of node `id`, one after the other.
    fn children_html(&self, id: usize) -> (r: String)
        requires
            wf(self@),
            id < self@.len(),
        ensures
            r@ == outer_children(fragment(self@, id as int).children),
        decreases self@.len() - id, 0int,
    {
        proof {
            lemma_fragment(self@, id as int);
        }
        let ghost fs = fragment(self@, id as int).children;
        let children = self.children(id);
        let mut r = String::new();
        for k in 0..children.len()
            invariant
                wf(self@),
                id < self@.len(),
                children@ == self@[id as int].children,
                fs == fragment(self@, id as int).children,
                fs.len() == children@.len(),
                forall|j: int| 0 <= j < fs.len() ==> #[trigger] fs[j] == fragment(self@, children@[j] as int),
                r@ == outer_children(fs.take(k as int)),
        {
            let c = children[k];
            assert(id < c < self@.len());
            let part = self.outer_html(c);
            r.append(part.as_str());
            assert(fs.take(k + 1).drop_last() =~= fs.take(k as int));
        }
        assert(fs.take(children.len() as int) =~= fs);
        r
    }

    /// The markup of what node `id` holds.
    pub fn inner_html(&self, id: usize) -> (r: String)
        requires
            wf(self@),
            id < self@.len(),
        ensures
            r@ == inner_html(fragment(self@, id as int)),
    {
        proof {
            lemma_fragment(self@, id as int);
        }
        match self.content(id) {
            HtmlContent::Comment(_) => String::new(),
            HtmlContent::Text(s) => s.clone(),
            HtmlContent::Tag(_) => self.children_html(id),
            HtmlContent::Document(_) => self.outer_html(id),
        }
    }

    /// The text below node `id`.
    pub fn text_content(&self, id: usize) -> (r: String)
        requires
            wf(self@),
            id < self@.len(),
        ensures
            r@ == text_content(fragment(self@, id as int)),
        decreases self@.len() - id,
    {
        proof {
            lemma_fragment(self@, id as int);
        }
        let ghost fs = fragment(self@, id as int).children;
        match self.content(id) {
            HtmlContent::Comment(_) => String::new(),
            HtmlContent::Text(s) => s.clone(),
            _ => {
                let children = self.children(id);
                let mut r = String::new();
                let mut count: usize = 0;
                for k in 0..children.len()
                    invariant
                        wf(self@),
                        id < self@.len(),
                        children@ == self@[id as int].children,
                        fs == fragment(self@, id as int).children,
                        fs.len() == children@.len(),
                        forall|j: int|
                            0 <= j < fs.len() ==> #[trigger] fs[j] == fragment(
                                self@,
                                children@[j] as int,
                            ),
                        count == text_parts(fs.take(k as int)).len(),
                        count <= k,
                        r@ == join_with(text_parts(fs.take(k as int)), " "@),
                {
                    let c = children[k];
                    assert(id < c < self@.len());
                    let part = self.text_content(c);
                    assert(fs.take(k + 1).drop_last() =~= fs.take(k as int));
                    if !part.as_str().is_empty() {
                        if count > 0 {
                            r.append(" ");
                        }
                        r.append(part.as_str());
                        count = count + 1;
                        proof {
                            let ps = text_parts(fs.take(k + 1));
                            assert(ps.drop_last() =~= text_parts(fs.take(k as int)));
                        }
                    }
                }
                assert(fs.take(children.len() as int) =~= fs);
                r
            },
        }
    }
}

} // verus!
