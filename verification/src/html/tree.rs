//! Documents as trees of nodes held in one arena. A node is named by its index;
//! a parent is always older (has a smaller index) than its children.
use vstd::prelude::*;
use crate::html::attributes::{AttributeMap, put, without};

verus! {

/// The HTML version given by a `<!DOCTYPE>`.
#[derive(Clone, Copy, Debug, PartialEq, Eq)]
pub enum HTMLVersion {
    HTML5,
    StrictHTML401,
    TransitionalHTML401,
    FramesetHTML401,
}

/// The root of a whole document.
#[derive(Clone, Copy, Debug, PartialEq, Eq)]
pub struct HtmlDocument {
    pub doctype: Option<HTMLVersion>,
}

/// An element with its name and attributes.
#[derive(Debug, Clone, PartialEq)]
pub struct HtmlTag {
    pub name: String,
    pub attributes: AttributeMap,
}

impl HtmlTag {
    /// An element of this name without attributes.
    pub fn of_name(name: &str) -> (r: Self)
        ensures
            r.name@ == name@,
            r.attributes@ == Seq::<(Seq<char>, Seq<char>)>::empty(),
    {
        HtmlTag { name: String::from_str(name), attributes: AttributeMap::new() }
    }
}

/// The content of a node.
#[derive(Debug, Clone, PartialEq)]
pub enum HtmlContent {
    Document(HtmlDocument),
    Tag(HtmlTag),
    Text(String),
    Comment(String),
}

/// Model of the content of a node.
pub enum ContentModel {
    Document(Option<HTMLVersion>),
    Tag(Seq<char>, Seq<(Seq<char>, Seq<char>)>),
    Text(Seq<char>),
    Comment(Seq<char>),
}

impl View for HtmlContent {
    type V = ContentModel;

    open spec fn view(&self) -> ContentModel {
        match self {
            HtmlContent::Document(d) => ContentModel::Document(d.doctype),
            HtmlContent::Tag(t) => ContentModel::Tag(t.name@, t.attributes@),
            HtmlContent::Text(s) => ContentModel::Text(s@),
            HtmlContent::Comment(s) => ContentModel::Comment(s@),
        }
    }
}

impl HtmlContent {
    /// The content is an element.
    pub fn is_tag(&self) -> (r: bool)
        ensures
            r == (self@ is Tag),
    {
        match self {
            HtmlContent::Tag(_) => true,
            _ => false,
        }
    }
}

/// A node of the arena.
#[derive(Debug)]
pub struct HtmlNode {
    pub content: HtmlContent,
    pub parent: Option<usize>,
    pub children: Vec<usize>,
}

/// Model of a node.
pub struct NodeModel {
    pub content: ContentModel,
    pub parent: Option<usize>,
    pub children: Seq<usize>,
}

impl View for HtmlNode {
    type V = NodeModel;

    open spec fn view(&self) -> NodeModel {
        NodeModel { content: self.content@, parent: self.parent, children: self.children@ }
    }
}

/// The arena holding all nodes of the documents being edited.
#[derive(Debug)]
pub struct HtmlTree {
    pub nodes: Vec<HtmlNode>,
}

impl View for HtmlTree {
    type V = Seq<NodeModel>;

    open spec fn view(&self) -> Seq<NodeModel> {
        self.nodes@.map_values(|n: HtmlNode| n@)
    }
}

/// The links of the arena are consistent: each child names its parent, each parent
/// lists its children once, and a parent is older than its children.
pub open spec fn wf(t: Seq<NodeModel>) -> bool {
    &&& t.len() <= usize::MAX
    &&& forall|i: int, k: int|
        #![trigger t[i].children[k]]
        0 <= i < t.len() && 0 <= k < t[i].children.len() ==> i < t[i].children[k] < t.len()
            && t[t[i].children[k] as int].parent == Some(i as usize)
    &&& forall|i: int|
        #![trigger t[i].parent]
        0 <= i < t.len() ==> match t[i].parent {
            Some(p) => p < i && t[p as int].children.contains(i as usize),
            None => true,
        }
    &&& forall|i: int| #![trigger t[i].children] 0 <= i < t.len() ==> t[i].children.no_duplicates()
}

/// The subtree below a node, as a value.
pub struct Fragment {
    pub content: ContentModel,
    pub children: Seq<Fragment>,
}

/// The subtree below node `i` of `t`.
pub open spec fn fragment(t: Seq<NodeModel>, i: int) -> Fragment
    decreases t.len() - i, 1int, 0int,
{
    if 0 <= i < t.len() {
        Fragment { content: t[i].content, children: child_fragments(t, i, 0) }
    } else {
        Fragment { content: ContentModel::Text(seq![]), children: seq![] }
    }
}

/// The subtrees below the children of node `i` from the `k`th on.
pub open spec fn child_fragments(t: Seq<NodeModel>, i: int, k: int) -> Seq<Fragment>
    decreases t.len() - i, 0int, t[i].children.len() - k,
{
    if 0 <= i < t.len() && 0 <= k < t[i].children.len() {
        let c = t[i].children[k] as int;
        let f = if i < c < t.len() {
            fragment(t, c)
        } else {
            Fragment { content: ContentModel::Text(seq![]), children: seq![] }
        };
        seq![f] + child_fragments(t, i, k + 1)
    } else {
        seq![]
    }
}

/// The child fragments are the fragments of the children, one by one.
pub proof fn lemma_child_fragments(t: Seq<NodeModel>, i: int, k: int)
    requires
        wf(t),
        0 <= i < t.len(),
        0 <= k <= t[i].children.len(),
    ensures
        child_fragments(t, i, k).len() == t[i].children.len() - k,
        forall|j: int|
            0 <= j < t[i].children.len() - k ==> #[trigger] child_fragments(t, i, k)[j] == fragment(
                t,
                t[i].children[k + j] as int,
            ),
    decreases t[i].children.len() - k,
{
    if k < t[i].children.len() {
        lemma_child_fragments(t, i, k + 1);
        let c = t[i].children[k];
        assert(i < c < t.len());
        assert forall|j: int| 0 <= j < t[i].children.len() - k implies #[trigger] child_fragments(
            t,
            i,
            k,
        )[j] == fragment(t, t[i].children[k + j] as int) by {
            if j > 0 {
                assert(child_fragments(t, i, k)[j] == child_fragments(t, i, k + 1)[j - 1]);
            }
        }
    }
}

/// The fragment of node `i`: its content, and the fragments of its children in order.
pub proof fn lemma_fragment(t: Seq<NodeModel>, i: int)
    requires
        wf(t),
        0 <= i < t.len(),
    ensures
        fragment(t, i).content == t[i].content,
        fragment(t, i).children.len() == t[i].children.len(),
        forall|j: int|
            0 <= j < t[i].children.len() ==> #[trigger] fragment(t, i).children[j] == fragment(
                t,
                t[i].children[j] as int,
            ),
{
    lemma_child_fragments(t, i, 0);
    assert forall|j: int| 0 <= j < t[i].children.len() implies #[trigger] fragment(
        t,
        i,
    ).children[j] == fragment(t, t[i].children[j] as int) by {
        assert(child_fragments(t, i, 0)[j] == fragment(t, t[i].children[0 + j] as int));
    }
}

/// The position of the first occurrence of `x` in `s`.
pub open spec fn first_index(s: Seq<usize>, x: usize) -> int
    decreases s.len(),
{
    if s.len() == 0 || s[0] == x {
        0
    } else {
        1 + first_index(s.drop_first(), x)
    }
}

pub proof fn lemma_first_index(s: Seq<usize>, x: usize)
    requires
        s.contains(x),
    ensures
        0 <= first_index(s, x) < s.len(),
        s[first_index(s, x)] == x,
        forall|j: int| 0 <= j < first_index(s, x) ==> s[j] != x,
    decreases s.len(),
{
    if s[0] != x {
        let j = choose|j: int| 0 <= j < s.len() && s[j] == x;
        assert(s.drop_first()[j - 1] == x);
        lemma_first_index(s.drop_first(), x);
        assert forall|k: int| 0 <= k < first_index(s, x) implies s[k] != x by {
            if k > 0 {
                assert(s[k] == s.drop_first()[k - 1]);
            }
        }
    }
}

/// The arena after node `c` is taken out of its parent's children.
pub open spec fn detach_model(t: Seq<NodeModel>, c: int) -> Seq<NodeModel> {
    match t[c].parent {
        Some(p) => t.update(
            p as int,
            NodeModel {
                content: t[p as int].content,
                parent: t[p as int].parent,
                children: t[p as int].children.remove(first_index(t[p as int].children, c as usize)),
            },
        ).update(c, NodeModel { content: t[c].content, parent: None, children: t[c].children }),
        None => t,
    }
}

/// The arena after node `c` is detached and added as last child of `p`.
pub open spec fn append_model(t: Seq<NodeModel>, p: int, c: int) -> Seq<NodeModel> {
    let t1 = detach_model(t, c);
    t1.update(
        p,
        NodeModel {
            content: t1[p].content,
            parent: t1[p].parent,
            children: t1[p].children.push(c as usize),
        },
    ).update(c, NodeModel { content: t1[c].content, parent: Some(p as usize), children: t1[c].children })
}

/// The arena after node `c` is detached and, when `n` has a parent, added to it just before `n`.
pub open spec fn insert_before_model(t: Seq<NodeModel>, n: int, c: int) -> Seq<NodeModel> {
    let t1 = detach_model(t, c);
    match t1[n].parent {
        Some(q) => t1.update(
            q as int,
            NodeModel {
                content: t1[q as int].content,
                parent: t1[q as int].parent,
                children: t1[q as int].children.insert(
                    first_index(t1[q as int].children, n as usize),
                    c as usize,
                ),
            },
        ).update(
            c,
            NodeModel { content: t1[c].content, parent: Some(q), children: t1[c].children },
        ),
        None => t1,
    }
}

/// The arena after node `c` is detached and added as first child of `p`.
pub open spec fn prepend_model(t: Seq<NodeModel>, p: int, c: int) -> Seq<NodeModel> {
    let t1 = detach_model(t, c);
    t1.update(
        p,
        NodeModel {
            content: t1[p].content,
            parent: t1[p].parent,
            children: seq![c as usize] + t1[p].children,
        },
    ).update(c, NodeModel { content: t1[c].content, parent: Some(p as usize), children: t1[c].children })
}

/// Removing one element keeps a sequence free of duplicates and drops only that element.
proof fn lemma_remove_no_duplicates(s: Seq<usize>, i: int)
    requires
        s.no_duplicates(),
        0 <= i < s.len(),
    ensures
        s.remove(i).no_duplicates(),
        forall|y: usize| s.remove(i).contains(y) <==> (s.contains(y) && y != s[i]),
{
    let r = s.remove(i);
    assert forall|y: usize| r.contains(y) <==> (s.contains(y) && y != s[i]) by {
        if r.contains(y) {
            let j = choose|j: int| 0 <= j < r.len() && r[j] == y;
            if j < i {
                assert(s[j] == y);
            } else {
                assert(s[j + 1] == y);
            }
        }
        if s.contains(y) && y != s[i] {
            let j = choose|j: int| 0 <= j < s.len() && s[j] == y;
            if j < i {
                assert(r[j] == y);
            } else {
                assert(r[j - 1] == y);
            }
        }
    }
}

/// Detaching keeps the arena consistent.
#[verifier::spinoff_prover]
#[verifier::rlimit(30)]
pub proof fn lemma_detach_wf(t: Seq<NodeModel>, c: int)
    requires
        wf(t),
        0 <= c < t.len(),
    ensures
        wf(detach_model(t, c)),
        detach_model(t, c).len() == t.len(),
        detach_model(t, c)[c].parent is None,
        forall|j: int| 0 <= j < t.len() ==> (#[trigger] detach_model(t, c)[j]).content == t[j].content,
        forall|j: int| 0 <= j < t.len() && j != c ==> (#[trigger] detach_model(t, c)[j]).parent == t[j].parent,
        forall|j: int|
            0 <= j < t.len() && Some(j as usize) != t[c].parent ==> (#[trigger] detach_model(
                t,
                c,
            )[j]).children == t[j].children,
{
    let t2 = detach_model(t, c);
    if let Some(p) = t[c].parent {
        let pi = p as int;
        let ch = t[pi].children;
        lemma_first_index(ch, c as usize);
        lemma_remove_no_duplicates(ch, first_index(ch, c as usize));
        let nch = ch.remove(first_index(ch, c as usize));
        assert(t2[pi].children == nch);
        assert forall|i: int, k: int|
            #![trigger t2[i].children[k]]
            0 <= i < t2.len() && 0 <= k < t2[i].children.len() implies i < t2[i].children[k] < t2.len()
            && t2[t2[i].children[k] as int].parent == Some(i as usize) by {
            if i == pi {
                assert(nch.contains(nch[k]));
                let j = choose|j: int| 0 <= j < ch.len() && ch[j] == nch[k];
                assert(t[i].children[j] == nch[k]);
            } else {
                assert(t2[i].children == t[i].children);
            }
        }
        assert forall|i: int| #![trigger t2[i].parent] 0 <= i < t2.len() implies match t2[i].parent {
            Some(q) => q < i && t2[q as int].children.contains(i as usize),
            None => true,
        } by {
            if i != c {
                if let Some(q) = t[i].parent {
                    assert(t[q as int].children.contains(i as usize));
                    if q == p {
                        assert(nch.contains(i as usize));
                    }
                }
            }
        }
    }
}

/// Appending keeps the arena consistent.
#[verifier::spinoff_prover]
#[verifier::rlimit(30)]
pub proof fn lemma_append_wf(t: Seq<NodeModel>, p: int, c: int)
    requires
        wf(t),
        0 <= p < c < t.len(),
    ensures
        wf(append_model(t, p, c)),
        append_model(t, p, c).len() == t.len(),
{
    lemma_detach_wf(t, c);
    let t1 = detach_model(t, c);
    let t2 = append_model(t, p, c);
    assert(!t1[p].children.contains(c as usize));
    let nch = t1[p].children.push(c as usize);
    assert(t2[p].children == nch);
    assert forall|i: int, k: int|
        #![trigger t2[i].children[k]]
        0 <= i < t2.len() && 0 <= k < t2[i].children.len() implies i < t2[i].children[k] < t2.len()
        && t2[t2[i].children[k] as int].parent == Some(i as usize) by {
        if i == p {
            if k < t1[p].children.len() {
                assert(t1[i].children[k] == t2[i].children[k]);
            }
        } else if i == c {
            assert(t1[i].children[k] == t2[i].children[k]);
        } else {
            assert(t1[i].children[k] == t2[i].children[k]);
        }
    }
    assert forall|i: int| #![trigger t2[i].parent] 0 <= i < t2.len() implies match t2[i].parent {
        Some(q) => q < i && t2[q as int].children.contains(i as usize),
        None => true,
    } by {
        if i == c {
            assert(nch[nch.len() - 1] == c as usize);
        } else if let Some(q) = t1[i].parent {
            assert(t1[q as int].children.contains(i as usize));
            if q == p {
                let j = choose|j: int| 0 <= j < t1[p].children.len() && t1[p].children[j] == i as usize;
                assert(nch[j] == i as usize);
            }
        }
    }
    assert forall|i: int| #![trigger t2[i].children] 0 <= i < t2.len() implies t2[i].children.no_duplicates() by {
        if i == p {
            assert(t1[p].children.no_duplicates());
        }
    }
}

/// Inserting a new element keeps a sequence free of duplicates and adds only that element.
proof fn lemma_insert_no_duplicates(s: Seq<usize>, at: int, x: usize)
    requires
        s.no_duplicates(),
        !s.contains(x),
        0 <= at <= s.len(),
    ensures
        s.insert(at, x).no_duplicates(),
        forall|y: usize| s.insert(at, x).contains(y) <==> (s.contains(y) || y == x),
{
    let r = s.insert(at, x);
    assert forall|a: int, b: int| 0 <= a < r.len() && 0 <= b < r.len() && a != b implies r[a]
        != r[b] by {
        if r[a] == x {
            if b < at {
                assert(r[b] == s[b]);
            } else if b > at {
                assert(r[b] == s[b - 1]);
            }
        } else if r[b] == x {
            if a < at {
                assert(r[a] == s[a]);
            } else if a > at {
                assert(r[a] == s[a - 1]);
            }
        } else {
            let a0 = if a < at { a } else { a - 1 };
            let b0 = if b < at { b } else { b - 1 };
            assert(r[a] == s[a0]);
            assert(r[b] == s[b0]);
        }
    }
    assert forall|y: usize| r.contains(y) <==> (s.contains(y) || y == x) by {
        if r.contains(y) && y != x {
            let j = choose|j: int| 0 <= j < r.len() && r[j] == y;
            if j < at {
                assert(s[j] == y);
            } else {
                assert(s[j - 1] == y);
            }
        }
        if s.contains(y) {
            let j = choose|j: int| 0 <= j < s.len() && s[j] == y;
            if j < at {
                assert(r[j] == y);
            } else {
                assert(r[j + 1] == y);
            }
        }
        if y == x {
            assert(r[at] == x);
        }
    }
}

/// Inserting before a node keeps the arena consistent.
#[verifier::spinoff_prover]
pub proof fn lemma_insert_before_wf(t: Seq<NodeModel>, n: int, c: int)
    requires
        wf(t),
        0 <= n < c < t.len(),
    ensures
        wf(insert_before_model(t, n, c)),
        insert_before_model(t, n, c).len() == t.len(),
{
    lemma_detach_wf(t, c);
    let t1 = detach_model(t, c);
    if let Some(q) = t1[n].parent {
        let qi = q as int;
        let t2 = insert_before_model(t, n, c);
        assert(t1[qi].children.contains(n as usize));
        lemma_first_index(t1[qi].children, n as usize);
        let at = first_index(t1[qi].children, n as usize);
        let och = t1[qi].children;
        let nch = och.insert(at, c as usize);
        assert(t2[qi].children == nch);
        assert(!och.contains(c as usize));
        lemma_insert_no_duplicates(och, at, c as usize);
        assert forall|i: int, k: int|
            #![trigger t2[i].children[k]]
            0 <= i < t2.len() && 0 <= k < t2[i].children.len() implies i < t2[i].children[k]
            < t2.len() && t2[t2[i].children[k] as int].parent == Some(i as usize) by {
            if i == qi {
                if k < at {
                    assert(nch[k] == och[k]);
                    assert(t1[i].children[k] == och[k]);
                } else if k > at {
                    assert(nch[k] == och[k - 1]);
                    assert(t1[i].children[k - 1] == och[k - 1]);
                }
            } else {
                assert(t1[i].children[k] == t2[i].children[k]);
            }
        }
        assert forall|i: int| #![trigger t2[i].parent] 0 <= i < t2.len() implies match t2[i].parent {
            Some(r) => r < i && t2[r as int].children.contains(i as usize),
            None => true,
        } by {
            if i != c {
                if let Some(r) = t1[i].parent {
                    assert(t1[r as int].children.contains(i as usize));
                }
            }
        }
        assert forall|i: int| #![trigger t2[i].children] 0 <= i < t2.len() implies t2[i].children.no_duplicates() by {
            if i != qi {
                assert(t2[i].children == t1[i].children);
            }
        }
    }
}

/// The children of the nodes in `[lo, hi)` all lie below `hi`.
pub open spec fn closed(t: Seq<NodeModel>, lo: int, hi: int) -> bool {
    forall|j: int, k: int|
        #![trigger t[j].children[k]]
        lo <= j < hi && 0 <= k < t[j].children.len() ==> t[j].children[k] < hi
}

/// Prepending keeps the arena consistent.
#[verifier::spinoff_prover]
#[verifier::rlimit(30)]
pub proof fn lemma_prepend_wf(t: Seq<NodeModel>, p: int, c: int)
    requires
        wf(t),
        0 <= p < c < t.len(),
    ensures
        wf(prepend_model(t, p, c)),
        prepend_model(t, p, c).len() == t.len(),
{
    lemma_detach_wf(t, c);
    let t1 = detach_model(t, c);
    let t2 = prepend_model(t, p, c);
    assert(!t1[p].children.contains(c as usize));
    let nch = seq![c as usize] + t1[p].children;
    assert(t2[p].children == nch);
    assert forall|i: int, k: int|
        #![trigger t2[i].children[k]]
        0 <= i < t2.len() && 0 <= k < t2[i].children.len() implies i < t2[i].children[k] < t2.len()
        && t2[t2[i].children[k] as int].parent == Some(i as usize) by {
        if i == p {
            if k > 0 {
                assert(t2[i].children[k] == t1[p].children[k - 1]);
            }
        } else {
            assert(t1[i].children[k] == t2[i].children[k]);
        }
    }
    assert forall|i: int| #![trigger t2[i].parent] 0 <= i < t2.len() implies match t2[i].parent {
        Some(q) => q < i && t2[q as int].children.contains(i as usize),
        None => true,
    } by {
        if i == c {
            assert(nch[0] == c as usize);
        } else if let Some(q) = t1[i].parent {
            assert(t1[q as int].children.contains(i as usize));
            if q == p {
                let j = choose|j: int| 0 <= j < t1[p].children.len() && t1[p].children[j] == i as usize;
                assert(nch[j + 1] == i as usize);
            }
        }
    }
    assert forall|i: int| #![trigger t2[i].children] 0 <= i < t2.len() implies t2[i].children.no_duplicates() by {
        if i == p {
            assert(t1[p].children.no_duplicates());
            assert forall|a: int, b: int| 0 <= a < nch.len() && 0 <= b < nch.len() && a != b implies nch[a] != nch[b] by {
                if a > 0 && b > 0 {
                    assert(nch[a] == t1[p].children[a - 1]);
                    assert(nch[b] == t1[p].children[b - 1]);
                } else if a == 0 {
                    assert(nch[b] == t1[p].children[b - 1]);
                } else {
                    assert(nch[a] == t1[p].children[a - 1]);
                }
            }
        }
    }
}

/// Two arenas that agree on the contents and children of a closed range of nodes agree on
/// the fragments below those nodes.
pub proof fn lemma_fragment_frame(t1: Seq<NodeModel>, t2: Seq<NodeModel>, i: int, lo: int, hi: int)
    requires
        lo <= i < hi <= t1.len(),
        hi <= t2.len(),
        forall|j: int|
            lo <= j < hi ==> (#[trigger] t2[j]).content == t1[j].content && t2[j].children
                == t1[j].children,
        forall|j: int, k: int|
            #![trigger t1[j].children[k]]
            lo <= j < hi && 0 <= k < t1[j].children.len() ==> j < t1[j].children[k] < hi,
    ensures
        fragment(t2, i) == fragment(t1, i),
    decreases hi - i, 1int, 0int,
{
    lemma_child_fragments_frame(t1, t2, i, 0, lo, hi);
}

proof fn lemma_child_fragments_frame(
    t1: Seq<NodeModel>,
    t2: Seq<NodeModel>,
    i: int,
    k: int,
    lo: int,
    hi: int,
)
    requires
        lo <= i < hi <= t1.len(),
        hi <= t2.len(),
        0 <= k,
        forall|j: int|
            lo <= j < hi ==> (#[trigger] t2[j]).content == t1[j].content && t2[j].children
                == t1[j].children,
        forall|j: int, m: int|
            #![trigger t1[j].children[m]]
            lo <= j < hi && 0 <= m < t1[j].children.len() ==> j < t1[j].children[m] < hi,
    ensures
        child_fragments(t2, i, k) == child_fragments(t1, i, k),
    decreases hi - i, 0int, t1[i].children.len() - k,
{
    assert(t2[i].children == t1[i].children);
    if k < t1[i].children.len() {
        let c = t1[i].children[k] as int;
        assert(i < c < hi);
        lemma_fragment_frame(t1, t2, c, lo, hi);
        lemma_child_fragments_frame(t1, t2, i, k + 1, lo, hi);
    }
}

/// The arena after the attribute `k` of element `id` is set to `v`.
pub open spec fn set_attr_model(t: Seq<NodeModel>, id: int, k: Seq<char>, v: Seq<char>) -> Seq<
    NodeModel,
> {
    match t[id].content {
        ContentModel::Tag(name, attrs) => t.update(
            id,
            NodeModel {
                content: ContentModel::Tag(name, put(attrs, k, v)),
                parent: t[id].parent,
                children: t[id].children,
            },
        ),
        _ => t,
    }
}

/// The arena after the attribute `k` of element `id` is removed.
pub open spec fn clear_attr_model(t: Seq<NodeModel>, id: int, k: Seq<char>) -> Seq<NodeModel> {
    match t[id].content {
        ContentModel::Tag(name, attrs) => t.update(
            id,
            NodeModel {
                content: ContentModel::Tag(name, without(attrs, k)),
                parent: t[id].parent,
                children: t[id].children,
            },
        ),
        _ => t,
    }
}

/// Changing the content of one node keeps the arena consistent.
pub proof fn lemma_content_update_wf(t: Seq<NodeModel>, id: int, c: ContentModel)
    requires
        wf(t),
        0 <= id < t.len(),
    ensures
        wf(t.update(id, NodeModel { content: c, parent: t[id].parent, children: t[id].children })),
{
    let t2 = t.update(id, NodeModel { content: c, parent: t[id].parent, children: t[id].children });
    assert forall|i: int, k: int|
        #![trigger t2[i].children[k]]
        0 <= i < t2.len() && 0 <= k < t2[i].children.len() implies i < t2[i].children[k] < t2.len()
        && t2[t2[i].children[k] as int].parent == Some(i as usize) by {
        assert(t2[i].children == t[i].children);
        assert(t[i].children[k] == t2[i].children[k]);
    }
    assert forall|i: int| #![trigger t2[i].parent] 0 <= i < t2.len() implies match t2[i].parent {
        Some(q) => q < i && t2[q as int].children.contains(i as usize),
        None => true,
    } by {
        assert(t2[i].parent == t[i].parent);
        if let Some(q) = t[i].parent {
            assert(t2[q as int].children == t[q as int].children);
        }
    }
    assert forall|i: int| #![trigger t2[i].children] 0 <= i < t2.len() implies t2[i].children.no_duplicates() by {
        assert(t2[i].children == t[i].children);
    }
}

/// The arena after the subtree below node `id` is copied: a new parentless node with the
/// content of `id`, then, child by child, a copy of the child's subtree appended to it.
/// Only nodes below `bound` are copied.
pub open spec fn copy_model(t: Seq<NodeModel>, id: int, bound: int) -> Seq<NodeModel>
    decreases bound - id, 1int, 0int,
{
    if 0 <= id < bound && id < t.len() {
        let t1 = t.push(NodeModel { content: t[id].content, parent: None, children: Seq::empty() });
        copy_children_model(t1, t.len() as int, id, bound, t[id].children.len() as int)
    } else {
        t
    }
}

/// The arena after the copies of the first `k` children of `id` are appended to node `r`.
pub open spec fn copy_children_model(
    t: Seq<NodeModel>,
    r: int,
    id: int,
    bound: int,
    k: int,
) -> Seq<NodeModel>
    decreases bound - id, 0int, k,
{
    if k <= 0 || !(0 <= id < bound) || id >= t.len() || k > t[id].children.len() {
        t
    } else {
        let t1 = copy_children_model(t, r, id, bound, k - 1);
        let c = t[id].children[k - 1] as int;
        if id < c < bound {
            let t2 = copy_model(t1, c, bound);
            append_model(t2, r, t1.len() as int)
        } else {
            t1
        }
    }
}

/// Copying a subtree leaves the nodes already there as they were and adds at least one
/// node, the parentless root of the copy, at the end.
pub proof fn lemma_copy_frame(t: Seq<NodeModel>, id: int, bound: int)
    requires
        bound <= t.len(),
    ensures
        copy_model(t, id, bound).len() >= t.len(),
        forall|j: int| 0 <= j < t.len() ==> #[trigger] copy_model(t, id, bound)[j] == t[j],
        0 <= id < bound ==> copy_model(t, id, bound).len() > t.len() && copy_model(t, id, bound)[t.len() as int].parent is None,
    decreases bound - id, 1int, 0int,
{
    if 0 <= id < bound && id < t.len() {
        let t1 = t.push(NodeModel { content: t[id].content, parent: None, children: Seq::empty() });
        lemma_copy_children_frame(t1, t.len() as int, id, bound, t[id].children.len() as int);
        let u = copy_model(t, id, bound);
        assert forall|j: int| 0 <= j < t.len() implies #[trigger] u[j] == t[j] by {
            assert(t1[j] == t[j]);
        }
    }
}

/// Copying the children of a node below root `r` changes, of the nodes already there, only
/// the children of `r`.
pub proof fn lemma_copy_children_frame(t: Seq<NodeModel>, r: int, id: int, bound: int, k: int)
    requires
        bound <= t.len(),
        0 <= r < t.len(),
        t[r].parent is None,
    ensures
        copy_children_model(t, r, id, bound, k).len() >= t.len(),
        forall|j: int| 0 <= j < t.len() && j != r ==> #[trigger] copy_children_model(t, r, id, bound, k)[j] == t[j],
        copy_children_model(t, r, id, bound, k)[r].parent is None,
    decreases bound - id, 0int, k,
{
    if k <= 0 || !(0 <= id < bound) || id >= t.len() || k > t[id].children.len() {
    } else {
        lemma_copy_children_frame(t, r, id, bound, k - 1);
        let t1 = copy_children_model(t, r, id, bound, k - 1);
        let c = t[id].children[k - 1] as int;
        if id < c < bound {
            lemma_copy_frame(t1, c, bound);
            let t2 = copy_model(t1, c, bound);
            let x = t1.len() as int;
            assert(detach_model(t2, x) == t2);
            let u = append_model(t2, r, x);
            assert(u == copy_children_model(t, r, id, bound, k));
            assert forall|j: int| 0 <= j < t.len() && j != r implies #[trigger] u[j] == t[j] by {
                assert(t2[j] == t1[j]);
            }
            assert(u[r].parent == t2[r].parent);
        }
    }
}

/// The arena a copy of node `id` starts from: a new parentless node with its content.
pub open spec fn with_copy_root(t: Seq<NodeModel>, id: int) -> Seq<NodeModel> {
    t.push(NodeModel { content: t[id].content, parent: None, children: Seq::empty() })
}

/// A copy of a subtree keeps the arena consistent, its nodes refer only to one another, and
/// its root holds the same fragment as the node copied.
pub proof fn lemma_copy_fragment(t: Seq<NodeModel>, id: int, bound: int)
    requires
        wf(t),
        0 <= id < bound <= t.len(),
        closed(t, 0, bound),
        copy_model(t, id, bound).len() <= usize::MAX,
    ensures
        wf(copy_model(t, id, bound)),
        closed(copy_model(t, id, bound), t.len() as int, copy_model(t, id, bound).len() as int),
        fragment(copy_model(t, id, bound), t.len() as int) == fragment(t, id),
    decreases bound - id, 1int, 0int,
{
    let n = t[id].children.len() as int;
    lemma_copy_children_fragment(t, id, bound, n);
    let u = copy_model(t, id, bound);
    let l0 = t.len() as int;
    lemma_fragment(u, l0);
    lemma_fragment(t, id);
    assert(fragment(u, l0).children =~= fragment(t, id).children);
}

/// The copies of the first `k` children of node `id`, appended to the new root: the arena
/// stays consistent, keeps the nodes that were there, and the root has `k` children whose
/// fragments are those of the children copied.
pub proof fn lemma_copy_children_fragment(t: Seq<NodeModel>, id: int, bound: int, k: int)
    requires
        wf(t),
        0 <= id < bound <= t.len(),
        closed(t, 0, bound),
        0 <= k <= t[id].children.len(),
        copy_children_model(with_copy_root(t, id), t.len() as int, id, bound, k).len() <= usize::MAX,
    ensures
        ({
            let u = copy_children_model(with_copy_root(t, id), t.len() as int, id, bound, k);
            let r = t.len() as int;
            &&& wf(u)
            &&& r < u.len()
            &&& forall|j: int| 0 <= j < r ==> #[trigger] u[j] == t[j]
            &&& u[r].content == t[id].content
            &&& u[r].parent is None
            &&& u[r].children.len() == k
            &&& closed(u, r, u.len() as int)
            &&& forall|j: int|
                0 <= j < k ==> fragment(u, #[trigger] u[r].children[j] as int) == fragment(
                    t,
                    t[id].children[j] as int,
                )
        }),
    decreases bound - id, 0int, k,
{
    let tr = with_copy_root(t, id);
    let r = t.len() as int;
    assert(tr[id] == t[id]);
    if k == 0 {
        assert(wf(tr)) by {
            assert forall|i: int, m: int|
                #![trigger tr[i].children[m]]
                0 <= i < tr.len() && 0 <= m < tr[i].children.len() implies i < tr[i].children[m] < tr.len()
                && tr[tr[i].children[m] as int].parent == Some(i as usize) by {
                assert(tr[i] == t[i]);
                assert(tr[tr[i].children[m] as int] == t[t[i].children[m] as int]);
            }
            assert forall|i: int| #![trigger tr[i].parent] 0 <= i < tr.len() implies match tr[i].parent {
                Some(p) => p < i && tr[p as int].children.contains(i as usize),
                None => true,
            } by {
                if i < r {
                    assert(tr[i] == t[i]);
                    if let Some(p) = t[i].parent {
                        assert(tr[p as int] == t[p as int]);
                    }
                }
            }
            assert forall|i: int| #![trigger tr[i].children] 0 <= i < tr.len() implies tr[i].children.no_duplicates() by {
                if i < r {
                    assert(tr[i] == t[i]);
                }
            }
        }
    } else {
        let c = t[id].children[k - 1] as int;
        assert(id < c < bound);
        let t1 = copy_children_model(tr, r, id, bound, k - 1);
        lemma_copy_children_frame(tr, r, id, bound, k - 1);
        lemma_copy_frame(t1, c, bound);
        let t2 = copy_model(t1, c, bound);
        let cc = t1.len() as int;
        let t3 = append_model(t2, r, cc);
        assert(t3 == copy_children_model(tr, r, id, bound, k));
        assert(t3.len() == t2.len());
        lemma_copy_children_fragment(t, id, bound, k - 1);
        assert forall|j: int| 0 <= j < r implies #[trigger] t1[j] == t[j] by {}
        assert(closed(t1, 0, bound)) by {
            assert forall|j: int, m: int|
                #![trigger t1[j].children[m]]
                0 <= j < bound && 0 <= m < t1[j].children.len() implies t1[j].children[m] < bound by {
                assert(t1[j] == t[j]);
            }
        }
        lemma_copy_fragment(t1, c, bound);
        assert forall|j: int| 0 <= j < t1.len() implies #[trigger] t2[j] == t1[j] by {}
        lemma_append_wf(t2, r, cc);
        lemma_detach_wf(t2, cc);
        assert(detach_model(t2, cc) == t2);
        assert forall|j: int| 0 <= j < t3.len() && j != r && j != cc implies #[trigger] t3[j] == t2[j] by {}
        assert forall|j: int|
            cc <= j < t2.len() implies (#[trigger] t3[j]).content == t2[j].content && t3[j].children
            == t2[j].children by {}
        lemma_fragment_frame(t2, t3, cc, cc, t2.len() as int);
        lemma_fragment_frame(t, t1, c, 0, bound);
        assert forall|j: int|
            0 <= j < k implies fragment(t3, #[trigger] t3[r].children[j] as int) == fragment(
                t,
                t[id].children[j] as int,
            ) by {
            if j < k - 1 {
                let x = t1[r].children[j] as int;
                assert(t3[r].children[j] == t1[r].children[j]);
                assert(r < x < t1.len());
                assert forall|m: int| x <= m < t1.len() implies (#[trigger] t3[m]).content == t1[m].content
                    && t3[m].children == t1[m].children by {}
                lemma_fragment_frame(t1, t3, x, x, t1.len() as int);
            } else {
                assert(t3[r].children[j] == cc);
            }
        }
        assert forall|j: int, m: int|
            #![trigger t3[j].children[m]]
            r <= j < t3.len() && 0 <= m < t3[j].children.len() implies t3[j].children[m] < t3.len() by {
            if j != r && j != cc {
                assert(t3[j] == t2[j]);
                if j < t1.len() {
                    assert(t2[j] == t1[j]);
                }
            }
        }
        assert forall|j: int| 0 <= j < r implies #[trigger] t3[j] == t[j] by {
            assert(t3[j] == t2[j]);
            assert(t2[j] == t1[j]);
        }
    }
}

/// The position of `x` in `v`, which holds it.
fn position_of(v: &Vec<usize>, x: usize) -> (k: usize)
    requires
        v@.contains(x),
    ensures
        k == first_index(v@, x),
{
    proof {
        lemma_first_index(v@, x);
    }
    let mut k: usize = 0;
    while v[k] != x
        invariant
            0 <= k <= first_index(v@, x),
            v@.len() == v.len(),
            first_index(v@, x) < v@.len(),
            v@[first_index(v@, x)] == x,
            forall|j: int| 0 <= j < first_index(v@, x) ==> v@[j] != x,
        decreases first_index(v@, x) - k,
    {
        k = k + 1;
    }
    k
}

impl HtmlTree {
    /// An empty arena.
    pub fn new() -> (r: Self)
        ensures
            r@ == Seq::<NodeModel>::empty(),
            wf(r@),
    {
        HtmlTree { nodes: Vec::new() }
    }

    /// The number of nodes.
    pub fn len(&self) -> (r: usize)
        ensures
            r == self@.len(),
    {
        self.nodes.len()
    }

    /// The content of node `id`.
    pub fn content(&self, id: usize) -> (r: &HtmlContent)
        requires
            id < self@.len(),
        ensures
            r@ == self@[id as int].content,
    {
        &self.nodes[id].content
    }

    /// The parent of node `id`.
    pub fn parent(&self, id: usize) -> (r: Option<usize>)
        requires
            id < self@.len(),
        ensures
            r == self@[id as int].parent,
    {
        self.nodes[id].parent
    }

    /// The children of node `id`, in order.
    pub fn children(&self, id: usize) -> (r: &Vec<usize>)
        requires
            id < self@.len(),
        ensures
            r@ == self@[id as int].children,
    {
        &self.nodes[id].children
    }

    /// The first child of node `id`, if any.
    pub fn first_child(&self, id: usize) -> (r: Option<usize>)
        requires
            id < self@.len(),
        ensures
            r == (if self@[id as int].children.len() > 0 {
                Some(self@[id as int].children[0])
            } else {
                None
            }),
    {
        let children = &self.nodes[id].children;
        if children.len() > 0 {
            Some(children[0])
        } else {
            None
        }
    }

    /// The last child of node `id`, if any.
    pub fn last_child(&self, id: usize) -> (r: Option<usize>)
        requires
            id < self@.len(),
        ensures
            r == (if self@[id as int].children.len() > 0 {
                Some(self@[id as int].children.last())
            } else {
                None
            }),
    {
        let children = &self.nodes[id].children;
        if children.len() > 0 {
            Some(children[children.len() - 1])
        } else {
            None
        }
    }

    /// The sibling just after node `id`, if any.
    pub fn next_sibling(&self, id: usize) -> (r: Option<usize>)
        requires
            wf(self@),
            id < self@.len(),
        ensures
            r == (match self@[id as int].parent {
                Some(p) => {
                    let ch = self@[p as int].children;
                    let k = first_index(ch, id);
                    if k + 1 < ch.len() {
                        Some(ch[k + 1])
                    } else {
                        None
                    }
                },
                None => None,
            }),
    {
        match self.nodes[id].parent {
            Some(p) => {
                assert(self@[p as int].children.contains(id));
                let k = position_of(&self.nodes[p].children, id);
                proof {
                    lemma_first_index(self@[p as int].children, id);
                }
                if k < self.nodes[p].children.len() - 1 {
                    Some(self.nodes[p].children[k + 1])
                } else {
                    None
                }
            },
            None => None,
        }
    }

    /// Adds a node without parent and children; returns its index.
    pub fn create(&mut self, content: HtmlContent) -> (id: usize)
        requires
            wf(old(self)@),
        ensures
            id == old(self)@.len(),
            final(self)@ == old(self)@.push(
                NodeModel { content: content@, parent: None, children: Seq::empty() },
            ),
            wf(final(self)@),
    {
        let ghost t = self@;
        self.nodes.push(HtmlNode { content, parent: None, children: Vec::new() });
        let id = self.nodes.len() - 1;
        proof {
            let nm = NodeModel { content: content@, parent: None, children: Seq::<usize>::empty() };
            assert(self@ =~= t.push(nm));
            let t2 = self@;
            assert forall|i: int, k: int|
                #![trigger t2[i].children[k]]
                0 <= i < t2.len() && 0 <= k < t2[i].children.len() implies i < t2[i].children[k]
                < t2.len() && t2[t2[i].children[k] as int].parent == Some(i as usize) by {
                assert(t2[i] == t[i]);
            }
            assert forall|i: int| #![trigger t2[i].parent] 0 <= i < t2.len() implies match t2[i].parent {
                Some(q) => q < i && t2[q as int].children.contains(i as usize),
                None => true,
            } by {
                if i < t.len() {
                    assert(t2[i] == t[i]);
                    if let Some(q) = t[i].parent {
                        assert(t2[q as int] == t[q as int]);
                    }
                }
            }
            assert forall|i: int| #![trigger t2[i].children] 0 <= i < t2.len() implies t2[i].children.no_duplicates() by {
                if i < t.len() {
                    assert(t2[i] == t[i]);
                }
            }
        }
        id
    }

    /// Takes node `c` out of its parent's children.
    pub fn detach(&mut self, c: usize)
        requires
            wf(old(self)@),
            c < old(self)@.len(),
        ensures
            final(self)@ == detach_model(old(self)@, c as int),
            wf(final(self)@),
    {
        let ghost t = self@;
        proof {
            lemma_detach_wf(t, c as int);
        }
        match self.nodes[c].parent {
            Some(p) => {
                assert(t[p as int].children.contains(c));
                let k = position_of(&self.nodes[p].children, c);
                proof {
                    lemma_first_index(t[p as int].children, c);
                }
                self.nodes[p].children.remove(k);
                self.nodes[c].parent = None;
                assert(self@ =~= detach_model(t, c as int));
            },
            None => {},
        }
    }
}

impl HtmlContent {
    /// A copy of the content.
    pub fn duplicate(&self) -> (r: Self)
        ensures
            r@ == self@,
    {
        match self {
            HtmlContent::Document(d) => HtmlContent::Document(HtmlDocument { doctype: d.doctype }),
            HtmlContent::Tag(t) => HtmlContent::Tag(
                HtmlTag { name: t.name.clone(), attributes: t.attributes.duplicate() },
            ),
            HtmlContent::Text(s) => HtmlContent::Text(s.clone()),
            HtmlContent::Comment(s) => HtmlContent::Comment(s.clone()),
        }
    }
}

impl HtmlTree {
    /// Detaches node `c` and adds it as the last child of `p`.
    pub fn append(&mut self, p: usize, c: usize)
        requires
            wf(old(self)@),
            p < c < old(self)@.len(),
        ensures
            final(self)@ == append_model(old(self)@, p as int, c as int),
            wf(final(self)@),
    {
        let ghost t = self@;
        proof {
            lemma_append_wf(t, p as int, c as int);
        }
        self.detach(c);
        self.nodes[p].children.push(c);
        self.nodes[c].parent = Some(p);
        assert(self@ =~= append_model(t, p as int, c as int));
    }

    /// Detaches node `c` and adds it as first child of `p`.
    pub fn prepend(&mut self, p: usize, c: usize)
        requires
            wf(old(self)@),
            p < c < old(self)@.len(),
        ensures
            final(self)@ == prepend_model(old(self)@, p as int, c as int),
            wf(final(self)@),
    {
        let ghost t = self@;
        proof {
            lemma_prepend_wf(t, p as int, c as int);
        }
        self.detach(c);
        self.nodes[p].children.insert(0, c);
        self.nodes[c].parent = Some(p);
        assert(self@[p as int].children =~= seq![c] + detach_model(t, c as int)[p as int].children);
        assert(self@ =~= prepend_model(t, p as int, c as int));
    }

    /// Detaches node `c` and, where `n` has a parent, adds it to that parent just before `n`.
    pub fn insert_before(&mut self, n: usize, c: usize)
        requires
            wf(old(self)@),
            n < c < old(self)@.len(),
        ensures
            final(self)@ == insert_before_model(old(self)@, n as int, c as int),
            wf(final(self)@),
    {
        let ghost t = self@;
        proof {
            lemma_insert_before_wf(t, n as int, c as int);
            lemma_detach_wf(t, c as int);
        }
        self.detach(c);
        let ghost t1 = self@;
        match self.nodes[n].parent {
            Some(q) => {
                assert(t1[q as int].children.contains(n));
                let k = position_of(&self.nodes[q].children, n);
                proof {
                    lemma_first_index(t1[q as int].children, n);
                }
                self.nodes[q].children.insert(k, c);
                self.nodes[c].parent = Some(q);
                assert(self@ =~= insert_before_model(t, n as int, c as int));
            },
            None => {},
        }
    }

    /// Sets the attribute `key` of element `id` to `value`; other nodes are left alone.
    pub fn set_attribute(&mut self, id: usize, key: String, value: String)
        requires
            wf(old(self)@),
            id < old(self)@.len(),
        ensures
            final(self)@ == set_attr_model(old(self)@, id as int, key@, value@),
            wf(final(self)@),
    {
        let ghost t = self@;
        match &mut self.nodes[id].content {
            HtmlContent::Tag(tag) => {
                tag.attributes.insert(key, value);
            },
            _ => {},
        }
        proof {
            if let ContentModel::Tag(name, attrs) = t[id as int].content {
                assert(self@ =~= set_attr_model(t, id as int, key@, value@));
                lemma_content_update_wf(t, id as int, ContentModel::Tag(name, put(attrs, key@, value@)));
            } else {
                assert(self@ =~= t);
            }
        }
    }

    /// Removes the attribute `key` of element `id`; other nodes are left alone.
    pub fn clear_attribute(&mut self, id: usize, key: &str)
        requires
            wf(old(self)@),
            id < old(self)@.len(),
        ensures
            final(self)@ == clear_attr_model(old(self)@, id as int, key@),
            wf(final(self)@),
    {
        let ghost t = self@;
        match &mut self.nodes[id].content {
            HtmlContent::Tag(tag) => {
                tag.attributes.remove(key);
            },
            _ => {},
        }
        proof {
            if let ContentModel::Tag(name, attrs) = t[id as int].content {
                assert(self@ =~= clear_attr_model(t, id as int, key@));
                lemma_content_update_wf(t, id as int, ContentModel::Tag(name, without(attrs, key@)));
            } else {
                assert(self@ =~= t);
            }
        }
    }
}

impl HtmlTree {
    /// Adds a copy of the subtree below node `id` as a new tree without parent; returns its root.
    pub fn deep_copy(&mut self, id: usize) -> (r: usize)
        requires
            wf(old(self)@),
            id < old(self)@.len(),
        ensures
            wf(final(self)@),
            r == old(self)@.len(),
            r < final(self)@.len(),
            final(self)@.subrange(0, old(self)@.len() as int) == old(self)@,
            final(self)@[r as int].parent is None,
            closed(final(self)@, old(self)@.len() as int, final(self)@.len() as int),
            fragment(final(self)@, r as int) == fragment(old(self)@, id as int),
            final(self)@ == copy_model(old(self)@, id as int, old(self)@.len() as int),
    {
        self.copy_subtree(id, Ghost(self@.len() as int))
    }

    fn copy_subtree(&mut self, id: usize, Ghost(bound): Ghost<int>) -> (r: usize)
        requires
            wf(old(self)@),
            id < bound <= old(self)@.len(),
            closed(old(self)@, 0, bound),
        ensures
            wf(final(self)@),
            r == old(self)@.len(),
            r < final(self)@.len(),
            final(self)@.subrange(0, old(self)@.len() as int) == old(self)@,
            final(self)@[r as int].parent is None,
            closed(final(self)@, old(self)@.len() as int, final(self)@.len() as int),
            fragment(final(self)@, r as int) == fragment(old(self)@, id as int),
            final(self)@ == copy_model(old(self)@, id as int, bound),
        decreases bound - id,
    {
        let ghost t0 = self@;
        let ghost l0 = t0.len() as int;
        let content = self.nodes[id].content.duplicate();
        let r = self.create(content);
        let ghost tr = self@;
        let n = self.nodes[id].children.len();
        assert(self@.subrange(0, l0) =~= t0);
        for k in 0..n
            invariant
                tr == t0.push(NodeModel { content: t0[id as int].content, parent: None, children: Seq::empty() }),
                self@ == copy_children_model(tr, r as int, id as int, bound, k as int),
                wf(self@),
                r == l0,
                l0 < self@.len(),
                id < bound <= l0,
                closed(t0, 0, bound),
                wf(t0),
                n == t0[id as int].children.len(),
                self@.subrange(0, l0) == t0,
                self@[r as int].content == t0[id as int].content,
                self@[r as int].parent is None,
                self@[r as int].children.len() == k,
                closed(self@, l0, self@.len() as int),
                forall|j: int|
                    0 <= j < k ==> fragment(self@, #[trigger] self@[r as int].children[j] as int)
                        == fragment(t0, t0[id as int].children[j] as int),
        {
            let ghost t1 = self@;
            assert(t1[id as int] == t0[id as int]);
            let c = self.nodes[id].children[k];
            assert(id < c < bound);
            proof {
                assert forall|j: int| 0 <= j < l0 implies #[trigger] t1[j] == t0[j] by {
                    assert(t1.subrange(0, l0)[j] == t1[j]);
                }
                assert forall|j: int, m: int|
                    #![trigger t1[j].children[m]]
                    0 <= j < bound && 0 <= m < t1[j].children.len() implies t1[j].children[m]
                        < bound by {
                    assert(t1[j] == t0[j]);
                }
            }
            let cc = self.copy_subtree(c, Ghost(bound));
            let ghost t2 = self@;
            proof {
                assert forall|j: int| 0 <= j < t1.len() implies #[trigger] t2[j] == t1[j] by {
                    assert(t2.subrange(0, t1.len() as int)[j] == t2[j]);
                }
                assert(cc > r);
            }
            self.append(r, cc);
            let ghost t3 = self@;
            proof {
                assert(tr[id as int] == t0[id as int]);
                assert(copy_children_model(tr, r as int, id as int, bound, k + 1) == t3);
                lemma_detach_wf(t2, cc as int);
                assert(detach_model(t2, cc as int) == t2);
                assert forall|j: int| 0 <= j < t3.len() && j != r && j != cc implies #[trigger] t3[j]
                    == t2[j] by {}
                // the copy of child `c`
                assert forall|j: int|
                    cc <= j < t2.len() implies (#[trigger] t3[j]).content == t2[j].content
                    && t3[j].children == t2[j].children by {}
                lemma_fragment_frame(t2, t3, cc as int, cc as int, t2.len() as int);
                lemma_fragment_frame(t0, t1, c as int, 0, bound);
                assert(t1.subrange(0, l0) == t0);
                // the copies of the earlier children
                assert forall|j: int|
                    0 <= j < k + 1 implies fragment(t3, #[trigger] t3[r as int].children[j] as int)
                        == fragment(t0, t0[id as int].children[j] as int) by {
                    if j < k {
                        let x = t1[r as int].children[j] as int;
                        assert(t3[r as int].children[j] == t1[r as int].children[j]);
                        assert(r < x < t1.len());
                        assert forall|m: int| x <= m < t1.len() implies (#[trigger] t3[m]).content
                            == t1[m].content && t3[m].children == t1[m].children by {}
                        lemma_fragment_frame(t1, t3, x, x, t1.len() as int);
                    } else {
                        assert(t3[r as int].children[j] == cc);
                    }
                }
                assert forall|j: int, m: int|
                    #![trigger t3[j].children[m]]
                    l0 <= j < t3.len() && 0 <= m < t3[j].children.len() implies t3[j].children[m]
                        < t3.len() by {
                    if j != r && j != cc {
                        assert(t3[j] == t2[j]);
                        if j < t1.len() {
                            assert(t2[j] == t1[j]);
                        }
                    }
                }
                assert(t3.subrange(0, l0) =~= t0) by {
                    assert forall|j: int| 0 <= j < l0 implies t3.subrange(0, l0)[j] == t0[j] by {
                        assert(t3[j] == t2[j]);
                        assert(t2[j] == t1[j]);
                        assert(t1.subrange(0, l0)[j] == t1[j]);
                    }
                }
            }
        }
        proof {
            let t = self@;
            lemma_fragment(t, r as int);
            lemma_fragment(t0, id as int);
            assert(fragment(t, r as int).children =~= fragment(t0, id as int).children);
        }
        r
    }
}

} // verus!
