//! Properties of the library as a whole.
use vstd::prelude::*;
use crate::element_processing::ProcessingModel;
use crate::html::attributes::{lookup, put, seq_less, sorted, without, lemma_seq_less_total, lemma_seq_less_transitive, lemma_seq_less_irreflexive};
use crate::semantics::{
    FilesModel, PipelineErrorModel, ValueTarget, add_child, clear_content_all, command_run, commands_run,
    prepend_child, clear_attr_all, write_all, CommandErrorModel,
    copy_roots, insert_copies,
    detach_all, write_value, joined_value,
};
use crate::html::tree::{
    ContentModel, Fragment, NodeModel, clear_attr_model, set_attr_model, closed, copy_model, detach_model, first_index, fragment, insert_before_model,
    lemma_copy_fragment, lemma_copy_frame, lemma_detach_wf, lemma_first_index, lemma_fragment_frame,
    lemma_insert_before_wf, wf,
};
use crate::html::query::{
    first_element, related, descendants, child_descendants, lemma_descendants_valid,
    all_valid, dedup, filter_matching, lemma_dedup, path_outcome, paths_outcome, query_outcome,
    step_outcome,
};
use crate::html::matching::{
    attribute_outcome, attributes_outcome, has_class, is_space_separated_piece, is_white_space, occurs_at,
    selector_outcome,
    value_satisfies,
};
use crate::css::{AttributeSelectorModel, CssAttributeComparison, CssSelectorCombinator, SelectorModel, StepModel};
use crate::parsing::rules::{attribute_operator, css_selector, css_selector_step, lit};
use crate::values::{dashes_escaped, escape_char, escaped, newlines_escaped};
use crate::html::render::{concat_all, is_void_element, outer_children, outer_html, start_tag};

verus! {

/// A pipeline runs its commands one after the other: running `first + second` is running
/// `first`, then, where it succeeds, `second` on its result, with the indices of `second`
/// counted on from those of `first`.
pub proof fn law_pipeline_composition(
    t: Seq<NodeModel>,
    first: Seq<ProcessingModel>,
    second: Seq<ProcessingModel>,
    input: Seq<usize>,
    files: FilesModel,
    offset: int,
)
    ensures
        commands_run(t, first + second, input, files, offset) == ({
            let (t1, r) = commands_run(t, first, input, files, offset);
            match r {
                Err(e) => (t1, Err(e)),
                Ok(v) => commands_run(t1, second, v, files, offset + first.len()),
            }
        }),
    decreases second.len(),
{
    if second.len() == 0 {
        assert(first + second =~= first);
    } else {
        let all = first + second;
        assert(all.drop_last() =~= first + second.drop_last());
        assert(all.last() == second.last());
        law_pipeline_composition(t, first, second.drop_last(), input, files, offset);
        let (t1, r) = commands_run(t, first, input, files, offset);
        if let Ok(v) = r {
            assert(offset + all.len() - 1 == (offset + first.len()) + second.len() - 1);
        }
    }
}

/// Every command but EXTRACT-ELEMENT hands on, where it succeeds, the very nodes it was
/// given.
pub proof fn law_commands_keep_selection(
    t: Seq<NodeModel>,
    c: ProcessingModel,
    input: Seq<usize>,
    files: FilesModel,
)
    requires
        !(c is ExtractElement),
    ensures
        command_run(t, c, input, files).1 matches Ok(r) ==> r == input,
{
}

/// REPLACE, for one element `e`: afterwards `e` has no parent; its former parent `q` has, in
/// its place, the roots of new copies, one for each node handed to it, in order; the copy of
/// a node that comes after `q` in the arena (and so does not hold `q`, where the copies go)
/// holds what that node held; the arena stays consistent, and the other nodes that were
/// there are as they were.
pub proof fn law_replace_puts_copies_in_place(t: Seq<NodeModel>, e: int, news: Seq<usize>)
    requires
        wf(t),
        0 <= e < t.len(),
        t[e].parent is Some,
        forall|i: int| 0 <= i < news.len() ==> #[trigger] news[i] < t.len(),
        insert_copies(t, e, news).len() <= usize::MAX,
    ensures
        ({
            let u = detach_model(insert_copies(t, e, news), e);
            let q = t[e].parent->0 as int;
            let c = t[q].children;
            let pos = first_index(c, e as usize);
            let roots = copy_roots(t, e, news);
            &&& wf(u)
            &&& u[e].parent is None
            &&& u[q].children == c.take(pos) + roots + c.skip(pos + 1)
            &&& roots.len() == news.len()
            &&& forall|i: int| 0 <= i < roots.len() ==> #[trigger] roots[i] >= t.len()
            &&& forall|i: int|
                0 <= i < roots.len() && q < news[i] ==> fragment(u, #[trigger] roots[i] as int)
                    == fragment(t, news[i] as int)
            &&& forall|j: int| 0 <= j < t.len() && j != q && j != e ==> #[trigger] u[j] == t[j]
        }),
{
    let q = t[e].parent->0 as int;
    let c = t[q].children;
    lemma_first_index(c, e as usize);
    let pos = first_index(c, e as usize);
    lemma_insert_copies(t, e, news);
    let tn = insert_copies(t, e, news);
    let roots = copy_roots(t, e, news);
    let kids = c.take(pos) + roots + c.skip(pos);
    assert(kids[pos + roots.len()] == e as usize);
    lemma_first_index_after(c.take(pos) + roots, c.skip(pos), e as usize);
    assert(kids.remove(pos + roots.len()) =~= c.take(pos) + roots + c.skip(pos + 1));
    lemma_detach_wf(tn, e);
    let u = detach_model(tn, e);
    assert forall|j: int| t.len() <= j < tn.len() implies (#[trigger] u[j]).content == tn[j].content
        && u[j].children == tn[j].children by {}
    assert forall|i: int|
        0 <= i < roots.len() && q < news[i] implies fragment(u, #[trigger] roots[i] as int)
            == fragment(t, news[i] as int) by {
        lemma_fragment_frame(tn, u, roots[i] as int, t.len() as int, tn.len() as int);
    }
}

/// `x` is first found, in `a + b`, where `b` starts, when `a` does not hold it and `b`
/// starts with it.
proof fn lemma_first_index_after(a: Seq<usize>, b: Seq<usize>, x: usize)
    requires
        !a.contains(x),
        b.len() > 0,
        b[0] == x,
    ensures
        first_index(a + b, x) == a.len(),
{
    let s = a + b;
    assert(s[a.len() as int] == x);
    lemma_first_index(s, x);
    let f = first_index(s, x);
    if f < a.len() {
        assert(s[f] == a[f]);
    }
}

/// The arena after copies are inserted before `e`, one after the other: `e` keeps its
/// parent `q`, the roots of the copies stand before `e` among the children of `q`, and the
/// other nodes that were there are as they were.
proof fn lemma_insert_copies(t: Seq<NodeModel>, e: int, news: Seq<usize>)
    requires
        wf(t),
        0 <= e < t.len(),
        t[e].parent is Some,
        forall|i: int| 0 <= i < news.len() ==> #[trigger] news[i] < t.len(),
    ensures
        ({
            let u = insert_copies(t, e, news);
            let q = t[e].parent->0 as int;
            let c = t[q].children;
            let pos = first_index(c, e as usize);
            let roots = copy_roots(t, e, news);
            &&& u.len() >= t.len()
            &&& u[q].parent == t[q].parent
            &&& u[q].content == t[q].content
            &&& roots.len() == news.len()
            &&& forall|j: int| 0 <= j < t.len() && j != q ==> #[trigger] u[j] == t[j]
            &&& u.len() <= usize::MAX ==> {
                &&& wf(u)
                &&& u[q].children == c.take(pos) + roots + c.skip(pos)
                &&& forall|i: int| 0 <= i < roots.len() ==> t.len() <= #[trigger] roots[i] < u.len()
                &&& forall|i: int|
                    0 <= i < roots.len() && q < news[i] ==> fragment(u, #[trigger] roots[i] as int)
                        == fragment(t, news[i] as int)
            }
        }),
    decreases news.len(), 1int,
{
    let q = t[e].parent->0 as int;
    let c = t[q].children;
    lemma_first_index(c, e as usize);
    let pos = first_index(c, e as usize);
    assert(c.take(pos) + Seq::<usize>::empty() + c.skip(pos) =~= c);
    if news.len() > 0 {
        let before = news.drop_last();
        lemma_insert_copies(t, e, before);
        let t1 = insert_copies(t, e, before);
        let r0 = copy_roots(t, e, before);
        let x = t1.len() as int;
        assert(news[news.len() - 1] < t.len());
        lemma_copy_frame(t1, news.last() as int, x);
        let t2 = copy_model(t1, news.last() as int, x);
        assert(t2[e] == t1[e]);
        assert(t2[q] == t1[q]);
        assert(detach_model(t2, x) == t2);
        let u = insert_before_model(t2, e, x);
        assert(u == insert_copies(t, e, news));
        assert(u.len() == t2.len());
        assert forall|j: int| 0 <= j < t.len() && j != q implies #[trigger] u[j] == t[j] by {
            assert(t2[j] == t1[j]);
        }
        if u.len() <= usize::MAX {
            lemma_insert_copies_step(t, e, news);
        }
    }
}

/// One step of `lemma_insert_copies`, where the arena stays within the machine's bounds.
proof fn lemma_insert_copies_step(t: Seq<NodeModel>, e: int, news: Seq<usize>)
    requires
        wf(t),
        0 <= e < t.len(),
        t[e].parent is Some,
        forall|i: int| 0 <= i < news.len() ==> #[trigger] news[i] < t.len(),
        news.len() > 0,
        insert_copies(t, e, news).len() <= usize::MAX,
    ensures
        ({
            let u = insert_copies(t, e, news);
            let q = t[e].parent->0 as int;
            let c = t[q].children;
            let pos = first_index(c, e as usize);
            let roots = copy_roots(t, e, news);
            &&& wf(u)
            &&& u[q].children == c.take(pos) + roots + c.skip(pos)
            &&& forall|i: int| 0 <= i < roots.len() ==> t.len() <= #[trigger] roots[i] < u.len()
            &&& forall|i: int|
                0 <= i < roots.len() && q < news[i] ==> fragment(u, #[trigger] roots[i] as int)
                    == fragment(t, news[i] as int)
        }),
    decreases news.len(), 0int,
{
    let q = t[e].parent->0 as int;
    let c = t[q].children;
    lemma_first_index(c, e as usize);
    let pos = first_index(c, e as usize);
    let before = news.drop_last();
    lemma_insert_copies(t, e, before);
    let t1 = insert_copies(t, e, before);
    let r0 = copy_roots(t, e, before);
    let x = t1.len() as int;
    assert(news[news.len() - 1] < t.len());
    lemma_copy_frame(t1, news.last() as int, x);
    let t2 = copy_model(t1, news.last() as int, x);
    assert(t2[e] == t1[e]);
    assert(t2[q] == t1[q]);
    assert(detach_model(t2, x) == t2);
    let u = insert_before_model(t2, e, x);
    assert(u == insert_copies(t, e, news));
    assert(u.len() == t2.len());
    {
        let kids = c.take(pos) + r0 + c.skip(pos);
        assert(!(c.take(pos) + r0).contains(e as usize)) by {
            if (c.take(pos) + r0).contains(e as usize) {
                let j = choose|j: int| 0 <= j < (c.take(pos) + r0).len() && (c.take(pos) + r0)[j] == e as usize;
                if j < pos {
                    assert(c[j] == e as usize);
                } else {
                    assert(r0[j - pos] >= t.len());
                }
            }
        }
        assert(c.skip(pos)[0] == e as usize);
        lemma_first_index_after(c.take(pos) + r0, c.skip(pos), e as usize);
        let roots = copy_roots(t, e, news);
        assert(roots == r0.push(x as usize));
        assert(kids.insert(pos + r0.len(), x as usize) =~= c.take(pos) + roots + c.skip(pos));
        assert forall|i: int| 0 <= i < roots.len() implies t.len() <= #[trigger] roots[i] < u.len() by {
            if i < r0.len() {
                assert(roots[i] == r0[i]);
            }
        }
        // the arenas stay consistent, and the copies hold what was copied
        let n = news.last() as int;
        assert(closed(t1, 0, x)) by {
            assert forall|j: int, m: int|
                #![trigger t1[j].children[m]]
                0 <= j < x && 0 <= m < t1[j].children.len() implies t1[j].children[m] < x by {}
        }
        lemma_copy_fragment(t1, n, x);
        lemma_insert_before_wf(t2, e, x);
        assert forall|j: int| x <= j < t2.len() implies (#[trigger] u[j]).content == t2[j].content
            && u[j].children == t2[j].children by {}
        lemma_fragment_frame(t2, u, x, x, t2.len() as int);
        assert forall|j: int| t.len() <= j < x implies (#[trigger] u[j]).content == t1[j].content
            && u[j].children == t1[j].children by {
            assert(u[j] == t2[j]);
        }
        assert forall|i: int|
            0 <= i < roots.len() && q < news[i] implies fragment(u, #[trigger] roots[i] as int)
                == fragment(t, news[i] as int) by {
            if i < r0.len() {
                assert(roots[i] == r0[i]);
                assert(news[i] == before[i]);
                lemma_fragment_frame(t1, u, r0[i] as int, t.len() as int, x);
            } else {
                assert(roots[i] == x);
                assert(news[i] == n);
                assert forall|j: int| q + 1 <= j < t.len() implies (#[trigger] t1[j]).content == t[j].content
                    && t1[j].children == t[j].children by {}
                lemma_fragment_frame(t, t1, n, q + 1, t.len() as int);
            }
        }
    }
}

/// Reading an attribute after writing one gives the written value for that attribute and
/// the earlier value for any other.
pub proof fn law_attribute_read_after_write(
    e: Seq<(Seq<char>, Seq<char>)>,
    k: Seq<char>,
    v: Seq<char>,
    other: Seq<char>,
)
    ensures
        lookup(put(e, k, v), k) == Some(v),
        other != k ==> lookup(put(e, k, v), other) == lookup(e, other),
    decreases e.len(),
{
    if e.len() == 0 {
        assert(put(e, k, v).drop_first() =~= e);
    } else if e[0].0 != k && !seq_less(k, e[0].0) {
        law_attribute_read_after_write(e.drop_first(), k, v, other);
        assert(put(e, k, v)[0] == e[0]);
        assert(put(e, k, v).drop_first() =~= put(e.drop_first(), k, v));
    } else if e[0].0 == k {
        assert(put(e, k, v)[0] == (k, v));
        assert(put(e, k, v).drop_first() =~= e.drop_first());
    } else {
        assert(put(e, k, v)[0] == (k, v));
        assert(put(e, k, v).drop_first() =~= e);
    }
}

/// Reading an attribute after removing one gives nothing for that attribute and the
/// earlier value for any other.
pub proof fn law_attribute_read_after_remove(e: Seq<(Seq<char>, Seq<char>)>, k: Seq<char>, other: Seq<char>)
    ensures
        lookup(without(e, k), k) is None,
        other != k ==> lookup(without(e, k), other) == lookup(e, other),
    decreases e.len(),
{
    if e.len() > 0 {
        law_attribute_read_after_remove(e.drop_first(), k, other);
        if e[0].0 != k {
            assert((seq![e[0]] + without(e.drop_first(), k)).drop_first() =~= without(e.drop_first(), k));
        }
    }
}

/// The keys of entries `put` returns are the keys before and the new key.
proof fn lemma_put_keys(e: Seq<(Seq<char>, Seq<char>)>, k: Seq<char>, v: Seq<char>)
    ensures
        forall|i: int| 0 <= i < put(e, k, v).len() ==> (#[trigger] put(e, k, v)[i]).0 == k || exists|j: int|
            0 <= j < e.len() && e[j].0 == put(e, k, v)[i].0,
    decreases e.len(),
{
    if e.len() > 0 && e[0].0 != k && !seq_less(k, e[0].0) {
        lemma_put_keys(e.drop_first(), k, v);
        let r = put(e, k, v);
        assert forall|i: int| 0 <= i < r.len() implies (#[trigger] r[i]).0 == k || exists|j: int|
            0 <= j < e.len() && e[j].0 == r[i].0 by {
            if i == 0 {
                assert(e[0].0 == r[0].0);
            } else {
                assert(r[i] == put(e.drop_first(), k, v)[i - 1]);
                if r[i].0 != k {
                    let j = choose|j: int| 0 <= j < e.drop_first().len() && e.drop_first()[j].0 == r[i].0;
                    assert(e[j + 1].0 == r[i].0);
                }
            }
        }
    } else if e.len() > 0 && e[0].0 == k {
        let r = put(e, k, v);
        assert forall|i: int| 0 <= i < r.len() implies (#[trigger] r[i]).0 == k || exists|j: int|
            0 <= j < e.len() && e[j].0 == r[i].0 by {
            if i > 0 {
                assert(e[i].0 == r[i].0);
            }
        }
    } else if e.len() > 0 {
        let r = put(e, k, v);
        assert forall|i: int| 0 <= i < r.len() implies (#[trigger] r[i]).0 == k || exists|j: int|
            0 <= j < e.len() && e[j].0 == r[i].0 by {
            if i > 0 {
                assert(e[i - 1].0 == r[i].0);
            }
        }
    }
}

/// Writing an attribute keeps the attributes ordered by name, as they are written out.
pub proof fn law_attribute_write_keeps_order(e: Seq<(Seq<char>, Seq<char>)>, k: Seq<char>, v: Seq<char>)
    requires
        sorted(e),
    ensures
        sorted(put(e, k, v)),
    decreases e.len(),
{
    if e.len() > 0 && e[0].0 != k && !seq_less(k, e[0].0) {
        let rest = e.drop_first();
        assert forall|i: int, j: int| 0 <= i < j < rest.len() implies seq_less(#[trigger] rest[i].0, #[trigger] rest[j].0) by {
            assert(rest[i] == e[i + 1]);
            assert(rest[j] == e[j + 1]);
        }
        law_attribute_write_keeps_order(rest, k, v);
        lemma_put_keys(rest, k, v);
        lemma_seq_less_total(k, e[0].0);
        let r = put(e, k, v);
        assert forall|i: int, j: int| 0 <= i < j < r.len() implies seq_less(#[trigger] r[i].0, #[trigger] r[j].0) by {
            if i == 0 {
                assert(r[j] == put(rest, k, v)[j - 1]);
                if r[j].0 == k {
                } else {
                    let m = choose|m: int| 0 <= m < rest.len() && rest[m].0 == put(rest, k, v)[j - 1].0;
                    assert(rest[m] == e[m + 1]);
                }
            } else {
                assert(r[i] == put(rest, k, v)[i - 1]);
                assert(r[j] == put(rest, k, v)[j - 1]);
            }
        }
    } else if e.len() > 0 && e[0].0 == k {
        let r = put(e, k, v);
        assert forall|i: int, j: int| 0 <= i < j < r.len() implies seq_less(#[trigger] r[i].0, #[trigger] r[j].0) by {
            assert(r[j].0 == e[j].0);
            if i > 0 {
                assert(r[i].0 == e[i].0);
            }
        }
    } else if e.len() > 0 {
        let r = put(e, k, v);
        assert forall|i: int, j: int| 0 <= i < j < r.len() implies seq_less(#[trigger] r[i].0, #[trigger] r[j].0) by {
            assert(r[j] == e[j - 1]);
            if i > 0 {
                assert(r[i] == e[i - 1]);
            } else if j - 1 > 0 {
                lemma_seq_less_transitive(k, e[0].0, e[j - 1].0);
            }
        }
    }
}

/// Detaching the first `k` children of node `n`, one after the other, leaves it the others.
pub proof fn lemma_detach_children(t: Seq<NodeModel>, n: int, k: int)
    requires
        wf(t),
        0 <= n < t.len(),
        0 <= k <= t[n].children.len(),
    ensures
        wf(detach_all(t, t[n].children.take(k))),
        detach_all(t, t[n].children.take(k)).len() == t.len(),
        detach_all(t, t[n].children.take(k))[n].children == t[n].children.skip(k),
    decreases k,
{
    let ch = t[n].children;
    if k == 0 {
        assert(ch.take(0) =~= Seq::<usize>::empty());
        assert(ch.skip(0) =~= ch);
    } else {
        lemma_detach_children(t, n, k - 1);
        let tk = detach_all(t, ch.take(k - 1));
        assert(ch.take(k).drop_last() =~= ch.take(k - 1));
        let c = ch[k - 1];
        assert(tk[n].children[0] == c);
        assert(tk[c as int].parent == Some(n as usize));
        assert(first_index(tk[n].children, c) == 0);
        lemma_detach_wf(tk, c as int);
        assert(detach_model(tk, c as int)[n].children =~= ch.skip(k));
    }
}

/// Detaching never gives a node children.
pub proof fn lemma_detach_all_keeps_childless(t: Seq<NodeModel>, s: Seq<usize>, x: int)
    requires
        wf(t),
        all_valid(t, s),
        0 <= x < t.len(),
        t[x].children.len() == 0,
    ensures
        wf(detach_all(t, s)),
        detach_all(t, s).len() == t.len(),
        detach_all(t, s)[x].children.len() == 0,
    decreases s.len(),
{
    if s.len() > 0 {
        assert forall|j: int| 0 <= j < s.drop_last().len() implies #[trigger] s.drop_last()[j] < t.len() by {
            assert(s.drop_last()[j] == s[j]);
        }
        lemma_detach_all_keeps_childless(t, s.drop_last(), x);
        let t1 = detach_all(t, s.drop_last());
        lemma_detach_wf(t1, s.last() as int);
        if t1[s.last() as int].parent == Some(x as usize) {
            assert(t1[x].children.contains(s.last()));
        }
    }
}

/// CLEAR-CONTENT: afterwards none of the nodes it ran on has children.
pub proof fn law_clear_content_leaves_no_children(t: Seq<NodeModel>, input: Seq<usize>, k: int)
    requires
        wf(t),
        all_valid(t, input),
        0 <= k <= input.len(),
    ensures
        wf(clear_content_all(t, input, k)),
        clear_content_all(t, input, k).len() == t.len(),
        forall|j: int| 0 <= j < k ==> (#[trigger] clear_content_all(t, input, k)[input[j] as int]).children.len() == 0,
    decreases k,
{
    if k > 0 {
        law_clear_content_leaves_no_children(t, input, k - 1);
        let t1 = clear_content_all(t, input, k - 1);
        let n = input[k - 1] as int;
        let ch = t1[n].children;
        lemma_detach_children(t1, n, ch.len() as int);
        assert(ch.take(ch.len() as int) =~= ch);
        let t2 = clear_content_all(t, input, k);
        assert(t2 == detach_all(t1, ch));
        assert forall|j: int| 0 <= j < k implies (#[trigger] t2[input[j] as int]).children.len() == 0 by {
            if j < k - 1 {
                assert(all_valid(t1, ch));
                lemma_detach_all_keeps_childless(t1, ch, input[j] as int);
            } else {
                assert(ch.skip(ch.len() as int).len() == 0);
            }
        }
    }
}

/// The arena after a new child is added to node `n`: its children are the old ones and
/// then the new node, which holds the given content.
pub proof fn law_add_child(t: Seq<NodeModel>, n: int, c: ContentModel)
    requires
        wf(t),
        0 <= n < t.len(),
    ensures
        add_child(t, n, c).len() == t.len() + 1,
        add_child(t, n, c)[n].children == t[n].children.push(t.len() as usize),
        add_child(t, n, c)[t.len() as int].content == c,
        add_child(t, n, c)[t.len() as int].parent == Some(n as usize),
{
    let t1 = t.push(NodeModel { content: c, parent: None, children: Seq::empty() });
    assert(detach_model(t1, t.len() as int) == t1);
}

/// The arena after a new child is put in front of the children of node `n`: its children
/// are the new node and then the old ones, and the new node holds the given content.
pub proof fn law_prepend_child(t: Seq<NodeModel>, n: int, c: ContentModel)
    requires
        wf(t),
        0 <= n < t.len(),
    ensures
        prepend_child(t, n, c).len() == t.len() + 1,
        prepend_child(t, n, c)[n].children == seq![t.len() as usize] + t[n].children,
        prepend_child(t, n, c)[t.len() as int].content == c,
        prepend_child(t, n, c)[t.len() as int].parent == Some(n as usize),
{
    let t1 = t.push(NodeModel { content: c, parent: None, children: Seq::empty() });
    assert(detach_model(t1, t.len() as int) == t1);
}

/// SET-TEXT-CONTENT: where it succeeds on node `n`, the node has exactly one child, a text
/// holding the escaped value.
pub proof fn law_set_text_content(t: Seq<NodeModel>, v: crate::ValueSourceModel, n: int)
    requires
        wf(t),
        0 <= n < t.len(),
        write_value(t, ValueTarget::SetTextContent, v, n).1 is Ok,
    ensures
        ({
            let t2 = write_value(t, ValueTarget::SetTextContent, v, n).0;
            &&& t2[n].children.len() == 1
            &&& t2[t2[n].children[0] as int].content == ContentModel::Text(
                escaped(joined_value(t, v, n)->Ok_0, false),
            )
        }),
{
    let ch = t[n].children;
    lemma_detach_children(t, n, ch.len() as int);
    assert(ch.take(ch.len() as int) =~= ch);
    let t1 = detach_all(t, ch);
    assert(t1[n].children.len() == 0) by {
        assert(ch.skip(ch.len() as int).len() == 0);
    }
    law_add_child(t1, n, ContentModel::Text(escaped(joined_value(t, v, n)->Ok_0, false)));
}

/// REMOVE-ELEMENT: afterwards none of the removed nodes has a parent.
pub proof fn law_removed_have_no_parent(t: Seq<NodeModel>, s: Seq<usize>)
    requires
        wf(t),
        all_valid(t, s),
    ensures
        wf(detach_all(t, s)),
        detach_all(t, s).len() == t.len(),
        forall|j: int| 0 <= j < s.len() ==> (#[trigger] detach_all(t, s)[s[j] as int]).parent is None,
    decreases s.len(),
{
    if s.len() > 0 {
        let s0 = s.drop_last();
        assert forall|j: int| 0 <= j < s0.len() implies #[trigger] s0[j] < t.len() by {
            assert(s0[j] == s[j]);
        }
        law_removed_have_no_parent(t, s0);
        let t1 = detach_all(t, s0);
        lemma_detach_wf(t1, s.last() as int);
        assert forall|j: int| 0 <= j < s.len() implies (#[trigger] detach_all(t, s)[s[j] as int]).parent is None by {
            if j < s.len() - 1 {
                assert(s0[j] == s[j]);
            }
        }
    }
}

/// Escaped text holds no `<` and no `>`, and, escaped for an attribute, no `"`.
pub proof fn law_escaped_has_no_markup(s: Seq<char>, quotes: bool)
    ensures
        forall|i: int|
            0 <= i < escaped(s, quotes).len() ==> #[trigger] escaped(s, quotes)[i] != '<'
                && escaped(s, quotes)[i] != '>' && (quotes ==> escaped(s, quotes)[i] != '"'),
    decreases s.len(),
{
    if s.len() > 0 {
        law_escaped_has_no_markup(s.drop_last(), quotes);
        let a = escaped(s.drop_last(), quotes);
        let b = escape_char(s.last(), quotes);
        assert forall|i: int| 0 <= i < escaped(s, quotes).len() implies #[trigger] escaped(s, quotes)[i] != '<'
            && escaped(s, quotes)[i] != '>' && (quotes ==> escaped(s, quotes)[i] != '"') by {
            if i >= a.len() {
                assert(escaped(s, quotes)[i] == b[i - a.len()]);
            } else {
                assert(escaped(s, quotes)[i] == a[i]);
            }
        }
    }
}

/// An attribute value as SET-ATTR writes it holds no line break.
pub proof fn law_attribute_value_has_no_line_break(s: Seq<char>)
    ensures
        forall|i: int| 0 <= i < newlines_escaped(s).len() ==> #[trigger] newlines_escaped(s)[i] != '\n',
    decreases s.len(),
{
    if s.len() > 0 {
        law_attribute_value_has_no_line_break(s.drop_last());
        let a = newlines_escaped(s.drop_last());
        assert forall|i: int| 0 <= i < newlines_escaped(s).len() implies #[trigger] newlines_escaped(s)[i] != '\n' by {
            if i < a.len() {
                assert(newlines_escaped(s)[i] == a[i]);
            }
        }
    }
}

/// A comment as ADD-COMMENT writes it holds no `--`.
pub proof fn law_comment_has_no_double_dash(s: Seq<char>)
    ensures
        forall|i: int|
            0 <= i < dashes_escaped(s).len() - 1 ==> !(#[trigger] dashes_escaped(s)[i] == '-'
                && dashes_escaped(s)[i + 1] == '-'),
        dashes_escaped(s).len() > 0 && dashes_escaped(s)[0] == '-' ==> s[0] == '-' && (s.len() == 1
            || s[1] != '-'),
    decreases s.len(),
{
    if s.len() == 0 {
    } else if s.len() >= 2 && s[0] == '-' && s[1] == '-' {
        law_comment_has_no_double_dash(s.skip(2));
        let r = dashes_escaped(s);
        let rest = dashes_escaped(s.skip(2));
        let e = seq!['\\', 'x', '2', 'D', '\\', 'x', '2', 'D'];
        assert(r == e + rest);
        assert forall|i: int| 0 <= i < r.len() - 1 implies !(#[trigger] r[i] == '-' && r[i + 1] == '-') by {
            if i >= 8 {
                assert(r[i] == rest[i - 8]);
                assert(r[i + 1] == rest[i - 7]);
            } else {
                assert(r[i] == e[i]);
            }
        }
    } else {
        law_comment_has_no_double_dash(s.skip(1));
        let r = dashes_escaped(s);
        let rest = dashes_escaped(s.skip(1));
        assert(r == seq![s[0]] + rest);
        assert forall|i: int| 0 <= i < r.len() - 1 implies !(#[trigger] r[i] == '-' && r[i + 1] == '-') by {
            if i >= 1 {
                assert(r[i] == rest[i - 1]);
                assert(r[i + 1] == rest[i]);
            } else if r[0] == '-' && r[1] == '-' {
                assert(rest[0] == '-');
                assert(s.skip(1)[0] == '-');
                assert(s[1] == '-');
            }
        }
    }
}

/// What a selector keeps of some nodes are nodes among them that it matches.
proof fn lemma_filter_matching(t: Seq<NodeModel>, sel: SelectorModel, s: Seq<usize>)
    ensures
        filter_matching(t, sel, s) matches Some(r) ==> forall|j: int|
            0 <= j < r.len() ==> s.contains(#[trigger] r[j]) && selector_outcome(
                sel,
                t[r[j] as int].content,
            ) == Some(true),
    decreases s.len(),
{
    if s.len() > 0 {
        lemma_filter_matching(t, sel, s.drop_last());
        if let Some(r) = filter_matching(t, sel, s) {
            let r0 = filter_matching(t, sel, s.drop_last())->0;
            assert forall|j: int| 0 <= j < r.len() implies s.contains(#[trigger] r[j]) && selector_outcome(
                sel,
                t[r[j] as int].content,
            ) == Some(true) by {
                if j < r0.len() {
                    assert(r[j] == r0[j]);
                    let m = choose|m: int| 0 <= m < s.drop_last().len() && s.drop_last()[m] == r0[j];
                    assert(s[m] == r[j]);
                } else {
                    assert(r[j] == s.last());
                    assert(s[s.len() - 1] == r[j]);
                }
            }
        }
    }
}

/// The nodes a path finds are matched by the selector of its last step.
proof fn lemma_path_matches(t: Seq<NodeModel>, steps: Seq<StepModel>, src: Seq<usize>)
    requires
        steps.len() > 0,
    ensures
        path_outcome(t, steps, src) matches Some(r) ==> forall|j: int|
            0 <= j < r.len() ==> selector_outcome(steps.last().selector, t[#[trigger] r[j] as int].content)
                == Some(true),
{
    if let Some(s) = path_outcome(t, steps.drop_last(), src) {
        lemma_filter_matching(t, steps.last().selector, dedup(crate::html::query::gather(t, steps.last().combinator, s)));
    }
}

/// What the paths find, together, is what each of them finds.
proof fn lemma_paths_found(t: Seq<NodeModel>, paths: Seq<Seq<StepModel>>, src: Seq<usize>)
    ensures
        paths_outcome(t, paths, src) matches Some(a) ==> forall|j: int|
            #![trigger a[j]]
            0 <= j < a.len() ==> exists|i: int|
                0 <= i < paths.len() && #[trigger] path_outcome(t, paths[i], src) is Some
                    && path_outcome(t, paths[i], src)->0.contains(#[trigger] a[j]),
    decreases paths.len(),
{
    if paths.len() > 0 {
        lemma_paths_found(t, paths.drop_last(), src);
        if let Some(a) = paths_outcome(t, paths, src) {
            let a0 = paths_outcome(t, paths.drop_last(), src)->0;
            let b = path_outcome(t, paths.last(), src)->0;
            assert(a == a0 + b);
            assert forall|j: int| 0 <= j < a.len() implies exists|i: int|
                0 <= i < paths.len() && #[trigger] path_outcome(t, paths[i], src) is Some
                    && path_outcome(t, paths[i], src)->0.contains(#[trigger] a[j]) by {
                if j < a0.len() {
                    assert(a[j] == a0[j]);
                    let i = choose|i: int|
                        0 <= i < paths.drop_last().len() && #[trigger] path_outcome(t, paths.drop_last()[i], src) is Some
                            && path_outcome(t, paths.drop_last()[i], src)->0.contains(a0[j]);
                    assert(paths.drop_last()[i] == paths[i]);
                } else {
                    assert(a[j] == b[j - a0.len()]);
                    assert(paths[paths.len() - 1] == paths.last());
                }
            }
        }
    }
}

/// Node `x` is matched by the last selector of the path, or, where the path has no steps,
/// is a start node.
pub open spec fn matched_by_path(t: Seq<NodeModel>, steps: Seq<StepModel>, src: Seq<usize>, x: usize) -> bool {
    if steps.len() == 0 {
        src.contains(x)
    } else {
        selector_outcome(steps.last().selector, t[x as int].content) == Some(true)
    }
}

/// A node that one of the paths finds is matched by the last selector of that path.
proof fn lemma_found_matched(t: Seq<NodeModel>, paths: Seq<Seq<StepModel>>, src: Seq<usize>, a: Seq<usize>, x: usize)
    requires
        paths_outcome(t, paths, src) == Some(a),
        a.contains(x),
    ensures
        exists|i: int| 0 <= i < paths.len() && #[trigger] matched_by_path(t, paths[i], src, x),
{
    lemma_paths_found(t, paths, src);
    assert(paths_outcome(t, paths, src) matches Some(b) ==> forall|j: int|
            #![trigger b[j]]
            0 <= j < b.len() ==> exists|i: int|
                0 <= i < paths.len() && #[trigger] path_outcome(t, paths[i], src) is Some
                    && path_outcome(t, paths[i], src)->0.contains(#[trigger] b[j]));
    let m = choose|m: int| 0 <= m < a.len() && a[m] == x;
    let i = choose|i: int|
        0 <= i < paths.len() && #[trigger] path_outcome(t, paths[i], src) is Some
            && path_outcome(t, paths[i], src)->0.contains(a[m]);
    let found = path_outcome(t, paths[i], src)->0;
    assert(found.contains(x));
    let q = choose|q: int| 0 <= q < found.len() && found[q] == x;
    if paths[i].len() > 0 {
        lemma_path_matches(t, paths[i], src);
        assert(selector_outcome(paths[i].last().selector, t[found[q] as int].content) == Some(true));
    } else {
        assert(found == src);
    }
    assert(matched_by_path(t, paths[i], src, x));
}

/// A selector list finds each node once, and each node it finds is matched by the last
/// selector of one of its paths, or is a start node where a path has no steps.
pub proof fn law_query_results(t: Seq<NodeModel>, paths: Seq<Seq<StepModel>>, src: Seq<usize>)
    ensures
        query_outcome(t, paths, src) matches Some(r) ==> {
            &&& r.no_duplicates()
            &&& forall|x: usize|
                #[trigger] r.contains(x) ==> exists|i: int|
                    0 <= i < paths.len() && #[trigger] matched_by_path(t, paths[i], src, x)
        },
{
    if let Some(a) = paths_outcome(t, paths, src) {
        let r = dedup(a);
        lemma_dedup(a);
        assert forall|x: usize| #[trigger] r.contains(x) implies exists|i: int|
            0 <= i < paths.len() && #[trigger] matched_by_path(t, paths[i], src, x) by {
            lemma_found_matched(t, paths, src, a, x);
        }
    }
}

/// `s2` asks for at least what `s1` asks for: the same element and id where `s1` names
/// them, and all classes and attribute checks of `s1`; neither asks for pseudo-classes.
pub open spec fn refines(s2: SelectorModel, s1: SelectorModel) -> bool {
    &&& s1.pseudo_classes.len() == 0
    &&& s2.pseudo_classes.len() == 0
    &&& (s1.element matches Some(n) ==> s2.element == Some(n))
    &&& (s1.id matches Some(i) ==> s2.id == Some(i))
    &&& forall|k: int| 0 <= k < s1.classes.len() ==> s2.classes.contains(#[trigger] s1.classes[k])
    &&& forall|k: int| 0 <= k < s1.attributes.len() ==> s2.attributes.contains(#[trigger] s1.attributes[k])
}

/// The attribute checks all hold exactly when each of them holds.
proof fn lemma_attributes_outcome(l: Seq<AttributeSelectorModel>, attrs: Seq<(Seq<char>, Seq<char>)>)
    ensures
        attributes_outcome(l, attrs) == Some(true) <==> forall|k: int|
            0 <= k < l.len() ==> attribute_outcome(#[trigger] l[k], attrs) == Some(true),
    decreases l.len(),
{
    if l.len() > 0 {
        lemma_attributes_outcome(l.drop_first(), attrs);
        if attribute_outcome(l[0], attrs) == Some(true) {
            assert forall|k: int| 0 <= k < l.drop_first().len() implies #[trigger] l.drop_first()[k] == l[k + 1] by {}
            if forall|k: int| 0 <= k < l.len() ==> attribute_outcome(#[trigger] l[k], attrs) == Some(true) {
                assert forall|k: int| 0 <= k < l.drop_first().len() implies attribute_outcome(
                    #[trigger] l.drop_first()[k],
                    attrs,
                ) == Some(true) by {
                    assert(l.drop_first()[k] == l[k + 1]);
                }
            }
            if attributes_outcome(l.drop_first(), attrs) == Some(true) {
                assert forall|k: int| 0 <= k < l.len() implies attribute_outcome(#[trigger] l[k], attrs) == Some(true) by {
                    if k > 0 {
                        assert(l[k] == l.drop_first()[k - 1]);
                    }
                }
            }
        }
    }
}

/// A selector that asks for more matches only what one that asks for less matches.
pub proof fn law_selector_refinement(s1: SelectorModel, s2: SelectorModel, c: ContentModel)
    requires
        refines(s2, s1),
    ensures
        selector_outcome(s2, c) == Some(true) ==> selector_outcome(s1, c) == Some(true),
{
    if let ContentModel::Tag(name, attrs) = c {
        if selector_outcome(s2, c) == Some(true) {
            lemma_attributes_outcome(s2.attributes, attrs);
            lemma_attributes_outcome(s1.attributes, attrs);
            assert forall|k: int| 0 <= k < s1.classes.len() implies has_class(attrs, #[trigger] s1.classes[k]) by {
                let j = choose|j: int| 0 <= j < s2.classes.len() && s2.classes[j] == s1.classes[k];
                assert(has_class(attrs, s2.classes[j]));
            }
            assert forall|k: int| 0 <= k < s1.attributes.len() implies attribute_outcome(
                #[trigger] s1.attributes[k],
                attrs,
            ) == Some(true) by {
                let j = choose|j: int| 0 <= j < s2.attributes.len() && s2.attributes[j] == s1.attributes[k];
                assert(attribute_outcome(s2.attributes[j], attrs) == Some(true));
            }
        }
    }
}

/// The selector that asks for nothing matches every element.
pub proof fn law_empty_selector_matches_elements(s: SelectorModel, name: Seq<char>, attrs: Seq<(Seq<char>, Seq<char>)>)
    requires
        s.element is None,
        s.id is None,
        s.classes.len() == 0,
        s.pseudo_classes.len() == 0,
        s.attributes.len() == 0,
    ensures
        selector_outcome(s, ContentModel::Tag(name, attrs)) == Some(true),
{
}

/// Each node that one of the paths finds is in what the selector list finds.
pub proof fn law_query_union(t: Seq<NodeModel>, paths: Seq<Seq<StepModel>>, src: Seq<usize>, i: int, x: usize)
    requires
        0 <= i < paths.len(),
        query_outcome(t, paths, src) is Some,
        path_outcome(t, paths[i], src) matches Some(f) && f.contains(x),
    ensures
        query_outcome(t, paths, src)->0.contains(x),
{
    let a = paths_outcome(t, paths, src)->0;
    lemma_dedup(a);
    lemma_paths_hold(t, paths, src, i, x);
}

/// What a path finds is in the findings of all paths together.
proof fn lemma_paths_hold(t: Seq<NodeModel>, paths: Seq<Seq<StepModel>>, src: Seq<usize>, i: int, x: usize)
    requires
        0 <= i < paths.len(),
        paths_outcome(t, paths, src) is Some,
        path_outcome(t, paths[i], src) matches Some(f) && f.contains(x),
    ensures
        paths_outcome(t, paths, src)->0.contains(x),
    decreases paths.len(),
{
    let a0 = paths_outcome(t, paths.drop_last(), src)->0;
    let b = path_outcome(t, paths.last(), src)->0;
    assert(paths_outcome(t, paths, src)->0 == a0 + b);
    if i < paths.len() - 1 {
        assert(paths.drop_last()[i] == paths[i]);
        lemma_paths_hold(t, paths.drop_last(), src, i, x);
        let j = choose|j: int| 0 <= j < a0.len() && a0[j] == x;
        assert((a0 + b)[j] == x);
    } else {
        let j = choose|j: int| 0 <= j < b.len() && b[j] == x;
        assert((a0 + b)[a0.len() + j] == x);
    }
}

/// The attribute comparisons in plain terms: `[a]` holds for any value, `[a^="v"]` for
/// the values that start with `v`, `[a$="v"]` for those that end with it, `[a*="v"]` for
/// those that hold it, `[a="v"]` for `v` itself, and `[a|="v"]` for `v` and for the values
/// that start with `v` followed by a hyphen.
pub proof fn law_attribute_comparisons(e: Seq<char>, g: Seq<char>)
    ensures
        value_satisfies(CssAttributeComparison::Exist, e, g),
        value_satisfies(CssAttributeComparison::Starts, e, g) <==> exists|x: Seq<char>| #[trigger] (e + x) == g,
        value_satisfies(CssAttributeComparison::Ends, e, g) <==> exists|x: Seq<char>| #[trigger] (x + e) == g,
        value_satisfies(CssAttributeComparison::CharacterContains, e, g) <==> exists|x: Seq<char>, y: Seq<char>|
            #[trigger] (x + e + y) == g,
        value_satisfies(CssAttributeComparison::EqualsExact, e, g) <==> g == e,
        value_satisfies(CssAttributeComparison::EqualsTillHyphen, e, g) <==> (g == e || exists|x: Seq<char>|
            #[trigger] (e + seq!['-'] + x) == g),
{
    lemma_starts_with(e, g);
    lemma_starts_with(e + seq!['-'], g);
    lemma_ends_with(e, g);
    lemma_holds(e, g);
}

/// `e` occurs at the start of `g` exactly when `g` is `e` followed by something.
proof fn lemma_starts_with(e: Seq<char>, g: Seq<char>)
    ensures
        occurs_at(g, e, 0) <==> exists|x: Seq<char>| #[trigger] (e + x) == g,
{
    if occurs_at(g, e, 0) {
        let x = g.skip(e.len() as int);
        assert(e + x =~= g);
    }
    if exists|x: Seq<char>| #[trigger] (e + x) == g {
        let x = choose|x: Seq<char>| #[trigger] (e + x) == g;
        assert(g.subrange(0, e.len() as int) =~= e);
    }
}

/// `e` occurs at the end of `g` exactly when `g` is something followed by `e`.
proof fn lemma_ends_with(e: Seq<char>, g: Seq<char>)
    ensures
        occurs_at(g, e, g.len() - e.len()) <==> exists|x: Seq<char>| #[trigger] (x + e) == g,
{
    if occurs_at(g, e, g.len() - e.len()) {
        let x = g.take(g.len() - e.len());
        assert(x + e =~= g);
    }
    if exists|x: Seq<char>| #[trigger] (x + e) == g {
        let x = choose|x: Seq<char>| #[trigger] (x + e) == g;
        assert(g.subrange(g.len() - e.len(), g.len() - e.len() + e.len()) =~= e);
    }
}

/// `e` occurs in `g` exactly when `g` is something, `e`, and something.
proof fn lemma_holds(e: Seq<char>, g: Seq<char>)
    ensures
        (exists|i: int| #[trigger] occurs_at(g, e, i)) <==> exists|x: Seq<char>, y: Seq<char>|
            #[trigger] (x + e + y) == g,
{
    if exists|i: int| #[trigger] occurs_at(g, e, i) {
        let i = choose|i: int| #[trigger] occurs_at(g, e, i);
        let x = g.take(i);
        let y = g.skip(i + e.len());
        assert(x + e + y =~= g);
    }
    if exists|x: Seq<char>, y: Seq<char>| #[trigger] (x + e + y) == g {
        let (x, y) = choose|x: Seq<char>, y: Seq<char>| #[trigger] (x + e + y) == g;
        assert(g.subrange(x.len() as int, (x.len() + e.len()) as int) =~= e);
        assert(occurs_at(g, e, x.len() as int));
    }
}

/// `[a~="v"]`: `v` is one of the whitespace separated words of the value, that is a
/// non-empty piece without whitespace with whitespace or an end of the value on each side.
pub proof fn law_term_comparison(e: Seq<char>, g: Seq<char>)
    ensures
        value_satisfies(CssAttributeComparison::TermContains, e, g) <==> {
            &&& e.len() > 0
            &&& forall|k: int| 0 <= k < e.len() ==> !is_white_space(#[trigger] e[k])
            &&& exists|x: Seq<char>, y: Seq<char>|
                #[trigger] (x + e + y) == g && (x.len() == 0 || is_white_space(x.last())) && (y.len()
                    == 0 || is_white_space(y[0]))
        },
{
    if value_satisfies(CssAttributeComparison::TermContains, e, g) {
        let i = choose|i: int|
            #![trigger occurs_at(g, e, i)]
            occurs_at(g, e, i) && (i == 0 || is_white_space(g[i - 1])) && (i + e.len() == g.len()
                || is_white_space(g[i + e.len()]));
        let x = g.take(i);
        let y = g.skip(i + e.len());
        assert(g.subrange(i, i + e.len()) == e);
        assert(x + e + y =~= g);
        if x.len() > 0 {
            assert(x.last() == g[i - 1]);
        }
        if y.len() > 0 {
            assert(y[0] == g[i + e.len()]);
        }
    }
    if e.len() > 0 && (forall|k: int| 0 <= k < e.len() ==> !is_white_space(#[trigger] e[k])) && exists|
        x: Seq<char>,
        y: Seq<char>,
    |
        #[trigger] (x + e + y) == g && (x.len() == 0 || is_white_space(x.last())) && (y.len() == 0
            || is_white_space(y[0])) {
        let (x, y) = choose|x: Seq<char>, y: Seq<char>|
            #[trigger] (x + e + y) == g && (x.len() == 0 || is_white_space(x.last())) && (y.len()
                == 0 || is_white_space(y[0]));
        let i = x.len() as int;
        assert(g.subrange(i, i + e.len()) =~= e);
        assert(occurs_at(g, e, i));
        if i > 0 {
            assert(g[i - 1] == x.last());
        }
        if i + e.len() < g.len() {
            assert(g[i + e.len()] == y[0]);
        }
    }
}

/// The void elements of HTML: those written without end tag.
pub open spec fn html_void_element(name: Seq<char>) -> bool {
    seq![
        "area"@, "base"@, "br"@, "col"@, "command"@, "embed"@, "hr"@, "img"@, "input"@, "keygen"@,
        "link"@, "meta"@, "param"@, "source"@, "track"@, "wbr"@,
    ].contains(name)
}

/// The markup of an element is its start tag, the markup of its children, and, unless it
/// is a void element of HTML, the end tag `</name>`; so a childless `<br>` is written
/// `<br>`, and a childless `<p>` is written `<p></p>`.
pub proof fn law_element_markup(name: Seq<char>, attrs: Seq<(Seq<char>, Seq<char>)>, children: Seq<Fragment>)
    ensures
        outer_html(Fragment { content: ContentModel::Tag(name, attrs), children }) == if html_void_element(
            name,
        ) {
            start_tag(name, attrs) + outer_children(children)
        } else {
            start_tag(name, attrs) + outer_children(children) + seq!['<', '/'] + name + seq!['>']
        },
{
    let l = seq![
        "area"@, "base"@, "br"@, "col"@, "command"@, "embed"@, "hr"@, "img"@, "input"@, "keygen"@,
        "link"@, "meta"@, "param"@, "source"@, "track"@, "wbr"@,
    ];
    reveal_strlit("</");
    reveal_strlit(">");
    assert("</"@ + name + ">"@ =~= seq!['<', '/'] + name + seq!['>']);
    if is_void_element(name) {
        if name == "area"@ { assert(l[0] == name); }
        else if name == "base"@ { assert(l[1] == name); }
        else if name == "br"@ { assert(l[2] == name); }
        else if name == "col"@ { assert(l[3] == name); }
        else if name == "command"@ { assert(l[4] == name); }
        else if name == "embed"@ { assert(l[5] == name); }
        else if name == "hr"@ { assert(l[6] == name); }
        else if name == "img"@ { assert(l[7] == name); }
        else if name == "input"@ { assert(l[8] == name); }
        else if name == "keygen"@ { assert(l[9] == name); }
        else if name == "link"@ { assert(l[10] == name); }
        else if name == "meta"@ { assert(l[11] == name); }
        else if name == "param"@ { assert(l[12] == name); }
        else if name == "source"@ { assert(l[13] == name); }
        else if name == "track"@ { assert(l[14] == name); }
        else { assert(l[15] == name); }
        assert(html_void_element(name));
    }
    if html_void_element(name) {
        let i = choose|i: int| 0 <= i < l.len() && l[i] == name;
        assert(is_void_element(name));
    }
}

/// The attributes of a node, empty for what is no element.
pub open spec fn node_attributes(n: NodeModel) -> Seq<(Seq<char>, Seq<char>)> {
    match n.content {
        ContentModel::Tag(_, attrs) => attrs,
        _ => Seq::empty(),
    }
}

/// CLEAR-ATTR{a} on the nodes `input`: afterwards none of them has attribute `a`, each
/// keeps its other attributes, its kind, name, parent and children, and every other node
/// is as it was; the command hands on its input.
pub proof fn law_clear_attribute(t: Seq<NodeModel>, a: Seq<char>, input: Seq<usize>, files: FilesModel)
    requires
        forall|j: int| 0 <= j < input.len() ==> #[trigger] input[j] < t.len(),
    ensures
        ({
            let (u, r) = command_run(t, ProcessingModel::ClearAttribute(a), input, files);
            &&& r == Ok::<Seq<usize>, CommandErrorModel>(input)
            &&& u.len() == t.len()
            &&& forall|j: int| 0 <= j < input.len() ==> lookup(node_attributes(#[trigger] u[input[j] as int]), a) is None
            &&& forall|n: int, b: Seq<char>|
                0 <= n < t.len() && b != a ==> #[trigger] lookup(node_attributes(u[n]), b) == lookup(
                    node_attributes(t[n]),
                    b,
                )
            &&& forall|n: int|
                0 <= n < t.len() ==> (#[trigger] u[n]).parent == t[n].parent && u[n].children
                    == t[n].children && same_kind(u[n].content, t[n].content)
            &&& forall|n: int| 0 <= n < t.len() && !input.contains(n as usize) ==> #[trigger] u[n] == t[n]
        }),
{
    lemma_clear_attr_all(t, input, a, input.len() as int);
}

/// Two contents are of the same kind, elements of the same name.
pub open spec fn same_kind(c1: ContentModel, c2: ContentModel) -> bool {
    match (c1, c2) {
        (ContentModel::Tag(n1, _), ContentModel::Tag(n2, _)) => n1 == n2,
        (ContentModel::Tag(_, _), _) => false,
        (_, ContentModel::Tag(_, _)) => false,
        _ => c1 == c2,
    }
}

/// Clearing attribute `a` on the first `k` nodes of `s`.
proof fn lemma_clear_attr_all(t: Seq<NodeModel>, s: Seq<usize>, a: Seq<char>, k: int)
    requires
        0 <= k <= s.len(),
        forall|j: int| 0 <= j < s.len() ==> #[trigger] s[j] < t.len(),
    ensures
        ({
            let u = clear_attr_all(t, s, a, k);
            &&& u.len() == t.len()
            &&& forall|j: int| 0 <= j < k ==> lookup(node_attributes(#[trigger] u[s[j] as int]), a) is None
            &&& forall|n: int, b: Seq<char>|
                0 <= n < t.len() && b != a ==> #[trigger] lookup(node_attributes(u[n]), b) == lookup(
                    node_attributes(t[n]),
                    b,
                )
            &&& forall|n: int|
                0 <= n < t.len() ==> (#[trigger] u[n]).parent == t[n].parent && u[n].children
                    == t[n].children && same_kind(u[n].content, t[n].content)
            &&& forall|n: int| 0 <= n < t.len() && !s.take(k).contains(n as usize) ==> #[trigger] u[n] == t[n]
        }),
    decreases k,
{
    if k > 0 {
        lemma_clear_attr_all(t, s, a, k - 1);
        let u0 = clear_attr_all(t, s, a, k - 1);
        let id = s[k - 1] as int;
        let u = clear_attr_model(u0, id, a);
        assert(u == clear_attr_all(t, s, a, k));
        assert(forall|b: Seq<char>| #[trigger] lookup(node_attributes(u[id]), b) == (if b == a {
            None
        } else {
            lookup(node_attributes(u0[id]), b)
        })) by {
            assert forall|b: Seq<char>| #[trigger] lookup(node_attributes(u[id]), b) == (if b == a {
                None
            } else {
                lookup(node_attributes(u0[id]), b)
            }) by {
                law_attribute_read_after_remove(node_attributes(u0[id]), a, b);
            }
        }
        assert forall|j: int| 0 <= j < k implies lookup(node_attributes(#[trigger] u[s[j] as int]), a) is None by {
            if s[j] as int != id {
                assert(u[s[j] as int] == u0[s[j] as int]);
            }
        }
        assert forall|n: int| 0 <= n < t.len() && !s.take(k).contains(n as usize) implies #[trigger] u[n] == t[n] by {
            assert(n != id) by {
                assert(s.take(k)[k - 1] == s[k - 1]);
            }
            assert(!s.take(k - 1).contains(n as usize)) by {
                if s.take(k - 1).contains(n as usize) {
                    let j = choose|j: int| 0 <= j < k - 1 && #[trigger] s.take(k - 1)[j] == n as usize;
                    assert(s.take(k)[j] == n as usize);
                }
            }
        }
    }
}

/// Each operator of an attribute selector reads as its own comparison: `=` as equality,
/// `|=` as equality up to a hyphen, `^=` as starts-with, `$=` as ends-with, `*=` as
/// holds, `~=` as holds-the-word, each ending after its last character.
pub proof fn law_attribute_operators(s: Seq<char>, q: int)
    requires
        0 <= q < s.len(),
    ensures
        s[q] == '=' ==> attribute_operator(s, q) == Some((CssAttributeComparison::EqualsExact, q + 1)),
        q + 1 < s.len() && s[q + 1] == '=' ==> {
            &&& s[q] == '|' ==> attribute_operator(s, q) == Some((CssAttributeComparison::EqualsTillHyphen, q + 2))
            &&& s[q] == '^' ==> attribute_operator(s, q) == Some((CssAttributeComparison::Starts, q + 2))
            &&& s[q] == '$' ==> attribute_operator(s, q) == Some((CssAttributeComparison::Ends, q + 2))
            &&& s[q] == '*' ==> attribute_operator(s, q) == Some((CssAttributeComparison::CharacterContains, q + 2))
            &&& s[q] == '~' ==> attribute_operator(s, q) == Some((CssAttributeComparison::TermContains, q + 2))
        },
        !(s[q] == '=' || (q + 1 < s.len() && s[q + 1] == '=' && (s[q] == '|' || s[q] == '^' || s[q] == '$'
            || s[q] == '*' || s[q] == '~'))) ==> attribute_operator(s, q) is None,
{
    reveal_strlit("=");
    reveal_strlit("|=");
    reveal_strlit("^=");
    reveal_strlit("$=");
    reveal_strlit("*=");
    reveal_strlit("~=");
    let one = s.subrange(q, q + 1);
    assert(one[0] == s[q]);
    if s[q] == '=' {
        assert(one =~= "="@);
    } else {
        assert(!lit(s, q, "="@)) by {
            if lit(s, q, "="@) {
                assert(one[0] == "="@[0]);
            }
        }
        if q + 1 < s.len() {
            let two = s.subrange(q, q + 2);
            assert(two[0] == s[q]);
            assert(two[1] == s[q + 1]);
            assert(lit(s, q, "|="@) <==> (s[q] == '|' && s[q + 1] == '=')) by {
                if s[q] == '|' && s[q + 1] == '=' { assert(two =~= "|="@); }
                if lit(s, q, "|="@) { assert(two[0] == "|="@[0] && two[1] == "|="@[1]); }
            }
            assert(lit(s, q, "^="@) <==> (s[q] == '^' && s[q + 1] == '=')) by {
                if s[q] == '^' && s[q + 1] == '=' { assert(two =~= "^="@); }
                if lit(s, q, "^="@) { assert(two[0] == "^="@[0] && two[1] == "^="@[1]); }
            }
            assert(lit(s, q, "$="@) <==> (s[q] == '$' && s[q + 1] == '=')) by {
                if s[q] == '$' && s[q + 1] == '=' { assert(two =~= "$="@); }
                if lit(s, q, "$="@) { assert(two[0] == "$="@[0] && two[1] == "$="@[1]); }
            }
            assert(lit(s, q, "*="@) <==> (s[q] == '*' && s[q + 1] == '=')) by {
                if s[q] == '*' && s[q + 1] == '=' { assert(two =~= "*="@); }
                if lit(s, q, "*="@) { assert(two[0] == "*="@[0] && two[1] == "*="@[1]); }
            }
            assert(lit(s, q, "~="@) <==> (s[q] == '~' && s[q + 1] == '=')) by {
                if s[q] == '~' && s[q + 1] == '=' { assert(two =~= "~="@); }
                if lit(s, q, "~="@) { assert(two[0] == "~="@[0] && two[1] == "~="@[1]); }
            }
        } else {
            assert(!lit(s, q, "|="@) && !lit(s, q, "^="@) && !lit(s, q, "$="@) && !lit(s, q, "*="@)
                && !lit(s, q, "~="@));
        }
    }
}

/// `a > b` relates a node to its children: exactly the nodes whose parent it is.
pub proof fn law_child_combinator(t: Seq<NodeModel>, n: int, x: usize)
    requires
        wf(t),
        0 <= n < t.len(),
    ensures
        related(t, CssSelectorCombinator::DirectChild, n).contains(x) <==> (x < t.len() && t[x as int].parent
            == Some(n as usize)),
{
    if related(t, CssSelectorCombinator::DirectChild, n).contains(x) {
        let k = choose|k: int| 0 <= k < t[n].children.len() && t[n].children[k] == x;
        assert(t[n].children[k] == x);
    }
}

/// `a ~ b` relates a node to the siblings after it, in order: nodes with the same parent
/// that come later among its children; `a + b` to the first of those that is an element,
/// or to nothing where none is.
pub proof fn law_sibling_combinators(t: Seq<NodeModel>, n: int)
    requires
        wf(t),
        0 <= n < t.len(),
    ensures
        ({
            let g = related(t, CssSelectorCombinator::GeneralSibling, n);
            let a = related(t, CssSelectorCombinator::AdjacentSibling, n);
            &&& t[n].parent is None ==> g.len() == 0
            &&& t[n].parent matches Some(q) ==> {
                let cs = t[q as int].children;
                let i = first_index(cs, n as usize);
                &&& 0 <= i < cs.len() && cs[i] == n as usize
                &&& g == cs.skip(i + 1)
            }
            &&& a.len() <= 1
            &&& a.len() == 1 ==> {
                &&& t[a[0] as int].content is Tag
                &&& exists|j: int| 0 <= j < g.len() && g[j] == a[0] && forall|m: int| 0 <= m < j ==> !(t[#[trigger] g[m] as int].content is Tag)
            }
            &&& a.len() == 0 ==> forall|m: int| 0 <= m < g.len() ==> !(t[#[trigger] g[m] as int].content is Tag)
        }),
{
    if let Some(q) = t[n].parent {
        assert(t[q as int].children.contains(n as usize));
        lemma_first_index(t[q as int].children, n as usize);
    }
    let g = related(t, CssSelectorCombinator::GeneralSibling, n);
    lemma_first_element_finds(t, g);
}

/// The first element among some nodes: at most one, an element, with no element before it.
proof fn lemma_first_element_finds(t: Seq<NodeModel>, g: Seq<usize>)
    ensures
        first_element(t, g).len() <= 1,
        first_element(t, g).len() == 1 ==> {
            &&& t[first_element(t, g)[0] as int].content is Tag
            &&& exists|j: int| 0 <= j < g.len() && g[j] == first_element(t, g)[0] && forall|m: int| 0 <= m < j ==> !(t[#[trigger] g[m] as int].content is Tag)
        },
        first_element(t, g).len() == 0 ==> forall|m: int| 0 <= m < g.len() ==> !(t[#[trigger] g[m] as int].content is Tag),
    decreases g.len(),
{
    if g.len() > 0 && !(t[g[0] as int].content is Tag) {
        let r = g.drop_first();
        lemma_first_element_finds(t, r);
        if first_element(t, r).len() == 1 {
            let j = choose|j: int| 0 <= j < r.len() && r[j] == first_element(t, r)[0] && forall|m: int| 0 <= m < j ==> !(t[#[trigger] r[m] as int].content is Tag);
            assert(g[j + 1] == r[j]);
            assert forall|m: int| 0 <= m < j + 1 implies !(t[#[trigger] g[m] as int].content is Tag) by {
                if m > 0 {
                    assert(g[m] == r[m - 1]);
                }
            }
        } else {
            assert forall|m: int| 0 <= m < g.len() implies !(t[#[trigger] g[m] as int].content is Tag) by {
                if m > 0 {
                    assert(g[m] == r[m - 1]);
                }
            }
        }
    } else if g.len() > 0 {
        assert(g[0] == first_element(t, g)[0]);
    }
}

/// The combinator of a selector step reads as written: `>` as child, `~` as following
/// sibling, `+` as next sibling (each with an optional space on either side), and a single
/// space before a selector as descendant.
pub proof fn law_combinator_tokens(s: Seq<char>, p: int)
    requires
        0 <= p,
        p + 1 < s.len(),
    ensures
        ({
            let p1 = if s[p] == ' ' { p + 1 } else { p };
            let c = s[p1];
            let after = if p1 + 1 < s.len() && s[p1 + 1] == ' ' { p1 + 2 } else { p1 + 1 };
            &&& (c == '>' || c == '~' || c == '+') ==> css_selector_step(s, p) == match css_selector(s, after) {
                Some((sel, q)) => Some((
                    StepModel {
                        selector: sel,
                        combinator: if c == '>' {
                            CssSelectorCombinator::DirectChild
                        } else if c == '~' {
                            CssSelectorCombinator::GeneralSibling
                        } else {
                            CssSelectorCombinator::AdjacentSibling
                        },
                    },
                    q,
                )),
                None => None,
            }
            &&& (s[p] == ' ' && !(c == '>' || c == '~' || c == '+')) ==> css_selector_step(s, p) == match css_selector(s, p + 1) {
                Some((sel, q)) => Some((StepModel { selector: sel, combinator: CssSelectorCombinator::Descendent }, q)),
                None => None,
            }
        }),
{
    reveal_strlit(" ");
    reveal_strlit(">");
    reveal_strlit("~");
    reveal_strlit("+");
    assert forall|q: int, l: Seq<char>| 0 <= q < s.len() && l.len() == 1 implies (#[trigger] lit(s, q, l) <==> s[q] == l[0]) by {
        if s[q] == l[0] {
            assert(s.subrange(q, q + 1) =~= l);
        }
        if lit(s, q, l) {
            assert(s.subrange(q, q + 1)[0] == s[q]);
        }
    }
    assert(" "@.len() == 1 && ">"@.len() == 1 && "~"@.len() == 1 && "+"@.len() == 1);
    let p1 = if s[p] == ' ' { p + 1 } else { p };
    assert(lit(s, p, " "@) <==> s[p] == ' ');
    if p1 < s.len() {
        assert(lit(s, p1, ">"@) <==> s[p1] == '>');
        assert(lit(s, p1, "~"@) <==> s[p1] == '~');
        assert(lit(s, p1, "+"@) <==> s[p1] == '+');
        if p1 + 1 < s.len() {
            assert(lit(s, p1 + 1, " "@) <==> s[p1 + 1] == ' ');
        } else {
            assert(!lit(s, p1 + 1, " "@));
        }
    }
}

/// Node `n` is an ancestor of node `x`: the parent of `x`, or an ancestor of it.
pub open spec fn is_ancestor(t: Seq<NodeModel>, n: int, x: int) -> bool
    decreases x,
{
    if 0 <= x < t.len() {
        match t[x].parent {
            Some(p) => if p < x {
                p == n || is_ancestor(t, n, p as int)
            } else {
                false
            },
            None => false,
        }
    } else {
        false
    }
}

/// `a b` relates a node to its descendants: exactly the nodes it is an ancestor of.
pub proof fn law_descendant_combinator(t: Seq<NodeModel>, n: int, x: usize)
    requires
        wf(t),
        0 <= n < t.len(),
    ensures
        related(t, CssSelectorCombinator::Descendent, n).contains(x) <==> is_ancestor(t, n, x as int),
    decreases x,
{
    lemma_descendants_ancestors(t, n);
    lemma_descendants_valid(t, n);
    if is_ancestor(t, n, x as int) {
        let p = t[x as int].parent->0;
        assert(t[p as int].children.contains(x));
        let k = choose|k: int| 0 <= k < t[p as int].children.len() && t[p as int].children[k] == x;
        lemma_child_in_descendants(t, p as int, 0, k);
        assert(descendants(t, p as int) == child_descendants(t, p as int, 0));
        if p as int != n {
            law_descendant_combinator(t, n, p);
            lemma_descendants_closed(t, n);
            assert(descendants(t, n).contains(p));
            assert(descendants(t, p as int).contains(x));
        }
    }
    if related(t, CssSelectorCombinator::Descendent, n).contains(x) {
        let j = choose|j: int| 0 <= j < descendants(t, n).len() && descendants(t, n)[j] == x;
        assert(is_ancestor(t, n, descendants(t, n)[j] as int));
    }
}

/// The first step of a path starts from a node and everything below it: exactly the
/// node itself and the nodes it is an ancestor of.
pub proof fn law_start_combinator(t: Seq<NodeModel>, n: int, x: usize)
    requires
        wf(t),
        0 <= n < t.len(),
    ensures
        related(t, CssSelectorCombinator::Start, n).contains(x) <==> (x as int == n || is_ancestor(t, n, x as int)),
{
    law_descendant_combinator(t, n, x);
    let d = descendants(t, n);
    let r = related(t, CssSelectorCombinator::Start, n);
    assert(r == seq![n as usize] + d);
    assert(r[0] == n as usize);
    if d.contains(x) {
        let j = choose|j: int| 0 <= j < d.len() && d[j] == x;
        assert(r[j + 1] == x);
    }
    if r.contains(x) && x as int != n {
        let j = choose|j: int| 0 <= j < r.len() && r[j] == x;
        assert(d[j - 1] == x);
    }
}

/// A child of `n` makes `n` an ancestor of whatever it is an ancestor of.
proof fn lemma_ancestor_step(t: Seq<NodeModel>, i: int, c: int, y: int)
    requires
        0 <= i < c < t.len() <= usize::MAX,
        t[c].parent == Some(i as usize),
        is_ancestor(t, c, y),
    ensures
        is_ancestor(t, i, y),
    decreases y,
{
    let p = t[y].parent->0 as int;
    assert(is_ancestor(t, i, c));
    if p != c {
        lemma_ancestor_step(t, i, c, p);
    }
    assert(is_ancestor(t, i, p));
}

/// Node `i` is an ancestor of each of its descendants.
proof fn lemma_descendants_ancestors(t: Seq<NodeModel>, i: int)
    requires
        wf(t),
        0 <= i < t.len(),
    ensures
        forall|j: int| 0 <= j < descendants(t, i).len() ==> is_ancestor(t, i, #[trigger] descendants(t, i)[j] as int),
    decreases t.len() - i, 1int, 0int,
{
    assert(descendants(t, i) == child_descendants(t, i, 0));
    lemma_child_descendants_ancestors(t, i, 0);
}

proof fn lemma_child_descendants_ancestors(t: Seq<NodeModel>, i: int, k: int)
    requires
        wf(t),
        0 <= i < t.len(),
        0 <= k,
    ensures
        forall|j: int| 0 <= j < child_descendants(t, i, k).len() ==> is_ancestor(t, i, #[trigger] child_descendants(t, i, k)[j] as int),
    decreases t.len() - i, 0int, t[i].children.len() - k,
{
    if k < t[i].children.len() {
        let c = t[i].children[k] as int;
        assert(i < c < t.len());
        lemma_descendants_ancestors(t, c);
        lemma_child_descendants_ancestors(t, i, k + 1);
        let d = descendants(t, c);
        let rest = child_descendants(t, i, k + 1);
        let all = child_descendants(t, i, k);
        assert(all == seq![c as usize] + d + rest);
        assert forall|j: int| 0 <= j < all.len() implies is_ancestor(t, i, #[trigger] all[j] as int) by {
            if j == 0 {
            } else if j < 1 + d.len() {
                assert(all[j] == d[j - 1]);
                lemma_ancestor_step(t, i, c, d[j - 1] as int);
            } else {
                assert(all[j] == rest[j - 1 - d.len()]);
            }
        }
    }
}

/// The `m`th child of `i`, and its descendants, are among those of `i` from the `k`th child on.
proof fn lemma_child_in_descendants(t: Seq<NodeModel>, i: int, k: int, m: int)
    requires
        wf(t),
        0 <= i < t.len(),
        0 <= k <= m < t[i].children.len(),
    ensures
        child_descendants(t, i, k).contains(t[i].children[m]),
        forall|z: usize| descendants(t, t[i].children[m] as int).contains(z) ==> child_descendants(t, i, k).contains(z),
    decreases m - k,
{
    let c = t[i].children[k] as int;
    assert(i < c < t.len());
    let d = descendants(t, c);
    let rest = child_descendants(t, i, k + 1);
    let all = child_descendants(t, i, k);
    assert(all == seq![c as usize] + d + rest);
    if m == k {
        assert(all[0] == c as usize);
        assert forall|z: usize| descendants(t, t[i].children[m] as int).contains(z) implies all.contains(z) by {
            let j = choose|j: int| 0 <= j < d.len() && d[j] == z;
            assert(all[1 + j] == z);
        }
    } else {
        lemma_child_in_descendants(t, i, k + 1, m);
        let x = t[i].children[m];
        let j = choose|j: int| 0 <= j < rest.len() && rest[j] == x;
        assert(all[1 + d.len() + j] == x);
        assert forall|z: usize| descendants(t, t[i].children[m] as int).contains(z) implies all.contains(z) by {
            assert(rest.contains(z));
            let j2 = choose|j2: int| 0 <= j2 < rest.len() && rest[j2] == z;
            assert(all[1 + d.len() + j2] == z);
        }
    }
}

/// The descendants of a descendant are descendants.
proof fn lemma_descendants_closed(t: Seq<NodeModel>, i: int)
    requires
        wf(t),
        0 <= i < t.len(),
    ensures
        forall|y: usize, z: usize| #![trigger descendants(t, i).contains(y), descendants(t, y as int).contains(z)]
            descendants(t, i).contains(y) && descendants(t, y as int).contains(z) ==> descendants(t, i).contains(z),
    decreases t.len() - i, 1int, 0int,
{
    assert(descendants(t, i) == child_descendants(t, i, 0));
    lemma_child_descendants_closed(t, i, 0);
}

proof fn lemma_child_descendants_closed(t: Seq<NodeModel>, i: int, k: int)
    requires
        wf(t),
        0 <= i < t.len(),
        0 <= k,
    ensures
        forall|y: usize, z: usize| #![trigger child_descendants(t, i, k).contains(y), descendants(t, y as int).contains(z)]
            child_descendants(t, i, k).contains(y) && descendants(t, y as int).contains(z) ==> child_descendants(t, i, k).contains(z),
    decreases t.len() - i, 0int, t[i].children.len() - k,
{
    if k < t[i].children.len() {
        let c = t[i].children[k] as int;
        assert(i < c < t.len());
        lemma_descendants_closed(t, c);
        lemma_child_descendants_closed(t, i, k + 1);
        let d = descendants(t, c);
        let rest = child_descendants(t, i, k + 1);
        let all = child_descendants(t, i, k);
        assert(all == seq![c as usize] + d + rest);
        assert forall|y: usize, z: usize| all.contains(y) && descendants(t, y as int).contains(z) implies all.contains(z) by {
            let j = choose|j: int| 0 <= j < all.len() && all[j] == y;
            if j == 0 {
                let j2 = choose|j2: int| 0 <= j2 < d.len() && d[j2] == z;
                assert(all[1 + j2] == z);
            } else if j < 1 + d.len() {
                assert(d[j - 1] == y);
                assert(d.contains(y));
                let j2 = choose|j2: int| 0 <= j2 < d.len() && d[j2] == z;
                assert(all[1 + j2] == z);
            } else {
                assert(rest[j - 1 - d.len()] == y);
                assert(rest.contains(y));
                let j2 = choose|j2: int| 0 <= j2 < rest.len() && rest[j2] == z;
                assert(all[1 + d.len() + j2] == z);
            }
        }
    }
}

/// SET-ATTR{a ↤ 'v'} on the nodes `input`: afterwards every element among them has
/// attribute `a` with `v` (escaped for an attribute), keeps its other attributes, kind,
/// name, parent and children; every other node is as it was; the command hands on its input.
pub proof fn law_set_attribute(t: Seq<NodeModel>, a: Seq<char>, v: Seq<char>, input: Seq<usize>, files: FilesModel)
    requires
        forall|j: int| 0 <= j < input.len() ==> #[trigger] input[j] < t.len(),
    ensures
        ({
            let (u, r) = command_run(
                t,
                ProcessingModel::SetAttribute(a, crate::ValueSourceModel::StringValue(v)),
                input,
                files,
            );
            &&& r == Ok::<Seq<usize>, CommandErrorModel>(input)
            &&& u.len() == t.len()
            &&& forall|j: int|
                0 <= j < input.len() && t[input[j] as int].content is Tag ==> lookup(
                    node_attributes(#[trigger] u[input[j] as int]),
                    a,
                ) == Some(newlines_escaped(escaped(v, true)))
            &&& forall|n: int, b: Seq<char>|
                0 <= n < t.len() && b != a ==> #[trigger] lookup(node_attributes(u[n]), b) == lookup(
                    node_attributes(t[n]),
                    b,
                )
            &&& forall|n: int|
                0 <= n < t.len() ==> (#[trigger] u[n]).parent == t[n].parent && u[n].children
                    == t[n].children && same_kind(u[n].content, t[n].content)
            &&& forall|n: int| 0 <= n < t.len() && !input.contains(n as usize) ==> #[trigger] u[n] == t[n]
        }),
{
    lemma_set_attr_all(t, a, v, input, input.len() as int);
}

/// Writing attribute `a` into the first `k` nodes of `s`.
proof fn lemma_set_attr_all(t: Seq<NodeModel>, a: Seq<char>, v: Seq<char>, s: Seq<usize>, k: int)
    requires
        0 <= k <= s.len(),
        forall|j: int| 0 <= j < s.len() ==> #[trigger] s[j] < t.len(),
    ensures
        ({
            let (u, r) = write_all(
                t,
                ValueTarget::SetAttribute(a),
                crate::ValueSourceModel::StringValue(v),
                s,
                k,
            );
            &&& r == Ok::<(), CommandErrorModel>(())
            &&& u.len() == t.len()
            &&& forall|j: int|
                0 <= j < k && t[s[j] as int].content is Tag ==> lookup(
                    node_attributes(#[trigger] u[s[j] as int]),
                    a,
                ) == Some(newlines_escaped(escaped(v, true)))
            &&& forall|n: int, b: Seq<char>|
                0 <= n < t.len() && b != a ==> #[trigger] lookup(node_attributes(u[n]), b) == lookup(
                    node_attributes(t[n]),
                    b,
                )
            &&& forall|n: int|
                0 <= n < t.len() ==> (#[trigger] u[n]).parent == t[n].parent && u[n].children
                    == t[n].children && same_kind(u[n].content, t[n].content)
            &&& forall|n: int| 0 <= n < t.len() && !s.take(k).contains(n as usize) ==> #[trigger] u[n] == t[n]
        }),
    decreases k,
{
    if k > 0 {
        lemma_set_attr_all(t, a, v, s, k - 1);
        let vs = crate::ValueSourceModel::StringValue(v);
        let u0 = write_all(t, ValueTarget::SetAttribute(a), vs, s, k - 1).0;
        let id = s[k - 1] as int;
        assert(concat_all(seq![v]) =~= v) by {
            assert(concat_all(seq![v]) == concat_all(seq![v].drop_last()) + v);
            assert(seq![v].drop_last() =~= Seq::<Seq<char>>::empty());
        }
        assert(joined_value(u0, vs, id) == Ok::<Seq<char>, CommandErrorModel>(v));
        let w = newlines_escaped(escaped(v, true));
        let u = set_attr_model(u0, id, a, w);
        assert(write_all(t, ValueTarget::SetAttribute(a), vs, s, k).0 == u);
        assert forall|b: Seq<char>| #[trigger] lookup(node_attributes(u[id]), b) == (if u0[id].content is Tag && b == a {
            Some(w)
        } else {
            lookup(node_attributes(u0[id]), b)
        }) by {
            law_attribute_read_after_write(node_attributes(u0[id]), a, w, b);
        }
        assert forall|j: int|
            0 <= j < k && t[s[j] as int].content is Tag implies lookup(node_attributes(#[trigger] u[s[j] as int]), a)
            == Some(w) by {
            if s[j] as int != id {
                assert(u[s[j] as int] == u0[s[j] as int]);
            } else {
                assert(same_kind(u0[id].content, t[id].content));
            }
        }
        assert forall|n: int| 0 <= n < t.len() && !s.take(k).contains(n as usize) implies #[trigger] u[n] == t[n] by {
            assert(n != id) by {
                assert(s.take(k)[k - 1] == s[k - 1]);
            }
            assert(!s.take(k - 1).contains(n as usize)) by {
                if s.take(k - 1).contains(n as usize) {
                    let j = choose|j: int| 0 <= j < k - 1 && #[trigger] s.take(k - 1)[j] == n as usize;
                    assert(s.take(k)[j] == n as usize);
                }
            }
        }
    }
}

/// `c` is one of the names in the `class` attribute, the names being what lies between
/// single spaces.
pub open spec fn class_listed(attrs: Seq<(Seq<char>, Seq<char>)>, c: Seq<char>) -> bool {
    &&& forall|k: int| 0 <= k < c.len() ==> #[trigger] c[k] != ' '
    &&& lookup(attrs, "class"@) matches Some(v) && exists|x: Seq<char>, y: Seq<char>|
        #[trigger] (x + c + y) == v && (x.len() == 0 || x.last() == ' ') && (y.len() == 0 || y[0] == ' ')
}

/// A selector made of an element name, an id and classes matches exactly the elements of
/// that name, with that `id` attribute, listing all those classes; it matches nothing
/// that is no element.
pub proof fn law_simple_selector(sel: SelectorModel, c: ContentModel)
    requires
        sel.pseudo_classes.len() == 0,
        sel.attributes.len() == 0,
    ensures
        selector_outcome(sel, c) == Some(
            match c {
                ContentModel::Tag(name, attrs) => {
                    &&& (sel.element matches Some(e) ==> e == name)
                    &&& (sel.id matches Some(i) ==> lookup(attrs, "id"@) == Some(i))
                    &&& forall|k: int| 0 <= k < sel.classes.len() ==> class_listed(attrs, #[trigger] sel.classes[k])
                },
                _ => false,
            },
        ),
{
    if let ContentModel::Tag(name, attrs) = c {
        assert forall|k: int| 0 <= k < sel.classes.len() implies (has_class(attrs, #[trigger] sel.classes[k])
            <==> class_listed(attrs, sel.classes[k])) by {
            if let Some(v) = lookup(attrs, "class"@) {
                lemma_piece(v, sel.classes[k]);
            }
        }
    }
}

/// `e` lies between single spaces or ends of `g` exactly when `g` is something, `e`, and
/// something, with a space or nothing on each side.
proof fn lemma_piece(g: Seq<char>, e: Seq<char>)
    ensures
        is_space_separated_piece(g, e) <==> {
            &&& forall|k: int| 0 <= k < e.len() ==> #[trigger] e[k] != ' '
            &&& exists|x: Seq<char>, y: Seq<char>|
                #[trigger] (x + e + y) == g && (x.len() == 0 || x.last() == ' ') && (y.len() == 0 || y[0] == ' ')
        },
{
    if is_space_separated_piece(g, e) {
        let i = choose|i: int|
            #![trigger occurs_at(g, e, i)]
            occurs_at(g, e, i) && (i == 0 || g[i - 1] == ' ') && (i + e.len() == g.len() || g[i + e.len()] == ' ');
        let x = g.take(i);
        let y = g.skip(i + e.len());
        assert(g.subrange(i, i + e.len()) == e);
        assert(x + e + y =~= g);
        if x.len() > 0 {
            assert(x.last() == g[i - 1]);
        }
        if y.len() > 0 {
            assert(y[0] == g[i + e.len()]);
        }
    }
    if (forall|k: int| 0 <= k < e.len() ==> #[trigger] e[k] != ' ') && exists|x: Seq<char>, y: Seq<char>|
        #[trigger] (x + e + y) == g && (x.len() == 0 || x.last() == ' ') && (y.len() == 0 || y[0] == ' ') {
        let (x, y) = choose|x: Seq<char>, y: Seq<char>|
            #[trigger] (x + e + y) == g && (x.len() == 0 || x.last() == ' ') && (y.len() == 0 || y[0] == ' ');
        let i = x.len() as int;
        assert(g.subrange(i, i + e.len()) =~= e);
        assert(occurs_at(g, e, i));
        if i > 0 {
            assert(g[i - 1] == x.last());
        }
        if i + e.len() < g.len() {
            assert(g[i + e.len()] == y[0]);
        }
    }
}

/// An attribute check holds only on elements that have the attribute: `[a]` on any of
/// them, `[a OP "v"]` on those whose value satisfies the comparison with `v`.
pub proof fn law_attribute_selector(a: AttributeSelectorModel, attrs: Seq<(Seq<char>, Seq<char>)>, v: Seq<char>)
    ensures
        lookup(attrs, a.attribute) is None ==> attribute_outcome(a, attrs) == Some(false),
        a.operator == CssAttributeComparison::Exist ==> attribute_outcome(a, attrs) == Some(
            lookup(attrs, a.attribute) is Some,
        ),
        a.value == Some(v) ==> attribute_outcome(a, attrs) == Some(
            lookup(attrs, a.attribute) matches Some(g) && value_satisfies(a.operator, v, g),
        ),
{
}

} // verus!
