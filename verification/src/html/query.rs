//! Running CSS selector lists over the arena.
use vstd::prelude::*;
use crate::css::{CssSelectorCombinator, CssSelectorList, CssSelectorPath, CssSelectorStep, SelectorModel, StepModel};
use crate::html::matching::selector_outcome;
use crate::html::tree::{ContentModel, HtmlTree, NodeModel, first_index, lemma_first_index, wf};

verus! {

/// The descendants of node `i`, in document order.
pub open spec fn descendants(t: Seq<NodeModel>, i: int) -> Seq<usize>
    decreases t.len() - i, 1int, 0int,
{
    if 0 <= i < t.len() {
        child_descendants(t, i, 0)
    } else {
        Seq::empty()
    }
}

/// The children of node `i` from the `k`th on, each followed by its descendants.
pub open spec fn child_descendants(t: Seq<NodeModel>, i: int, k: int) -> Seq<usize>
    decreases t.len() - i, 0int, t[i].children.len() - k,
{
    if 0 <= i < t.len() && 0 <= k < t[i].children.len() {
        let c = t[i].children[k] as int;
        let below = if i < c < t.len() {
            descendants(t, c)
        } else {
            Seq::empty()
        };
        seq![c as usize] + below + child_descendants(t, i, k + 1)
    } else {
        Seq::empty()
    }
}

/// The siblings that follow node `n`, in order.
pub open spec fn following_siblings(t: Seq<NodeModel>, n: int) -> Seq<usize> {
    match t[n].parent {
        Some(p) => t[p as int].children.skip(first_index(t[p as int].children, n as usize) + 1),
        None => Seq::empty(),
    }
}

/// The first element among the nodes `s`, if any.
pub open spec fn first_element(t: Seq<NodeModel>, s: Seq<usize>) -> Seq<usize>
    decreases s.len(),
{
    if s.len() == 0 {
        Seq::empty()
    } else if t[s[0] as int].content is Tag {
        seq![s[0]]
    } else {
        first_element(t, s.drop_first())
    }
}

/// The nodes that a combinator relates to node `n`.
pub open spec fn related(t: Seq<NodeModel>, c: CssSelectorCombinator, n: int) -> Seq<usize> {
    match c {
        CssSelectorCombinator::Start => seq![n as usize] + descendants(t, n),
        CssSelectorCombinator::Descendent => descendants(t, n),
        CssSelectorCombinator::DirectChild => t[n].children,
        CssSelectorCombinator::GeneralSibling => following_siblings(t, n),
        CssSelectorCombinator::AdjacentSibling => first_element(t, following_siblings(t, n)),
    }
}

/// The related nodes of each of the nodes `src`, one list after the other.
pub open spec fn gather(t: Seq<NodeModel>, c: CssSelectorCombinator, src: Seq<usize>) -> Seq<usize>
    decreases src.len(),
{
    if src.len() == 0 {
        Seq::empty()
    } else {
        gather(t, c, src.drop_last()) + related(t, c, src.last() as int)
    }
}

/// The sequence with each element kept at its first occurrence only.
pub open spec fn dedup(s: Seq<usize>) -> Seq<usize>
    decreases s.len(),
{
    if s.len() == 0 {
        Seq::empty()
    } else {
        let d = dedup(s.drop_last());
        if d.contains(s.last()) {
            d
        } else {
            d.push(s.last())
        }
    }
}

/// The nodes of `s` that the selector matches, in order; `None` where the selector cannot
/// be decided on one of them.
pub open spec fn filter_matching(t: Seq<NodeModel>, sel: SelectorModel, s: Seq<usize>) -> Option<
    Seq<usize>,
>
    decreases s.len(),
{
    if s.len() == 0 {
        Some(Seq::empty())
    } else {
        match filter_matching(t, sel, s.drop_last()) {
            None => None,
            Some(r) => match selector_outcome(sel, t[s.last() as int].content) {
                None => None,
                Some(true) => Some(r.push(s.last())),
                Some(false) => Some(r),
            },
        }
    }
}

/// One step of a path, from the nodes found so far.
pub open spec fn step_outcome(t: Seq<NodeModel>, step: StepModel, src: Seq<usize>) -> Option<
    Seq<usize>,
> {
    filter_matching(t, step.selector, dedup(gather(t, step.combinator, src)))
}

/// The nodes a path finds from the nodes `src`.
pub open spec fn path_outcome(t: Seq<NodeModel>, steps: Seq<StepModel>, src: Seq<usize>) -> Option<
    Seq<usize>,
>
    decreases steps.len(),
{
    if steps.len() == 0 {
        Some(src)
    } else {
        match path_outcome(t, steps.drop_last(), src) {
            None => None,
            Some(s) => step_outcome(t, steps.last(), s),
        }
    }
}

/// The findings of the paths, one list after the other.
pub open spec fn paths_outcome(t: Seq<NodeModel>, paths: Seq<Seq<StepModel>>, src: Seq<usize>) -> Option<
    Seq<usize>,
>
    decreases paths.len(),
{
    if paths.len() == 0 {
        Some(Seq::empty())
    } else {
        match (paths_outcome(t, paths.drop_last(), src), path_outcome(t, paths.last(), src)) {
            (Some(a), Some(b)) => Some(a + b),
            _ => None,
        }
    }
}

/// The nodes a selector list finds from the nodes `src`, each once, in the order found.
pub open spec fn query_outcome(t: Seq<NodeModel>, paths: Seq<Seq<StepModel>>, src: Seq<usize>) -> Option<
    Seq<usize>,
> {
    match paths_outcome(t, paths, src) {
        Some(s) => Some(dedup(s)),
        None => None,
    }
}

/// Every element of `s` names a node of `t`.
pub open spec fn all_valid(t: Seq<NodeModel>, s: Seq<usize>) -> bool {
    forall|j: int| 0 <= j < s.len() ==> #[trigger] s[j] < t.len()
}

/// The descendants of a node lie after it.
pub proof fn lemma_descendants_valid(t: Seq<NodeModel>, i: int)
    requires
        wf(t),
        0 <= i < t.len(),
    ensures
        forall|j: int| 0 <= j < descendants(t, i).len() ==> i < #[trigger] descendants(t, i)[j] < t.len(),
    decreases t.len() - i, 1int, 0int,
{
    assert(descendants(t, i) == child_descendants(t, i, 0));
    lemma_child_descendants_valid(t, i, 0);
}

proof fn lemma_child_descendants_valid(t: Seq<NodeModel>, i: int, k: int)
    requires
        wf(t),
        0 <= i < t.len(),
        0 <= k,
    ensures
        forall|j: int|
            0 <= j < child_descendants(t, i, k).len() ==> i < #[trigger] child_descendants(t, i, k)[j]
                < t.len(),
    decreases t.len() - i, 0int, t[i].children.len() - k,
{
    if k < t[i].children.len() {
        let c = t[i].children[k] as int;
        assert(i < c < t.len());
        lemma_descendants_valid(t, c);
        lemma_child_descendants_valid(t, i, k + 1);
        let d = descendants(t, c);
        let rest = child_descendants(t, i, k + 1);
        let all = child_descendants(t, i, k);
        assert(all == seq![c as usize] + d + rest);
        assert forall|j: int| 0 <= j < all.len() implies i < #[trigger] all[j] < t.len() by {
            if j == 0 {
            } else if j < 1 + d.len() {
                assert(all[j] == d[j - 1]);
            } else {
                assert(all[j] == rest[j - 1 - d.len()]);
            }
        }
    }
}

/// The first element among some nodes is one of them.
proof fn lemma_first_element(t: Seq<NodeModel>, s: Seq<usize>)
    ensures
        first_element(t, s).len() <= 1,
        first_element(t, s).len() == 1 ==> s.contains(first_element(t, s)[0]),
    decreases s.len(),
{
    if s.len() > 0 && !(t[s[0] as int].content is Tag) {
        lemma_first_element(t, s.drop_first());
        if first_element(t, s).len() == 1 {
            let x = first_element(t, s)[0];
            let j = choose|j: int| 0 <= j < s.drop_first().len() && s.drop_first()[j] == x;
            assert(s[j + 1] == x);
        }
    }
}

/// The nodes related to a node of a consistent arena are nodes of the arena.
pub proof fn lemma_related_valid(t: Seq<NodeModel>, c: CssSelectorCombinator, n: int)
    requires
        wf(t),
        0 <= n < t.len(),
    ensures
        all_valid(t, related(t, c, n)),
{
    lemma_descendants_valid(t, n);
    match c {
        CssSelectorCombinator::Start => {
            let r = related(t, c, n);
            assert forall|j: int| 0 <= j < r.len() implies #[trigger] r[j] < t.len() by {
                if j > 0 {
                    assert(r[j] == descendants(t, n)[j - 1]);
                }
            }
        },
        CssSelectorCombinator::Descendent => {},
        CssSelectorCombinator::DirectChild => {},
        CssSelectorCombinator::GeneralSibling => {
            if let Some(p) = t[n].parent {
                let ch = t[p as int].children;
                let f = following_siblings(t, n);
                assert forall|j: int| 0 <= j < f.len() implies #[trigger] f[j] < t.len() by {
                    lemma_first_index(ch, n as usize);
                    assert(f[j] == ch[j + first_index(ch, n as usize) + 1]);
                }
            }
        },
        CssSelectorCombinator::AdjacentSibling => {
            let f = following_siblings(t, n);
            lemma_first_element(t, f);
            if let Some(p) = t[n].parent {
                let ch = t[p as int].children;
                assert forall|j: int| 0 <= j < f.len() implies #[trigger] f[j] < t.len() by {
                    lemma_first_index(ch, n as usize);
                    assert(f[j] == ch[j + first_index(ch, n as usize) + 1]);
                }
            }
        },
    }
}

/// A sequence holds what its prefix holds and its last element.
proof fn lemma_contains_last(s: Seq<usize>, x: usize)
    requires
        s.len() > 0,
    ensures
        s.contains(x) <==> (s.drop_last().contains(x) || x == s.last()),
{
    if s.contains(x) && x != s.last() {
        let j = choose|j: int| 0 <= j < s.len() && s[j] == x;
        assert(s.drop_last()[j] == x);
    }
    if s.drop_last().contains(x) {
        let j = choose|j: int| 0 <= j < s.drop_last().len() && s.drop_last()[j] == x;
        assert(s[j] == x);
    }
    if x == s.last() {
        assert(s[s.len() - 1] == x);
    }
}

/// What is kept by `dedup` is what occurs, each once.
pub proof fn lemma_dedup(s: Seq<usize>)
    ensures
        forall|x: usize| dedup(s).contains(x) <==> s.contains(x),
        dedup(s).no_duplicates(),
    decreases s.len(),
{
    if s.len() > 0 {
        lemma_dedup(s.drop_last());
        let d = dedup(s.drop_last());
        let l = s.last();
        assert forall|x: usize| dedup(s).contains(x) <==> s.contains(x) by {
            lemma_contains_last(s, x);
            if !d.contains(l) {
                lemma_contains_last(d.push(l), x);
                assert(d.push(l).drop_last() =~= d);
            }
        }
        if !d.contains(l) {
            let e = d.push(l);
            assert forall|a: int, b: int| 0 <= a < e.len() && 0 <= b < e.len() && a != b implies e[a]
                != e[b] by {
                if a == d.len() {
                    assert(d[b] == e[b]);
                } else if b == d.len() {
                    assert(d[a] == e[a]);
                }
            }
        }
    }
}

impl HtmlTree {
    /// Appends the descendants of node `id`, in document order.
    fn collect_descendants(&self, id: usize, out: &mut Vec<usize>)
        requires
            wf(self@),
            id < self@.len(),
        ensures
            final(out)@ == old(out)@ + descendants(self@, id as int),
        decreases self@.len() - id,
    {
        let ghost o0 = out@;
        let children = self.children(id);
        assert(child_descendants(self@, id as int, 0) == descendants(self@, id as int));
        for k in 0..children.len()
            invariant
                wf(self@),
                id < self@.len(),
                children@ == self@[id as int].children,
                out@ + child_descendants(self@, id as int, k as int) == o0 + descendants(
                    self@,
                    id as int,
                ),
        {
            let c = children[k];
            assert(id < c < self@.len());
            let ghost before = out@;
            out.push(c);
            self.collect_descendants(c, out);
            assert(child_descendants(self@, id as int, k as int) == seq![c] + descendants(
                self@,
                c as int,
            ) + child_descendants(self@, id as int, k + 1));
            assert(out@ + child_descendants(self@, id as int, k + 1) =~= before
                + child_descendants(self@, id as int, k as int));
        }
        assert(child_descendants(self@, id as int, children@.len() as int) =~= Seq::<usize>::empty());
        assert(out@ =~= o0 + descendants(self@, id as int));
    }

    /// Appends the nodes that the combinator relates to node `n`.
    fn collect_related(&self, c: CssSelectorCombinator, n: usize, out: &mut Vec<usize>)
        requires
            wf(self@),
            n < self@.len(),
        ensures
            final(out)@ == old(out)@ + related(self@, c, n as int),
    {
        let ghost o0 = out@;
        match c {
            CssSelectorCombinator::Start => {
                out.push(n);
                self.collect_descendants(n, out);
                assert(out@ =~= o0 + related(self@, c, n as int));
            },
            CssSelectorCombinator::Descendent => {
                self.collect_descendants(n, out);
            },
            CssSelectorCombinator::DirectChild => {
                let children = self.children(n);
                for k in 0..children.len()
                    invariant
                        n < self@.len(),
                        children@ == self@[n as int].children,
                        out@ == o0 + children@.take(k as int),
                {
                    out.push(children[k]);
                    assert(out@ =~= o0 + children@.take(k + 1));
                }
                assert(children@.take(children@.len() as int) =~= children@);
            },
            CssSelectorCombinator::GeneralSibling | CssSelectorCombinator::AdjacentSibling => {
                match self.parent(n) {
                    None => {
                        assert(out@ =~= o0 + related(self@, c, n as int));
                    },
                    Some(p) => {
                        let siblings = self.children(p);
                        let sl = siblings.len();
                        assert(self@[p as int].children.contains(n));
                        proof {
                            lemma_first_index(siblings@, n);
                        }
                        let mut k: usize = 0;
                        while siblings[k] != n
                            invariant
                                p < self@.len(),
                                sl == siblings@.len(),
                                siblings@ == self@[p as int].children,
                                0 <= k <= first_index(siblings@, n),
                                first_index(siblings@, n) < siblings@.len(),
                                siblings@[first_index(siblings@, n)] == n,
                                forall|j: int| 0 <= j < first_index(siblings@, n) ==> siblings@[j] != n,
                            decreases first_index(siblings@, n) - k,
                        {
                            k = k + 1;
                        }
                        let ghost f = following_siblings(self@, n as int);
                        assert(f =~= siblings@.skip(k + 1));
                        let mut j: usize = k + 1;
                        let ghost adjacent = matches!(c, CssSelectorCombinator::AdjacentSibling);
                        while j < siblings.len()
                            invariant
                                o0 == old(out)@,
                                n < self@.len(),
                                self@[n as int].parent == Some(p),
                                f == following_siblings(self@, n as int),
                                siblings@ == self@[p as int].children,
                                f == siblings@.skip(k + 1),
                                k + 1 <= j <= siblings@.len(),
                                wf(self@),
                                p < self@.len(),
                                adjacent == (c == CssSelectorCombinator::AdjacentSibling),
                                !adjacent ==> out@ == o0 + siblings@.subrange(k + 1, j as int),
                                adjacent ==> out@ == o0 && first_element(self@, f) == first_element(
                                    self@,
                                    siblings@.skip(j as int),
                                ),
                            decreases siblings@.len() - j,
                        {
                            let x = siblings[j];
                            assert(x < self@.len());
                            assert(siblings@.skip(j as int)[0] == x);
                            assert(siblings@.skip(j as int).drop_first() =~= siblings@.skip(j + 1));
                            match c {
                                CssSelectorCombinator::AdjacentSibling => {
                                    if self.content(x).is_tag() {
                                        assert(siblings@.skip(j as int).len() > 0);
                                        assert(self@[siblings@.skip(j as int)[0] as int].content is Tag);
                                        assert(first_element(self@, siblings@.skip(j as int)) == seq![x]);
                                        out.push(x);
                                        assert(out@ =~= o0 + related(self@, c, n as int));
                                        return;
                                    }
                                },
                                _ => {
                                    out.push(x);
                                    assert(out@ =~= o0 + siblings@.subrange(k + 1, j + 1));
                                },
                            }
                            j = j + 1;
                        }
                        assert(siblings@.subrange(k + 1, siblings@.len() as int) =~= f);
                        assert(siblings@.skip(j as int).len() == 0);
                        assert(out@ =~= o0 + related(self@, c, n as int));
                    },
                }
            },
        }
    }

    /// The nodes related to the nodes `src`, each kept at its first occurrence only.
    fn candidates(&self, c: CssSelectorCombinator, src: &Vec<usize>) -> (r: Vec<usize>)
        requires
            wf(self@),
            all_valid(self@, src@),
        ensures
            r@ == dedup(gather(self@, c, src@)),
            all_valid(self@, r@),
    {
        let n = self.len();
        let mut seen: Vec<bool> = Vec::new();
        for k in 0..n
            invariant
                seen@.len() == k,
                forall|j: int| 0 <= j < k ==> !seen@[j],
        {
            seen.push(false);
        }
        let mut r: Vec<usize> = Vec::new();
        for i in 0..src.len()
            invariant
                wf(self@),
                n == self@.len(),
                all_valid(self@, src@),
                seen@.len() == n,
                r@ == dedup(gather(self@, c, src@.take(i as int))),
                all_valid(self@, r@),
                forall|x: int| 0 <= x < n ==> seen@[x] == r@.contains(x as usize),
        {
            let mut rel: Vec<usize> = Vec::new();
            let s = src[i];
            assert(src@[i as int] < self@.len());
            self.collect_related(c, s, &mut rel);
            proof {
                lemma_related_valid(self@, c, s as int);
                assert(src@.take(i + 1).drop_last() =~= src@.take(i as int));
            }
            let ghost g0 = gather(self@, c, src@.take(i as int));
            assert(gather(self@, c, src@.take(i + 1)) == g0 + rel@);
            for j in 0..rel.len()
                invariant
                    n == self@.len(),
                    seen@.len() == n,
                    all_valid(self@, rel@),
                    all_valid(self@, r@),
                    r@ == dedup(g0 + rel@.take(j as int)),
                    forall|x: int| 0 <= x < n ==> seen@[x] == r@.contains(x as usize),
            {
                let x = rel[j];
                assert(x < n);
                assert((g0 + rel@.take(j + 1)).drop_last() =~= g0 + rel@.take(j as int));
                assert((g0 + rel@.take(j + 1)).last() == x);
                if !seen[x] {
                    let ghost before = r@;
                    r.push(x);
                    seen.set(x, true);
                    assert forall|y: int| 0 <= y < n implies seen@[y] == r@.contains(y as usize) by {
                        if r@.contains(y as usize) && y != x {
                            let m = choose|m: int| 0 <= m < r@.len() && r@[m] == y as usize;
                            assert(before[m] == y as usize);
                        }
                        if before.contains(y as usize) {
                            let m = choose|m: int| 0 <= m < before.len() && before[m] == y as usize;
                            assert(r@[m] == y as usize);
                        }
                        if y == x {
                            assert(r@[before.len() as int] == x);
                        }
                    }
                }
            }
            assert(rel@.take(rel@.len() as int) =~= rel@);
        }
        assert(src@.take(src@.len() as int) =~= src@);
        r
    }

    /// One step of a path from the nodes `src`.
    fn run_step(&self, step: &CssSelectorStep, src: &Vec<usize>) -> (r: Option<Vec<usize>>)
        requires
            wf(self@),
            all_valid(self@, src@),
        ensures
            match r {
                Some(v) => step_outcome(self@, step@, src@) == Some(v@) && all_valid(self@, v@),
                None => step_outcome(self@, step@, src@) is None,
            },
    {
        let cands = self.candidates(step.combinator, src);
        let mut found: Vec<usize> = Vec::new();
        for i in 0..cands.len()
            invariant
                wf(self@),
                cands@ == dedup(gather(self@, step@.combinator, src@)),
                all_valid(self@, cands@),
                all_valid(self@, found@),
                filter_matching(self@, step@.selector, cands@.take(i as int)) == Some(found@),
        {
            let x = cands[i];
            assert(cands@.take(i + 1).drop_last() =~= cands@.take(i as int));
            match step.selector.outcome_on(self.content(x)) {
                None => {
                    proof {
                        assert(cands@[i as int] == x);
                        lemma_filter_none(self@, step@.selector, cands@, i as int + 1);
                        assert(filter_matching(self@, step@.selector, cands@) is None);
                        assert(step_outcome(self@, step@, src@) is None);
                    }
                    return None;
                },
                Some(true) => {
                    found.push(x);
                },
                Some(false) => {},
            }
        }
        assert(cands@.take(cands@.len() as int) =~= cands@);
        Some(found)
    }

    /// The nodes a path finds from the nodes `src`.
    fn run_path(&self, path: &CssSelectorPath, src: &Vec<usize>) -> (r: Option<Vec<usize>>)
        requires
            wf(self@),
            all_valid(self@, src@),
        ensures
            match r {
                Some(v) => path_outcome(self@, path@, src@) == Some(v@) && all_valid(self@, v@),
                None => path_outcome(self@, path@, src@) is None,
            },
    {
        let mut current: Vec<usize> = Vec::new();
        for k in 0..src.len()
            invariant
                current@ == src@.take(k as int),
        {
            current.push(src[k]);
            assert(current@ =~= src@.take(k + 1));
        }
        assert(current@ =~= src@);
        for i in 0..path.0.len()
            invariant
                wf(self@),
                all_valid(self@, current@),
                path@ == path.0@.map_values(|s: CssSelectorStep| s@),
                path_outcome(self@, path@.take(i as int), src@) == Some(current@),
        {
            assert(path@.take(i + 1).drop_last() =~= path@.take(i as int));
            assert(path@.take(i + 1).last() == path.0@[i as int]@);
            match self.run_step(&path.0[i], &current) {
                None => {
                    proof {
                        lemma_path_none(self@, path@, src@, i as int + 1);
                    }
                    return None;
                },
                Some(v) => {
                    current = v;
                },
            }
        }
        assert(path@.take(path.0@.len() as int) =~= path@);
        Some(current)
    }

    /// The nodes a selector list finds from the nodes `src`: each once, in the order found;
    /// `None` where the list cannot be decided on some node.
    pub fn query(&self, list: &CssSelectorList, src: &Vec<usize>) -> (r: Option<Vec<usize>>)
        requires
            wf(self@),
            all_valid(self@, src@),
        ensures
            match r {
                Some(v) => query_outcome(self@, list@, src@) == Some(v@) && all_valid(self@, v@),
                None => query_outcome(self@, list@, src@) is None,
            },
    {
        let mut all: Vec<usize> = Vec::new();
        for i in 0..list.0.len()
            invariant
                wf(self@),
                all_valid(self@, src@),
                all_valid(self@, all@),
                list@ == list.0@.map_values(|p: CssSelectorPath| p@),
                paths_outcome(self@, list@.take(i as int), src@) == Some(all@),
        {
            assert(list@.take(i + 1).drop_last() =~= list@.take(i as int));
            assert(list@.take(i + 1).last() == list.0@[i as int]@);
            match self.run_path(&list.0[i], src) {
                None => {
                    proof {
                        lemma_paths_none(self@, list@, src@, i as int + 1);
                    }
                    return None;
                },
                Some(v) => {
                    let ghost before = all@;
                    let mut k: usize = 0;
                    while k < v.len()
                        invariant
                            all@ == before + v@.take(k as int),
                            k <= v@.len(),
                            all_valid(self@, before),
                            all_valid(self@, v@),
                        decreases v@.len() - k,
                    {
                        all.push(v[k]);
                        k = k + 1;
                        assert(all@ =~= before + v@.take(k as int));
                    }
                    assert(v@.take(v@.len() as int) =~= v@);
                    assert forall|j: int| 0 <= j < all@.len() implies #[trigger] all@[j] < self@.len() by {
                        if j < before.len() {
                            assert(all@[j] == before[j]);
                        } else {
                            assert(all@[j] == v@[j - before.len()]);
                        }
                    }
                },
            }
        }
        assert(list@.take(list.0@.len() as int) =~= list@);
        // keep each node at its first occurrence only
        let mut r: Vec<usize> = Vec::new();
        let n = self.len();
        let mut seen: Vec<bool> = Vec::new();
        for k in 0..n
            invariant
                seen@.len() == k,
                forall|j: int| 0 <= j < k ==> !seen@[j],
        {
            seen.push(false);
        }
        for j in 0..all.len()
            invariant
                n == self@.len(),
                seen@.len() == n,
                all_valid(self@, all@),
                all_valid(self@, r@),
                r@ == dedup(all@.take(j as int)),
                forall|x: int| 0 <= x < n ==> seen@[x] == r@.contains(x as usize),
        {
            let x = all[j];
            assert(all@.take(j + 1).drop_last() =~= all@.take(j as int));
            if !seen[x] {
                let ghost before = r@;
                r.push(x);
                seen.set(x, true);
                assert forall|y: int| 0 <= y < n implies seen@[y] == r@.contains(y as usize) by {
                    if r@.contains(y as usize) && y != x {
                        let m = choose|m: int| 0 <= m < r@.len() && r@[m] == y as usize;
                        assert(before[m] == y as usize);
                    }
                    if before.contains(y as usize) {
                        let m = choose|m: int| 0 <= m < before.len() && before[m] == y as usize;
                        assert(r@[m] == y as usize);
                    }
                    if y == x {
                        assert(r@[before.len() as int] == x);
                    }
                }
            }
        }
        assert(all@.take(all@.len() as int) =~= all@);
        Some(r)
    }
}

/// Once a node cannot be decided, neither can any longer prefix.
proof fn lemma_filter_none(t: Seq<NodeModel>, sel: SelectorModel, s: Seq<usize>, i: int)
    requires
        0 < i <= s.len(),
        filter_matching(t, sel, s.take(i - 1)) is Some,
        selector_outcome(sel, t[s[i - 1] as int].content) is None,
    ensures
        filter_matching(t, sel, s) is None,
    decreases s.len() - i,
{
    assert(s.take(i).drop_last() =~= s.take(i - 1));
    if i < s.len() {
        lemma_filter_none_extends(t, sel, s, i);
    } else {
        assert(s.take(i) =~= s);
    }
}

proof fn lemma_filter_none_extends(t: Seq<NodeModel>, sel: SelectorModel, s: Seq<usize>, i: int)
    requires
        0 < i <= s.len(),
        filter_matching(t, sel, s.take(i)) is None,
    ensures
        filter_matching(t, sel, s) is None,
    decreases s.len() - i,
{
    if i < s.len() {
        assert(s.take(i + 1).drop_last() =~= s.take(i));
        lemma_filter_none_extends(t, sel, s, i + 1);
    } else {
        assert(s.take(i) =~= s);
    }
}

proof fn lemma_path_none(t: Seq<NodeModel>, steps: Seq<StepModel>, src: Seq<usize>, i: int)
    requires
        0 < i <= steps.len(),
        path_outcome(t, steps.take(i), src) is None,
    ensures
        path_outcome(t, steps, src) is None,
    decreases steps.len() - i,
{
    if i < steps.len() {
        assert(steps.take(i + 1).drop_last() =~= steps.take(i));
        lemma_path_none(t, steps, src, i + 1);
    } else {
        assert(steps.take(i) =~= steps);
    }
}

proof fn lemma_paths_none(t: Seq<NodeModel>, paths: Seq<Seq<StepModel>>, src: Seq<usize>, i: int)
    requires
        0 < i <= paths.len(),
        paths_outcome(t, paths.take(i), src) is None,
    ensures
        paths_outcome(t, paths, src) is None,
    decreases paths.len() - i,
{
    if i < paths.len() {
        assert(paths.take(i + 1).drop_last() =~= paths.take(i));
        lemma_paths_none(t, paths, src, i + 1);
    } else {
        assert(paths.take(i) =~= paths);
    }
}

} // verus!
