//! The model of CSS selectors: a list of comma-separated paths, each path a
//! sequence of steps joined by combinators.
use vstd::prelude::*;

verus! {

/// CSS [pseudo classes](https://developer.mozilla.org/en-US/docs/Web/CSS/Pseudo-classes) selector
#[derive(Clone, Copy, Debug, PartialEq, Eq)]
pub enum CssPseudoClass {
    /// CSS `:first-child`
    FirstChild,
    /// CSS `:nth-child()`
    NthChild(usize),
    /// CSS `:first-of-type`
    FirstOfType,
    /// CSS `:nth-of-type()`
    NthOfType(usize),
    /// CSS `:last-child`
    LastChild,
    /// CSS `:nth-last-child()`
    NthLastChild(usize),
    /// CSS `:last-of-type`
    LastOfType,
    /// CSS `:nth-last-of-type()`
    NthLastOfType(usize),
}

/// Operator for CSS [attribute](https://developer.mozilla.org/en-US/docs/Web/CSS/Attribute_selectors) selector
#[derive(Clone, Copy, Debug, PartialEq, Eq)]
pub enum CssAttributeComparison {
    /// `[attr]`
    Exist,
    /// `[attr^="value"]`
    Starts,
    /// `[attr$="value"]`
    Ends,
    /// `[attr*="value"]`
    CharacterContains,
    /// `[attr~="value"]`
    TermContains,
    /// `[attr="value"]`
    EqualsExact,
    /// `[attr|="value"]`
    EqualsTillHyphen,
}

/// CSS [attribute](https://developer.mozilla.org/en-US/docs/Web/CSS/Attribute_selectors) selector
#[derive(Debug, Clone, PartialEq)]
pub struct CssAttributeSelector<'a> {
    /// the attribute name to match against
    pub attribute: &'a str,
    /// operator to use for matching
    pub operator: CssAttributeComparison,
    /// value the attribute has to match
    pub value: Option<&'a str>,
}

/// Mathematical model of an attribute selector.
pub struct AttributeSelectorModel {
    pub attribute: Seq<char>,
    pub operator: CssAttributeComparison,
    pub value: Option<Seq<char>>,
}

pub open spec fn opt_str_view(o: Option<&str>) -> Option<Seq<char>> {
    match o {
        Some(s) => Some(s@),
        None => None,
    }
}

impl<'a> View for CssAttributeSelector<'a> {
    type V = AttributeSelectorModel;

    open spec fn view(&self) -> AttributeSelectorModel {
        AttributeSelectorModel {
            attribute: self.attribute@,
            operator: self.operator,
            value: opt_str_view(self.value),
        }
    }
}

/// model for [CSS selectors](https://developer.mozilla.org/en-US/docs/Web/CSS/CSS_Selectors)
#[derive(Debug, Clone, PartialEq)]
pub struct CssSelector<'a> {
    /// selector on element name
    pub element: Option<&'a str>,
    /// selector on element id
    pub id: Option<&'a str>,
    /// selector(s) on elements classes
    pub classes: Vec<&'a str>,
    /// selector(s) on elements pseudo-classes
    pub pseudo_classes: Vec<CssPseudoClass>,
    /// selector(s) on elements attributes
    pub attributes: Vec<CssAttributeSelector<'a>>,
}

/// Mathematical model of a simple selector.
pub struct SelectorModel {
    pub element: Option<Seq<char>>,
    pub id: Option<Seq<char>>,
    pub classes: Seq<Seq<char>>,
    pub pseudo_classes: Seq<CssPseudoClass>,
    pub attributes: Seq<AttributeSelectorModel>,
}

pub open spec fn strs_view(v: Seq<&str>) -> Seq<Seq<char>> {
    v.map_values(|s: &str| s@)
}

pub open spec fn attrs_view(v: Seq<CssAttributeSelector>) -> Seq<AttributeSelectorModel> {
    v.map_values(|a: CssAttributeSelector| a@)
}

impl<'a> View for CssSelector<'a> {
    type V = SelectorModel;

    open spec fn view(&self) -> SelectorModel {
        SelectorModel {
            element: opt_str_view(self.element),
            id: opt_str_view(self.id),
            classes: strs_view(self.classes@),
            pseudo_classes: self.pseudo_classes@,
            attributes: attrs_view(self.attributes@),
        }
    }
}

/// Combining different "steps" of the CSS selector path
#[derive(Clone, Copy, Debug, PartialEq, Eq)]
pub enum CssSelectorCombinator {
    /// the beginning of a path: the starting nodes themselves and their descendents
    Start,
    /// CSS descendent combinator "a b"
    Descendent,
    /// CSS direct child combinator "a > b"
    DirectChild,
    /// CSS general sibling combinator "a ~ b"
    GeneralSibling,
    /// CSS adjacent sibling combinator "a + b"
    AdjacentSibling,
}

/// Individual "step" of the CSS Selector path: `a > b` is a start step for `a`
/// followed by a direct-child step for `b`.
#[derive(Debug, Clone, PartialEq)]
pub struct CssSelectorStep<'a> {
    pub selector: CssSelector<'a>,
    pub combinator: CssSelectorCombinator,
}

/// Mathematical model of a step.
pub struct StepModel {
    pub selector: SelectorModel,
    pub combinator: CssSelectorCombinator,
}

impl<'a> View for CssSelectorStep<'a> {
    type V = StepModel;

    open spec fn view(&self) -> StepModel {
        StepModel { selector: self.selector@, combinator: self.combinator }
    }
}

pub open spec fn steps_view(v: Seq<CssSelectorStep>) -> Seq<StepModel> {
    v.map_values(|s: CssSelectorStep| s@)
}

impl<'a> CssSelectorStep<'a> {
    /// A step that starts a path.
    pub fn start(selector: CssSelector<'a>) -> (r: Self)
        ensures
            r.selector == selector,
            r.combinator == CssSelectorCombinator::Start,
    {
        CssSelectorStep { selector, combinator: CssSelectorCombinator::Start }
    }

    /// A step selecting direct children (`a > b`).
    pub fn direct_child(selector: CssSelector<'a>) -> (r: Self)
        ensures
            r.selector == selector,
            r.combinator == CssSelectorCombinator::DirectChild,
    {
        CssSelectorStep { selector, combinator: CssSelectorCombinator::DirectChild }
    }

    /// A step selecting descendents (`a b`).
    pub fn descendent(selector: CssSelector<'a>) -> (r: Self)
        ensures
            r.selector == selector,
            r.combinator == CssSelectorCombinator::Descendent,
    {
        CssSelectorStep { selector, combinator: CssSelectorCombinator::Descendent }
    }

    /// A step selecting all following siblings (`a ~ b`).
    pub fn general_sibling(selector: CssSelector<'a>) -> (r: Self)
        ensures
            r.selector == selector,
            r.combinator == CssSelectorCombinator::GeneralSibling,
    {
        CssSelectorStep { selector, combinator: CssSelectorCombinator::GeneralSibling }
    }

    /// A step selecting the next sibling element (`a + b`).
    pub fn adjacent_sibling(selector: CssSelector<'a>) -> (r: Self)
        ensures
            r.selector == selector,
            r.combinator == CssSelectorCombinator::AdjacentSibling,
    {
        CssSelectorStep { selector, combinator: CssSelectorCombinator::AdjacentSibling }
    }
}

/// a whole "path" of CSS selectors
#[derive(Debug, Clone, PartialEq)]
pub struct CssSelectorPath<'a>(pub Vec<CssSelectorStep<'a>>);

impl<'a> View for CssSelectorPath<'a> {
    type V = Seq<StepModel>;

    open spec fn view(&self) -> Seq<StepModel> {
        steps_view(self.0@)
    }
}

impl<'a> CssSelectorPath<'a> {
    /// A path of a single step: the starting nodes and their descendents matching `step`.
    pub fn single(step: CssSelector<'a>) -> (r: Self)
        ensures
            r.0@ == seq![(CssSelectorStep { selector: step, combinator: CssSelectorCombinator::Start })],
    {
        CssSelectorPath(vec![CssSelectorStep::start(step)])
    }

    /// A path starting with `start`, followed by the steps in `rest`.
    pub fn new(start: CssSelector<'a>, rest: Vec<CssSelectorStep<'a>>) -> (r: Self)
        ensures
            r.0@ == seq![(CssSelectorStep { selector: start, combinator: CssSelectorCombinator::Start })] + rest@,
    {
        let mut list = vec![CssSelectorStep::start(start)];
        let mut rest = rest;
        list.append(&mut rest);
        CssSelectorPath(list)
    }

    /// The steps of this path.
    pub fn as_vec(&self) -> (r: Vec<CssSelectorStep<'a>>)
        ensures
            steps_view(r@) == self@,
    {
        let mut r: Vec<CssSelectorStep<'a>> = Vec::new();
        for i in 0..self.0.len()
            invariant
                r@.len() == i,
                forall|k: int| 0 <= k < i ==> (#[trigger] r@[k])@ == self.0@[k]@,
        {
            r.push(self.0[i].duplicate());
        }
        assert(steps_view(r@) =~= self@);
        r
    }
}

/// the list of all (comma-separated) CSS paths
#[derive(Debug, Clone, PartialEq)]
pub struct CssSelectorList<'a>(pub Vec<CssSelectorPath<'a>>);

pub open spec fn paths_view(v: Seq<CssSelectorPath>) -> Seq<Seq<StepModel>> {
    v.map_values(|p: CssSelectorPath| p@)
}

impl<'a> View for CssSelectorList<'a> {
    type V = Seq<Seq<StepModel>>;

    open spec fn view(&self) -> Seq<Seq<StepModel>> {
        paths_view(self.0@)
    }
}

impl<'a> CssSelectorList<'a> {
    /// The list of the given paths.
    pub fn new(content: Vec<CssSelectorPath<'a>>) -> (r: Self)
        ensures
            r.0@ == content@,
    {
        CssSelectorList(content)
    }

    /// The paths of this list.
    pub fn as_vec(&self) -> (r: Vec<CssSelectorPath<'a>>)
        ensures
            paths_view(r@) == self@,
    {
        let mut r: Vec<CssSelectorPath<'a>> = Vec::new();
        for i in 0..self.0.len()
            invariant
                r@.len() == i,
                forall|k: int| 0 <= k < i ==> (#[trigger] r@[k])@ == self.0@[k]@,
        {
            r.push(self.0[i].duplicate());
        }
        assert(paths_view(r@) =~= self@);
        r
    }

    /// A copy with the same model.
    pub fn duplicate(&self) -> (r: Self)
        ensures
            r@ == self@,
    {
        CssSelectorList(self.as_vec())
    }
}

impl<'a> CssAttributeSelector<'a> {
    /// A copy with the same model.
    pub fn duplicate(&self) -> (r: Self)
        ensures
            r == *self,
    {
        CssAttributeSelector { attribute: self.attribute, operator: self.operator, value: self.value }
    }
}

impl<'a> CssSelector<'a> {
    /// A selector on the element name only.
    pub fn for_element(element: &'a str) -> (r: Self)
        ensures
            r@ == (SelectorModel {
                element: Some(element@),
                id: None,
                classes: seq![],
                pseudo_classes: seq![],
                attributes: seq![],
            }),
    {
        let r = CssSelector {
            element: Some(element),
            id: None,
            classes: vec![],
            pseudo_classes: vec![],
            attributes: vec![],
        };
        assert(r@.classes =~= seq![]);
        assert(r@.attributes =~= seq![]);
        r
    }

    /// A selector on the id only.
    pub fn for_id(id: &'a str) -> (r: Self)
        ensures
            r@ == (SelectorModel {
                element: None,
                id: Some(id@),
                classes: seq![],
                pseudo_classes: seq![],
                attributes: seq![],
            }),
    {
        let r = CssSelector {
            element: None,
            id: Some(id),
            classes: vec![],
            pseudo_classes: vec![],
            attributes: vec![],
        };
        assert(r@.classes =~= seq![]);
        assert(r@.attributes =~= seq![]);
        r
    }

    /// A selector on a single class only.
    pub fn for_class(class: &'a str) -> (r: Self)
        ensures
            r@ == (SelectorModel {
                element: None,
                id: None,
                classes: seq![class@],
                pseudo_classes: seq![],
                attributes: seq![],
            }),
    {
        let r = CssSelector {
            element: None,
            id: None,
            classes: vec![class],
            pseudo_classes: vec![],
            attributes: vec![],
        };
        assert(r@.classes =~= seq![class@]);
        assert(r@.attributes =~= seq![]);
        r
    }

    /// A selector on classes only.
    pub fn for_classes(classes: Vec<&'a str>) -> (r: Self)
        ensures
            r@ == (SelectorModel {
                element: None,
                id: None,
                classes: strs_view(classes@),
                pseudo_classes: seq![],
                attributes: seq![],
            }),
    {
        let r = CssSelector {
            element: None,
            id: None,
            classes,
            pseudo_classes: vec![],
            attributes: vec![],
        };
        assert(r@.attributes =~= seq![]);
        r
    }

    /// A selector on a single attribute only.
    pub fn for_attribute(attribute: CssAttributeSelector<'a>) -> (r: Self)
        ensures
            r@ == (SelectorModel {
                element: None,
                id: None,
                classes: seq![],
                pseudo_classes: seq![],
                attributes: seq![attribute@],
            }),
    {
        let ghost av = attribute@;
        let r = CssSelector {
            element: None,
            id: None,
            classes: vec![],
            pseudo_classes: vec![],
            attributes: vec![attribute],
        };
        assert(r@.classes =~= seq![]);
        assert(r@.attributes =~= seq![av]);
        r
    }

    /// A copy with the same model.
    pub fn duplicate(&self) -> (r: Self)
        ensures
            r@ == self@,
    {
        let mut classes: Vec<&'a str> = Vec::new();
        for i in 0..self.classes.len()
            invariant
                classes@ == self.classes@.take(i as int),
        {
            classes.push(self.classes[i]);
            assert(classes@ =~= self.classes@.take(i + 1));
        }
        let mut pseudo: Vec<CssPseudoClass> = Vec::new();
        for i in 0..self.pseudo_classes.len()
            invariant
                pseudo@ == self.pseudo_classes@.take(i as int),
        {
            pseudo.push(self.pseudo_classes[i]);
            assert(pseudo@ =~= self.pseudo_classes@.take(i + 1));
        }
        let mut attributes: Vec<CssAttributeSelector<'a>> = Vec::new();
        for i in 0..self.attributes.len()
            invariant
                attributes@ == self.attributes@.take(i as int),
        {
            attributes.push(self.attributes[i].duplicate());
            assert(attributes@ =~= self.attributes@.take(i + 1));
        }
        assert(classes@ =~= self.classes@);
        assert(pseudo@ =~= self.pseudo_classes@);
        assert(attributes@ =~= self.attributes@);
        CssSelector {
            element: self.element,
            id: self.id,
            classes,
            pseudo_classes: pseudo,
            attributes,
        }
    }
}

impl<'a> CssSelectorStep<'a> {
    /// A copy with the same model.
    pub fn duplicate(&self) -> (r: Self)
        ensures
            r@ == self@,
    {
        CssSelectorStep { selector: self.selector.duplicate(), combinator: self.combinator }
    }
}

impl<'a> CssSelectorPath<'a> {
    /// A copy with the same model.
    pub fn duplicate(&self) -> (r: Self)
        ensures
            r@ == self@,
    {
        CssSelectorPath(self.as_vec())
    }
}

} // verus!
