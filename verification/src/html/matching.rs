//! Whether an element is matched by a simple CSS selector.
use vstd::prelude::*;
use crate::css::{
    AttributeSelectorModel, CssAttributeComparison, CssAttributeSelector, CssSelector,
    SelectorModel,
};
use crate::html::attributes::{AttributeMap, lookup};
use crate::html::tree::{ContentModel, HtmlContent};
use crate::text::chars_of;

verus! {

broadcast use vstd::string::group_string_axioms;

/// `e` occurs in `g` at position `i`.
pub open spec fn occurs_at(g: Seq<char>, e: Seq<char>, i: int) -> bool {
    0 <= i && i + e.len() <= g.len() && g.subrange(i, i + e.len()) == e
}

/// Characters with the Unicode `White_Space` property.
pub open spec fn is_white_space(c: char) -> bool {
    ||| '\u{9}' <= c <= '\u{d}'
    ||| c == ' '
    ||| c == '\u{85}'
    ||| c == '\u{a0}'
    ||| c == '\u{1680}'
    ||| '\u{2000}' <= c <= '\u{200a}'
    ||| c == '\u{2028}'
    ||| c == '\u{2029}'
    ||| c == '\u{202f}'
    ||| c == '\u{205f}'
    ||| c == '\u{3000}'
}

/// `e` is one of the whitespace separated terms of `g`.
pub open spec fn is_term_of(g: Seq<char>, e: Seq<char>) -> bool {
    &&& e.len() > 0
    &&& forall|k: int| 0 <= k < e.len() ==> !is_white_space(#[trigger] e[k])
    &&& exists|i: int|
        #![trigger occurs_at(g, e, i)]
        occurs_at(g, e, i) && (i == 0 || is_white_space(g[i - 1])) && (i + e.len() == g.len()
            || is_white_space(g[i + e.len()]))
}

/// `e` is one of the pieces of `g` split at single spaces.
pub open spec fn is_space_separated_piece(g: Seq<char>, e: Seq<char>) -> bool {
    &&& forall|k: int| 0 <= k < e.len() ==> #[trigger] e[k] != ' '
    &&& exists|i: int|
        #![trigger occurs_at(g, e, i)]
        occurs_at(g, e, i) && (i == 0 || g[i - 1] == ' ') && (i + e.len() == g.len() || g[i
            + e.len()] == ' ')
}

/// Whether the attribute value `g` satisfies the comparison `op` with `e`.
pub open spec fn value_satisfies(op: CssAttributeComparison, e: Seq<char>, g: Seq<char>) -> bool {
    match op {
        CssAttributeComparison::Exist => true,
        CssAttributeComparison::Starts => occurs_at(g, e, 0),
        CssAttributeComparison::Ends => occurs_at(g, e, g.len() - e.len()),
        CssAttributeComparison::CharacterContains => exists|i: int| #[trigger] occurs_at(g, e, i),
        CssAttributeComparison::TermContains => is_term_of(g, e),
        CssAttributeComparison::EqualsExact => g == e,
        CssAttributeComparison::EqualsTillHyphen => g == e || occurs_at(g, e + seq!['-'], 0),
    }
}

/// The outcome of one attribute selector on the attributes of an element; `None` where
/// a comparison other than existence comes without a value.
pub open spec fn attribute_outcome(
    a: AttributeSelectorModel,
    attrs: Seq<(Seq<char>, Seq<char>)>,
) -> Option<bool> {
    match lookup(attrs, a.attribute) {
        None => Some(false),
        Some(g) => if a.operator == CssAttributeComparison::Exist {
            Some(true)
        } else {
            match a.value {
                None => None,
                Some(e) => Some(value_satisfies(a.operator, e, g)),
            }
        },
    }
}

/// The attribute selectors tried in order up to the first that does not match.
pub open spec fn attributes_outcome(
    l: Seq<AttributeSelectorModel>,
    attrs: Seq<(Seq<char>, Seq<char>)>,
) -> Option<bool>
    decreases l.len(),
{
    if l.len() == 0 {
        Some(true)
    } else {
        match attribute_outcome(l[0], attrs) {
            Some(true) => attributes_outcome(l.drop_first(), attrs),
            other => other,
        }
    }
}

/// The element has the class `c`.
pub open spec fn has_class(attrs: Seq<(Seq<char>, Seq<char>)>, c: Seq<char>) -> bool {
    match lookup(attrs, "class"@) {
        Some(cs) => is_space_separated_piece(cs, c),
        None => false,
    }
}

/// The outcome of a selector on a node: `Some(matched)`, or `None` where the selector
/// asks for pseudo-classes of an element that passed its other checks. Pseudo-classes are
/// not supported: rather than stop the program there, matching answers `None`, which the
/// commands report as `CommandError::UnsupportedSelector`.
pub open spec fn selector_outcome(s: SelectorModel, c: ContentModel) -> Option<bool> {
    match c {
        ContentModel::Tag(name, attrs) => {
            if s.element is Some && s.element->0 != name {
                Some(false)
            } else if s.id is Some && lookup(attrs, "id"@) != Some(s.id->0) {
                Some(false)
            } else if exists|k: int| 0 <= k < s.classes.len() && !has_class(attrs, #[trigger] s.classes[k]) {
                Some(false)
            } else if s.pseudo_classes.len() > 0 {
                None
            } else {
                attributes_outcome(s.attributes, attrs)
            }
        },
        _ => Some(false),
    }
}

/// Whether `c` is a white space character.
pub fn white_space(c: char) -> (r: bool)
    ensures
        r == is_white_space(c),
{
    ('\u{9}' <= c && c <= '\u{d}') || c == ' ' || c == '\u{85}' || c == '\u{a0}' || c == '\u{1680}'
        || ('\u{2000}' <= c && c <= '\u{200a}') || c == '\u{2028}' || c == '\u{2029}' || c
        == '\u{202f}' || c == '\u{205f}' || c == '\u{3000}'
}

/// Whether `e` occurs in `g` at `i`.
pub(crate) fn occurs_at_exec(g: &Vec<char>, e: &Vec<char>, i: usize) -> (r: bool)
    ensures
        r == occurs_at(g@, e@, i as int),
{
    if i > g.len() || e.len() > g.len() - i {
        return false;
    }
    let gl = g.len();
    let mut k: usize = 0;
    while k < e.len()
        invariant
            gl == g@.len(),
            i + e@.len() <= g@.len(),
            k <= e@.len(),
            forall|j: int| 0 <= j < k ==> g@[i + j] == e@[j],
        decreases e@.len() - k,
    {
        if g[i + k] != e[k] {
            assert(g@.subrange(i as int, i + e@.len())[k as int] != e@[k as int]);
            return false;
        }
        k = k + 1;
    }
    assert(g@.subrange(i as int, i + e@.len()) =~= e@);
    true
}

/// Whether `e` occurs anywhere in `g`.
fn contains_exec(g: &Vec<char>, e: &Vec<char>) -> (r: bool)
    ensures
        r == exists|i: int| #[trigger] occurs_at(g@, e@, i),
{
    if e.len() > g.len() {
        return false;
    }
    let last = g.len() - e.len();
    let mut i: usize = 0;
    while i < last
        invariant
            last == g@.len() - e@.len(),
            i <= last,
            forall|j: int| 0 <= j < i ==> !occurs_at(g@, e@, j),
        decreases last - i,
    {
        if occurs_at_exec(g, e, i) {
            return true;
        }
        i = i + 1;
    }
    let r = occurs_at_exec(g, e, last);
    assert(r == exists|j: int| #[trigger] occurs_at(g@, e@, j)) by {
        if !r {
            assert forall|j: int| !occurs_at(g@, e@, j) by {
                if 0 <= j < i {
                }
            }
        }
    }
    r
}

/// Whether `e` is a whitespace separated term of `g`.
fn term_exec(g: &Vec<char>, e: &Vec<char>) -> (r: bool)
    ensures
        r == is_term_of(g@, e@),
{
    if e.len() == 0 || e.len() > g.len() {
        return false;
    }
    let mut k: usize = 0;
    while k < e.len()
        invariant
            k <= e@.len(),
            forall|j: int| 0 <= j < k ==> !is_white_space(#[trigger] e@[j]),
        decreases e@.len() - k,
    {
        if white_space(e[k]) {
            return false;
        }
        k = k + 1;
    }
    let gl = g.len();
    let last = g.len() - e.len();
    let mut i: usize = 0;
    loop
        invariant
            gl == g@.len(),
            last == g@.len() - e@.len(),
            e@.len() > 0,
            i <= last,
            forall|j: int| 0 <= j < e@.len() ==> !is_white_space(#[trigger] e@[j]),
            forall|j: int|
                0 <= j < i ==> !(occurs_at(g@, e@, j) && (j == 0 || is_white_space(g@[j - 1])) && (j
                    + e@.len() == g@.len() || is_white_space(g@[j + e@.len()]))),
        decreases last - i,
    {
        let found = occurs_at_exec(g, e, i) && (i == 0 || white_space(g[i - 1])) && (i == last
            || white_space(g[i + e.len()]));
        if found {
            assert(occurs_at(g@, e@, i as int) && (i == 0 || is_white_space(g@[i - 1])) && (i
                + e@.len() == g@.len() || is_white_space(g@[i + e@.len()])));
            return true;
        }
        if i == last {
            assert forall|j: int|
                !(#[trigger] occurs_at(g@, e@, j) && (j == 0 || is_white_space(g@[j - 1])) && (j
                    + e@.len() == g@.len() || is_white_space(g@[j + e@.len()]))) by {
                if 0 <= j < i {
                }
            }
            return false;
        }
        i = i + 1;
    }
}

/// Whether `e` is a piece of `g` split at single spaces.
fn piece_exec(g: &Vec<char>, e: &Vec<char>) -> (r: bool)
    ensures
        r == is_space_separated_piece(g@, e@),
{
    let mut k: usize = 0;
    while k < e.len()
        invariant
            k <= e@.len(),
            forall|j: int| 0 <= j < k ==> #[trigger] e@[j] != ' ',
        decreases e@.len() - k,
    {
        if e[k] == ' ' {
            return false;
        }
        k = k + 1;
    }
    if e.len() > g.len() {
        return false;
    }
    let gl = g.len();
    let last = g.len() - e.len();
    let mut i: usize = 0;
    loop
        invariant
            gl == g@.len(),
            last == g@.len() - e@.len(),
            i <= last,
            forall|j: int| 0 <= j < e@.len() ==> #[trigger] e@[j] != ' ',
            forall|j: int|
                0 <= j < i ==> !(occurs_at(g@, e@, j) && (j == 0 || g@[j - 1] == ' ') && (j
                    + e@.len() == g@.len() || g@[j + e@.len()] == ' ')),
        decreases last - i,
    {
        let found = occurs_at_exec(g, e, i) && (i == 0 || g[i - 1] == ' ') && (i == last || g[i
            + e.len()] == ' ');
        if found {
            assert(occurs_at(g@, e@, i as int) && (i == 0 || g@[i - 1] == ' ') && (i + e@.len()
                == g@.len() || g@[i + e@.len()] == ' '));
            return true;
        }
        if i == last {
            assert forall|j: int|
                !(#[trigger] occurs_at(g@, e@, j) && (j == 0 || g@[j - 1] == ' ') && (j + e@.len()
                    == g@.len() || g@[j + e@.len()] == ' ')) by {
                if 0 <= j < i {
                }
            }
            return false;
        }
        i = i + 1;
    }
}

/// Whether `g` is `e`, or starts with `e` followed by a hyphen.
fn till_hyphen_exec(g: &Vec<char>, e: &Vec<char>) -> (r: bool)
    ensures
        r == (g@ == e@ || occurs_at(g@, e@ + seq!['-'], 0)),
{
    if g.len() < e.len() || !occurs_at_exec(g, e, 0) {
        proof {
            if g@ == e@ {
                assert(g@.subrange(0, e@.len() as int) =~= e@);
            }
            if occurs_at(g@, e@ + seq!['-'], 0) {
                assert(g@.subrange(0, e@.len() as int) =~= (e@ + seq!['-']).subrange(0, e@.len() as int));
                assert((e@ + seq!['-']).subrange(0, e@.len() as int) =~= e@);
            }
        }
        return false;
    }
    if g.len() == e.len() {
        assert(g@ =~= g@.subrange(0, e@.len() as int));
        return true;
    }
    let r = g[e.len()] == '-';
    proof {
        let f = e@ + seq!['-'];
        if r {
            assert(g@.subrange(0, f.len() as int) =~= f);
        } else {
            if occurs_at(g@, f, 0) {
                assert(g@.subrange(0, f.len() as int)[e@.len() as int] == g@[e@.len() as int]);
            }
        }
    }
    r
}

/// Whether the attribute value `given` satisfies the comparison `op` with `expected`.
fn value_satisfies_exec(op: CssAttributeComparison, expected: &str, given: &str) -> (r: bool)
    ensures
        r == value_satisfies(op, expected@, given@),
{
    let e = chars_of(expected);
    let g = chars_of(given);
    match op {
        CssAttributeComparison::Exist => true,
        CssAttributeComparison::Starts => occurs_at_exec(&g, &e, 0),
        CssAttributeComparison::Ends => {
            if e.len() > g.len() {
                false
            } else {
                occurs_at_exec(&g, &e, g.len() - e.len())
            }
        },
        CssAttributeComparison::CharacterContains => contains_exec(&g, &e),
        CssAttributeComparison::TermContains => term_exec(&g, &e),
        CssAttributeComparison::EqualsExact => {
            if e.len() != g.len() {
                false
            } else {
                let r = occurs_at_exec(&g, &e, 0);
                assert(g@.subrange(0, g@.len() as int) =~= g@);
                r
            }
        },
        CssAttributeComparison::EqualsTillHyphen => till_hyphen_exec(&g, &e),
    }
}

/// The outcome of one attribute selector on the given attributes.
fn attribute_outcome_exec(a: &CssAttributeSelector, attrs: &AttributeMap) -> (r: Option<bool>)
    ensures
        r == attribute_outcome(a@, attrs@),
{
    match attrs.get(a.attribute) {
        None => Some(false),
        Some(given) => {
            match a.operator {
                CssAttributeComparison::Exist => Some(true),
                _ => match a.value {
                    None => None,
                    Some(e) => Some(value_satisfies_exec(a.operator, e, given.as_str())),
                },
            }
        },
    }
}

impl<'a> CssSelector<'a> {
    /// The outcome of this selector on a node; `None` where it asks for pseudo-classes
    /// of an element that passed its other checks (pseudo-classes are not supported; the
    /// `None` lets the commands report `UnsupportedSelector` instead of stopping), or where
    /// an attribute comparison comes without its value.
    pub fn outcome_on(&self, content: &HtmlContent) -> (r: Option<bool>)
        ensures
            r == selector_outcome(self@, content@),
    {
        match content {
            HtmlContent::Tag(tag) => {
                match self.element {
                    Some(e) => {
                        if !crate::html::attributes::str_eq(e, tag.name.as_str()) {
                            return Some(false);
                        }
                    },
                    None => {},
                }
                match self.id {
                    Some(id) => {
                        match tag.attributes.get("id") {
                            Some(v) => {
                                if !crate::html::attributes::str_eq(id, v.as_str()) {
                                    return Some(false);
                                }
                            },
                            None => {
                                return Some(false);
                            },
                        }
                    },
                    None => {},
                }
                let class_value = tag.attributes.get("class");
                let mut k: usize = 0;
                while k < self.classes.len()
                    invariant
                        content@ == ContentModel::Tag(tag.name@, tag.attributes@),
                        k <= self.classes@.len(),
                        self@.element is Some ==> self@.element->0 == tag.name@,
                        self@.id is Some ==> lookup(tag.attributes@, "id"@) == Some(self@.id->0),
                        match class_value {
                            Some(v) => lookup(tag.attributes@, "class"@) == Some(v@),
                            None => lookup(tag.attributes@, "class"@) is None,
                        },
                        forall|j: int| 0 <= j < k ==> has_class(tag.attributes@, #[trigger] self@.classes[j]),
                    decreases self.classes@.len() - k,
                {
                    let member = match class_value {
                        Some(v) => {
                            let g = chars_of(v.as_str());
                            let e = chars_of(self.classes[k]);
                            piece_exec(&g, &e)
                        },
                        None => false,
                    };
                    assert(self@.classes[k as int] == self.classes@[k as int]@);
                    if !member {
                        assert(!has_class(tag.attributes@, self@.classes[k as int]));
                        return Some(false);
                    }
                    k = k + 1;
                }
                if self.pseudo_classes.len() > 0 {
                    return None;
                }
                assert(self@.attributes.skip(0) =~= self@.attributes);
                let mut i: usize = 0;
                while i < self.attributes.len()
                    invariant
                        content@ == ContentModel::Tag(tag.name@, tag.attributes@),
                        selector_outcome(self@, content@) == attributes_outcome(self@.attributes, tag.attributes@),
                        i <= self.attributes@.len(),
                        attributes_outcome(self@.attributes, tag.attributes@)
                            == attributes_outcome(self@.attributes.skip(i as int), tag.attributes@),
                    decreases self.attributes@.len() - i,
                {
                    let o = attribute_outcome_exec(&self.attributes[i], &tag.attributes);
                    assert(self@.attributes[i as int] == self.attributes@[i as int]@);
                    assert(self@.attributes.skip(i as int)[0] == self@.attributes[i as int]);
                    assert(self@.attributes.skip(i as int).drop_first() =~= self@.attributes.skip(
                        i + 1,
                    ));
                    match o {
                        Some(true) => {},
                        other => {
                            return other;
                        },
                    }
                    i = i + 1;
                }
                assert(self@.attributes.skip(i as int).len() == 0);
                Some(true)
            },
            _ => Some(false),
        }
    }
}

} // verus!
