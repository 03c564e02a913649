//! The attributes of a tag: a map from names to values, kept in ascending order
//! of the names.
use vstd::prelude::*;
use crate::text::chars_of;

verus! {

/// `a` comes before `b` in lexicographic order of their characters.
pub open spec fn seq_less(a: Seq<char>, b: Seq<char>) -> bool
    decreases a.len(),
{
    if a.len() == 0 {
        b.len() > 0
    } else if b.len() == 0 {
        false
    } else if a[0] != b[0] {
        a[0] < b[0]
    } else {
        seq_less(a.drop_first(), b.drop_first())
    }
}

/// Lexicographic order is irreflexive.
pub proof fn lemma_seq_less_irreflexive(a: Seq<char>)
    ensures
        !seq_less(a, a),
    decreases a.len(),
{
    if a.len() > 0 {
        lemma_seq_less_irreflexive(a.drop_first());
    }
}

/// Lexicographic order is asymmetric and total.
pub proof fn lemma_seq_less_total(a: Seq<char>, b: Seq<char>)
    ensures
        seq_less(a, b) ==> !seq_less(b, a),
        a != b ==> seq_less(a, b) || seq_less(b, a),
    decreases a.len(),
{
    if a.len() > 0 && b.len() > 0 {
        lemma_seq_less_total(a.drop_first(), b.drop_first());
        if a[0] == b[0] && a.drop_first() == b.drop_first() {
            assert(a =~= seq![a[0]] + a.drop_first());
            assert(b =~= seq![b[0]] + b.drop_first());
        }
    } else if a.len() == 0 && b.len() == 0 {
        assert(a =~= b);
    }
}

/// Lexicographic order is transitive.
pub proof fn lemma_seq_less_transitive(a: Seq<char>, b: Seq<char>, c: Seq<char>)
    requires
        seq_less(a, b),
        seq_less(b, c),
    ensures
        seq_less(a, c),
    decreases a.len(),
{
    if a.len() > 0 && b.len() > 0 && c.len() > 0 && a[0] == b[0] && b[0] == c[0] {
        lemma_seq_less_transitive(a.drop_first(), b.drop_first(), c.drop_first());
    }
}

/// An entry list with this key put in place: the value of an existing entry with
/// the same key is replaced, else the entry goes before the first greater key.
pub open spec fn put(e: Seq<(Seq<char>, Seq<char>)>, k: Seq<char>, v: Seq<char>) -> Seq<
    (Seq<char>, Seq<char>),
>
    decreases e.len(),
{
    if e.len() == 0 {
        seq![(k, v)]
    } else if e[0].0 == k {
        seq![(k, v)] + e.drop_first()
    } else if seq_less(k, e[0].0) {
        seq![(k, v)] + e
    } else {
        seq![e[0]] + put(e.drop_first(), k, v)
    }
}

/// An entry list without the entries of this key.
pub open spec fn without(e: Seq<(Seq<char>, Seq<char>)>, k: Seq<char>) -> Seq<(Seq<char>, Seq<char>)>
    decreases e.len(),
{
    if e.len() == 0 {
        e
    } else if e[0].0 == k {
        without(e.drop_first(), k)
    } else {
        seq![e[0]] + without(e.drop_first(), k)
    }
}

/// The value of the first entry with this key.
pub open spec fn lookup(e: Seq<(Seq<char>, Seq<char>)>, k: Seq<char>) -> Option<Seq<char>>
    decreases e.len(),
{
    if e.len() == 0 {
        None
    } else if e[0].0 == k {
        Some(e[0].1)
    } else {
        lookup(e.drop_first(), k)
    }
}

/// The keys of the entries are in strictly ascending order.
pub open spec fn sorted(e: Seq<(Seq<char>, Seq<char>)>) -> bool {
    forall|i: int, j: int| 0 <= i < j < e.len() ==> seq_less(#[trigger] e[i].0, #[trigger] e[j].0)
}

/// Where a key has a value, an entry holds that key.
pub proof fn lemma_lookup_entry(e: Seq<(Seq<char>, Seq<char>)>, k: Seq<char>)
    requires
        lookup(e, k) is Some,
    ensures
        exists|i: int| 0 <= i < e.len() && #[trigger] e[i].0 == k,
    decreases e.len(),
{
    if e[0].0 != k {
        lemma_lookup_entry(e.drop_first(), k);
        let i = choose|i: int| 0 <= i < e.drop_first().len() && #[trigger] e.drop_first()[i].0 == k;
        assert(e[i + 1].0 == k);
    }
}

/// Two entry lists ordered by key that give the same value for every key are equal.
pub proof fn lemma_sorted_unique(e1: Seq<(Seq<char>, Seq<char>)>, e2: Seq<(Seq<char>, Seq<char>)>)
    requires
        sorted(e1),
        sorted(e2),
        forall|k: Seq<char>| lookup(e1, k) == lookup(e2, k),
    ensures
        e1 == e2,
    decreases e1.len(),
{
    if e1.len() == 0 {
        if e2.len() > 0 {
            assert(lookup(e2, e2[0].0) is Some);
            assert(lookup(e1, e2[0].0) is None);
        }
        assert(e1 =~= e2);
    } else {
        if e2.len() == 0 {
            assert(lookup(e1, e1[0].0) is Some);
            assert(false);
        }
        let k1 = e1[0].0;
        let k2 = e2[0].0;
        assert(lookup(e1, k1) == Some(e1[0].1));
        assert(lookup(e2, k2) == Some(e2[0].1));
        if k1 != k2 {
            lemma_lookup_entry(e2, k1);
            let i = choose|i: int| 0 <= i < e2.len() && #[trigger] e2[i].0 == k1;
            assert(i != 0);
            assert(seq_less(e2[0].0, e2[i].0));
            lemma_lookup_entry(e1, k2);
            let j = choose|j: int| 0 <= j < e1.len() && #[trigger] e1[j].0 == k2;
            assert(j != 0);
            assert(seq_less(e1[0].0, e1[j].0));
            lemma_seq_less_total(k1, k2);
            assert(false);
        }
        let t1 = e1.drop_first();
        let t2 = e2.drop_first();
        assert(sorted(t1)) by {
            assert forall|i: int, j: int| 0 <= i < j < t1.len() implies seq_less(#[trigger] t1[i].0, #[trigger] t1[j].0) by {
                assert(t1[i] == e1[i + 1]);
                assert(t1[j] == e1[j + 1]);
            }
        }
        assert(sorted(t2)) by {
            assert forall|i: int, j: int| 0 <= i < j < t2.len() implies seq_less(#[trigger] t2[i].0, #[trigger] t2[j].0) by {
                assert(t2[i] == e2[i + 1]);
                assert(t2[j] == e2[j + 1]);
            }
        }
        assert forall|k: Seq<char>| lookup(t1, k) == lookup(t2, k) by {
            if k == k1 {
                if lookup(t1, k) is Some {
                    lemma_lookup_entry(t1, k);
                    let i = choose|i: int| 0 <= i < t1.len() && #[trigger] t1[i].0 == k;
                    assert(seq_less(e1[0].0, e1[i + 1].0));
                    lemma_seq_less_irreflexive(k);
                }
                if lookup(t2, k) is Some {
                    lemma_lookup_entry(t2, k);
                    let i = choose|i: int| 0 <= i < t2.len() && #[trigger] t2[i].0 == k;
                    assert(seq_less(e2[0].0, e2[i + 1].0));
                    lemma_seq_less_irreflexive(k);
                }
            } else {
                assert(lookup(e1, k) == lookup(t1, k));
                assert(lookup(e2, k) == lookup(t2, k));
            }
        }
        lemma_sorted_unique(t1, t2);
        assert(e1 =~= seq![e1[0]] + t1);
        assert(e2 =~= seq![e2[0]] + t2);
    }
}

/// The entries after putting one in, entry by entry.
pub open spec fn from_pairs(p: Seq<(Seq<char>, Seq<char>)>) -> Seq<(Seq<char>, Seq<char>)>
    decreases p.len(),
{
    if p.len() == 0 {
        p
    } else {
        put(from_pairs(p.drop_last()), p.last().0, p.last().1)
    }
}

/// The attributes of a tag.
#[derive(Debug, Clone, PartialEq)]
pub struct AttributeMap {
    pub entries: Vec<(String, String)>,
}

pub open spec fn pair_view(p: (String, String)) -> (Seq<char>, Seq<char>) {
    (p.0@, p.1@)
}

impl View for AttributeMap {
    type V = Seq<(Seq<char>, Seq<char>)>;

    open spec fn view(&self) -> Seq<(Seq<char>, Seq<char>)> {
        self.entries@.map_values(|p: (String, String)| pair_view(p))
    }
}

/// `a` and `b` hold the same characters.
pub fn str_eq(a: &str, b: &str) -> (r: bool)
    ensures
        r == (a@ == b@),
{
    let ac = chars_of(a);
    let bc = chars_of(b);
    if ac.len() != bc.len() {
        return false;
    }
    let mut i: usize = 0;
    while i < ac.len()
        invariant
            ac@ == a@,
            bc@ == b@,
            ac@.len() == bc@.len(),
            i <= ac@.len(),
            forall|k: int| 0 <= k < i ==> ac@[k] == bc@[k],
        decreases ac@.len() - i,
    {
        if ac[i] != bc[i] {
            return false;
        }
        i = i + 1;
    }
    assert(ac@ =~= bc@);
    true
}

/// `a` comes before `b` in lexicographic order.
pub fn str_less(a: &str, b: &str) -> (r: bool)
    ensures
        r == seq_less(a@, b@),
{
    let ac = chars_of(a);
    let bc = chars_of(b);
    let mut i: usize = 0;
    assert(ac@.skip(0) =~= ac@);
    assert(bc@.skip(0) =~= bc@);
    loop
        invariant
            ac@ == a@,
            bc@ == b@,
            i <= ac@.len(),
            i <= bc@.len(),
            seq_less(a@, b@) == seq_less(ac@.skip(i as int), bc@.skip(i as int)),
        decreases ac@.len() - i,
    {
        let ghost sa = ac@.skip(i as int);
        let ghost sb = bc@.skip(i as int);
        if i == ac.len() {
            return i < bc.len();
        }
        if i == bc.len() {
            return false;
        }
        if ac[i] != bc[i] {
            return ac[i] < bc[i];
        }
        assert(sa.drop_first() =~= ac@.skip(i + 1));
        assert(sb.drop_first() =~= bc@.skip(i + 1));
        i = i + 1;
    }
}

impl AttributeMap {
    /// No attributes.
    /// A copy holding the same entries.
    pub fn duplicate(&self) -> (r: Self)
        ensures
            r@ == self@,
    {
        let mut entries: Vec<(String, String)> = Vec::new();
        let n = self.entries.len();
        for i in 0..n
            invariant
                n == self.entries@.len(),
                entries@.len() == i,
                entries@.map_values(|p: (String, String)| pair_view(p)) =~= self@.take(i as int),
        {
            let k = self.entries[i].0.clone();
            let v = self.entries[i].1.clone();
            assert(pair_view((k, v)) == self@[i as int]);
            let ghost before = entries@;
            entries.push((k, v));
            assert(entries@ == before.push((k, v)));
            assert forall|j: int| 0 <= j < i implies pair_view(#[trigger] entries@[j]) == self@[j] by {
                assert(entries@[j] == before[j]);
                assert(before.map_values(|p: (String, String)| pair_view(p))[j] == self@.take(i as int)[j]);
            }
            assert(entries@.map_values(|p: (String, String)| pair_view(p)) =~= self@.take(
                i + 1,
            ));
        }
        assert(self@.take(n as int) =~= self@);
        AttributeMap { entries }
    }

    pub fn new() -> (r: Self)
        ensures
            r@ == Seq::<(Seq<char>, Seq<char>)>::empty(),
    {
        let r = AttributeMap { entries: Vec::new() };
        assert(r@ =~= Seq::<(Seq<char>, Seq<char>)>::empty());
        r
    }

    /// The attributes of the given pairs, a later pair replacing an earlier one of the same name.
    pub fn from_pairs(pairs: Vec<(String, String)>) -> (r: Self)
        ensures
            r@ == from_pairs(pairs@.map_values(|p: (String, String)| pair_view(p))),
    {
        let ghost pv = pairs@.map_values(|p: (String, String)| pair_view(p));
        let pairs_len = pairs.len();
        let mut r = AttributeMap::new();
        let mut pairs = pairs;
        let mut rev: Vec<(String, String)> = Vec::new();
        while pairs.len() > 0
            invariant
                rev@.len() + pairs@.len() == pv.len(),
                forall|k: int| 0 <= k < pairs@.len() ==> pair_view(#[trigger] pairs@[k]) == pv[k],
                forall|k: int| 0 <= k < rev@.len() ==> pair_view(#[trigger] rev@[k]) == pv[pv.len() - 1 - k],
            decreases pairs@.len(),
        {
            let p = pairs.pop().unwrap();
            rev.push(p);
        }
        let mut n: usize = 0;
        assert(pv.take(0) =~= Seq::<(Seq<char>, Seq<char>)>::empty());
        while rev.len() > 0
            invariant
                n + rev@.len() == pv.len(),
                pv.len() == pairs_len,
                forall|k: int| 0 <= k < rev@.len() ==> pair_view(#[trigger] rev@[k]) == pv[pv.len() - 1 - k],
                r@ == from_pairs(pv.take(n as int)),
            decreases rev@.len(),
        {
            let (k, v) = rev.pop().unwrap();
            proof {
                assert(pv.take(n + 1).drop_last() =~= pv.take(n as int));
            }
            r.insert(k, v);
            n = n + 1;
        }
        assert(pv.take(n as int) =~= pv);
        r
    }

    /// The value of attribute `key`, if present.
    pub fn get(&self, key: &str) -> (r: Option<&String>)
        ensures
            match r {
                Some(v) => lookup(self@, key@) == Some(v@),
                None => lookup(self@, key@) is None,
            },
    {
        let mut i: usize = 0;
        assert(self@.skip(0) =~= self@);
        while i < self.entries.len()
            invariant
                i <= self.entries@.len(),
                lookup(self@, key@) == lookup(self@.skip(i as int), key@),
            decreases self.entries@.len() - i,
        {
            assert(self@.skip(i as int).drop_first() =~= self@.skip(i + 1));
            assert(self@.skip(i as int)[0] == pair_view(self.entries@[i as int]));
            if str_eq(self.entries[i].0.as_str(), key) {
                return Some(&self.entries[i].1);
            }
            i = i + 1;
        }
        None
    }

    /// Puts attribute `key` with `value` in its place.
    #[verifier::spinoff_prover]
    #[verifier::rlimit(40)]
    pub fn insert(&mut self, key: String, value: String)
        ensures
            final(self)@ == put(old(self)@, key@, value@),
    {
        let ghost e = old(self)@;
        let mut i: usize = 0;
        let mut equal = false;
        assert(e.skip(0) =~= e);
        assert(e.take(0) + put(e, key@, value@) =~= put(e, key@, value@));
        while i < self.entries.len()
            invariant
                self@ == e,
                i <= e.len(),
                put(e, key@, value@) == e.take(i as int) + put(e.skip(i as int), key@, value@),
                equal ==> i < e.len() && e[i as int].0 == key@,
            ensures
                self@ == e,
                i <= e.len(),
                put(e, key@, value@) == e.take(i as int) + put(e.skip(i as int), key@, value@),
                equal ==> i < e.len() && e[i as int].0 == key@,
                !equal ==> (i == e.len() || seq_less(key@, e[i as int].0)),
            decreases e.len() - i,
        {
            let ghost rest = e.skip(i as int);
            assert(rest[0] == pair_view(self.entries@[i as int]));
            if str_eq(self.entries[i].0.as_str(), key.as_str()) {
                equal = true;
                break ;
            }
            if str_less(key.as_str(), self.entries[i].0.as_str()) {
                break ;
            }
            assert(rest.drop_first() =~= e.skip(i + 1));
            assert(e.take(i + 1) =~= e.take(i as int) + seq![rest[0]]);
            i = i + 1;
        }
        let ghost rest = e.skip(i as int);
        let ghost kv = key@;
        let ghost vv = value@;
        if equal {
            assert(put(rest, kv, vv) == seq![(kv, vv)] + rest.drop_first());
            self.entries.set(i, (key, value));
            assert(self@ =~= e.take(i as int) + (seq![(kv, vv)] + rest.drop_first()));
        } else if i < self.entries.len() {
            proof {
                lemma_seq_less_irreflexive(kv);
            }
            assert(rest[0] == e[i as int]);
            assert(put(rest, kv, vv) == seq![(kv, vv)] + rest);
            self.entries.insert(i, (key, value));
            assert(self@ =~= e.take(i as int) + (seq![(kv, vv)] + rest));
        } else {
            self.entries.push((key, value));
            assert(self@ =~= e.take(i as int) + seq![(kv, vv)]);
        }
    }

    /// Removes attribute `key`.
    pub fn remove(&mut self, key: &str)
        ensures
            final(self)@ == without(old(self)@, key@),
    {
        let ghost e = old(self)@;
        let mut kept: Vec<(String, String)> = Vec::new();
        let mut i: usize = 0;
        assert(e.skip(0) =~= e);
        assert(kept@.map_values(|p: (String, String)| pair_view(p)) + without(e, key@) =~= without(e, key@));
        while i < self.entries.len()
            invariant
                self@ == e,
                i <= e.len(),
                without(e, key@) == kept@.map_values(|p: (String, String)| pair_view(p)) + without(
                    e.skip(i as int),
                    key@,
                ),
            decreases e.len() - i,
        {
            let ghost rest = e.skip(i as int);
            assert(rest.drop_first() =~= e.skip(i + 1));
            assert(rest[0] == pair_view(self.entries@[i as int]));
            if !str_eq(self.entries[i].0.as_str(), key) {
                let ghost before = kept@.map_values(|p: (String, String)| pair_view(p));
                kept.push((self.entries[i].0.clone(), self.entries[i].1.clone()));
                assert(kept@.map_values(|p: (String, String)| pair_view(p)) =~= before + seq![rest[0]]);
            }
            i = i + 1;
        }
        assert(e.skip(i as int) =~= Seq::<(Seq<char>, Seq<char>)>::empty());
        self.entries = kept;
        assert(self@ =~= without(e, key@));
    }
}

} // verus!
