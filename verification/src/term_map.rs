//! An ordered map from terms to values.
//!
//! The map keeps its entries in a vector sorted by term, so that lookups
//! are binary searches and the entries come out in term order. Its
//! contracts speak of two models: the entries as parallel sequences
//! (`terms`, `values`), and the mapping they stand for (the view).

use vstd::prelude::*;
use crate::term::{
    lemma_term_asymmetric, lemma_term_irreflexive, lemma_term_transitive,
    lemma_terms_determined, order_terms, term_less, terms_ascending, TermOrder,
};

verus! {

/// A map from terms to values of type `V`, ordered by term.
pub struct TermMap<V> {
    terms: Vec<String>,
    values: Vec<V>,
}

impl<V> View for TermMap<V> {
    type V = Map<Seq<char>, V>;

    /// The mapping: each term of the map to the value stored with it.
    open spec fn view(&self) -> Map<Seq<char>, V> {
        Map::new(
            |t: Seq<char>| self.terms().contains(t),
            |t: Seq<char>| self.values()[self.terms().index_of(t)],
        )
    }
}

impl<V> TermMap<V> {
    /// The terms of the map, in the order in which the map holds them.
    pub closed spec fn terms(&self) -> Seq<Seq<char>> {
        self.terms@.map_values(|t: String| t@)
    }

    /// The values of the map; `values()[i]` belongs to `terms()[i]`.
    pub closed spec fn values(&self) -> Seq<V> {
        self.values@
    }

    /// Well-formedness: one value per term, terms strictly ascending.
    pub open spec fn wf(&self) -> bool {
        &&& self.terms().len() == self.values().len()
        &&& terms_ascending(self.terms())
    }

    /// In a well-formed map each term occurs once, so the view maps the
    /// `i`-th term to the `i`-th value, and has no other keys.
    pub proof fn lemma_entries(&self)
        requires
            self.wf(),
        ensures
            forall|i: int|
                0 <= i < self.terms().len() ==> self@.contains_key(#[trigger] self.terms()[i])
                    && self@[self.terms()[i]] == self.values()[i],
            forall|t: Seq<char>|
                self@.contains_key(t) ==> 0 <= self.terms().index_of(t) < self.terms().len()
                    && self.terms()[self.terms().index_of(t)] == t,
            self@.dom().finite(),
    {
        let ts = self.terms();
        assert forall|i: int| 0 <= i < ts.len() implies self@.contains_key(#[trigger] ts[i])
            && self@[ts[i]] == self.values()[i] by {
            assert(ts.contains(ts[i]));
            let j = ts.index_of(ts[i]);
            if j < i {
                lemma_term_asymmetric(ts[j], ts[i]);
            } else if i < j {
                lemma_term_asymmetric(ts[i], ts[j]);
            }
        }
        assert(self@.dom() =~= ts.to_set());
        vstd::seq_lib::seq_to_set_is_finite(ts);
    }

    /// Two well-formed maps with the same keys hold them in the same
    /// order: the order of the entries is a matter of the keys alone.
    pub proof fn lemma_order_determined<W>(&self, other: &TermMap<W>)
        requires
            self.wf(),
            other.wf(),
            self@.dom() == other@.dom(),
        ensures
            self.terms() == other.terms(),
    {
        self.lemma_entries();
        other.lemma_entries();
        assert forall|t: Seq<char>| self.terms().contains(t) <==> other.terms().contains(t) by {
            assert(self@.dom().contains(t) == other@.dom().contains(t));
        }
        lemma_terms_determined(self.terms(), other.terms());
    }

    /// An empty map.
    pub fn new() -> (m: Self)
        ensures
            m.wf(),
            m.terms() == Seq::<Seq<char>>::empty(),
            m.values() == Seq::<V>::empty(),
            m@ == Map::<Seq<char>, V>::empty(),
    {
        let m = TermMap { terms: Vec::new(), values: Vec::new() };
        proof {
            assert(m.terms() =~= Seq::<Seq<char>>::empty());
            assert(m@ =~= Map::<Seq<char>, V>::empty());
        }
        m
    }

    /// The number of terms in the map.
    pub fn len(&self) -> (n: usize)
        requires
            self.wf(),
        ensures
            n == self.terms().len(),
    {
        self.terms.len()
    }

    /// The `i`-th term in term order.
    pub fn term_at(&self, i: usize) -> (t: &String)
        requires
            self.wf(),
            i < self.terms().len(),
        ensures
            t@ == self.terms()[i as int],
    {
        &self.terms[i]
    }

    /// The value stored with the `i`-th term.
    pub fn value_at(&self, i: usize) -> (v: &V)
        requires
            self.wf(),
            i < self.terms().len(),
        ensures
            *v == self.values()[i as int],
    {
        &self.values[i]
    }

    /// Searches for `term`. `Ok(i)` says that it is the `i`-th term;
    /// `Err(i)` that it is absent and would have to be inserted at `i`.
    pub fn position(&self, term: &str) -> (r: Result<usize, usize>)
        requires
            self.wf(),
        ensures
            match r {
                Ok(i) => i < self.terms().len() && self.terms()[i as int] == term@,
                Err(i) => {
                    &&& i <= self.terms().len()
                    &&& !self.terms().contains(term@)
                    &&& forall|j: int| 0 <= j < i ==> term_less(self.terms()[j], term@)
                    &&& forall|j: int|
                        i <= j < self.terms().len() ==> term_less(term@, self.terms()[j])
                },
            },
    {
        let ghost ts = self.terms();
        let mut lo: usize = 0;
        let mut hi: usize = self.terms.len();
        while lo < hi
            invariant
                lo <= hi <= ts.len(),
                ts == self.terms(),
                ts.len() == self.terms@.len(),
                terms_ascending(ts),
                forall|j: int| 0 <= j < lo ==> term_less(ts[j], term@),
                forall|j: int| hi <= j < ts.len() ==> term_less(term@, ts[j]),
            decreases hi - lo,
        {
            let mid = lo + (hi - lo) / 2;
            let probe: &String = &self.terms[mid];
            assert(probe@ == ts[mid as int]);
            match order_terms(probe.as_str(), term) {
                TermOrder::Same => {
                    return Ok(mid);
                },
                TermOrder::Before => {
                    assert forall|j: int| 0 <= j < mid + 1 implies term_less(ts[j], term@) by {
                        if j < mid {
                            lemma_term_transitive(ts[j], ts[mid as int], term@);
                        }
                    }
                    lo = mid + 1;
                },
                TermOrder::After => {
                    assert forall|j: int| mid <= j < ts.len() implies term_less(term@, ts[j]) by {
                        if mid < j {
                            lemma_term_transitive(term@, ts[mid as int], ts[j]);
                        }
                    }
                    hi = mid;
                },
            }
        }
        proof {
            if ts.contains(term@) {
                let j = ts.index_of(term@);
                lemma_term_irreflexive(term@);
            }
        }
        Err(lo)
    }

    /// Whether the map holds `term`.
    pub fn contains(&self, term: &str) -> (r: bool)
        requires
            self.wf(),
        ensures
            r == self@.contains_key(term@),
    {
        self.position(term).is_ok()
    }

    /// The value stored with `term`, if the map holds it.
    pub fn get(&self, term: &str) -> (r: Option<&V>)
        requires
            self.wf(),
        ensures
            match r {
                Some(v) => self@.contains_key(term@) && *v == self@[term@],
                None => !self@.contains_key(term@),
            },
    {
        match self.position(term) {
            Ok(i) => {
                proof {
                    self.lemma_entries();
                }
                Some(&self.values[i])
            },
            Err(_) => None,
        }
    }

    /// Replaces the value stored with the `i`-th term and returns the value
    /// that was stored with it.
    pub fn replace_at(&mut self, i: usize, value: V) -> (held: V)
        requires
            old(self).wf(),
            i < old(self).terms().len(),
        ensures
            final(self).wf(),
            final(self).terms() == old(self).terms(),
            final(self).values() == old(self).values().update(i as int, value),
            final(self)@ == old(self)@.insert(old(self).terms()[i as int], value),
            held == old(self).values()[i as int],
    {
        let ghost before = *self;
        let mut held = value;
        std::mem::swap(&mut self.values[i], &mut held);
        proof {
            before.lemma_entries();
            self.lemma_entries();
            assert(self.terms() == before.terms());
            assert(self.values() == before.values().update(i as int, value));
            lemma_same_mapping(
                self@,
                before@.insert(before.terms()[i as int], value),
                self.terms(),
                self.values(),
            );
        }
        held
    }

    /// Puts a term that the map does not hold at the place `i` where it
    /// belongs in term order.
    pub fn insert_at(&mut self, i: usize, term: String, value: V)
        requires
            old(self).wf(),
            i <= old(self).terms().len(),
            forall|j: int| 0 <= j < i ==> term_less(old(self).terms()[j], term@),
            forall|j: int|
                i <= j < old(self).terms().len() ==> term_less(term@, old(self).terms()[j]),
        ensures
            final(self).wf(),
            final(self).terms() == old(self).terms().insert(i as int, term@),
            final(self).values() == old(self).values().insert(i as int, value),
            final(self)@ == old(self)@.insert(term@, value),
    {
        let ghost before = *self;
        self.terms.insert(i, term);
        self.values.insert(i, value);
        proof {
            let ts = self.terms();
            assert(ts =~= before.terms().insert(i as int, term@));
            assert(self.values() == before.values().insert(i as int, value));
            assert forall|p: int, q: int| 0 <= p < q < ts.len() implies term_less(ts[p], ts[q]) by {
                let bp = if p < i { p } else { p - 1 };
                let bq = if q < i { q } else { q - 1 };
                if p != i && q != i {
                    assert(term_less(before.terms()[bp], before.terms()[bq]));
                }
            }
            before.lemma_entries();
            self.lemma_entries();
            assert forall|k: Seq<char>| #[trigger]
                before@.insert(term@, value).contains_key(k) implies self@.contains_key(k)
                && self@[k] == before@.insert(term@, value)[k] by {
                if k == term@ {
                    assert(ts[i as int] == k);
                } else {
                    let j = before.terms().index_of(k);
                    let m = if j < i { j } else { j + 1 };
                    assert(ts[m] == k);
                }
            }
            assert forall|k: Seq<char>| #[trigger] self@.contains_key(k) implies before@.insert(
                term@,
                value,
            ).contains_key(k) by {
                let m = ts.index_of(k);
                if m != i {
                    let j = if m < i { m } else { m - 1 };
                    assert(before.terms()[j] == k);
                }
            }
            assert(self@ =~= before@.insert(term@, value));
        }
    }

    /// Stores `value` with `term`. Where the map held the term already, the
    /// value replaces the old one, which is returned.
    pub fn insert(&mut self, term: String, value: V) -> (r: Option<V>)
        requires
            old(self).wf(),
        ensures
            final(self).wf(),
            final(self)@ == old(self)@.insert(term@, value),
            match r {
                Some(v) => old(self)@.contains_key(term@) && v == old(self)@[term@],
                None => !old(self)@.contains_key(term@),
            },
    {
        match self.position(term.as_str()) {
            Ok(i) => {
                proof {
                    self.lemma_entries();
                }
                Some(self.replace_at(i, value))
            },
            Err(i) => {
                self.insert_at(i, term, value);
                None
            },
        }
    }
}

/// Two mappings that agree with one list of entries are one mapping.
proof fn lemma_same_mapping<V>(
    a: Map<Seq<char>, V>,
    b: Map<Seq<char>, V>,
    terms: Seq<Seq<char>>,
    values: Seq<V>,
)
    requires
        terms.len() == values.len(),
        forall|i: int|
            0 <= i < terms.len() ==> a.contains_key(#[trigger] terms[i]) && a[terms[i]]
                == values[i],
        forall|t: Seq<char>| a.contains_key(t) ==> terms.contains(t),
        forall|i: int|
            0 <= i < terms.len() ==> b.contains_key(#[trigger] terms[i]) && b[terms[i]]
                == values[i],
        forall|t: Seq<char>| b.contains_key(t) ==> terms.contains(t),
    ensures
        a == b,
{
    assert forall|t: Seq<char>| a.contains_key(t) == b.contains_key(t) by {
        if a.contains_key(t) || b.contains_key(t) {
            assert(terms.contains(t));
            let i = terms.index_of(t);
            assert(terms[i] == t);
        }
    }
    assert forall|t: Seq<char>| a.contains_key(t) implies a[t] == b[t] by {
        assert(terms.contains(t));
        let i = terms.index_of(t);
        assert(terms[i] == t);
    }
    assert(a =~= b);
}

} // verus!
