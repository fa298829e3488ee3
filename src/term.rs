//! Normalized tokens used as index keys.
use vstd::prelude::*;

verus! {

/// A normalized token: a lower-cased, stemmed word.
#[derive(Debug, Clone)]
pub struct Term {
    pub value: String,
}

impl View for Term {
    type V = Seq<char>;

    open spec fn view(&self) -> Seq<char> {
        self.value@
    }
}

/// The texts of a sequence of terms.
pub open spec fn terms_view(ts: Seq<Term>) -> Seq<Seq<char>> {
    ts.map_values(|t: Term| t@)
}

impl Term {
    pub fn new(value: String) -> (r: Term)
        ensures
            r@ == value@,
    {
        Term { value }
    }

    /// A copy of the term.
    pub fn duplicate(&self) -> (r: Term)
        ensures
            r@ == self@,
    {
        Term { value: self.value.clone() }
    }

    /// Whether two terms hold the same text.
    pub fn same(&self, other: &Term) -> (r: bool)
        ensures
            r == (self@ == other@),
    {
        self.value == other.value
    }
}

/// A copy of a sequence of terms.
pub fn copy_terms(ts: &Vec<Term>) -> (r: Vec<Term>)
    ensures
        terms_view(r@) == terms_view(ts@),
{
    let mut out: Vec<Term> = Vec::new();
    let mut i: usize = 0;
    while i < ts.len()
        invariant
            i <= ts.len(),
            out@.len() == i,
            forall|j: int| 0 <= j < i ==> (#[trigger] out@[j])@ == ts@[j]@,
        decreases ts.len() - i,
    {
        out.push(ts[i].duplicate());
        i = i + 1;
    }
    assert(terms_view(out@) =~= terms_view(ts@));
    out
}

impl PartialEq for Term {
    fn eq(&self, other: &Term) -> (r: bool) {
        self.value == other.value
    }
}

impl vstd::std_specs::cmp::PartialEqSpecImpl for Term {
    open spec fn obeys_eq_spec() -> bool {
        true
    }

    open spec fn eq_spec(&self, other: &Term) -> bool {
        self@ == other@
    }
}

impl<'a> From<&'a str> for Term {
    fn from(item: &'a str) -> (r: Term) {
        Term { value: item.to_string() }
    }
}

impl<'a> vstd::std_specs::convert::FromSpecImpl<&'a str> for Term {
    open spec fn obeys_from_spec() -> bool {
        false
    }

    open spec fn from_spec(item: &'a str) -> Term {
        Term { value: choose|s: String| s@ == item@ }
    }
}

} // verus!
