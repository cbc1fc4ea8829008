//! Qualified names `(prefix?, namespace, local)` and their order.

use vstd::prelude::*;
use crate::strings::{str_lt, str_less, lemma_str_lt_irreflexive, lemma_str_lt_transitive, lemma_str_lt_total};

verus! {

/// The view of a qualified name: prefix, namespace URL, local name.
pub type QualNameView = (Option<Seq<char>>, Seq<char>, Seq<char>);

/// A qualified name of an element or an attribute.
#[derive(Debug, Clone)]
pub struct QualName {
    pub prefix: Option<String>,
    pub ns: String,
    pub local: String,
}

/// The prefix part of the order: no prefix sorts before any prefix.
pub open spec fn prefix_lt(a: Option<Seq<char>>, b: Option<Seq<char>>) -> bool {
    match (a, b) {
        (None, Some(_)) => true,
        (Some(x), Some(y)) => str_lt(x, y),
        _ => false,
    }
}

/// Lexicographic order on (prefix, namespace, local name).
pub open spec fn qn_lt(a: QualNameView, b: QualNameView) -> bool {
    prefix_lt(a.0, b.0) || (a.0 == b.0 && str_lt(a.1, b.1)) || (a.0 == b.0 && a.1 == b.1 && str_lt(a.2, b.2))
}

pub proof fn lemma_qn_lt_irreflexive(a: QualNameView)
    ensures
        !qn_lt(a, a),
{
    lemma_str_lt_irreflexive(a.1);
    lemma_str_lt_irreflexive(a.2);
    if let Some(x) = a.0 {
        lemma_str_lt_irreflexive(x);
    }
}

pub proof fn lemma_qn_lt_transitive(a: QualNameView, b: QualNameView, c: QualNameView)
    requires
        qn_lt(a, b),
        qn_lt(b, c),
    ensures
        qn_lt(a, c),
{
    if let (Some(x), Some(y), Some(z)) = (a.0, b.0, c.0) {
        if str_lt(x, y) && str_lt(y, z) {
            lemma_str_lt_transitive(x, y, z);
        }
    }
    if str_lt(a.1, b.1) && str_lt(b.1, c.1) {
        lemma_str_lt_transitive(a.1, b.1, c.1);
    }
    if str_lt(a.2, b.2) && str_lt(b.2, c.2) {
        lemma_str_lt_transitive(a.2, b.2, c.2);
    }
}

pub proof fn lemma_qn_lt_total(a: QualNameView, b: QualNameView)
    requires
        a != b,
    ensures
        qn_lt(a, b) || qn_lt(b, a),
{
    if a.0 != b.0 {
        if let (Some(x), Some(y)) = (a.0, b.0) {
            lemma_str_lt_total(x, y);
        }
    } else if a.1 != b.1 {
        lemma_str_lt_total(a.1, b.1);
    } else {
        assert(a.2 != b.2);
        lemma_str_lt_total(a.2, b.2);
    }
}

fn opt_str_eq(a: &Option<String>, b: &Option<String>) -> (r: bool)
    ensures
        r == (opt_view(a) == opt_view(b)),
{
    match (a, b) {
        (Some(x), Some(y)) => x.eq(y),
        (None, None) => true,
        _ => false,
    }
}

pub open spec fn opt_view(a: &Option<String>) -> Option<Seq<char>> {
    match a {
        Some(x) => Some(x@),
        None => None,
    }
}

impl QualName {
    pub open spec fn view(&self) -> QualNameView {
        (opt_view(&self.prefix), self.ns@, self.local@)
    }

    pub fn new(prefix: Option<String>, ns: String, local: String) -> (r: QualName)
        ensures
            r.prefix == prefix,
            r.ns == ns,
            r.local == local,
    {
        QualName { prefix, ns, local }
    }

    /// A copy with the same view.
    pub fn copy(&self) -> (r: QualName)
        ensures
            r@ == self@,
    {
        let prefix = match &self.prefix {
            Some(p) => Some(p.clone()),
            None => None,
        };
        QualName { prefix, ns: self.ns.clone(), local: self.local.clone() }
    }

    /// All three parts are equal.
    pub fn same(&self, other: &QualName) -> (r: bool)
        ensures
            r == (self@ == other@),
    {
        opt_str_eq(&self.prefix, &other.prefix) && self.ns == other.ns && self.local == other.local
    }

    /// `self` sorts before `other` by (prefix, namespace, local name).
    pub fn less(&self, other: &QualName) -> (r: bool)
        ensures
            r == qn_lt(self@, other@),
    {
        let p = match (&self.prefix, &other.prefix) {
            (None, Some(_)) => true,
            (Some(x), Some(y)) => str_less(x.as_str(), y.as_str()),
            _ => false,
        };
        if p {
            return true;
        }
        if !opt_str_eq(&self.prefix, &other.prefix) {
            return false;
        }
        if str_less(self.ns.as_str(), other.ns.as_str()) {
            return true;
        }
        if self.ns != other.ns {
            return false;
        }
        str_less(self.local.as_str(), other.local.as_str())
    }
}

} // verus!
