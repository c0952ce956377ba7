//! Values that belong to documents, found by the URI of the document.
use vstd::prelude::*;

use crate::text;

verus! {

/// What is known of some documents, each at most once.
#[derive(Debug)]
pub struct UriMap<V> {
    pub entries: Vec<(String, V)>,
}

/// The value that `es` has for `uri`.
pub open spec fn lookup<V>(es: Seq<(String, V)>, uri: Seq<char>) -> Option<V>
    decreases es.len(),
{
    if es.len() == 0 {
        None
    } else if es.last().0@ == uri {
        Some(es.last().1)
    } else {
        lookup(es.drop_last(), uri)
    }
}

/// `es` without what it has for `uri`.
pub open spec fn without<V>(es: Seq<(String, V)>, uri: Seq<char>) -> Seq<(String, V)>
    decreases es.len(),
{
    if es.len() == 0 {
        Seq::empty()
    } else if es.last().0@ == uri {
        without(es.drop_last(), uri)
    } else {
        without(es.drop_last(), uri).push(es.last())
    }
}

/// Whether no two of `es` are for the same document.
pub open spec fn distinct<V>(es: Seq<(String, V)>) -> bool {
    forall|i: int, j: int| 0 <= i < j < es.len() ==> (#[trigger] es[i]).0@ != (#[trigger] es[j]).0@
}

/// Without an entry for `uri` there is nothing to leave out.
pub(crate) proof fn lemma_absent<V>(es: Seq<(String, V)>, uri: Seq<char>)
    requires
        forall|i: int| 0 <= i < es.len() ==> (#[trigger] es[i]).0@ != uri,
    ensures
        lookup(es, uri) is None,
        without(es, uri) == es,
    decreases es.len(),
{
    if es.len() > 0 {
        let front = es.drop_last();
        assert forall|i: int| 0 <= i < front.len() implies (#[trigger] front[i]).0@ != uri by {
            assert(front[i] == es[i]);
        }
        assert(es.last().0@ != uri);
        lemma_absent(front, uri);
        assert(front.push(es.last()) =~= es);
    }
}

/// The one entry for `uri`.
pub(crate) proof fn lemma_present<V>(es: Seq<(String, V)>, uri: Seq<char>, i: int)
    requires
        distinct(es),
        0 <= i < es.len(),
        es[i].0@ == uri,
    ensures
        lookup(es, uri) == Some(es[i].1),
        without(es, uri) == es.remove(i),
    decreases es.len(),
{
    let front = es.drop_last();
    if i == es.len() - 1 {
        assert forall|j: int| 0 <= j < front.len() implies (#[trigger] front[j]).0@ != uri by {
            assert(front[j] == es[j]);
            assert(es[j].0@ != es[i].0@);
        }
        lemma_absent(front, uri);
        assert(es.remove(i) =~= front);
    } else {
        assert(es[i].0@ != es.last().0@);
        assert(distinct(front)) by {
            assert forall|a: int, b: int| 0 <= a < b < front.len() implies (#[trigger] front[a]).0@
                != (#[trigger] front[b]).0@ by {
                assert(front[a] == es[a] && front[b] == es[b]);
            }
        }
        lemma_present(front, uri, i);
        assert(es.remove(i) =~= front.remove(i).push(es.last()));
    }
}

/// Leaving out `uri` leaves everything else as it is, in its order.
pub proof fn lemma_without<V>(es: Seq<(String, V)>, uri: Seq<char>)
    ensures
        forall|i: int|
            0 <= i < without(es, uri).len() ==> (#[trigger] without(es, uri)[i]).0@ != uri
                && es.contains(without(es, uri)[i]),
        forall|other: Seq<char>| #[trigger]
            lookup(without(es, uri), other) == if other == uri {
                None
            } else {
                lookup(es, other)
            },
        distinct(es) ==> distinct(without(es, uri)),
    decreases es.len(),
{
    if es.len() > 0 {
        let front = es.drop_last();
        lemma_without(front, uri);
        let w = without(front, uri);
        assert forall|i: int| 0 <= i < w.len() implies es.contains(#[trigger] w[i]) by {
            assert(front.contains(w[i]));
            let k = choose|k: int| 0 <= k < front.len() && front[k] == w[i];
            assert(es[k] == w[i]);
        }
        assert(es.contains(es.last()));
        if distinct(es) {
            assert forall|a: int, b: int| 0 <= a < b < front.len() implies (#[trigger] front[a]).0@
                != (#[trigger] front[b]).0@ by {
                assert(front[a] == es[a] && front[b] == es[b]);
            }
            assert forall|i: int| 0 <= i < w.len() implies (#[trigger] w[i]).0@ != es.last().0@ by {
                assert(front.contains(w[i]));
                let k = choose|k: int| 0 <= k < front.len() && front[k] == w[i];
                assert(es[k] == w[i]);
                assert(es[k].0@ != es[es.len() - 1].0@);
            }
        }
        if es.last().0@ != uri {
            assert forall|other: Seq<char>| #[trigger]
                lookup(w.push(es.last()), other) == (if other == uri {
                    None
                } else {
                    lookup(es, other)
                }) by {
                assert(w.push(es.last()).drop_last() =~= w);
                assert(lookup(w, other) == if other == uri {
                    None
                } else {
                    lookup(front, other)
                });
            }
        }
    }
}

impl<V> UriMap<V> {
    /// Whether no document occurs twice.
    pub open spec fn wf(self) -> bool {
        distinct(self.entries@)
    }

    /// The value for `uri`.
    pub open spec fn at(self, uri: Seq<char>) -> Option<V> {
        lookup(self.entries@, uri)
    }

    /// Nothing.
    pub fn new() -> (r: UriMap<V>)
        ensures
            r.wf(),
            r.entries@.len() == 0,
            forall|uri: Seq<char>| #[trigger] r.at(uri) is None,
    {
        UriMap { entries: Vec::new() }
    }

    /// The place of the entry for `uri`.
    fn find(&self, uri: &str) -> (r: Option<usize>)
        requires
            self.wf(),
        ensures
            match r {
                Some(i) => {
                    &&& i < self.entries@.len()
                    &&& self.at(uri@) == Some(self.entries@[i as int].1)
                    &&& without(self.entries@, uri@) == self.entries@.remove(i as int)
                },
                None => self.at(uri@) is None && without(self.entries@, uri@) == self.entries@,
            },
    {
        let mut i: usize = 0;
        while i < self.entries.len()
            invariant
                self.wf(),
                i <= self.entries@.len(),
                forall|j: int| 0 <= j < i ==> (#[trigger] self.entries@[j]).0@ != uri@,
            decreases self.entries@.len() - i,
        {
            if text::str_eq(self.entries[i].0.as_str(), uri) {
                proof {
                    lemma_present(self.entries@, uri@, i as int);
                }
                return Some(i);
            }
            i = i + 1;
        }
        proof {
            lemma_absent(self.entries@, uri@);
        }
        None
    }

    /// The value for `uri`.
    pub fn get(&self, uri: &str) -> (r: Option<&V>)
        requires
            self.wf(),
        ensures
            match r {
                Some(v) => self.at(uri@) == Some(*v),
                None => self.at(uri@) is None,
            },
    {
        match self.find(uri) {
            Some(i) => Some(&self.entries[i].1),
            None => None,
        }
    }

    /// Takes out the value for `uri`.
    pub fn remove(&mut self, uri: &str)
        requires
            old(self).wf(),
        ensures
            final(self).wf(),
            final(self).entries@ == without(old(self).entries@, uri@),
            final(self).at(uri@) is None,
            forall|other: Seq<char>|
                other != uri@ ==> #[trigger] final(self).at(other) == old(self).at(other),
    {
        proof {
            lemma_without(self.entries@, uri@);
        }
        if let Some(i) = self.find(uri) {
            self.entries.remove(i);
        }
    }

    /// Sets the value for `uri`.
    pub fn insert(&mut self, uri: String, value: V)
        requires
            old(self).wf(),
        ensures
            final(self).wf(),
            final(self).entries@ == without(old(self).entries@, uri@).push((uri, value)),
            final(self).at(uri@) == Some(value),
            forall|other: Seq<char>|
                other != uri@ ==> #[trigger] final(self).at(other) == old(self).at(other),
    {
        self.remove(uri.as_str());
        let ghost before = self.entries@;
        proof {
            lemma_without(old(self).entries@, uri@);
        }
        self.entries.push((uri, value));
        proof {
            assert(self.entries@.drop_last() =~= before);
            assert forall|other: Seq<char>| other != uri@ implies #[trigger] self.at(other) == old(
                self,
            ).at(other) by {
                assert(lookup(before, other) == lookup(old(self).entries@, other));
            }
        }
    }
}

} // verus!
