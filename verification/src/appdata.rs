//! Small client-side state holders: values that arrive over the network at
//! some point, and caches of them keyed by name.

#![allow(unused_imports)]
use vstd::prelude::*;

use crate::builder::assoc_key_index;
use crate::builder::lemma_assoc_key_index_at;
use crate::builder::lemma_assoc_key_index_none;

verus! {

/// A value that is not loaded yet, on its way, or loaded.
#[derive(Clone, Debug, PartialEq)]
pub enum AsyncData<T> {
    NotLoaded,
    Loading,
    Loaded(T),
}

impl<T> AsyncData<T> {
    /// Wrap a value that is already at hand.
    pub fn new(data: T) -> (r: AsyncData<T>)
        ensures
            r == AsyncData::Loaded(data),
    {
        AsyncData::Loaded(data)
    }
}

/// A handle around a loaded value.
#[derive(Clone, Debug, PartialEq)]
pub struct BiscviCache<T> {
    pub data: T,
}

impl<T> BiscviCache<T> {
    /// Wrap a value.
    pub fn new(d: T) -> (r: BiscviCache<T>)
        ensures
            r.data == d,
    {
        BiscviCache { data: d }
    }
}

/// Dimensionality-reduction results by name, each possibly still loading.
/// Keys are unique; lookups read the first entry for a name.
#[derive(Clone, Debug, PartialEq)]
pub struct ReductionData<T> {
    pub reductions: Vec<(String, AsyncData<T>)>,
}

/// The entries of a reduction cache under their name views.
pub open spec fn reductions_view<T>(v: Seq<(String, AsyncData<T>)>) -> Seq<
    (Seq<char>, AsyncData<T>),
> {
    v.map_values(|p: (String, AsyncData<T>)| (p.0@, p.1))
}

impl<T> ReductionData<T> {
    /// An empty cache.
    pub fn new() -> (r: ReductionData<T>)
        ensures
            r.reductions@ == Seq::<(String, AsyncData<T>)>::empty(),
    {
        let r = ReductionData { reductions: Vec::new() };
        proof {
            assert(r.reductions@ =~= Seq::<(String, AsyncData<T>)>::empty());
        }
        r
    }

    /// The entry stored under a name, or nothing when the name has none.
    pub fn get(&self, k: &String) -> (r: Option<&AsyncData<T>>)
        ensures
            match r {
                Some(v) => {
                    let ki = assoc_key_index(reductions_view(self.reductions@), k@);
                    ki >= 0 && *v == reductions_view(self.reductions@)[ki].1
                },
                None => assoc_key_index(reductions_view(self.reductions@), k@) == -1,
            },
    {
        let n = self.reductions.len();
        let mut i: usize = 0;
        while i < n
            invariant
                n == self.reductions@.len(),
                0 <= i <= n,
                forall|j: int| 0 <= j < i ==> reductions_view(self.reductions@)[j].0 != k@,
            decreases n - i,
        {
            let entry = &self.reductions[i];
            if entry.0 == *k {
                proof {
                    assert(reductions_view(self.reductions@)[i as int].0 == k@);
                    lemma_assoc_key_index_at(reductions_view(self.reductions@), k@, i as int);
                }
                return Some(&entry.1);
            }
            i += 1;
        }
        proof {
            lemma_assoc_key_index_none(reductions_view(self.reductions@), k@);
        }
        None
    }

    /// The cache with `value` stored under `k`: the first entry for `k` is
    /// replaced, or one is appended.
    pub fn insert(self, k: &String, value: AsyncData<T>) -> (r: ReductionData<T>)
        ensures
            reductions_view(r.reductions@) == ({
                let old_view = reductions_view(self.reductions@);
                let ki = assoc_key_index(old_view, k@);
                if ki < 0 {
                    old_view.push((k@, value))
                } else {
                    old_view.update(ki, (k@, value))
                }
            }),
    {
        let ghost old_view = reductions_view(self.reductions@);
        let mut reductions = self.reductions;
        let n = reductions.len();
        let mut i: usize = 0;
        while i < n
            invariant
                n == reductions@.len(),
                reductions@ == self.reductions@,
                old_view == reductions_view(self.reductions@),
                0 <= i <= n,
                forall|j: int| 0 <= j < i ==> old_view[j].0 != k@,
            decreases n - i,
        {
            if reductions[i].0 == *k {
                proof {
                    assert(old_view[i as int].0 == k@);
                    lemma_assoc_key_index_at(old_view, k@, i as int);
                }
                let key = k.clone();
                reductions.set(i, (key, value));
                proof {
                    assert(reductions_view(reductions@) =~= old_view.update(
                        i as int,
                        (k@, value),
                    ));
                }
                return ReductionData { reductions };
            }
            i += 1;
        }
        proof {
            lemma_assoc_key_index_none(old_view, k@);
        }
        let key = k.clone();
        reductions.push((key, value));
        proof {
            assert(reductions_view(reductions@) =~= old_view.push((k@, value)));
        }
        ReductionData { reductions }
    }
}

/// One per-cell data source: a metadata column, or feature counts from a
/// count table.
#[derive(Clone, Debug, PartialEq, Eq, Hash)]
pub enum PerCellDataSource {
    Metadata(String),
    Counts(String, String),
}

} // verus!
