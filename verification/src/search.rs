use vstd::prelude::*;
use crate::errors::StoreError;
use crate::store::{Entry, History, Store};
use crate::strutil::{contains_substr, is_substring};

verus! {

/// An entry matches when the term occurs in the history name, the key,
/// or the value (case-sensitive substring containment).
pub open spec fn entry_matches(name: Seq<char>, e: Entry, term: Seq<char>) -> bool {
    is_substring(name, term) || is_substring(e.key@, term) || is_substring(e.value@, term)
}

/// The matching entries of one history, in internal order.
pub open spec fn filter_matches(name: Seq<char>, es: Seq<Entry>, term: Seq<char>) -> Seq<Entry>
    decreases es.len(),
{
    if es.len() == 0 {
        Seq::empty()
    } else {
        let pre = filter_matches(name, es.drop_last(), term);
        if entry_matches(name, es.last(), term) {
            pre.push(es.last())
        } else {
            pre
        }
    }
}

/// The search result: for each history, in internal order, its name and
/// its matching entries; histories without a match are left out.
pub open spec fn search_groups(hs: Seq<History>, term: Seq<char>) -> Seq<
    (Seq<char>, Seq<Entry>),
>
    decreases hs.len(),
{
    if hs.len() == 0 {
        Seq::empty()
    } else {
        let pre = search_groups(hs.drop_last(), term);
        let f = filter_matches(hs.last().name@, hs.last().entries@, term);
        if f.len() > 0 {
            pre.push((hs.last().name@, f))
        } else {
            pre
        }
    }
}

impl Store {
    /// Substring search across history names, keys and values.  Only the
    /// matching entries themselves are returned, grouped by their owning
    /// history.  An empty term signals `InvalidInput`.
    pub fn search(&self, term: &str) -> (r: Result<Vec<History>, StoreError>)
        ensures
            match r {
                Ok(groups) => {
                    let sg = search_groups(self.histories@, term@);
                    &&& term@.len() > 0
                    &&& groups@.len() == sg.len()
                    &&& forall|t: int|
                        0 <= t < sg.len() ==> (#[trigger] groups@[t]).name@ == sg[t].0
                            && groups@[t].entries@ == sg[t].1
                },
                Err(e) => e == StoreError::InvalidInput && term@.len() == 0,
            },
    {
        if term.is_empty() {
            return Err(StoreError::InvalidInput);
        }
        let n = self.histories.len();
        let mut groups: Vec<History> = Vec::new();
        let mut i: usize = 0;
        while i < n
            invariant
                n == self.histories@.len(),
                i <= n,
                groups@.len() == search_groups(self.histories@.take(i as int), term@).len(),
                forall|t: int|
                    0 <= t < groups@.len() ==> (#[trigger] groups@[t]).name@ == search_groups(
                        self.histories@.take(i as int),
                        term@,
                    )[t].0 && groups@[t].entries@ == search_groups(
                        self.histories@.take(i as int),
                        term@,
                    )[t].1,
            decreases n - i,
        {
            let h = &self.histories[i];
            let name_hit = contains_substr(h.name.as_str(), term);
            let m = h.entries.len();
            let mut ms: Vec<Entry> = Vec::new();
            let mut j: usize = 0;
            while j < m
                invariant
                    n == self.histories@.len(),
                    i < n,
                    h == self.histories@[i as int],
                    name_hit == is_substring(h.name@, term@),
                    m == h.entries@.len(),
                    j <= m,
                    ms@ == filter_matches(h.name@, h.entries@.take(j as int), term@),
                decreases m - j,
            {
                let e = &h.entries[j];
                let hit = name_hit || contains_substr(e.key.as_str(), term)
                    || contains_substr(e.value.as_str(), term);
                proof {
                    assert(h.entries@.take(j + 1).drop_last() =~= h.entries@.take(j as int));
                    assert(h.entries@.take(j + 1).last() == h.entries@[j as int]);
                }
                if hit {
                    let ghost ms0 = ms@;
                    ms.push(Entry { key: e.key.clone(), value: e.value.clone() });
                    proof {
                        assert(ms@ =~= ms0.push(h.entries@[j as int]));
                    }
                }
                j = j + 1;
            }
            proof {
                assert(h.entries@.take(m as int) =~= h.entries@);
                assert(self.histories@.take(i + 1).drop_last() =~= self.histories@.take(
                    i as int,
                ));
                assert(self.histories@.take(i + 1).last() == self.histories@[i as int]);
            }
            if ms.len() > 0 {
                let ghost g0 = groups@;
                groups.push(History { name: h.name.clone(), entries: ms });
                proof {
                    assert(groups@.len() == g0.len() + 1);
                    assert(groups@[g0.len() as int].name@ == h.name@);
                }
            }
            i = i + 1;
        }
        proof {
            assert(self.histories@.take(n as int) =~= self.histories@);
        }
        Ok(groups)
    }
}

pub proof fn lemma_filter_has_match(name: Seq<char>, es: Seq<Entry>, term: Seq<char>)
    ensures
        filter_matches(name, es, term).len() > 0 <==> exists|j: int|
            0 <= j < es.len() && entry_matches(name, #[trigger] es[j], term),
    decreases es.len(),
{
    if es.len() > 0 {
        let bu = es.drop_last();
        lemma_filter_has_match(name, bu, term);
        assert(forall|j: int| 0 <= j < bu.len() ==> #[trigger] bu[j] == es[j]);
        assert(es.last() == es[es.len() - 1]);
        if filter_matches(name, es, term).len() > 0 {
            if entry_matches(name, es.last(), term) {
                assert(entry_matches(name, es[es.len() - 1], term));
            } else {
                assert(filter_matches(name, bu, term).len() > 0);
                let j = choose|j: int|
                    0 <= j < bu.len() && entry_matches(name, #[trigger] bu[j], term);
                assert(entry_matches(name, es[j], term));
            }
        }
        if exists|j: int| 0 <= j < es.len() && entry_matches(name, #[trigger] es[j], term) {
            let j = choose|j: int|
                0 <= j < es.len() && entry_matches(name, #[trigger] es[j], term);
            if j == es.len() - 1 {
                assert(entry_matches(name, es.last(), term));
            } else {
                assert(entry_matches(name, bu[j], term));
                assert(filter_matches(name, bu, term).len() > 0);
            }
            assert(filter_matches(name, es, term).len() > 0);
        }
    }
}

/// The search result is empty exactly when no entry anywhere matches: a
/// store with no occurrence of the term reports an empty result, which is
/// distinct from the store itself being empty.
pub proof fn lemma_search_empty(hs: Seq<History>, term: Seq<char>)
    ensures
        search_groups(hs, term).len() > 0 <==> exists|i: int, j: int|
            0 <= i < hs.len() && 0 <= j < (#[trigger] hs[i]).entries@.len() && entry_matches(
                hs[i].name@,
                #[trigger] hs[i].entries@[j],
                term,
            ),
    decreases hs.len(),
{
    if hs.len() > 0 {
        let bu = hs.drop_last();
        let h = hs.last();
        lemma_search_empty(bu, term);
        lemma_filter_has_match(h.name@, h.entries@, term);
        assert(forall|i: int| 0 <= i < bu.len() ==> #[trigger] bu[i] == hs[i]);
        assert(h == hs[hs.len() - 1]);
        if search_groups(hs, term).len() > 0 {
            if filter_matches(h.name@, h.entries@, term).len() > 0 {
                let j = choose|j: int|
                    0 <= j < h.entries@.len() && entry_matches(
                        h.name@,
                        #[trigger] h.entries@[j],
                        term,
                    );
                let ghost i0 = hs.len() - 1;
                assert(0 <= i0 < hs.len() && 0 <= j < hs[i0].entries@.len() && entry_matches(
                    hs[i0].name@,
                    hs[i0].entries@[j],
                    term,
                ));
            } else {
                assert(search_groups(bu, term).len() > 0);
                let (i, j) = choose|i: int, j: int|
                    0 <= i < bu.len() && 0 <= j < (#[trigger] bu[i]).entries@.len()
                        && entry_matches(bu[i].name@, #[trigger] bu[i].entries@[j], term);
                assert(0 <= i < hs.len() && 0 <= j < hs[i].entries@.len() && entry_matches(
                    hs[i].name@,
                    hs[i].entries@[j],
                    term,
                ));
            }
        }
        if exists|i: int, j: int|
            0 <= i < hs.len() && 0 <= j < (#[trigger] hs[i]).entries@.len() && entry_matches(
                hs[i].name@,
                #[trigger] hs[i].entries@[j],
                term,
            ) {
            let (i, j) = choose|i: int, j: int|
                0 <= i < hs.len() && 0 <= j < (#[trigger] hs[i]).entries@.len() && entry_matches(
                    hs[i].name@,
                    #[trigger] hs[i].entries@[j],
                    term,
                );
            if i == hs.len() - 1 {
                assert(entry_matches(h.name@, h.entries@[j], term));
                assert(filter_matches(h.name@, h.entries@, term).len() > 0);
            } else {
                assert(entry_matches(bu[i].name@, bu[i].entries@[j], term));
                assert(search_groups(bu, term).len() > 0);
            }
            assert(search_groups(hs, term).len() > 0);
        }
    }
}

} // verus!
