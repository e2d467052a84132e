use vstd::prelude::*;
use crate::store::{
    Entry, FlatEntry, History, Store, entries_map, has_key, has_name, histories_map,
    lemma_entries_push, lemma_histories_push, lemma_no_name, store_insert, unique_keys,
    unique_names,
};

verus! {

/// The view of one interchange record: (history, key, value).
pub open spec fn rec_view(r: FlatEntry) -> (Seq<char>, Seq<char>, Seq<char>) {
    (r.history@, r.key@, r.value@)
}

pub open spec fn recs_view(rs: Seq<FlatEntry>) -> Seq<(Seq<char>, Seq<char>, Seq<char>)> {
    rs.map(|i: int, r: FlatEntry| rec_view(r))
}

/// Folding a sequence of records into the two-level mapping, in input
/// order; a later record with the same history and key wins.
pub open spec fn merge_records(
    m: Map<Seq<char>, Map<Seq<char>, Seq<char>>>,
    rs: Seq<(Seq<char>, Seq<char>, Seq<char>)>,
) -> Map<Seq<char>, Map<Seq<char>, Seq<char>>>
    decreases rs.len(),
{
    if rs.len() == 0 {
        m
    } else {
        merge_records(store_insert(m, rs[0].0, rs[0].1, rs[0].2), rs.drop_first())
    }
}

pub proof fn lemma_merge_push(
    m: Map<Seq<char>, Map<Seq<char>, Seq<char>>>,
    rs: Seq<(Seq<char>, Seq<char>, Seq<char>)>,
    x: (Seq<char>, Seq<char>, Seq<char>),
)
    ensures
        merge_records(m, rs.push(x)) == store_insert(merge_records(m, rs), x.0, x.1, x.2),
    decreases rs.len(),
{
    if rs.len() == 0 {
        assert(rs.push(x)[0] == x);
        assert(rs.push(x).drop_first() =~= Seq::<(Seq<char>, Seq<char>, Seq<char>)>::empty());
        assert(merge_records(m, rs.push(x)) == merge_records(
            store_insert(m, x.0, x.1, x.2),
            rs.push(x).drop_first(),
        ));
        assert(merge_records(store_insert(m, x.0, x.1, x.2), rs.push(x).drop_first())
            == store_insert(m, x.0, x.1, x.2));
        assert(merge_records(m, rs) == m);
    } else {
        assert(rs.push(x)[0] == rs[0]);
        assert(rs.push(x).drop_first() =~= rs.drop_first().push(x));
        lemma_merge_push(store_insert(m, rs[0].0, rs[0].1, rs[0].2), rs.drop_first(), x);
    }
}

pub proof fn lemma_merge_append(
    m: Map<Seq<char>, Map<Seq<char>, Seq<char>>>,
    a: Seq<(Seq<char>, Seq<char>, Seq<char>)>,
    b: Seq<(Seq<char>, Seq<char>, Seq<char>)>,
)
    ensures
        merge_records(m, a + b) == merge_records(merge_records(m, a), b),
    decreases a.len(),
{
    if a.len() == 0 {
        assert(a + b =~= b);
    } else {
        assert((a + b)[0] == a[0]);
        assert((a + b).drop_first() =~= a.drop_first() + b);
        lemma_merge_append(store_insert(m, a[0].0, a[0].1, a[0].2), a.drop_first(), b);
    }
}

impl Store {
    /// Merge the records into the store, processed in input order; the
    /// imported data wins on key collision.
    pub fn merge(&mut self, records: &Vec<FlatEntry>)
        requires
            old(self).wf(),
        ensures
            final(self).wf(),
            final(self)@ == merge_records(old(self)@, recs_view(records@)),
    {
        let n = records.len();
        let mut i: usize = 0;
        while i < n
            invariant
                n == records@.len(),
                i <= n,
                self.wf(),
                self@ == merge_records(old(self)@, recs_view(records@).take(i as int)),
            decreases n - i,
        {
            let r = &records[i];
            self.save_entry(r.history.as_str(), r.key.as_str(), r.value.as_str());
            proof {
                assert(recs_view(records@).take(i + 1) =~= recs_view(records@).take(
                    i as int,
                ).push(rec_view(records@[i as int])));
                lemma_merge_push(
                    old(self)@,
                    recs_view(records@).take(i as int),
                    rec_view(records@[i as int]),
                );
            }
            i = i + 1;
        }
        proof {
            assert(recs_view(records@).take(n as int) =~= recs_view(records@));
        }
    }
}

/// The merge result depends only on the stores' abstract mappings and on
/// the record order: two stores holding the same mapping, however their
/// internal arrangement differs, merge to the same mapping.
pub proof fn lemma_merge_deterministic(
    s1: Store,
    s2: Store,
    rs: Seq<(Seq<char>, Seq<char>, Seq<char>)>,
)
    requires
        s1@ == s2@,
    ensures
        merge_records(s1@, rs) == merge_records(s2@, rs),
{
}

/// An imported record overrides whatever the store already holds under
/// the same history and key.
pub proof fn lemma_merge_override(
    m: Map<Seq<char>, Map<Seq<char>, Seq<char>>>,
    h: Seq<char>,
    k: Seq<char>,
    vnew: Seq<char>,
)
    ensures
        merge_records(m, seq![(h, k, vnew)]).contains_key(h),
        merge_records(m, seq![(h, k, vnew)])[h].contains_key(k),
        merge_records(m, seq![(h, k, vnew)])[h][k] == vnew,
{
    let rs = seq![(h, k, vnew)];
    assert(rs.len() == 1 && rs[0] == (h, k, vnew));
    assert(rs.drop_first() =~= Seq::<(Seq<char>, Seq<char>, Seq<char>)>::empty());
    assert(merge_records(m, rs) == merge_records(
        store_insert(m, h, k, vnew),
        rs.drop_first(),
    ));
    assert(merge_records(store_insert(m, h, k, vnew), rs.drop_first()) == store_insert(
        m,
        h,
        k,
        vnew,
    ));
}

/// The records of one history, each entry as (name, key, value).
pub open spec fn recs_of(name: Seq<char>, es: Seq<Entry>) -> Seq<
    (Seq<char>, Seq<char>, Seq<char>),
> {
    es.map(|i: int, e: Entry| (name, e.key@, e.value@))
}

pub open spec fn history_recs(h: History) -> Seq<(Seq<char>, Seq<char>, Seq<char>)> {
    recs_of(h.name@, h.entries@)
}

/// All the store's records, grouped by history, in internal order.
pub open spec fn flatten_recs(hs: Seq<History>) -> Seq<(Seq<char>, Seq<char>, Seq<char>)>
    decreases hs.len(),
{
    if hs.len() == 0 {
        Seq::empty()
    } else {
        flatten_recs(hs.drop_last()) + history_recs(hs.last())
    }
}

impl Store {
    /// The flattened representation: one record per (history, key, value),
    /// grouped by history, in internal order.
    pub fn flatten(&self) -> (r: Vec<FlatEntry>)
        ensures
            recs_view(r@) == flatten_recs(self.histories@),
    {
        let n = self.histories.len();
        let mut r: Vec<FlatEntry> = Vec::new();
        let mut i: usize = 0;
        while i < n
            invariant
                n == self.histories@.len(),
                i <= n,
                recs_view(r@) == flatten_recs(self.histories@.take(i as int)),
            decreases n - i,
        {
            let h = &self.histories[i];
            let m = h.entries.len();
            let mut j: usize = 0;
            while j < m
                invariant
                    n == self.histories@.len(),
                    i < n,
                    h == self.histories@[i as int],
                    m == h.entries@.len(),
                    j <= m,
                    recs_view(r@) == flatten_recs(self.histories@.take(i as int)) + recs_of(
                        h.name@,
                        h.entries@.take(j as int),
                    ),
                decreases m - j,
            {
                let e = &h.entries[j];
                let ghost r0 = r@;
                let fe = FlatEntry {
                    history: h.name.clone(),
                    key: e.key.clone(),
                    value: e.value.clone(),
                };
                proof {
                    let ghost ej = h.entries@[j as int];
                    assert(rec_view(fe) == (h.name@, ej.key@, ej.value@));
                }
                r.push(fe);
                proof {
                    assert(r@ =~= r0.push(fe));
                    assert(recs_view(r0.push(fe)) =~= recs_view(r0).push(rec_view(fe)));
                    assert(h.entries@.take(j + 1) =~= h.entries@.take(j as int).push(
                        h.entries@[j as int],
                    ));
                    assert(recs_of(h.name@, h.entries@.take(j + 1)) =~= recs_of(
                        h.name@,
                        h.entries@.take(j as int),
                    ).push(rec_view(fe)));
                    assert(recs_view(r@) =~= flatten_recs(self.histories@.take(i as int))
                        + recs_of(h.name@, h.entries@.take(j + 1)));
                }
                j = j + 1;
            }
            proof {
                assert(h.entries@.take(m as int) =~= h.entries@);
                let t = self.histories@.take(i + 1);
                assert(t.drop_last() =~= self.histories@.take(i as int));
                assert(t.last() == self.histories@[i as int]);
                assert(flatten_recs(t) == flatten_recs(self.histories@.take(i as int))
                    + history_recs(self.histories@[i as int]));
            }
            i = i + 1;
        }
        proof {
            assert(self.histories@.take(n as int) =~= self.histories@);
        }
        r
    }
}

/// Inserting each entry in order, a later entry winning on equal keys.
pub open spec fn fold_entries(inner: Map<Seq<char>, Seq<char>>, es: Seq<Entry>) -> Map<
    Seq<char>,
    Seq<char>,
>
    decreases es.len(),
{
    if es.len() == 0 {
        inner
    } else {
        fold_entries(inner, es.drop_last()).insert(es.last().key@, es.last().value@)
    }
}

pub proof fn lemma_fold_entries_map(es: Seq<Entry>)
    requires
        unique_keys(es),
    ensures
        fold_entries(Map::empty(), es) == entries_map(es),
    decreases es.len(),
{
    if es.len() == 0 {
        assert forall|k: Seq<char>| !(#[trigger] entries_map(es).contains_key(k)) by {
            crate::store::lemma_no_key(es, k);
        }
        assert(fold_entries(Map::empty(), es) =~= entries_map(es));
    } else {
        let bu = es.drop_last();
        let e = es.last();
        assert(unique_keys(bu));
        lemma_fold_entries_map(bu);
        if has_key(bu, e.key@) {
            let i = choose|i: int| 0 <= i < bu.len() && (#[trigger] bu[i]).key@ == e.key@;
            assert(es[i].key@ == es[es.len() - 1].key@);
            assert(false);
        }
        lemma_entries_push(bu, e);
        assert(bu.push(e) =~= es);
    }
}

/// Merging the records of one history named `name`, not yet present in
/// `m`, adds exactly that history.
pub proof fn lemma_merge_recs_of(
    m: Map<Seq<char>, Map<Seq<char>, Seq<char>>>,
    name: Seq<char>,
    es: Seq<Entry>,
)
    requires
        !m.contains_key(name),
        es.len() > 0,
    ensures
        merge_records(m, recs_of(name, es)) == m.insert(name, fold_entries(Map::empty(), es)),
    decreases es.len(),
{
    let bu = es.drop_last();
    let e = es.last();
    assert(recs_of(name, es) =~= recs_of(name, bu).push((name, e.key@, e.value@)));
    lemma_merge_push(m, recs_of(name, bu), (name, e.key@, e.value@));
    if es.len() == 1 {
        assert(recs_of(name, bu) =~= Seq::<(Seq<char>, Seq<char>, Seq<char>)>::empty());
        assert(merge_records(m, recs_of(name, bu)) == m);
        assert(fold_entries(Map::empty(), bu) =~= Map::<Seq<char>, Seq<char>>::empty());
        assert(merge_records(m, recs_of(name, es)) =~~= m.insert(
            name,
            fold_entries(Map::empty(), es),
        ));
    } else {
        lemma_merge_recs_of(m, name, bu);
        assert(merge_records(m, recs_of(name, es)) =~~= m.insert(
            name,
            fold_entries(Map::empty(), es),
        ));
    }
}

/// Merging a store's flattened records into an empty store rebuilds the
/// store's two-level mapping, provided every history holds at least one
/// entry (an empty history contributes no flattened record, so it alone
/// cannot be rebuilt from the flattened form).
pub proof fn lemma_merge_flatten(hs: Seq<History>)
    requires
        unique_names(hs),
        forall|i: int| 0 <= i < hs.len() ==> (#[trigger] hs[i]).wf(),
        forall|i: int| 0 <= i < hs.len() ==> (#[trigger] hs[i]).entries@.len() > 0,
    ensures
        merge_records(Map::empty(), flatten_recs(hs)) == histories_map(hs),
    decreases hs.len(),
{
    if hs.len() == 0 {
        assert forall|n: Seq<char>| !(#[trigger] histories_map(hs).contains_key(n)) by {
            lemma_no_name(hs, n);
        }
        assert(merge_records(Map::empty(), flatten_recs(hs)) =~= histories_map(hs));
    } else {
        let bu = hs.drop_last();
        let h = hs.last();
        assert(unique_names(bu));
        assert(forall|i: int| 0 <= i < bu.len() ==> (#[trigger] bu[i]) == hs[i]);
        lemma_merge_flatten(bu);
        lemma_merge_append(Map::empty(), flatten_recs(bu), history_recs(h));
        if has_name(bu, h.name@) {
            let i = choose|i: int| 0 <= i < bu.len() && (#[trigger] bu[i]).name@ == h.name@;
            assert(hs[i].name@ == hs[hs.len() - 1].name@);
            assert(false);
        }
        assert forall|i: int| 0 <= i < bu.len() implies (#[trigger] bu[i]).name@ != h.name@ by {}
        lemma_no_name(bu, h.name@);
        lemma_merge_recs_of(histories_map(bu), h.name@, h.entries@);
        lemma_fold_entries_map(h.entries@);
        lemma_histories_push(bu, h);
        assert(bu.push(h) =~= hs);
    }
}

} // verus!
