use vstd::prelude::*;
use crate::errors::StoreError;
use crate::strutil::str_eq;

verus! {

/// One saved entry: a key naming a captured text value.
pub struct Entry {
    pub key: String,
    pub value: String,
}

/// A named mapping from key to value.  Keys are unique within a history.
pub struct History {
    pub name: String,
    pub entries: Vec<Entry>,
}

/// The full collection of histories.  History names are unique.
pub struct Store {
    pub histories: Vec<History>,
}

/// A (history, key, value) triple, the unit of import/export interchange.
pub struct FlatEntry {
    pub history: String,
    pub key: String,
    pub value: String,
}

pub open spec fn unique_keys(s: Seq<Entry>) -> bool {
    forall|i: int, j: int|
        0 <= i < j < s.len() ==> (#[trigger] s[i]).key@ != (#[trigger] s[j]).key@
}

pub open spec fn has_key(s: Seq<Entry>, k: Seq<char>) -> bool {
    exists|i: int| 0 <= i < s.len() && (#[trigger] s[i]).key@ == k
}

pub open spec fn key_idx(s: Seq<Entry>, k: Seq<char>) -> int {
    choose|i: int| 0 <= i < s.len() && (#[trigger] s[i]).key@ == k
}

/// The mapping that a sequence of entries denotes.
pub open spec fn entries_map(s: Seq<Entry>) -> Map<Seq<char>, Seq<char>> {
    Map::new(|k: Seq<char>| has_key(s, k), |k: Seq<char>| s[key_idx(s, k)].value@)
}

pub open spec fn unique_names(hs: Seq<History>) -> bool {
    forall|i: int, j: int|
        0 <= i < j < hs.len() ==> (#[trigger] hs[i]).name@ != (#[trigger] hs[j]).name@
}

pub open spec fn has_name(hs: Seq<History>, n: Seq<char>) -> bool {
    exists|i: int| 0 <= i < hs.len() && (#[trigger] hs[i]).name@ == n
}

pub open spec fn name_idx(hs: Seq<History>, n: Seq<char>) -> int {
    choose|i: int| 0 <= i < hs.len() && (#[trigger] hs[i]).name@ == n
}

/// The two-level mapping that a sequence of histories denotes.
pub open spec fn histories_map(hs: Seq<History>) -> Map<Seq<char>, Map<Seq<char>, Seq<char>>> {
    Map::new(
        |n: Seq<char>| has_name(hs, n),
        |n: Seq<char>| entries_map(hs[name_idx(hs, n)].entries@),
    )
}

impl History {
    pub open spec fn wf(&self) -> bool {
        unique_keys(self.entries@)
    }

    pub open spec fn as_map(&self) -> Map<Seq<char>, Seq<char>> {
        entries_map(self.entries@)
    }
}

impl Store {
    pub open spec fn wf(&self) -> bool {
        &&& unique_names(self.histories@)
        &&& forall|i: int|
            0 <= i < self.histories@.len() ==> (#[trigger] self.histories@[i]).wf()
    }
}

impl View for Store {
    type V = Map<Seq<char>, Map<Seq<char>, Seq<char>>>;

    open spec fn view(&self) -> Self::V {
        histories_map(self.histories@)
    }
}

/// Inserting (h, k, v) into the two-level mapping, creating the inner
/// mapping when the history is absent and overwriting the key otherwise.
pub open spec fn store_insert(
    m: Map<Seq<char>, Map<Seq<char>, Seq<char>>>,
    h: Seq<char>,
    k: Seq<char>,
    v: Seq<char>,
) -> Map<Seq<char>, Map<Seq<char>, Seq<char>>> {
    let inner = if m.contains_key(h) {
        m[h]
    } else {
        Map::empty()
    };
    m.insert(h, inner.insert(k, v))
}

/// The value stored under (h, k), if any.
pub open spec fn store_get(
    m: Map<Seq<char>, Map<Seq<char>, Seq<char>>>,
    h: Seq<char>,
    k: Seq<char>,
) -> Option<Seq<char>> {
    if m.contains_key(h) && m[h].contains_key(k) {
        Some(m[h][k])
    } else {
        None
    }
}

/// Removing key k from history h; the history itself stays, possibly empty.
pub open spec fn store_delete(
    m: Map<Seq<char>, Map<Seq<char>, Seq<char>>>,
    h: Seq<char>,
    k: Seq<char>,
) -> Map<Seq<char>, Map<Seq<char>, Seq<char>>> {
    if m.contains_key(h) && m[h].contains_key(k) {
        m.insert(h, m[h].remove(k))
    } else {
        m
    }
}

pub proof fn lemma_key_at(s: Seq<Entry>, i: int)
    requires
        unique_keys(s),
        0 <= i < s.len(),
    ensures
        has_key(s, s[i].key@),
        entries_map(s).contains_key(s[i].key@),
        entries_map(s)[s[i].key@] == s[i].value@,
        key_idx(s, s[i].key@) == i,
{
    assert(has_key(s, s[i].key@));
    let j = key_idx(s, s[i].key@);
    assert(0 <= j < s.len() && s[j].key@ == s[i].key@);
    if i < j {
        assert((s[i]).key@ != (s[j]).key@);
    } else if j < i {
        assert((s[j]).key@ != (s[i]).key@);
    }
}

pub proof fn lemma_no_key(s: Seq<Entry>, k: Seq<char>)
    requires
        forall|i: int| 0 <= i < s.len() ==> (#[trigger] s[i]).key@ != k,
    ensures
        !entries_map(s).contains_key(k),
{
    if has_key(s, k) {
        let i = choose|i: int| 0 <= i < s.len() && (#[trigger] s[i]).key@ == k;
        assert(false);
    }
}

pub proof fn lemma_name_at(hs: Seq<History>, i: int)
    requires
        unique_names(hs),
        0 <= i < hs.len(),
    ensures
        has_name(hs, hs[i].name@),
        histories_map(hs).contains_key(hs[i].name@),
        histories_map(hs)[hs[i].name@] == entries_map(hs[i].entries@),
        name_idx(hs, hs[i].name@) == i,
{
    assert(has_name(hs, hs[i].name@));
    let j = name_idx(hs, hs[i].name@);
    assert(0 <= j < hs.len() && hs[j].name@ == hs[i].name@);
    if i < j {
        assert((hs[i]).name@ != (hs[j]).name@);
    } else if j < i {
        assert((hs[j]).name@ != (hs[i]).name@);
    }
}

pub proof fn lemma_no_name(hs: Seq<History>, n: Seq<char>)
    requires
        forall|i: int| 0 <= i < hs.len() ==> (#[trigger] hs[i]).name@ != n,
    ensures
        !histories_map(hs).contains_key(n),
{
    if has_name(hs, n) {
        let i = choose|i: int| 0 <= i < hs.len() && (#[trigger] hs[i]).name@ == n;
        assert(false);
    }
}

pub proof fn lemma_entries_update(s: Seq<Entry>, j: int, e: Entry)
    requires
        unique_keys(s),
        0 <= j < s.len(),
        e.key@ == s[j].key@,
    ensures
        unique_keys(s.update(j, e)),
        entries_map(s.update(j, e)) == entries_map(s).insert(e.key@, e.value@),
{
    let t = s.update(j, e);
    assert(forall|i: int| 0 <= i < t.len() ==> (#[trigger] t[i]).key@ == s[i].key@);
    assert forall|k: Seq<char>| #[trigger] entries_map(t).contains_key(k) implies entries_map(
        s,
    ).insert(e.key@, e.value@).contains_key(k) && entries_map(t)[k] == entries_map(s).insert(
        e.key@,
        e.value@,
    )[k] by {
        let i = key_idx(t, k);
        assert(0 <= i < t.len() && t[i].key@ == k);
        lemma_key_at(t, i);
        lemma_key_at(s, i);
        if i == j {
            assert(entries_map(t)[k] == e.value@);
        }
    }
    assert forall|k: Seq<char>| #[trigger] entries_map(s).insert(e.key@, e.value@).contains_key(
        k,
    ) implies entries_map(t).contains_key(k) by {
        if k == e.key@ {
            lemma_key_at(t, j);
        } else {
            let i = key_idx(s, k);
            assert(0 <= i < s.len() && s[i].key@ == k);
            lemma_key_at(t, i);
        }
    }
    assert(entries_map(t) =~= entries_map(s).insert(e.key@, e.value@));
}

pub proof fn lemma_entries_push(s: Seq<Entry>, e: Entry)
    requires
        unique_keys(s),
        !has_key(s, e.key@),
    ensures
        unique_keys(s.push(e)),
        entries_map(s.push(e)) == entries_map(s).insert(e.key@, e.value@),
{
    let t = s.push(e);
    assert(forall|i: int| 0 <= i < s.len() ==> (#[trigger] t[i]).key@ == s[i].key@);
    assert(t[s.len() as int] == e);
    assert forall|k: Seq<char>| #[trigger] entries_map(t).contains_key(k) implies entries_map(
        s,
    ).insert(e.key@, e.value@).contains_key(k) && entries_map(t)[k] == entries_map(s).insert(
        e.key@,
        e.value@,
    )[k] by {
        let i = key_idx(t, k);
        assert(0 <= i < t.len() && t[i].key@ == k);
        lemma_key_at(t, i);
        if i < s.len() {
            lemma_key_at(s, i);
        } else {
            assert(k == e.key@);
        }
    }
    assert forall|k: Seq<char>| #[trigger] entries_map(s).insert(e.key@, e.value@).contains_key(
        k,
    ) implies entries_map(t).contains_key(k) by {
        if k == e.key@ {
            lemma_key_at(t, s.len() as int);
        } else {
            let i = key_idx(s, k);
            assert(0 <= i < s.len() && s[i].key@ == k);
            lemma_key_at(t, i);
        }
    }
    assert(entries_map(t) =~= entries_map(s).insert(e.key@, e.value@));
}

pub proof fn lemma_entries_remove(s: Seq<Entry>, j: int)
    requires
        unique_keys(s),
        0 <= j < s.len(),
    ensures
        unique_keys(s.remove(j)),
        entries_map(s.remove(j)) == entries_map(s).remove(s[j].key@),
{
    let t = s.remove(j);
    assert(forall|i: int| 0 <= i < j ==> (#[trigger] t[i]) == s[i]);
    assert(forall|i: int| j <= i < t.len() ==> (#[trigger] t[i]) == s[i + 1]);
    assert(unique_keys(t)) by {
        assert forall|a: int, b: int| 0 <= a < b < t.len() implies (#[trigger] t[a]).key@
            != (#[trigger] t[b]).key@ by {
            let a0 = if a < j { a } else { a + 1 };
            let b0 = if b < j { b } else { b + 1 };
            assert(t[a] == s[a0] && t[b] == s[b0]);
            assert(s[a0].key@ != s[b0].key@);
        }
    }
    assert forall|k: Seq<char>| #[trigger] entries_map(t).contains_key(k) implies entries_map(
        s,
    ).remove(s[j].key@).contains_key(k) && entries_map(t)[k] == entries_map(s).remove(
        s[j].key@,
    )[k] by {
        let i = key_idx(t, k);
        assert(0 <= i < t.len() && t[i].key@ == k);
        lemma_key_at(t, i);
        let i0 = if i < j { i } else { i + 1 };
        assert(t[i] == s[i0]);
        lemma_key_at(s, i0);
        assert(k != s[j].key@);
    }
    assert forall|k: Seq<char>| #[trigger] entries_map(s).remove(s[j].key@).contains_key(
        k,
    ) implies entries_map(t).contains_key(k) by {
        let i = key_idx(s, k);
        assert(0 <= i < s.len() && s[i].key@ == k);
        assert(i != j);
        let i1 = if i < j { i } else { i - 1 };
        assert(t[i1] == s[i]);
        lemma_key_at(t, i1);
    }
    assert(entries_map(t) =~= entries_map(s).remove(s[j].key@));
}

pub proof fn lemma_histories_update(hs: Seq<History>, i: int, h: History)
    requires
        unique_names(hs),
        0 <= i < hs.len(),
        h.name@ == hs[i].name@,
    ensures
        unique_names(hs.update(i, h)),
        histories_map(hs.update(i, h)) == histories_map(hs).insert(
            h.name@,
            entries_map(h.entries@),
        ),
{
    let t = hs.update(i, h);
    assert(forall|a: int| 0 <= a < t.len() ==> (#[trigger] t[a]).name@ == hs[a].name@);
    assert forall|n: Seq<char>| #[trigger] histories_map(t).contains_key(n) implies histories_map(
        hs,
    ).insert(h.name@, entries_map(h.entries@)).contains_key(n) && histories_map(t)[n]
        == histories_map(hs).insert(h.name@, entries_map(h.entries@))[n] by {
        let a = name_idx(t, n);
        assert(0 <= a < t.len() && t[a].name@ == n);
        lemma_name_at(t, a);
        lemma_name_at(hs, a);
        if a == i {
            assert(histories_map(t)[n] == entries_map(h.entries@));
        }
    }
    assert forall|n: Seq<char>| #[trigger] histories_map(hs).insert(
        h.name@,
        entries_map(h.entries@),
    ).contains_key(n) implies histories_map(t).contains_key(n) by {
        if n == h.name@ {
            lemma_name_at(t, i);
        } else {
            let a = name_idx(hs, n);
            assert(0 <= a < hs.len() && hs[a].name@ == n);
            lemma_name_at(t, a);
        }
    }
    assert(histories_map(t) =~= histories_map(hs).insert(h.name@, entries_map(h.entries@)));
}

pub proof fn lemma_histories_push(hs: Seq<History>, h: History)
    requires
        unique_names(hs),
        !has_name(hs, h.name@),
    ensures
        unique_names(hs.push(h)),
        histories_map(hs.push(h)) == histories_map(hs).insert(h.name@, entries_map(h.entries@)),
{
    let t = hs.push(h);
    assert(forall|a: int| 0 <= a < hs.len() ==> (#[trigger] t[a]).name@ == hs[a].name@);
    assert(t[hs.len() as int] == h);
    assert forall|n: Seq<char>| #[trigger] histories_map(t).contains_key(n) implies histories_map(
        hs,
    ).insert(h.name@, entries_map(h.entries@)).contains_key(n) && histories_map(t)[n]
        == histories_map(hs).insert(h.name@, entries_map(h.entries@))[n] by {
        let a = name_idx(t, n);
        assert(0 <= a < t.len() && t[a].name@ == n);
        lemma_name_at(t, a);
        if a < hs.len() {
            lemma_name_at(hs, a);
        } else {
            assert(n == h.name@);
        }
    }
    assert forall|n: Seq<char>| #[trigger] histories_map(hs).insert(
        h.name@,
        entries_map(h.entries@),
    ).contains_key(n) implies histories_map(t).contains_key(n) by {
        if n == h.name@ {
            lemma_name_at(t, hs.len() as int);
        } else {
            let a = name_idx(hs, n);
            assert(0 <= a < hs.len() && hs[a].name@ == n);
            lemma_name_at(t, a);
        }
    }
    assert(histories_map(t) =~= histories_map(hs).insert(h.name@, entries_map(h.entries@)));
}

/// Index of the entry holding `key`, if any.
pub fn find_entry_idx(entries: &Vec<Entry>, key: &str) -> (r: Option<usize>)
    ensures
        match r {
            Some(i) => 0 <= i < entries@.len() && entries@[i as int].key@ == key@,
            None => forall|i: int|
                0 <= i < entries@.len() ==> (#[trigger] entries@[i]).key@ != key@,
        },
{
    let n = entries.len();
    let mut i: usize = 0;
    while i < n
        invariant
            n == entries@.len(),
            i <= n,
            forall|j: int| 0 <= j < i ==> (#[trigger] entries@[j]).key@ != key@,
        decreases n - i,
    {
        if str_eq(entries[i].key.as_str(), key) {
            return Some(i);
        }
        i = i + 1;
    }
    None
}

/// Index of the history named `name`, if any.
pub fn find_history_idx(hs: &Vec<History>, name: &str) -> (r: Option<usize>)
    ensures
        match r {
            Some(i) => 0 <= i < hs@.len() && hs@[i as int].name@ == name@,
            None => forall|i: int| 0 <= i < hs@.len() ==> (#[trigger] hs@[i]).name@ != name@,
        },
{
    let n = hs.len();
    let mut i: usize = 0;
    while i < n
        invariant
            n == hs@.len(),
            i <= n,
            forall|j: int| 0 <= j < i ==> (#[trigger] hs@[j]).name@ != name@,
        decreases n - i,
    {
        if str_eq(hs[i].name.as_str(), name) {
            return Some(i);
        }
        i = i + 1;
    }
    None
}

impl History {
    /// Insert or overwrite `key` with `value`.
    pub fn set_entry(&mut self, key: &str, value: &str)
        requires
            old(self).wf(),
        ensures
            final(self).wf(),
            final(self).name == old(self).name,
            final(self).as_map() == old(self).as_map().insert(key@, value@),
    {
        let e = Entry { key: key.to_owned(), value: value.to_owned() };
        match find_entry_idx(&self.entries, key) {
            Some(j) => {
                let ghost s = self.entries@;
                let _replaced = self.entries.remove(j);
                self.entries.insert(j, e);
                proof {
                    assert(self.entries@ =~= s.update(j as int, e));
                    lemma_entries_update(s, j as int, e);
                }
            },
            None => {
                let ghost s = self.entries@;
                self.entries.push(e);
                proof {
                    lemma_no_key(s, key@);
                    if has_key(s, e.key@) {
                        let i = choose|i: int|
                            0 <= i < s.len() && (#[trigger] s[i]).key@ == e.key@;
                        assert(false);
                    }
                    lemma_entries_push(s, e);
                }
            },
        }
    }
}

impl Store {
    /// A store with no histories at all.
    pub fn empty() -> (s: Store)
        ensures
            s.wf(),
            s@ == Map::<Seq<char>, Map<Seq<char>, Seq<char>>>::empty(),
    {
        let s = Store { histories: Vec::new() };
        proof {
            assert forall|n: Seq<char>| !(#[trigger] s@.contains_key(n)) by {
                lemma_no_name(s.histories@, n);
            }
            assert(s@ =~= Map::<Seq<char>, Map<Seq<char>, Seq<char>>>::empty());
        }
        s
    }

    /// Insert or overwrite `value` under `key` in the history named
    /// `history_name`, creating that history when it is absent.
    pub fn save_entry(&mut self, history_name: &str, key: &str, value: &str)
        requires
            old(self).wf(),
        ensures
            final(self).wf(),
            final(self)@ == store_insert(old(self)@, history_name@, key@, value@),
    {
        match find_history_idx(&self.histories, history_name) {
            Some(i) => {
                let ghost hs = self.histories@;
                let mut h = self.histories.remove(i);
                proof {
                    lemma_name_at(hs, i as int);
                }
                h.set_entry(key, value);
                self.histories.insert(i, h);
                proof {
                    assert(self.histories@ =~= hs.update(i as int, h));
                    lemma_histories_update(hs, i as int, h);
                }
            },
            None => {
                let ghost hs = self.histories@;
                let mut h = History { name: history_name.to_owned(), entries: Vec::new() };
                h.set_entry(key, value);
                self.histories.push(h);
                proof {
                    if has_name(hs, h.name@) {
                        let a = choose|a: int|
                            0 <= a < hs.len() && (#[trigger] hs[a]).name@ == h.name@;
                        assert(false);
                    }
                    lemma_no_name(hs, history_name@);
                    assert forall|k: Seq<char>| !(#[trigger] entries_map(
                        Seq::<Entry>::empty(),
                    ).contains_key(k)) by {
                        lemma_no_key(Seq::<Entry>::empty(), k);
                    }
                    assert(entries_map(Seq::<Entry>::empty()) =~= Map::<Seq<char>, Seq<char>>::empty());
                    lemma_histories_push(hs, h);
                }
            },
        }
    }

    /// Look up the value under (history_name, key); `NotFound` when either
    /// the history or the key is absent.
    pub fn get_entry(&self, history_name: &str, key: &str) -> (r: Result<String, StoreError>)
        requires
            self.wf(),
        ensures
            match r {
                Ok(v) => store_get(self@, history_name@, key@) == Some(v@),
                Err(e) => e == StoreError::NotFound && store_get(self@, history_name@, key@)
                    is None,
            },
    {
        match find_history_idx(&self.histories, history_name) {
            Some(i) => {
                proof {
                    lemma_name_at(self.histories@, i as int);
                }
                match find_entry_idx(&self.histories[i].entries, key) {
                    Some(j) => {
                        proof {
                            lemma_key_at(self.histories@[i as int].entries@, j as int);
                        }
                        Ok(self.histories[i].entries[j].value.clone())
                    },
                    None => {
                        proof {
                            lemma_no_key(self.histories@[i as int].entries@, key@);
                        }
                        Err(StoreError::NotFound)
                    },
                }
            },
            None => {
                proof {
                    lemma_no_name(self.histories@, history_name@);
                }
                Err(StoreError::NotFound)
            },
        }
    }

    /// Remove `key` from the history named `history_name`; `NotFound` when
    /// either is absent.  The history itself stays, possibly empty.
    pub fn delete_entry(&mut self, history_name: &str, key: &str) -> (r: Result<
        (),
        StoreError,
    >)
        requires
            old(self).wf(),
        ensures
            final(self).wf(),
            final(self)@ == store_delete(old(self)@, history_name@, key@),
            match r {
                Ok(()) => store_get(old(self)@, history_name@, key@) is Some,
                Err(e) => e == StoreError::NotFound && store_get(old(self)@, history_name@, key@)
                    is None,
            },
    {
        match find_history_idx(&self.histories, history_name) {
            Some(i) => {
                let ghost hs = self.histories@;
                proof {
                    lemma_name_at(hs, i as int);
                }
                let mut h = self.histories.remove(i);
                match find_entry_idx(&h.entries, key) {
                    Some(j) => {
                        let ghost s = h.entries@;
                        proof {
                            lemma_key_at(s, j as int);
                        }
                        let _removed = h.entries.remove(j);
                        self.histories.insert(i, h);
                        proof {
                            lemma_entries_remove(s, j as int);
                            assert(self.histories@ =~= hs.update(i as int, h));
                            lemma_histories_update(hs, i as int, h);
                        }
                        Ok(())
                    },
                    None => {
                        self.histories.insert(i, h);
                        proof {
                            assert(self.histories@ =~= hs);
                            lemma_no_key(h.entries@, key@);
                        }
                        Err(StoreError::NotFound)
                    },
                }
            },
            None => {
                proof {
                    lemma_no_name(self.histories@, history_name@);
                }
                Err(StoreError::NotFound)
            },
        }
    }

    /// The names of all histories, each exactly once, in internal order.
    pub fn list_histories(&self) -> (r: Vec<String>)
        ensures
            r@.len() == self.histories@.len(),
            forall|i: int| 0 <= i < r@.len() ==> r@[i] == (#[trigger] self.histories@[i]).name,
    {
        let n = self.histories.len();
        let mut r: Vec<String> = Vec::new();
        let mut i: usize = 0;
        while i < n
            invariant
                n == self.histories@.len(),
                i <= n,
                r@.len() == i,
                forall|j: int|
                    0 <= j < i ==> r@[j] == (#[trigger] self.histories@[j]).name,
            decreases n - i,
        {
            r.push(self.histories[i].name.clone());
            i = i + 1;
        }
        r
    }

    /// The (key, value) pairs of one history, in internal order; `NotFound`
    /// when the history does not exist.
    pub fn list_entries(&self, history_name: &str) -> (r: Result<Vec<Entry>, StoreError>)
        requires
            self.wf(),
        ensures
            match r {
                Ok(es) => self@.contains_key(history_name@) && entries_map(es@)
                    == self@[history_name@] && unique_keys(es@),
                Err(e) => e == StoreError::NotFound && !self@.contains_key(history_name@),
            },
    {
        match find_history_idx(&self.histories, history_name) {
            Some(i) => {
                proof {
                    lemma_name_at(self.histories@, i as int);
                }
                let src = &self.histories[i].entries;
                let n = src.len();
                let mut es: Vec<Entry> = Vec::new();
                let mut j: usize = 0;
                while j < n
                    invariant
                        n == src@.len(),
                        j <= n,
                        es@.len() == j,
                        forall|t: int| 0 <= t < j ==> (#[trigger] es@[t]) == src@[t],
                    decreases n - j,
                {
                    es.push(
                        Entry {
                            key: src[j].key.clone(),
                            value: src[j].value.clone(),
                        },
                    );
                    j = j + 1;
                }
                proof {
                    assert(es@ =~= src@);
                }
                Ok(es)
            },
            None => {
                proof {
                    lemma_no_name(self.histories@, history_name@);
                }
                Err(StoreError::NotFound)
            },
        }
    }
}

/// Saving the same entry twice with identical arguments yields the same
/// store as saving it once.
pub proof fn lemma_save_entry_idempotent(
    m: Map<Seq<char>, Map<Seq<char>, Seq<char>>>,
    h: Seq<char>,
    k: Seq<char>,
    v: Seq<char>,
)
    ensures
        store_insert(store_insert(m, h, k, v), h, k, v) == store_insert(m, h, k, v),
{
    assert(store_insert(store_insert(m, h, k, v), h, k, v) =~~= store_insert(m, h, k, v));
}

/// Deleting (h, k) and then looking it up signals absence.
pub proof fn lemma_delete_then_get(
    m: Map<Seq<char>, Map<Seq<char>, Seq<char>>>,
    h: Seq<char>,
    k: Seq<char>,
)
    ensures
        store_get(store_delete(m, h, k), h, k) is None,
{
}

} // verus!
