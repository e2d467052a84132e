use vstd::prelude::*;
use vstd::string::*;
use crate::errors::{Format, StoreError};
use crate::store::{FlatEntry, History, Store};
use crate::merge::{flatten_recs, history_recs, merge_records, recs_view};
use crate::csv_codec::{csv_doc, p_csv, records_from_csv, records_to_csv};
use crate::json_codec::{
    entries_match_raw, hists_match_raw, json_doc, p_doc, raw_ok, store_from_json, store_to_json,
};

verus! {

/// The session aggregate: the store, the path of the persisted file, and
/// the name of the currently selected history.
pub struct Clipboard {
    pub data: Store,
    pub filepath: String,
    pub current: String,
}

impl Clipboard {
    /// A manager over an empty store; the selection starts on "default".
    pub fn new(filepath: &str) -> (c: Clipboard)
        ensures
            c.data.wf(),
            c.data@ == Map::<Seq<char>, Map<Seq<char>, Seq<char>>>::empty(),
            c.filepath@ == filepath@,
            c.current@ == "default"@,
    {
        Clipboard {
            data: Store::empty(),
            filepath: filepath.to_owned(),
            current: String::from_str("default"),
        }
    }

    /// Merge imported records into the store, in record order; imported
    /// data wins on key collision.
    pub fn merge_data(&mut self, records: &Vec<FlatEntry>)
        requires
            old(self).data.wf(),
        ensures
            final(self).data.wf(),
            final(self).data@ == merge_records(old(self).data@, recs_view(records@)),
            final(self).filepath == old(self).filepath,
            final(self).current == old(self).current,
    {
        self.data.merge(records);
    }

    /// Select a history name as the session's current one.
    pub fn select(&mut self, name: &str)
        ensures
            final(self).current@ == name@,
            final(self).data == old(self).data,
            final(self).filepath == old(self).filepath,
    {
        self.current = name.to_owned();
    }
}

/// The records of one parsed history, each as (name, key, value).
pub open spec fn raw_triples(name: Seq<char>, pr: Seq<(Seq<char>, Seq<char>)>) -> Seq<
    (Seq<char>, Seq<char>, Seq<char>),
> {
    pr.map(|i: int, kv: (Seq<char>, Seq<char>)| (name, kv.0, kv.1))
}

/// All records of a parsed document, grouped by history, in order.
pub open spec fn flatten_raw(raw: Seq<(Seq<char>, Seq<(Seq<char>, Seq<char>)>)>) -> Seq<
    (Seq<char>, Seq<char>, Seq<char>),
>
    decreases raw.len(),
{
    if raw.len() == 0 {
        Seq::empty()
    } else {
        flatten_raw(raw.drop_last()) + raw_triples(raw.last().0, raw.last().1)
    }
}

pub proof fn lemma_flatten_matches(
    hs: Seq<History>,
    raw: Seq<(Seq<char>, Seq<(Seq<char>, Seq<char>)>)>,
)
    requires
        hists_match_raw(hs, raw),
    ensures
        flatten_recs(hs) == flatten_raw(raw),
    decreases hs.len(),
{
    if hs.len() == 0 {
        assert(flatten_recs(hs) =~= flatten_raw(raw));
    } else {
        let hbu = hs.drop_last();
        let rbu = raw.drop_last();
        assert(forall|i: int| 0 <= i < hbu.len() ==> (#[trigger] hbu[i]) == hs[i]);
        assert(forall|i: int| 0 <= i < rbu.len() ==> (#[trigger] rbu[i]) == raw[i]);
        assert(hists_match_raw(hbu, rbu));
        lemma_flatten_matches(hbu, rbu);
        let h = hs.last();
        let rl = raw.last();
        assert(h == hs[hs.len() - 1] && rl == raw[raw.len() - 1]);
        assert(entries_match_raw(h.entries@, rl.1));
        assert(history_recs(h) =~= raw_triples(rl.0, rl.1));
        assert(flatten_recs(hs) =~= flatten_raw(raw));
    }
}

/// Export the store: JSON gives the canonical nested document, CSV the
/// flattened records, one per (history, key, value) triple.
pub fn export_store(s: &Store, fmt: Format) -> (r: String)
    ensures
        fmt == Format::Json ==> r@ == json_doc(s.histories@),
        fmt == Format::Csv ==> r@ == csv_doc(flatten_recs(s.histories@)),
{
    match fmt {
        Format::Json => store_to_json(s),
        Format::Csv => {
            let recs = s.flatten();
            records_to_csv(&recs)
        },
    }
}

/// Parse an interchange document into records: the canonical nested
/// document for JSON, header-less three-field rows for CSV.
pub fn import_records(text: &str, fmt: Format) -> (r: Result<Vec<FlatEntry>, StoreError>)
    ensures
        fmt == Format::Json ==> match r {
            Ok(v) => p_doc(text@) matches Some(raw) && raw_ok(raw) && recs_view(v@)
                == flatten_raw(raw),
            Err(e) => e == StoreError::CorruptData && !(p_doc(text@) matches Some(raw)
                && raw_ok(raw)),
        },
        fmt == Format::Csv ==> match r {
            Ok(v) => p_csv(text@, 0) == Some(recs_view(v@)),
            Err(e) => e == StoreError::CorruptData && p_csv(text@, 0) is None,
        },
{
    match fmt {
        Format::Json => match store_from_json(text) {
            Ok(s) => {
                let v = s.flatten();
                proof {
                    let raw = p_doc(text@).unwrap();
                    lemma_flatten_matches(s.histories@, raw);
                }
                Ok(v)
            },
            Err(e) => Err(e),
        },
        Format::Csv => records_from_csv(text),
    }
}

} // verus!
