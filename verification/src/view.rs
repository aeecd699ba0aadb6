//! The view engine: per-view state (forward index, per-document key
//! map, invalidated-document set, version marker), the mapper that
//! rewrites a document's index rows, and the integrity scanner.

use vstd::prelude::*;
use vstd::multiset::Multiset;

use crate::key::{QueryKey, Range, Bound, Sort};
use crate::schema::ViewSchema;
use crate::store::{has_collection, collection_index, CollectionModel, Database};
use crate::key::{lex_compare, lex_le, lex_lt, KeyOrdering};
use crate::key::{lemma_lex_lt_le_trans, lemma_lex_trichotomy};
use crate::names::ViewName;
use crate::transaction::copy_bytes;

verus! {

/// One row of a view's forward index: a document emitted `value`
/// under `key`.
#[derive(Debug)]
pub struct ViewEntry {
    /// The id of the document that emitted the row.
    pub source: u64,
    /// The emitted key, in its byte encoding.
    pub key: Vec<u8>,
    /// The emitted value, in its byte encoding.
    pub value: Vec<u8>,
}

/// The mathematical value of an index row.
pub struct ViewEntryView {
    pub source: u64,
    pub key: Seq<u8>,
    pub value: Seq<u8>,
}

impl View for ViewEntry {
    type V = ViewEntryView;

    open spec fn view(&self) -> ViewEntryView {
        ViewEntryView { source: self.source, key: self.key@, value: self.value@ }
    }
}

impl ViewEntry {
    /// An identical copy of this row.
    pub fn duplicate(&self) -> (r: Self)
        ensures
            r@ == self@,
    {
        ViewEntry { source: self.source, key: copy_bytes(&self.key), value: copy_bytes(&self.value) }
    }
}

/// The set of keys one document currently contributes to a view.
#[derive(Debug)]
pub struct DocumentKeys {
    /// The document's id.
    pub id: u64,
    /// The keys the document emitted on its last mapping.
    pub keys: Vec<Vec<u8>>,
}

/// The mathematical value of a per-document key set.
pub struct DocumentKeysView {
    pub id: u64,
    pub keys: Seq<Seq<u8>>,
}

impl View for DocumentKeys {
    type V = DocumentKeysView;

    open spec fn view(&self) -> DocumentKeysView {
        DocumentKeysView { id: self.id, keys: keys_view(self.keys@) }
    }
}

/// The state a view keeps per database: its version marker, the
/// forward index, the per-document key map, and the set of documents
/// whose mappings are stale.
#[derive(Debug)]
pub struct ViewState {
    /// The view's stable name.
    pub name: ViewName,
    /// The schema version the stored index was built under.
    pub version: u64,
    /// The forward index, one row per emitted mapping, sorted by key.
    pub entries: Vec<ViewEntry>,
    /// For each mapped document, the keys it emitted last.
    pub document_map: Vec<DocumentKeys>,
    /// Documents whose mappings are stale and must be recomputed.
    pub invalidated: Vec<u64>,
    /// Bytes reclaimable by compacting the view's trees.
    pub wasted: u64,
}

/// The view of a mapping list: each pair of byte vectors as a pair of
/// byte sequences.
pub open spec fn pairs_view(ps: Seq<(Vec<u8>, Vec<u8>)>) -> Seq<(Seq<u8>, Seq<u8>)> {
    ps.map_values(|p: (Vec<u8>, Vec<u8>)| (p.0@, p.1@))
}

/// The keys of a mapping list.
pub open spec fn pair_keys(ps: Seq<(Seq<u8>, Seq<u8>)>) -> Seq<Seq<u8>> {
    ps.map_values(|p: (Seq<u8>, Seq<u8>)| p.0)
}

/// The mathematical values of a list of byte keys.
pub open spec fn keys_view(ks: Seq<Vec<u8>>) -> Seq<Seq<u8>> {
    ks.map_values(|k: Vec<u8>| k@)
}

/// The mathematical values of a list of index rows.
pub open spec fn entries_view(es: Seq<ViewEntry>) -> Seq<ViewEntryView> {
    es.map_values(|e: ViewEntry| e@)
}

/// Whether index rows are sorted by key.
pub open spec fn rows_sorted(rows: Seq<ViewEntryView>) -> bool {
    forall|i: int, j: int|
        0 <= i < j < rows.len() ==> lex_le(#[trigger] rows[i].key, #[trigger] rows[j].key)
}

/// The rows that do not stem from document `doc_id`.
pub open spec fn keeps_others(doc_id: u64) -> spec_fn(ViewEntryView) -> bool {
    |r: ViewEntryView| r.source != doc_id
}

/// The rows that stem from document `d`.
pub open spec fn from_doc(d: u64) -> spec_fn(ViewEntryView) -> bool {
    |r: ViewEntryView| r.source == d
}

/// The `(key, value)` pairs of a row list.
pub open spec fn row_pairs(rows: Seq<ViewEntryView>) -> Seq<(Seq<u8>, Seq<u8>)> {
    rows.map_values(|r: ViewEntryView| (r.key, r.value))
}

/// The `(key, value)` pairs document `d` contributes to the index.
pub open spec fn contribution(rows: Seq<ViewEntryView>, d: u64) -> Seq<(Seq<u8>, Seq<u8>)> {
    row_pairs(rows.filter(from_doc(d)))
}

/// What the per-document key map records for document `d`.
pub open spec fn docmap_lookup(dm: Seq<DocumentKeysView>, d: u64) -> Option<Seq<Seq<u8>>> {
    if exists|i: int| 0 <= i < dm.len() && dm[i].id == d {
        let i = choose|i: int| 0 <= i < dm.len() && dm[i].id == d;
        Some(dm[i].keys)
    } else {
        None
    }
}

impl ViewState {
    /// The index rows as mathematical values.
    pub open spec fn rows(&self) -> Seq<ViewEntryView> {
        entries_view(self.entries@)
    }

    /// The per-document key map as mathematical values.
    pub open spec fn docmap(&self) -> Seq<DocumentKeysView> {
        self.document_map@.map_values(|d: DocumentKeys| d@)
    }

    /// Structural well-formedness: the index is sorted by key, and the
    /// key map and the invalidated set hold each document at most once.
    pub open spec fn wf(&self) -> bool {
        &&& rows_sorted(self.rows())
        &&& forall|i: int, j: int|
            0 <= i < j < self.docmap().len() ==> (#[trigger] self.docmap()[i]).id
                != (#[trigger] self.docmap()[j]).id
        &&& forall|i: int, j: int|
            0 <= i < j < self.invalidated@.len() ==> #[trigger] self.invalidated@[i]
                != #[trigger] self.invalidated@[j]
    }

    /// A fresh, empty view state under schema version `version`.
    pub fn new(name: ViewName, version: u64) -> (r: Self)
        ensures
            r.wf(),
            r.name@ == name@,
            r.version == version,
            r.rows() == Seq::<ViewEntryView>::empty(),
            r.docmap() == Seq::<DocumentKeysView>::empty(),
            r.invalidated@ == Seq::<u64>::empty(),
    {
        let r = ViewState {
            name,
            version,
            entries: Vec::new(),
            document_map: Vec::new(),
            invalidated: Vec::new(),
            wasted: 0,
        };
        assert(r.rows() =~= Seq::<ViewEntryView>::empty());
        assert(r.docmap() =~= Seq::<DocumentKeysView>::empty());
        r
    }

    /// Marks document `d` stale; a document already marked is not
    /// marked twice.
    pub fn invalidate(&mut self, d: u64)
        requires
            old(self).wf(),
        ensures
            final(self).wf(),
            final(self).invalidated@ == add_invalidation(old(self).invalidated@, d),
            final(self).entries == old(self).entries,
            final(self).document_map == old(self).document_map,
            final(self).name == old(self).name,
            final(self).version == old(self).version,
            final(self).wasted == old(self).wasted,
    {
        let mut i: usize = 0;
        while i < self.invalidated.len()
            invariant
                0 <= i <= self.invalidated.len(),
                forall|j: int| 0 <= j < i ==> self.invalidated@[j] != d,
                *self == *old(self),
                old(self).wf(),
            decreases self.invalidated.len() - i,
        {
            if self.invalidated[i] == d {
                assert(self.invalidated@.contains(d));
                return ;
            }
            i += 1;
        }
        assert(!self.invalidated@.contains(d));
        self.invalidated.push(d);
        assert forall|a: int, b: int|
            0 <= a < b < self.invalidated@.len() implies #[trigger] self.invalidated@[a]
            != #[trigger] self.invalidated@[b] by {
            if b < self.invalidated@.len() - 1 {
                assert(self.invalidated@[a] == old(self).invalidated@[a]);
                assert(self.invalidated@[b] == old(self).invalidated@[b]);
            } else {
                assert(self.invalidated@[b] == d);
                assert(self.invalidated@[a] == old(self).invalidated@[a]);
            }
        }
        assert(self.docmap() =~= old(self).docmap());
        assert(self.rows() =~= old(self).rows());
    }
}

/// Adds `d` to the stale set unless it is already present.
pub open spec fn add_invalidation(inv: Seq<u64>, d: u64) -> Seq<u64> {
    if inv.contains(d) {
        inv
    } else {
        inv.push(d)
    }
}

/// Splitting a sequence at any index splits its filtered form.
proof fn lemma_filter_split(rows: Seq<ViewEntryView>, pred: spec_fn(ViewEntryView) -> bool, i: int)
    requires
        0 <= i <= rows.len(),
    ensures
        rows.filter(pred) == rows.take(i).filter(pred) + rows.skip(i).filter(pred),
{
    assert(rows =~= rows.take(i) + rows.skip(i));
    Seq::filter_distributes_over_add(rows.take(i), rows.skip(i), pred);
}

/// The filtered form of a one-element sequence.
proof fn lemma_filter_singleton(row: ViewEntryView, pred: spec_fn(ViewEntryView) -> bool)
    ensures
        pred(row) ==> seq![row].filter(pred) == seq![row],
        !pred(row) ==> seq![row].filter(pred) == Seq::<ViewEntryView>::empty(),
{
    reveal_with_fuel(Seq::filter, 2);
    assert(seq![row].drop_last() =~= Seq::<ViewEntryView>::empty());
}

/// Taking pairs distributes over concatenation.
proof fn lemma_row_pairs_add(a: Seq<ViewEntryView>, b: Seq<ViewEntryView>)
    ensures
        row_pairs(a + b) == row_pairs(a) + row_pairs(b),
{
    assert(row_pairs(a + b) =~= row_pairs(a) + row_pairs(b));
}

/// Inserting a row changes only its own document's contribution, by
/// exactly that row's pair.
proof fn lemma_contribution_insert(rows: Seq<ViewEntryView>, pos: int, row: ViewEntryView)
    requires
        0 <= pos <= rows.len(),
    ensures
        forall|d: u64|
            d != row.source ==> #[trigger] contribution(rows.insert(pos, row), d) == contribution(
                rows,
                d,
            ),
        contribution(rows.insert(pos, row), row.source) == contribution(
            rows.take(pos),
            row.source,
        ) + seq![(row.key, row.value)] + contribution(rows.skip(pos), row.source),
        contribution(rows, row.source) == contribution(rows.take(pos), row.source) + contribution(
            rows.skip(pos),
            row.source,
        ),
{
    let inserted = rows.insert(pos, row);
    assert(inserted =~= rows.take(pos) + seq![row] + rows.skip(pos));
    assert forall|d: u64| true implies {
        &&& (d != row.source ==> #[trigger] contribution(inserted, d) == contribution(rows, d))
        &&& (d == row.source ==> contribution(inserted, d) == contribution(rows.take(pos), d)
            + seq![(row.key, row.value)] + contribution(rows.skip(pos), d))
        &&& contribution(rows, d) == contribution(rows.take(pos), d) + contribution(
            rows.skip(pos),
            d,
        )
    } by {
        let pred = from_doc(d);
        Seq::filter_distributes_over_add(rows.take(pos) + seq![row], rows.skip(pos), pred);
        Seq::filter_distributes_over_add(rows.take(pos), seq![row], pred);
        lemma_filter_singleton(row, pred);
        lemma_filter_split(rows, pred, pos);
        lemma_row_pairs_add(rows.take(pos).filter(pred), rows.skip(pos).filter(pred));
        if d == row.source {
            lemma_row_pairs_add(
                rows.take(pos).filter(pred) + seq![row],
                rows.skip(pos).filter(pred),
            );
            lemma_row_pairs_add(rows.take(pos).filter(pred), seq![row]);
            assert(row_pairs(seq![row]) =~= seq![(row.key, row.value)]);
        } else {
            assert(rows.take(pos).filter(pred) + Seq::<ViewEntryView>::empty() =~= rows.take(
                pos,
            ).filter(pred));
            lemma_row_pairs_add(rows.take(pos).filter(pred), rows.skip(pos).filter(pred));
        }
    }
}

/// Every element of a filtered sequence is an element of the original.
proof fn lemma_filter_membership(rows: Seq<ViewEntryView>, pred: spec_fn(ViewEntryView) -> bool)
    ensures
        forall|k: int|
            0 <= k < rows.filter(pred).len() ==> rows.contains(#[trigger] rows.filter(pred)[k]),
    decreases rows.len(),
{
    reveal(Seq::filter);
    if rows.len() > 0 {
        let d = rows.drop_last();
        lemma_filter_membership(d, pred);
        assert forall|k: int|
            0 <= k < rows.filter(pred).len() implies rows.contains(
            #[trigger] rows.filter(pred)[k],
        ) by {
            if k < d.filter(pred).len() {
                assert(d.contains(d.filter(pred)[k]));
                let i = choose|i: int| 0 <= i < d.len() && d[i] == d.filter(pred)[k];
                assert(rows[i] == rows.filter(pred)[k]);
            } else {
                assert(rows.filter(pred)[k] == rows.last());
            }
        }
    }
}

/// Filtering a key-sorted row list keeps it sorted.
proof fn lemma_filter_sorted(rows: Seq<ViewEntryView>, pred: spec_fn(ViewEntryView) -> bool)
    requires
        rows_sorted(rows),
    ensures
        rows_sorted(rows.filter(pred)),
    decreases rows.len(),
{
    reveal(Seq::filter);
    if rows.len() > 0 {
        let d = rows.drop_last();
        assert(rows_sorted(d)) by {
            assert forall|i: int, j: int|
                0 <= i < j < d.len() implies lex_le(#[trigger] d[i].key, #[trigger] d[j].key) by {
                assert(rows[i] == d[i] && rows[j] == d[j]);
            }
        }
        lemma_filter_sorted(d, pred);
        if pred(rows.last()) {
            lemma_filter_membership(d, pred);
            let f = rows.filter(pred);
            assert(f == d.filter(pred).push(rows.last()));
            assert forall|i: int, j: int|
                0 <= i < j < f.len() implies lex_le(#[trigger] f[i].key, #[trigger] f[j].key) by {
                if j < f.len() - 1 {
                    assert(f[i] == d.filter(pred)[i] && f[j] == d.filter(pred)[j]);
                } else {
                    assert(f[j] == rows.last());
                    assert(f[i] == d.filter(pred)[i]);
                    assert(d.contains(d.filter(pred)[i]));
                    let m = choose|m: int| 0 <= m < d.len() && d[m] == d.filter(pred)[i];
                    assert(rows[m] == f[i]);
                    assert(lex_le(rows[m].key, rows[rows.len() - 1].key));
                }
            }
        }
    }
}

/// A row of the forward index as one emitted pair of document `d`.
pub open spec fn doc_row(d: u64, p: (Seq<u8>, Seq<u8>)) -> ViewEntryView {
    ViewEntryView { source: d, key: p.0, value: p.1 }
}

/// Inserts a row into a key-sorted row list, after every row whose key
/// is not above its own -- so rows of equal key keep their insertion
/// order.
pub open spec fn insert_row(rows: Seq<ViewEntryView>, row: ViewEntryView) -> Seq<ViewEntryView>
    decreases rows.len(),
{
    if rows.len() == 0 {
        seq![row]
    } else if lex_lt(row.key, rows[0].key) {
        seq![row] + rows
    } else {
        seq![rows[0]] + insert_row(rows.drop_first(), row)
    }
}

/// The rows after rewriting document `d`'s mapping over `base` (its own
/// old rows already removed): each emitted pair inserted in order,
/// behind the rows that already carry its key.
pub open spec fn apply_doc_rows(
    base: Seq<ViewEntryView>,
    d: u64,
    pairs: Seq<(Seq<u8>, Seq<u8>)>,
) -> Seq<ViewEntryView>
    decreases pairs.len(),
{
    if pairs.len() == 0 {
        base
    } else {
        insert_row(apply_doc_rows(base, d, pairs.drop_last()), doc_row(d, pairs.last()))
    }
}

/// Inserting at the first position whose key is strictly above the
/// row's is what `insert_row` denotes.
proof fn lemma_insert_row_at(rows: Seq<ViewEntryView>, row: ViewEntryView, p: int)
    requires
        0 <= p <= rows.len(),
        forall|j: int| 0 <= j < p ==> !lex_lt(row.key, (#[trigger] rows[j]).key),
        p < rows.len() ==> lex_lt(row.key, rows[p].key),
    ensures
        insert_row(rows, row) == rows.insert(p, row),
    decreases rows.len(),
{
    if rows.len() == 0 {
        assert(rows.insert(0, row) =~= seq![row]);
    } else if lex_lt(row.key, rows[0].key) {
        assert(p == 0) by {
            if p > 0 {
                assert(!lex_lt(row.key, rows[0].key));
            }
        }
        assert(rows.insert(0, row) =~= seq![row] + rows);
    } else {
        assert(p >= 1) by {
            if p == 0 {
                assert(lex_lt(row.key, rows[0].key));
            }
        }
        let rest = rows.drop_first();
        assert forall|j: int| 0 <= j < p - 1 implies !lex_lt(row.key, (#[trigger] rest[j]).key) by {
            assert(rest[j] == rows[j + 1]);
        }
        assert(p - 1 < rest.len() ==> lex_lt(row.key, rest[p - 1].key)) by {
            if p - 1 < rest.len() {
                assert(rest[p - 1] == rows[p]);
            }
        }
        lemma_insert_row_at(rest, row, p - 1);
        assert(rows.insert(p, row) =~= seq![rows[0]] + rest.insert(p - 1, row));
    }
}

impl ViewState {
    /// Rewrites the mapping of document `doc_id`: every index row the
    /// document previously contributed is removed, the rows of
    /// `mappings` are inserted in their key positions, and the key map
    /// records the new key list (or forgets the document when the
    /// mapping is empty). No other document's contribution changes.
    pub fn update_document_mapping(&mut self, doc_id: u64, mappings: &Vec<(Vec<u8>, Vec<u8>)>)
        requires
            old(self).wf(),
        ensures
            final(self).wf(),
            final(self).rows() == apply_doc_rows(
                old(self).rows().filter(keeps_others(doc_id)),
                doc_id,
                pairs_view(mappings@),
            ),
            contribution(final(self).rows(), doc_id).to_multiset() == pairs_view(
                mappings@,
            ).to_multiset(),
            forall|d: u64|
                d != doc_id ==> #[trigger] contribution(final(self).rows(), d) == contribution(
                    old(self).rows(),
                    d,
                ),
            docmap_lookup(final(self).docmap(), doc_id) == (if mappings@.len() == 0 {
                None::<Seq<Seq<u8>>>
            } else {
                Some(pair_keys(pairs_view(mappings@)))
            }),
            forall|d: u64|
                d != doc_id ==> #[trigger] docmap_lookup(final(self).docmap(), d) == docmap_lookup(
                    old(self).docmap(),
                    d,
                ),
            final(self).invalidated == old(self).invalidated,
            final(self).name == old(self).name,
            final(self).version == old(self).version,
    {
        let ghost old_rows = self.rows();
        // Remove every row the document previously contributed.
        let mut kept: Vec<ViewEntry> = Vec::new();
        let ghost keep = keeps_others(doc_id);
        let mut i: usize = 0;
        while i < self.entries.len()
            invariant
                0 <= i <= self.entries.len(),
                old_rows == self.rows(),
                *self == *old(self),
                old(self).wf(),
                entries_view(kept@) == old_rows.take(i as int).filter(keep),
                keep == keeps_others(doc_id),
            decreases self.entries.len() - i,
        {
            proof {
                assert(old_rows.take(i + 1) =~= old_rows.take(i as int) + seq![old_rows[i as int]]);
                Seq::filter_distributes_over_add(
                    old_rows.take(i as int),
                    seq![old_rows[i as int]],
                    keep,
                );
                lemma_filter_singleton(old_rows[i as int], keep);
            }
            if self.entries[i].source != doc_id {
                kept.push(self.entries[i].duplicate());
                proof {
                    assert(entries_view(kept@) =~= old_rows.take(i as int).filter(
                        keep,
                    ) + seq![old_rows[i as int]]);
                    assert(old_rows.take(i as int).filter(keep) + seq![old_rows[i as int]]
                        =~= old_rows.take(i + 1).filter(keep));
                }
            } else {
                proof {
                    assert(old_rows.take(i as int).filter(keep)
                        + Seq::<ViewEntryView>::empty() =~= old_rows.take(i as int).filter(keep));
                    assert(entries_view(kept@) =~= old_rows.take(i + 1).filter(
                        keep,
                    ));
                }
            }
            i += 1;
        }
        proof {
            assert(old_rows.take(old_rows.len() as int) =~= old_rows);
            lemma_filter_sorted(old_rows, keep);
        }
        // The removed rows' contribution is gone for `doc_id`, and every
        // other document keeps its rows.
        proof {
            lemma_removal_contributions(old_rows, doc_id);
            assert(mappings@.take(0) =~= Seq::<(Vec<u8>, Vec<u8>)>::empty());
            assert(pairs_view(mappings@.take(0)) =~= Seq::<(Seq<u8>, Seq<u8>)>::empty());
            assert(contribution(entries_view(kept@), doc_id) == Seq::<(Seq<u8>, Seq<u8>)>::empty());
            assert(pair_keys(pairs_view(mappings@.take(0))) =~= Seq::<Seq<u8>>::empty());
        }
        proof {
            Seq::lemma_filter_len(old_rows, keep);
            assert(entries_view(kept@) == old_rows.filter(keeps_others(doc_id)));
            assert(apply_doc_rows(
                old_rows.filter(keeps_others(doc_id)),
                doc_id,
                pairs_view(mappings@.take(0)),
            ) == entries_view(kept@));
        }
        let stale_rows = self.entries.len() - kept.len();
        // Insert the new rows, each after the rows whose key is not
        // above its own, and collect the emitted keys for the key map.
        let mut keys: Vec<Vec<u8>> = Vec::new();
        proof {
            assert(keys_view(keys@) =~= Seq::<Seq<u8>>::empty());
        }
        let mut mi: usize = 0;
        while mi < mappings.len()
            invariant
                0 <= mi <= mappings.len(),
                rows_sorted(entries_view(kept@)),
                contribution(entries_view(kept@), doc_id).to_multiset()
                    == pairs_view(mappings@.take(mi as int)).to_multiset(),
                forall|d: u64|
                    d != doc_id ==> #[trigger] contribution(
                        entries_view(kept@),
                        d,
                    ) == contribution(old_rows, d),
                keys_view(keys@) == pair_keys(pairs_view(mappings@.take(mi as int))),
                old_rows == old(self).rows(),
                entries_view(kept@) == apply_doc_rows(
                    old_rows.filter(keeps_others(doc_id)),
                    doc_id,
                    pairs_view(mappings@.take(mi as int)),
                ),
            decreases mappings.len() - mi,
        {
            proof {
                assert(keys_view(keys@) == pair_keys(pairs_view(mappings@.take(mi as int))));
                assert(pair_keys(pairs_view(mappings@.take(mi as int))).len() == mi as int);
                assert(keys@.len() == mi as int);
            }
            let k = copy_bytes(&mappings[mi].0);
            let v = copy_bytes(&mappings[mi].1);
            let ghost rows_before = entries_view(kept@);
            let mut pos: usize = 0;
            while pos < kept.len() && !key_lt(&k, &kept[pos].key)
                invariant
                    0 <= pos <= kept.len(),
                    forall|j: int| 0 <= j < pos ==> !lex_lt(k@, (#[trigger] rows_before[j]).key),
                    rows_before == entries_view(kept@),
                    k@ == mappings@[mi as int].0@,
                decreases kept.len() - pos,
            {
                pos += 1;
            }
            let ghost row = ViewEntryView { source: doc_id, key: k@, value: v@ };
            proof {
                lemma_contribution_insert(rows_before, pos as int, row);
                assert forall|a: int, b: int|
                    0 <= a < b < rows_before.insert(pos as int, row).len() implies lex_le(
                    #[trigger] rows_before.insert(pos as int, row)[a].key,
                    #[trigger] rows_before.insert(pos as int, row)[b].key,
                ) by {
                    let ins = rows_before.insert(pos as int, row);
                    if a == pos {
                        assert(ins[b] == rows_before[b - 1]);
                        if pos < rows_before.len() {
                            assert(lex_lt(row.key, rows_before[pos as int].key));
                            if b - 1 > pos {
                                lemma_lex_lt_le_trans(
                                    row.key,
                                    rows_before[pos as int].key,
                                    rows_before[b - 1].key,
                                );
                            }
                        }
                    } else if b == pos {
                        assert(ins[a] == rows_before[a]);
                        assert(!lex_lt(k@, rows_before[a].key));
                        lemma_lex_trichotomy(k@, rows_before[a].key);
                    } else if a < pos && b > pos {
                        assert(ins[a] == rows_before[a] && ins[b] == rows_before[b - 1]);
                        if a < b - 1 {
                            assert(lex_le(rows_before[a].key, rows_before[b - 1].key));
                        }
                    } else if b < pos {
                        assert(ins[a] == rows_before[a] && ins[b] == rows_before[b]);
                    } else {
                        assert(ins[a] == rows_before[a - 1] && ins[b] == rows_before[b - 1]);
                    }
                }
            }
            let ghost keys_before = keys@;
            kept.insert(pos, ViewEntry { source: doc_id, key: k, value: v });
            keys.push(copy_bytes(&mappings[mi].0));
            proof {
                assert(keys@ == keys_before.push(keys@[keys@.len() - 1]));
                assert(keys@[keys@.len() - 1]@ == mappings@[mi as int].0@);
                assert(keys_view(keys@).len() == keys_before.len() + 1);
                assert(keys_view(keys_before) == pair_keys(pairs_view(mappings@.take(mi as int))));
                assert(keys_before.len() == mi as int);
                assert forall|j: int| 0 <= j < mi as int implies keys_view(keys@)[j] == pair_keys(
                    pairs_view(mappings@.take(mi + 1)),
                )[j] by {
                    assert(keys_view(keys@)[j] == keys@[j]@);
                    assert(keys@[j] == keys_before[j]);
                    assert(keys_view(keys_before)[j] == keys_before[j]@);
                    assert(keys_view(keys_before)[j] == pair_keys(
                        pairs_view(mappings@.take(mi as int)),
                    )[j]);
                    assert(pair_keys(pairs_view(mappings@.take(mi as int)))[j] == pairs_view(
                        mappings@.take(mi as int),
                    )[j].0);
                    assert(pairs_view(mappings@.take(mi as int))[j].0 == mappings@.take(
                        mi as int,
                    )[j].0@);
                    assert(pair_keys(pairs_view(mappings@.take(mi + 1)))[j] == mappings@.take(
                        mi + 1,
                    )[j].0@);
                }
            }
            proof {
                assert(entries_view(kept@) =~= rows_before.insert(
                    pos as int,
                    row,
                ));
                assert(mappings@.take(mi + 1) =~= mappings@.take(mi as int).push(
                    mappings@[mi as int],
                ));
                assert(pairs_view(mappings@.take(mi + 1)) =~= pairs_view(
                    mappings@.take(mi as int),
                ).push((row.key, row.value)));
                pairs_view(mappings@.take(mi as int)).to_multiset_ensures();
                let c_old = contribution(rows_before, doc_id);
                let c_new = contribution(rows_before.insert(pos as int, row), doc_id);
                assert(c_new =~= contribution(rows_before.take(pos as int), doc_id) + seq![
                    (row.key, row.value),
                ] + contribution(rows_before.skip(pos as int), doc_id));
                assert(c_old =~= contribution(rows_before.take(pos as int), doc_id) + contribution(
                    rows_before.skip(pos as int),
                    doc_id,
                ));
                lemma_to_multiset_insert_middle(
                    contribution(rows_before.take(pos as int), doc_id),
                    contribution(rows_before.skip(pos as int), doc_id),
                    (row.key, row.value),
                );
                assert(keys_view(keys@) =~= pair_keys(pairs_view(mappings@.take(mi + 1))));
                // The new row lands behind every row whose key is not
                // above its own: `insert_row` denotes the position.
                lemma_insert_row_at(rows_before, row, pos as int);
                assert(pairs_view(mappings@.take(mi + 1)).drop_last() =~= pairs_view(
                    mappings@.take(mi as int),
                ));
                assert(pairs_view(mappings@.take(mi + 1)).last() == (row.key, row.value));
                assert(doc_row(doc_id, (row.key, row.value)) == row);
                assert(apply_doc_rows(
                    old_rows.filter(keeps_others(doc_id)),
                    doc_id,
                    pairs_view(mappings@.take(mi + 1)),
                ) == insert_row(rows_before, row));
            }
            mi += 1;
        }
        proof {
            assert(mappings@.take(mappings@.len() as int) =~= mappings@);
        }
        self.entries = kept;
        // Record the new key list in the per-document key map.
        self.set_document_keys(doc_id, keys);
        // Rewritten rows leave garbage behind in the view's trees.
        self.wasted = saturating_add(self.wasted, stale_rows as u64);
    }
}

/// Adds two counters, stopping at the largest representable value.
pub fn saturating_add(a: u64, b: u64) -> (r: u64)
    ensures
        r == if a + b <= u64::MAX {
            a + b
        } else {
            u64::MAX as int
        },
{
    if a <= u64::MAX - b {
        a + b
    } else {
        u64::MAX
    }
}

/// After all of a document's rows are removed, its contribution is
/// empty and every other document's contribution is untouched.
proof fn lemma_removal_contributions(rows: Seq<ViewEntryView>, doc_id: u64)
    ensures
        contribution(rows.filter(keeps_others(doc_id)), doc_id) == Seq::<
            (Seq<u8>, Seq<u8>),
        >::empty(),
        forall|d: u64|
            d != doc_id ==> contribution(rows.filter(keeps_others(doc_id)), d)
                == #[trigger] contribution(rows, d),
    decreases rows.len(),
{
    reveal(Seq::filter);
    let keep = keeps_others(doc_id);
    if rows.len() == 0 {
        assert(rows.filter(keep) =~= rows);
        assert forall|d: u64| true implies #[trigger] contribution(rows.filter(keep), d)
            == contribution(rows, d) by {
            assert(rows.filter(|r: ViewEntryView| r.source == d) =~= Seq::<
                ViewEntryView,
            >::empty());
        }
        assert(contribution(rows, doc_id) =~= Seq::<(Seq<u8>, Seq<u8>)>::empty());
    } else {
        let d0 = rows.drop_last();
        let last = rows.last();
        lemma_removal_contributions(d0, doc_id);
        assert(rows =~= d0 + seq![last]);
        assert forall|d: u64| true implies {
            &&& (d == doc_id ==> #[trigger] contribution(rows.filter(keep), d) == Seq::<
                (Seq<u8>, Seq<u8>),
            >::empty())
            &&& (d != doc_id ==> contribution(rows.filter(keep), d) == contribution(rows, d))
        } by {
            let pred = from_doc(d);
            Seq::filter_distributes_over_add(d0, seq![last], keep);
            lemma_filter_singleton(last, keep);
            Seq::filter_distributes_over_add(d0, seq![last], pred);
            lemma_filter_singleton(last, pred);
            if keep(last) {
                Seq::filter_distributes_over_add(d0.filter(keep), seq![last], pred);
                lemma_row_pairs_add(d0.filter(keep).filter(pred), seq![last].filter(pred));
                assert(rows.filter(keep) == d0.filter(keep) + seq![last]);
            } else {
                assert(rows.filter(keep) =~= d0.filter(keep));
            }
            lemma_row_pairs_add(d0.filter(pred), seq![last].filter(pred));
            assert(rows.filter(pred) == d0.filter(pred) + seq![last].filter(pred));
            if pred(last) {
                assert(row_pairs(seq![last].filter(pred)) =~= seq![(last.key, last.value)]);
            } else {
                assert(row_pairs(seq![last].filter(pred)) =~= Seq::<(Seq<u8>, Seq<u8>)>::empty());
            }
            if d == doc_id {
                if keep(last) {
                    assert(contribution(rows.filter(keep), d) =~= contribution(
                        d0.filter(keep),
                        d,
                    ));
                }
            } else {
                if keep(last) {
                    assert(contribution(rows.filter(keep), d) =~= contribution(d0.filter(keep), d)
                        + row_pairs(seq![last].filter(pred)));
                    assert(contribution(rows, d) =~= contribution(d0, d) + row_pairs(
                        seq![last].filter(pred),
                    ));
                } else {
                    assert(!pred(last));
                    assert(contribution(rows, d) =~= contribution(d0, d));
                }
            }
        }
    }
}

/// Inserting an element in the middle of a concatenation inserts it
/// into the multiset of the whole.
proof fn lemma_to_multiset_insert_middle(
    a: Seq<(Seq<u8>, Seq<u8>)>,
    b: Seq<(Seq<u8>, Seq<u8>)>,
    x: (Seq<u8>, Seq<u8>),
)
    ensures
        (a + seq![x] + b).to_multiset() == (a + b).to_multiset().insert(x),
{
    vstd::seq_lib::lemma_multiset_commutative(a + seq![x], b);
    vstd::seq_lib::lemma_multiset_commutative(a, seq![x]);
    vstd::seq_lib::lemma_multiset_commutative(a, b);
    assert(a + seq![x] + b =~= (a + seq![x]) + b);
    seq![x].to_multiset_ensures();
    Seq::<(Seq<u8>, Seq<u8>)>::empty().to_multiset_ensures();
    assert(Seq::<(Seq<u8>, Seq<u8>)>::empty().push(x) =~= seq![x]);
    assert(seq![x].to_multiset() == Multiset::<(Seq<u8>, Seq<u8>)>::empty().insert(x));
    assert((a + seq![x] + b).to_multiset() =~= (a + b).to_multiset().insert(x));
}

/// Compares two byte keys for strict lexicographic order.
pub fn key_lt(a: &Vec<u8>, b: &Vec<u8>) -> (r: bool)
    ensures
        r == lex_lt(a@, b@),
{
    match lex_compare(a, b) {
        KeyOrdering::Less => true,
        _ => false,
    }
}

impl ViewState {
    /// Records `keys` as document `doc_id`'s emitted keys, replacing
    /// any earlier record; an empty key list removes the record.
    fn set_document_keys(&mut self, doc_id: u64, keys: Vec<Vec<u8>>)
        requires
            old(self).wf(),
        ensures
            final(self).wf(),
            docmap_lookup(final(self).docmap(), doc_id) == (if keys@.len() == 0 {
                None::<Seq<Seq<u8>>>
            } else {
                Some(keys_view(keys@))
            }),
            forall|d: u64|
                d != doc_id ==> #[trigger] docmap_lookup(final(self).docmap(), d) == docmap_lookup(
                    old(self).docmap(),
                    d,
                ),
            final(self).entries == old(self).entries,
            final(self).invalidated == old(self).invalidated,
            final(self).name == old(self).name,
            final(self).version == old(self).version,
            final(self).wasted == old(self).wasted,
    {
        let ghost old_dm = self.docmap();
        let ghost keysv = keys_view(keys@);
        let mut i: usize = 0;
        let mut found = false;
        let mut fi: usize = 0;
        while i < self.document_map.len() && !found
            invariant
                0 <= i <= self.document_map.len(),
                *self == *old(self),
                old_dm == self.docmap(),
                found ==> fi < self.document_map@.len() && old_dm[fi as int].id == doc_id,
                !found ==> forall|j: int| 0 <= j < i ==> old_dm[j].id != doc_id,
            decreases self.document_map.len() - i, (if found {
                0int
            } else {
                1int
            }),
        {
            if self.document_map[i].id == doc_id {
                found = true;
                fi = i;
            } else {
                i += 1;
            }
        }
        if found {
            if keys.len() == 0 {
                self.document_map.remove(fi);
                proof {
                    lemma_docmap_remove(old_dm, fi as int);
                    assert(self.docmap() =~= old_dm.remove(fi as int));
                }
            } else {
                let id_copy = self.document_map[fi].id;
                self.document_map.set(fi, DocumentKeys { id: id_copy, keys });
                proof {
                    let nv = DocumentKeysView { id: doc_id, keys: keysv };
                    assert(self.docmap() =~= old_dm.update(fi as int, nv));
                    lemma_docmap_update(old_dm, fi as int, nv);
                }
            }
        } else {
            if keys.len() > 0 {
                self.document_map.push(DocumentKeys { id: doc_id, keys });
                proof {
                    let nv = DocumentKeysView { id: doc_id, keys: keysv };
                    assert(self.docmap() =~= old_dm.push(nv));
                    lemma_docmap_push(old_dm, nv);
                }
            } else {
                proof {
                    lemma_docmap_absent(old_dm, doc_id);
                }
            }
        }
    }
}

/// What `docmap_lookup` returns when the document is recorded.
proof fn lemma_docmap_present(dm: Seq<DocumentKeysView>, i: int)
    requires
        0 <= i < dm.len(),
        forall|a: int, b: int|
            0 <= a < b < dm.len() ==> (#[trigger] dm[a]).id != (#[trigger] dm[b]).id,
    ensures
        docmap_lookup(dm, dm[i].id) == Some(dm[i].keys),
{
    let d = dm[i].id;
    assert(exists|j: int| 0 <= j < dm.len() && dm[j].id == d);
    let j = choose|j: int| 0 <= j < dm.len() && dm[j].id == d;
    if i != j {
        if i < j {
            assert(dm[i].id != dm[j].id);
        } else {
            assert(dm[j].id != dm[i].id);
        }
    }
}

/// What `docmap_lookup` returns when the document is not recorded.
proof fn lemma_docmap_absent(dm: Seq<DocumentKeysView>, d: u64)
    requires
        forall|j: int| 0 <= j < dm.len() ==> (#[trigger] dm[j]).id != d,
    ensures
        docmap_lookup(dm, d) is None,
{
}

/// Removing a record changes `docmap_lookup` only for its document.
proof fn lemma_docmap_remove(dm: Seq<DocumentKeysView>, i: int)
    requires
        0 <= i < dm.len(),
        forall|a: int, b: int|
            0 <= a < b < dm.len() ==> (#[trigger] dm[a]).id != (#[trigger] dm[b]).id,
    ensures
        docmap_lookup(dm.remove(i), dm[i].id) is None,
        forall|d: u64|
            d != dm[i].id ==> #[trigger] docmap_lookup(dm.remove(i), d) == docmap_lookup(dm, d),
        forall|a: int, b: int|
            0 <= a < b < dm.remove(i).len() ==> (#[trigger] dm.remove(i)[a]).id != (
            #[trigger] dm.remove(i)[b]).id,
{
    let r = dm.remove(i);
    assert forall|a: int, b: int| 0 <= a < b < r.len() implies (#[trigger] r[a]).id != (
    #[trigger] r[b]).id by {
        let ra = if a < i {
            a
        } else {
            a + 1
        };
        let rb = if b < i {
            b
        } else {
            b + 1
        };
        assert(r[a] == dm[ra] && r[b] == dm[rb]);
    }
    assert forall|j: int| 0 <= j < r.len() implies (#[trigger] r[j]).id != dm[i].id by {
        let rj = if j < i {
            j
        } else {
            j + 1
        };
        assert(r[j] == dm[rj]);
    }
    lemma_docmap_absent(r, dm[i].id);
    assert forall|d: u64| d != dm[i].id implies #[trigger] docmap_lookup(r, d) == docmap_lookup(
        dm,
        d,
    ) by {
        if exists|j: int| 0 <= j < dm.len() && dm[j].id == d {
            let j = choose|j: int| 0 <= j < dm.len() && dm[j].id == d;
            lemma_docmap_present(dm, j);
            let rj = if j < i {
                j
            } else {
                j - 1
            };
            assert(r[rj] == dm[j]);
            lemma_docmap_present(r, rj);
        } else {
            lemma_docmap_absent(dm, d);
            assert forall|j: int| 0 <= j < r.len() implies (#[trigger] r[j]).id != d by {
                let rj = if j < i {
                    j
                } else {
                    j + 1
                };
                assert(r[j] == dm[rj]);
            }
            lemma_docmap_absent(r, d);
        }
    }
}

/// Replacing a record in place changes `docmap_lookup` only for its
/// document, provided the id is kept.
proof fn lemma_docmap_update(dm: Seq<DocumentKeysView>, i: int, nv: DocumentKeysView)
    requires
        0 <= i < dm.len(),
        nv.id == dm[i].id,
        forall|a: int, b: int|
            0 <= a < b < dm.len() ==> (#[trigger] dm[a]).id != (#[trigger] dm[b]).id,
    ensures
        docmap_lookup(dm.update(i, nv), nv.id) == Some(nv.keys),
        forall|d: u64|
            d != nv.id ==> #[trigger] docmap_lookup(dm.update(i, nv), d) == docmap_lookup(dm, d),
        forall|a: int, b: int|
            0 <= a < b < dm.update(i, nv).len() ==> (#[trigger] dm.update(i, nv)[a]).id != (
            #[trigger] dm.update(i, nv)[b]).id,
{
    let r = dm.update(i, nv);
    assert forall|a: int, b: int| 0 <= a < b < r.len() implies (#[trigger] r[a]).id != (
    #[trigger] r[b]).id by {
        assert(r[a].id == dm[a].id && r[b].id == dm[b].id);
    }
    lemma_docmap_present(r, i);
    assert forall|d: u64| d != nv.id implies #[trigger] docmap_lookup(r, d) == docmap_lookup(
        dm,
        d,
    ) by {
        if exists|j: int| 0 <= j < dm.len() && dm[j].id == d {
            let j = choose|j: int| 0 <= j < dm.len() && dm[j].id == d;
            lemma_docmap_present(dm, j);
            assert(r[j] == dm[j]);
            lemma_docmap_present(r, j);
        } else {
            lemma_docmap_absent(dm, d);
            assert forall|j: int| 0 <= j < r.len() implies (#[trigger] r[j]).id != d by {
                assert(r[j].id == dm[j].id);
            }
            lemma_docmap_absent(r, d);
        }
    }
}

/// Appending a record for a new document changes `docmap_lookup` only
/// for that document.
proof fn lemma_docmap_push(dm: Seq<DocumentKeysView>, nv: DocumentKeysView)
    requires
        forall|j: int| 0 <= j < dm.len() ==> (#[trigger] dm[j]).id != nv.id,
        forall|a: int, b: int|
            0 <= a < b < dm.len() ==> (#[trigger] dm[a]).id != (#[trigger] dm[b]).id,
    ensures
        docmap_lookup(dm.push(nv), nv.id) == Some(nv.keys),
        forall|d: u64|
            d != nv.id ==> #[trigger] docmap_lookup(dm.push(nv), d) == docmap_lookup(dm, d),
        forall|a: int, b: int|
            0 <= a < b < dm.push(nv).len() ==> (#[trigger] dm.push(nv)[a]).id != (
            #[trigger] dm.push(nv)[b]).id,
{
    let r = dm.push(nv);
    assert forall|a: int, b: int| 0 <= a < b < r.len() implies (#[trigger] r[a]).id != (
    #[trigger] r[b]).id by {
        if b < r.len() - 1 {
            assert(r[a] == dm[a] && r[b] == dm[b]);
        } else {
            assert(r[b] == nv && r[a] == dm[a]);
        }
    }
    lemma_docmap_present(r, r.len() - 1);
    assert forall|d: u64| d != nv.id implies #[trigger] docmap_lookup(r, d) == docmap_lookup(
        dm,
        d,
    ) by {
        if exists|j: int| 0 <= j < dm.len() && dm[j].id == d {
            let j = choose|j: int| 0 <= j < dm.len() && dm[j].id == d;
            lemma_docmap_present(dm, j);
            assert(r[j] == dm[j]);
            lemma_docmap_present(r, j);
        } else {
            lemma_docmap_absent(dm, d);
            assert forall|j: int| 0 <= j < r.len() implies (#[trigger] r[j]).id != d by {
                if j < r.len() - 1 {
                    assert(r[j] == dm[j]);
                }
            }
            lemma_docmap_absent(r, d);
        }
    }
}


/// Whether document `d`'s rows in the view agree with what the map
/// function emits for the document's current contents (nothing, when
/// the document does not exist).
pub open spec fn doc_synced<V: ViewSchema>(
    schema: &V,
    view: ViewState,
    coll: CollectionModel,
    d: u64,
) -> bool {
    if coll.docs.contains_key(d) {
        contribution(view.rows(), d).to_multiset() == schema.map_spec(
            d,
            coll.docs[d].contents,
        ).to_multiset()
    } else {
        contribution(view.rows(), d).to_multiset() == Seq::<(Seq<u8>, Seq<u8>)>::empty().to_multiset()
    }
}

/// The pairs the map function emits for document `d`'s current
/// contents; a document that does not exist emits nothing.
pub open spec fn mapped_pairs<V: ViewSchema>(schema: &V, cm: CollectionModel, d: u64) -> Seq<
    (Seq<u8>, Seq<u8>),
> {
    if cm.docs.contains_key(d) {
        schema.map_spec(d, cm.docs[d].contents)
    } else {
        Seq::empty()
    }
}

/// The rows after the mapper consumes the stale set front to back:
/// each stale document's old rows are removed and its current mapping
/// is inserted, pair by pair, behind the rows already carrying the key.
pub open spec fn refresh_rows<V: ViewSchema>(
    schema: &V,
    rows: Seq<ViewEntryView>,
    inv: Seq<u64>,
    cm: CollectionModel,
) -> Seq<ViewEntryView>
    decreases inv.len(),
{
    if inv.len() == 0 {
        rows
    } else {
        refresh_rows(
            schema,
            apply_doc_rows(
                rows.filter(keeps_others(inv[0])),
                inv[0],
                mapped_pairs(schema, cm, inv[0]),
            ),
            inv.drop_first(),
            cm,
        )
    }
}

/// The view invariant between mapper runs: every document that is not
/// marked stale is correctly mapped.
pub open spec fn view_in_sync<V: ViewSchema>(schema: &V, view: ViewState, coll: CollectionModel) -> bool {
    forall|d: u64| !view.invalidated@.contains(d) ==> doc_synced(schema, view, coll, d)
}

/// A fully fresh view: nothing is stale, and every document of the
/// collection is correctly mapped -- the index holds exactly the union
/// over all documents of the map function's output.
pub open spec fn view_fresh<V: ViewSchema>(schema: &V, view: ViewState, coll: CollectionModel) -> bool {
    &&& view.invalidated@.len() == 0
    &&& forall|d: u64| doc_synced(schema, view, coll, d)
}

impl Database {
    /// Runs the mapper for one view to completion: consumes the
    /// invalidated set, rewriting each stale document's rows from the
    /// map function (removing them when the document is gone). Running
    /// it twice is a no-op: with nothing stale, nothing changes.
    ///
    /// This is where the mapper-completeness law lives: if the view was
    /// in sync apart from its stale set, afterwards it is fresh -- its
    /// rows are exactly the union over all documents of `map`.
    pub fn refresh_view<V: ViewSchema>(&mut self, schema: &V, view_index: usize)
        requires
            old(self).wf(),
            view_index < old(self).views@.len(),
            has_collection(old(self).models(), old(self).views@[view_index as int].name@.collection),
        ensures
            final(self).wf(),
            final(self).name == old(self).name,
            final(self).collections == old(self).collections,
            final(self).transactions == old(self).transactions,
            final(self).kv_wasted == old(self).kv_wasted,
            final(self).views@.len() == old(self).views@.len(),
            forall|w: int|
                0 <= w < final(self).views@.len() && w != view_index ==> #[trigger] final(self).views@[w]
                    == old(self).views@[w],
            final(self).views@[view_index as int].invalidated@.len() == 0,
            final(self).views@[view_index as int].name == old(self).views@[view_index as int].name,
            final(self).views@[view_index as int].version == old(self).views@[view_index as int].version,
            final(self).views@[view_index as int].rows() == refresh_rows(
                schema,
                old(self).views@[view_index as int].rows(),
                old(self).views@[view_index as int].invalidated@,
                old(self).models()[collection_index(
                    old(self).models(),
                    old(self).views@[view_index as int].name@.collection,
                )],
            ),
            old(self).views@[view_index as int].invalidated@.len() == 0 ==> final(self).views@[view_index as int]
                == old(self).views@[view_index as int],
            forall|d: u64|
                old(self).views@[view_index as int].invalidated@.contains(d) ==> doc_synced(
                    schema,
                    final(self).views@[view_index as int],
                    old(self).models()[collection_index(
                        old(self).models(),
                        old(self).views@[view_index as int].name@.collection,
                    )],
                    d,
                ),
            forall|d: u64|
                !old(self).views@[view_index as int].invalidated@.contains(d)
                    ==> #[trigger] contribution(final(self).views@[view_index as int].rows(), d)
                    == contribution(old(self).views@[view_index as int].rows(), d),
            view_in_sync(
                schema,
                old(self).views@[view_index as int],
                old(self).models()[collection_index(
                    old(self).models(),
                    old(self).views@[view_index as int].name@.collection,
                )],
            ) ==> view_fresh(
                schema,
                final(self).views@[view_index as int],
                old(self).models()[collection_index(
                    old(self).models(),
                    old(self).views@[view_index as int].name@.collection,
                )],
            ),
    {
        let vi = view_index;
        let ghost old_view = self.views@[vi as int];
        let ghost old_inv = old_view.invalidated@;
        let coll_name = self.views[vi].name.collection.duplicate();
        let ci = match self.collection_index_of(&coll_name) {
            Some(ci) => ci,
            None => {
                proof {
                    assert(coll_name@ == old(self).views@[vi as int].name@.collection);
                    assert(false);
                }
                return ;
            },
        };
        let ghost cm = self.models()[ci as int];
        proof {
            assert(cm == old(self).models()[collection_index(
                old(self).models(),
                old_view.name@.collection,
            )]);
        }
        while self.views[vi].invalidated.len() > 0
            invariant
                old(self).wf(),
                vi < self.views@.len(),
                ci < self.collections@.len(),
                self.views@.len() == old(self).views@.len(),
                self.name == old(self).name,
                self.collections == old(self).collections,
                self.transactions == old(self).transactions,
                self.kv_wasted == old(self).kv_wasted,
                cm == self.models()[ci as int],
                old_view == old(self).views@[vi as int],
                old_inv == old_view.invalidated@,
                forall|w: int|
                    0 <= w < self.views@.len() && w != vi ==> #[trigger] self.views@[w] == old(self).views@[w],
                self.views@[vi as int].wf(),
                self.views@[vi as int].name == old_view.name,
                self.views@[vi as int].version == old_view.version,
                self.views@[vi as int].invalidated@ == old_inv.skip(
                    old_inv.len() - self.views@[vi as int].invalidated@.len(),
                ),
                self.views@[vi as int].invalidated@.len() <= old_inv.len(),
                old_inv.len() == old_inv.len() && (self.views@[vi as int].invalidated@.len()
                    == old_inv.len() ==> self.views@[vi as int] == old_view),
                forall|d: u64|
                    old_inv.contains(d) && !self.views@[vi as int].invalidated@.contains(d)
                        ==> doc_synced(schema, self.views@[vi as int], cm, d),
                forall|d: u64|
                    !old_inv.contains(d) ==> #[trigger] contribution(
                        self.views@[vi as int].rows(),
                        d,
                    ) == contribution(old_view.rows(), d),
                forall|d: u64|
                    !old_inv.contains(d) ==> #[trigger] docmap_lookup(
                        self.views@[vi as int].docmap(),
                        d,
                    ) == docmap_lookup(old_view.docmap(), d),
                refresh_rows(
                    schema,
                    self.views@[vi as int].rows(),
                    self.views@[vi as int].invalidated@,
                    cm,
                ) == refresh_rows(schema, old_view.rows(), old_inv, cm),
            decreases self.views@[vi as int].invalidated@.len(),
        {
            let ghost inv_before = self.views@[vi as int].invalidated@;
            let d = self.views[vi].invalidated[0];
            proof {
                assert(inv_before[0] == d);
                assert(old_inv.contains(d)) by {
                    assert(inv_before == old_inv.skip(old_inv.len() - inv_before.len()));
                    assert(old_inv[old_inv.len() - inv_before.len()] == inv_before[0]);
                }
            }
            let mappings: Vec<(Vec<u8>, Vec<u8>)> = match self.collections[ci].get(d) {
                Some(document) => schema.map(d, &document.contents),
                None => {
                    let empty: Vec<(Vec<u8>, Vec<u8>)> = Vec::new();
                    proof {
                        assert(pairs_view(empty@) =~= Seq::<(Seq<u8>, Seq<u8>)>::empty());
                    }
                    empty
                },
            };
            let ghost views_before = self.views@;
            let view_ref = crate::store::element_mut(&mut self.views, vi);
            view_ref.invalidated.remove(0);
            proof {
                assert(view_ref.invalidated@ =~= inv_before.drop_first());
                assert(view_ref.wf()) by {
                    assert(views_before[vi as int].wf());
                    assert(rows_sorted(view_ref.rows()));
                    assert forall|a: int, b: int|
                        0 <= a < b < view_ref.invalidated@.len() implies #[trigger] view_ref.invalidated@[a]
                        != #[trigger] view_ref.invalidated@[b] by {
                        assert(view_ref.invalidated@[a] == inv_before[a + 1]);
                        assert(view_ref.invalidated@[b] == inv_before[b + 1]);
                    }
                }
            }
            view_ref.update_document_mapping(d, &mappings);
            proof {
                assert(self.views@ == views_before.update(vi as int, self.views@[vi as int]));
                assert forall|d2: u64|
                    !old_inv.contains(d2) implies #[trigger] docmap_lookup(
                    self.views@[vi as int].docmap(),
                    d2,
                ) == docmap_lookup(old_view.docmap(), d2) by {
                    assert(old_inv.contains(d));
                    assert(d2 != d);
                    assert(docmap_lookup(self.views@[vi as int].docmap(), d2) == docmap_lookup(
                        views_before[vi as int].docmap(),
                        d2,
                    ));
                }
                assert forall|d2: u64|
                    !old_inv.contains(d2) implies #[trigger] contribution(
                    self.views@[vi as int].rows(),
                    d2,
                ) == contribution(old_view.rows(), d2) by {
                    assert(old_inv.contains(d));
                    assert(d2 != d);
                    assert(contribution(self.views@[vi as int].rows(), d2) == contribution(
                        views_before[vi as int].rows(),
                        d2,
                    ));
                }
                assert(self.views@[vi as int].invalidated@ =~= old_inv.skip(
                    old_inv.len() - self.views@[vi as int].invalidated@.len(),
                ));
                // One mapper step is one unfolding of the row fold.
                assert(pairs_view(mappings@) == mapped_pairs(schema, cm, d)) by {
                    if cm.docs.contains_key(d) {
                        assert(pairs_view(mappings@) == schema.map_spec(d, cm.docs[d].contents));
                    } else {
                        assert(pairs_view(mappings@) =~= Seq::<(Seq<u8>, Seq<u8>)>::empty());
                    }
                }
                assert(self.views@[vi as int].rows() == apply_doc_rows(
                    views_before[vi as int].rows().filter(keeps_others(d)),
                    d,
                    mapped_pairs(schema, cm, d),
                ));
                assert(self.views@[vi as int].invalidated@ == inv_before.drop_first());
                assert(refresh_rows(schema, views_before[vi as int].rows(), inv_before, cm)
                    == refresh_rows(
                    schema,
                    self.views@[vi as int].rows(),
                    self.views@[vi as int].invalidated@,
                    cm,
                ));
                // The processed document is now synced, and every other
                // document's rows are untouched.
                assert(doc_synced(schema, self.views@[vi as int], cm, d)) by {
                    if cm.docs.contains_key(d) {
                        assert(pairs_view(mappings@).to_multiset() == schema.map_spec(
                            d,
                            cm.docs[d].contents,
                        ).to_multiset());
                    }
                }
                assert forall|d2: u64|
                    old_inv.contains(d2) && !self.views@[vi as int].invalidated@.contains(d2)
                        implies doc_synced(schema, self.views@[vi as int], cm, d2) by {
                    if d2 != d {
                        if !inv_before.contains(d2) {
                            assert(doc_synced(schema, views_before[vi as int], cm, d2));
                            assert(contribution(self.views@[vi as int].rows(), d2) == contribution(
                                views_before[vi as int].rows(),
                                d2,
                            ));
                        } else {
                            // Still stale: it remains in the shorter
                            // suffix unless it was the consumed element.
                            let j = choose|j: int|
                                0 <= j < inv_before.len() && inv_before[j] == d2;
                            assert(views_before[vi as int].wf());
                            assert(j > 0) by {
                                if j == 0 {
                                    assert(inv_before[j] == d);
                                }
                            }
                            assert(self.views@[vi as int].invalidated@[j - 1] == inv_before[j]);
                            assert(self.views@[vi as int].invalidated@.contains(d2));
                        }
                    }
                }
            }
        }
        proof {
            let fview = self.views@[vi as int];
            assert(fview.invalidated@.len() == 0);
            if old_inv.len() == 0 {
                assert(fview == old_view);
            }
            assert forall|d: u64|
                old_inv.contains(d) implies doc_synced(schema, fview, cm, d) by {
                assert(!fview.invalidated@.contains(d));
            }
            if view_in_sync(schema, old_view, cm) {
                assert forall|d: u64| true implies doc_synced(schema, fview, cm, d) by {
                    if old_inv.contains(d) {
                    } else {
                        assert(doc_synced(schema, old_view, cm, d));
                        assert(contribution(fview.rows(), d) == contribution(old_view.rows(), d));
                    }
                }
            }
        }
    }

    /// The integrity scan run at database open: when the stored view
    /// version differs from the schema's declared version, the stored
    /// index is discarded and every live document of the collection is
    /// marked stale, so the mapper rebuilds the view from scratch; a
    /// matching version is left untouched.
    pub fn check_view_integrity<V: ViewSchema>(&mut self, schema: &V, view_index: usize)
        requires
            old(self).wf(),
            view_index < old(self).views@.len(),
            has_collection(old(self).models(), old(self).views@[view_index as int].name@.collection),
        ensures
            final(self).wf(),
            final(self).name == old(self).name,
            final(self).collections == old(self).collections,
            final(self).transactions == old(self).transactions,
            final(self).kv_wasted == old(self).kv_wasted,
            final(self).views@.len() == old(self).views@.len(),
            forall|w: int|
                0 <= w < final(self).views@.len() && w != view_index ==> #[trigger] final(self).views@[w]
                    == old(self).views@[w],
            old(self).views@[view_index as int].version == schema.version_spec() ==> final(self).views@[view_index as int]
                == old(self).views@[view_index as int],
            final(self).views@[view_index as int].version == schema.version_spec(),
            final(self).views@[view_index as int].name@ == old(self).views@[view_index as int].name@,
            old(self).views@[view_index as int].version != schema.version_spec() ==> {
                let fview = final(self).views@[view_index as int];
                let cm = old(self).models()[collection_index(
                    old(self).models(),
                    old(self).views@[view_index as int].name@.collection,
                )];
                &&& fview.rows() == Seq::<ViewEntryView>::empty()
                &&& forall|d: u64|
                    fview.invalidated@.contains(d) <==> #[trigger] cm.docs.contains_key(d)
                &&& view_in_sync(schema, fview, cm)
            },
    {
        let vi = view_index;
        let version = schema.version();
        if self.views[vi].version == version {
            return ;
        }
        let coll_name = self.views[vi].name.collection.duplicate();
        let ci = match self.collection_index_of(&coll_name) {
            Some(ci) => ci,
            None => {
                proof {
                    assert(false);
                }
                return ;
            },
        };
        let ghost cm = self.models()[ci as int];
        let name = self.views[vi].name.duplicate();
        let mut fresh = ViewState::new(name, version);
        // Mark every live document of the collection stale.
        let coll = &self.collections[ci];
        let mut k: usize = 0;
        let mut ids: Vec<u64> = Vec::new();
        while k < coll.documents.len()
            invariant
                0 <= k <= coll.documents@.len(),
                coll == &self.collections@[ci as int],
                coll.wf(),
                ids@.len() == k,
                forall|j: int| 0 <= j < k ==> #[trigger] ids@[j] == coll.doc_seq()[j].id,
            decreases coll.documents@.len() - k,
        {
            ids.push(coll.documents[k].id);
            k += 1;
        }
        fresh.invalidated = ids;
        proof {
            assert(fresh.wf()) by {
                assert forall|a: int, b: int|
                    0 <= a < b < fresh.invalidated@.len() implies #[trigger] fresh.invalidated@[a]
                    != #[trigger] fresh.invalidated@[b] by {
                    assert(fresh.invalidated@[a] == coll.doc_seq()[a].id);
                    assert(fresh.invalidated@[b] == coll.doc_seq()[b].id);
                    assert(coll.doc_seq()[a].id < coll.doc_seq()[b].id);
                }
            }
        }
        let ghost fresh_v = fresh;
        let ghost views_before = self.views@;
        self.views.set(vi, fresh);
        proof {
            assert(self.views@ == views_before.update(vi as int, fresh_v));
            let fview = self.views@[vi as int];
            assert forall|d: u64|
                fview.invalidated@.contains(d) <==> #[trigger] cm.docs.contains_key(d) by {
                if fview.invalidated@.contains(d) {
                    let j = choose|j: int|
                        0 <= j < fview.invalidated@.len() && fview.invalidated@[j] == d;
                    assert(coll.doc_seq()[j].id == d);
                    crate::store::lemma_docs_map_index_pub(coll.doc_seq(), j);
                } else {
                    if cm.docs.contains_key(d) {
                        let j = crate::store::lemma_docs_map_key_index(coll.doc_seq(), d);
                        assert(fview.invalidated@[j] == d);
                    }
                }
            }
            assert forall|d: u64|
                !fview.invalidated@.contains(d) implies doc_synced(schema, fview, cm, d) by {
                assert(fview.rows() =~= Seq::<ViewEntryView>::empty());
                assert(Seq::<ViewEntryView>::empty().filter(
                    |r: ViewEntryView| r.source == d,
                ) =~= Seq::<ViewEntryView>::empty()) by {
                    reveal(Seq::filter);
                }
                assert(contribution(fview.rows(), d) =~= Seq::<(Seq<u8>, Seq<u8>)>::empty());
            }
        }
    }
}


/// Whether a byte key falls inside a byte-key range, in the
/// lexicographic order.
pub open spec fn byte_range_contains(r: Range<Vec<u8>>, k: Seq<u8>) -> bool {
    &&& match r.start {
        Bound::Unbounded => true,
        Bound::Included(s) => lex_le(s@, k),
        Bound::Excluded(s) => lex_lt(s@, k),
    }
    &&& match r.end {
        Bound::Unbounded => true,
        Bound::Included(e) => lex_le(k, e@),
        Bound::Excluded(e) => lex_lt(k, e@),
    }
}

/// Whether a key filter accepts a byte key; an absent filter accepts
/// every key.
pub open spec fn filter_accepts(filter: Option<QueryKey<Vec<u8>>>, k: Seq<u8>) -> bool {
    match filter {
        None => true,
        Some(QueryKey::Matches(b)) => k == b@,
        Some(QueryKey::Range(r)) => byte_range_contains(r, k),
        Some(QueryKey::Multiple(bs)) => exists|i: int| 0 <= i < bs.len() && k == #[trigger] bs[i]@,
    }
}

/// The predicate selecting the index rows a key filter accepts.
pub open spec fn row_accepted(filter: Option<QueryKey<Vec<u8>>>) -> spec_fn(ViewEntryView) -> bool {
    |r: ViewEntryView| filter_accepts(filter, r.key)
}

/// Compares two byte keys for lexicographic order-or-equality.
fn key_le(a: &Vec<u8>, b: &Vec<u8>) -> (r: bool)
    ensures
        r == lex_le(a@, b@),
{
    match lex_compare(a, b) {
        KeyOrdering::Greater => false,
        _ => true,
    }
}

/// Whether the filter accepts the key, executably.
fn filter_accepts_exec(filter: Option<&QueryKey<Vec<u8>>>, k: &Vec<u8>) -> (r: bool)
    ensures
        r == filter_accepts(
            match filter {
                Some(f) => Some(*f),
                None => None,
            },
            k@,
        ),
{
    match filter {
        None => true,
        Some(QueryKey::Matches(b)) => crate::document::bytes_equal(k, b),
        Some(QueryKey::Range(range)) => {
            let start_ok = match &range.start {
                Bound::Unbounded => true,
                Bound::Included(st) => key_le(st, k),
                Bound::Excluded(st) => key_lt(st, k),
            };
            let end_ok = match &range.end {
                Bound::Unbounded => true,
                Bound::Included(en) => key_le(k, en),
                Bound::Excluded(en) => key_lt(k, en),
            };
            start_ok && end_ok
        },
        Some(QueryKey::Multiple(bs)) => {
            let mut i: usize = 0;
            let mut found = false;
            while i < bs.len() && !found
                invariant
                    0 <= i <= bs@.len(),
                    found ==> i < bs@.len() && k@ == bs@[i as int]@,
                    !found ==> forall|j: int| 0 <= j < i ==> k@ != #[trigger] bs@[j]@,
                decreases bs@.len() - i, (if found {
                    0int
                } else {
                    1int
                }),
            {
                if crate::document::bytes_equal(k, &bs[i]) {
                    found = true;
                } else {
                    i += 1;
                }
            }
            found
        },
    }
}

/// What a view query returns: the accepted rows, in key order or its
/// reverse, truncated to the limit.
pub open spec fn query_spec(
    rows: Seq<ViewEntryView>,
    filter: Option<QueryKey<Vec<u8>>>,
    order: Sort,
    limit: Option<usize>,
) -> Seq<ViewEntryView> {
    let matching = rows.filter(row_accepted(filter));
    let ordered = match order {
        Sort::Ascending => matching,
        Sort::Descending => matching.reverse(),
    };
    ordered.take(crate::store::clipped(ordered.len(), limit))
}

impl Database {
    /// Queries a view's current index contents: the rows the key filter
    /// accepts, in key order (or its reverse), up to `limit` of them.
    /// The caller chooses freshness separately: under `UpdateBefore` the
    /// mapper runs to completion first.
    pub fn query_view(
        &self,
        view_index: usize,
        filter: Option<&QueryKey<Vec<u8>>>,
        order: Sort,
        limit: Option<usize>,
    ) -> (r: Vec<ViewEntry>)
        requires
            self.wf(),
            view_index < self.views@.len(),
        ensures
            entries_view(r@) == query_spec(
                self.views@[view_index as int].rows(),
                match filter {
                    Some(f) => Some(*f),
                    None => None,
                },
                order,
                limit,
            ),
    {
        let view = &self.views[view_index];
        let ghost rows = view.rows();
        let ghost f = match filter {
            Some(f) => Some(*f),
            None => None,
        };
        let ghost pred = row_accepted(f);
        let mut matching: Vec<ViewEntry> = Vec::new();
        let mut i: usize = 0;
        proof {
            assert(rows.take(0) =~= Seq::<ViewEntryView>::empty());
            assert(entries_view(matching@) =~= rows.take(0).filter(pred));
        }
        while i < view.entries.len()
            invariant
                0 <= i <= view.entries@.len(),
                view == &self.views@[view_index as int],
                rows == view.rows(),
                pred == row_accepted(f),
                f == match filter {
                    Some(ff) => Some(*ff),
                    None => None,
                },
                entries_view(matching@) == rows.take(i as int).filter(pred),
            decreases view.entries@.len() - i,
        {
            proof {
                assert(rows.take(i + 1) =~= rows.take(i as int) + seq![rows[i as int]]);
                Seq::filter_distributes_over_add(rows.take(i as int), seq![rows[i as int]], pred);
                lemma_filter_singleton(rows[i as int], pred);
            }
            let ghost matching_before = matching@;
            if filter_accepts_exec(filter, &view.entries[i].key) {
                assert(pred(rows[i as int]));
                matching.push(view.entries[i].duplicate());
                proof {
                    assert(entries_view(matching@) =~= entries_view(matching_before).push(
                        matching@.last()@,
                    ));
                    assert(entries_view(matching_before).push(rows[i as int]) =~= rows.take(
                        i + 1,
                    ).filter(pred));
                }
            } else {
                assert(!pred(rows[i as int]));
                proof {
                    assert(rows.take(i + 1).filter(pred) =~= rows.take(i as int).filter(pred));
                }
            }
            i += 1;
        }
        proof {
            assert(rows.take(rows.len() as int) =~= rows);
        }
        let mut ordered: Vec<ViewEntry> = matching;
        match order {
            Sort::Ascending => {},
            Sort::Descending => {
                let ghost asc = ordered@;
                let mut reversed: Vec<ViewEntry> = Vec::new();
                let mut k: usize = ordered.len();
                while k > 0
                    invariant
                        0 <= k <= asc.len(),
                        ordered@ == asc,
                        reversed@.len() == asc.len() - k,
                        forall|j: int|
                            0 <= j < reversed@.len() ==> #[trigger] reversed@[j]@ == asc[asc.len()
                                - 1 - j]@,
                    decreases k,
                {
                    k -= 1;
                    reversed.push(ordered[k].duplicate());
                }
                proof {
                    assert(entries_view(reversed@) =~= entries_view(asc).reverse()) by {
                        assert forall|j: int|
                            0 <= j < reversed@.len() implies entries_view(reversed@)[j]
                            == entries_view(asc).reverse()[j] by {
                            assert(reversed@[j]@ == asc[asc.len() - 1 - j]@);
                            assert(entries_view(asc)[asc.len() - 1 - j] == asc[asc.len() - 1 - j]@);
                        }
                    }
                }
                ordered = reversed;
            },
        }
        let keep_len: usize = match limit {
            Some(l) => {
                if l < ordered.len() {
                    l
                } else {
                    ordered.len()
                }
            },
            None => ordered.len(),
        };
        let mut out: Vec<ViewEntry> = Vec::new();
        let mut t: usize = 0;
        while t < keep_len
            invariant
                0 <= t <= keep_len <= ordered@.len(),
                out@.len() == t,
                forall|j: int| 0 <= j < t ==> #[trigger] out@[j]@ == ordered@[j]@,
            decreases keep_len - t,
        {
            out.push(ordered[t].duplicate());
            t += 1;
        }
        proof {
            let matching_s = rows.filter(pred);
            let ordered_s = match order {
                Sort::Ascending => matching_s,
                Sort::Descending => matching_s.reverse(),
            };
            assert(entries_view(ordered@) == ordered_s);
            assert(entries_view(out@) =~= ordered_s.take(
                crate::store::clipped(ordered_s.len(), limit),
            )) by {
                assert forall|j: int|
                    0 <= j < out@.len() implies entries_view(out@)[j] == ordered_s.take(
                    crate::store::clipped(ordered_s.len(), limit),
                )[j] by {
                    assert(out@[j]@ == ordered@[j]@);
                    assert(entries_view(ordered@)[j] == ordered@[j]@);
                }
            }
        }
        out
    }

    /// Reduces the rows the key filter accepts with one call of the
    /// view's reduce function.
    pub fn reduce_view<V: ViewSchema>(
        &self,
        schema: &V,
        view_index: usize,
        filter: Option<&QueryKey<Vec<u8>>>,
    ) -> (r: Vec<u8>)
        requires
            self.wf(),
            view_index < self.views@.len(),
        ensures
            r@ == schema.reduce_spec(
                row_pairs(
                    query_spec(
                        self.views@[view_index as int].rows(),
                        match filter {
                            Some(f) => Some(*f),
                            None => None,
                        },
                        Sort::Ascending,
                        None,
                    ),
                ),
                false,
            ),
    {
        let rows = self.query_view(view_index, filter, Sort::Ascending, None);
        let mut pairs: Vec<(Vec<u8>, Vec<u8>)> = Vec::new();
        let mut i: usize = 0;
        proof {
            assert(pairs_view(pairs@) =~= row_pairs(entries_view(rows@).take(0)));
        }
        while i < rows.len()
            invariant
                0 <= i <= rows@.len(),
                pairs_view(pairs@) == row_pairs(entries_view(rows@).take(i as int)),
            decreases rows@.len() - i,
        {
            let ghost pairs_before = pairs@;
            pairs.push((copy_bytes(&rows[i].key), copy_bytes(&rows[i].value)));
            proof {
                assert(pairs_view(pairs@) =~= pairs_view(pairs_before).push(
                    (rows@[i as int]@.key, rows@[i as int]@.value),
                ));
                assert(row_pairs(entries_view(rows@).take(i + 1)) =~= row_pairs(
                    entries_view(rows@).take(i as int),
                ).push((rows@[i as int]@.key, rows@[i as int]@.value)));
            }
            i += 1;
        }
        proof {
            assert(entries_view(rows@).take(entries_view(rows@).len() as int) =~= entries_view(
                rows@,
            ));
            assert(query_spec(
                self.views@[view_index as int].rows(),
                match filter {
                    Some(f) => Some(*f),
                    None => None,
                },
                Sort::Ascending,
                None,
            ).take(entries_view(rows@).len() as int) =~= entries_view(rows@));
        }
        schema.reduce(&pairs, false)
    }
}



/// The rows carrying one key.
pub open spec fn rows_with_key(k: Seq<u8>) -> spec_fn(ViewEntryView) -> bool {
    |r: ViewEntryView| r.key == k
}

/// The distinct keys of a key-sorted row list, in order.
pub open spec fn distinct_keys(rows: Seq<ViewEntryView>) -> Seq<Seq<u8>>
    decreases rows.len(),
{
    if rows.len() == 0 {
        Seq::empty()
    } else {
        let prev = distinct_keys(rows.drop_last());
        if prev.len() > 0 && prev.last() == rows.last().key {
            prev
        } else {
            prev.push(rows.last().key)
        }
    }
}

impl Database {
    /// Reduces the accepted entries grouped by distinct key: one reduce
    /// call per key, over exactly that key's rows, keys in ascending
    /// order.
    pub fn reduce_grouped_view<V: ViewSchema>(
        &self,
        schema: &V,
        view_index: usize,
        filter: Option<&QueryKey<Vec<u8>>>,
    ) -> (r: Vec<(Vec<u8>, Vec<u8>)>)
        requires
            self.wf(),
            view_index < self.views@.len(),
        ensures
            ({
                let filtered = query_spec(
                    self.views@[view_index as int].rows(),
                    match filter {
                        Some(f) => Some(*f),
                        None => None,
                    },
                    Sort::Ascending,
                    None,
                );
                let keys = distinct_keys(filtered);
                &&& pairs_view(r@).len() == keys.len()
                &&& forall|g: int|
                    0 <= g < keys.len() ==> #[trigger] pairs_view(r@)[g] == (
                        keys[g],
                        schema.reduce_spec(
                            row_pairs(filtered.filter(rows_with_key(keys[g]))),
                            false,
                        ),
                    )
            }),
    {
        let rows = self.query_view(view_index, filter, Sort::Ascending, None);
        let ghost fr = entries_view(rows@);
        proof {
            let all = self.views@[view_index as int].rows();
            let ghost f = match filter {
                Some(ff) => Some(*ff),
                None => None,
            };
            assert(fr == all.filter(row_accepted(f)));
            lemma_filter_sorted(all, row_accepted(f));
            assert(fr.take(fr.len() as int) =~= fr);
        }
        let mut out: Vec<(Vec<u8>, Vec<u8>)> = Vec::new();
        let mut current: Vec<(Vec<u8>, Vec<u8>)> = Vec::new();
        let mut current_key: Option<Vec<u8>> = None;
        let mut i: usize = 0;
        proof {
            assert(fr.take(0) =~= Seq::<ViewEntryView>::empty());
            assert(distinct_keys(fr.take(0)) =~= Seq::<Seq<u8>>::empty());
            assert(pairs_view(out@) =~= Seq::<(Seq<u8>, Seq<u8>)>::empty());
        }
        while i < rows.len()
            invariant
                0 <= i <= rows@.len(),
                fr == entries_view(rows@),
                rows_sorted(fr),
                match current_key {
                    None => {
                        &&& i == 0
                        &&& current@.len() == 0
                        &&& out@.len() == 0
                        &&& distinct_keys(fr.take(i as int)) == Seq::<Seq<u8>>::empty()
                    },
                    Some(ck) => {
                        let processed = fr.take(i as int);
                        let dk = distinct_keys(processed);
                        &&& 0 < i
                        &&& ck@ == fr[i - 1].key
                        &&& dk.len() == out@.len() + 1
                        &&& dk.last() == ck@
                        &&& (forall|g1: int, g2: int|
                            0 <= g1 < g2 < dk.len() ==> lex_lt(#[trigger] dk[g1], #[trigger] dk[g2]))
                        &&& pairs_view(current@) == row_pairs(
                            processed.filter(rows_with_key(ck@)),
                        )
                        &&& forall|g: int|
                            0 <= g < out@.len() ==> #[trigger] pairs_view(out@)[g] == (
                                dk[g],
                                schema.reduce_spec(
                                    row_pairs(processed.filter(rows_with_key(dk[g]))),
                                    false,
                                ),
                            )
                    },
                },
            decreases rows@.len() - i,
        {
            let ghost processed = fr.take(i as int);
            let ghost dk = distinct_keys(processed);
            let ghost row = fr[i as int];
            proof {
                assert(fr.take(i + 1) =~= processed.push(row));
                assert(fr.take(i + 1).drop_last() =~= processed);
                assert(distinct_keys(fr.take(i + 1)) == (if dk.len() > 0 && dk.last() == row.key {
                    dk
                } else {
                    dk.push(row.key)
                }));
            }
            let key_copy = copy_bytes(&rows[i].key);
            let pair = (copy_bytes(&rows[i].key), copy_bytes(&rows[i].value));
            let same_group = match &current_key {
                Some(ck) => crate::document::bytes_equal(ck, &rows[i].key),
                None => false,
            };
            if same_group {
                let ghost ck = match current_key {
                    Some(ref ckv) => ckv@,
                    None => Seq::empty(),
                };
                let ghost current_before = current@;
                current.push(pair);
                proof {
                    assert(row.key == ck);
                    assert(dk.last() == ck);
                    // The group's rows grow by this row; every closed
                    // group is untouched.
                    lemma_group_extend(processed, row, ck);
                    assert(pairs_view(current@) =~= pairs_view(current_before).push(
                        (row.key, row.value),
                    ));
                    assert(row_pairs(processed.push(row).filter(rows_with_key(ck))) =~= row_pairs(
                        processed.filter(rows_with_key(ck)),
                    ).push((row.key, row.value)));
                    assert forall|g: int|
                        0 <= g < out@.len() implies #[trigger] pairs_view(out@)[g] == (
                        distinct_keys(fr.take(i + 1))[g],
                        schema.reduce_spec(
                            row_pairs(
                                fr.take(i + 1).filter(
                                    rows_with_key(distinct_keys(fr.take(i + 1))[g]),
                                ),
                            ),
                            false,
                        ),
                    ) by {
                        assert(distinct_keys(fr.take(i + 1)) == dk);
                        assert(lex_lt(dk[g], dk.last()));
                        crate::key::lemma_lex_lt_asymmetric(dk[g], dk.last());
                        assert(row.key != dk[g]);
                        lemma_group_extend(processed, row, dk[g]);
                        assert(processed.push(row).filter(rows_with_key(dk[g])) == processed.filter(
                            rows_with_key(dk[g]),
                        ));
                    }
                }
            } else {
                // A new group opens; the current one, if any, closes.
                match &current_key {
                    Some(_) => {
                        let ghost ck = match current_key {
                            Some(ref ckv) => ckv@,
                            None => Seq::empty(),
                        };
                        let value = schema.reduce(&current, false);
                        let ghost out_before = out@;
                        let closing = match current_key {
                            Some(ckv) => ckv,
                            None => Vec::new(),
                        };
                        out.push((closing, value));
                        current = Vec::new();
                        current.push(pair);
                        current_key = Some(key_copy);
                        proof {
                            assert(lex_le(fr[i - 1].key, fr[i as int].key));
                            assert(row.key != ck);
                            crate::key::lemma_lex_trichotomy(ck, row.key);
                            assert(lex_lt(ck, row.key));
                            assert(distinct_keys(fr.take(i + 1)) == dk.push(row.key));
                            assert(pairs_view(out@) =~= pairs_view(out_before).push(
                                (
                                    ck,
                                    schema.reduce_spec(
                                        row_pairs(processed.filter(rows_with_key(ck))),
                                        false,
                                    ),
                                ),
                            ));
                            lemma_new_group(processed, row, dk);
                            assert(pairs_view(current@) =~= seq![(row.key, row.value)]);
                            assert forall|g: int|
                                0 <= g < out@.len() implies #[trigger] pairs_view(out@)[g] == (
                                dk.push(row.key)[g],
                                schema.reduce_spec(
                                    row_pairs(
                                        fr.take(i + 1).filter(rows_with_key(dk.push(row.key)[g])),
                                    ),
                                    false,
                                ),
                            ) by {
                                assert(dk.push(row.key)[g] == dk[g]);
                                if g < out_before.len() {
                                    assert(pairs_view(out@)[g] == pairs_view(out_before)[g]);
                                } else {
                                    assert(dk[g] == ck);
                                }
                                assert(lex_lt(dk[g], row.key)) by {
                                    if g < dk.len() - 1 {
                                        assert(lex_lt(dk[g], dk.last()));
                                        crate::key::lemma_lex_lt_trans(dk[g], dk.last(), row.key);
                                    }
                                }
                                crate::key::lemma_lex_lt_asymmetric(dk[g], row.key);
                                lemma_group_extend(processed, row, dk[g]);
                                assert(fr.take(i + 1).filter(rows_with_key(dk[g])) == processed.filter(
                                    rows_with_key(dk[g]),
                                ));
                            }
                            assert forall|g1: int, g2: int|
                                0 <= g1 < g2 < dk.push(row.key).len() implies lex_lt(
                                #[trigger] dk.push(row.key)[g1],
                                #[trigger] dk.push(row.key)[g2],
                            ) by {
                                if g2 < dk.len() {
                                    assert(dk.push(row.key)[g1] == dk[g1]);
                                    assert(dk.push(row.key)[g2] == dk[g2]);
                                } else {
                                    assert(dk.push(row.key)[g1] == dk[g1]);
                                    assert(dk.push(row.key)[g2] == row.key);
                                    if g1 < dk.len() - 1 {
                                        assert(lex_lt(dk[g1], dk.last()));
                                        crate::key::lemma_lex_lt_trans(dk[g1], dk.last(), row.key);
                                    }
                                }
                            }
                        }
                    },
                    None => {
                        current.push(pair);
                        current_key = Some(key_copy);
                        proof {
                            assert(processed =~= Seq::<ViewEntryView>::empty());
                            assert(dk =~= Seq::<Seq<u8>>::empty());
                            assert(distinct_keys(fr.take(i + 1)) == seq![row.key]);
                            lemma_new_group(processed, row, dk);
                            assert(pairs_view(current@) =~= seq![(row.key, row.value)]);
                            assert(row_pairs(fr.take(i + 1).filter(rows_with_key(row.key)))
                                =~= seq![(row.key, row.value)]);
                        }
                    },
                }
            }
            i += 1;
        }
        proof {
            assert(fr.take(fr.len() as int) =~= fr);
        }
        match current_key {
            Some(ckv) => {
                let value = schema.reduce(&current, false);
                let ghost out_before = out@;
                out.push((ckv, value));
                proof {
                    let dk = distinct_keys(fr);
                    assert(pairs_view(out@) =~= pairs_view(out_before).push(
                        pairs_view(out@).last(),
                    ));
                    assert forall|g: int|
                        0 <= g < dk.len() implies #[trigger] pairs_view(out@)[g] == (
                        dk[g],
                        schema.reduce_spec(
                            row_pairs(fr.filter(rows_with_key(dk[g]))),
                            false,
                        ),
                    ) by {
                        if g < dk.len() - 1 {
                            assert(pairs_view(out@)[g] == pairs_view(out_before)[g]);
                        }
                    }
                }
                out
            },
            None => {
                proof {
                    assert(distinct_keys(fr) =~= Seq::<Seq<u8>>::empty());
                }
                out
            },
        }
    }
}

/// Extending a row list extends exactly the matching key's group: the
/// filter for the row's own key gains the row, every other key's filter
/// is untouched.
proof fn lemma_group_extend(rows: Seq<ViewEntryView>, row: ViewEntryView, k: Seq<u8>)
    ensures
        row.key == k ==> rows.push(row).filter(rows_with_key(k)) == rows.filter(
            rows_with_key(k),
        ).push(row),
        row.key != k ==> rows.push(row).filter(rows_with_key(k)) == rows.filter(rows_with_key(k)),
        row.key == k ==> row_pairs(rows.push(row).filter(rows_with_key(k))) == row_pairs(
            rows.filter(rows_with_key(k)),
        ).push((row.key, row.value)),
{
    let pred = rows_with_key(k);
    assert(rows.push(row) =~= rows + seq![row]);
    Seq::filter_distributes_over_add(rows, seq![row], pred);
    lemma_filter_singleton(row, pred);
    if row.key == k {
        assert(rows.filter(pred) + seq![row] =~= rows.filter(pred).push(row));
        assert(row_pairs(rows.filter(pred).push(row)) =~= row_pairs(rows.filter(pred)).push(
            (row.key, row.value),
        ));
    } else {
        assert(rows.filter(pred) + Seq::<ViewEntryView>::empty() =~= rows.filter(pred));
    }
}

/// A freshly opened group holds exactly its first row, provided no
/// earlier row carried the key.
proof fn lemma_new_group(rows: Seq<ViewEntryView>, row: ViewEntryView, dk: Seq<Seq<u8>>)
    requires
        rows_sorted(rows.push(row)),
        dk == distinct_keys(rows),
        forall|g: int| 0 <= g < dk.len() ==> lex_lt(#[trigger] dk[g], row.key) || dk[g] != row.key,
        rows.len() > 0 ==> dk.len() > 0 && dk.last() == rows.last().key && lex_lt(
            dk.last(),
            row.key,
        ) || rows.len() == 0,
    ensures
        rows.len() == 0 || (dk.len() > 0 && lex_lt(dk.last(), row.key)) ==> row_pairs(
            rows.push(row).filter(rows_with_key(row.key)),
        ) == seq![(row.key, row.value)],
{
    let pred = rows_with_key(row.key);
    assert(rows.push(row) =~= rows + seq![row]);
    Seq::filter_distributes_over_add(rows, seq![row], pred);
    lemma_filter_singleton(row, pred);
    if rows.len() == 0 || (dk.len() > 0 && lex_lt(dk.last(), row.key)) {
        assert(rows.filter(pred) =~= Seq::<ViewEntryView>::empty()) by {
            if rows.filter(pred).len() > 0 {
                lemma_filter_membership(rows, pred);
                assert(rows.contains(rows.filter(pred)[0]));
                let m = choose|m: int| 0 <= m < rows.len() && rows[m] == rows.filter(pred)[0];
                Seq::lemma_filter_pred(rows, pred, 0);
                assert(rows[m].key == row.key);
                // A sorted list cannot hold the new key below the last
                // distinct key.
                if rows.len() > 0 {
                    assert(lex_le(rows[m].key, rows.push(row).last().key)) by {
                        assert(rows.push(row)[m] == rows[m]);
                    }
                    assert(rows_sorted(rows)) by {
                        assert forall|a: int, b: int|
                            0 <= a < b < rows.len() implies lex_le(
                            #[trigger] rows[a].key,
                            #[trigger] rows[b].key,
                        ) by {
                            assert(rows.push(row)[a] == rows[a]);
                            assert(rows.push(row)[b] == rows[b]);
                        }
                    }
                    lemma_last_key_is_max(rows, m);
                    assert(lex_le(rows[m].key, rows.last().key));
                    lemma_distinct_last(rows);
                    assert(rows.last().key == distinct_keys(rows).last());
                    crate::key::lemma_lex_lt_asymmetric(dk.last(), row.key);
                }
                assert(false);
            }
        }
        assert(rows.filter(pred) + seq![row] =~= seq![row]);
        assert(row_pairs(seq![row]) =~= seq![(row.key, row.value)]);
    }
}

/// In a sorted row list, every key is at most the last row's key.
proof fn lemma_last_key_is_max(rows: Seq<ViewEntryView>, m: int)
    requires
        rows_sorted(rows),
        rows.len() > 0,
        0 <= m < rows.len(),
    ensures
        lex_le(rows[m].key, rows.last().key),
{
    if m < rows.len() - 1 {
        assert(lex_le(rows[m].key, rows[rows.len() - 1].key));
    }
}

/// The last distinct key of a non-empty row list is the last row's key.
proof fn lemma_distinct_last(rows: Seq<ViewEntryView>)
    requires
        rows.len() > 0,
    ensures
        distinct_keys(rows).len() > 0,
        distinct_keys(rows).last() == rows.last().key,
{
}



/// The pairs carrying one key.
pub open spec fn pair_with_key(k: Seq<u8>) -> spec_fn((Seq<u8>, Seq<u8>)) -> bool {
    |p: (Seq<u8>, Seq<u8>)| p.0 == k
}

/// The rows of one document carrying one key.
pub open spec fn from_doc_with_key(d: u64, k: Seq<u8>) -> spec_fn(ViewEntryView) -> bool {
    |r: ViewEntryView| r.source == d && r.key == k
}

/// The rows of other documents carrying one key.
pub open spec fn other_docs_with_key(d: u64, k: Seq<u8>) -> spec_fn(ViewEntryView) -> bool {
    |r: ViewEntryView| r.source != d && r.key == k
}

/// Filtering twice is filtering by the conjunction.
proof fn lemma_filter_conj(
    s: Seq<ViewEntryView>,
    p: spec_fn(ViewEntryView) -> bool,
    q: spec_fn(ViewEntryView) -> bool,
    pq: spec_fn(ViewEntryView) -> bool,
)
    requires
        forall|x: ViewEntryView| #[trigger] pq(x) == (p(x) && q(x)),
    ensures
        s.filter(p).filter(q) == s.filter(pq),
    decreases s.len(),
{
    reveal(Seq::filter);
    if s.len() == 0 {
        assert(s.filter(p) =~= s);
        assert(s.filter(p).filter(q) =~= s);
        assert(s.filter(pq) =~= s);
    } else {
        let d0 = s.drop_last();
        let x = s.last();
        lemma_filter_conj(d0, p, q, pq);
        assert(s =~= d0 + seq![x]);
        Seq::filter_distributes_over_add(d0, seq![x], p);
        Seq::filter_distributes_over_add(d0, seq![x], pq);
        lemma_filter_singleton(x, p);
        lemma_filter_singleton(x, pq);
        if p(x) {
            Seq::filter_distributes_over_add(d0.filter(p), seq![x], q);
            lemma_filter_singleton(x, q);
            assert(s.filter(p) =~= d0.filter(p) + seq![x]);
            if q(x) {
                assert(s.filter(p).filter(q) =~= d0.filter(p).filter(q) + seq![x]);
                assert(s.filter(pq) =~= d0.filter(pq) + seq![x]);
            } else {
                assert(s.filter(p).filter(q) =~= d0.filter(p).filter(q));
                assert(s.filter(pq) =~= d0.filter(pq));
            }
        } else {
            assert(s.filter(p) =~= d0.filter(p));
            assert(s.filter(pq) =~= d0.filter(pq));
        }
    }
}

/// Sequence filtering and multiset filtering agree.
proof fn lemma_filter_to_multiset<A>(s: Seq<A>, p: spec_fn(A) -> bool)
    ensures
        s.filter(p).to_multiset() == s.to_multiset().filter(p),
    decreases s.len(),
{
    broadcast use vstd::multiset::group_multiset_axioms;

    reveal(Seq::filter);
    s.to_multiset_ensures();
    s.filter(p).to_multiset_ensures();
    if s.len() == 0 {
        assert(s.filter(p) =~= s);
        assert(s.to_multiset().len() == 0);
        assert(s.to_multiset() =~= Multiset::<A>::empty());
        assert(s.filter(p).to_multiset() =~= s.to_multiset().filter(p));
    } else {
        let d0 = s.drop_last();
        let x = s.last();
        lemma_filter_to_multiset(d0, p);
        d0.to_multiset_ensures();
        d0.filter(p).to_multiset_ensures();
        assert(s =~= d0.push(x));
        assert(s.to_multiset() == d0.to_multiset().insert(x));
        if p(x) {
            assert(s.filter(p) == d0.filter(p).push(x));
            assert(s.filter(p).to_multiset() == d0.filter(p).to_multiset().insert(x));
            assert(d0.to_multiset().insert(x).filter(p) =~= d0.to_multiset().filter(p).insert(
                x,
            ));
        } else {
            assert(s.filter(p) == d0.filter(p));
            assert(d0.to_multiset().insert(x).filter(p) =~= d0.to_multiset().filter(p));
        }
    }
}

/// A row list's pairs split, as a multiset, into one document's pairs
/// and the other documents' pairs.
proof fn lemma_pairs_split(s: Seq<ViewEntryView>, d: u64)
    ensures
        row_pairs(s).to_multiset() == row_pairs(s.filter(from_doc(d))).to_multiset().add(
            row_pairs(s.filter(keeps_others(d))).to_multiset(),
        ),
    decreases s.len(),
{
    broadcast use vstd::multiset::group_multiset_axioms;

    reveal(Seq::filter);
    row_pairs(s).to_multiset_ensures();
    if s.len() == 0 {
        assert(s.filter(from_doc(d)) =~= s);
        assert(s.filter(keeps_others(d)) =~= s);
        assert(row_pairs(s) =~= Seq::<(Seq<u8>, Seq<u8>)>::empty());
        assert(row_pairs(s).to_multiset().len() == 0);
        assert(row_pairs(s).to_multiset() =~= row_pairs(s.filter(from_doc(d))).to_multiset().add(
            row_pairs(s.filter(keeps_others(d))).to_multiset(),
        ));
    } else {
        let d0 = s.drop_last();
        let x = s.last();
        lemma_pairs_split(d0, d);
        assert(s =~= d0 + seq![x]);
        Seq::filter_distributes_over_add(d0, seq![x], from_doc(d));
        Seq::filter_distributes_over_add(d0, seq![x], keeps_others(d));
        lemma_filter_singleton(x, from_doc(d));
        lemma_filter_singleton(x, keeps_others(d));
        let pair = (x.key, x.value);
        assert(row_pairs(s) =~= row_pairs(d0).push(pair));
        row_pairs(d0).to_multiset_ensures();
        assert((row_pairs(d0).push(pair)).to_multiset() == row_pairs(d0).to_multiset().insert(
            pair,
        ));
        assert(row_pairs(s).to_multiset() == row_pairs(d0).to_multiset().insert(pair));
        if x.source == d {
            assert(s.filter(from_doc(d)) =~= d0.filter(from_doc(d)).push(x));
            assert(s.filter(keeps_others(d)) =~= d0.filter(keeps_others(d)));
            assert(row_pairs(s.filter(from_doc(d))) =~= row_pairs(d0.filter(from_doc(d))).push(
                pair,
            ));
            row_pairs(d0.filter(from_doc(d))).to_multiset_ensures();
            assert((row_pairs(d0.filter(from_doc(d))).push(pair)).to_multiset() == row_pairs(
                d0.filter(from_doc(d)),
            ).to_multiset().insert(pair));
            assert(row_pairs(s.filter(from_doc(d))).to_multiset() == row_pairs(
                d0.filter(from_doc(d)),
            ).to_multiset().insert(pair));
            assert(row_pairs(s).to_multiset() =~= row_pairs(s.filter(from_doc(d))).to_multiset().add(
                row_pairs(s.filter(keeps_others(d))).to_multiset(),
            ));
        } else {
            assert(s.filter(keeps_others(d)) =~= d0.filter(keeps_others(d)).push(x));
            assert(s.filter(from_doc(d)) =~= d0.filter(from_doc(d)));
            assert(row_pairs(s.filter(keeps_others(d))) =~= row_pairs(
                d0.filter(keeps_others(d)),
            ).push(pair));
            row_pairs(d0.filter(keeps_others(d))).to_multiset_ensures();
            assert((row_pairs(d0.filter(keeps_others(d))).push(pair)).to_multiset() == row_pairs(
                d0.filter(keeps_others(d)),
            ).to_multiset().insert(pair));
            assert(row_pairs(s.filter(keeps_others(d))).to_multiset() == row_pairs(
                d0.filter(keeps_others(d)),
            ).to_multiset().insert(pair));
            assert(row_pairs(s).to_multiset() =~= row_pairs(s.filter(from_doc(d))).to_multiset().add(
                row_pairs(s.filter(keeps_others(d))).to_multiset(),
            ));
        }
    }
}

/// Filtering rows by key and taking pairs is taking pairs and filtering
/// them by key.
proof fn lemma_pairs_key_filter(s: Seq<ViewEntryView>, k: Seq<u8>)
    ensures
        row_pairs(s.filter(rows_with_key(k))) == row_pairs(s).filter(pair_with_key(k)),
    decreases s.len(),
{
    reveal(Seq::filter);
    if s.len() == 0 {
        assert(s.filter(rows_with_key(k)) =~= s);
        assert(row_pairs(s) =~= Seq::<(Seq<u8>, Seq<u8>)>::empty());
        assert(row_pairs(s).filter(pair_with_key(k)) =~= row_pairs(s));
    } else {
        let d0 = s.drop_last();
        let x = s.last();
        lemma_pairs_key_filter(d0, k);
        assert(s =~= d0 + seq![x]);
        Seq::filter_distributes_over_add(d0, seq![x], rows_with_key(k));
        lemma_filter_singleton(x, rows_with_key(k));
        assert(row_pairs(s) =~= row_pairs(d0).push((x.key, x.value)));
        assert(row_pairs(s).drop_last() =~= row_pairs(d0));
        if x.key == k {
            assert(s.filter(rows_with_key(k)) =~= d0.filter(rows_with_key(k)).push(x));
            assert(row_pairs(d0.filter(rows_with_key(k)).push(x)) =~= row_pairs(
                d0.filter(rows_with_key(k)),
            ).push((x.key, x.value)));
            assert(row_pairs(s).filter(pair_with_key(k)) =~= row_pairs(d0).filter(
                pair_with_key(k),
            ).push((x.key, x.value)));
        } else {
            assert(s.filter(rows_with_key(k)) =~= d0.filter(rows_with_key(k)));
            assert(row_pairs(s).filter(pair_with_key(k)) =~= row_pairs(d0).filter(
                pair_with_key(k),
            ));
        }
    }
}

/// What the map function emits for document `d` in `docs` (nothing when
/// the document does not exist), as a multiset of pairs.
pub open spec fn doc_pairs<V: ViewSchema>(
    schema: &V,
    docs: Seq<crate::store::StoredDocumentView>,
    d: u64,
) -> Multiset<(Seq<u8>, Seq<u8>)> {
    if crate::store::docs_map(docs).contains_key(d) {
        schema.map_spec(d, crate::store::docs_map(docs)[d].contents).to_multiset()
    } else {
        Multiset::empty()
    }
}

/// Grouping the naive map output by key: the pairs with key `k` that
/// the documents emit, in document order.
pub open spec fn naive_key_pairs<V: ViewSchema>(
    schema: &V,
    docs: Seq<crate::store::StoredDocumentView>,
    k: Seq<u8>,
) -> Seq<(Seq<u8>, Seq<u8>)>
    decreases docs.len(),
{
    if docs.len() == 0 {
        Seq::empty()
    } else {
        naive_key_pairs(schema, docs.drop_last(), k) + schema.map_spec(
            docs.last().id,
            docs.last().contents,
        ).filter(pair_with_key(k))
    }
}

/// In a view where every document's contribution matches its mapping,
/// one key's rows are, as a multiset, exactly the naive map output
/// grouped at that key.
proof fn lemma_synced_key_partition<V: ViewSchema>(
    schema: &V,
    rows: Seq<ViewEntryView>,
    docs: Seq<crate::store::StoredDocumentView>,
    k: Seq<u8>,
)
    requires
        crate::store::ids_sorted(docs),
        forall|d: u64|
            #[trigger] contribution(rows, d).to_multiset() == doc_pairs(schema, docs, d),
    ensures
        row_pairs(rows.filter(rows_with_key(k))).to_multiset() == naive_key_pairs(
            schema,
            docs,
            k,
        ).to_multiset(),
    decreases docs.len(),
{
    broadcast use vstd::multiset::group_multiset_axioms;

    if docs.len() == 0 {
        // With no documents, no contribution is non-empty, so the index
        // holds no rows at all.
        let filtered = rows.filter(rows_with_key(k));
        if filtered.len() > 0 {
            lemma_filter_membership(rows, rows_with_key(k));
            assert(rows.contains(filtered[0]));
            let m = choose|m: int| 0 <= m < rows.len() && rows[m] == filtered[0];
            let d = rows[m].source;
            assert(from_doc(d)(rows[m]));
            Seq::lemma_filter_contains(rows, from_doc(d), m);
            assert(rows.filter(from_doc(d)).contains(rows[m]));
            let fm = choose|fm: int|
                0 <= fm < rows.filter(from_doc(d)).len() && rows.filter(from_doc(d))[fm]
                    == rows[m];
            assert(contribution(rows, d).len() > 0);
            contribution(rows, d).to_multiset_ensures();
            assert(contribution(rows, d).to_multiset().len() > 0);
            assert(!crate::store::docs_map(docs).contains_key(d));
            assert(doc_pairs(schema, docs, d).len() == 0);
            assert(false);
        }
        assert(row_pairs(filtered) =~= Seq::<(Seq<u8>, Seq<u8>)>::empty());
        row_pairs(filtered).to_multiset_ensures();
        naive_key_pairs(schema, docs, k).to_multiset_ensures();
        assert(row_pairs(filtered).to_multiset() =~= naive_key_pairs(schema, docs, k).to_multiset());
    } else {
        let last = docs.last();
        let d = last.id;
        let rest = docs.drop_last();
        let rows2 = rows.filter(keeps_others(d));
        // The remaining documents are synced against the remaining rows.
        crate::store::lemma_docs_map_remove_pub(docs, docs.len() - 1);
        assert(docs.remove(docs.len() - 1) =~= rest);
        lemma_removal_contributions(rows, d);
        assert forall|d2: u64|
            #[trigger] contribution(rows2, d2).to_multiset() == doc_pairs(schema, rest, d2) by {
            if d2 == d {
                assert(contribution(rows2, d2) == Seq::<(Seq<u8>, Seq<u8>)>::empty());
                contribution(rows2, d2).to_multiset_ensures();
                assert(!crate::store::docs_map(rest).contains_key(d2));
                assert(contribution(rows2, d2).to_multiset() =~= Multiset::<
                    (Seq<u8>, Seq<u8>),
                >::empty());
            } else {
                assert(contribution(rows2, d2) == contribution(rows, d2));
                assert(crate::store::docs_map(rest).contains_key(d2)
                    == crate::store::docs_map(docs).contains_key(d2));
                if crate::store::docs_map(docs).contains_key(d2) {
                    assert(crate::store::docs_map(rest)[d2] == crate::store::docs_map(docs)[d2]);
                }
            }
        }
        assert(crate::store::ids_sorted(rest)) by {
            assert forall|a: int, b: int|
                0 <= a < b < rest.len() implies (#[trigger] rest[a]).id < (
            #[trigger] rest[b]).id by {
                assert(rest[a] == docs[a]);
                assert(rest[b] == docs[b]);
            }
        }
        lemma_synced_key_partition(schema, rows2, rest, k);
        // Split this key's rows into the last document's and the rest's.
        let a = rows.filter(rows_with_key(k));
        lemma_pairs_split(a, d);
        lemma_filter_conj(rows, rows_with_key(k), from_doc(d), from_doc_with_key(d, k));
        lemma_filter_conj(rows, from_doc(d), rows_with_key(k), from_doc_with_key(d, k));
        lemma_filter_conj(rows, rows_with_key(k), keeps_others(d), other_docs_with_key(d, k));
        lemma_filter_conj(rows, keeps_others(d), rows_with_key(k), other_docs_with_key(d, k));
        assert(a.filter(from_doc(d)) == rows.filter(from_doc(d)).filter(rows_with_key(k)));
        assert(a.filter(keeps_others(d)) == rows2.filter(rows_with_key(k)));
        // The last document's keyed rows are its mapping, filtered.
        lemma_pairs_key_filter(rows.filter(from_doc(d)), k);
        assert(row_pairs(a.filter(from_doc(d))) == contribution(rows, d).filter(pair_with_key(k)));
        lemma_filter_to_multiset(contribution(rows, d), pair_with_key(k));
        assert(contribution(rows, d).to_multiset() == doc_pairs(schema, docs, d));
        crate::store::lemma_docs_map_index_pub(docs, docs.len() - 1);
        assert(crate::store::docs_map(docs).contains_key(d));
        assert(doc_pairs(schema, docs, d) == schema.map_spec(d, last.contents).to_multiset()) by {
            assert(crate::store::docs_map(docs)[d] == crate::store::record_of(last));
        }
        lemma_filter_to_multiset(schema.map_spec(d, last.contents), pair_with_key(k));
        assert(row_pairs(a.filter(from_doc(d))).to_multiset() == schema.map_spec(
            d,
            last.contents,
        ).filter(pair_with_key(k)).to_multiset());
        // Reassemble.
        assert(naive_key_pairs(schema, docs, k) == naive_key_pairs(schema, rest, k) + schema.map_spec(
            d,
            last.contents,
        ).filter(pair_with_key(k)));
        vstd::seq_lib::lemma_multiset_commutative(
            naive_key_pairs(schema, rest, k),
            schema.map_spec(d, last.contents).filter(pair_with_key(k)),
        );
        assert(row_pairs(a).to_multiset() =~= naive_key_pairs(schema, docs, k).to_multiset());
    }
}

/// LAW: with a reduce function that is insensitive to the order of its
/// input -- the formal content of associativity and commutativity here
/// -- the grouped reduction over a fresh view equals grouping the naive
/// map output by key and reducing each group.
pub proof fn lemma_reduce_grouped_matches_map<V: ViewSchema>(
    schema: &V,
    view: &ViewState,
    coll: &crate::store::CollectionState,
)
    requires
        coll.wf(),
        view_fresh(schema, *view, coll@),
        forall|a: Seq<(Seq<u8>, Seq<u8>)>, b: Seq<(Seq<u8>, Seq<u8>)>|
            a.to_multiset() == b.to_multiset() ==> #[trigger] schema.reduce_spec(a, false)
                == #[trigger] schema.reduce_spec(b, false),
    ensures
        forall|g: int|
            0 <= g < distinct_keys(view.rows()).len() ==> #[trigger] schema.reduce_spec(
                row_pairs(
                    view.rows().filter(rows_with_key(distinct_keys(view.rows())[g])),
                ),
                false,
            ) == schema.reduce_spec(
                naive_key_pairs(schema, coll.doc_seq(), distinct_keys(view.rows())[g]),
                false,
            ),
{
    assert forall|g: int|
        0 <= g < distinct_keys(view.rows()).len() implies #[trigger] schema.reduce_spec(
        row_pairs(view.rows().filter(rows_with_key(distinct_keys(view.rows())[g]))),
        false,
    ) == schema.reduce_spec(
        naive_key_pairs(schema, coll.doc_seq(), distinct_keys(view.rows())[g]),
        false,
    ) by {
        let k = distinct_keys(view.rows())[g];
        assert forall|d: u64|
            #[trigger] contribution(view.rows(), d).to_multiset() == doc_pairs(
            schema,
            coll.doc_seq(),
            d,
        ) by {
            assert(doc_synced(schema, *view, coll@, d));
            assert(coll@.docs == crate::store::docs_map(coll.doc_seq()));
            if !crate::store::docs_map(coll.doc_seq()).contains_key(d) {
                contribution(view.rows(), d).to_multiset_ensures();
                Seq::<(Seq<u8>, Seq<u8>)>::empty().to_multiset_ensures();
                assert(contribution(view.rows(), d).to_multiset() =~= Multiset::<
                    (Seq<u8>, Seq<u8>),
                >::empty());
            }
        }
        lemma_synced_key_partition(schema, view.rows(), coll.doc_seq(), k);
    }
}


/// LAW: mapper completeness. In a fresh view -- after the mapper has
/// consumed every stale document -- the index holds exactly the union
/// over all documents of the map function's output: each document's
/// rows are its mapping, and nothing else contributes rows.
pub proof fn lemma_fresh_view_is_map_union<V: ViewSchema>(
    schema: &V,
    view: &ViewState,
    coll: &crate::store::CollectionState,
)
    requires
        view_fresh(schema, *view, coll@),
    ensures
        view.invalidated@.len() == 0,
        forall|d: u64|
            coll@.docs.contains_key(d) ==> #[trigger] contribution(view.rows(), d).to_multiset()
                == schema.map_spec(d, coll@.docs[d].contents).to_multiset(),
        forall|d: u64|
            !coll@.docs.contains_key(d) ==> #[trigger] contribution(view.rows(), d).len() == 0,
{
    assert forall|d: u64|
        !coll@.docs.contains_key(d) implies #[trigger] contribution(view.rows(), d).len()
        == 0 by {
        assert(doc_synced(schema, *view, coll@, d));
        contribution(view.rows(), d).to_multiset_ensures();
        Seq::<(Seq<u8>, Seq<u8>)>::empty().to_multiset_ensures();
        assert(contribution(view.rows(), d).to_multiset().len() == 0);
    }
    assert forall|d: u64|
        coll@.docs.contains_key(d) implies #[trigger] contribution(view.rows(), d).to_multiset()
        == schema.map_spec(d, coll@.docs[d].contents).to_multiset() by {
        assert(doc_synced(schema, *view, coll@, d));
    }
}


/// LAW: the mapper invariant survives a committed transaction. Every
/// document the transaction changed is marked stale in the view, so a
/// view in sync apart from its stale set stays that way -- which is
/// exactly what the mapper then consumes to reach freshness.
pub proof fn lemma_txn_preserves_view_sync<V: ViewSchema>(
    schema: &V,
    before: &Database,
    after: &Database,
    ops: Seq<crate::transaction::OperationView>,
    results: Seq<crate::transaction::OperationResultView>,
    vi: int,
)
    requires
        before.wf(),
        0 <= vi < before.views@.len(),
        0 <= vi < after.views@.len(),
        crate::store::apply_ops(before.models(), ops) == (crate::store::TxnOutcome::Committed {
            collections: after.models(),
            results,
        }),
        crate::store::view_after_txn(
            after.views@[vi],
            before.views@[vi],
            crate::store::changes_of(results),
        ),
        has_collection(before.models(), before.views@[vi].name@.collection),
        view_in_sync(
            schema,
            before.views@[vi],
            before.models()[collection_index(
                before.models(),
                before.views@[vi].name@.collection,
            )],
        ),
    ensures
        has_collection(after.models(), after.views@[vi].name@.collection),
        view_in_sync(
            schema,
            after.views@[vi],
            after.models()[collection_index(after.models(), after.views@[vi].name@.collection)],
        ),
{
    let ms = before.models();
    let view_before = before.views@[vi];
    let view_after = after.views@[vi];
    let coll = view_before.name@.collection;
    let ci = collection_index(ms, coll);
    assert(crate::store::names_distinct(ms));
    crate::store::lemma_committed_shape(ms, ops);
    crate::store::lemma_results_name_their_ops(ms, ops);
    crate::store::lemma_unlisted_docs_unchanged(ms, ops);
    let changes = crate::store::changes_of(results);
    crate::store::lemma_fold_invalidations_covers(view_before.invalidated@, changes, coll);
    // The collection keeps its place and name.
    assert(after.models()[ci].name == ms[ci].name);
    assert(ms[ci].name == coll);
    crate::store::lemma_collection_index(after.models(), ci);
    assert(view_after.name@.collection == coll);
    assert(collection_index(after.models(), coll) == ci);
    let cm_old = ms[ci];
    let cm_new = after.models()[ci];
    // Rows are untouched by the commit.
    assert(view_after.rows() == view_before.rows()) by {
        assert(view_after.entries == view_before.entries);
    }
    assert forall|d: u64|
        !view_after.invalidated@.contains(d) implies doc_synced(schema, view_after, cm_new, d) by {
        // Not stale afterwards means not stale before and not changed.
        assert(view_after.invalidated@ == crate::store::fold_invalidations(
            view_before.invalidated@,
            changes,
            coll,
        ));
        assert(!view_before.invalidated@.contains(d));
        assert(doc_synced(schema, view_before, cm_old, d));
        // A changed document would have been marked stale.
        if exists|j: int|
            0 <= j < ops.len() && (#[trigger] ops[j]).collection == ms[ci].name && crate::store::result_id(
                results[j],
            ) == d {
            let j = choose|j: int|
                0 <= j < ops.len() && (#[trigger] ops[j]).collection == ms[ci].name
                    && crate::store::result_id(results[j]) == d;
            assert(changes[j] == crate::store::change_of_result(results[j]));
            assert(changes[j].collection == coll);
            assert(changes[j].id == d);
            assert(view_after.invalidated@.contains(d));
            assert(false);
        }
        assert(cm_new.docs.contains_key(d) == cm_old.docs.contains_key(d));
        assert(cm_new.docs.contains_key(d) ==> cm_new.docs[d] == cm_old.docs[d]);
    }
}


/// LAW: a freshly created database's views are in sync: nothing is
/// stale, no rows exist, and no documents exist -- the base case the
/// commit-preservation law and the mapper build on.
pub proof fn lemma_new_database_views_in_sync<V: ViewSchema>(schema: &V, db: &Database, vi: int)
    requires
        0 <= vi < db.views@.len(),
        db.views@[vi].rows() == Seq::<ViewEntryView>::empty(),
        db.views@[vi].invalidated@ == Seq::<u64>::empty(),
        has_collection(db.models(), db.views@[vi].name@.collection),
        db.models()[collection_index(db.models(), db.views@[vi].name@.collection)].docs
            == Map::<u64, crate::store::DocRecord>::empty(),
    ensures
        view_in_sync(
            schema,
            db.views@[vi],
            db.models()[collection_index(db.models(), db.views@[vi].name@.collection)],
        ),
{
    let view = db.views@[vi];
    let cm = db.models()[collection_index(db.models(), view.name@.collection)];
    assert forall|d: u64|
        !view.invalidated@.contains(d) implies doc_synced(schema, view, cm, d) by {
        assert(!cm.docs.contains_key(d));
        assert(view.rows().filter(from_doc(d)) =~= Seq::<ViewEntryView>::empty()) by {
            reveal(Seq::filter);
        }
        assert(contribution(view.rows(), d) =~= Seq::<(Seq<u8>, Seq<u8>)>::empty());
    }
}

} // verus!
