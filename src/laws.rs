//! The storage engine as a map from keys to values, and what the
//! operations guarantee about it.
use crate::codec::{
    has_sep, index_key, index_key_parts, lemma_index_key_has_prefix, lemma_index_key_parts,
    lemma_row_key_has_prefix, lemma_row_key_parts, row_key, row_key_parts, row_prefix, index_prefix,
    ROW_PART, INDEX_PART, SEP, split,
};
use crate::document::{
    cell_bytes, cell_tag, index_text, lemma_cell_round_trip, marker_field, names_distinct,
    storable, stored_map, utf8, valid_document, ScalarView, TAG_KEY,
};
use crate::store::{
    cell_field, delete_ops, doc_fields, erase_index, erase_rows, field_ops, field_writes,
    has_row, is_index_of, is_row_of, marker_write, put_ops, OpView,
};
use vstd::prelude::*;
use vstd::utf8::{decode_utf8, encode_utf8_decode_utf8, valid_utf8};

verus! {

/// The engine's contents after one change.
pub open spec fn apply_op(m: Map<Seq<u8>, Seq<u8>>, op: OpView) -> Map<Seq<u8>, Seq<u8>> {
    match op {
        OpView::Write(k, v) => m.insert(k, v),
        OpView::Erase(k) => m.remove(k),
    }
}

/// The engine's contents after changes applied in order.
pub open spec fn apply_ops(m: Map<Seq<u8>, Seq<u8>>, ops: Seq<OpView>) -> Map<Seq<u8>, Seq<u8>>
    decreases ops.len(),
{
    if ops.len() == 0 {
        m
    } else {
        apply_op(apply_ops(m, ops.drop_last()), ops.last())
    }
}

/// Whether `es` is what a scan of `m` from `prefix` may yield: entries of
/// `m` as stored, among them every key of `m` that starts with `prefix`.
/// (A scan runs on past the prefix; callers filter.)
pub open spec fn is_scan(m: Map<Seq<u8>, Seq<u8>>, prefix: Seq<u8>, es: Seq<(Seq<u8>, Seq<u8>)>) -> bool {
    &&& forall|i: int|
        0 <= i < es.len() ==> m.contains_key((#[trigger] es[i]).0) && m[es[i].0] == es[i].1
    &&& forall|k: Seq<u8>|
        m.contains_key(k) && prefix.is_prefix_of(k) ==> listed(es, k)
}

/// Whether the key `k` is among the entries.
pub open spec fn listed(es: Seq<(Seq<u8>, Seq<u8>)>, k: Seq<u8>) -> bool {
    exists|i: int| 0 <= i < es.len() && (#[trigger] es[i]).0 == k
}

/// What every key of the index partition starts with.
pub open spec fn index_partition() -> Seq<u8> {
    seq![INDEX_PART, SEP]
}

/// What every key of the row partition starts with.
pub open spec fn row_partition() -> Seq<u8> {
    seq![ROW_PART, SEP]
}

/// The key of the primary cell of a field of `idb`.
pub open spec fn cell_key(idb: Seq<u8>, f: (Seq<char>, ScalarView)) -> Seq<u8> {
    row_key(idb, utf8(f.0), cell_tag(f.1))
}

/// The key of the presence marker of `idb`.
pub open spec fn marker_key(idb: Seq<u8>) -> Seq<u8> {
    row_key(idb, marker_field(), Some(TAG_KEY))
}

proof fn lemma_apply_concat(m: Map<Seq<u8>, Seq<u8>>, a: Seq<OpView>, b: Seq<OpView>)
    ensures
        apply_ops(m, a + b) == apply_ops(apply_ops(m, a), b),
    decreases b.len(),
{
    if b.len() == 0 {
        assert(a + b =~= a);
    } else {
        lemma_apply_concat(m, a, b.drop_last());
        assert((a + b).drop_last() =~= a + b.drop_last());
        assert((a + b).last() == b.last());
    }
}

proof fn lemma_erase_rows(m: Map<Seq<u8>, Seq<u8>>, idb: Seq<u8>, rows: Seq<(Seq<u8>, Seq<u8>)>)
    ensures
        forall|k: Seq<u8>|
            #[trigger] apply_ops(m, erase_rows(idb, rows)).contains_key(k) == (m.contains_key(k)
                && !(is_row_of(idb, k) && listed(rows, k))),
        forall|k: Seq<u8>|
            #[trigger] apply_ops(m, erase_rows(idb, rows)).contains_key(k) ==> apply_ops(
                m,
                erase_rows(idb, rows),
            )[k] == m[k],
    decreases rows.len(),
{
    if rows.len() > 0 {
        let init = rows.drop_last();
        lemma_erase_rows(m, idb, init);
        let ops = erase_rows(idb, rows);
        let m1 = apply_ops(m, erase_rows(idb, init));
        let e = rows.last();
        if is_row_of(idb, e.0) {
            assert(ops.drop_last() =~= erase_rows(idb, init));
            assert(apply_ops(m, ops) == m1.remove(e.0));
        } else {
            assert(ops == erase_rows(idb, init));
        }
        assert forall|k: Seq<u8>| listed(rows, k) == (listed(init, k) || k == e.0) by {
            if listed(rows, k) {
                let i = choose|i: int| 0 <= i < rows.len() && (#[trigger] rows[i]).0 == k;
                if i < init.len() {
                    assert(init[i] == rows[i]);
                }
            }
            if listed(init, k) {
                let i = choose|i: int| 0 <= i < init.len() && (#[trigger] init[i]).0 == k;
                assert(rows[i] == init[i]);
            }
            if k == e.0 {
                assert(rows[rows.len() - 1].0 == k);
            }
        }
    }
}

proof fn lemma_erase_index(m: Map<Seq<u8>, Seq<u8>>, idb: Seq<u8>, es: Seq<(Seq<u8>, Seq<u8>)>)
    ensures
        forall|k: Seq<u8>|
            #[trigger] apply_ops(m, erase_index(idb, es)).contains_key(k) == (m.contains_key(k)
                && !(is_index_of(idb, k) && listed(es, k))),
        forall|k: Seq<u8>|
            #[trigger] apply_ops(m, erase_index(idb, es)).contains_key(k) ==> apply_ops(
                m,
                erase_index(idb, es),
            )[k] == m[k],
    decreases es.len(),
{
    if es.len() > 0 {
        let init = es.drop_last();
        lemma_erase_index(m, idb, init);
        let ops = erase_index(idb, es);
        let m1 = apply_ops(m, erase_index(idb, init));
        let e = es.last();
        if is_index_of(idb, e.0) {
            assert(ops.drop_last() =~= erase_index(idb, init));
            assert(apply_ops(m, ops) == m1.remove(e.0));
        } else {
            assert(ops == erase_index(idb, init));
        }
        assert forall|k: Seq<u8>| listed(es, k) == (listed(init, k) || k == e.0) by {
            if listed(es, k) {
                let i = choose|i: int| 0 <= i < es.len() && (#[trigger] es[i]).0 == k;
                if i < init.len() {
                    assert(init[i] == es[i]);
                }
            }
            if listed(init, k) {
                let i = choose|i: int| 0 <= i < init.len() && (#[trigger] init[i]).0 == k;
                assert(es[i] == init[i]);
            }
            if k == e.0 {
                assert(es[es.len() - 1].0 == k);
            }
        }
    }
}

/// After a document's teardown against covering scans, nothing of it is left.
proof fn lemma_teardown(
    m: Map<Seq<u8>, Seq<u8>>,
    id: Seq<char>,
    rows: Seq<(Seq<u8>, Seq<u8>)>,
    index: Seq<(Seq<u8>, Seq<u8>)>,
)
    requires
        is_scan(m, row_prefix(utf8(id)), rows),
        is_scan(m, index_partition(), index),
    ensures
        forall|k: Seq<u8>|
            #[trigger] apply_ops(m, delete_ops(id, rows, index)).contains_key(k) == (m.contains_key(
                k,
            ) && !is_row_of(utf8(id), k) && !is_index_of(utf8(id), k)),
        forall|k: Seq<u8>|
            #[trigger] apply_ops(m, delete_ops(id, rows, index)).contains_key(k) ==> apply_ops(
                m,
                delete_ops(id, rows, index),
            )[k] == m[k],
{
    let idb = utf8(id);
    lemma_apply_concat(m, erase_rows(idb, rows), erase_index(idb, index));
    let m1 = apply_ops(m, erase_rows(idb, rows));
    lemma_erase_rows(m, idb, rows);
    lemma_erase_index(m1, idb, index);
    assert forall|k: Seq<u8>| m.contains_key(k) && is_row_of(idb, k) implies listed(rows, k) by {
        let p = row_key_parts(k)->Some_0;
        lemma_row_key_has_prefix(k, p.0, p.1, p.2);
    }
    assert forall|k: Seq<u8>| m.contains_key(k) && is_index_of(idb, k) implies listed(index, k) by {
        let p = index_key_parts(k)->Some_0;
        lemma_index_key_has_prefix(k, p.0, p.1, p.2);
        assert(index_partition().is_prefix_of(k)) by {
            assert(k[0] == INDEX_PART && k[1] == SEP) by {
                crate::codec::lemma_join3(seq![INDEX_PART], p.0, p.1);
            }
        }
    }
}

/// Whether `k` is the primary-cell key of one of the fields.
pub open spec fn cell_written(idb: Seq<u8>, fs: Seq<(Seq<char>, ScalarView)>, k: Seq<u8>) -> bool {
    exists|j: int| 0 <= j < fs.len() && k == cell_key(idb, #[trigger] fs[j])
}

/// The index-entry key of a field of `idb`, if it is indexed.
pub open spec fn entry_key(idb: Seq<u8>, f: (Seq<char>, ScalarView)) -> Option<Seq<u8>> {
    match index_text(f.1) {
        Some(t) => Some(index_key(utf8(f.0), t, idb)),
        None => None,
    }
}

/// Whether `k` is the index-entry key of one of the fields.
pub open spec fn entry_written(idb: Seq<u8>, fs: Seq<(Seq<char>, ScalarView)>, k: Seq<u8>) -> bool {
    exists|j: int| 0 <= j < fs.len() && entry_key(idb, #[trigger] fs[j]) == Some(k)
}

/// The fields' names, values and index texts fit the key layout.
pub open spec fn fields_fit(fs: Seq<(Seq<char>, ScalarView)>) -> bool {
    &&& names_distinct(fs)
    &&& forall|i: int|
        0 <= i < fs.len() ==> !has_sep(utf8((#[trigger] fs[i]).0)) && storable(fs[i].1)
}

proof fn lemma_tag_not_sep(v: ScalarView)
    ensures
        cell_tag(v) != Some(SEP),
{
}

/// A cell key is a primary cell of its document and no index entry; an
/// entry key is the reverse.
proof fn lemma_key_kinds(idb: Seq<u8>, f: (Seq<char>, ScalarView))
    requires
        !has_sep(idb),
        !has_sep(utf8(f.0)),
        storable(f.1),
    ensures
        row_key_parts(cell_key(idb, f)) == Some((idb, utf8(f.0), cell_tag(f.1))),
        index_key_parts(cell_key(idb, f)) is None,
        entry_key(idb, f) matches Some(k) ==> index_key_parts(k) == Some(
            (utf8(f.0), index_text(f.1)->Some_0, idb),
        ) && row_key_parts(k) is None,
{
    lemma_tag_not_sep(f.1);
    lemma_row_key_parts(idb, utf8(f.0), cell_tag(f.1));
    assert(seq![ROW_PART] != seq![INDEX_PART]) by {
        assert(seq![ROW_PART][0] != seq![INDEX_PART][0]);
    }
    assert(split(cell_key(idb, f))[0] == seq![ROW_PART]) by {
        crate::codec::lemma_byte_sep_free(ROW_PART);
        match cell_tag(f.1) {
            Some(t) => {
                crate::codec::lemma_byte_sep_free(t);
                let segs = seq![seq![ROW_PART], idb, utf8(f.0), seq![t]];
                assert forall|i: int| 0 <= i < segs.len() implies !has_sep(#[trigger] segs[i]) by {}
                crate::codec::lemma_split_join(segs);
            },
            None => {
                let segs = seq![seq![ROW_PART], idb, utf8(f.0)];
                assert forall|i: int| 0 <= i < segs.len() implies !has_sep(#[trigger] segs[i]) by {}
                crate::codec::lemma_split_join(segs);
            },
        }
    }
    if let Some(t) = index_text(f.1) {
        lemma_index_key_parts(utf8(f.0), t, idb);
        crate::codec::lemma_byte_sep_free(INDEX_PART);
        let segs = seq![seq![INDEX_PART], utf8(f.0), t, idb];
        assert forall|i: int| 0 <= i < segs.len() implies !has_sep(#[trigger] segs[i]) by {}
        crate::codec::lemma_split_join(segs);
    }
}

/// Fields with distinct names have distinct cell keys.
proof fn lemma_cell_keys_distinct(idb: Seq<u8>, f: (Seq<char>, ScalarView), g: (Seq<char>, ScalarView))
    requires
        !has_sep(idb),
        !has_sep(utf8(f.0)),
        storable(f.1),
        !has_sep(utf8(g.0)),
        storable(g.1),
        f.0 != g.0,
    ensures
        cell_key(idb, f) != cell_key(idb, g),
        entry_key(idb, f) is Some ==> entry_key(idb, f) != entry_key(idb, g),
{
    lemma_key_kinds(idb, f);
    lemma_key_kinds(idb, g);
    crate::document::lemma_utf8_injective(f.0, g.0);
}

/// What writing the fields of `idb` does to the engine.
proof fn lemma_field_writes(m: Map<Seq<u8>, Seq<u8>>, idb: Seq<u8>, fs: Seq<(Seq<char>, ScalarView)>)
    requires
        !has_sep(idb),
        fields_fit(fs),
    ensures
        forall|k: Seq<u8>|
            #[trigger] apply_ops(m, field_writes(idb, fs)).contains_key(k) == (m.contains_key(k)
                || cell_written(idb, fs, k) || entry_written(idb, fs, k)),
        forall|j: int|
            0 <= j < fs.len() ==> apply_ops(m, field_writes(idb, fs))[cell_key(idb, #[trigger] fs[j])]
                == cell_bytes(fs[j].1),
        forall|k: Seq<u8>|
            entry_written(idb, fs, k) ==> #[trigger] apply_ops(m, field_writes(idb, fs))[k]
                == Seq::<u8>::empty(),
        forall|k: Seq<u8>|
            !cell_written(idb, fs, k) && !entry_written(idb, fs, k) ==> #[trigger] apply_ops(
                m,
                field_writes(idb, fs),
            )[k] == m[k],
        forall|k: Seq<u8>|
            cell_written(idb, fs, k) ==> is_row_of(idb, k) && !is_index_of(idb, k),
        forall|k: Seq<u8>|
            entry_written(idb, fs, k) ==> is_index_of(idb, k) && !is_row_of(idb, k),
    decreases fs.len(),
{
    if fs.len() > 0 {
        let init = fs.drop_last();
        let f = fs.last();
        assert(fields_fit(init)) by {
            assert forall|a: int, b: int| 0 <= a < b < init.len() implies (#[trigger] init[a]).0
                != (#[trigger] init[b]).0 by {
                assert(fs[a].0 != fs[b].0);
            }
            assert forall|i: int| 0 <= i < init.len() implies !has_sep(utf8((#[trigger] init[i]).0))
                && storable(init[i].1) by {
                assert(init[i] == fs[i]);
            }
        }
        lemma_field_writes(m, idb, init);
        assert(fs[fs.len() - 1] == f);
        lemma_key_kinds(idb, f);
        let m1 = apply_ops(m, field_writes(idb, init));
        lemma_apply_concat(m, field_writes(idb, init), field_ops(idb, f));
        let ck = cell_key(idb, f);
        let cell = OpView::Write(ck, cell_bytes(f.1));
        let mc = m1.insert(ck, cell_bytes(f.1));
        assert(seq![cell].drop_last() =~= Seq::<OpView>::empty());
        assert(apply_ops(m1, Seq::<OpView>::empty()) == m1);
        assert(seq![cell].last() == cell);
        assert(apply_ops(m1, seq![cell]) == mc);
        let m2 = apply_ops(m, field_writes(idb, fs));
        match index_text(f.1) {
            Some(t) => {
                let ik = index_key(utf8(f.0), t, idb);
                let two = seq![cell, OpView::Write(ik, Seq::empty())];
                assert(two.drop_last() =~= seq![cell]);
                assert(two.last() == OpView::Write(ik, Seq::empty()));
                assert(field_ops(idb, f) == two);
                assert(m2 == mc.insert(ik, Seq::empty()));
            },
            None => {
                assert(field_ops(idb, f) == seq![cell]);
                assert(m2 == mc);
            },
        }
        assert forall|k: Seq<u8>| cell_written(idb, fs, k) == (cell_written(idb, init, k) || k == ck) by {
            if cell_written(idb, fs, k) {
                let j = choose|j: int| 0 <= j < fs.len() && k == cell_key(idb, #[trigger] fs[j]);
                if j < init.len() {
                    assert(init[j] == fs[j]);
                }
            }
            if cell_written(idb, init, k) {
                let j = choose|j: int| 0 <= j < init.len() && k == cell_key(idb, #[trigger] init[j]);
                assert(fs[j] == init[j]);
            }
        }
        assert forall|k: Seq<u8>| entry_written(idb, fs, k) == (entry_written(idb, init, k)
            || entry_key(idb, f) == Some(k)) by {
            if entry_written(idb, fs, k) {
                let j = choose|j: int| 0 <= j < fs.len() && entry_key(idb, #[trigger] fs[j]) == Some(k);
                if j < init.len() {
                    assert(init[j] == fs[j]);
                }
            }
            if entry_written(idb, init, k) {
                let j = choose|j: int| 0 <= j < init.len() && entry_key(idb, #[trigger] init[j]) == Some(k);
                assert(fs[j] == init[j]);
            }
        }
        assert forall|j: int| 0 <= j < init.len() implies cell_key(idb, #[trigger] init[j]) != ck
            && entry_key(idb, init[j]) != Some(ck) && (entry_key(idb, f) matches Some(ik) ==> cell_key(idb, init[j]) != ik && entry_key(idb, init[j]) != Some(ik)) by {
            assert(init[j] == fs[j]);
            assert(fs[j].0 != fs[fs.len() - 1].0);
            lemma_cell_keys_distinct(idb, init[j], f);
            lemma_cell_keys_distinct(idb, f, init[j]);
            lemma_key_kinds(idb, init[j]);
        }
        assert forall|j: int| 0 <= j < fs.len() implies m2[cell_key(idb, #[trigger] fs[j])]
            == cell_bytes(fs[j].1) by {
            if j < init.len() {
                assert(init[j] == fs[j]);
            }
        }
        assert forall|k: Seq<u8>| entry_written(idb, fs, k) implies #[trigger] m2[k] == Seq::<u8>::empty() by {
            if entry_key(idb, f) != Some(k) {
                let j = choose|j: int| 0 <= j < init.len() && entry_key(idb, #[trigger] init[j]) == Some(k);
                assert(k != ck);
            }
        }
    }
}

proof fn lemma_listed_last(es: Seq<(Seq<u8>, Seq<u8>)>)
    requires
        es.len() > 0,
    ensures
        forall|k: Seq<u8>| #[trigger] listed(es, k) == (listed(es.drop_last(), k) || k == es.last().0),
{
    let init = es.drop_last();
    assert forall|k: Seq<u8>| #[trigger] listed(es, k) == (listed(init, k) || k == es.last().0) by {
        if listed(es, k) {
            let i = choose|i: int| 0 <= i < es.len() && (#[trigger] es[i]).0 == k;
            if i < init.len() {
                assert(init[i] == es[i]);
            }
        }
        if listed(init, k) {
            let i = choose|i: int| 0 <= i < init.len() && (#[trigger] init[i]).0 == k;
            assert(es[i] == init[i]);
        }
        if k == es.last().0 {
            assert(es[es.len() - 1].0 == k);
        }
    }
}

/// The non-null fields are exactly what the stored map holds.
proof fn lemma_stored_map(fs: Seq<(Seq<char>, ScalarView)>)
    requires
        names_distinct(fs),
    ensures
        forall|j: int|
            0 <= j < fs.len() && !((#[trigger] fs[j]).1 is Null) ==> stored_map(fs).contains_key(
                fs[j].0,
            ) && stored_map(fs)[fs[j].0] == fs[j].1,
        forall|n: Seq<char>|
            #[trigger] stored_map(fs).contains_key(n) ==> exists|j: int|
                0 <= j < fs.len() && (#[trigger] fs[j]).0 == n && !(fs[j].1 is Null),
    decreases fs.len(),
{
    if fs.len() > 0 {
        let init = fs.drop_last();
        assert(names_distinct(init)) by {
            assert forall|a: int, b: int| 0 <= a < b < init.len() implies (#[trigger] init[a]).0
                != (#[trigger] init[b]).0 by {
                assert(fs[a].0 != fs[b].0);
            }
        }
        lemma_stored_map(init);
        assert forall|j: int| 0 <= j < fs.len() && !((#[trigger] fs[j]).1 is Null) implies stored_map(
            fs,
        ).contains_key(fs[j].0) && stored_map(fs)[fs[j].0] == fs[j].1 by {
            if j < init.len() {
                assert(init[j] == fs[j]);
                assert(fs[j].0 != fs[fs.len() - 1].0);
            }
        }
        assert forall|n: Seq<char>| #[trigger] stored_map(fs).contains_key(n) implies exists|j: int|
            0 <= j < fs.len() && (#[trigger] fs[j]).0 == n && !(fs[j].1 is Null) by {
            if stored_map(init).contains_key(n) && !(n == fs.last().0 && !(fs.last().1 is Null)) {
                let j = choose|j: int| 0 <= j < init.len() && (#[trigger] init[j]).0 == n && !(init[j].1 is Null);
                assert(fs[j] == init[j]);
            } else {
                assert(fs[fs.len() - 1] == fs.last());
            }
        }
    }
}

/// What storing a document leaves in the engine, given covering scans:
/// of its own keys only the marker, its cells and its index entries; every
/// other key untouched.
proof fn lemma_put_state(
    m: Map<Seq<u8>, Seq<u8>>,
    id: Seq<char>,
    fs: Seq<(Seq<char>, ScalarView)>,
    rows: Seq<(Seq<u8>, Seq<u8>)>,
    index: Seq<(Seq<u8>, Seq<u8>)>,
)
    requires
        valid_document(id, fs),
        is_scan(m, row_prefix(utf8(id)), rows),
        is_scan(m, index_partition(), index),
    ensures
        ({
            let m2 = apply_ops(m, put_ops(id, fs, rows, index));
            let idb = utf8(id);
            &&& forall|k: Seq<u8>|
                is_row_of(idb, k) ==> (#[trigger] m2.contains_key(k) == (k == marker_key(idb)
                    || cell_written(idb, fs, k)))
            &&& m2.contains_key(marker_key(idb)) && m2[marker_key(idb)] == idb
            &&& is_row_of(idb, marker_key(idb)) && !cell_written(idb, fs, marker_key(idb))
            &&& forall|j: int| 0 <= j < fs.len() ==> m2[cell_key(idb, #[trigger] fs[j])] == cell_bytes(fs[j].1)
            &&& forall|k: Seq<u8>|
                is_index_of(idb, k) ==> (#[trigger] m2.contains_key(k) == entry_written(idb, fs, k))
            &&& forall|k: Seq<u8>| entry_written(idb, fs, k) ==> #[trigger] m2[k] == Seq::<u8>::empty()
            &&& forall|k: Seq<u8>|
                !is_row_of(idb, k) && !is_index_of(idb, k) ==> (#[trigger] m2.contains_key(k)
                    == m.contains_key(k)) && (m.contains_key(k) ==> m2[k] == m[k])
            &&& forall|k: Seq<u8>| cell_written(idb, fs, k) ==> is_row_of(idb, k) && !is_index_of(idb, k)
            &&& forall|k: Seq<u8>| entry_written(idb, fs, k) ==> is_index_of(idb, k) && !is_row_of(idb, k)
        }),
{
    let idb = utf8(id);
    let del = delete_ops(id, rows, index);
    let mw = marker_write(idb);
    lemma_apply_concat(m, del + seq![mw], field_writes(idb, fs));
    lemma_apply_concat(m, del, seq![mw]);
    let m1 = apply_ops(m, del);
    lemma_teardown(m, id, rows, index);
    assert(seq![mw].drop_last() =~= Seq::<OpView>::empty());
    assert(apply_ops(m1, Seq::<OpView>::empty()) == m1);
    assert(seq![mw].last() == mw);
    let mk = m1.insert(marker_key(idb), idb);
    assert(apply_ops(m1, seq![mw]) == mk);
    assert(fields_fit(fs));
    lemma_field_writes(mk, idb, fs);
    let m2 = apply_ops(m, put_ops(id, fs, rows, index));
    assert(m2 == apply_ops(mk, field_writes(idb, fs)));
    // the marker is a cell of the document, and no field's
    lemma_marker_parts(idb);
    lemma_row_not_index(marker_key(idb));
    assert(!cell_written(idb, fs, marker_key(idb))) by {
        if cell_written(idb, fs, marker_key(idb)) {
            let j = choose|j: int| 0 <= j < fs.len() && marker_key(idb) == cell_key(idb, #[trigger] fs[j]);
            lemma_key_kinds(idb, fs[j]);
        }
    }
    assert(!entry_written(idb, fs, marker_key(idb)));
}

proof fn lemma_marker_parts(idb: Seq<u8>)
    requires
        !has_sep(idb),
    ensures
        row_key_parts(marker_key(idb)) == Some((idb, marker_field(), Some(TAG_KEY))),
        !has_sep(marker_field()),
{
    assert(!has_sep(marker_field())) by {
        if marker_field().contains(SEP) {
            let j = choose|j: int| 0 <= j < marker_field().len() && marker_field()[j] == SEP;
            assert(marker_field()[j] != SEP);
        }
    }
    lemma_row_key_parts(idb, marker_field(), Some(TAG_KEY));
}

/// Storing a document and reading it back gives its fields, nulls left out.
pub proof fn law_put_then_get(
    m: Map<Seq<u8>, Seq<u8>>,
    id: Seq<char>,
    fs: Seq<(Seq<char>, ScalarView)>,
    rows: Seq<(Seq<u8>, Seq<u8>)>,
    index: Seq<(Seq<u8>, Seq<u8>)>,
    rows2: Seq<(Seq<u8>, Seq<u8>)>,
)
    requires
        valid_document(id, fs),
        is_scan(m, row_prefix(utf8(id)), rows),
        is_scan(m, index_partition(), index),
        is_scan(apply_ops(m, put_ops(id, fs, rows, index)), row_prefix(utf8(id)), rows2),
    ensures
        has_row(utf8(id), rows2),
        doc_fields(utf8(id), rows2) == stored_map(fs),
{
    let idb = utf8(id);
    let m2 = apply_ops(m, put_ops(id, fs, rows, index));
    lemma_put_state(m, id, fs, rows, index);
    lemma_stored_map(fs);
    // the marker is scanned
    lemma_marker_parts(idb);
    lemma_row_key_has_prefix(marker_key(idb), idb, marker_field(), Some(TAG_KEY));
    let xm = choose|i: int| 0 <= i < rows2.len() && (#[trigger] rows2[i]).0 == marker_key(idb);
    assert(is_row_of(idb, rows2[xm].0));
    lemma_doc_fields_scan(m2, idb, fs, rows2);
    let sm = stored_map(fs);
    assert forall|n: Seq<char>| sm.contains_key(n) implies listed(rows2, cell_key(idb, (n, sm[n]))) by {
        let j = choose|j: int| 0 <= j < fs.len() && (#[trigger] fs[j]).0 == n && !(fs[j].1 is Null);
        lemma_key_kinds(idb, fs[j]);
        assert(cell_key(idb, (n, sm[n])) == cell_key(idb, fs[j]));
        assert(cell_written(idb, fs, cell_key(idb, fs[j])));
        lemma_row_key_has_prefix(cell_key(idb, fs[j]), idb, utf8(n), cell_tag(fs[j].1));
    }
    assert(doc_fields(idb, rows2) =~= sm);
}

/// Reading back the fields of `idb` from entries of the engine after a put.
proof fn lemma_doc_fields_scan(
    m2: Map<Seq<u8>, Seq<u8>>,
    idb: Seq<u8>,
    fs: Seq<(Seq<char>, ScalarView)>,
    es: Seq<(Seq<u8>, Seq<u8>)>,
)
    requires
        !has_sep(idb),
        fields_fit(fs),
        forall|i: int|
            0 <= i < es.len() ==> m2.contains_key((#[trigger] es[i]).0) && m2[es[i].0] == es[i].1,
        forall|k: Seq<u8>|
            is_row_of(idb, k) ==> (#[trigger] m2.contains_key(k) == (k == marker_key(idb)
                || cell_written(idb, fs, k))),
        forall|j: int| 0 <= j < fs.len() ==> m2[cell_key(idb, #[trigger] fs[j])] == cell_bytes(fs[j].1),
    ensures
        forall|n: Seq<char>|
            #[trigger] doc_fields(idb, es).contains_key(n) == (stored_map(fs).contains_key(n)
                && listed(es, cell_key(idb, (n, stored_map(fs)[n])))),
        forall|n: Seq<char>|
            #[trigger] doc_fields(idb, es).contains_key(n) ==> doc_fields(idb, es)[n] == stored_map(
                fs,
            )[n],
    decreases es.len(),
{
    broadcast use encode_utf8_decode_utf8, vstd::utf8::encode_utf8_valid_utf8;

    let sm = stored_map(fs);
    lemma_stored_map(fs);
    if es.len() > 0 {
        let init = es.drop_last();
        let e = es.last();
        assert(es[es.len() - 1] == e);
        assert forall|i: int| 0 <= i < init.len() implies m2.contains_key((#[trigger] init[i]).0)
            && m2[init[i].0] == init[i].1 by {
            assert(init[i] == es[i]);
        }
        lemma_doc_fields_scan(m2, idb, fs, init);
        lemma_listed_last(es);
        let prev = doc_fields(idb, init);
        match cell_field(idb, e) {
            Some(fv) => {
                assert(doc_fields(idb, es) == prev.insert(fv.0, fv.1));
                assert(is_row_of(idb, e.0));
                if e.0 == marker_key(idb) {
                    lemma_row_key_parts(idb, marker_field(), Some(TAG_KEY));
                    assert(false);
                }
                let j = choose|j: int| 0 <= j < fs.len() && e.0 == cell_key(idb, #[trigger] fs[j]);
                lemma_key_kinds(idb, fs[j]);
                assert(!(fs[j].1 is Null));
                lemma_cell_round_trip(fs[j].1);
                assert(fv.1 == fs[j].1);
                assert(fv.0 == fs[j].0);
                assert(sm[fv.0] == fs[j].1);
                assert(listed(es, cell_key(idb, (fv.0, sm[fv.0]))));
                assert forall|n: Seq<char>| sm.contains_key(n) && n != fv.0 implies cell_key(
                    idb,
                    (n, sm[n]),
                ) != e.0 by {
                    let k = choose|k: int| 0 <= k < fs.len() && (#[trigger] fs[k]).0 == n && !(fs[k].1 is Null);
                    lemma_cell_keys_distinct(idb, fs[k], fs[j]);
                }
            },
            None => {
                assert(doc_fields(idb, es) == prev);
                assert forall|n: Seq<char>| sm.contains_key(n) implies cell_key(idb, (n, sm[n])) != e.0 by {
                    let j = choose|j: int| 0 <= j < fs.len() && (#[trigger] fs[j]).0 == n && !(fs[j].1 is Null);
                    if cell_key(idb, (n, sm[n])) == e.0 {
                        lemma_key_kinds(idb, fs[j]);
                        assert(e.0 == cell_key(idb, fs[j]));
                        assert(cell_written(idb, fs, e.0));
                        assert(m2[e.0] == e.1);
                        assert(e.1 == cell_bytes(fs[j].1));
                        lemma_cell_round_trip(fs[j].1);
                        assert(cell_tag(fs[j].1) is Some);
                        assert(cell_field(idb, e) == Some((n, fs[j].1)));
                    }
                }
            },
        }
    }
}

/// After a document is stored, its id holds exactly its marker and its
/// fields' cells, and exactly one index entry for each non-null field;
/// nothing of an earlier version is left, and no other key is touched.
pub proof fn law_put_replaces(
    m: Map<Seq<u8>, Seq<u8>>,
    id: Seq<char>,
    fs: Seq<(Seq<char>, ScalarView)>,
    rows: Seq<(Seq<u8>, Seq<u8>)>,
    index: Seq<(Seq<u8>, Seq<u8>)>,
)
    requires
        valid_document(id, fs),
        is_scan(m, row_prefix(utf8(id)), rows),
        is_scan(m, index_partition(), index),
    ensures
        forall|k: Seq<u8>|
            is_row_of(utf8(id), k) ==> (#[trigger] apply_ops(m, put_ops(id, fs, rows, index)).contains_key(k)
                == (k == marker_key(utf8(id)) || cell_written(utf8(id), fs, k))),
        forall|k: Seq<u8>|
            is_index_of(utf8(id), k) ==> (#[trigger] apply_ops(m, put_ops(id, fs, rows, index)).contains_key(k)
                == entry_written(utf8(id), fs, k)),
        forall|k: Seq<u8>|
            !is_row_of(utf8(id), k) && !is_index_of(utf8(id), k) ==> (#[trigger] apply_ops(
                m,
                put_ops(id, fs, rows, index),
            ).contains_key(k) == m.contains_key(k)),
{
    lemma_put_state(m, id, fs, rows, index);
}

/// Storing the same document twice leaves the engine as storing it once.
pub proof fn law_put_twice(
    m: Map<Seq<u8>, Seq<u8>>,
    id: Seq<char>,
    fs: Seq<(Seq<char>, ScalarView)>,
    rows: Seq<(Seq<u8>, Seq<u8>)>,
    index: Seq<(Seq<u8>, Seq<u8>)>,
    rows1: Seq<(Seq<u8>, Seq<u8>)>,
    index1: Seq<(Seq<u8>, Seq<u8>)>,
)
    requires
        valid_document(id, fs),
        is_scan(m, row_prefix(utf8(id)), rows),
        is_scan(m, index_partition(), index),
        is_scan(apply_ops(m, put_ops(id, fs, rows, index)), row_prefix(utf8(id)), rows1),
        is_scan(apply_ops(m, put_ops(id, fs, rows, index)), index_partition(), index1),
    ensures
        apply_ops(apply_ops(m, put_ops(id, fs, rows, index)), put_ops(id, fs, rows1, index1))
            == apply_ops(m, put_ops(id, fs, rows, index)),
{
    let idb = utf8(id);
    let m1 = apply_ops(m, put_ops(id, fs, rows, index));
    let m2 = apply_ops(m1, put_ops(id, fs, rows1, index1));
    lemma_put_state(m, id, fs, rows, index);
    lemma_put_state(m1, id, fs, rows1, index1);
    assert forall|k: Seq<u8>| #[trigger] m2.contains_key(k) == m1.contains_key(k) && (m1.contains_key(k) ==> m2[k] == m1[k]) by {
        if cell_written(idb, fs, k) {
            let j = choose|j: int| 0 <= j < fs.len() && k == cell_key(idb, #[trigger] fs[j]);
            assert(m2[cell_key(idb, fs[j])] == cell_bytes(fs[j].1));
            assert(m1[cell_key(idb, fs[j])] == cell_bytes(fs[j].1));
        }
    }
    assert(m2 =~= m1);
}

/// A key that decodes to an index entry is no primary cell.
proof fn lemma_index_not_row(k: Seq<u8>)
    requires
        index_key_parts(k) is Some,
    ensures
        row_key_parts(k) is None,
{
    assert(seq![ROW_PART][0] != seq![INDEX_PART][0]);
}

/// Each id a search yields comes from a scanned entry of that exact field
/// and value text, whose id segment is the id's bytes.
proof fn lemma_search_ids_source(fb: Seq<u8>, tb: Seq<u8>, es: Seq<(Seq<u8>, Seq<u8>)>)
    ensures
        forall|x: int|
            0 <= x < crate::store::search_ids(fb, tb, es).len() ==> exists|i: int|
                0 <= i < es.len() && index_key_parts((#[trigger] es[i]).0) == Some(
                    (fb, tb, utf8(#[trigger] crate::store::search_ids(fb, tb, es)[x])),
                ),
    decreases es.len(),
{
    if es.len() > 0 {
        let init = es.drop_last();
        lemma_search_ids_source(fb, tb, init);
        let r = crate::store::search_ids(fb, tb, es);
        let prev = crate::store::search_ids(fb, tb, init);
        assert forall|x: int| 0 <= x < r.len() implies exists|i: int|
            0 <= i < es.len() && index_key_parts((#[trigger] es[i]).0) == Some((fb, tb, utf8(#[trigger] r[x]))) by {
            if x < prev.len() {
                assert(r[x] == prev[x]);
                let i = choose|i: int| 0 <= i < init.len() && index_key_parts((#[trigger] init[i]).0) == Some((fb, tb, utf8(prev[x])));
                assert(es[i] == init[i]);
            } else {
                let p = index_key_parts(es.last().0)->Some_0;
                vstd::utf8::decode_utf8_encode_utf8(p.2);
                assert(es[es.len() - 1] == es.last());
            }
        }
    }
}

/// After a document is deleted, reading it fails and no search yields its
/// id; a search for a pair that only it held yields nothing.
pub proof fn law_delete_removes(
    m: Map<Seq<u8>, Seq<u8>>,
    id: Seq<char>,
    rows: Seq<(Seq<u8>, Seq<u8>)>,
    index: Seq<(Seq<u8>, Seq<u8>)>,
    rows2: Seq<(Seq<u8>, Seq<u8>)>,
    index2: Seq<(Seq<u8>, Seq<u8>)>,
    fb: Seq<u8>,
    tb: Seq<u8>,
)
    requires
        is_scan(m, row_prefix(utf8(id)), rows),
        is_scan(m, index_partition(), index),
        is_scan(apply_ops(m, delete_ops(id, rows, index)), row_prefix(utf8(id)), rows2),
        is_scan(apply_ops(m, delete_ops(id, rows, index)), index_prefix(fb, tb), index2),
    ensures
        !has_row(utf8(id), rows2),
        !crate::store::search_ids(fb, tb, index2).contains(id),
        pair_only_of(m, fb, tb, utf8(id)) ==> crate::store::search_ids(fb, tb, index2).len() == 0,
{
    let idb = utf8(id);
    let m2 = apply_ops(m, delete_ops(id, rows, index));
    lemma_teardown(m, id, rows, index);
    assert(!has_row(idb, rows2)) by {
        if has_row(idb, rows2) {
            let i = choose|i: int| 0 <= i < rows2.len() && is_row_of(idb, (#[trigger] rows2[i]).0);
            assert(m2.contains_key(rows2[i].0));
        }
    }
    let r = crate::store::search_ids(fb, tb, index2);
    lemma_search_ids_source(fb, tb, index2);
    assert(!r.contains(id)) by {
        if r.contains(id) {
            let x = choose|x: int| 0 <= x < r.len() && r[x] == id;
            let i = choose|i: int| 0 <= i < index2.len() && index_key_parts((#[trigger] index2[i]).0) == Some((fb, tb, utf8(r[x])));
            assert(m2.contains_key(index2[i].0));
            assert(is_index_of(idb, index2[i].0));
        }
    }
    if pair_only_of(m, fb, tb, idb) {
        if r.len() > 0 {
            let i = choose|i: int| 0 <= i < index2.len() && index_key_parts((#[trigger] index2[i]).0) == Some((fb, tb, utf8(r[0])));
            let k = index2[i].0;
            assert(m2.contains_key(k));
            lemma_index_not_row(k);
            assert(m.contains_key(k));
            assert(is_index_of(idb, k));
        }
    }
}

/// Whether `k` is an index entry of the pair (`fb`, `tb`).
pub open spec fn is_pair_entry(fb: Seq<u8>, tb: Seq<u8>, k: Seq<u8>) -> bool {
    match index_key_parts(k) {
        Some((f, t, _i)) => f == fb && t == tb,
        None => false,
    }
}

/// Whether every index entry of the pair (`fb`, `tb`) in `m` belongs to `idb`.
pub open spec fn pair_only_of(m: Map<Seq<u8>, Seq<u8>>, fb: Seq<u8>, tb: Seq<u8>, idb: Seq<u8>) -> bool {
    forall|k: Seq<u8>| #[trigger] m.contains_key(k) && is_pair_entry(fb, tb, k) ==> is_index_of(idb, k)
}

/// The ids of the documents the engine holds: those with a primary cell.
pub open spec fn stored_ids(m: Map<Seq<u8>, Seq<u8>>) -> Set<Seq<char>> {
    Set::new(|s: Seq<char>| exists|k: Seq<u8>| #[trigger] m.contains_key(k) && is_row_of(utf8(s), k))
}

proof fn lemma_row_ids_complete(es: Seq<(Seq<u8>, Seq<u8>)>, i: int, b: Seq<u8>)
    requires
        0 <= i < es.len(),
        row_key_parts(es[i].0) matches Some((x, _f, _t)) && x == b,
        valid_utf8(b),
    ensures
        crate::store::row_ids(es).contains(decode_utf8(b)),
    decreases es.len(),
{
    let init = es.drop_last();
    let prev = crate::store::row_ids(init);
    if i < init.len() {
        assert(init[i] == es[i]);
        lemma_row_ids_complete(init, i, b);
        let x = choose|x: int| 0 <= x < prev.len() && prev[x] == decode_utf8(b);
        let r = crate::store::row_ids(es);
        assert(r[x] == prev[x]);
    } else {
        let r = crate::store::row_ids(es);
        if !prev.contains(decode_utf8(b)) {
            assert(r[r.len() - 1] == decode_utf8(b));
        } else {
            let x = choose|x: int| 0 <= x < prev.len() && prev[x] == decode_utf8(b);
            assert(r[x] == prev[x]);
        }
    }
}

/// A scan of the whole row partition lists each stored document once:
/// reading all documents yields exactly as many as there are ids.
pub proof fn law_get_all_count(m: Map<Seq<u8>, Seq<u8>>, es: Seq<(Seq<u8>, Seq<u8>)>)
    requires
        is_scan(m, row_partition(), es),
    ensures
        crate::store::row_ids(es).no_duplicates(),
        crate::store::row_ids(es).to_set() == stored_ids(m),
        stored_ids(m).finite(),
        stored_ids(m).len() == crate::store::row_ids(es).len(),
{
    broadcast use vstd::utf8::encode_utf8_decode_utf8, vstd::utf8::encode_utf8_valid_utf8;

    let r = crate::store::row_ids(es);
    crate::store::lemma_row_ids_have_rows(es);
    assert forall|s: Seq<char>| r.contains(s) implies #[trigger] stored_ids(m).contains(s) by {
        let x = choose|x: int| 0 <= x < r.len() && r[x] == s;
        let i = choose|i: int| 0 <= i < es.len() && is_row_of(utf8(r[x]), (#[trigger] es[i]).0);
        assert(m.contains_key(es[i].0));
    }
    assert forall|s: Seq<char>| #[trigger] stored_ids(m).contains(s) implies r.contains(s) by {
        let k = choose|k: Seq<u8>| #[trigger] m.contains_key(k) && is_row_of(utf8(s), k);
        let p = row_key_parts(k)->Some_0;
        lemma_row_key_has_prefix(k, p.0, p.1, p.2);
        crate::codec::lemma_join2(seq![ROW_PART], p.0);
        assert(row_partition().is_prefix_of(k)) by {
            assert(k[0] == row_prefix(p.0)[0]);
            assert(k[1] == row_prefix(p.0)[1]);
        }
        let i = choose|i: int| 0 <= i < es.len() && (#[trigger] es[i]).0 == k;
        lemma_row_ids_complete(es, i, utf8(s));
    }
    assert(r.to_set() =~= stored_ids(m));
    r.unique_seq_to_set();
}

/// A key that decodes to a primary cell is no index entry.
proof fn lemma_row_not_index(k: Seq<u8>)
    requires
        row_key_parts(k) is Some,
    ensures
        index_key_parts(k) is None,
{
    assert(seq![ROW_PART][0] != seq![INDEX_PART][0]);
}

/// Storing a document adds its id to the stored ids and changes no other.
pub proof fn law_put_adds_id(
    m: Map<Seq<u8>, Seq<u8>>,
    id: Seq<char>,
    fs: Seq<(Seq<char>, ScalarView)>,
    rows: Seq<(Seq<u8>, Seq<u8>)>,
    index: Seq<(Seq<u8>, Seq<u8>)>,
)
    requires
        valid_document(id, fs),
        is_scan(m, row_prefix(utf8(id)), rows),
        is_scan(m, index_partition(), index),
    ensures
        stored_ids(apply_ops(m, put_ops(id, fs, rows, index))) == stored_ids(m).insert(id),
{
    let idb = utf8(id);
    let m2 = apply_ops(m, put_ops(id, fs, rows, index));
    lemma_put_state(m, id, fs, rows, index);
    assert forall|s: Seq<char>| #[trigger] stored_ids(m2).contains(s) == stored_ids(m).insert(id).contains(s) by {
        if s == id {
            assert(m2.contains_key(marker_key(idb)) && is_row_of(utf8(s), marker_key(idb)));
        } else {
            crate::document::lemma_utf8_injective(s, id);
            assert forall|k: Seq<u8>| is_row_of(utf8(s), k) implies !is_row_of(idb, k) && !is_index_of(idb, k) && (#[trigger] m2.contains_key(k) == m.contains_key(k)) by {
                lemma_row_not_index(k);
            }
            if stored_ids(m2).contains(s) {
                let k = choose|k: Seq<u8>| #[trigger] m2.contains_key(k) && is_row_of(utf8(s), k);
                assert(m.contains_key(k));
            }
            if stored_ids(m).contains(s) {
                let k = choose|k: Seq<u8>| #[trigger] m.contains_key(k) && is_row_of(utf8(s), k);
                assert(m2.contains_key(k));
            }
        }
    }
    assert(stored_ids(m2) =~= stored_ids(m).insert(id));
}

proof fn lemma_search_ids_complete(fb: Seq<u8>, tb: Seq<u8>, es: Seq<(Seq<u8>, Seq<u8>)>, i: int, b: Seq<u8>)
    requires
        0 <= i < es.len(),
        index_key_parts(es[i].0) == Some((fb, tb, b)),
        valid_utf8(b),
    ensures
        crate::store::search_ids(fb, tb, es).contains(decode_utf8(b)),
    decreases es.len(),
{
    let init = es.drop_last();
    let r = crate::store::search_ids(fb, tb, es);
    let prev = crate::store::search_ids(fb, tb, init);
    if i < init.len() {
        assert(init[i] == es[i]);
        lemma_search_ids_complete(fb, tb, init, i, b);
        let x = choose|x: int| 0 <= x < prev.len() && prev[x] == decode_utf8(b);
        assert(r[x] == prev[x]);
    } else {
        assert(r[r.len() - 1] == decode_utf8(b));
    }
}

/// A search yields an id exactly when the engine holds the index entry of
/// that field, value text and id.
pub proof fn law_search_exact(
    m: Map<Seq<u8>, Seq<u8>>,
    fb: Seq<u8>,
    tb: Seq<u8>,
    es: Seq<(Seq<u8>, Seq<u8>)>,
    id: Seq<char>,
)
    requires
        is_scan(m, index_prefix(fb, tb), es),
        !has_sep(fb),
        !has_sep(tb),
        !has_sep(utf8(id)),
    ensures
        crate::store::search_ids(fb, tb, es).contains(id) == m.contains_key(
            index_key(fb, tb, utf8(id)),
        ),
{
    broadcast use vstd::utf8::encode_utf8_decode_utf8, vstd::utf8::encode_utf8_valid_utf8;

    let k = index_key(fb, tb, utf8(id));
    let r = crate::store::search_ids(fb, tb, es);
    lemma_index_key_parts(fb, tb, utf8(id));
    lemma_index_key_has_prefix(k, fb, tb, utf8(id));
    if r.contains(id) {
        lemma_search_ids_source(fb, tb, es);
        let x = choose|x: int| 0 <= x < r.len() && r[x] == id;
        let i = choose|i: int| 0 <= i < es.len() && index_key_parts((#[trigger] es[i]).0) == Some((fb, tb, utf8(r[x])));
        lemma_index_key_has_prefix(es[i].0, fb, tb, utf8(id));
        assert(m.contains_key(es[i].0));
    }
    if m.contains_key(k) {
        assert(index_prefix(fb, tb).is_prefix_of(k)) by {
            assert(k.take(index_prefix(fb, tb).len() as int) =~= index_prefix(fb, tb));
        }
        let i = choose|i: int| 0 <= i < es.len() && (#[trigger] es[i]).0 == k;
        lemma_search_ids_complete(fb, tb, es, i, utf8(id));
    }
}

/// A document as an id and its fields.
pub type DocModel = (Seq<char>, Seq<(Seq<char>, ScalarView)>);

/// Scans of the row prefix of a document's id and of the index partition.
pub type ScanPair = (Seq<(Seq<u8>, Seq<u8>)>, Seq<(Seq<u8>, Seq<u8>)>);

/// The engine after storing the documents one after another, the `i`-th
/// planned with the `i`-th pair of scans.
pub open spec fn after_puts(m: Map<Seq<u8>, Seq<u8>>, docs: Seq<DocModel>, scans: Seq<ScanPair>) -> Map<
    Seq<u8>,
    Seq<u8>,
>
    decreases docs.len(),
{
    if docs.len() == 0 || scans.len() < docs.len() {
        m
    } else {
        let d = docs.last();
        let sc = scans[docs.len() - 1];
        apply_ops(after_puts(m, docs.drop_last(), scans), put_ops(d.0, d.1, sc.0, sc.1))
    }
}

/// Each document is storable and was planned with scans of the engine as
/// it stood just before it.
pub open spec fn puts_well_scanned(m: Map<Seq<u8>, Seq<u8>>, docs: Seq<DocModel>, scans: Seq<ScanPair>) -> bool {
    &&& scans.len() == docs.len()
    &&& forall|i: int|
        0 <= i < docs.len() ==> {
            &&& valid_document((#[trigger] docs[i]).0, docs[i].1)
            &&& is_scan(after_puts(m, docs.take(i), scans), row_prefix(utf8(docs[i].0)), scans[i].0)
            &&& is_scan(after_puts(m, docs.take(i), scans), index_partition(), scans[i].1)
        }
}

/// The ids of the documents.
pub open spec fn doc_ids(docs: Seq<DocModel>) -> Seq<Seq<char>> {
    docs.map_values(|d: DocModel| d.0)
}

proof fn lemma_after_puts_ids(docs: Seq<DocModel>, scans: Seq<ScanPair>, n: int)
    requires
        puts_well_scanned(Map::empty(), docs, scans),
        0 <= n <= docs.len(),
    ensures
        stored_ids(after_puts(Map::empty(), docs.take(n), scans)) == doc_ids(docs.take(n)).to_set(),
    decreases n,
{
    let e = Map::<Seq<u8>, Seq<u8>>::empty();
    if n == 0 {
        assert(docs.take(0).len() == 0);
        assert(stored_ids(e) =~= Set::empty());
        assert(doc_ids(docs.take(0)).to_set() =~= Set::empty());
    } else {
        lemma_after_puts_ids(docs, scans, n - 1);
        let t = docs.take(n);
        assert(t.drop_last() =~= docs.take(n - 1));
        assert(t.last() == docs[n - 1]);
        let d = docs[n - 1];
        assert(valid_document(d.0, d.1));
        let prev = after_puts(e, docs.take(n - 1), scans);
        assert(after_puts(e, t, scans) == apply_ops(prev, put_ops(d.0, d.1, scans[n - 1].0, scans[n - 1].1)));
        law_put_adds_id(prev, d.0, d.1, scans[n - 1].0, scans[n - 1].1);
        assert(doc_ids(t) =~= doc_ids(docs.take(n - 1)).push(d.0));
        doc_ids(docs.take(n - 1)).lemma_push_to_set_commute(d.0);
    }
}

/// After storing documents with distinct ids into an empty engine, reading
/// all documents yields exactly one per document stored, whatever their
/// fields.
pub proof fn law_get_all_after_puts(docs: Seq<DocModel>, scans: Seq<ScanPair>, es: Seq<(Seq<u8>, Seq<u8>)>)
    requires
        puts_well_scanned(Map::empty(), docs, scans),
        doc_ids(docs).no_duplicates(),
        is_scan(after_puts(Map::empty(), docs, scans), row_partition(), es),
    ensures
        crate::store::row_ids(es).len() == docs.len(),
        crate::store::row_ids(es).to_set() == doc_ids(docs).to_set(),
{
    lemma_after_puts_ids(docs, scans, docs.len() as int);
    assert(docs.take(docs.len() as int) =~= docs);
    law_get_all_count(after_puts(Map::empty(), docs, scans), es);
    doc_ids(docs).unique_seq_to_set();
}

} // verus!
