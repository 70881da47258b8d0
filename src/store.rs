//! The decisions of each operation over the storage engine's keyspace:
//! reading documents and ids back from scans, and the writes and erasures
//! that store or remove a document.
use crate::codec::{
    bytes_equal, decode_index_key, decode_row_key, encode_index_key, encode_row_key, has_sep,
    index_key, index_key_parts, row_key, row_key_parts, to_vec,
};
use crate::document::{
    cell_bytes, cell_tag, cell_value, decode_cell, decode_text, field_map, field_views,
    index_text, lemma_field_map_update, lemma_utf8_injective,
    marker_field, names_distinct, scalar_cell, scalar_index_text, utf8, utf8_bytes,
    valid_document, Document, Field, IndexError, ScalarView, TAG_KEY,
};
use vstd::prelude::*;
use vstd::utf8::{decode_utf8, encode_utf8_decode_utf8, encode_utf8_valid_utf8, valid_utf8};

verus! {

/// A key-value pair read from the storage engine.
#[derive(Debug, Clone, PartialEq)]
pub struct Entry {
    pub key: Vec<u8>,
    pub value: Vec<u8>,
}

impl View for Entry {
    type V = (Seq<u8>, Seq<u8>);

    open spec fn view(&self) -> (Seq<u8>, Seq<u8>) {
        (self.key@, self.value@)
    }
}

/// The views of a list of entries.
pub open spec fn entry_views(es: Seq<Entry>) -> Seq<(Seq<u8>, Seq<u8>)> {
    es.map_values(|e: Entry| e@)
}

/// Whether `k` is the key of a primary cell of the document whose id has
/// the bytes `idb`.
pub open spec fn is_row_of(idb: Seq<u8>, k: Seq<u8>) -> bool {
    match row_key_parts(k) {
        Some((i, _f, _t)) => i == idb,
        None => false,
    }
}

/// Whether `k` is the key of an index entry of the document whose id has
/// the bytes `idb`.
pub open spec fn is_index_of(idb: Seq<u8>, k: Seq<u8>) -> bool {
    match index_key_parts(k) {
        Some((_f, _t, i)) => i == idb,
        None => false,
    }
}

/// Whether some scanned entry is a primary cell of `idb`.
pub open spec fn has_row(idb: Seq<u8>, rows: Seq<(Seq<u8>, Seq<u8>)>) -> bool {
    exists|i: int| 0 <= i < rows.len() && is_row_of(idb, (#[trigger] rows[i]).0)
}

/// The field a scanned entry contributes to the document `idb`, if any:
/// a cell of `idb` whose name is UTF-8 and whose tag and bytes make a value.
pub open spec fn cell_field(idb: Seq<u8>, e: (Seq<u8>, Seq<u8>)) -> Option<(Seq<char>, ScalarView)> {
    match row_key_parts(e.0) {
        Some((i, f, Some(t))) => if i == idb && valid_utf8(f) {
            match cell_value(t, e.1) {
                Some(v) => Some((decode_utf8(f), v)),
                None => None,
            }
        } else {
            None
        },
        _ => None,
    }
}

/// The fields of the document `idb` that the scanned entries hold, later
/// entries taking precedence.
pub open spec fn doc_fields(idb: Seq<u8>, rows: Seq<(Seq<u8>, Seq<u8>)>) -> Map<
    Seq<char>,
    ScalarView,
>
    decreases rows.len(),
{
    if rows.len() == 0 {
        Map::empty()
    } else {
        match cell_field(idb, rows.last()) {
            Some(f) => doc_fields(idb, rows.drop_last()).insert(f.0, f.1),
            None => doc_fields(idb, rows.drop_last()),
        }
    }
}

/// Reads the document `id` back from a scan of the engine that starts at
/// its row prefix. Entries that are not cells of `id` are passed over, as
/// are the presence marker, nulls, and cells that do not decode.
pub fn read_document(id: &String, rows: &Vec<Entry>) -> (r: Result<Document, IndexError>)
    ensures
        r is Err <==> !has_row(utf8(id@), entry_views(rows@)),
        r matches Err(e) ==> e == IndexError::KeyNotFound,
        r matches Ok(d) ==> {
            &&& d.id@ == id@
            &&& names_distinct(field_views(d.fields@))
            &&& field_map(field_views(d.fields@)) == doc_fields(
                utf8(id@),
                entry_views(rows@),
            )
        },
{
    let idb = utf8_bytes(id);
    let ghost rv = entry_views(rows@);
    let mut fields: Vec<Field> = Vec::new();
    let mut names: Vec<Vec<u8>> = Vec::new();
    let mut found = false;
    let mut i: usize = 0;
    while i < rows.len()
        invariant
            i <= rows@.len(),
            rv == entry_views(rows@),
            idb@ == utf8(id@),
            names@.len() == fields@.len(),
            forall|j: int| 0 <= j < names@.len() ==> (#[trigger] names@[j])@ == utf8(fields@[j].name@),
            names_distinct(field_views(fields@)),
            field_map(field_views(fields@)) == doc_fields(idb@, rv.take(i as int)),
            found == has_row(idb@, rv.take(i as int)),
        decreases rows@.len() - i,
    {
        let ghost prev = rv.take(i as int);
        assert(rv.take(i + 1).drop_last() =~= prev);
        assert(rv.take(i + 1).last() == rows@[i as int]@);
        let e = &rows[i];
        let rk = decode_row_key(e.key.as_slice());
        let mut is_row = false;
        match rk {
            Some(rk) => {
                if bytes_equal(rk.id.as_slice(), idb.as_slice()) {
                    is_row = true;
                    match rk.tag {
                        Some(t) => {
                            let v = decode_cell(t, e.value.as_slice());
                            match v {
                                Some(v) => {
                                    let fname = decode_text(to_vec(rk.field.as_slice()));
                                    match fname {
                                        Some(name) => {
                                            let ghost fv = (name@, v@);
                                            assert(cell_field(idb@, rows@[i as int]@) == Some(fv));
                                            let ghost old_fields = field_views(fields@);
                                            let mut j: usize = 0;
                                            let mut at: Option<usize> = None;
                                            while j < names.len()
                                                invariant
                                                    j <= names@.len(),
                                                    names@.len() == fields@.len(),
                                                    at is None ==> forall|x: int| 0 <= x < j ==> (#[trigger] names@[x])@ != rk.field@,
                                                    at matches Some(a) ==> a < names@.len() && names@[a as int]@ == rk.field@,
                                                decreases names@.len() - j,
                                            {
                                                if at.is_none() && bytes_equal(names[j].as_slice(), rk.field.as_slice()) {
                                                    at = Some(j);
                                                }
                                                j = j + 1;
                                            }
                                            proof {
                                                broadcast use encode_utf8_decode_utf8, encode_utf8_valid_utf8;
                                                assert(utf8(name@) == rk.field@) by {
                                                    vstd::utf8::decode_utf8_encode_utf8(rk.field@);
                                                }
                                            }
                                            let fb = to_vec(rk.field.as_slice());
                                            match at {
                                                Some(a) => {
                                                    proof {
                                                        lemma_utf8_injective(fields@[a as int].name@, name@);
                                                        lemma_field_map_update(old_fields, a as int, fv);
                                                    }
                                                    fields.set(a, Field { name, value: v });
                                                    names.set(a, fb);
                                                    assert(field_views(fields@) =~= old_fields.update(a as int, fv));
                                                },
                                                None => {
                                                    proof {
                                                        assert forall|x: int| 0 <= x < old_fields.len() implies (#[trigger] old_fields[x]).0 != name@ by {
                                                            assert(names@[x]@ != rk.field@);
                                                        }
                                                    }
                                                    fields.push(Field { name, value: v });
                                                    names.push(fb);
                                                    assert(field_views(fields@) =~= old_fields.push(fv));
                                                    assert(field_views(fields@).drop_last() =~= old_fields);
                                                },
                                            }
                                        },
                                        None => {},
                                    }
                                },
                                None => {},
                            }
                        },
                        None => {},
                    }
                }
            },
            None => {},
        }
        proof {
            let cur = rv.take(i + 1);
            if is_row {
                assert(is_row_of(idb@, cur[i as int].0));
            }
            if has_row(idb@, cur) {
                let x = choose|x: int| 0 <= x < cur.len() && is_row_of(idb@, (#[trigger] cur[x]).0);
                if x < i {
                    assert(prev[x] == cur[x]);
                }
            }
            if has_row(idb@, prev) {
                let x = choose|x: int| 0 <= x < prev.len() && is_row_of(idb@, (#[trigger] prev[x]).0);
                assert(cur[x] == prev[x]);
            }
        }
        found = found || is_row;
        i = i + 1;
    }
    assert(rv.take(i as int) =~= rv);
    if found {
        Ok(Document { id: id.clone(), fields })
    } else {
        Err(IndexError::KeyNotFound)
    }
}

/// One change to the storage engine.
#[derive(Debug, Clone, PartialEq)]
pub enum Op {
    /// Store `value` under `key`, replacing what was there.
    Write { key: Vec<u8>, value: Vec<u8> },
    /// Remove `key`, if present.
    Erase { key: Vec<u8> },
}

/// A change to the storage engine, as a mathematical value.
pub enum OpView {
    Write(Seq<u8>, Seq<u8>),
    Erase(Seq<u8>),
}

impl View for Op {
    type V = OpView;

    open spec fn view(&self) -> OpView {
        match self {
            Op::Write { key, value } => OpView::Write(key@, value@),
            Op::Erase { key } => OpView::Erase(key@),
        }
    }
}

/// The views of a list of changes.
pub open spec fn op_views(ops: Seq<Op>) -> Seq<OpView> {
    ops.map_values(|o: Op| o@)
}

/// Erasures of the scanned primary cells of `idb`, in scan order.
pub open spec fn erase_rows(idb: Seq<u8>, rows: Seq<(Seq<u8>, Seq<u8>)>) -> Seq<OpView>
    decreases rows.len(),
{
    if rows.len() == 0 {
        Seq::empty()
    } else if is_row_of(idb, rows.last().0) {
        erase_rows(idb, rows.drop_last()).push(OpView::Erase(rows.last().0))
    } else {
        erase_rows(idb, rows.drop_last())
    }
}

/// Erasures of the scanned index entries of `idb`, in scan order.
pub open spec fn erase_index(idb: Seq<u8>, index: Seq<(Seq<u8>, Seq<u8>)>) -> Seq<OpView>
    decreases index.len(),
{
    if index.len() == 0 {
        Seq::empty()
    } else if is_index_of(idb, index.last().0) {
        erase_index(idb, index.drop_last()).push(OpView::Erase(index.last().0))
    } else {
        erase_index(idb, index.drop_last())
    }
}

/// The presence marker of `idb`: a cell under the reserved field name,
/// holding the id.
pub open spec fn marker_write(idb: Seq<u8>) -> OpView {
    OpView::Write(row_key(idb, marker_field(), Some(TAG_KEY)), idb)
}

/// The writes for one field of `idb`: its primary cell, then, unless it is
/// null, its index entry.
pub open spec fn field_ops(idb: Seq<u8>, f: (Seq<char>, ScalarView)) -> Seq<OpView> {
    let cell = OpView::Write(row_key(idb, utf8(f.0), cell_tag(f.1)), cell_bytes(f.1));
    match index_text(f.1) {
        Some(t) => seq![cell, OpView::Write(index_key(utf8(f.0), t, idb), Seq::empty())],
        None => seq![cell],
    }
}

/// The writes for all the fields of `idb`, field by field.
pub open spec fn field_writes(idb: Seq<u8>, fs: Seq<(Seq<char>, ScalarView)>) -> Seq<OpView>
    decreases fs.len(),
{
    if fs.len() == 0 {
        Seq::empty()
    } else {
        field_writes(idb, fs.drop_last()) + field_ops(idb, fs.last())
    }
}

/// The changes that remove the document `id`: every scanned primary cell
/// of it, then every scanned index entry whose id segment is exactly it.
pub open spec fn delete_ops(
    id: Seq<char>,
    rows: Seq<(Seq<u8>, Seq<u8>)>,
    index: Seq<(Seq<u8>, Seq<u8>)>,
) -> Seq<OpView> {
    erase_rows(utf8(id), rows) + erase_index(utf8(id), index)
}

/// The changes that store a document: full teardown of what `id` had,
/// then its marker, then its fields.
pub open spec fn put_ops(
    id: Seq<char>,
    fs: Seq<(Seq<char>, ScalarView)>,
    rows: Seq<(Seq<u8>, Seq<u8>)>,
    index: Seq<(Seq<u8>, Seq<u8>)>,
) -> Seq<OpView> {
    delete_ops(id, rows, index) + seq![marker_write(utf8(id))] + field_writes(utf8(id), fs)
}

/// Appends erasures of the scanned primary cells of `idb`.
fn push_row_erasures(ops: &mut Vec<Op>, idb: &[u8], rows: &Vec<Entry>)
    ensures
        op_views(final(ops)@) == op_views(old(ops)@) + erase_rows(idb@, entry_views(rows@)),
{
    let ghost start = op_views(ops@);
    let ghost rv = entry_views(rows@);
    let mut i: usize = 0;
    assert(start + erase_rows(idb@, rv.take(0)) =~= start);
    while i < rows.len()
        invariant
            i <= rows@.len(),
            rv == entry_views(rows@),
            op_views(ops@) == start + erase_rows(idb@, rv.take(i as int)),
        decreases rows@.len() - i,
    {
        assert(rv.take(i + 1).drop_last() =~= rv.take(i as int));
        let ghost before = ops@;
        match decode_row_key(rows[i].key.as_slice()) {
            Some(rk) => {
                if bytes_equal(rk.id.as_slice(), idb) {
                    ops.push(Op::Erase { key: to_vec(rows[i].key.as_slice()) });
                    assert(op_views(ops@) =~= op_views(before).push(OpView::Erase(rv[i as int].0)));
                }
            },
            None => {},
        }
        i = i + 1;
    }
    assert(rv.take(i as int) =~= rv);
}

/// Appends erasures of the scanned index entries of `idb`.
fn push_index_erasures(ops: &mut Vec<Op>, idb: &[u8], index: &Vec<Entry>)
    ensures
        op_views(final(ops)@) == op_views(old(ops)@) + erase_index(idb@, entry_views(index@)),
{
    let ghost start = op_views(ops@);
    let ghost rv = entry_views(index@);
    let mut i: usize = 0;
    assert(start + erase_index(idb@, rv.take(0)) =~= start);
    while i < index.len()
        invariant
            i <= index@.len(),
            rv == entry_views(index@),
            op_views(ops@) == start + erase_index(idb@, rv.take(i as int)),
        decreases index@.len() - i,
    {
        assert(rv.take(i + 1).drop_last() =~= rv.take(i as int));
        let ghost before = ops@;
        match decode_index_key(index[i].key.as_slice()) {
            Some(ik) => {
                if bytes_equal(ik.id.as_slice(), idb) {
                    ops.push(Op::Erase { key: to_vec(index[i].key.as_slice()) });
                    assert(op_views(ops@) =~= op_views(before).push(OpView::Erase(rv[i as int].0)));
                }
            },
            None => {},
        }
        i = i + 1;
    }
    assert(rv.take(i as int) =~= rv);
}

/// The changes that remove the document `id`, given a scan of the engine
/// from its row prefix and a scan of the whole index partition. Removing a
/// document that is not there changes nothing.
pub fn plan_delete(id: &String, rows: &Vec<Entry>, index: &Vec<Entry>) -> (r: Vec<Op>)
    ensures
        op_views(r@) == delete_ops(id@, entry_views(rows@), entry_views(index@)),
{
    let idb = utf8_bytes(id);
    let mut ops: Vec<Op> = Vec::new();
    assert(op_views(ops@) =~= Seq::<OpView>::empty());
    push_row_erasures(&mut ops, idb.as_slice(), rows);
    push_index_erasures(&mut ops, idb.as_slice(), index);
    assert(op_views(ops@) =~= delete_ops(id@, entry_views(rows@), entry_views(index@)));
    ops
}

/// Whether a document can be stored: a non-empty id, distinct field
/// names, no separator byte in the id, a name or an index text, and finite
/// numbers.
pub fn check_document(d: &Document) -> (r: bool)
    ensures
        r == valid_document(d.id@, field_views(d.fields@)),
{
    let ghost fv = field_views(d.fields@);
    let idb = utf8_bytes(&d.id);
    proof {
        crate::document::lemma_utf8_empty(d.id@);
    }
    if idb.len() == 0 || crate::codec::contains_sep(idb.as_slice()) {
        return false;
    }
    let mut names: Vec<Vec<u8>> = Vec::new();
    let mut i: usize = 0;
    while i < d.fields.len()
        invariant
            i <= fv.len(),
            fv == field_views(d.fields@),
            names@.len() == i,
            forall|x: int| 0 <= x < i ==> (#[trigger] names@[x])@ == utf8(fv[x].0),
            forall|x: int, y: int| 0 <= x < y < i ==> (#[trigger] fv[x]).0 != (#[trigger] fv[y]).0,
            forall|x: int|
                0 <= x < i ==> !has_sep(utf8((#[trigger] fv[x]).0)) && crate::document::storable(
                    fv[x].1,
                ),
        decreases fv.len() - i,
    {
        let f = &d.fields[i];
        assert(fv[i as int] == f@);
        let nb = utf8_bytes(&f.name);
        if crate::codec::contains_sep(nb.as_slice()) {
            return false;
        }
        if !crate::document::scalar_storable(&f.value) {
            return false;
        }
        let mut j: usize = 0;
        while j < names.len()
            invariant
                j <= names@.len(),
                names@.len() == i,
                fv == field_views(d.fields@),
                i < fv.len(),
                nb@ == utf8(fv[i as int].0),
                forall|x: int| 0 <= x < i ==> (#[trigger] names@[x])@ == utf8(fv[x].0),
                forall|x: int| 0 <= x < j ==> (#[trigger] fv[x]).0 != fv[i as int].0,
            decreases names@.len() - j,
        {
            if bytes_equal(names[j].as_slice(), nb.as_slice()) {
                proof {
                    lemma_utf8_injective(fv[j as int].0, fv[i as int].0);
                    assert(!names_distinct(fv)) by {
                        assert(fv[j as int].0 == fv[i as int].0);
                    }
                }
                return false;
            }
            proof {
                if fv[j as int].0 == fv[i as int].0 {
                    assert(names@[j as int]@ == nb@);
                }
            }
            j = j + 1;
        }
        names.push(nb);
        i = i + 1;
        proof {
            assert forall|x: int, y: int| 0 <= x < y < i implies (#[trigger] fv[x]).0 != (
            #[trigger] fv[y]).0 by {}
        }
    }
    true
}

/// The changes that store `d`, replacing any document with its id, given a
/// scan of the engine from the id's row prefix and a scan of the whole
/// index partition. A document that cannot be stored is refused.
pub fn plan_put(d: &Document, rows: &Vec<Entry>, index: &Vec<Entry>) -> (r: Result<
    Vec<Op>,
    IndexError,
>)
    ensures
        r is Err <==> !valid_document(d.id@, field_views(d.fields@)),
        r matches Err(e) ==> e == IndexError::InvalidInput,
        r matches Ok(ops) ==> op_views(ops@) == put_ops(
            d.id@,
            field_views(d.fields@),
            entry_views(rows@),
            entry_views(index@),
        ),
{
    if !check_document(d) {
        return Err(IndexError::InvalidInput);
    }
    let ghost fv = field_views(d.fields@);
    let idb = utf8_bytes(&d.id);
    let mut ops = plan_delete(&d.id, rows, index);
    let ghost base = op_views(ops@);
    let marker: Vec<u8> = vec![0x6bu8, 0x65u8, 0x79u8];
    assert(marker@ =~= marker_field());
    let mk = encode_row_key(idb.as_slice(), marker.as_slice(), Some(TAG_KEY));
    ops.push(Op::Write { key: mk, value: to_vec(idb.as_slice()) });
    assert(op_views(ops@) =~= base.push(marker_write(idb@)));
    let ghost head = op_views(ops@);
    let mut i: usize = 0;
    assert(head + field_writes(idb@, fv.take(0)) =~= head);
    while i < d.fields.len()
        invariant
            i <= fv.len(),
            fv == field_views(d.fields@),
            idb@ == utf8(d.id@),
            op_views(ops@) == head + field_writes(idb@, fv.take(i as int)),
        decreases fv.len() - i,
    {
        let f = &d.fields[i];
        assert(fv[i as int] == f@);
        assert(fv.take(i + 1).drop_last() =~= fv.take(i as int));
        let ghost before = op_views(ops@);
        let nb = utf8_bytes(&f.name);
        let (tag, bytes) = scalar_cell(&f.value);
        let ck = encode_row_key(idb.as_slice(), nb.as_slice(), tag);
        ops.push(Op::Write { key: ck, value: bytes });
        let ghost cell = OpView::Write(row_key(idb@, utf8(f.name@), cell_tag(f.value@)), cell_bytes(f.value@));
        assert(op_views(ops@) =~= before.push(cell));
        match scalar_index_text(&f.value) {
            Some(t) => {
                let ik = encode_index_key(nb.as_slice(), t.as_slice(), idb.as_slice());
                let empty: Vec<u8> = Vec::new();
                ops.push(Op::Write { key: ik, value: empty });
                assert(op_views(ops@) =~= before + field_ops(idb@, f@));
            },
            None => {
                assert(op_views(ops@) =~= before + field_ops(idb@, f@));
            },
        }
        i = i + 1;
        assert(op_views(ops@) =~= head + field_writes(idb@, fv.take(i as int)));
    }
    assert(fv.take(i as int) =~= fv);
    assert(op_views(ops@) =~= put_ops(d.id@, fv, entry_views(rows@), entry_views(index@)));
    Ok(ops)
}

/// The ids that scanned index entries give for the pair (`fb`, `tb`), in
/// scan order: the id segment of each entry of that exact field and value
/// text, where it is UTF-8.
pub open spec fn search_ids(fb: Seq<u8>, tb: Seq<u8>, index: Seq<(Seq<u8>, Seq<u8>)>) -> Seq<
    Seq<char>,
>
    decreases index.len(),
{
    if index.len() == 0 {
        Seq::empty()
    } else {
        let prev = search_ids(fb, tb, index.drop_last());
        match index_key_parts(index.last().0) {
            Some((f, t, i)) => if f == fb && t == tb && valid_utf8(i) {
                prev.push(decode_utf8(i))
            } else {
                prev
            },
            None => prev,
        }
    }
}

/// The views of a list of strings.
pub open spec fn string_views(v: Seq<String>) -> Seq<Seq<char>> {
    v.map_values(|s: String| s@)
}

/// The ids of the documents whose field `field` holds the value whose
/// index text is `value`, given a scan of the engine from that pair's index
/// prefix. Fails with `KeyNotFound` when there is none.
pub fn find_ids(field: &String, value: &String, index: &Vec<Entry>) -> (r: Result<
    Vec<String>,
    IndexError,
>)
    ensures
        r is Err <==> search_ids(utf8(field@), utf8(value@), entry_views(index@)).len() == 0,
        r matches Err(e) ==> e == IndexError::KeyNotFound,
        r matches Ok(ids) ==> string_views(ids@) == search_ids(
            utf8(field@),
            utf8(value@),
            entry_views(index@),
        ),
{
    let fb = utf8_bytes(field);
    let tb = utf8_bytes(value);
    let ghost rv = entry_views(index@);
    let mut ids: Vec<String> = Vec::new();
    let mut i: usize = 0;
    assert(string_views(ids@) =~= search_ids(fb@, tb@, rv.take(0)));
    while i < index.len()
        invariant
            i <= index@.len(),
            rv == entry_views(index@),
            fb@ == utf8(field@),
            tb@ == utf8(value@),
            string_views(ids@) == search_ids(fb@, tb@, rv.take(i as int)),
        decreases index@.len() - i,
    {
        assert(rv.take(i + 1).drop_last() =~= rv.take(i as int));
        assert(rv.take(i + 1).last() == index@[i as int]@);
        let ghost before = ids@;
        match decode_index_key(index[i].key.as_slice()) {
            Some(ik) => {
                if bytes_equal(ik.field.as_slice(), fb.as_slice()) && bytes_equal(
                    ik.text.as_slice(),
                    tb.as_slice(),
                ) {
                    match decode_text(ik.id) {
                        Some(s) => {
                            ids.push(s);
                            assert(string_views(ids@) =~= string_views(before).push(s@));
                        },
                        None => {},
                    }
                }
            },
            None => {},
        }
        i = i + 1;
    }
    assert(rv.take(i as int) =~= rv);
    if ids.len() == 0 {
        Err(IndexError::KeyNotFound)
    } else {
        Ok(ids)
    }
}

/// The ids of the documents that scanned primary cells belong to, each
/// once, in the order they are first met.
pub open spec fn row_ids(rows: Seq<(Seq<u8>, Seq<u8>)>) -> Seq<Seq<char>>
    decreases rows.len(),
{
    if rows.len() == 0 {
        Seq::empty()
    } else {
        let prev = row_ids(rows.drop_last());
        match row_key_parts(rows.last().0) {
            Some((i, _f, _t)) => if valid_utf8(i) && !prev.contains(decode_utf8(i)) {
                prev.push(decode_utf8(i))
            } else {
                prev
            },
            None => prev,
        }
    }
}

/// Each id that the rows give has a primary cell among them.
pub proof fn lemma_row_ids_have_rows(rows: Seq<(Seq<u8>, Seq<u8>)>)
    ensures
        forall|j: int|
            0 <= j < row_ids(rows).len() ==> has_row(utf8(#[trigger] row_ids(rows)[j]), rows),
        row_ids(rows).no_duplicates(),
    decreases rows.len(),
{
    if rows.len() > 0 {
        let init = rows.drop_last();
        lemma_row_ids_have_rows(init);
        let prev = row_ids(init);
        let ids = row_ids(rows);
        assert forall|j: int| 0 <= j < ids.len() implies has_row(utf8(#[trigger] ids[j]), rows) by {
            if j < prev.len() {
                assert(ids[j] == prev[j]);
                let x = choose|x: int| 0 <= x < init.len() && is_row_of(utf8(prev[j]), (#[trigger] init[x]).0);
                assert(rows[x] == init[x]);
            } else {
                let last = rows.last();
                let i = row_key_parts(last.0)->Some_0.0;
                vstd::utf8::decode_utf8_encode_utf8(i);
                assert(is_row_of(utf8(ids[j]), rows[rows.len() - 1].0));
            }
        }
    }
}

/// Reads back every document that a scan of the whole row partition holds,
/// one per id, in the order their ids are first met.
pub fn list_documents(rows: &Vec<Entry>) -> (r: Vec<Document>)
    ensures
        r@.len() == row_ids(entry_views(rows@)).len(),
        forall|j: int|
            0 <= j < r@.len() ==> {
                &&& (#[trigger] r@[j]).id@ == row_ids(entry_views(rows@))[j]
                &&& names_distinct(field_views(r@[j].fields@))
                &&& field_map(field_views(r@[j].fields@)) == doc_fields(
                    utf8(r@[j].id@),
                    entry_views(rows@),
                )
            },
{
    let ghost rv = entry_views(rows@);
    let mut ids: Vec<String> = Vec::new();
    let mut keys: Vec<Vec<u8>> = Vec::new();
    let mut i: usize = 0;
    assert(string_views(ids@) =~= row_ids(rv.take(0)));
    while i < rows.len()
        invariant
            i <= rows@.len(),
            rv == entry_views(rows@),
            string_views(ids@) == row_ids(rv.take(i as int)),
            keys@.len() == ids@.len(),
            forall|x: int| 0 <= x < keys@.len() ==> (#[trigger] keys@[x])@ == utf8(ids@[x]@),
        decreases rows@.len() - i,
    {
        let ghost prev = rv.take(i as int);
        assert(rv.take(i + 1).drop_last() =~= prev);
        assert(rv.take(i + 1).last() == rows@[i as int]@);
        let ghost before = ids@;
        match decode_row_key(rows[i].key.as_slice()) {
            Some(rk) => {
                let mut seen = false;
                let mut j: usize = 0;
                while j < keys.len()
                    invariant
                        j <= keys@.len(),
                        keys@.len() == ids@.len(),
                        forall|x: int| 0 <= x < keys@.len() ==> (#[trigger] keys@[x])@ == utf8(ids@[x]@),
                        !seen ==> forall|x: int| 0 <= x < j ==> (#[trigger] keys@[x])@ != rk.id@,
                        seen ==> exists|x: int| 0 <= x < keys@.len() && (#[trigger] keys@[x])@ == rk.id@,
                    decreases keys@.len() - j,
                {
                    if !seen && bytes_equal(keys[j].as_slice(), rk.id.as_slice()) {
                        seen = true;
                    }
                    j = j + 1;
                }
                let kb = to_vec(rk.id.as_slice());
                match decode_text(rk.id) {
                    Some(s) => {
                        proof {
                            vstd::utf8::decode_utf8_encode_utf8(kb@);
                            let sv = string_views(before);
                            if seen {
                                let x = choose|x: int| 0 <= x < keys@.len() && (#[trigger] keys@[x])@ == kb@;
                                lemma_utf8_injective(ids@[x]@, s@);
                                assert(sv[x] == s@);
                                assert(sv.contains(s@));
                            } else {
                                assert forall|x: int| 0 <= x < sv.len() implies sv[x] != s@ by {
                                    assert(keys@[x]@ != kb@);
                                }
                            }
                        }
                        if !seen {
                            ids.push(s);
                            keys.push(kb);
                            assert(string_views(ids@) =~= string_views(before).push(ids@[ids@.len() - 1]@));
                        }
                    },
                    None => {},
                }
            },
            None => {},
        }
        i = i + 1;
    }
    assert(rv.take(i as int) =~= rv);
    proof {
        lemma_row_ids_have_rows(rv);
    }
    let ghost all = row_ids(rv);
    let mut docs: Vec<Document> = Vec::new();
    let mut k: usize = 0;
    while k < ids.len()
        invariant
            k <= ids@.len(),
            rv == entry_views(rows@),
            all == row_ids(rv),
            string_views(ids@) == all,
            forall|j: int| 0 <= j < all.len() ==> has_row(utf8(#[trigger] all[j]), rv),
            docs@.len() == k,
            forall|j: int|
                0 <= j < k ==> {
                    &&& (#[trigger] docs@[j]).id@ == all[j]
                    &&& names_distinct(field_views(docs@[j].fields@))
                    &&& field_map(field_views(docs@[j].fields@)) == doc_fields(
                        utf8(docs@[j].id@),
                        rv,
                    )
                },
        decreases ids@.len() - k,
    {
        assert(string_views(ids@)[k as int] == ids@[k as int]@);
        match read_document(&ids[k], rows) {
            Ok(d) => {
                docs.push(d);
            },
            Err(_) => {
                assert(has_row(utf8(all[k as int]), rv));
                assert(false);
            },
        }
        k = k + 1;
    }
    docs
}

} // verus!
