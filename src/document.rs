//! Documents, their scalar values, and how a value is stored and indexed.
use crate::codec::{has_sep, sub_bytes};
use vstd::bytes::{
    lemma_auto_spec_u64_to_from_le_bytes, spec_u64_from_le_bytes, spec_u64_to_le_bytes,
    u64_from_le_bytes, u64_to_le_bytes,
};
use vstd::prelude::*;
use vstd::string::StrSliceExecFns;
use vstd::utf8::{decode_utf8, encode_utf8, encode_utf8_decode_utf8, encode_utf8_valid_utf8, valid_utf8};

verus! {

/// Type tag of the cell that marks a document as present.
pub const TAG_KEY: u8 = 0x6b;

/// Type tag of a text cell.
pub const TAG_TEXT: u8 = 0x73;

/// Type tag of a number cell.
pub const TAG_NUMBER: u8 = 0x6e;

/// Type tag of a boolean cell.
pub const TAG_BOOL: u8 = 0x62;

/// The reserved field name of the presence marker cell.
pub open spec fn marker_field() -> Seq<u8> {
    seq![0x6bu8, 0x65u8, 0x79u8]
}

/// How an operation failed.
#[derive(Debug, Clone, Copy, PartialEq, Eq, Structural)]
pub enum IndexError {
    /// A malformed document, or a name or value the key layout cannot hold.
    InvalidInput,
    /// Nothing is stored under what was asked for.
    KeyNotFound,
    /// The storage engine reported a fault.
    EngineFailure,
}

/// A number: its IEEE-754 binary64 bits, and the decimal text it is
/// searched by.
#[derive(Debug, Clone, PartialEq)]
pub struct Number {
    pub bits: u64,
    pub text: String,
}

/// The value of one field.
#[derive(Debug, Clone, PartialEq)]
pub enum Scalar {
    Null,
    Bool(bool),
    Number(Number),
    Text(String),
}

/// A field value as a mathematical value.
pub enum ScalarView {
    Null,
    Bool(bool),
    Number(u64, Seq<char>),
    Text(Seq<char>),
}

impl View for Scalar {
    type V = ScalarView;

    open spec fn view(&self) -> ScalarView {
        match self {
            Scalar::Null => ScalarView::Null,
            Scalar::Bool(b) => ScalarView::Bool(*b),
            Scalar::Number(n) => ScalarView::Number(n.bits, n.text@),
            Scalar::Text(s) => ScalarView::Text(s@),
        }
    }
}

/// A named field of a document.
#[derive(Debug, Clone, PartialEq)]
pub struct Field {
    pub name: String,
    pub value: Scalar,
}

impl View for Field {
    type V = (Seq<char>, ScalarView);

    open spec fn view(&self) -> (Seq<char>, ScalarView) {
        (self.name@, self.value@)
    }
}

/// The UTF-8 bytes of a text.
pub open spec fn utf8(s: Seq<char>) -> Seq<u8> {
    encode_utf8(s)
}

/// The text by which a value is indexed; a null is not indexed.
pub open spec fn index_text(v: ScalarView) -> Option<Seq<u8>> {
    match v {
        ScalarView::Null => None,
        ScalarView::Bool(b) => Some(
            if b {
                seq![0x74u8, 0x72u8, 0x75u8, 0x65u8]
            } else {
                seq![0x66u8, 0x61u8, 0x6cu8, 0x73u8, 0x65u8]
            },
        ),
        ScalarView::Number(_, t) => Some(utf8(t)),
        ScalarView::Text(s) => Some(utf8(s)),
    }
}

/// The type tag of the cell that stores a value; a null has none.
pub open spec fn cell_tag(v: ScalarView) -> Option<u8> {
    match v {
        ScalarView::Null => None,
        ScalarView::Bool(_) => Some(TAG_BOOL),
        ScalarView::Number(_, _) => Some(TAG_NUMBER),
        ScalarView::Text(_) => Some(TAG_TEXT),
    }
}

/// The stored bytes of a value: one byte for a boolean; the bits in
/// little-endian order, then the text, for a number; UTF-8 for a text;
/// nothing for a null.
pub open spec fn cell_bytes(v: ScalarView) -> Seq<u8> {
    match v {
        ScalarView::Null => Seq::empty(),
        ScalarView::Bool(b) => seq![if b { 1u8 } else { 0u8 }],
        ScalarView::Number(bits, t) => spec_u64_to_le_bytes(bits) + utf8(t),
        ScalarView::Text(s) => utf8(s),
    }
}

/// The value a tagged cell holds, if its tag and bytes make one.
pub open spec fn cell_value(tag: u8, b: Seq<u8>) -> Option<ScalarView> {
    if tag == TAG_TEXT {
        if valid_utf8(b) {
            Some(ScalarView::Text(decode_utf8(b)))
        } else {
            None
        }
    } else if tag == TAG_BOOL {
        if b == seq![1u8] {
            Some(ScalarView::Bool(true))
        } else if b == seq![0u8] {
            Some(ScalarView::Bool(false))
        } else {
            None
        }
    } else if tag == TAG_NUMBER {
        if b.len() >= 8 && valid_utf8(b.skip(8)) {
            Some(ScalarView::Number(spec_u64_from_le_bytes(b.take(8)), decode_utf8(b.skip(8))))
        } else {
            None
        }
    } else {
        None
    }
}

/// Whether binary64 bits encode a finite number: their exponent is not
/// all ones.
pub open spec fn finite_number(bits: u64) -> bool {
    (bits >> 52u64) & 0x7ffu64 != 0x7ffu64
}

/// Whether a value can be stored and indexed: its index text holds no
/// separator, and a number is finite.
pub open spec fn storable(v: ScalarView) -> bool {
    &&& match index_text(v) {
        Some(t) => !has_sep(t),
        None => true,
    }
    &&& match v {
        ScalarView::Number(bits, _) => finite_number(bits),
        _ => true,
    }
}

/// A stored value decodes to itself.
pub proof fn lemma_cell_round_trip(v: ScalarView)
    requires
        !(v is Null),
    ensures
        cell_value(cell_tag(v)->0, cell_bytes(v)) == Some(v),
{
    broadcast use encode_utf8_decode_utf8, encode_utf8_valid_utf8;

    lemma_auto_spec_u64_to_from_le_bytes();
    match v {
        ScalarView::Number(bits, t) => {
            let b = cell_bytes(v);
            assert(b.take(8) =~= spec_u64_to_le_bytes(bits));
            assert(b.skip(8) =~= utf8(t));
        },
        ScalarView::Bool(x) => {
            if x {
                assert(seq![1u8] != seq![0u8]) by {
                    assert(seq![1u8][0] != seq![0u8][0]);
                }
            }
        },
        _ => {},
    }
}

/// A text is empty exactly when its UTF-8 bytes are.
pub proof fn lemma_utf8_empty(s: Seq<char>)
    ensures
        (utf8(s).len() == 0) == (s.len() == 0),
{
    if s.len() > 0 {
        let c = s[0] as u32;
        assert(encode_utf8(s) == vstd::utf8::encode_scalar(c) + encode_utf8(s.drop_first()));
        assert(vstd::utf8::encode_scalar(c).len() >= 1);
    }
}

/// Distinct texts have distinct UTF-8 bytes.
pub proof fn lemma_utf8_injective(a: Seq<char>, b: Seq<char>)
    ensures
        utf8(a) == utf8(b) ==> a == b,
{
    encode_utf8_decode_utf8(a);
    encode_utf8_decode_utf8(b);
}

/// The UTF-8 bytes of a string.
pub fn utf8_bytes(s: &String) -> (r: Vec<u8>)
    ensures
        r@ == utf8(s@),
{
    s.as_str().as_bytes_vec()
}

/// Relies on `String::from_utf8`: it accepts exactly the valid UTF-8 byte
/// strings and yields the characters they encode.
#[verifier::external_body]
fn string_from_utf8(b: Vec<u8>) -> (r: Option<String>)
    ensures
        r is Some <==> valid_utf8(b@),
        r matches Some(s) ==> s@ == decode_utf8(b@),
{
    String::from_utf8(b).ok()
}

/// The text that UTF-8 bytes encode, if they are valid UTF-8.
pub fn decode_text(b: Vec<u8>) -> (r: Option<String>)
    ensures
        r is Some <==> valid_utf8(b@),
        r matches Some(s) ==> s@ == decode_utf8(b@),
{
    string_from_utf8(b)
}

/// The index text of a value.
pub fn scalar_index_text(v: &Scalar) -> (r: Option<Vec<u8>>)
    ensures
        r matches Some(t) ==> index_text(v@) == Some(t@),
        r is None ==> index_text(v@) is None,
{
    match v {
        Scalar::Null => None,
        Scalar::Bool(b) => {
            let t: Vec<u8> = if *b {
                vec![0x74u8, 0x72u8, 0x75u8, 0x65u8]
            } else {
                vec![0x66u8, 0x61u8, 0x6cu8, 0x73u8, 0x65u8]
            };
            assert(t@ =~= index_text(v@)->0);
            Some(t)
        },
        Scalar::Number(n) => Some(utf8_bytes(&n.text)),
        Scalar::Text(s) => Some(utf8_bytes(s)),
    }
}

/// Whether a value can be stored and indexed.
pub fn scalar_storable(v: &Scalar) -> (r: bool)
    ensures
        r == storable(v@),
{
    match v {
        Scalar::Number(n) => {
            if (n.bits >> 52u64) & 0x7ffu64 == 0x7ffu64 {
                return false;
            }
        },
        _ => {},
    }
    match scalar_index_text(v) {
        Some(t) => !crate::codec::contains_sep(t.as_slice()),
        None => true,
    }
}

/// The tag and stored bytes of a value.
pub fn scalar_cell(v: &Scalar) -> (r: (Option<u8>, Vec<u8>))
    ensures
        r.0 == cell_tag(v@),
        r.1@ == cell_bytes(v@),
{
    match v {
        Scalar::Null => {
            let b: Vec<u8> = Vec::new();
            assert(b@ =~= cell_bytes(v@));
            (None, b)
        },
        Scalar::Bool(x) => {
            let b: Vec<u8> = if *x {
                vec![1u8]
            } else {
                vec![0u8]
            };
            assert(b@ =~= cell_bytes(v@));
            (Some(TAG_BOOL), b)
        },
        Scalar::Number(n) => {
            let mut b = u64_to_le_bytes(n.bits);
            let t = utf8_bytes(&n.text);
            crate::codec::append_bytes(&mut b, t.as_slice());
            (Some(TAG_NUMBER), b)
        },
        Scalar::Text(s) => (Some(TAG_TEXT), utf8_bytes(s)),
    }
}

/// Decodes the value of a tagged cell.
pub fn decode_cell(tag: u8, b: &[u8]) -> (r: Option<Scalar>)
    ensures
        match r {
            Some(v) => cell_value(tag, b@) == Some(v@),
            None => cell_value(tag, b@) is None,
        },
{
    if tag == TAG_TEXT {
        match decode_text(crate::codec::to_vec(b)) {
            Some(s) => Some(Scalar::Text(s)),
            None => None,
        }
    } else if tag == TAG_BOOL {
        if b.len() == 1 && b[0] == 1 {
            assert(b@ =~= seq![1u8]);
            Some(Scalar::Bool(true))
        } else if b.len() == 1 && b[0] == 0 {
            assert(b@ =~= seq![0u8]);
            Some(Scalar::Bool(false))
        } else {
            assert(b@ != seq![1u8] && b@ != seq![0u8]) by {
                if b@.len() == 1 {
                    assert(b@[0] != 1 && b@[0] != 0);
                    assert(seq![1u8][0] == 1 && seq![0u8][0] == 0);
                }
            }
            None
        }
    } else if tag == TAG_NUMBER {
        if b.len() < 8 {
            return None;
        }
        let head = sub_bytes(b, 0, 8);
        let rest = sub_bytes(b, 8, b.len());
        assert(head@ =~= b@.take(8));
        assert(rest@ =~= b@.skip(8));
        let bits = u64_from_le_bytes(head.as_slice());
        match decode_text(rest) {
            Some(t) => Some(Scalar::Number(Number { bits, text: t })),
            None => None,
        }
    } else {
        None
    }
}

/// A document: an identifier and its fields.
#[derive(Debug, Clone, PartialEq)]
pub struct Document {
    pub id: String,
    pub fields: Vec<Field>,
}

/// The views of a list of fields.
pub open spec fn field_views(fs: Seq<Field>) -> Seq<(Seq<char>, ScalarView)> {
    fs.map_values(|f: Field| f@)
}

/// No two fields share a name.
pub open spec fn names_distinct(fs: Seq<(Seq<char>, ScalarView)>) -> bool {
    forall|i: int, j: int| 0 <= i < j < fs.len() ==> (#[trigger] fs[i]).0 != (#[trigger] fs[j]).0
}

/// The fields as a map from name to value.
pub open spec fn field_map(fs: Seq<(Seq<char>, ScalarView)>) -> Map<Seq<char>, ScalarView>
    decreases fs.len(),
{
    if fs.len() == 0 {
        Map::empty()
    } else {
        field_map(fs.drop_last()).insert(fs.last().0, fs.last().1)
    }
}

/// The fields that are stored with a value: every field but the nulls.
pub open spec fn stored_map(fs: Seq<(Seq<char>, ScalarView)>) -> Map<Seq<char>, ScalarView>
    decreases fs.len(),
{
    if fs.len() == 0 {
        Map::empty()
    } else if fs.last().1 is Null {
        stored_map(fs.drop_last())
    } else {
        stored_map(fs.drop_last()).insert(fs.last().0, fs.last().1)
    }
}

/// Whether a document can be stored: it has a non-empty id, no two fields
/// share a name, no id, name or index text holds the key separator, and
/// every number is finite.
pub open spec fn valid_document(id: Seq<char>, fs: Seq<(Seq<char>, ScalarView)>) -> bool {
    &&& id.len() > 0
    &&& !has_sep(utf8(id))
    &&& names_distinct(fs)
    &&& forall|i: int|
        0 <= i < fs.len() ==> !has_sep(utf8((#[trigger] fs[i]).0)) && storable(fs[i].1)
}

/// Replacing the value of a present name updates the map.
pub proof fn lemma_field_map_update(
    fs: Seq<(Seq<char>, ScalarView)>,
    j: int,
    f: (Seq<char>, ScalarView),
)
    requires
        names_distinct(fs),
        0 <= j < fs.len(),
        fs[j].0 == f.0,
    ensures
        field_map(fs.update(j, f)) == field_map(fs).insert(f.0, f.1),
        names_distinct(fs.update(j, f)),
    decreases fs.len(),
{
    let g = fs.update(j, f);
    assert(names_distinct(g)) by {
        assert forall|a: int, b: int| 0 <= a < b < g.len() implies (#[trigger] g[a]).0 != (
        #[trigger] g[b]).0 by {
            assert(fs[a].0 != fs[b].0);
        }
    }
    if j == fs.len() - 1 {
        assert(g.drop_last() =~= fs.drop_last());
        assert(field_map(g) =~= field_map(fs).insert(f.0, f.1));
    } else {
        let init = fs.drop_last();
        assert(names_distinct(init)) by {
            assert forall|a: int, b: int| 0 <= a < b < init.len() implies (#[trigger] init[a]).0
                != (#[trigger] init[b]).0 by {
                assert(fs[a].0 != fs[b].0);
            }
        }
        lemma_field_map_update(init, j, f);
        assert(g.drop_last() =~= init.update(j, f));
        assert(fs.last().0 != f.0) by {
            assert(fs[j].0 != fs[fs.len() - 1].0);
        }
        assert(field_map(g) =~= field_map(fs).insert(f.0, f.1));
    }
}

/// The text an id given as a scalar stands for; a null gives no id.
pub open spec fn id_text(key: ScalarView) -> Option<Seq<char>> {
    match key {
        ScalarView::Null => None,
        ScalarView::Bool(b) => Some(if b { seq!['t', 'r', 'u', 'e'] } else { seq!['f', 'a', 'l', 's', 'e'] }),
        ScalarView::Number(_, t) => Some(t),
        ScalarView::Text(s) => Some(s),
    }
}

/// Builds a document from a payload's id and field mapping. A payload
/// without an id (or with a null one) or without a field mapping is
/// refused; the id is coerced to text.
pub fn document_from_parts(key: Option<Scalar>, value: Option<Vec<Field>>) -> (r: Result<
    Document,
    IndexError,
>)
    ensures
        r is Err <==> (key is None || key->Some_0@ is Null || value is None),
        r matches Err(e) ==> e == IndexError::InvalidInput,
        r matches Ok(d) ==> Some(d.id@) == id_text(key->Some_0@) && d.fields@ == value->Some_0@,
{
    let id = match key {
        None => return Err(IndexError::InvalidInput),
        Some(Scalar::Null) => return Err(IndexError::InvalidInput),
        Some(Scalar::Bool(b)) => {
            let t = if b {
                String::from_str("true")
            } else {
                String::from_str("false")
            };
            proof {
                reveal_strlit("true");
                reveal_strlit("false");
            }
            assert(t@ =~= id_text(ScalarView::Bool(b))->Some_0);
            t
        },
        Some(Scalar::Number(n)) => n.text,
        Some(Scalar::Text(s)) => s,
    };
    match value {
        None => Err(IndexError::InvalidInput),
        Some(fields) => Ok(Document { id, fields }),
    }
}

/// A user record: an id, a name and an address.
#[derive(Debug, Clone, PartialEq)]
pub struct User {
    pub id: String,
    pub name: String,
    pub address: String,
}

/// The document that stores a user: its id, and text fields `id`, `name`
/// and `address`.
pub fn user_document(u: &User) -> (r: Document)
    ensures
        r.id@ == u.id@,
        r.fields@.len() == 3,
        r.fields@[0]@ == (seq!['i', 'd'], ScalarView::Text(u.id@)),
        r.fields@[1]@ == (seq!['n', 'a', 'm', 'e'], ScalarView::Text(u.name@)),
        r.fields@[2]@ == (seq!['a', 'd', 'd', 'r', 'e', 's', 's'], ScalarView::Text(u.address@)),
{
    let id_name = String::from_str("id");
    let name_name = String::from_str("name");
    let address_name = String::from_str("address");
    proof {
        reveal_strlit("id");
        reveal_strlit("name");
        reveal_strlit("address");
    }
    let mut fields: Vec<Field> = Vec::new();
    fields.push(Field { name: id_name, value: Scalar::Text(u.id.clone()) });
    fields.push(Field { name: name_name, value: Scalar::Text(u.name.clone()) });
    fields.push(Field { name: address_name, value: Scalar::Text(u.address.clone()) });
    assert(fields@[0].name@ =~= seq!['i', 'd']);
    assert(fields@[1].name@ =~= seq!['n', 'a', 'm', 'e']);
    assert(fields@[2].name@ =~= seq!['a', 'd', 'd', 'r', 'e', 's', 's']);
    Document { id: u.id.clone(), fields }
}

} // verus!
