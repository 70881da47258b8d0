use docindex::codec::{
    decode_index_key, decode_row_key, encode_index_key, encode_index_prefix, encode_row_key,
    encode_row_prefix, split_key, SEP,
};
use docindex::{
    check_document, decode_text, document_from_parts, find_ids, list_documents, plan_delete,
    plan_put, read_document, user_document, Document, Entry, Field, IndexError, Number, Op,
    Scalar, User,
};
use std::collections::BTreeMap;

/// An in-memory ordered engine: scans start at a prefix and run to the end.
struct Engine {
    cells: BTreeMap<Vec<u8>, Vec<u8>>,
}

impl Engine {
    fn new() -> Engine {
        Engine { cells: BTreeMap::new() }
    }

    fn scan_from(&self, prefix: &[u8]) -> Vec<Entry> {
        self.cells
            .range(prefix.to_vec()..)
            .map(|(k, v)| Entry { key: k.clone(), value: v.clone() })
            .collect()
    }

    fn apply(&mut self, ops: Vec<Op>) {
        for op in ops {
            match op {
                Op::Write { key, value } => {
                    self.cells.insert(key, value);
                }
                Op::Erase { key } => {
                    self.cells.remove(&key);
                }
            }
        }
    }

    fn put(&mut self, d: &Document) -> Result<(), IndexError> {
        let idb = d.id.as_bytes().to_vec();
        let rows = self.scan_from(&encode_row_prefix(&idb));
        let index = self.scan_from(&[b'S', SEP]);
        let ops = plan_put(d, &rows, &index)?;
        self.apply(ops);
        Ok(())
    }

    fn get(&self, id: &str) -> Result<Document, IndexError> {
        let rows = self.scan_from(&encode_row_prefix(id.as_bytes()));
        read_document(&id.to_string(), &rows)
    }

    fn get_all(&self) -> Vec<Document> {
        list_documents(&self.scan_from(&[b'R', SEP]))
    }

    fn delete(&mut self, id: &str) {
        let rows = self.scan_from(&encode_row_prefix(id.as_bytes()));
        let index = self.scan_from(&[b'S', SEP]);
        let ops = plan_delete(&id.to_string(), &rows, &index);
        self.apply(ops);
    }

    fn search(&self, column: &str, value: &str) -> Result<Vec<String>, IndexError> {
        let entries = self.scan_from(&encode_index_prefix(column.as_bytes(), value.as_bytes()));
        find_ids(&column.to_string(), &value.to_string(), &entries)
    }

    fn index_len(&self) -> usize {
        self.cells.keys().filter(|k| k.first() == Some(&b'S')).count()
    }
}

fn text(s: &str) -> Scalar {
    Scalar::Text(s.to_string())
}

fn number(x: f64) -> Scalar {
    Scalar::Number(Number { bits: x.to_bits(), text: x.to_string() })
}

fn field(name: &str, value: Scalar) -> Field {
    Field { name: name.to_string(), value }
}

fn doc(id: &str, fields: Vec<Field>) -> Document {
    Document { id: id.to_string(), fields }
}

/// The document of the sample payload: id 5, a name, an age, a flag and a null.
fn example() -> Document {
    doc(
        "5",
        vec![
            field("name", text("Ali")),
            field("age", number(30.0)),
            field("admin", Scalar::Bool(true)),
            field("nickname", Scalar::Null),
        ],
    )
}

fn sorted(mut fields: Vec<Field>) -> Vec<(String, Scalar)> {
    fields.sort_by(|a, b| a.name.cmp(&b.name));
    fields.into_iter().map(|f| (f.name, f.value)).collect()
}

#[test]
fn putting() {
    let mut data = Engine::new();
    assert!(data.put(&example()).is_ok());
    assert!(data.get("5").is_ok())
}

#[test]
fn getting_empty() {
    let mut data = Engine::new();
    data.put(&example()).unwrap();
    assert!(data.get("5").is_ok());
    assert_eq!(data.get("999").unwrap_err(), IndexError::KeyNotFound)
}

#[test]
fn deleting() {
    let mut data = Engine::new();
    data.put(&example()).unwrap();
    assert!(data.get("5").is_ok());
    data.delete("5");
    assert_eq!(data.get("5").unwrap_err(), IndexError::KeyNotFound)
}

#[test]
fn searcing() {
    let mut data = Engine::new();
    data.put(&example()).unwrap();
    assert!(data.get("5").is_ok());
    assert!(data.search("name", "Ali").is_ok())
}

#[test]
fn seaching_not_found() {
    let mut data = Engine::new();
    data.put(&example()).unwrap();
    assert!(data.get("5").is_ok());
    assert_eq!(data.search("column", "kkk").unwrap_err(), IndexError::KeyNotFound)
}

#[test]
fn round_trip_drops_nulls() {
    let mut data = Engine::new();
    data.put(&example()).unwrap();
    let got = data.get("5").unwrap();
    assert_eq!(got.id, "5");
    assert_eq!(
        sorted(got.fields),
        vec![
            ("admin".to_string(), Scalar::Bool(true)),
            ("age".to_string(), number(30.0)),
            ("name".to_string(), text("Ali")),
        ]
    );
}

#[test]
fn round_trip_keeps_number_bits() {
    let mut data = Engine::new();
    data.put(&doc("n", vec![field("x", number(-2.5)), field("y", number(1e300))])).unwrap();
    let got = sorted(data.get("n").unwrap().fields);
    assert_eq!(got, vec![("x".to_string(), number(-2.5)), ("y".to_string(), number(1e300))]);
}

#[test]
fn only_nulls_still_exists() {
    let mut data = Engine::new();
    data.put(&doc("7", vec![field("a", Scalar::Null)])).unwrap();
    let got = data.get("7").unwrap();
    assert!(got.fields.is_empty());
    assert_eq!(data.get_all().len(), 1);
}

#[test]
fn put_twice_is_put_once() {
    let mut once = Engine::new();
    once.put(&example()).unwrap();
    let mut twice = Engine::new();
    twice.put(&example()).unwrap();
    twice.put(&example()).unwrap();
    assert_eq!(once.cells, twice.cells);
    assert_eq!(twice.index_len(), 3);
    assert_eq!(twice.search("name", "Ali").unwrap(), vec!["5".to_string()]);
}

#[test]
fn delete_removes_everything() {
    let mut data = Engine::new();
    data.put(&example()).unwrap();
    data.delete("5");
    assert!(data.cells.is_empty());
    assert_eq!(data.get("5").unwrap_err(), IndexError::KeyNotFound);
    assert_eq!(data.search("name", "Ali").unwrap_err(), IndexError::KeyNotFound);
    assert_eq!(data.search("age", "30").unwrap_err(), IndexError::KeyNotFound);
    assert_eq!(data.search("admin", "true").unwrap_err(), IndexError::KeyNotFound);
}

#[test]
fn delete_missing_is_noop() {
    let mut data = Engine::new();
    data.put(&example()).unwrap();
    let before = data.cells.clone();
    data.delete("6");
    assert_eq!(data.cells, before);
}

#[test]
fn delete_matches_id_exactly() {
    let mut data = Engine::new();
    data.put(&doc("5", vec![field("name", text("Ali"))])).unwrap();
    data.put(&doc("105", vec![field("name", text("Ali"))])).unwrap();
    data.put(&doc("55", vec![field("name", text("Ali"))])).unwrap();
    data.delete("5");
    let mut ids = data.search("name", "Ali").unwrap();
    ids.sort();
    assert_eq!(ids, vec!["105".to_string(), "55".to_string()]);
    assert!(data.get("55").is_ok());
    assert!(data.get("105").is_ok());
}

#[test]
fn overwrite_reindexes() {
    let mut data = Engine::new();
    data.put(&doc("5", vec![field("name", text("Ali"))])).unwrap();
    data.put(&doc("5", vec![field("name", text("Zed"))])).unwrap();
    assert_eq!(data.search("name", "Ali").unwrap_err(), IndexError::KeyNotFound);
    assert_eq!(data.search("name", "Zed").unwrap(), vec!["5".to_string()]);
}

#[test]
fn overwrite_drops_old_fields() {
    let mut data = Engine::new();
    data.put(&doc("5", vec![field("name", text("Ali")), field("age", number(3.0))])).unwrap();
    data.put(&doc("5", vec![field("name", number(4.0))])).unwrap();
    let got = sorted(data.get("5").unwrap().fields);
    assert_eq!(got, vec![("name".to_string(), number(4.0))]);
    assert_eq!(data.search("age", "3").unwrap_err(), IndexError::KeyNotFound);
    assert_eq!(data.search("name", "4").unwrap(), vec!["5".to_string()]);
}

#[test]
fn search_is_exact() {
    let mut data = Engine::new();
    data.put(&doc("5", vec![field("name", text("Ali"))])).unwrap();
    data.put(&doc("6", vec![field("name", text("Ben"))])).unwrap();
    data.put(&doc("7", vec![field("name", text("Alison"))])).unwrap();
    assert_eq!(data.search("name", "Ali").unwrap(), vec!["5".to_string()]);
    assert_eq!(data.search("name", "Al").unwrap_err(), IndexError::KeyNotFound);
}

#[test]
fn search_by_number_and_bool() {
    let mut data = Engine::new();
    data.put(&example()).unwrap();
    assert_eq!(data.search("age", "30").unwrap(), vec!["5".to_string()]);
    assert_eq!(data.search("admin", "true").unwrap(), vec!["5".to_string()]);
    assert_eq!(data.search("nickname", "").unwrap_err(), IndexError::KeyNotFound);
}

#[test]
fn get_all_one_per_id() {
    let mut data = Engine::new();
    data.put(&doc("1", vec![field("a", text("x"))])).unwrap();
    data.put(&doc("2", vec![field("a", text("x")), field("b", text("y")), field("c", Scalar::Null)]))
        .unwrap();
    data.put(&doc("3", vec![])).unwrap();
    data.put(&doc("2", vec![field("z", Scalar::Bool(false))])).unwrap();
    let all = data.get_all();
    assert_eq!(all.len(), 3);
    let mut ids: Vec<String> = all.iter().map(|d| d.id.clone()).collect();
    ids.sort();
    assert_eq!(ids, vec!["1".to_string(), "2".to_string(), "3".to_string()]);
}

#[test]
fn get_all_empty_store() {
    let data = Engine::new();
    assert!(data.get_all().is_empty());
}

#[test]
fn invalid_documents_are_refused() {
    let sep = String::from_utf8(vec![SEP]).unwrap();
    let mut data = Engine::new();
    let bad = vec![
        doc("", vec![]),
        doc(&format!("a{}b", sep), vec![]),
        doc("5", vec![field(&format!("n{}", sep), text("x"))]),
        doc("5", vec![field("n", text(&format!("x{}", sep)))]),
        doc("5", vec![field("n", text("x")), field("n", text("y"))]),
        doc("5", vec![field("n", number(f64::NAN))]),
        doc("5", vec![field("n", number(f64::INFINITY))]),
    ];
    for d in bad {
        assert!(!check_document(&d));
        assert_eq!(data.put(&d).unwrap_err(), IndexError::InvalidInput);
    }
    assert!(data.cells.is_empty());
    assert!(check_document(&example()));
}

#[test]
fn payload_parts() {
    let fields = vec![field("name", text("Ali"))];
    assert_eq!(
        document_from_parts(None, Some(fields.clone())).unwrap_err(),
        IndexError::InvalidInput
    );
    assert_eq!(
        document_from_parts(Some(Scalar::Null), Some(fields.clone())).unwrap_err(),
        IndexError::InvalidInput
    );
    assert_eq!(document_from_parts(Some(text("5")), None).unwrap_err(), IndexError::InvalidInput);
    let d = document_from_parts(Some(number(5.0)), Some(fields.clone())).unwrap();
    assert_eq!(d.id, "5");
    assert_eq!(d.fields, fields);
    let d = document_from_parts(Some(Scalar::Bool(false)), Some(vec![])).unwrap();
    assert_eq!(d.id, "false");
}

#[test]
fn row_key_layout() {
    let k = encode_row_key(b"5", b"name", Some(b's'));
    assert_eq!(k, vec![b'R', SEP, b'5', SEP, b'n', b'a', b'm', b'e', SEP, b's']);
    let k = encode_row_key(b"5", b"nick", None);
    assert_eq!(k, vec![b'R', SEP, b'5', SEP, b'n', b'i', b'c', b'k']);
    assert_eq!(encode_row_prefix(b"5"), vec![b'R', SEP, b'5', SEP]);
    let rk = decode_row_key(&encode_row_key(b"12", b"age", Some(b'n'))).unwrap();
    assert_eq!((rk.id, rk.field, rk.tag), (b"12".to_vec(), b"age".to_vec(), Some(b'n')));
    let rk = decode_row_key(&encode_row_key(b"12", b"age", None)).unwrap();
    assert_eq!(rk.tag, None);
    assert!(decode_row_key(&encode_index_key(b"a", b"b", b"c")).is_none());
    assert!(decode_row_key(b"R").is_none());
}

#[test]
fn index_key_layout() {
    let k = encode_index_key(b"name", b"Ali", b"5");
    assert_eq!(k, vec![b'S', SEP, b'n', b'a', b'm', b'e', SEP, b'A', b'l', b'i', SEP, b'5']);
    assert!(k.starts_with(&encode_index_prefix(b"name", b"Ali")));
    let ik = decode_index_key(&k).unwrap();
    assert_eq!((ik.field, ik.text, ik.id), (b"name".to_vec(), b"Ali".to_vec(), b"5".to_vec()));
    assert!(decode_index_key(&encode_row_key(b"5", b"name", Some(b's'))).is_none());
}

#[test]
fn split_cuts_at_each_separator() {
    assert_eq!(split_key(&[1, SEP, SEP, 2]), vec![vec![1], vec![], vec![2]]);
    assert_eq!(split_key(&[]), vec![Vec::<u8>::new()]);
}

#[test]
fn number_cell_is_little_endian() {
    let mut data = Engine::new();
    data.put(&doc("5", vec![field("x", number(1.0))])).unwrap();
    let key = encode_row_key(b"5", b"x", Some(b'n'));
    let mut expected = 1.0f64.to_bits().to_le_bytes().to_vec();
    expected.extend_from_slice(b"1");
    assert_eq!(data.cells.get(&key), Some(&expected));
}

#[test]
fn decode_text_checks_utf8() {
    assert_eq!(decode_text(vec![0x41, 0x6c, 0x69]), Some("Ali".to_string()));
    assert_eq!(decode_text(vec![0xc3, 0xa9]), Some("é".to_string()));
    assert_eq!(decode_text(vec![0xff, 0x41]), None);
}

#[test]
fn undecodable_cells_are_skipped() {
    let mut data = Engine::new();
    data.put(&doc("5", vec![field("name", text("Ali"))])).unwrap();
    data.cells.insert(encode_row_key(b"5", b"bad", Some(b'b')), vec![7]);
    data.cells.insert(encode_row_key(b"5", b"odd", Some(b'q')), vec![]);
    let got = sorted(data.get("5").unwrap().fields);
    assert_eq!(got, vec![("name".to_string(), text("Ali"))]);
}

#[test]
fn user_becomes_document() {
    let u = User { id: "1".to_string(), name: "Nazeer Issa".to_string(), address: "Beirut".to_string() };
    let d = user_document(&u);
    let mut data = Engine::new();
    data.put(&d).unwrap();
    assert_eq!(data.search("address", "Beirut").unwrap(), vec!["1".to_string()]);
    assert_eq!(data.get("1").unwrap().fields.len(), 3);
}
