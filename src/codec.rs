//! Segmented byte keys: segments joined by a reserved separator byte.
use vstd::prelude::*;

verus! {

/// The reserved byte between the segments of a key (ASCII unit separator).
pub const SEP: u8 = 0x1f;

/// Whether `s` holds the separator byte.
pub open spec fn has_sep(s: Seq<u8>) -> bool {
    s.contains(SEP)
}

/// Segments joined by the separator.
pub open spec fn join(segs: Seq<Seq<u8>>) -> Seq<u8>
    decreases segs.len(),
{
    if segs.len() == 0 {
        Seq::empty()
    } else if segs.len() == 1 {
        segs[0]
    } else {
        segs[0] + seq![SEP] + join(segs.drop_first())
    }
}

/// The index of the first separator in `s`, or its length if it has none.
pub open spec fn first_sep(s: Seq<u8>) -> int
    decreases s.len(),
{
    if s.len() == 0 {
        0
    } else if s[0] == SEP {
        0
    } else {
        1 + first_sep(s.drop_first())
    }
}

/// A byte string cut at each separator; there is always at least one segment.
pub open spec fn split(s: Seq<u8>) -> Seq<Seq<u8>>
    decreases s.len(),
{
    let i = first_sep(s);
    if 0 <= i < s.len() {
        seq![s.take(i)] + split(s.skip(i + 1))
    } else {
        seq![s]
    }
}

pub proof fn lemma_first_sep_bounds(s: Seq<u8>)
    ensures
        0 <= first_sep(s) <= s.len(),
        forall|j: int| 0 <= j < first_sep(s) ==> s[j] != SEP,
        first_sep(s) < s.len() ==> s[first_sep(s)] == SEP,
    decreases s.len(),
{
    if s.len() > 0 && s[0] != SEP {
        lemma_first_sep_bounds(s.drop_first());
        assert forall|j: int| 0 <= j < first_sep(s) implies s[j] != SEP by {
            if j > 0 {
                assert(s[j] == s.drop_first()[j - 1]);
            }
        }
    }
}

/// In a separator-free head, the first separator is the one after it.
pub proof fn lemma_first_sep_concat(a: Seq<u8>, b: Seq<u8>)
    requires
        !has_sep(a),
    ensures
        first_sep(a + b) == a.len() + first_sep(b),
    decreases a.len(),
{
    if a.len() > 0 {
        assert(a[0] != SEP) by {
            if a[0] == SEP {
                assert(a.contains(SEP));
            }
        }
        assert((a + b).drop_first() =~= a.drop_first() + b);
        assert(!has_sep(a.drop_first())) by {
            if a.drop_first().contains(SEP) {
                let j = choose|j: int| 0 <= j < a.drop_first().len() && a.drop_first()[j] == SEP;
                assert(a[j + 1] == SEP);
            }
        }
        lemma_first_sep_concat(a.drop_first(), b);
    } else {
        assert(a + b =~= b);
    }
}

/// A separator-free string is one segment.
pub proof fn lemma_split_single(a: Seq<u8>)
    requires
        !has_sep(a),
    ensures
        split(a) == seq![a],
{
    lemma_first_sep_concat(a, Seq::empty());
    assert(a + Seq::<u8>::empty() =~= a);
}

/// Cutting at the first separator.
pub proof fn lemma_split_cons(a: Seq<u8>, rest: Seq<u8>)
    requires
        !has_sep(a),
    ensures
        split(a + seq![SEP] + rest) == seq![a] + split(rest),
{
    let s = a + seq![SEP] + rest;
    assert(s =~= a + (seq![SEP] + rest));
    lemma_first_sep_concat(a, seq![SEP] + rest);
    assert((seq![SEP] + rest)[0] == SEP);
    assert(first_sep(s) == a.len());
    assert(s.take(a.len() as int) =~= a);
    assert(s.skip(a.len() as int + 1) =~= rest);
}

/// Separator-free segments are recovered from their join.
pub proof fn lemma_split_join(segs: Seq<Seq<u8>>)
    requires
        segs.len() >= 1,
        forall|i: int| 0 <= i < segs.len() ==> !has_sep(#[trigger] segs[i]),
    ensures
        split(join(segs)) == segs,
    decreases segs.len(),
{
    if segs.len() == 1 {
        lemma_split_single(segs[0]);
        assert(seq![segs[0]] =~= segs);
    } else {
        let rest = segs.drop_first();
        assert forall|i: int| 0 <= i < rest.len() implies !has_sep(#[trigger] rest[i]) by {
            assert(rest[i] == segs[i + 1]);
        }
        lemma_split_join(rest);
        lemma_split_cons(segs[0], join(rest));
        assert(seq![segs[0]] + rest =~= segs);
    }
}

/// Segments of a split hold no separator.
pub proof fn lemma_split_sep_free(s: Seq<u8>)
    ensures
        split(s).len() >= 1,
        forall|i: int| 0 <= i < split(s).len() ==> !has_sep(#[trigger] split(s)[i]),
        join(split(s)) == s,
    decreases s.len(),
{
    let i = first_sep(s);
    lemma_first_sep_bounds(s);
    if 0 <= i < s.len() {
        let head = s.take(i);
        let tail = s.skip(i + 1);
        lemma_split_sep_free(tail);
        assert(!has_sep(head)) by {
            if head.contains(SEP) {
                let j = choose|j: int| 0 <= j < head.len() && head[j] == SEP;
                assert(s[j] == SEP);
            }
        }
        let segs = split(s);
        assert(segs == seq![head] + split(tail));
        assert forall|k: int| 0 <= k < segs.len() implies !has_sep(#[trigger] segs[k]) by {
            if k > 0 {
                assert(segs[k] == split(tail)[k - 1]);
            }
        }
        assert(segs.drop_first() =~= split(tail));
        if split(tail).len() == 1 {
            assert(join(segs) == head + seq![SEP] + join(split(tail)));
        }
        assert(join(segs) == head + seq![SEP] + tail);
        assert(head + seq![SEP] + tail =~= s);
    } else {
        assert(!has_sep(s)) by {
            if s.contains(SEP) {
                let j = choose|j: int| 0 <= j < s.len() && s[j] == SEP;
                assert(s[j] == SEP);
            }
        }
    }
}

/// The views of a list of byte vectors.
pub open spec fn views(v: Seq<Vec<u8>>) -> Seq<Seq<u8>> {
    v.map_values(|x: Vec<u8>| x@)
}

/// Appends `src` to `dst`.
pub fn append_bytes(dst: &mut Vec<u8>, src: &[u8])
    ensures
        final(dst)@ == old(dst)@ + src@,
{
    let ghost start = dst@;
    let mut i: usize = 0;
    while i < src.len()
        invariant
            i <= src@.len(),
            dst@ == start + src@.take(i as int),
        decreases src@.len() - i,
    {
        dst.push(src[i]);
        i = i + 1;
        assert(dst@ =~= start + src@.take(i as int));
    }
    assert(src@.take(i as int) =~= src@);
}

/// A copy of `s` as a vector.
pub fn to_vec(s: &[u8]) -> (r: Vec<u8>)
    ensures
        r@ == s@,
{
    let mut r: Vec<u8> = Vec::new();
    append_bytes(&mut r, s);
    assert(r@ =~= s@);
    r
}

/// Whether `s` holds the separator byte.
pub fn contains_sep(s: &[u8]) -> (r: bool)
    ensures
        r == has_sep(s@),
{
    let mut i: usize = 0;
    while i < s.len()
        invariant
            i <= s@.len(),
            forall|j: int| 0 <= j < i ==> s@[j] != SEP,
        decreases s@.len() - i,
    {
        if s[i] == SEP {
            assert(s@.contains(SEP));
            return true;
        }
        i = i + 1;
    }
    assert(!s@.contains(SEP)) by {
        if s@.contains(SEP) {
            let j = choose|j: int| 0 <= j < s@.len() && s@[j] == SEP;
            assert(s@[j] != SEP);
        }
    }
    false
}

/// Cuts `k` at each separator.
pub fn split_key(k: &[u8]) -> (r: Vec<Vec<u8>>)
    ensures
        views(r@) == split(k@),
{
    let mut segs: Vec<Vec<u8>> = Vec::new();
    let mut cur: Vec<u8> = Vec::new();
    let mut i: usize = 0;
    assert(k@.skip(0) =~= k@);
    assert(cur@ + k@.skip(0) =~= k@);
    assert(views(segs@) + split(k@) =~= split(k@));
    while i < k.len()
        invariant
            i <= k@.len(),
            !has_sep(cur@),
            split(k@) == views(segs@) + split(cur@ + k@.skip(i as int)),
        decreases k@.len() - i,
    {
        let ghost old_segs = segs@;
        let ghost old_cur = cur@;
        if k[i] == SEP {
            proof {
                assert(cur@ + k@.skip(i as int) =~= cur@ + seq![SEP] + k@.skip(i + 1));
                lemma_split_cons(cur@, k@.skip(i + 1));
            }
            segs.push(cur);
            cur = Vec::new();
            proof {
                assert(views(segs@) =~= views(old_segs).push(old_cur));
                assert(cur@ + k@.skip(i + 1) =~= k@.skip(i + 1));
                assert(views(segs@) + split(k@.skip(i + 1)) =~= views(old_segs) + (seq![old_cur]
                    + split(k@.skip(i + 1))));
            }
        } else {
            cur.push(k[i]);
            proof {
                assert(cur@ + k@.skip(i + 1) =~= old_cur + k@.skip(i as int));
                assert(!has_sep(cur@)) by {
                    if cur@.contains(SEP) {
                        let j = choose|j: int| 0 <= j < cur@.len() && cur@[j] == SEP;
                        if j < old_cur.len() {
                            assert(old_cur[j] == SEP);
                            assert(old_cur.contains(SEP));
                        }
                    }
                }
            }
        }
        i = i + 1;
    }
    proof {
        assert(cur@ + k@.skip(i as int) =~= cur@);
        lemma_split_single(cur@);
    }
    let ghost before = segs@;
    segs.push(cur);
    assert(views(segs@) =~= views(before) + seq![cur@]);
    segs
}

/// First byte of every primary-cell key.
pub const ROW_PART: u8 = 0x52;

/// First byte of every index-entry key.
pub const INDEX_PART: u8 = 0x53;

/// Key of a primary cell: partition, id, field and, unless the cell holds a
/// null, a one-byte type tag.
pub open spec fn row_key(id: Seq<u8>, field: Seq<u8>, tag: Option<u8>) -> Seq<u8> {
    match tag {
        Some(t) => join(seq![seq![ROW_PART], id, field, seq![t]]),
        None => join(seq![seq![ROW_PART], id, field]),
    }
}

/// What every primary-cell key of the document `id` starts with.
pub open spec fn row_prefix(id: Seq<u8>) -> Seq<u8> {
    join(seq![seq![ROW_PART], id]) + seq![SEP]
}

/// Key of an index entry: partition, field, value text and id.
pub open spec fn index_key(field: Seq<u8>, text: Seq<u8>, id: Seq<u8>) -> Seq<u8> {
    join(seq![seq![INDEX_PART], field, text, id])
}

/// What every index-entry key of a (field, value text) pair starts with.
pub open spec fn index_prefix(field: Seq<u8>, text: Seq<u8>) -> Seq<u8> {
    join(seq![seq![INDEX_PART], field, text]) + seq![SEP]
}

/// The (id, field, tag) of a primary-cell key, if `k` is one.
pub open spec fn row_key_parts(k: Seq<u8>) -> Option<(Seq<u8>, Seq<u8>, Option<u8>)> {
    let s = split(k);
    if s.len() == 4 && s[0] == seq![ROW_PART] && s[3].len() == 1 {
        Some((s[1], s[2], Some(s[3][0])))
    } else if s.len() == 3 && s[0] == seq![ROW_PART] {
        Some((s[1], s[2], None))
    } else {
        None
    }
}

/// The (field, value text, id) of an index-entry key, if `k` is one.
pub open spec fn index_key_parts(k: Seq<u8>) -> Option<(Seq<u8>, Seq<u8>, Seq<u8>)> {
    let s = split(k);
    if s.len() == 4 && s[0] == seq![INDEX_PART] {
        Some((s[1], s[2], s[3]))
    } else {
        None
    }
}

pub proof fn lemma_join2(a: Seq<u8>, b: Seq<u8>)
    ensures
        join(seq![a, b]) == a + seq![SEP] + b,
{
    let s = seq![a, b];
    assert(s.drop_first() =~= seq![b]);
    assert(seq![b].len() == 1 && seq![b][0] == b);
    assert(join(seq![b]) == b);
}

pub proof fn lemma_join3(a: Seq<u8>, b: Seq<u8>, c: Seq<u8>)
    ensures
        join(seq![a, b, c]) == a + seq![SEP] + b + seq![SEP] + c,
{
    let s = seq![a, b, c];
    assert(s.drop_first() =~= seq![b, c]);
    lemma_join2(b, c);
    assert(a + seq![SEP] + (b + seq![SEP] + c) =~= a + seq![SEP] + b + seq![SEP] + c);
}

pub proof fn lemma_join4(a: Seq<u8>, b: Seq<u8>, c: Seq<u8>, d: Seq<u8>)
    ensures
        join(seq![a, b, c, d]) == a + seq![SEP] + b + seq![SEP] + c + seq![SEP] + d,
{
    let s = seq![a, b, c, d];
    assert(s.drop_first() =~= seq![b, c, d]);
    lemma_join3(b, c, d);
    assert(a + seq![SEP] + (b + seq![SEP] + c + seq![SEP] + d) =~= a + seq![SEP] + b + seq![SEP]
        + c + seq![SEP] + d);
}

pub proof fn lemma_byte_sep_free(b: u8)
    requires
        b != SEP,
    ensures
        !has_sep(seq![b]),
{
    if seq![b].contains(SEP) {
        let j = choose|j: int| 0 <= j < seq![b].len() && seq![b][j] == SEP;
        assert(seq![b][j] == b);
    }
}

/// A primary-cell key decodes to the parts it was made of.
pub proof fn lemma_row_key_parts(id: Seq<u8>, field: Seq<u8>, tag: Option<u8>)
    requires
        !has_sep(id),
        !has_sep(field),
        tag != Some(SEP),
    ensures
        row_key_parts(row_key(id, field, tag)) == Some((id, field, tag)),
{
    lemma_byte_sep_free(ROW_PART);
    match tag {
        Some(t) => {
            lemma_byte_sep_free(t);
            let segs = seq![seq![ROW_PART], id, field, seq![t]];
            assert forall|i: int| 0 <= i < segs.len() implies !has_sep(#[trigger] segs[i]) by {}
            lemma_split_join(segs);
        },
        None => {
            let segs = seq![seq![ROW_PART], id, field];
            assert forall|i: int| 0 <= i < segs.len() implies !has_sep(#[trigger] segs[i]) by {}
            lemma_split_join(segs);
        },
    }
}

/// An index-entry key decodes to the parts it was made of.
pub proof fn lemma_index_key_parts(field: Seq<u8>, text: Seq<u8>, id: Seq<u8>)
    requires
        !has_sep(field),
        !has_sep(text),
        !has_sep(id),
    ensures
        index_key_parts(index_key(field, text, id)) == Some((field, text, id)),
{
    lemma_byte_sep_free(INDEX_PART);
    let segs = seq![seq![INDEX_PART], field, text, id];
    assert forall|i: int| 0 <= i < segs.len() implies !has_sep(#[trigger] segs[i]) by {}
    lemma_split_join(segs);
}

/// A key that decodes to a primary cell of `id` starts with the row prefix of `id`.
pub proof fn lemma_row_key_has_prefix(
    k: Seq<u8>,
    id: Seq<u8>,
    field: Seq<u8>,
    tag: Option<u8>,
)
    requires
        row_key_parts(k) == Some((id, field, tag)),
    ensures
        row_prefix(id).is_prefix_of(k),
        !has_sep(id),
        !has_sep(field),
{
    lemma_split_sep_free(k);
    let s = split(k);
    let id = s[1];
    lemma_join2(seq![ROW_PART], id);
    if s.len() == 4 {
        assert(s =~= seq![s[0], s[1], s[2], s[3]]);
        lemma_join4(s[0], s[1], s[2], s[3]);
    } else {
        assert(s =~= seq![s[0], s[1], s[2]]);
        lemma_join3(s[0], s[1], s[2]);
    }
    assert(row_prefix(id) =~= k.take(row_prefix(id).len() as int));
}

/// A key that decodes to an index entry is its pair's prefix followed by its id.
pub proof fn lemma_index_key_has_prefix(
    k: Seq<u8>,
    field: Seq<u8>,
    text: Seq<u8>,
    id: Seq<u8>,
)
    requires
        index_key_parts(k) == Some((field, text, id)),
    ensures
        k == index_prefix(field, text) + id,
        !has_sep(field),
        !has_sep(text),
        !has_sep(id),
{
    lemma_split_sep_free(k);
    let s = split(k);
    assert(s =~= seq![s[0], s[1], s[2], s[3]]);
    lemma_join4(s[0], s[1], s[2], s[3]);
    lemma_join3(s[0], s[1], s[2]);
    assert(k =~= index_prefix(s[1], s[2]) + s[3]);
}

/// A primary-cell key, decoded.
pub struct RowKey {
    pub id: Vec<u8>,
    pub field: Vec<u8>,
    pub tag: Option<u8>,
}

/// An index-entry key, decoded.
pub struct IndexKey {
    pub field: Vec<u8>,
    pub text: Vec<u8>,
    pub id: Vec<u8>,
}

/// Encodes the key of a primary cell.
pub fn encode_row_key(id: &[u8], field: &[u8], tag: Option<u8>) -> (r: Vec<u8>)
    ensures
        r@ == row_key(id@, field@, tag),
{
    let mut r: Vec<u8> = Vec::new();
    r.push(ROW_PART);
    r.push(SEP);
    append_bytes(&mut r, id);
    r.push(SEP);
    append_bytes(&mut r, field);
    proof {
        lemma_join3(seq![ROW_PART], id@, field@);
    }
    match tag {
        Some(t) => {
            r.push(SEP);
            r.push(t);
            proof {
                lemma_join4(seq![ROW_PART], id@, field@, seq![t]);
            }
            assert(r@ =~= row_key(id@, field@, tag));
        },
        None => {
            assert(r@ =~= row_key(id@, field@, tag));
        },
    }
    r
}

/// Encodes what every primary-cell key of the document `id` starts with.
pub fn encode_row_prefix(id: &[u8]) -> (r: Vec<u8>)
    ensures
        r@ == row_prefix(id@),
{
    let mut r: Vec<u8> = Vec::new();
    r.push(ROW_PART);
    r.push(SEP);
    append_bytes(&mut r, id);
    r.push(SEP);
    proof {
        lemma_join2(seq![ROW_PART], id@);
    }
    assert(r@ =~= row_prefix(id@));
    r
}

/// Encodes the key of an index entry.
pub fn encode_index_key(field: &[u8], text: &[u8], id: &[u8]) -> (r: Vec<u8>)
    ensures
        r@ == index_key(field@, text@, id@),
{
    let mut r = encode_index_prefix(field, text);
    append_bytes(&mut r, id);
    proof {
        lemma_join3(seq![INDEX_PART], field@, text@);
        lemma_join4(seq![INDEX_PART], field@, text@, id@);
    }
    assert(r@ =~= index_key(field@, text@, id@));
    r
}

/// Encodes what every index-entry key of a (field, value text) pair starts with.
pub fn encode_index_prefix(field: &[u8], text: &[u8]) -> (r: Vec<u8>)
    ensures
        r@ == index_prefix(field@, text@),
{
    let mut r: Vec<u8> = Vec::new();
    r.push(INDEX_PART);
    r.push(SEP);
    append_bytes(&mut r, field);
    r.push(SEP);
    append_bytes(&mut r, text);
    r.push(SEP);
    proof {
        lemma_join3(seq![INDEX_PART], field@, text@);
    }
    assert(r@ =~= index_prefix(field@, text@));
    r
}

/// Decodes a primary-cell key.
pub fn decode_row_key(k: &[u8]) -> (r: Option<RowKey>)
    ensures
        match r {
            Some(rk) => row_key_parts(k@) == Some((rk.id@, rk.field@, rk.tag)),
            None => row_key_parts(k@) is None,
        },
{
    let segs = split_key(k);
    assert(views(segs@).len() == segs@.len());
    if segs.len() < 3 || segs.len() > 4 {
        return None;
    }
    assert(views(segs@)[0] == segs@[0]@);
    assert(views(segs@)[1] == segs@[1]@);
    assert(views(segs@)[2] == segs@[2]@);
    if segs[0].len() != 1 || segs[0][0] != ROW_PART {
        assert(segs@[0]@ != seq![ROW_PART]);
        return None;
    }
    assert(segs@[0]@ =~= seq![ROW_PART]);
    let id = to_vec(segs[1].as_slice());
    let field = to_vec(segs[2].as_slice());
    if segs.len() == 4 {
        assert(views(segs@)[3] == segs@[3]@);
        if segs[3].len() != 1 {
            return None;
        }
        let t = segs[3][0];
        Some(RowKey { id, field, tag: Some(t) })
    } else {
        Some(RowKey { id, field, tag: None })
    }
}

/// Decodes an index-entry key.
pub fn decode_index_key(k: &[u8]) -> (r: Option<IndexKey>)
    ensures
        match r {
            Some(ik) => index_key_parts(k@) == Some((ik.field@, ik.text@, ik.id@)),
            None => index_key_parts(k@) is None,
        },
{
    let segs = split_key(k);
    assert(views(segs@).len() == segs@.len());
    if segs.len() != 4 {
        return None;
    }
    assert(views(segs@)[0] == segs@[0]@);
    assert(views(segs@)[1] == segs@[1]@);
    assert(views(segs@)[2] == segs@[2]@);
    assert(views(segs@)[3] == segs@[3]@);
    if segs[0].len() != 1 || segs[0][0] != INDEX_PART {
        assert(segs@[0]@ != seq![INDEX_PART]);
        return None;
    }
    assert(segs@[0]@ =~= seq![INDEX_PART]);
    let field = to_vec(segs[1].as_slice());
    let text = to_vec(segs[2].as_slice());
    let id = to_vec(segs[3].as_slice());
    Some(IndexKey { field, text, id })
}

/// The bytes of `s` from `from` up to `to`.
pub fn sub_bytes(s: &[u8], from: usize, to: usize) -> (r: Vec<u8>)
    requires
        from <= to <= s@.len(),
    ensures
        r@ == s@.subrange(from as int, to as int),
{
    let mut r: Vec<u8> = Vec::new();
    let mut i: usize = from;
    while i < to
        invariant
            from <= i <= to <= s@.len(),
            r@ == s@.subrange(from as int, i as int),
        decreases to - i,
    {
        r.push(s[i]);
        i = i + 1;
        assert(r@ =~= s@.subrange(from as int, i as int));
    }
    r
}

/// Whether two byte strings are equal.
pub fn bytes_equal(a: &[u8], b: &[u8]) -> (r: bool)
    ensures
        r == (a@ == b@),
{
    if a.len() != b.len() {
        return false;
    }
    let mut i: usize = 0;
    while i < a.len()
        invariant
            a@.len() == b@.len(),
            i <= a@.len(),
            forall|j: int| 0 <= j < i ==> a@[j] == b@[j],
        decreases a@.len() - i,
    {
        if a[i] != b[i] {
            return false;
        }
        i = i + 1;
    }
    assert(a@ =~= b@);
    true
}

} // verus!
