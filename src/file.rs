//! The binary collection format: length-prefixed UTF-8 frames, read in
//! pairs of a token type and a value.
use vstd::prelude::*;
use vstd::utf8::{decode_utf8, encode_utf8, valid_utf8};

use crate::collection::Collection;
use crate::document::Document;
use crate::error::EngineError;
use crate::field::{typed_value, value_type, FieldType, FieldValue, Value};
use crate::field::value_text;
use crate::numtext::{i64_to_text, int_text, parse_i64, parsed_i64};

verus! {

/// The eight big-endian bytes of `n`.
pub open spec fn be_bytes(n: u64) -> Seq<u8> {
    seq![
        (n >> 56u64) as u8,
        (n >> 48u64) as u8,
        (n >> 40u64) as u8,
        (n >> 32u64) as u8,
        (n >> 24u64) as u8,
        (n >> 16u64) as u8,
        (n >> 8u64) as u8,
        n as u8,
    ]
}

/// The number whose big-endian bytes are the first eight of `b`.
pub open spec fn be_value(b: Seq<u8>) -> u64 {
    ((b[0] as u64) << 56u64) | ((b[1] as u64) << 48u64) | ((b[2] as u64) << 40u64) | ((b[3] as u64)
        << 32u64) | ((b[4] as u64) << 24u64) | ((b[5] as u64) << 16u64) | ((b[6] as u64) << 8u64)
        | (b[7] as u64)
}

pub proof fn lemma_be_round_trip(n: u64)
    ensures
        be_value(be_bytes(n)) == n,
{
    let b = be_bytes(n);
    let (b0, b1, b2, b3, b4, b5, b6, b7) = (b[0], b[1], b[2], b[3], b[4], b[5], b[6], b[7]);
    assert(b0 == (n >> 56u64) as u8 && b1 == (n >> 48u64) as u8 && b2 == (n >> 40u64) as u8 && b3
        == (n >> 32u64) as u8 && b4 == (n >> 24u64) as u8 && b5 == (n >> 16u64) as u8 && b6 == (n
        >> 8u64) as u8 && b7 == n as u8);
    assert(((b0 as u64) << 56u64) | ((b1 as u64) << 48u64) | ((b2 as u64) << 40u64) | ((b3 as u64)
        << 32u64) | ((b4 as u64) << 24u64) | ((b5 as u64) << 16u64) | ((b6 as u64) << 8u64) | (
    b7 as u64) == n) by (bit_vector)
        requires
            b0 == (n >> 56u64) as u8,
            b1 == (n >> 48u64) as u8,
            b2 == (n >> 40u64) as u8,
            b3 == (n >> 32u64) as u8,
            b4 == (n >> 24u64) as u8,
            b5 == (n >> 16u64) as u8,
            b6 == (n >> 8u64) as u8,
            b7 == n as u8,
    ;
}

/// One frame: the length of `b` in eight big-endian bytes, then `b`.
pub open spec fn frame(b: Seq<u8>) -> Seq<u8> {
    be_bytes(b.len() as u64) + b
}

/// The UTF-8 bytes of a text.
#[verifier::opaque]
pub open spec fn utf8_of(t: Seq<char>) -> Seq<u8> {
    encode_utf8(t)
}

/// The frame of a text's UTF-8 bytes.
pub open spec fn text_frame(t: Seq<char>) -> Seq<u8> {
    frame(utf8_of(t))
}

/// The frames that a byte string splits into, if it splits exactly.
#[verifier::opaque]
pub open spec fn frames(b: Seq<u8>) -> Option<Seq<Seq<u8>>>
    decreases b.len(),
{
    if b.len() == 0 {
        Some(Seq::empty())
    } else if b.len() < 8 {
        None
    } else {
        let n = be_value(b.subrange(0, 8)) as int;
        if n > b.len() - 8 {
            None
        } else {
            match frames(b.subrange(8 + n, b.len() as int)) {
                Some(rest) => Some(seq![b.subrange(8, 8 + n)] + rest),
                None => None,
            }
        }
    }
}

pub open spec fn byte_views(fs: Seq<Vec<u8>>) -> Seq<Seq<u8>> {
    fs.map_values(|f: Vec<u8>| f@)
}

pub open spec fn pair_views(ps: Seq<(TokenType, String)>) -> Seq<(TokenType, Seq<char>)> {
    ps.map_values(|p: (TokenType, String)| (p.0, p.1@))
}

/// Appends the frame of `val` to `bytes`.
pub fn write(bytes: &mut Vec<u8>, val: &str)
    ensures
        final(bytes)@ == old(bytes)@ + text_frame(val@),
{
    let b = val.as_bytes();
    proof {
        reveal(utf8_of);
    }
    let n = b.len() as u64;
    bytes.push((n >> 56u64) as u8);
    bytes.push((n >> 48u64) as u8);
    bytes.push((n >> 40u64) as u8);
    bytes.push((n >> 32u64) as u8);
    bytes.push((n >> 24u64) as u8);
    bytes.push((n >> 16u64) as u8);
    bytes.push((n >> 8u64) as u8);
    bytes.push(n as u8);
    let ghost head = bytes@;
    assert(head =~= old(bytes)@ + be_bytes(n));
    let mut i: usize = 0;
    while i < b.len()
        invariant
            i <= b@.len(),
            b@ == encode_utf8(val@),
            bytes@ == head + b@.subrange(0, i as int),
        decreases b@.len() - i,
    {
        bytes.push(b[i]);
        i = i + 1;
        assert(bytes@ =~= head + b@.subrange(0, i as int));
    }
    assert(b@.subrange(0, i as int) =~= b@);
    assert(bytes@ =~= old(bytes)@ + text_frame(val@));
}

/// Splits `bytes` into its frames; `None` where they do not split exactly.
pub fn read_frames(bytes: &Vec<u8>) -> (r: Option<Vec<Vec<u8>>>)
    ensures
        r is Some <==> frames(bytes@) is Some,
        r is Some ==> byte_views(r->0@) == frames(bytes@)->0,
{
    proof {
        reveal_with_fuel(frames, 1);
    }
    let len = bytes.len();
    let mut out: Vec<Vec<u8>> = Vec::new();
    let mut pos: usize = 0;
    assert(bytes@.subrange(0, len as int) =~= bytes@);
    assert(byte_views(out@) =~= Seq::<Seq<u8>>::empty());
    while pos < len
        invariant
            pos <= len == bytes@.len(),
            frames(bytes@) == match frames(bytes@.subrange(pos as int, len as int)) {
                Some(rest) => Some(byte_views(out@) + rest),
                None => None,
            },
        decreases len - pos,
    {
        proof {
            reveal_with_fuel(frames, 1);
        }
        let ghost rest = bytes@.subrange(pos as int, len as int);
        if len - pos < 8 {
            return None;
        }
        let n: u64 = ((bytes[pos] as u64) << 56u64) | ((bytes[pos + 1] as u64) << 48u64) | ((
        bytes[pos + 2] as u64) << 40u64) | ((bytes[pos + 3] as u64) << 32u64) | ((bytes[pos
            + 4] as u64) << 24u64) | ((bytes[pos + 5] as u64) << 16u64) | ((bytes[pos + 6] as u64)
            << 8u64) | (bytes[pos + 7] as u64);
        assert(n == be_value(rest.subrange(0, 8)));
        if n > (len - pos - 8) as u64 {
            return None;
        }
        let m = n as usize;
        let start = pos + 8;
        let mut f: Vec<u8> = Vec::new();
        let mut k: usize = start;
        while k < start + m
            invariant
                start <= k <= start + m <= len == bytes@.len(),
                f@ == bytes@.subrange(start as int, k as int),
            decreases start + m - k,
        {
            f.push(bytes[k]);
            k = k + 1;
            assert(f@ =~= bytes@.subrange(start as int, k as int));
        }
        proof {
            assert(rest.subrange(8, 8 + m) =~= f@);
            assert(rest.subrange(8 + m, rest.len() as int) =~= bytes@.subrange(
                (start + m) as int,
                len as int,
            ));
            let ghost old_out = byte_views(out@);
            match frames(bytes@.subrange((start + m) as int, len as int)) {
                Some(tail) => {
                    assert(old_out + (seq![f@] + tail) =~= old_out.push(f@) + tail);
                },
                None => {},
            }
        }
        out.push(f);
        proof {
            let ghost v = byte_views(out@);
            assert(v =~= byte_views(out@.drop_last()).push(out@.last()@));
        }
        pos = start + m;
    }
    assert(bytes@.subrange(len as int, len as int) =~= Seq::<u8>::empty());
    assert(byte_views(out@) + Seq::<Seq<u8>>::empty() =~= byte_views(out@));
    Some(out)
}

/// The kinds of pair in a collection file.
#[derive(Clone, Copy, Debug, PartialEq, Eq, Structural)]
pub enum TokenType {
    CollectionFieldName,
    CollectionFieldType,
    DocumentId,
    DocumentFieldsStart,
    DocumentFieldsEnd,
    DocumentFieldName,
    DocumentFieldValue,
}

/// The token type with the given code.
pub open spec fn token_type_of(code: int) -> Option<TokenType> {
    if code == 0 {
        Some(TokenType::CollectionFieldName)
    } else if code == 1 {
        Some(TokenType::CollectionFieldType)
    } else if code == 2 {
        Some(TokenType::DocumentId)
    } else if code == 3 {
        Some(TokenType::DocumentFieldsStart)
    } else if code == 4 {
        Some(TokenType::DocumentFieldsEnd)
    } else if code == 5 {
        Some(TokenType::DocumentFieldName)
    } else if code == 6 {
        Some(TokenType::DocumentFieldValue)
    } else {
        None
    }
}

impl TokenType {
    pub open spec fn code(self) -> int {
        match self {
            TokenType::CollectionFieldName => 0,
            TokenType::CollectionFieldType => 1,
            TokenType::DocumentId => 2,
            TokenType::DocumentFieldsStart => 3,
            TokenType::DocumentFieldsEnd => 4,
            TokenType::DocumentFieldName => 5,
            TokenType::DocumentFieldValue => 6,
        }
    }

    /// The token type with the given code, if there is one.
    pub fn from_u32(value: u32) -> (r: Option<TokenType>)
        ensures
            r == token_type_of(value as int),
    {
        match value {
            0 => Some(TokenType::CollectionFieldName),
            1 => Some(TokenType::CollectionFieldType),
            2 => Some(TokenType::DocumentId),
            3 => Some(TokenType::DocumentFieldsStart),
            4 => Some(TokenType::DocumentFieldsEnd),
            5 => Some(TokenType::DocumentFieldName),
            6 => Some(TokenType::DocumentFieldValue),
            _ => None,
        }
    }

    pub fn to_u32(self) -> (r: u32)
        ensures
            r == self.code(),
            token_type_of(r as int) == Some(self),
    {
        match self {
            TokenType::CollectionFieldName => 0,
            TokenType::CollectionFieldType => 1,
            TokenType::DocumentId => 2,
            TokenType::DocumentFieldsStart => 3,
            TokenType::DocumentFieldsEnd => 4,
            TokenType::DocumentFieldName => 5,
            TokenType::DocumentFieldValue => 6,
        }
    }
}

/// Relies on `String::from_utf8`: the text that the bytes encode, where they
/// are valid UTF-8, and an error otherwise.
#[verifier::external_body]
fn text_of_bytes(b: Vec<u8>) -> (r: Option<String>)
    ensures
        r is Some <==> valid_utf8(b@),
        r is Some ==> r->0@ == decode_utf8(b@),
{
    String::from_utf8(b).ok()
}

/// The pair that a type frame and a value frame denote: the type's text must
/// be the decimal code of a token type, and both must be valid UTF-8.
pub open spec fn pair_of(tf: Seq<u8>, vf: Seq<u8>) -> Option<(TokenType, Seq<char>)> {
    if valid_utf8(tf) && valid_utf8(vf) {
        match parsed_i64(decode_utf8(tf)) {
            Some(c) => match token_type_of(c as int) {
                Some(t) => Some((t, decode_utf8(vf))),
                None => None,
            },
            None => None,
        }
    } else {
        None
    }
}

/// The pairs that a sequence of frames denotes, two frames each.
pub open spec fn pairs_of(fs: Seq<Seq<u8>>) -> Option<Seq<(TokenType, Seq<char>)>>
    decreases fs.len(),
{
    if fs.len() == 0 {
        Some(Seq::empty())
    } else if fs.len() == 1 {
        None
    } else {
        match (pair_of(fs[0], fs[1]), pairs_of(fs.subrange(2, fs.len() as int))) {
            (Some(p), Some(rest)) => Some(seq![p] + rest),
            _ => None,
        }
    }
}

/// Reads the frames two by two as pairs of a token type and a value.
pub fn read_pairs(input: Vec<Vec<u8>>) -> (r: Option<Vec<(TokenType, String)>>)
    ensures
        r is Some <==> pairs_of(byte_views(input@)) is Some,
        r is Some ==> pair_views(r->0@) == pairs_of(byte_views(input@))->0,
{
    let ghost all = byte_views(input@);
    let mut src = input;
    let mut fs: Vec<Vec<u8>> = Vec::new();
    while src.len() > 0
        invariant
            all == byte_views(input@),
            src@.len() + fs@.len() == all.len(),
            forall|i: int| 0 <= i < src@.len() ==> (#[trigger] src@[i])@ == all[i],
            forall|i: int| 0 <= i < fs@.len() ==> (#[trigger] fs@[i])@ == all[all.len() - 1 - i],
        decreases src@.len(),
    {
        let f = src.pop().unwrap();
        fs.push(f);
    }
    let mut out: Vec<(TokenType, String)> = Vec::new();
    assert(all.subrange(0, all.len() as int) =~= all);
    assert(pair_views(out@) =~= Seq::<(TokenType, Seq<char>)>::empty());
    while fs.len() > 0
        invariant
            all == byte_views(input@),
            fs@.len() <= all.len(),
            forall|i: int| 0 <= i < fs@.len() ==> (#[trigger] fs@[i])@ == all[all.len() - 1 - i],
            pairs_of(all) == match pairs_of(all.subrange(all.len() - fs@.len(), all.len() as int)) {
                Some(rest) => Some(pair_views(out@) + rest),
                None => None,
            },
        decreases fs@.len(),
    {
        let ghost at = all.len() - fs@.len();
        let ghost rest = all.subrange(at, all.len() as int);
        let tf = fs.pop().unwrap();
        if fs.len() == 0 {
            assert(rest.len() == 1);
            assert(pairs_of(rest) is None);
            assert(pairs_of(all) is None);
            return None;
        }
        let vf = fs.pop().unwrap();
        proof {
            assert(rest[0] == tf@);
            assert(rest[1] == vf@);
            assert(rest.subrange(2, rest.len() as int) =~= all.subrange(at + 2, all.len() as int));
        }
        let ghost tb = tf@;
        let ghost vb = vf@;
        assert(pairs_of(rest) == match (
            pair_of(tb, vb),
            pairs_of(all.subrange(at + 2, all.len() as int)),
        ) {
            (Some(p), Some(tail)) => Some(seq![p] + tail),
            _ => None,
        });
        let tt = match text_of_bytes(tf) {
            Some(t) => t,
            None => return None,
        };
        let vt = match text_of_bytes(vf) {
            Some(t) => t,
            None => return None,
        };
        let code = match parse_i64(tt.as_str()) {
            Some(c) => c,
            None => return None,
        };
        if code < 0 || code > 6 {
            return None;
        }
        let t = match TokenType::from_u32(code as u32) {
            Some(t) => t,
            None => return None,
        };
        proof {
            assert(pair_of(tb, vb) == Some((t, vt@)));
            let ghost old_out = pair_views(out@);
            match pairs_of(all.subrange(at + 2, all.len() as int)) {
                Some(tail) => {
                    assert(old_out + (seq![(t, vt@)] + tail) =~= old_out.push((t, vt@)) + tail);
                },
                None => {},
            }
        }
        out.push((t, vt));
        proof {
            let ghost v = pair_views(out@);
            assert(v =~= pair_views(out@.drop_last()).push(
                (out@.last().0, out@.last().1@),
            ));
        }
    }
    assert(all.subrange(all.len() as int, all.len() as int) =~= Seq::<Seq<u8>>::empty());
    assert(pair_views(out@) + Seq::<(TokenType, Seq<char>)>::empty() =~= pair_views(out@));
    Some(out)
}

/// The pairs that declare a schema: each field's name, then its type code.
pub open spec fn schema_pairs(fields: Seq<(Seq<char>, FieldType)>) -> Seq<(TokenType, Seq<char>)>
    decreases fields.len(),
{
    if fields.len() == 0 {
        Seq::empty()
    } else {
        let f = fields.last();
        schema_pairs(fields.drop_last()) + seq![
            (TokenType::CollectionFieldName, f.0),
            (TokenType::CollectionFieldType, int_text(f.1.code())),
        ]
    }
}

/// The pairs of a document's fields: each name, then the value's text.
pub open spec fn entry_pairs(d: Seq<(Seq<char>, Value)>) -> Seq<(TokenType, Seq<char>)>
    decreases d.len(),
{
    if d.len() == 0 {
        Seq::empty()
    } else {
        let e = d.last();
        entry_pairs(d.drop_last()) + seq![
            (TokenType::DocumentFieldName, e.0),
            (TokenType::DocumentFieldValue, value_text(e.1)),
        ]
    }
}

/// The pairs of one document: its id, the start mark, its fields, the end
/// mark.
pub open spec fn doc_pairs(id: i32, d: Seq<(Seq<char>, Value)>) -> Seq<(TokenType, Seq<char>)> {
    seq![
        (TokenType::DocumentId, int_text(id as int)),
        (TokenType::DocumentFieldsStart, Seq::empty()),
    ] + entry_pairs(d) + seq![(TokenType::DocumentFieldsEnd, Seq::empty())]
}

pub open spec fn docs_pairs(docs: Seq<(i32, Seq<(Seq<char>, Value)>)>) -> Seq<
    (TokenType, Seq<char>),
>
    decreases docs.len(),
{
    if docs.len() == 0 {
        Seq::empty()
    } else {
        docs_pairs(docs.drop_last()) + doc_pairs(docs.last().0, docs.last().1)
    }
}

/// The pairs of a whole collection: the schema first, then the documents.
pub open spec fn collection_pairs(
    fields: Seq<(Seq<char>, FieldType)>,
    docs: Seq<(i32, Seq<(Seq<char>, Value)>)>,
) -> Seq<(TokenType, Seq<char>)> {
    schema_pairs(fields) + docs_pairs(docs)
}

/// The bytes of one pair: the frame of the type's code, then that of the
/// value.
pub open spec fn pair_bytes(p: (TokenType, Seq<char>)) -> Seq<u8> {
    text_frame(int_text(p.0.code())) + text_frame(p.1)
}

pub open spec fn pairs_bytes(ps: Seq<(TokenType, Seq<char>)>) -> Seq<u8>
    decreases ps.len(),
{
    if ps.len() == 0 {
        Seq::empty()
    } else {
        pair_bytes(ps[0]) + pairs_bytes(ps.drop_first())
    }
}

pub proof fn lemma_pairs_bytes_push(ps: Seq<(TokenType, Seq<char>)>, p: (TokenType, Seq<char>))
    ensures
        pairs_bytes(ps.push(p)) == pairs_bytes(ps) + pair_bytes(p),
    decreases ps.len(),
{
    if ps.len() == 0 {
        assert(ps.push(p).drop_first() =~= Seq::<(TokenType, Seq<char>)>::empty());
        assert(pairs_bytes(Seq::<(TokenType, Seq<char>)>::empty()) == Seq::<u8>::empty());
        assert(pairs_bytes(ps.push(p)) =~= pair_bytes(p));
        assert(pairs_bytes(ps) == Seq::<u8>::empty());
    } else {
        lemma_pairs_bytes_push(ps.drop_first(), p);
        assert(ps.push(p).drop_first() =~= ps.drop_first().push(p));
        assert(pairs_bytes(ps.push(p)) =~= pairs_bytes(ps) + pair_bytes(p));
    }
}

/// The bytes of a collection file.
pub open spec fn encoded(
    fields: Seq<(Seq<char>, FieldType)>,
    docs: Seq<(i32, Seq<(Seq<char>, Value)>)>,
) -> Seq<u8> {
    pairs_bytes(collection_pairs(fields, docs))
}

/// Appends the bytes of the pair `(t, val)`.
fn write_pair(bytes: &mut Vec<u8>, t: TokenType, val: &str, Ghost(ps): Ghost<Seq<(TokenType, Seq<char>)>>)
    requires
        old(bytes)@ == pairs_bytes(ps),
    ensures
        final(bytes)@ == pairs_bytes(ps.push((t, val@))),
{
    let code = i64_to_text(t.to_u32() as i64);
    write(bytes, code.as_str());
    write(bytes, val);
    proof {
        lemma_pairs_bytes_push(ps, (t, val@));
        assert(final(bytes)@ =~= pairs_bytes(ps) + pair_bytes((t, val@)));
    }
}

/// What reading a collection file has built so far: the schema, the
/// documents, the last field name and document id read, and the document
/// being read.
pub struct LoadState {
    pub fields: Seq<(Seq<char>, FieldType)>,
    pub docs: Seq<(i32, Seq<(Seq<char>, Value)>)>,
    pub name: Option<Seq<char>>,
    pub id: Option<i32>,
    pub doc: Option<Seq<(Seq<char>, Value)>>,
}

pub open spec fn empty_state() -> LoadState {
    LoadState { fields: Seq::empty(), docs: Seq::empty(), name: None, id: None, doc: None }
}

/// The declared type of the field `name`, if the schema declares it.
pub open spec fn declared_type(fields: Seq<(Seq<char>, FieldType)>, name: Seq<char>) -> Option<
    FieldType,
> {
    if exists|i: int| 0 <= i < fields.len() && fields[i].0 == name {
        Some(fields[choose|i: int| 0 <= i < fields.len() && fields[i].0 == name].1)
    } else {
        None
    }
}

/// `d` with the field `name` set to `v`: replaced where it stands, else
/// appended.
pub open spec fn doc_put(d: Seq<(Seq<char>, Value)>, name: Seq<char>, v: Value) -> Seq<
    (Seq<char>, Value),
> {
    if exists|i: int| 0 <= i < d.len() && d[i].0 == name {
        d.update(choose|i: int| 0 <= i < d.len() && d[i].0 == name, (name, v))
    } else {
        d.push((name, v))
    }
}

pub open spec fn has_id(docs: Seq<(i32, Seq<(Seq<char>, Value)>)>, id: i32) -> bool {
    exists|i: int| 0 <= i < docs.len() && docs[i].0 == id
}

/// The field type whose code a text holds.
pub open spec fn parsed_type(s: Seq<char>) -> Option<FieldType> {
    match parsed_i64(s) {
        Some(c) => if c == 0 {
            Some(FieldType::Int)
        } else if c == 1 {
            Some(FieldType::Bool)
        } else if c == 2 {
            Some(FieldType::String)
        } else {
            None
        },
        None => None,
    }
}

/// The document id that a text holds.
pub open spec fn parsed_i32(s: Seq<char>) -> Option<i32> {
    match parsed_i64(s) {
        Some(c) => if i32::MIN <= c <= i32::MAX {
            Some(c as i32)
        } else {
            None
        },
        None => None,
    }
}

/// One pair read: the state after it, or `None` where the pair is out of
/// place or its value malformed.
pub open spec fn step(s: LoadState, p: (TokenType, Seq<char>)) -> Option<LoadState> {
    let v = p.1;
    match p.0 {
        TokenType::CollectionFieldName => Some(LoadState { name: Some(v), ..s }),
        TokenType::CollectionFieldType => match (s.name, parsed_type(v)) {
            (Some(n), Some(t)) => if declared_type(s.fields, n) is None {
                Some(LoadState { fields: s.fields.push((n, t)), ..s })
            } else {
                None
            },
            _ => None,
        },
        TokenType::DocumentId => match parsed_i32(v) {
            Some(id) => Some(LoadState { id: Some(id), ..s }),
            None => None,
        },
        TokenType::DocumentFieldsStart => Some(LoadState { doc: Some(Seq::empty()), ..s }),
        TokenType::DocumentFieldsEnd => match (s.id, s.doc) {
            (Some(id), Some(d)) => if !has_id(s.docs, id) {
                Some(LoadState { docs: s.docs.push((id, d)), doc: None, ..s })
            } else {
                None
            },
            _ => None,
        },
        TokenType::DocumentFieldName => Some(LoadState { name: Some(v), ..s }),
        TokenType::DocumentFieldValue => match (s.name, s.doc) {
            (Some(n), Some(d)) => match declared_type(s.fields, n) {
                Some(t) => match typed_value(t, v) {
                    Some(val) => Some(LoadState { doc: Some(doc_put(d, n, val)), ..s }),
                    None => None,
                },
                None => None,
            },
            _ => None,
        },
    }
}

/// The state after reading all of `ps` from `s`.
pub open spec fn replay(s: LoadState, ps: Seq<(TokenType, Seq<char>)>) -> Option<LoadState>
    decreases ps.len(),
{
    if ps.len() == 0 {
        Some(s)
    } else {
        match step(s, ps[0]) {
            Some(s2) => replay(s2, ps.drop_first()),
            None => None,
        }
    }
}

/// The exec state of a load stands for the spec state `s`.
pub open spec fn stands_for(
    c: Collection,
    name: Option<String>,
    id: Option<i32>,
    doc: Option<Document>,
    s: LoadState,
) -> bool {
    &&& c.wf()
    &&& c.schema_model() == s.fields
    &&& c.docs_model() == s.docs
    &&& s.name == match name {
        Some(n) => Some(n@),
        None => None,
    }
    &&& s.id == id
    &&& match doc {
        Some(d) => d.wf() && s.doc == Some(d.model()),
        None => s.doc is None,
    }
}

proof fn lemma_declared_type(c: Collection, n: Seq<char>)
    requires
        c.wf(),
    ensures
        declared_type(c.schema_model(), n) is None <==> !c.field_names().contains(n),
        forall|i: int|
            0 <= i < c.schema().len() && c.schema()[i].name@ == n ==> declared_type(
                c.schema_model(),
                n,
            ) == Some(c.schema()[i].field_type),
{
    let m = c.schema_model();
    if c.field_names().contains(n) {
        let i = choose|i: int| 0 <= i < c.field_names().len() && c.field_names()[i] == n;
        assert(m[i].0 == n);
    }
    if exists|i: int| 0 <= i < m.len() && m[i].0 == n {
        let i = choose|i: int| 0 <= i < m.len() && m[i].0 == n;
        assert(c.field_names()[i] == n);
    }
    assert forall|i: int| 0 <= i < c.schema().len() && c.schema()[i].name@ == n implies declared_type(
        m,
        n,
    ) == Some(c.schema()[i].field_type) by {
        assert(m[i].0 == n);
        let j = choose|j: int| 0 <= j < m.len() && m[j].0 == n;
        assert(m[j].0 == c.schema()[j].name@);
    }
}

proof fn lemma_has_id(c: Collection, id: i32)
    ensures
        has_id(c.docs_model(), id) <==> c.ids().contains(id),
{
    let m = c.docs_model();
    if c.ids().contains(id) {
        let i = choose|i: int| 0 <= i < c.ids().len() && c.ids()[i] == id;
        assert(m[i].0 == id);
    }
    if has_id(m, id) {
        let i = choose|i: int| 0 <= i < m.len() && m[i].0 == id;
        assert(c.ids()[i] == id);
    }
}

proof fn lemma_doc_put(old_d: Document, new_d: Document, n: Seq<char>, v: FieldValue)
    requires
        old_d.wf(),
        new_d.entries() == if old_d.has(n) {
            old_d.entries().update(old_d.pos(n), (n, v))
        } else {
            old_d.entries().push((n, v))
        },
    ensures
        new_d.model() == doc_put(old_d.model(), n, v.value()),
{
    let m = old_d.model();
    if old_d.has(n) {
        let p = old_d.pos(n);
        assert(m[p].0 == n);
        let j = choose|j: int| 0 <= j < m.len() && m[j].0 == n;
        assert(m[j].0 == old_d.entries()[j].0);
        old_d.lemma_pos(j);
        assert(new_d.model() =~= doc_put(m, n, v.value()));
    } else {
        if exists|j: int| 0 <= j < m.len() && m[j].0 == n {
            let j = choose|j: int| 0 <= j < m.len() && m[j].0 == n;
            assert(old_d.entries()[j].0 == n);
        }
        assert(new_d.model() =~= doc_put(m, n, v.value()));
    }
}

/// Builds a collection by replaying the pairs of a file in order. After the
/// last pair the next automatic id is the number of documents.
pub fn load_pairs(pairs: &Vec<(TokenType, String)>) -> (r: Option<Collection>)
    ensures
        ({
            let s = replay(empty_state(), pair_views(pairs@));
            &&& r is Some <==> (s is Some && s->0.docs.len() <= i32::MAX)
            &&& r is Some ==> {
                &&& r->0.wf()
                &&& r->0.schema_model() == s->0.fields
                &&& r->0.docs_model() == s->0.docs
                &&& r->0.next_id() == s->0.docs.len()
                &&& r->0.unprocessed()
            }
        }),
{
    let ghost all = pair_views(pairs@);
    let mut c = Collection::new();
    let mut name: Option<String> = None;
    let mut id: Option<i32> = None;
    let mut doc: Option<Document> = None;
    let ghost mut st = empty_state();
    proof {
        assert(c.schema_model() =~= Seq::empty());
        assert(c.docs_model() =~= Seq::empty());
        assert(all.subrange(0, all.len() as int) =~= all);
    }
    let mut k: usize = 0;
    while k < pairs.len()
        invariant
            k <= pairs@.len() == all.len(),
            all == pair_views(pairs@),
            stands_for(c, name, id, doc, st),
            c.unprocessed(),
            doc is Some ==> doc->0.untokenized(),
            replay(empty_state(), all) == replay(st, all.subrange(k as int, all.len() as int)),
        decreases pairs@.len() - k,
    {
        let t = pairs[k].0;
        let v = &pairs[k].1;
        let ghost rest = all.subrange(k as int, all.len() as int);
        proof {
            assert(rest[0] == (t, v@));
            assert(rest.drop_first() =~= all.subrange(k + 1, all.len() as int));
        }
        let ghost next = step(st, (t, v@));
        match t {
            TokenType::CollectionFieldName | TokenType::DocumentFieldName => {
                name = Some(v.clone());
            },
            TokenType::CollectionFieldType => {
                let n = match &name {
                    Some(n) => n,
                    None => return None,
                };
                let code = match parse_i64(v.as_str()) {
                    Some(code) => code,
                    None => return None,
                };
                if code < 0 || code > 2 {
                    return None;
                }
                let ft = match FieldType::from_u32(code as u32) {
                    Some(ft) => ft,
                    None => return None,
                };
                proof {
                    lemma_declared_type(c, n@);
                    assert(parsed_type(v@) == Some(ft));
                }
                let ghost before = c;
                match c.push_field(n.as_str(), ft) {
                    Ok(()) => {},
                    Err(_) => return None,
                }
                proof {
                    assert forall|i: int| 0 <= i < c.schema().len() implies (#[trigger] c.schema()[i]).inverted_index@
                        == Map::<Seq<char>, Seq<i32>>::empty() by {
                        if i < before.schema().len() {
                            assert(c.schema().subrange(0, before.schema().len() as int)[i] == c.schema()[i]);
                        }
                    }
                    assert(c.schema_model() =~= before.schema_model().push((n@, ft))) by {
                        assert forall|i: int| 0 <= i < before.schema().len() implies c.schema()[i]
                            == before.schema()[i] by {
                            assert(c.schema().subrange(0, before.schema().len() as int)[i]
                                == c.schema()[i]);
                        }
                    }
                }
            },
            TokenType::DocumentId => {
                let n = match parse_i64(v.as_str()) {
                    Some(n) => n,
                    None => return None,
                };
                if n < i32::MIN as i64 || n > i32::MAX as i64 {
                    return None;
                }
                id = Some(n as i32);
            },
            TokenType::DocumentFieldsStart => {
                doc = Some(Document::new());
                proof {
                    assert(doc->0.model() =~= Seq::empty());
                }
            },
            TokenType::DocumentFieldsEnd => {
                let i = match id {
                    Some(i) => i,
                    None => return None,
                };
                let d = match doc {
                    Some(d) => d,
                    None => return None,
                };
                doc = None;
                proof {
                    lemma_has_id(c, i);
                }
                let ghost before = c;
                let ghost dm = d.model();
                match c.push(d, Some(i)) {
                    Ok(_) => {},
                    Err(_) => return None,
                }
                proof {
                    assert(c.docs_model() =~= before.docs_model().push((i, dm)));
                    assert forall|j: int| 0 <= j < c.docs().len() implies (#[trigger] c.docs()[j]).1.untokenized() by {
                        if j < before.docs().len() {
                            assert(c.docs()[j] == before.docs()[j]);
                        }
                    }
                }
            },
            TokenType::DocumentFieldValue => {
                let n = match &name {
                    Some(n) => n,
                    None => return None,
                };
                let field_type = match c.get_field(n) {
                    Some(f) => f.field_type,
                    None => {
                        proof {
                            lemma_declared_type(c, n@);
                        }
                        return None;
                    },
                };
                proof {
                    lemma_declared_type(c, n@);
                }
                let value = match FieldValue::from_text(field_type, v.as_str()) {
                    Some(value) => value,
                    None => return None,
                };
                match &mut doc {
                    Some(d) => {
                        let ghost before = *d;
                        d.push(n.as_str(), value);
                        proof {
                            lemma_doc_put(before, *d, n@, value);
                            assert forall|e: int| 0 <= e < d.entries().len() implies (#[trigger] d.entries()[e]).1.tokens() is None by {
                                if e < before.entries().len() && before.has(n@) && e != before.pos(n@) {
                                    assert(d.entries()[e] == before.entries()[e]);
                                } else if e < before.entries().len() && !before.has(n@) {
                                    assert(d.entries()[e] == before.entries()[e]);
                                }
                            }
                        }
                    },
                    None => return None,
                }
            },
        }
        proof {
            st = next->0;
        }
        k = k + 1;
    }
    let count = c.len();
    if count > i32::MAX as usize {
        return None;
    }
    c.set_last_index(count as i32);
    assert(c.unprocessed());
    Some(c)
}

/// What a collection file denotes: the state after replaying its pairs,
/// where it splits into frames and pairs, every pair is in place, and the
/// documents' count fits the next automatic id.
pub open spec fn decoded(b: Seq<u8>) -> Option<LoadState> {
    match frames(b) {
        Some(fs) => match pairs_of(fs) {
            Some(ps) => match replay(empty_state(), ps) {
                Some(s) => if s.docs.len() <= i32::MAX {
                    Some(s)
                } else {
                    None
                },
                None => None,
            },
            None => None,
        },
        None => None,
    }
}

/// The collection file format.
pub struct File {}

impl File {
    /// The bytes of a collection file: the schema, then every document in order.
    pub fn encode(collection: &Collection) -> (r: Vec<u8>)
        requires
            collection.wf(),
        ensures
            r@ == encoded(collection.schema_model(), collection.docs_model()),
    {
        let mut bytes: Vec<u8> = Vec::new();
        let ghost mut ps: Seq<(TokenType, Seq<char>)> = Seq::empty();
        let fields = collection.fields();
        let ghost fm = collection.schema_model();
        proof {
            assert(fm.subrange(0, 0) =~= Seq::<(Seq<char>, FieldType)>::empty());
        }
        let mut i: usize = 0;
        while i < fields.len()
            invariant
                i <= fields@.len(),
                fields@ == collection.schema(),
                fm == collection.schema_model(),
                ps == schema_pairs(fm.subrange(0, i as int)),
                bytes@ == pairs_bytes(ps),
            decreases fields@.len() - i,
        {
            let f = &fields[i];
            write_pair(&mut bytes, TokenType::CollectionFieldName, f.name.as_str(), Ghost(ps));
            proof { ps = ps.push((TokenType::CollectionFieldName, f.name@)); }
            let code = i64_to_text(f.field_type.to_u32() as i64);
            write_pair(&mut bytes, TokenType::CollectionFieldType, code.as_str(), Ghost(ps));
            proof {
                ps = ps.push((TokenType::CollectionFieldType, code@));
                let sub = fm.subrange(0, i + 1);
                assert(sub.drop_last() =~= fm.subrange(0, i as int));
                assert(sub.last() == (f.name@, f.field_type));
                assert(ps =~= schema_pairs(sub));
            }
            i = i + 1;
        }
        proof {
            assert(fm.subrange(0, i as int) =~= fm);
        }
        let ghost sp = ps;
        let docs = collection.iter();
        let ghost dm = collection.docs_model();
        proof {
            assert(dm.subrange(0, 0) =~= Seq::<(i32, Seq<(Seq<char>, Value)>)>::empty());
            assert(ps =~= sp + docs_pairs(dm.subrange(0, 0)));
        }
        let mut j: usize = 0;
        while j < docs.len()
            invariant
                j <= docs@.len(),
                docs@ == collection.docs(),
                dm == collection.docs_model(),
                collection.wf(),
                ps == sp + docs_pairs(dm.subrange(0, j as int)),
                bytes@ == pairs_bytes(ps),
            decreases docs@.len() - j,
        {
            let id = docs[j].0;
            let d = &docs[j].1;
            let ghost before = ps;
            let id_text = i64_to_text(id as i64);
            let blank = String::new();
            write_pair(&mut bytes, TokenType::DocumentId, id_text.as_str(), Ghost(ps));
            proof { ps = ps.push((TokenType::DocumentId, id_text@)); }
            write_pair(&mut bytes, TokenType::DocumentFieldsStart, blank.as_str(), Ghost(ps));
            proof {
                ps = ps.push((TokenType::DocumentFieldsStart, Seq::empty()));
            }
            let ghost mid = ps;
            let n = d.len();
            let ghost m = d.model();
            proof {
                assert(m.subrange(0, 0) =~= Seq::<(Seq<char>, Value)>::empty());
                assert(ps =~= mid + entry_pairs(m.subrange(0, 0)));
            }
            let mut e: usize = 0;
            while e < n
                invariant
                    e <= n == m.len(),
                    m == d.model(),
                    ps == mid + entry_pairs(m.subrange(0, e as int)),
                    bytes@ == pairs_bytes(ps),
                decreases n - e,
            {
                let (fname, fvalue) = d.field_at(e);
                write_pair(&mut bytes, TokenType::DocumentFieldName, fname.as_str(), Ghost(ps));
                proof { ps = ps.push((TokenType::DocumentFieldName, fname@)); }
                let text = fvalue.as_string();
                write_pair(&mut bytes, TokenType::DocumentFieldValue, text.as_str(), Ghost(ps));
                proof {
                    ps = ps.push((TokenType::DocumentFieldValue, text@));
                    let sub = m.subrange(0, e + 1);
                    assert(sub.drop_last() =~= m.subrange(0, e as int));
                    assert(sub.last() == (fname@, fvalue.value()));
                    assert(ps =~= mid + entry_pairs(sub));
                }
                e = e + 1;
            }
            write_pair(&mut bytes, TokenType::DocumentFieldsEnd, blank.as_str(), Ghost(ps));
            proof {
                ps = ps.push((TokenType::DocumentFieldsEnd, Seq::empty()));
                assert(m.subrange(0, n as int) =~= m);
                let sub = dm.subrange(0, j + 1);
                assert(sub.drop_last() =~= dm.subrange(0, j as int));
                assert(sub.last() == (id, m));
                assert(ps =~= sp + docs_pairs(sub));
            }
            j = j + 1;
        }
        proof {
            assert(dm.subrange(0, j as int) =~= dm);
        }
        bytes
    }

    /// Rebuilds a collection from the bytes of a file. Values come back
    /// unprocessed; the next automatic id is the number of documents.
    pub fn decode(bytes: &Vec<u8>) -> (r: Result<Collection, EngineError>)
        ensures
            r is Ok <==> decoded(bytes@) is Some,
            r is Err ==> r->Err_0 == EngineError::DecodeError,
            r is Ok ==> {
                &&& r->Ok_0.wf()
                &&& r->Ok_0.schema_model() == decoded(bytes@)->0.fields
                &&& r->Ok_0.docs_model() == decoded(bytes@)->0.docs
                &&& r->Ok_0.next_id() == decoded(bytes@)->0.docs.len()
                &&& r->Ok_0.unprocessed()
            },
    {
        let fs = match read_frames(bytes) {
            Some(fs) => fs,
            None => return Err(EngineError::DecodeError),
        };
        let ps = match read_pairs(fs) {
            Some(ps) => ps,
            None => return Err(EngineError::DecodeError),
        };
        match load_pairs(&ps) {
            Some(c) => Ok(c),
            None => Err(EngineError::DecodeError),
        }
    }
}

/// Every field of every document is declared in the schema, with the type of
/// its value.
pub open spec fn conforms(
    fields: Seq<(Seq<char>, FieldType)>,
    docs: Seq<(i32, Seq<(Seq<char>, Value)>)>,
) -> bool {
    forall|j: int, e: int|
        0 <= j < docs.len() && 0 <= e < docs[j].1.len() ==> declared_type(fields, docs[j].1[e].0)
            == Some(value_type(#[trigger] docs[j].1[e].1))
}

/// The frames of a sequence of pairs: two for each.
pub open spec fn pair_frames(ps: Seq<(TokenType, Seq<char>)>) -> Seq<Seq<u8>>
    decreases ps.len(),
{
    if ps.len() == 0 {
        Seq::empty()
    } else {
        seq![utf8_of(int_text(ps[0].0.code())), utf8_of(ps[0].1)] + pair_frames(
            ps.drop_first(),
        )
    }
}

proof fn lemma_frames_cons(x: Seq<u8>, rest: Seq<u8>)
    requires
        x.len() <= u64::MAX,
    ensures
        frames(frame(x) + rest) == match frames(rest) {
            Some(fs) => Some(seq![x] + fs),
            None => None,
        },
{
    reveal_with_fuel(frames, 1);
    let b = frame(x) + rest;
    let n = x.len() as u64;
    lemma_be_round_trip(n);
    assert(b.subrange(0, 8) =~= be_bytes(n));
    assert(b.subrange(8, 8 + x.len() as int) =~= x);
    assert(b.subrange(8 + x.len() as int, b.len() as int) =~= rest);
}

proof fn lemma_pair_of(p: (TokenType, Seq<char>))
    ensures
        pair_of(utf8_of(int_text(p.0.code())), utf8_of(p.1)) == Some(p),
{
    reveal(utf8_of);
    vstd::utf8::encode_utf8_valid_utf8(int_text(p.0.code()));
    vstd::utf8::encode_utf8_valid_utf8(p.1);
    vstd::utf8::encode_utf8_decode_utf8(int_text(p.0.code()));
    vstd::utf8::encode_utf8_decode_utf8(p.1);
    crate::numtext::lemma_int_text_parses(p.0.code() as i64);
}

proof fn lemma_frames_two(a: Seq<u8>, b: Seq<u8>, rest: Seq<u8>)
    requires
        a.len() <= u64::MAX,
        b.len() <= u64::MAX,
    ensures
        frames(frame(a) + (frame(b) + rest)) == match frames(rest) {
            Some(fs) => Some(seq![a, b] + fs),
            None => None,
        },
{
    lemma_frames_cons(b, rest);
    lemma_frames_cons(a, frame(b) + rest);
    match frames(rest) {
        Some(fs) => {
            assert(seq![a] + (seq![b] + fs) =~= seq![a, b] + fs);
        },
        None => {},
    }
}

#[verifier::spinoff_prover]
proof fn lemma_frames_of_pairs(ps: Seq<(TokenType, Seq<char>)>)
    requires
        pairs_bytes(ps).len() <= u64::MAX,
    ensures
        frames(pairs_bytes(ps)) == Some(pair_frames(ps)),
    decreases ps.len(),
{
    if ps.len() == 0 {
        reveal_with_fuel(frames, 1);
        assert(frames(Seq::<u8>::empty()) == Some(Seq::<Seq<u8>>::empty()));
    } else {
        let p = ps[0];
        let tail = ps.drop_first();
        let rest = pairs_bytes(tail);
        let a = utf8_of(int_text(p.0.code()));
        let b = utf8_of(p.1);
        assert(pairs_bytes(ps) == pair_bytes(p) + rest);
        assert(pair_bytes(p) + rest =~= frame(a) + (frame(b) + rest));
        lemma_frames_of_pairs(tail);
        lemma_frames_two(a, b, rest);
        assert(pair_frames(ps) == seq![a, b] + pair_frames(tail));
    }
}

proof fn lemma_pairs_of_frames(ps: Seq<(TokenType, Seq<char>)>)
    ensures
        pairs_of(pair_frames(ps)) == Some(ps),
    decreases ps.len(),
{
    if ps.len() > 0 {
        let p = ps[0];
        let tail = ps.drop_first();
        let a = utf8_of(int_text(p.0.code()));
        let b = utf8_of(p.1);
        let pf = pair_frames(tail);
        let fs = pair_frames(ps);
        assert(fs == seq![a, b] + pf);
        assert(fs[0] == a && fs[1] == b);
        assert(fs.subrange(2, fs.len() as int) =~= pf);
        lemma_pairs_of_frames(tail);
        lemma_pair_of(p);
        assert(seq![p] + tail =~= ps);
    }
}

proof fn lemma_replay_one(s: LoadState, p: (TokenType, Seq<char>))
    ensures
        replay(s, seq![p]) == step(s, p),
{
    assert(seq![p].drop_first() =~= Seq::<(TokenType, Seq<char>)>::empty());
    assert(seq![p][0] == p);
    match step(s, p) {
        Some(s2) => {
            assert(replay(s2, Seq::<(TokenType, Seq<char>)>::empty()) == Some(s2));
        },
        None => {},
    }
}

proof fn lemma_replay_two(s: LoadState, first: (TokenType, Seq<char>), second: (TokenType, Seq<char>))
    ensures
        replay(s, seq![first, second]) == match step(s, first) {
            Some(s1) => step(s1, second),
            None => None,
        },
{
    assert(seq![first, second].drop_first() =~= seq![second]);
    match step(s, first) {
        Some(s1) => lemma_replay_one(s1, second),
        None => {},
    }
}

proof fn lemma_replay_append(
    s: LoadState,
    a: Seq<(TokenType, Seq<char>)>,
    b: Seq<(TokenType, Seq<char>)>,
)
    ensures
        replay(s, a + b) == match replay(s, a) {
            Some(s2) => replay(s2, b),
            None => None,
        },
    decreases a.len(),
{
    if a.len() == 0 {
        assert(a + b =~= b);
    } else {
        assert((a + b)[0] == a[0]);
        assert((a + b).drop_first() =~= a.drop_first() + b);
        match step(s, a[0]) {
            Some(s2) => lemma_replay_append(s2, a.drop_first(), b),
            None => {},
        }
    }
}

proof fn lemma_typed_value(v: Value)
    ensures
        typed_value(value_type(v), value_text(v)) == Some(v),
{
    match v {
        Value::Int(i) => crate::numtext::lemma_int_text_parses(i),
        Value::Bool(b) => crate::numtext::lemma_bool_text_parses(b),
        Value::Text(_) => {},
    }
}

pub open spec fn unique_names<V>(f: Seq<(Seq<char>, V)>) -> bool {
    forall|i: int, j: int| 0 <= i < f.len() && 0 <= j < f.len() && i != j ==> f[i].0 != f[j].0
}

pub open spec fn unique_ids(d: Seq<(i32, Seq<(Seq<char>, Value)>)>) -> bool {
    forall|i: int, j: int| 0 <= i < d.len() && 0 <= j < d.len() && i != j ==> d[i].0 != d[j].0
}

proof fn lemma_replay_schema(f: Seq<(Seq<char>, FieldType)>)
    requires
        unique_names(f),
    ensures
        replay(empty_state(), schema_pairs(f)) is Some,
        replay(empty_state(), schema_pairs(f))->0.fields == f,
        replay(empty_state(), schema_pairs(f))->0.docs == Seq::<(i32, Seq<(Seq<char>, Value)>)>::empty(),
    decreases f.len(),
{
    if f.len() > 0 {
        let g = f.drop_last();
        let x = f.last();
        assert(unique_names(g)) by {
            assert forall|i: int, j: int| 0 <= i < g.len() && 0 <= j < g.len() && i != j implies g[i].0 != g[j].0 by {
                assert(g[i] == f[i] && g[j] == f[j]);
            }
        }
        lemma_replay_schema(g);
        let two = seq![
            (TokenType::CollectionFieldName, x.0),
            (TokenType::CollectionFieldType, int_text(x.1.code())),
        ];
        lemma_replay_append(empty_state(), schema_pairs(g), two);
        let s1 = replay(empty_state(), schema_pairs(g))->0;
        crate::numtext::lemma_int_text_parses(x.1.code() as i64);
        assert(parsed_type(int_text(x.1.code())) == Some(x.1));
        if exists|i: int| 0 <= i < g.len() && g[i].0 == x.0 {
            let i = choose|i: int| 0 <= i < g.len() && g[i].0 == x.0;
            assert(f[i].0 == f[f.len() - 1].0);
        }
        assert(declared_type(g, x.0) is None);
        lemma_replay_two(s1, two[0], two[1]);
        assert(two == seq![two[0], two[1]]);
        assert(g.push(x) =~= f);
    } else {
        assert(f =~= Seq::<(Seq<char>, FieldType)>::empty());
        assert(schema_pairs(f) =~= Seq::<(TokenType, Seq<char>)>::empty());
    }
}

/// A field as reading it back gives it: its value's text read under the
/// field's declared type.
pub open spec fn read_back(fields: Seq<(Seq<char>, FieldType)>, e: (Seq<char>, Value)) -> (
    Seq<char>,
    Value,
) {
    (e.0, typed_value(declared_type(fields, e.0)->0, value_text(e.1))->0)
}

/// Whether a field can be read back: its name is declared and its value's
/// text reads as the declared type.
pub open spec fn readable(fields: Seq<(Seq<char>, FieldType)>, e: (Seq<char>, Value)) -> bool {
    declared_type(fields, e.0) is Some && typed_value(declared_type(fields, e.0)->0, value_text(e.1)) is Some
}

pub open spec fn read_back_doc(fields: Seq<(Seq<char>, FieldType)>, d: Seq<(Seq<char>, Value)>) -> Seq<
    (Seq<char>, Value),
> {
    d.map_values(|e: (Seq<char>, Value)| read_back(fields, e))
}

pub open spec fn read_back_docs(
    fields: Seq<(Seq<char>, FieldType)>,
    docs: Seq<(i32, Seq<(Seq<char>, Value)>)>,
) -> Seq<(i32, Seq<(Seq<char>, Value)>)> {
    docs.map_values(|x: (i32, Seq<(Seq<char>, Value)>)| (x.0, read_back_doc(fields, x.1)))
}

/// Every field of every document can be read back.
pub open spec fn all_readable(
    fields: Seq<(Seq<char>, FieldType)>,
    docs: Seq<(i32, Seq<(Seq<char>, Value)>)>,
) -> bool {
    forall|j: int, e: int|
        0 <= j < docs.len() && 0 <= e < docs[j].1.len() ==> readable(fields, #[trigger] docs[j].1[e])
}

/// The documents with each value replaced by its text.
pub open spec fn doc_texts(docs: Seq<(i32, Seq<(Seq<char>, Value)>)>) -> Seq<(i32, Seq<(Seq<char>, Seq<char>)>)> {
    docs.map_values(
        |x: (i32, Seq<(Seq<char>, Value)>)|
            (x.0, x.1.map_values(|e: (Seq<char>, Value)| (e.0, value_text(e.1)))),
    )
}

proof fn lemma_replay_entries(s: LoadState, d: Seq<(Seq<char>, Value)>)
    requires
        s.doc == Some(Seq::<(Seq<char>, Value)>::empty()),
        unique_names(d),
        forall|e: int| 0 <= e < d.len() ==> readable(s.fields, #[trigger] d[e]),
    ensures
        replay(s, entry_pairs(d)) is Some,
        replay(s, entry_pairs(d))->0.fields == s.fields,
        replay(s, entry_pairs(d))->0.docs == s.docs,
        replay(s, entry_pairs(d))->0.id == s.id,
        replay(s, entry_pairs(d))->0.doc == Some(read_back_doc(s.fields, d)),
    decreases d.len(),
{
    if d.len() == 0 {
        assert(entry_pairs(d) =~= Seq::<(TokenType, Seq<char>)>::empty());
        assert(read_back_doc(s.fields, d) =~= Seq::<(Seq<char>, Value)>::empty());
    } else {
        let g = d.drop_last();
        let x = d.last();
        assert(unique_names(g)) by {
            assert forall|i: int, j: int| 0 <= i < g.len() && 0 <= j < g.len() && i != j implies g[i].0 != g[j].0 by {
                assert(g[i] == d[i] && g[j] == d[j]);
            }
        }
        assert forall|e: int| 0 <= e < g.len() implies readable(s.fields, #[trigger] g[e]) by {
            assert(g[e] == d[e]);
        }
        lemma_replay_entries(s, g);
        let two = seq![
            (TokenType::DocumentFieldName, x.0),
            (TokenType::DocumentFieldValue, value_text(x.1)),
        ];
        lemma_replay_append(s, entry_pairs(g), two);
        let s1 = replay(s, entry_pairs(g))->0;
        lemma_replay_two(s1, two[0], two[1]);
        assert(two == seq![two[0], two[1]]);
        assert(readable(s.fields, x)) by {
            assert(d[d.len() - 1] == x);
        }
        let rg = read_back_doc(s.fields, g);
        if exists|i: int| 0 <= i < rg.len() && rg[i].0 == x.0 {
            let i = choose|i: int| 0 <= i < rg.len() && rg[i].0 == x.0;
            assert(rg[i].0 == g[i].0);
            assert(d[i].0 == d[d.len() - 1].0);
        }
        let rx = read_back(s.fields, x);
        assert(doc_put(rg, x.0, rx.1) == rg.push(rx));
        assert(rg.push(rx) =~= read_back_doc(s.fields, d));
    }
}

proof fn lemma_replay_doc(s: LoadState, id: i32, d: Seq<(Seq<char>, Value)>)
    requires
        !has_id(s.docs, id),
        unique_names(d),
        forall|e: int| 0 <= e < d.len() ==> readable(s.fields, #[trigger] d[e]),
    ensures
        replay(s, doc_pairs(id, d)) is Some,
        replay(s, doc_pairs(id, d))->0.fields == s.fields,
        replay(s, doc_pairs(id, d))->0.docs == s.docs.push((id, read_back_doc(s.fields, d))),
{
    let head = seq![
        (TokenType::DocumentId, int_text(id as int)),
        (TokenType::DocumentFieldsStart, Seq::<char>::empty()),
    ];
    let tail = seq![(TokenType::DocumentFieldsEnd, Seq::<char>::empty())];
    assert(doc_pairs(id, d) == head + entry_pairs(d) + tail);
    lemma_replay_append(s, head + entry_pairs(d), tail);
    lemma_replay_append(s, head, entry_pairs(d));
    crate::numtext::lemma_int_text_parses(id as i64);
    assert(parsed_i32(int_text(id as int)) == Some(id));
    let s1 = LoadState { id: Some(id), ..s };
    let s2 = LoadState { doc: Some(Seq::empty()), ..s1 };
    lemma_replay_two(s, head[0], head[1]);
    assert(head == seq![head[0], head[1]]);
    assert(replay(s, head) == Some(s2));
    lemma_replay_entries(s2, d);
    let s3 = replay(s2, entry_pairs(d))->0;
    lemma_replay_one(s3, tail[0]);
    assert(tail == seq![tail[0]]);
}

proof fn lemma_replay_docs(s: LoadState, docs: Seq<(i32, Seq<(Seq<char>, Value)>)>)
    requires
        s.docs == Seq::<(i32, Seq<(Seq<char>, Value)>)>::empty(),
        unique_ids(docs),
        forall|j: int| 0 <= j < docs.len() ==> unique_names(#[trigger] docs[j].1),
        all_readable(s.fields, docs),
    ensures
        replay(s, docs_pairs(docs)) is Some,
        replay(s, docs_pairs(docs))->0.fields == s.fields,
        replay(s, docs_pairs(docs))->0.docs == read_back_docs(s.fields, docs),
    decreases docs.len(),
{
    if docs.len() == 0 {
        assert(docs_pairs(docs) =~= Seq::<(TokenType, Seq<char>)>::empty());
        assert(read_back_docs(s.fields, docs) =~= s.docs);
    } else {
        let g = docs.drop_last();
        let x = docs.last();
        assert(unique_ids(g)) by {
            assert forall|i: int, j: int| 0 <= i < g.len() && 0 <= j < g.len() && i != j implies g[i].0 != g[j].0 by {
                assert(g[i] == docs[i] && g[j] == docs[j]);
            }
        }
        assert forall|j: int| 0 <= j < g.len() implies unique_names(#[trigger] g[j].1) by {
            assert(g[j] == docs[j]);
        }
        assert(all_readable(s.fields, g)) by {
            assert forall|j: int, e: int| 0 <= j < g.len() && 0 <= e < g[j].1.len() implies readable(s.fields, #[trigger] g[j].1[e]) by {
                assert(g[j] == docs[j]);
            }
        }
        lemma_replay_docs(s, g);
        lemma_replay_append(s, docs_pairs(g), doc_pairs(x.0, x.1));
        let s1 = replay(s, docs_pairs(g))->0;
        let rg = read_back_docs(s.fields, g);
        if has_id(rg, x.0) {
            let i = choose|i: int| 0 <= i < rg.len() && rg[i].0 == x.0;
            assert(rg[i].0 == g[i].0);
            assert(docs[i].0 == docs[docs.len() - 1].0);
        }
        let k = docs.len() - 1;
        assert(docs[k] == x);
        assert(unique_names(x.1));
        assert forall|e: int| 0 <= e < x.1.len() implies readable(s1.fields, #[trigger] x.1[e]) by {
            assert(docs[k].1[e] == x.1[e]);
        }
        lemma_replay_doc(s1, x.0, x.1);
        assert(rg.push((x.0, read_back_doc(s.fields, x.1))) =~= read_back_docs(s.fields, docs));
    }
}

/// Saving a collection and loading the bytes back gives the same schema and
/// the same documents, in the same order, each field's value read back from
/// its text under the field's declared type; where every field can be read
/// back that way and the count of documents fits a document id. So a value
/// whose text reads back as itself, as every value of its field's declared
/// type does, comes back with the same text.
pub proof fn lemma_round_trip_read_back(c: Collection)
    requires
        c.wf(),
        all_readable(c.schema_model(), c.docs_model()),
        c.docs().len() <= i32::MAX,
        encoded(c.schema_model(), c.docs_model()).len() <= u64::MAX,
    ensures
        decoded(encoded(c.schema_model(), c.docs_model())) is Some,
        decoded(encoded(c.schema_model(), c.docs_model()))->0.fields == c.schema_model(),
        decoded(encoded(c.schema_model(), c.docs_model()))->0.docs == read_back_docs(
            c.schema_model(),
            c.docs_model(),
        ),
        (forall|j: int, e: int|
            0 <= j < c.docs_model().len() && 0 <= e < c.docs_model()[j].1.len() ==> value_text(
                read_back(c.schema_model(), #[trigger] c.docs_model()[j].1[e]).1,
            ) == value_text(c.docs_model()[j].1[e].1)) ==> doc_texts(
            decoded(encoded(c.schema_model(), c.docs_model()))->0.docs,
        ) == doc_texts(c.docs_model()),
{
    let f = c.schema_model();
    let d = c.docs_model();
    let ps = collection_pairs(f, d);
    lemma_frames_of_pairs(ps);
    lemma_pairs_of_frames(ps);
    assert(unique_names(f)) by {
        assert forall|i: int, j: int| 0 <= i < f.len() && 0 <= j < f.len() && i != j implies f[i].0 != f[j].0 by {
            assert(f[i].0 == c.schema()[i].name@);
            assert(f[j].0 == c.schema()[j].name@);
        }
    }
    assert(unique_ids(d)) by {
        assert forall|i: int, j: int| 0 <= i < d.len() && 0 <= j < d.len() && i != j implies d[i].0 != d[j].0 by {
            assert(d[i].0 == c.docs()[i].0);
            assert(d[j].0 == c.docs()[j].0);
        }
    }
    assert forall|j: int| 0 <= j < d.len() implies unique_names(#[trigger] d[j].1) by {
        let doc = c.docs()[j].1;
        assert(d[j].1 == doc.model());
        assert(doc.wf());
        assert forall|a: int, b: int| 0 <= a < d[j].1.len() && 0 <= b < d[j].1.len() && a != b implies d[j].1[a].0 != d[j].1[b].0 by {
            assert(d[j].1[a].0 == doc.entries()[a].0);
            assert(d[j].1[b].0 == doc.entries()[b].0);
        }
    }
    lemma_replay_schema(f);
    let s1 = replay(empty_state(), schema_pairs(f))->0;
    lemma_replay_docs(s1, d);
    lemma_replay_append(empty_state(), schema_pairs(f), docs_pairs(d));
    let rd = read_back_docs(f, d);
    if forall|j: int, e: int|
        0 <= j < d.len() && 0 <= e < d[j].1.len() ==> value_text(read_back(f, #[trigger] d[j].1[e]).1)
            == value_text(d[j].1[e].1) {
        assert forall|j: int| 0 <= j < d.len() implies doc_texts(rd)[j] == doc_texts(d)[j] by {
            assert(rd[j].1.len() == d[j].1.len());
            assert(doc_texts(rd)[j].1 =~= doc_texts(d)[j].1) by {
                assert forall|e: int| 0 <= e < d[j].1.len() implies doc_texts(rd)[j].1[e] == doc_texts(d)[j].1[e] by {
                    assert(rd[j].1[e] == read_back(f, d[j].1[e]));
                }
            }
        }
        assert(doc_texts(rd) =~= doc_texts(d));
    }
}

/// Saving a collection and loading the bytes back gives the same schema and
/// the same documents, with the same values, in the same order; where every
/// document's fields are declared with the types of their values, and the
/// count of documents fits a document id.
pub proof fn lemma_round_trip(c: Collection)
    requires
        c.wf(),
        conforms(c.schema_model(), c.docs_model()),
        c.docs().len() <= i32::MAX,
        encoded(c.schema_model(), c.docs_model()).len() <= u64::MAX,
    ensures
        decoded(encoded(c.schema_model(), c.docs_model())) is Some,
        decoded(encoded(c.schema_model(), c.docs_model()))->0.fields == c.schema_model(),
        decoded(encoded(c.schema_model(), c.docs_model()))->0.docs == c.docs_model(),
{
    let f = c.schema_model();
    let d = c.docs_model();
    assert forall|j: int, e: int| 0 <= j < d.len() && 0 <= e < d[j].1.len() implies readable(f, #[trigger] d[j].1[e])
        && read_back(f, d[j].1[e]) == d[j].1[e] by {
        lemma_typed_value(d[j].1[e].1);
    }
    lemma_round_trip_read_back(c);
    let rd = read_back_docs(f, d);
    assert forall|j: int| 0 <= j < d.len() implies rd[j] == d[j] by {
        assert(rd[j].1 =~= d[j].1) by {
            assert forall|e: int| 0 <= e < d[j].1.len() implies rd[j].1[e] == d[j].1[e] by {
                assert(read_back(f, d[j].1[e]) == d[j].1[e]);
            }
        }
    }
    assert(rd =~= d);
}

} // verus!
