//! The envelope codec: a record's field mapping together with an event
//! timestamp is encoded as a two-element MessagePack array — a fixed
//! 8-byte extension (subtype 0) holding seconds and nanoseconds as
//! big-endian 32-bit values, followed by a map with field-name keys.
//! The byte layout is stated by spec functions, the encoder is proved to
//! produce exactly that layout, and the decoder is proved to accept
//! exactly the envelopes, returning their unique preimage.

use vstd::prelude::*;

verus! {

// ------------------------------------------------------------------
// Data model: a record is a sequence of named fields; a field value is
// either text (held as its UTF-8 bytes) or an unsigned 64-bit integer.
// ------------------------------------------------------------------

pub enum FieldValue {
    Text(Vec<u8>),
    U64(u64),
}

pub struct Field {
    pub name: Vec<u8>,
    pub value: FieldValue,
}

pub struct Record {
    pub fields: Vec<Field>,
}

#[verifier::ext_equal]
pub enum ValueView {
    Text(Seq<u8>),
    U64(u64),
}

#[verifier::ext_equal]
pub struct FieldView {
    pub name: Seq<u8>,
    pub value: ValueView,
}

impl View for FieldValue {
    type V = ValueView;

    open spec fn view(&self) -> ValueView {
        match self {
            FieldValue::Text(b) => ValueView::Text(b@),
            FieldValue::U64(x) => ValueView::U64(*x),
        }
    }
}

impl View for Field {
    type V = FieldView;

    open spec fn view(&self) -> FieldView {
        FieldView { name: self.name@, value: self.value@ }
    }
}

impl View for Record {
    type V = Seq<FieldView>;

    open spec fn view(&self) -> Seq<FieldView> {
        Seq::new(self.fields@.len(), |i: int| self.fields@[i]@)
    }
}

/// The format carries lengths as 32-bit values: a representable value or
/// name stays under 2^32 bytes, a representable record under 2^32 fields.
pub open spec fn value_wf(v: ValueView) -> bool {
    match v {
        ValueView::Text(b) => b.len() < 0x1_0000_0000,
        ValueView::U64(_) => true,
    }
}

pub open spec fn field_wf(f: FieldView) -> bool {
    &&& f.name.len() < 0x1_0000_0000
    &&& value_wf(f.value)
}

pub open spec fn record_wf(r: Seq<FieldView>) -> bool {
    &&& r.len() < 0x1_0000_0000
    &&& forall|i: int| 0 <= i < r.len() ==> field_wf(#[trigger] r[i])
}

// ------------------------------------------------------------------
// Byte layout, as spec functions.
// ------------------------------------------------------------------

pub open spec fn be16(x: u16) -> Seq<u8> {
    seq![(x / 0x100) as u8, (x % 0x100) as u8]
}

pub open spec fn be32(x: u32) -> Seq<u8> {
    seq![
        (x / 0x100_0000) as u8,
        ((x / 0x1_0000) % 0x100) as u8,
        ((x / 0x100) % 0x100) as u8,
        (x % 0x100) as u8,
    ]
}

pub open spec fn be64(x: u64) -> Seq<u8> {
    be32((x / 0x1_0000_0000) as u32) + be32((x % 0x1_0000_0000) as u32)
}

/// MessagePack array-length header.
pub open spec fn array_header(n: nat) -> Seq<u8> {
    if n < 16 {
        seq![(0x90 + n) as u8]
    } else if n < 0x1_0000 {
        seq![0xdcu8] + be16(n as u16)
    } else {
        seq![0xddu8] + be32(n as u32)
    }
}

/// MessagePack map-length header.
pub open spec fn map_header(n: nat) -> Seq<u8> {
    if n < 16 {
        seq![(0x80 + n) as u8]
    } else if n < 0x1_0000 {
        seq![0xdeu8] + be16(n as u16)
    } else {
        seq![0xdfu8] + be32(n as u32)
    }
}

/// MessagePack string-length header.
pub open spec fn str_header(n: nat) -> Seq<u8> {
    if n < 32 {
        seq![(0xa0 + n) as u8]
    } else if n < 0x100 {
        seq![0xd9u8, n as u8]
    } else if n < 0x1_0000 {
        seq![0xdau8] + be16(n as u16)
    } else {
        seq![0xdbu8] + be32(n as u32)
    }
}

/// A string: its length header followed by its bytes.
pub open spec fn str_enc(b: Seq<u8>) -> Seq<u8> {
    str_header(b.len()) + b
}

/// A field value: a string, or a fixed-width unsigned 64-bit integer.
pub open spec fn value_enc(v: ValueView) -> Seq<u8> {
    match v {
        ValueView::Text(b) => str_enc(b),
        ValueView::U64(x) => seq![0xcfu8] + be64(x),
    }
}

/// A field: its name as a string key, then its value.
pub open spec fn field_enc(f: FieldView) -> Seq<u8> {
    str_enc(f.name) + value_enc(f.value)
}

/// The fields of a record, in order.
pub open spec fn fields_enc(r: Seq<FieldView>) -> Seq<u8> {
    r.map_values(|f: FieldView| field_enc(f)).flatten()
}

/// The fixed 8-byte extension (subtype 0) carrying the event timestamp.
pub open spec fn ext_timestamp(sec: u32, nanos: u32) -> Seq<u8> {
    seq![0xd7u8, 0x00u8] + be32(sec) + be32(nanos)
}

/// The whole envelope: a two-element array of timestamp and field map.
pub open spec fn envelope(sec: u32, nanos: u32, r: Seq<FieldView>) -> Seq<u8> {
    array_header(2) + ext_timestamp(sec, nanos) + map_header(r.len()) + fields_enc(r)
}

// ------------------------------------------------------------------
// Trusted wrappers around the MessagePack writer. Writing into a
// `Vec<u8>` goes through `std::io::Write`, which for a `Vec` always
// succeeds (std documents the impl as infallible).
// ------------------------------------------------------------------

/// Relies on rmp::encode::write_array_len: a fixarray marker below 16,
/// else a 16- or 32-bit header with the length big-endian.
#[verifier::external_body]
fn rmp_array_len(buf: &mut Vec<u8>, len: u32)
    ensures
        final(buf)@ == old(buf)@ + array_header(len as nat),
{
    rmp::encode::write_array_len(buf, len).unwrap();
}

/// Relies on rmp::encode::write_map_len: a fixmap marker below 16,
/// else a 16- or 32-bit header with the length big-endian.
#[verifier::external_body]
fn rmp_map_len(buf: &mut Vec<u8>, len: u32)
    ensures
        final(buf)@ == old(buf)@ + map_header(len as nat),
{
    rmp::encode::write_map_len(buf, len).unwrap();
}

/// Relies on rmp::encode::write_str_len: a fixstr marker below 32, else
/// an 8-, 16- or 32-bit header with the length big-endian.
#[verifier::external_body]
fn rmp_str_len(buf: &mut Vec<u8>, len: u32)
    ensures
        final(buf)@ == old(buf)@ + str_header(len as nat),
{
    rmp::encode::write_str_len(buf, len).unwrap();
}

/// Relies on rmp::encode::write_u64: the u64 marker byte, then the value
/// as eight big-endian bytes.
#[verifier::external_body]
fn rmp_u64(buf: &mut Vec<u8>, x: u64)
    ensures
        final(buf)@ == old(buf)@ + seq![0xcfu8] + be64(x),
{
    rmp::encode::write_u64(buf, x).unwrap();
}

/// Relies on rmp::encode::write_ext_meta: for length 8 it writes the
/// fixext8 marker and the subtype byte. Restricted to non-negative
/// subtypes, which rmp documents as the only supported ones.
#[verifier::external_body]
fn rmp_ext_meta8(buf: &mut Vec<u8>, len: u32, ty: i8)
    requires
        len == 8,
        0 <= ty,
    ensures
        final(buf)@ == old(buf)@ + seq![0xd7u8, ty as u8],
{
    rmp::encode::write_ext_meta(buf, len, ty).unwrap();
}

// ------------------------------------------------------------------
// Verified byte helpers.
// ------------------------------------------------------------------

fn push_be32(buf: &mut Vec<u8>, x: u32)
    ensures
        final(buf)@ == old(buf)@ + be32(x),
{
    buf.push((x / 0x100_0000) as u8);
    buf.push(((x / 0x1_0000) % 0x100) as u8);
    buf.push(((x / 0x100) % 0x100) as u8);
    buf.push((x % 0x100) as u8);
    assert(buf@ =~= old(buf)@ + be32(x));
}

fn push_bytes(buf: &mut Vec<u8>, src: &Vec<u8>)
    ensures
        final(buf)@ == old(buf)@ + src@,
{
    let mut i: usize = 0;
    while i < src.len()
        invariant
            i <= src@.len(),
            buf@ == old(buf)@ + src@.subrange(0, i as int),
        decreases src@.len() - i,
    {
        buf.push(src[i]);
        i = i + 1;
        assert(buf@ =~= old(buf)@ + src@.subrange(0, i as int));
    }
    assert(src@.subrange(0, src@.len() as int) =~= src@);
}

// ------------------------------------------------------------------
// The encoder.
// ------------------------------------------------------------------

proof fn lemma_fields_enc_nil()
    ensures
        fields_enc(Seq::<FieldView>::empty()) == Seq::<u8>::empty(),
{
    assert(Seq::<FieldView>::empty().map_values(|f: FieldView| field_enc(f)).len() == 0);
}

proof fn lemma_fields_enc_push(r: Seq<FieldView>, f: FieldView)
    ensures
        fields_enc(r.push(f)) == fields_enc(r) + field_enc(f),
{
    let m = r.map_values(|f: FieldView| field_enc(f));
    assert(r.push(f).map_values(|f: FieldView| field_enc(f)) =~= m.push(field_enc(f)));
    m.lemma_flatten_push(field_enc(f));
}

/// Unfolding of `fields_enc` at the front; the decoder's proofs step
/// through the fields this way.
proof fn lemma_fields_enc_first(r: Seq<FieldView>)
    requires
        r.len() > 0,
    ensures
        fields_enc(r) == field_enc(r[0]) + fields_enc(r.drop_first()),
{
    let m = r.map_values(|f: FieldView| field_enc(f));
    assert(m.first() == field_enc(r[0]));
    assert(m.drop_first() =~= r.drop_first().map_values(|f: FieldView| field_enc(f)));
    assert(m.flatten() == m.first() + m.drop_first().flatten());
}

/// Write one field (its name key, then its value) onto the buffer.
fn encode_field(buf: &mut Vec<u8>, f: &Field)
    requires
        field_wf(f@),
    ensures
        final(buf)@ == old(buf)@ + field_enc(f@),
{
    rmp_str_len(buf, f.name.len() as u32);
    push_bytes(buf, &f.name);
    match &f.value {
        FieldValue::Text(b) => {
            rmp_str_len(buf, b.len() as u32);
            push_bytes(buf, b);
        },
        FieldValue::U64(x) => {
            rmp_u64(buf, *x);
        },
    }
    assert(buf@ =~= old(buf)@ + field_enc(f@));
}

/// Encode `(sec, nanos, record)` as the wire envelope.
pub fn encode_envelope(sec: u32, nanos: u32, record: &Record) -> (out: Vec<u8>)
    requires
        record_wf(record@),
    ensures
        out@ == envelope(sec, nanos, record@),
{
    let mut buf: Vec<u8> = Vec::new();
    rmp_array_len(&mut buf, 2);
    rmp_ext_meta8(&mut buf, 8, 0);
    push_be32(&mut buf, sec);
    push_be32(&mut buf, nanos);
    let ghost prefix: Seq<u8> = buf@ + map_header(record@.len());
    rmp_map_len(&mut buf, record.fields.len() as u32);
    proof {
        lemma_fields_enc_nil();
        assert(record@.subrange(0, 0) =~= Seq::<FieldView>::empty());
        assert(buf@ =~= prefix + fields_enc(record@.subrange(0, 0)));
    }
    let mut i: usize = 0;
    while i < record.fields.len()
        invariant
            i <= record.fields@.len(),
            record_wf(record@),
            record@.len() == record.fields@.len(),
            forall|j: int| 0 <= j < record@.len() ==> record@[j] == record.fields@[j]@,
            buf@ == prefix + fields_enc(record@.subrange(0, i as int)),
        decreases record.fields@.len() - i,
    {
        let ghost done: Seq<FieldView> = record@.subrange(0, i as int);
        encode_field(&mut buf, &record.fields[i]);
        proof {
            lemma_fields_enc_push(done, record@[i as int]);
            assert(record@.subrange(0, i + 1 as int) =~= done.push(record@[i as int]));
        }
        i = i + 1;
    }
    proof {
        assert(record@.subrange(0, record@.len() as int) =~= record@);
        assert(buf@ =~= envelope(sec, nanos, record@));
    }
    buf
}

// ------------------------------------------------------------------
// Inversion of the byte layout: the big-endian encodings are injective
// and reconstructible from their bytes.
// ------------------------------------------------------------------

proof fn lemma_be16_decompose(x: u16)
    ensures
        x == be16(x)[0] * 0x100 + be16(x)[1],
        be16(x)[0] == x / 0x100,
        be16(x)[1] == x % 0x100,
{
    vstd::arithmetic::div_mod::lemma_fundamental_div_mod(x as int, 0x100);
    vstd::arithmetic::div_mod::lemma_mod_bound(x as int, 0x100);
    vstd::arithmetic::div_mod::lemma_div_is_ordered(x as int, 0xffff, 0x100);
    vstd::arithmetic::div_mod::lemma_div_is_ordered(0, x as int, 0x100);
}

proof fn lemma_be16_reconstruct(x: u16, b0: u8, b1: u8)
    requires
        x == b0 * 0x100 + b1,
    ensures
        be16(x) == seq![b0, b1],
{
    vstd::arithmetic::div_mod::lemma_fundamental_div_mod_converse(x as int, 0x100, b0 as int,
        b1 as int);
    assert(be16(x) =~= seq![b0, b1]);
}

proof fn lemma_be16_inj(a: u16, b: u16)
    requires
        be16(a) == be16(b),
    ensures
        a == b,
{
    lemma_be16_decompose(a);
    lemma_be16_decompose(b);
    assert(be16(a)[0] == be16(b)[0]);
    assert(be16(a)[1] == be16(b)[1]);
}

proof fn lemma_be32_decompose(x: u32)
    ensures
        x == be32(x)[0] * 0x100_0000 + be32(x)[1] * 0x1_0000 + be32(x)[2] * 0x100 + be32(x)[3],
        be32(x)[0] == x / 0x100_0000,
{
    let xi = x as int;
    vstd::arithmetic::div_mod::lemma_fundamental_div_mod(xi, 0x100);
    vstd::arithmetic::div_mod::lemma_mod_bound(xi, 0x100);
    vstd::arithmetic::div_mod::lemma_fundamental_div_mod(xi / 0x100, 0x100);
    vstd::arithmetic::div_mod::lemma_mod_bound(xi / 0x100, 0x100);
    vstd::arithmetic::div_mod::lemma_div_denominator(xi, 0x100, 0x100);
    vstd::arithmetic::div_mod::lemma_fundamental_div_mod(xi / 0x1_0000, 0x100);
    vstd::arithmetic::div_mod::lemma_mod_bound(xi / 0x1_0000, 0x100);
    vstd::arithmetic::div_mod::lemma_div_denominator(xi, 0x1_0000, 0x100);
    vstd::arithmetic::div_mod::lemma_div_is_ordered(xi, 0xffff_ffff, 0x100_0000);
    vstd::arithmetic::div_mod::lemma_div_is_ordered(0, xi, 0x100_0000);
    vstd::arithmetic::div_mod::lemma_div_is_ordered(0, xi, 0x1_0000);
    vstd::arithmetic::div_mod::lemma_div_is_ordered(0, xi, 0x100);
}

proof fn lemma_be32_reconstruct(x: u32, b0: u8, b1: u8, b2: u8, b3: u8)
    requires
        x == b0 * 0x100_0000 + b1 * 0x1_0000 + b2 * 0x100 + b3,
    ensures
        be32(x) == seq![b0, b1, b2, b3],
{
    let xi = x as int;
    vstd::arithmetic::div_mod::lemma_fundamental_div_mod_converse(xi, 0x100_0000, b0 as int,
        b1 * 0x1_0000 + b2 * 0x100 + b3);
    vstd::arithmetic::div_mod::lemma_fundamental_div_mod_converse(xi, 0x1_0000,
        b0 * 0x100 + b1, b2 * 0x100 + b3);
    vstd::arithmetic::div_mod::lemma_fundamental_div_mod_converse(b0 * 0x100 + b1, 0x100,
        b0 as int, b1 as int);
    vstd::arithmetic::div_mod::lemma_fundamental_div_mod_converse(xi, 0x100,
        b0 * 0x1_0000 + b1 * 0x100 + b2, b3 as int);
    vstd::arithmetic::div_mod::lemma_fundamental_div_mod_converse(b0 * 0x1_0000 + b1 * 0x100
        + b2, 0x100, b0 * 0x100 + b1, b2 as int);
    vstd::arithmetic::div_mod::lemma_div_denominator(xi, 0x100, 0x100);
    assert(be32(x) =~= seq![b0, b1, b2, b3]);
}

proof fn lemma_be32_inj(a: u32, b: u32)
    requires
        be32(a) == be32(b),
    ensures
        a == b,
{
    lemma_be32_decompose(a);
    lemma_be32_decompose(b);
    assert(be32(a)[0] == be32(b)[0]);
    assert(be32(a)[1] == be32(b)[1]);
    assert(be32(a)[2] == be32(b)[2]);
    assert(be32(a)[3] == be32(b)[3]);
}

proof fn lemma_be64_reconstruct(x: u64, hi: u32, lo: u32)
    requires
        x == hi * 0x1_0000_0000 + lo,
    ensures
        be64(x) == be32(hi) + be32(lo),
{
    vstd::arithmetic::div_mod::lemma_fundamental_div_mod_converse(x as int, 0x1_0000_0000,
        hi as int, lo as int);
}

proof fn lemma_be64_inj(a: u64, b: u64)
    requires
        be64(a) == be64(b),
    ensures
        a == b,
{
    let ahi = (a / 0x1_0000_0000) as u32;
    let alo = (a % 0x1_0000_0000) as u32;
    let bhi = (b / 0x1_0000_0000) as u32;
    let blo = (b % 0x1_0000_0000) as u32;
    vstd::arithmetic::div_mod::lemma_fundamental_div_mod(a as int, 0x1_0000_0000);
    vstd::arithmetic::div_mod::lemma_mod_bound(a as int, 0x1_0000_0000);
    vstd::arithmetic::div_mod::lemma_div_is_ordered(a as int, 0xffff_ffff_ffff_ffff, 0x1_0000_0000);
    vstd::arithmetic::div_mod::lemma_div_is_ordered(0, a as int, 0x1_0000_0000);
    vstd::arithmetic::div_mod::lemma_fundamental_div_mod(b as int, 0x1_0000_0000);
    vstd::arithmetic::div_mod::lemma_mod_bound(b as int, 0x1_0000_0000);
    vstd::arithmetic::div_mod::lemma_div_is_ordered(b as int, 0xffff_ffff_ffff_ffff, 0x1_0000_0000);
    vstd::arithmetic::div_mod::lemma_div_is_ordered(0, b as int, 0x1_0000_0000);
    assert(be32(ahi) =~= (be32(ahi) + be32(alo)).subrange(0, 4));
    assert(be32(bhi) =~= (be32(bhi) + be32(blo)).subrange(0, 4));
    assert(be32(alo) =~= (be32(ahi) + be32(alo)).subrange(4, 8));
    assert(be32(blo) =~= (be32(bhi) + be32(blo)).subrange(4, 8));
    lemma_be32_inj(ahi, bhi);
    lemma_be32_inj(alo, blo);
}

// ------------------------------------------------------------------
// Prefixes of a byte sequence.
// ------------------------------------------------------------------

/// `s` occurs in `bytes` starting at position `i`.
pub open spec fn prefix_at(bytes: Seq<u8>, i: int, s: Seq<u8>) -> bool {
    &&& 0 <= i
    &&& i + s.len() <= bytes.len()
    &&& bytes.subrange(i, i + s.len()) == s
}

proof fn lemma_prefix_concat(bytes: Seq<u8>, i: int, a: Seq<u8>, b: Seq<u8>)
    ensures
        prefix_at(bytes, i, a + b) <==> (prefix_at(bytes, i, a) && prefix_at(bytes, i + a.len(),
        b)),
{
    if prefix_at(bytes, i, a + b) {
        assert forall|j: int| 0 <= j < a.len() implies bytes[i + j] == a[j] by {
            assert(bytes.subrange(i, i + (a + b).len())[j] == (a + b)[j]);
        }
        assert forall|j: int| 0 <= j < b.len() implies bytes[i + a.len() + j] == b[j] by {
            assert(bytes.subrange(i, i + (a + b).len())[a.len() + j] == (a + b)[a.len() + j]);
        }
        assert(bytes.subrange(i, i + a.len()) =~= a);
        assert(bytes.subrange(i + a.len(), i + a.len() + b.len()) =~= b);
    }
    if prefix_at(bytes, i, a) && prefix_at(bytes, i + a.len(), b) {
        assert forall|j: int| 0 <= j < a.len() implies bytes[i + j] == a[j] by {
            assert(bytes.subrange(i, i + a.len())[j] == a[j]);
        }
        assert forall|j: int| 0 <= j < b.len() implies bytes[i + a.len() + j] == b[j] by {
            assert(bytes.subrange(i + a.len(), i + a.len() + b.len())[j] == b[j]);
        }
        assert(bytes.subrange(i, i + (a + b).len()) =~= a + b);
    }
}

proof fn lemma_prefix_index(bytes: Seq<u8>, i: int, s: Seq<u8>, j: int)
    requires
        prefix_at(bytes, i, s),
        0 <= j < s.len(),
    ensures
        bytes[i + j] == s[j],
{
    assert(bytes.subrange(i, i + s.len())[j] == s[j]);
}

// ------------------------------------------------------------------
// Verified byte readers.
// ------------------------------------------------------------------

fn read_be16(bytes: &Vec<u8>, i: usize) -> (x: u16)
    requires
        i + 2 <= bytes@.len(),
    ensures
        be16(x) == bytes@.subrange(i as int, i as int + 2),
{
    let n = bytes.len();
    assert(i + 1 < n);
    let x: u16 = (bytes[i] as u16) * 0x100 + (bytes[i + 1] as u16);
    proof {
        lemma_be16_reconstruct(x, bytes@[i as int], bytes@[i as int + 1]);
        assert(bytes@.subrange(i as int, i as int + 2) =~= seq![
            bytes@[i as int],
            bytes@[i as int + 1],
        ]);
    }
    x
}

fn read_be32(bytes: &Vec<u8>, i: usize) -> (x: u32)
    requires
        i + 4 <= bytes@.len(),
    ensures
        be32(x) == bytes@.subrange(i as int, i as int + 4),
{
    let n = bytes.len();
    assert(i + 3 < n);
    let x: u32 = (bytes[i] as u32) * 0x100_0000 + (bytes[i + 1] as u32) * 0x1_0000 + (bytes[i
        + 2] as u32) * 0x100 + (bytes[i + 3] as u32);
    proof {
        lemma_be32_reconstruct(x, bytes@[i as int], bytes@[i as int + 1], bytes@[i as int + 2],
            bytes@[i as int + 3]);
        assert(bytes@.subrange(i as int, i as int + 4) =~= seq![
            bytes@[i as int],
            bytes@[i as int + 1],
            bytes@[i as int + 2],
            bytes@[i as int + 3],
        ]);
    }
    x
}

fn read_be64(bytes: &Vec<u8>, i: usize) -> (x: u64)
    requires
        i + 8 <= bytes@.len(),
    ensures
        be64(x) == bytes@.subrange(i as int, i as int + 8),
{
    let n = bytes.len();
    assert(i + 8 <= n);
    let hi = read_be32(bytes, i);
    let lo = read_be32(bytes, i + 4);
    let x: u64 = (hi as u64) * 0x1_0000_0000 + (lo as u64);
    proof {
        lemma_be64_reconstruct(x, hi, lo);
        assert(bytes@.subrange(i as int, i as int + 8) =~= bytes@.subrange(i as int, i as int + 4)
            + bytes@.subrange(i as int + 4, i as int + 8));
    }
    x
}

fn copy_range(bytes: &Vec<u8>, start: usize, n: usize) -> (out: Vec<u8>)
    requires
        start + n <= bytes@.len(),
    ensures
        out@ == bytes@.subrange(start as int, start as int + n as int),
{
    let len = bytes.len();
    let mut out: Vec<u8> = Vec::new();
    let mut k: usize = 0;
    while k < n
        invariant
            k <= n,
            start + n <= bytes@.len(),
            bytes@.len() == len,
            out@ == bytes@.subrange(start as int, start as int + k as int),
        decreases n - k,
    {
        out.push(bytes[start + k]);
        k = k + 1;
        assert(out@ =~= bytes@.subrange(start as int, start as int + k as int));
    }
    out
}

// ------------------------------------------------------------------
// The decoder. Each parser returns the parsed value and the position
// after it; on failure its contract says that no encoding of the
// expected kind starts at the given position.
// ------------------------------------------------------------------

/// No string encoding (of a representable string) starts at `i`.
pub open spec fn no_str_at(bytes: Seq<u8>, i: int) -> bool {
    forall|bv: Seq<u8>|
        bv.len() < 0x1_0000_0000 ==> !(#[trigger] prefix_at(bytes, i, str_enc(bv)))
}

/// Case analysis on a string encoding's header.
proof fn lemma_str_enc_shape(bv: Seq<u8>)
    requires
        bv.len() < 0x1_0000_0000,
    ensures
        str_enc(bv).len() == str_header(bv.len()).len() + bv.len(),
        1 <= str_header(bv.len()).len() <= 5,
        bv.len() < 32 ==> str_header(bv.len()) == seq![(0xa0 + bv.len()) as u8] && str_enc(
            bv,
        )[0] == 0xa0 + bv.len(),
        32 <= bv.len() < 0x100 ==> str_header(bv.len()) == seq![0xd9u8, bv.len() as u8]
            && str_enc(bv)[0] == 0xd9 && str_enc(bv)[1] == bv.len(),
        0x100 <= bv.len() < 0x1_0000 ==> str_header(bv.len()) == seq![0xdau8] + be16(
            bv.len() as u16,
        ) && str_enc(bv)[0] == 0xda,
        0x1_0000 <= bv.len() ==> str_header(bv.len()) == seq![0xdbu8] + be32(bv.len() as u32)
            && str_enc(bv)[0] == 0xdb,
{
    let h = str_header(bv.len());
    assert(str_enc(bv)[0] == h[0]);
    if 0x100 <= bv.len() < 0x1_0000 {
        assert(h[0] == 0xda);
    }
    if 0x1_0000 <= bv.len() {
        assert(h[0] == 0xdb);
    }
}

/// Two string encodings starting at the same position are the same
/// string: the header determines the length, the data the contents.
proof fn lemma_str_enc_at(bytes: Seq<u8>, i: int, a: Seq<u8>, b: Seq<u8>)
    requires
        a.len() < 0x1_0000_0000,
        b.len() < 0x1_0000_0000,
        prefix_at(bytes, i, str_enc(a)),
        prefix_at(bytes, i, str_enc(b)),
    ensures
        a == b,
{
    lemma_str_enc_shape(a);
    lemma_str_enc_shape(b);
    lemma_prefix_concat(bytes, i, str_header(a.len()), a);
    lemma_prefix_concat(bytes, i, str_header(b.len()), b);
    lemma_prefix_index(bytes, i, str_header(a.len()), 0);
    lemma_prefix_index(bytes, i, str_header(b.len()), 0);
    if a.len() < 32 || b.len() < 32 {
        assert(a.len() < 32 && b.len() < 32);
        assert(a.len() == b.len());
    } else if a.len() < 0x100 || b.len() < 0x100 {
        assert(a.len() < 0x100 && b.len() < 0x100);
        lemma_prefix_index(bytes, i, str_header(a.len()), 1);
        lemma_prefix_index(bytes, i, str_header(b.len()), 1);
        assert(a.len() == b.len());
    } else if a.len() < 0x1_0000 || b.len() < 0x1_0000 {
        assert(a.len() < 0x1_0000 && b.len() < 0x1_0000);
        lemma_prefix_concat(bytes, i, seq![0xdau8], be16(a.len() as u16));
        lemma_prefix_concat(bytes, i, seq![0xdau8], be16(b.len() as u16));
        lemma_be16_inj(a.len() as u16, b.len() as u16);
        assert(a.len() == b.len());
    } else {
        lemma_prefix_concat(bytes, i, seq![0xdbu8], be32(a.len() as u32));
        lemma_prefix_concat(bytes, i, seq![0xdbu8], be32(b.len() as u32));
        lemma_be32_inj(a.len() as u32, b.len() as u32);
        assert(a.len() == b.len());
    }
    let h = str_header(a.len()).len() as int;
    assert(a =~= bytes.subrange(i + h, i + h + a.len()));
    assert(b =~= bytes.subrange(i + h, i + h + b.len()));
}

/// Parse one string at position `i`.
fn parse_str(bytes: &Vec<u8>, i: usize) -> (r: Option<(Vec<u8>, usize)>)
    ensures
        r matches Some(p) ==> i < p.1 <= bytes@.len() && p.0@.len() < 0x1_0000_0000
            && bytes@.subrange(i as int, p.1 as int) == str_enc(p.0@),
        r is None ==> no_str_at(bytes@, i as int),
{
    let n_total = bytes.len();
    if i >= n_total {
        proof {
            assert forall|bv: Seq<u8>| bv.len() < 0x1_0000_0000 implies !prefix_at(bytes@,
                i as int, str_enc(bv)) by {
                lemma_str_enc_shape(bv);
            }
        }
        return None;
    }
    let m = bytes[i];
    if 0xa0 <= m && m < 0xc0 {
        let n = (m - 0xa0) as usize;
        if n > n_total - (i + 1) {
            proof {
                assert forall|bv: Seq<u8>| bv.len() < 0x1_0000_0000 implies !prefix_at(bytes@,
                    i as int, str_enc(bv)) by {
                    if prefix_at(bytes@, i as int, str_enc(bv)) {
                        lemma_str_enc_shape(bv);
                        lemma_prefix_index(bytes@, i as int, str_enc(bv), 0);
                        assert(bv.len() < 32);
                        assert(bv.len() == n);
                    }
                }
            }
            return None;
        }
        let data = copy_range(bytes, i + 1, n);
        let j = i + 1 + n;
        proof {
            lemma_str_enc_shape(data@);
            assert(str_header(data@.len()) =~= seq![bytes@[i as int]]);
            assert(bytes@.subrange(i as int, j as int) =~= seq![bytes@[i as int]] + data@);
        }
        return Some((data, j));
    } else if m == 0xd9 {
        if n_total - i < 2 {
            proof {
                assert forall|bv: Seq<u8>| bv.len() < 0x1_0000_0000 implies !prefix_at(bytes@,
                    i as int, str_enc(bv)) by {
                    if prefix_at(bytes@, i as int, str_enc(bv)) {
                        lemma_str_enc_shape(bv);
                        lemma_prefix_index(bytes@, i as int, str_enc(bv), 0);
                        assert(32 <= bv.len() < 0x100);
                    }
                }
            }
            return None;
        }
        let n = bytes[i + 1] as usize;
        if n < 32 || n > n_total - (i + 2) {
            proof {
                assert forall|bv: Seq<u8>| bv.len() < 0x1_0000_0000 implies !prefix_at(bytes@,
                    i as int, str_enc(bv)) by {
                    if prefix_at(bytes@, i as int, str_enc(bv)) {
                        lemma_str_enc_shape(bv);
                        lemma_prefix_index(bytes@, i as int, str_enc(bv), 0);
                        assert(32 <= bv.len() < 0x100);
                        lemma_prefix_index(bytes@, i as int, str_enc(bv), 1);
                        assert(bv.len() == n);
                    }
                }
            }
            return None;
        }
        let data = copy_range(bytes, i + 2, n);
        let j = i + 2 + n;
        proof {
            lemma_str_enc_shape(data@);
            assert(str_header(data@.len()) =~= seq![bytes@[i as int], bytes@[i as int + 1]]);
            assert(bytes@.subrange(i as int, j as int) =~= seq![
                bytes@[i as int],
                bytes@[i as int + 1],
            ] + data@);
        }
        return Some((data, j));
    } else if m == 0xda {
        if n_total - i < 3 {
            proof {
                assert forall|bv: Seq<u8>| bv.len() < 0x1_0000_0000 implies !prefix_at(bytes@,
                    i as int, str_enc(bv)) by {
                    if prefix_at(bytes@, i as int, str_enc(bv)) {
                        lemma_str_enc_shape(bv);
                        lemma_prefix_index(bytes@, i as int, str_enc(bv), 0);
                        assert(0x100 <= bv.len() < 0x1_0000);
                    }
                }
            }
            return None;
        }
        let x16 = read_be16(bytes, i + 1);
        let n = x16 as usize;
        if n < 0x100 || n > n_total - (i + 3) {
            proof {
                assert forall|bv: Seq<u8>| bv.len() < 0x1_0000_0000 implies !prefix_at(bytes@,
                    i as int, str_enc(bv)) by {
                    if prefix_at(bytes@, i as int, str_enc(bv)) {
                        lemma_str_enc_shape(bv);
                        lemma_prefix_index(bytes@, i as int, str_enc(bv), 0);
                        assert(0x100 <= bv.len() < 0x1_0000);
                        lemma_prefix_concat(bytes@, i as int, str_header(bv.len()), bv);
                        lemma_prefix_concat(bytes@, i as int, seq![0xdau8], be16(bv.len() as u16));
                        lemma_be16_inj(bv.len() as u16, x16);
                        assert(bv.len() == n);
                    }
                }
            }
            return None;
        }
        let data = copy_range(bytes, i + 3, n);
        let j = i + 3 + n;
        proof {
            lemma_str_enc_shape(data@);
            assert(str_header(data@.len()) =~= seq![bytes@[i as int]] + be16(x16));
            assert(bytes@.subrange(i as int, j as int) =~= (seq![bytes@[i as int]] + be16(x16))
                + data@);
        }
        return Some((data, j));
    } else if m == 0xdb {
        if n_total - i < 5 {
            proof {
                assert forall|bv: Seq<u8>| bv.len() < 0x1_0000_0000 implies !prefix_at(bytes@,
                    i as int, str_enc(bv)) by {
                    if prefix_at(bytes@, i as int, str_enc(bv)) {
                        lemma_str_enc_shape(bv);
                        lemma_prefix_index(bytes@, i as int, str_enc(bv), 0);
                        assert(0x1_0000 <= bv.len());
                    }
                }
            }
            return None;
        }
        let x32 = read_be32(bytes, i + 1);
        if x32 < 0x1_0000 || (x32 as u64) > (n_total as u64) - ((i as u64) + 5) {
            proof {
                assert forall|bv: Seq<u8>| bv.len() < 0x1_0000_0000 implies !prefix_at(bytes@,
                    i as int, str_enc(bv)) by {
                    if prefix_at(bytes@, i as int, str_enc(bv)) {
                        lemma_str_enc_shape(bv);
                        lemma_prefix_index(bytes@, i as int, str_enc(bv), 0);
                        assert(0x1_0000 <= bv.len());
                        lemma_prefix_concat(bytes@, i as int, str_header(bv.len()), bv);
                        lemma_prefix_concat(bytes@, i as int, seq![0xdbu8], be32(bv.len() as u32));
                        lemma_be32_inj(bv.len() as u32, x32);
                        assert(bv.len() == x32);
                    }
                }
            }
            return None;
        }
        let n = x32 as usize;
        let data = copy_range(bytes, i + 5, n);
        let j = i + 5 + n;
        proof {
            lemma_str_enc_shape(data@);
            assert(str_header(data@.len()) =~= seq![bytes@[i as int]] + be32(x32));
            assert(bytes@.subrange(i as int, j as int) =~= (seq![bytes@[i as int]] + be32(x32))
                + data@);
        }
        return Some((data, j));
    } else {
        proof {
            assert forall|bv: Seq<u8>| bv.len() < 0x1_0000_0000 implies !prefix_at(bytes@,
                i as int, str_enc(bv)) by {
                if prefix_at(bytes@, i as int, str_enc(bv)) {
                    lemma_str_enc_shape(bv);
                    lemma_prefix_index(bytes@, i as int, str_enc(bv), 0);
                }
            }
        }
        return None;
    }
}

/// No value encoding (of a representable value) starts at `i`.
pub open spec fn no_value_at(bytes: Seq<u8>, i: int) -> bool {
    forall|v: ValueView| value_wf(v) ==> !(#[trigger] prefix_at(bytes, i, value_enc(v)))
}

/// Two value encodings starting at the same position are the same value:
/// the first byte separates integers from strings.
proof fn lemma_value_enc_at(bytes: Seq<u8>, i: int, v1: ValueView, v2: ValueView)
    requires
        value_wf(v1),
        value_wf(v2),
        prefix_at(bytes, i, value_enc(v1)),
        prefix_at(bytes, i, value_enc(v2)),
    ensures
        v1 == v2,
{
    match (v1, v2) {
        (ValueView::Text(a), ValueView::Text(b)) => {
            lemma_str_enc_at(bytes, i, a, b);
            assert(v1 =~= v2);
        },
        (ValueView::U64(a), ValueView::U64(b)) => {
            lemma_prefix_concat(bytes, i, seq![0xcfu8], be64(a));
            lemma_prefix_concat(bytes, i, seq![0xcfu8], be64(b));
            assert(be64(a) =~= bytes.subrange(i + 1, i + 9));
            assert(be64(b) =~= bytes.subrange(i + 1, i + 9));
            lemma_be64_inj(a, b);
        },
        (ValueView::Text(a), ValueView::U64(b)) => {
            lemma_str_enc_shape(a);
            lemma_prefix_index(bytes, i, value_enc(v1), 0);
            lemma_prefix_index(bytes, i, value_enc(v2), 0);
            assert(value_enc(v2)[0] == 0xcf);
            assert(false);
        },
        (ValueView::U64(a), ValueView::Text(b)) => {
            lemma_str_enc_shape(b);
            lemma_prefix_index(bytes, i, value_enc(v1), 0);
            lemma_prefix_index(bytes, i, value_enc(v2), 0);
            assert(value_enc(v1)[0] == 0xcf);
            assert(false);
        },
    }
}

/// Parse one field value at position `i`.
fn parse_value(bytes: &Vec<u8>, i: usize) -> (r: Option<(FieldValue, usize)>)
    ensures
        r matches Some(p) ==> i < p.1 <= bytes@.len() && value_wf(p.0@) && bytes@.subrange(
            i as int, p.1 as int) == value_enc(p.0@),
        r is None ==> no_value_at(bytes@, i as int),
{
    let n_total = bytes.len();
    if i < n_total && bytes[i] == 0xcf {
        if n_total - i < 9 {
            proof {
                assert forall|v: ValueView| value_wf(v) implies !prefix_at(bytes@, i as int,
                    value_enc(v)) by {
                    if prefix_at(bytes@, i as int, value_enc(v)) {
                        match v {
                            ValueView::Text(b) => {
                                lemma_str_enc_shape(b);
                                lemma_prefix_index(bytes@, i as int, value_enc(v), 0);
                            },
                            ValueView::U64(_) => {},
                        }
                    }
                }
            }
            return None;
        }
        let x = read_be64(bytes, i + 1);
        let j = i + 9;
        proof {
            assert(bytes@.subrange(i as int, j as int) =~= seq![bytes@[i as int]]
                + bytes@.subrange(i as int + 1, i as int + 9));
        }
        return Some((FieldValue::U64(x), j));
    } else {
        let r = parse_str(bytes, i);
        match r {
            Some((data, j)) => {
                return Some((FieldValue::Text(data), j));
            },
            None => {
                proof {
                    assert forall|v: ValueView| value_wf(v) implies !prefix_at(bytes@, i as int,
                        value_enc(v)) by {
                        if prefix_at(bytes@, i as int, value_enc(v)) {
                            match v {
                                ValueView::Text(b) => {
                                    assert(prefix_at(bytes@, i as int, str_enc(b)));
                                },
                                ValueView::U64(x) => {
                                    lemma_prefix_index(bytes@, i as int, value_enc(v), 0);
                                    assert(value_enc(v)[0] == 0xcf);
                                    assert(bytes@[i as int] == 0xcf);
                                },
                            }
                        }
                    }
                }
                return None;
            },
        }
    }
}

/// No field encoding (of a representable field) starts at `i`.
pub open spec fn no_field_at(bytes: Seq<u8>, i: int) -> bool {
    forall|f: FieldView| field_wf(f) ==> !(#[trigger] prefix_at(bytes, i, field_enc(f)))
}

/// Two field encodings starting at the same position are the same field.
proof fn lemma_field_enc_at(bytes: Seq<u8>, i: int, f1: FieldView, f2: FieldView)
    requires
        field_wf(f1),
        field_wf(f2),
        prefix_at(bytes, i, field_enc(f1)),
        prefix_at(bytes, i, field_enc(f2)),
    ensures
        f1 == f2,
{
    lemma_prefix_concat(bytes, i, str_enc(f1.name), value_enc(f1.value));
    lemma_prefix_concat(bytes, i, str_enc(f2.name), value_enc(f2.value));
    lemma_str_enc_at(bytes, i, f1.name, f2.name);
    lemma_value_enc_at(bytes, i + str_enc(f1.name).len(), f1.value, f2.value);
    assert(f1 =~= f2);
}

/// Parse one field (name key, then value) at position `i`.
fn parse_field(bytes: &Vec<u8>, i: usize) -> (r: Option<(Field, usize)>)
    ensures
        r matches Some(p) ==> i < p.1 <= bytes@.len() && field_wf(p.0@) && bytes@.subrange(
            i as int, p.1 as int) == field_enc(p.0@),
        r is None ==> no_field_at(bytes@, i as int),
{
    let rn = parse_str(bytes, i);
    match rn {
        None => {
            proof {
                assert forall|f: FieldView| field_wf(f) implies !prefix_at(bytes@, i as int,
                    field_enc(f)) by {
                    if prefix_at(bytes@, i as int, field_enc(f)) {
                        lemma_prefix_concat(bytes@, i as int, str_enc(f.name), value_enc(f.value));
                    }
                }
            }
            None
        },
        Some((name, j)) => {
            let rv = parse_value(bytes, j);
            match rv {
                None => {
                    proof {
                        assert forall|f: FieldView| field_wf(f) implies !prefix_at(bytes@,
                            i as int, field_enc(f)) by {
                            if prefix_at(bytes@, i as int, field_enc(f)) {
                                lemma_prefix_concat(bytes@, i as int, str_enc(f.name),
                                    value_enc(f.value));
                                assert(prefix_at(bytes@, i as int, str_enc(name@)));
                                lemma_str_enc_at(bytes@, i as int, f.name, name@);
                                assert(i + str_enc(name@).len() == j);
                                assert(prefix_at(bytes@, j as int, value_enc(f.value)));
                            }
                        }
                    }
                    None
                },
                Some((value, k)) => {
                    let f = Field { name, value };
                    proof {
                        assert(bytes@.subrange(i as int, k as int) =~= bytes@.subrange(i as int,
                            j as int) + bytes@.subrange(j as int, k as int));
                    }
                    Some((f, k))
                },
            }
        },
    }
}

/// Every field of `r` is representable.
pub open spec fn fields_all_wf(r: Seq<FieldView>) -> bool {
    forall|k: int| 0 <= k < r.len() ==> field_wf(#[trigger] r[k])
}

/// A sequence of field encodings determines the fields one by one: if
/// the encoding of `a` (followed by anything) equals the encoding of a
/// longer `b` (followed by anything), then `a` is a prefix of `b` and
/// the remainders line up.
proof fn lemma_fields_enc_determined(a: Seq<FieldView>, b: Seq<FieldView>, x: Seq<u8>, y: Seq<u8>)
    requires
        a.len() <= b.len(),
        fields_all_wf(a),
        fields_all_wf(b),
        fields_enc(a) + x == fields_enc(b) + y,
    ensures
        a == b.take(a.len() as int),
        x == fields_enc(b.skip(a.len() as int)) + y,
    decreases a.len(),
{
    if a.len() == 0 {
        assert(a =~= Seq::<FieldView>::empty());
        lemma_fields_enc_nil();
        assert(x =~= fields_enc(b) + y);
        assert(b.skip(0) =~= b);
        assert(b.take(0) =~= Seq::<FieldView>::empty());
    } else {
        let s = fields_enc(a) + x;
        lemma_fields_enc_first(a);
        lemma_fields_enc_first(b);
        let pa = fields_enc(a.drop_first()) + x;
        let pb = fields_enc(b.drop_first()) + y;
        assert(s =~= field_enc(a[0]) + pa);
        assert(s =~= field_enc(b[0]) + pb);
        assert(s.subrange(0, s.len() as int) =~= field_enc(a[0]) + pa);
        assert(s.subrange(0, s.len() as int) =~= field_enc(b[0]) + pb);
        assert(prefix_at(s, 0, field_enc(a[0]) + pa));
        assert(prefix_at(s, 0, field_enc(b[0]) + pb));
        lemma_prefix_concat(s, 0, field_enc(a[0]), pa);
        lemma_prefix_concat(s, 0, field_enc(b[0]), pb);
        lemma_field_enc_at(s, 0, a[0], b[0]);
        let l0 = field_enc(a[0]).len() as int;
        assert forall|j: int| 0 <= j < pa.len() implies pa[j] == pb[j] by {
            assert((field_enc(a[0]) + pa)[l0 + j] == pa[j]);
            assert((field_enc(b[0]) + pb)[l0 + j] == pb[j]);
            assert(s[l0 + j] == pa[j]);
            assert(s[l0 + j] == pb[j]);
        }
        assert(pa =~= pb);
        assert(fields_all_wf(a.drop_first())) by {
            assert forall|k: int| 0 <= k < a.drop_first().len() implies field_wf(
                a.drop_first()[k]) by {
                assert(a.drop_first()[k] == a[k + 1]);
            }
        }
        assert(fields_all_wf(b.drop_first())) by {
            assert forall|k: int| 0 <= k < b.drop_first().len() implies field_wf(
                b.drop_first()[k]) by {
                assert(b.drop_first()[k] == b[k + 1]);
            }
        }
        lemma_fields_enc_determined(a.drop_first(), b.drop_first(), x, y);
        assert forall|k: int| 0 <= k < a.len() implies a[k] == b.take(a.len() as int)[k] by {
            if k == 0 {
            } else {
                assert(a[k] == a.drop_first()[k - 1]);
                assert(a.drop_first()[k - 1] == b.drop_first().take(a.len() - 1)[k - 1]);
                assert(b.drop_first().take(a.len() - 1)[k - 1] == b[k]);
            }
        }
        assert(a =~= b.take(a.len() as int));
        assert(b.skip(a.len() as int) =~= b.drop_first().skip(a.len() - 1));
    }
}

/// The map header determines the field count.
proof fn lemma_map_header_at(bytes: Seq<u8>, i: int, n1: nat, n2: nat)
    requires
        n1 < 0x1_0000_0000,
        n2 < 0x1_0000_0000,
        prefix_at(bytes, i, map_header(n1)),
        prefix_at(bytes, i, map_header(n2)),
    ensures
        n1 == n2,
{
    lemma_prefix_index(bytes, i, map_header(n1), 0);
    lemma_prefix_index(bytes, i, map_header(n2), 0);
    if n1 < 16 || n2 < 16 {
        assert(map_header(n1)[0] == bytes[i]);
        assert(n1 < 16 && n2 < 16);
    } else if n1 < 0x1_0000 || n2 < 0x1_0000 {
        assert(n1 < 0x1_0000 && n2 < 0x1_0000);
        lemma_prefix_concat(bytes, i, seq![0xdeu8], be16(n1 as u16));
        lemma_prefix_concat(bytes, i, seq![0xdeu8], be16(n2 as u16));
        lemma_be16_inj(n1 as u16, n2 as u16);
    } else {
        lemma_prefix_concat(bytes, i, seq![0xdfu8], be32(n1 as u32));
        lemma_prefix_concat(bytes, i, seq![0xdfu8], be32(n2 as u32));
        lemma_be32_inj(n1 as u32, n2 as u32);
    }
}

/// Positions of the envelope's parts.
proof fn lemma_envelope_parts(sec: u32, nanos: u32, rv: Seq<FieldView>)
    requires
        rv.len() < 0x1_0000_0000,
    ensures
        envelope(sec, nanos, rv).len() == 11 + map_header(rv.len()).len() + fields_enc(rv).len(),
        12 <= envelope(sec, nanos, rv).len(),
        prefix_at(envelope(sec, nanos, rv), 0, seq![0x92u8, 0xd7u8, 0x00u8]),
        prefix_at(envelope(sec, nanos, rv), 3, be32(sec)),
        prefix_at(envelope(sec, nanos, rv), 7, be32(nanos)),
        prefix_at(envelope(sec, nanos, rv), 11, map_header(rv.len())),
        envelope(sec, nanos, rv).subrange(11 + map_header(rv.len()).len() as int, envelope(sec,
        nanos, rv).len() as int) == fields_enc(rv),
{
    let e = envelope(sec, nanos, rv);
    let h = map_header(rv.len());
    assert(array_header(2) =~= seq![0x92u8]);
    assert(1 <= h.len());
    assert(e =~= (seq![0x92u8, 0xd7u8, 0x00u8] + (be32(sec) + (be32(nanos) + (h + fields_enc(
        rv))))));
    lemma_prefix_concat(e, 0, seq![0x92u8, 0xd7u8, 0x00u8], be32(sec) + (be32(nanos) + (h
        + fields_enc(rv))));
    assert(e.subrange(0, e.len() as int) =~= e);
    lemma_prefix_concat(e, 3, be32(sec), be32(nanos) + (h + fields_enc(rv)));
    lemma_prefix_concat(e, 7, be32(nanos), h + fields_enc(rv));
    lemma_prefix_concat(e, 11, h, fields_enc(rv));
    assert(prefix_at(e, 11 + h.len() as int, fields_enc(rv)));
    assert(e.subrange(11 + h.len() as int, e.len() as int) =~= fields_enc(rv));
}

/// `bytes` is exactly the envelope of `(sec, nanos, rv)`.
pub open spec fn is_envelope(bytes: Seq<u8>, sec: u32, nanos: u32, rv: Seq<FieldView>) -> bool {
    &&& record_wf(rv)
    &&& bytes == envelope(sec, nanos, rv)
}

/// The round trip of the codec: an envelope determines the seconds, the
/// nanoseconds and the field mapping that produced it, so decoding what
/// `encode_envelope` wrote gives back exactly its inputs.
#[verifier::rlimit(100)]
pub proof fn lemma_envelope_round_trip(
    s1: u32,
    n1: u32,
    r1: Seq<FieldView>,
    s2: u32,
    n2: u32,
    r2: Seq<FieldView>,
)
    requires
        record_wf(r1),
        record_wf(r2),
        envelope(s1, n1, r1) == envelope(s2, n2, r2),
    ensures
        s1 == s2,
        n1 == n2,
        r1 == r2,
{
    let e = envelope(s1, n1, r1);
    lemma_envelope_parts(s1, n1, r1);
    lemma_envelope_parts(s2, n2, r2);
    assert(be32(s1) =~= e.subrange(3, 7));
    assert(be32(s2) =~= e.subrange(3, 7));
    lemma_be32_inj(s1, s2);
    assert(be32(n1) =~= e.subrange(7, 11));
    assert(be32(n2) =~= e.subrange(7, 11));
    lemma_be32_inj(n1, n2);
    lemma_map_header_at(e, 11, r1.len(), r2.len());
    let h = map_header(r1.len()).len() as int;
    assert(fields_enc(r1) == e.subrange(11 + h, e.len() as int));
    assert(fields_enc(r2) == e.subrange(11 + h, e.len() as int));
    assert(fields_enc(r1) + Seq::<u8>::empty() =~= fields_enc(r2) + Seq::<u8>::empty());
    lemma_fields_enc_determined(r1, r2, Seq::<u8>::empty(), Seq::<u8>::empty());
    assert(r1 =~= r2.take(r1.len() as int));
    assert(r2.take(r1.len() as int) =~= r2);
}

/// Decode an envelope. Returns the seconds, nanoseconds and record that
/// produced `bytes`, or `None` when `bytes` is not an envelope.
#[verifier::rlimit(100)]
pub fn decode_envelope(bytes: &Vec<u8>) -> (r: Option<(u32, u32, Record)>)
    ensures
        r matches Some(t) ==> is_envelope(bytes@, t.0, t.1, t.2@),
        r is None ==> forall|sec: u32, nanos: u32, rv: Seq<FieldView>|
            !(#[trigger] is_envelope(bytes@, sec, nanos, rv)),
{
    let n_total = bytes.len();
    if n_total < 12 || bytes[0] != 0x92 || bytes[1] != 0xd7 || bytes[2] != 0x00 {
        proof {
            assert forall|sec: u32, nanos: u32, rv: Seq<FieldView>| !is_envelope(bytes@, sec,
                nanos, rv) by {
                if is_envelope(bytes@, sec, nanos, rv) {
                    lemma_envelope_parts(sec, nanos, rv);
                    lemma_prefix_index(bytes@, 0, seq![0x92u8, 0xd7u8, 0x00u8], 0);
                    lemma_prefix_index(bytes@, 0, seq![0x92u8, 0xd7u8, 0x00u8], 1);
                    lemma_prefix_index(bytes@, 0, seq![0x92u8, 0xd7u8, 0x00u8], 2);
                }
            }
        }
        return None;
    }
    let sec = read_be32(bytes, 3);
    let nanos = read_be32(bytes, 7);
    let m = bytes[11];
    let cnt: usize;
    let mut j: usize;
    if 0x80 <= m && m < 0x90 {
        cnt = (m - 0x80) as usize;
        j = 12;
        proof {
            assert(map_header(cnt as nat) =~= seq![bytes@[11]]);
            assert(bytes@.subrange(11, 12) =~= seq![bytes@[11]]);
            assert(prefix_at(bytes@, 11, map_header(cnt as nat)));
        }
    } else if m == 0xde && n_total >= 14 {
        let x16 = read_be16(bytes, 12);
        if x16 < 16 {
            proof {
                assert forall|s2: u32, n2: u32, rv: Seq<FieldView>| !is_envelope(bytes@, s2, n2,
                    rv) by {
                    if is_envelope(bytes@, s2, n2, rv) {
                        lemma_envelope_parts(s2, n2, rv);
                        lemma_prefix_index(bytes@, 11, map_header(rv.len()), 0);
                        assert(16 <= rv.len() < 0x1_0000);
                        lemma_prefix_concat(bytes@, 11, seq![0xdeu8], be16(rv.len() as u16));
                        lemma_be16_inj(rv.len() as u16, x16);
                    }
                }
            }
            return None;
        }
        cnt = x16 as usize;
        j = 14;
        proof {
            assert(map_header(cnt as nat) =~= seq![0xdeu8] + be16(x16));
            assert(bytes@.subrange(11, 14) =~= seq![bytes@[11]] + bytes@.subrange(12, 14));
            assert(prefix_at(bytes@, 11, map_header(cnt as nat)));
        }
    } else if m == 0xdf && n_total >= 16 {
        let x32 = read_be32(bytes, 12);
        if x32 < 0x1_0000 {
            proof {
                assert forall|s2: u32, n2: u32, rv: Seq<FieldView>| !is_envelope(bytes@, s2, n2,
                    rv) by {
                    if is_envelope(bytes@, s2, n2, rv) {
                        lemma_envelope_parts(s2, n2, rv);
                        lemma_prefix_index(bytes@, 11, map_header(rv.len()), 0);
                        assert(0x1_0000 <= rv.len());
                        lemma_prefix_concat(bytes@, 11, seq![0xdfu8], be32(rv.len() as u32));
                        lemma_be32_inj(rv.len() as u32, x32);
                    }
                }
            }
            return None;
        }
        cnt = x32 as usize;
        j = 16;
        proof {
            assert(map_header(cnt as nat) =~= seq![0xdfu8] + be32(x32));
            assert(bytes@.subrange(11, 16) =~= seq![bytes@[11]] + bytes@.subrange(12, 16));
            assert(prefix_at(bytes@, 11, map_header(cnt as nat)));
        }
    } else {
        proof {
            assert forall|s2: u32, n2: u32, rv: Seq<FieldView>| !is_envelope(bytes@, s2, n2,
                rv) by {
                if is_envelope(bytes@, s2, n2, rv) {
                    lemma_envelope_parts(s2, n2, rv);
                    lemma_prefix_index(bytes@, 11, map_header(rv.len()), 0);
                    if 16 <= rv.len() < 0x1_0000 {
                        assert(bytes@[11] == 0xde);
                        assert(bytes@.len() >= 11 + 3);
                    } else if 0x1_0000 <= rv.len() {
                        assert(bytes@[11] == 0xdf);
                        assert(bytes@.len() >= 11 + 5);
                    }
                }
            }
        }
        return None;
    }
    let ghost j0: int = j as int;
    let mut fields: Vec<Field> = Vec::new();
    let mut k: usize = 0;
    proof {
        lemma_fields_enc_nil();
        assert(fields@.map_values(|f: Field| f@) =~= Seq::<FieldView>::empty());
        assert(bytes@.subrange(j0, j as int) =~= Seq::<u8>::empty());
    }
    while k < cnt
        invariant
            k <= cnt,
            cnt < 0x1_0000_0000,
            fields@.len() == k,
            j0 <= j as int <= bytes@.len(),
            bytes@.len() == n_total,
            prefix_at(bytes@, 11, map_header(cnt as nat)),
            11 + map_header(cnt as nat).len() == j0,
            fields_all_wf(fields@.map_values(|f: Field| f@)),
            bytes@.subrange(j0, j as int) == fields_enc(fields@.map_values(|f: Field| f@)),
        decreases cnt - k,
    {
        let ghost old_views = fields@.map_values(|f: Field| f@);
        let ghost old_j = j as int;
        let rf = parse_field(bytes, j);
        match rf {
            None => {
                proof {
                    assert forall|s2: u32, n2: u32, rv: Seq<FieldView>| !is_envelope(bytes@, s2,
                        n2, rv) by {
                        if is_envelope(bytes@, s2, n2, rv) {
                            lemma_envelope_parts(s2, n2, rv);
                            lemma_map_header_at(bytes@, 11, rv.len(), cnt as nat);
                            let tail = bytes@.subrange(j as int, n_total as int);
                            assert(bytes@.subrange(j0, n_total as int) =~= bytes@.subrange(j0,
                                j as int) + tail);
                            assert(fields_enc(rv) == bytes@.subrange(j0, n_total as int));
                            assert(fields_enc(old_views) + tail =~= fields_enc(rv)
                                + Seq::<u8>::empty());
                            lemma_fields_enc_determined(old_views, rv, tail, Seq::<u8>::empty());
                            let rest = rv.skip(k as int);
                            assert(rest.len() > 0);
                            lemma_fields_enc_first(rest);
                            assert(rest[0] == rv[k as int]);
                            assert(tail =~= (field_enc(rest[0]) + fields_enc(rest.drop_first()))
                                + Seq::<u8>::empty());
                            assert(tail =~= field_enc(rest[0]) + (fields_enc(rest.drop_first())
                                + Seq::<u8>::empty()));
                            assert(tail.subrange(0, tail.len() as int) =~= tail);
                            assert(prefix_at(tail, 0, field_enc(rest[0]) + (fields_enc(
                                rest.drop_first()) + Seq::<u8>::empty())));
                            lemma_prefix_concat(tail, 0, field_enc(rest[0]), fields_enc(
                                rest.drop_first()) + Seq::<u8>::empty());
                            assert forall|q: int| 0 <= q < field_enc(rest[0]).len() implies bytes@[
                                j + q] == field_enc(rest[0])[q] by {
                                lemma_prefix_index(tail, 0, field_enc(rest[0]), q);
                                assert(tail[q] == bytes@[j + q]);
                            }
                            assert(bytes@.subrange(j as int, j + field_enc(rest[0]).len()) =~=
                                field_enc(rest[0]));
                            assert(prefix_at(bytes@, j as int, field_enc(rest[0])));
                            assert(field_wf(rest[0]));
                        }
                    }
                }
                return None;
            },
            Some((f, j2)) => {
                proof {
                    let fv = f@;
                    assert(old_views.push(fv) =~= fields@.push(f).map_values(|ff: Field| ff@));
                    lemma_fields_enc_push(old_views, fv);
                    assert(bytes@.subrange(j0, j2 as int) =~= bytes@.subrange(j0, j as int)
                        + bytes@.subrange(j as int, j2 as int));
                    assert(fields_all_wf(old_views.push(fv))) by {
                        assert forall|q: int| 0 <= q < old_views.push(fv).len() implies field_wf(
                            old_views.push(fv)[q]) by {
                            if q < old_views.len() {
                                assert(old_views.push(fv)[q] == old_views[q]);
                            }
                        }
                    }
                }
                fields.push(f);
                j = j2;
                k = k + 1;
            },
        }
    }
    if j != n_total {
        proof {
            assert forall|s2: u32, n2: u32, rv: Seq<FieldView>| !is_envelope(bytes@, s2, n2,
                rv) by {
                if is_envelope(bytes@, s2, n2, rv) {
                    lemma_envelope_parts(s2, n2, rv);
                    lemma_map_header_at(bytes@, 11, rv.len(), cnt as nat);
                    let views = fields@.map_values(|f: Field| f@);
                    let tail = bytes@.subrange(j as int, n_total as int);
                    assert(bytes@.subrange(j0, n_total as int) =~= bytes@.subrange(j0, j as int)
                        + tail);
                    assert(fields_enc(rv) == bytes@.subrange(j0, n_total as int));
                    assert(fields_enc(views) + tail =~= fields_enc(rv) + Seq::<u8>::empty());
                    lemma_fields_enc_determined(views, rv, tail, Seq::<u8>::empty());
                    assert(rv.skip(cnt as int) =~= Seq::<FieldView>::empty());
                    lemma_fields_enc_nil();
                    assert(tail.len() == 0);
                    assert(j as int == n_total as int);
                }
            }
        }
        return None;
    }
    let rec = Record { fields };
    proof {
        let views = rec.fields@.map_values(|f: Field| f@);
        assert(rec@ =~= views);
        assert(record_wf(rec@));
        assert(bytes@ =~= (seq![0x92u8, 0xd7u8, 0x00u8] + (bytes@.subrange(3, 7)
            + (bytes@.subrange(7, 11) + (bytes@.subrange(11, j0) + bytes@.subrange(j0,
            n_total as int))))));
        assert(bytes@.subrange(11, j0) =~= map_header(cnt as nat));
        assert(envelope(sec, nanos, rec@) =~= bytes@);
    }
    Some((sec, nanos, rec))
}

} // verus!
