//! The fixed-width binary codec for one record.
//!
//! A row is laid out in exactly [`ROW_SIZE`] bytes: the id as four
//! big-endian bytes, then the username zero-padded to its column width,
//! then the email zero-padded to its column width.  On decode each text
//! field is cut at its first zero byte; a field that fills its whole
//! width needs no terminator.

use crate::error::DbError;
use crate::util::{read_u32, spec_u32_from_be, spec_u32_to_be, write_u32_be};
use vstd::prelude::*;
use vstd::utf8::{decode_utf8, encode_utf8, valid_utf8};

verus! {

broadcast use vstd::utf8::encode_utf8_valid_utf8, vstd::utf8::encode_utf8_decode_utf8, vstd::utf8::decode_utf8_encode_utf8;

pub const COLUMN_ID_SIZE: usize = 4;

pub const COLUMN_USERNAME_SIZE: usize = 32;

pub const COLUMN_EMAIL_SIZE: usize = 255;

pub const ID_OFFSET: usize = 0;

pub const USERNAME_OFFSET: usize = ID_OFFSET + COLUMN_ID_SIZE;

pub const EMAIL_OFFSET: usize = USERNAME_OFFSET + COLUMN_USERNAME_SIZE;

pub const ROW_SIZE: usize = COLUMN_ID_SIZE + COLUMN_USERNAME_SIZE + COLUMN_EMAIL_SIZE;

/// One record: an id and two text columns of bounded width.
#[derive(Debug)]
pub struct Row {
    pub id: u32,
    pub username: String,
    pub email: String,
}

/// The mathematical content of a [`Row`].
pub ghost struct RowView {
    pub id: u32,
    pub username: Seq<char>,
    pub email: Seq<char>,
}

impl View for Row {
    type V = RowView;

    open spec fn view(&self) -> RowView {
        RowView { id: self.id, username: self.username@, email: self.email@ }
    }
}

impl Clone for Row {
    /// Cloning keeps the id and the text of both columns.
    fn clone(&self) -> (r: Self)
        ensures
            r@ == self@,
    {
        Row { id: self.id, username: self.username.clone(), email: self.email.clone() }
    }
}

/// A row fits its columns: each text field encodes to at most its width.
pub open spec fn row_wf(r: RowView) -> bool {
    &&& encode_utf8(r.username).len() <= COLUMN_USERNAME_SIZE
    &&& encode_utf8(r.email).len() <= COLUMN_EMAIL_SIZE
}

/// The given bytes followed by zero bytes up to the given width.
pub open spec fn spec_pad(bytes: Seq<u8>, width: int) -> Seq<u8>
    recommends
        bytes.len() <= width,
{
    bytes + Seq::new((width - bytes.len()) as nat, |i: int| 0u8)
}

/// The prefix of the given bytes that stops at the first zero byte, or
/// all of them when none is zero.
pub open spec fn spec_trunc_zero(bytes: Seq<u8>) -> Seq<u8>
    decreases bytes.len(),
{
    if bytes.len() == 0 {
        Seq::empty()
    } else if bytes[0] == 0 {
        Seq::empty()
    } else {
        seq![bytes[0]] + spec_trunc_zero(bytes.drop_first())
    }
}

/// The exact byte image of a row.
pub open spec fn spec_row_bytes(r: RowView) -> Seq<u8> {
    spec_u32_to_be(r.id) + spec_pad(encode_utf8(r.username), COLUMN_USERNAME_SIZE as int)
        + spec_pad(encode_utf8(r.email), COLUMN_EMAIL_SIZE as int)
}

/// The username bytes stored in a row image, cut at the first zero.
pub open spec fn spec_username_bytes(bytes: Seq<u8>) -> Seq<u8> {
    spec_trunc_zero(bytes.subrange(USERNAME_OFFSET as int, EMAIL_OFFSET as int))
}

/// The email bytes stored in a row image, cut at the first zero.
pub open spec fn spec_email_bytes(bytes: Seq<u8>) -> Seq<u8> {
    spec_trunc_zero(bytes.subrange(EMAIL_OFFSET as int, ROW_SIZE as int))
}

/// The row a byte image holds, or nothing when a text field is invalid.
pub open spec fn spec_parse_row(bytes: Seq<u8>) -> Option<RowView>
    recommends
        bytes.len() >= ROW_SIZE,
{
    let ub = spec_username_bytes(bytes);
    let eb = spec_email_bytes(bytes);
    if valid_utf8(ub) && valid_utf8(eb) {
        Some(
            RowView {
                id: spec_u32_from_be(bytes),
                username: decode_utf8(ub),
                email: decode_utf8(eb),
            },
        )
    } else {
        None
    }
}

/// When the first `i` bytes hold no zero and position `i` is the end or a
/// zero byte, cutting at the first zero yields exactly that prefix.
pub proof fn lemma_trunc_zero_prefix(bytes: Seq<u8>, i: int)
    requires
        0 <= i <= bytes.len(),
        forall|j: int| 0 <= j < i ==> bytes[j] != 0,
        i == bytes.len() || bytes[i] == 0,
    ensures
        spec_trunc_zero(bytes) == bytes.subrange(0, i),
    decreases bytes.len(),
{
    if bytes.len() == 0 {
        assert(spec_trunc_zero(bytes) =~= bytes.subrange(0, i));
    } else if i == 0 {
        assert(bytes[0] == 0);
        assert(spec_trunc_zero(bytes) =~= bytes.subrange(0, 0));
    } else {
        assert(bytes[0] != 0);
        lemma_trunc_zero_prefix(bytes.drop_first(), i - 1);
        assert(seq![bytes[0]] + bytes.drop_first().subrange(0, i - 1) =~= bytes.subrange(0, i));
    }
}

/// Cutting at the first zero never lengthens the bytes.
pub proof fn lemma_trunc_zero_len(bytes: Seq<u8>)
    ensures
        spec_trunc_zero(bytes).len() <= bytes.len(),
    decreases bytes.len(),
{
    if bytes.len() > 0 && bytes[0] != 0 {
        lemma_trunc_zero_len(bytes.drop_first());
    }
}

/// Relies on `String::from_utf8`: it succeeds exactly on bytes that are
/// valid UTF-8 and returns the text those bytes spell.
#[verifier::external_body]
pub(crate) fn bytes_into_string(v: &[u8]) -> (r: Option<String>)
    ensures
        r is Some <==> valid_utf8(v@),
        r matches Some(s) ==> s@ == decode_utf8(v@),
{
    match String::from_utf8(v.to_vec()) {
        Ok(s) => Some(s),
        Err(_) => None,
    }
}

/// Appends the text bytes of `s` to `out`, zero-padded to `width`.
fn push_padded(out: &mut Vec<u8>, s: &String, width: usize)
    requires
        encode_utf8(s@).len() <= width,
        old(out)@.len() + width <= usize::MAX,
    ensures
        final(out)@ == old(out)@ + spec_pad(encode_utf8(s@), width as int),
{
    let ghost out0: Seq<u8> = out@;
    let bytes: &[u8] = s.as_str().as_bytes();
    let blen: usize = bytes.len();
    out.extend_from_slice(bytes);
    let mut pad: usize = width - blen;
    while pad > 0
        invariant
            pad <= width - blen,
            blen == encode_utf8(s@).len(),
            bytes@ == encode_utf8(s@),
            out@ == out0 + bytes@ + Seq::new((width - blen - pad) as nat, |i: int| 0u8),
        decreases pad,
    {
        out.push(0u8);
        pad = pad - 1;
        assert(out@ =~= out0 + bytes@ + Seq::new((width - blen - pad) as nat, |i: int| 0u8));
    }
    assert(out@ =~= out0 + spec_pad(encode_utf8(s@), width as int));
}

/// Encodes a row into its exact [`ROW_SIZE`]-byte image.
pub fn serialize_row(source: &Row) -> (out: Vec<u8>)
    requires
        row_wf(source@),
    ensures
        out@ == spec_row_bytes(source@),
        out@.len() == ROW_SIZE,
{
    let mut out: Vec<u8> = Vec::new();
    write_u32_be(&mut out, source.id);
    push_padded(&mut out, &source.username, COLUMN_USERNAME_SIZE);
    push_padded(&mut out, &source.email, COLUMN_EMAIL_SIZE);
    out
}

/// Collects the bytes before the first zero and reads them as text.
pub fn read_string_from_slice(source: &[u8]) -> (r: Result<String, DbError>)
    ensures
        match r {
            Ok(s) => valid_utf8(spec_trunc_zero(source@)) && s@ == decode_utf8(
                spec_trunc_zero(source@),
            ) && encode_utf8(s@) == spec_trunc_zero(source@),
            Err(e) => !valid_utf8(spec_trunc_zero(source@)) && e == DbError::InvalidRowText,
        },
{
    let n: usize = source.len();
    let mut buf: Vec<u8> = Vec::new();
    let mut i: usize = 0;
    while i < n && source[i] != 0
        invariant
            i <= n,
            n == source@.len(),
            buf@ == source@.subrange(0, i as int),
            forall|j: int| 0 <= j < i ==> source@[j] != 0,
        decreases n - i,
    {
        buf.push(source[i]);
        i = i + 1;
        assert(buf@ =~= source@.subrange(0, i as int));
    }
    proof {
        lemma_trunc_zero_prefix(source@, i as int);
    }
    match bytes_into_string(buf.as_slice()) {
        Some(s) => Ok(s),
        None => Err(DbError::InvalidRowText),
    }
}

/// Decodes a row from the first [`ROW_SIZE`] bytes of a slice.  Fails
/// exactly when a text field's bytes are not valid text.
pub fn deserialize_row(source: &[u8]) -> (r: Result<Row, DbError>)
    requires
        source@.len() >= ROW_SIZE,
    ensures
        match r {
            Ok(row) => spec_parse_row(source@) == Some(row@) && row_wf(row@),
            Err(e) => spec_parse_row(source@) is None && e == DbError::InvalidRowText,
        },
{
    let id: u32 = read_u32(source);
    let username: String = match read_string_from_slice(&source[USERNAME_OFFSET..EMAIL_OFFSET]) {
        Ok(s) => s,
        Err(e) => {
            return Err(e);
        },
    };
    let email: String = match read_string_from_slice(&source[EMAIL_OFFSET..ROW_SIZE]) {
        Ok(s) => s,
        Err(e) => {
            return Err(e);
        },
    };
    let row = Row { id, username, email };
    proof {
        lemma_trunc_zero_len(source@.subrange(USERNAME_OFFSET as int, EMAIL_OFFSET as int));
        lemma_trunc_zero_len(source@.subrange(EMAIL_OFFSET as int, ROW_SIZE as int));
        assert(spec_trunc_zero(source@.subrange(USERNAME_OFFSET as int, EMAIL_OFFSET as int))
            == spec_username_bytes(source@));
        assert(spec_trunc_zero(source@.subrange(EMAIL_OFFSET as int, ROW_SIZE as int))
            == spec_email_bytes(source@));
    }
    Ok(row)
}

/// The views of a row list, in order.
pub open spec fn rows_view(rows: Seq<Row>) -> Seq<RowView> {
    rows.map_values(|r: Row| r@)
}

/// Neither text field of the row stores a zero byte.
pub open spec fn row_no_zero_bytes(r: RowView) -> bool {
    &&& !encode_utf8(r.username).contains(0u8)
    &&& !encode_utf8(r.email).contains(0u8)
}

/// Encoding a row and decoding the image yields the row back, for every
/// row that fits its columns and stores no zero byte in either field.
pub proof fn lemma_row_round_trip(r: RowView)
    requires
        row_wf(r),
        row_no_zero_bytes(r),
    ensures
        spec_parse_row(spec_row_bytes(r)) == Some(r),
{
    let bytes = spec_row_bytes(r);
    let ue = encode_utf8(r.username);
    let ee = encode_utf8(r.email);
    assert(bytes.len() == ROW_SIZE);
    assert(bytes.subrange(USERNAME_OFFSET as int, EMAIL_OFFSET as int) =~= spec_pad(
        ue,
        COLUMN_USERNAME_SIZE as int,
    ));
    assert(bytes.subrange(EMAIL_OFFSET as int, ROW_SIZE as int) =~= spec_pad(
        ee,
        COLUMN_EMAIL_SIZE as int,
    ));
    assert(forall|j: int| 0 <= j < ue.len() ==> ue[j] != 0) by {
        assert(forall|j: int| 0 <= j < ue.len() && ue[j] == 0 ==> ue.contains(0u8));
    }
    assert(forall|j: int| 0 <= j < ee.len() ==> ee[j] != 0) by {
        assert(forall|j: int| 0 <= j < ee.len() && ee[j] == 0 ==> ee.contains(0u8));
    }
    lemma_trunc_zero_prefix(spec_pad(ue, COLUMN_USERNAME_SIZE as int), ue.len() as int);
    lemma_trunc_zero_prefix(spec_pad(ee, COLUMN_EMAIL_SIZE as int), ee.len() as int);
    assert(spec_pad(ue, COLUMN_USERNAME_SIZE as int).subrange(0, ue.len() as int) =~= ue);
    assert(spec_pad(ee, COLUMN_EMAIL_SIZE as int).subrange(0, ee.len() as int) =~= ee);
    assert(spec_username_bytes(bytes) == ue);
    assert(spec_email_bytes(bytes) == ee);
    crate::util::lemma_u32_be_round_trip(r.id);
    assert(bytes[0] == spec_u32_to_be(r.id)[0]);
    assert(bytes[1] == spec_u32_to_be(r.id)[1]);
    assert(bytes[2] == spec_u32_to_be(r.id)[2]);
    assert(bytes[3] == spec_u32_to_be(r.id)[3]);
    assert(spec_u32_from_be(bytes) == r.id);
}

} // verus!
