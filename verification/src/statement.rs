//! The statement layer: turns an input line into a typed command and
//! runs it against a table.
//!
//! A line is split into words at ASCII whitespace.  `insert` takes an
//! unsigned 32-bit id, a username and an email, each length-checked
//! against its column width; `select` takes nothing and yields the
//! table's rows in order.

use crate::error::{DbError, PrepareError};
use crate::row::{
    bytes_into_string, row_wf, rows_view, Row, RowView, COLUMN_EMAIL_SIZE, COLUMN_USERNAME_SIZE,
};
use crate::table::{Cursor, Table};
use vstd::prelude::*;
use vstd::utf8::{decode_utf8, encode_utf8, valid_utf8};

verus! {

broadcast use vstd::utf8::encode_utf8_valid_utf8, vstd::utf8::encode_utf8_decode_utf8, vstd::utf8::decode_utf8_encode_utf8;

/// An ASCII whitespace byte: space, tab, line feed, vertical tab, form
/// feed or carriage return.
pub open spec fn spec_is_ws(b: u8) -> bool {
    b == 32 || b == 9 || b == 10 || b == 11 || b == 12 || b == 13
}

/// The longest whitespace-free prefix of the given bytes.
pub open spec fn spec_take_token(bytes: Seq<u8>) -> Seq<u8>
    decreases bytes.len(),
{
    if bytes.len() == 0 {
        Seq::empty()
    } else if spec_is_ws(bytes[0]) {
        Seq::empty()
    } else {
        seq![bytes[0]] + spec_take_token(bytes.drop_first())
    }
}

/// The first token is at least one byte and at most all of them, when
/// the bytes start with a non-whitespace byte.
pub proof fn lemma_take_token_len(bytes: Seq<u8>)
    requires
        bytes.len() > 0,
        !spec_is_ws(bytes[0]),
    ensures
        1 <= spec_take_token(bytes).len() <= bytes.len(),
    decreases bytes.len(),
{
    if bytes.len() > 1 && !spec_is_ws(bytes[1]) {
        lemma_take_token_len(bytes.drop_first());
    } else {
        assert(spec_take_token(bytes.drop_first()) =~= Seq::<u8>::empty());
    }
}

/// When the first `j` bytes are no whitespace and position `j` is the
/// end or whitespace, the first token is exactly that prefix.
pub proof fn lemma_take_token_prefix(bytes: Seq<u8>, j: int)
    requires
        0 <= j <= bytes.len(),
        forall|k: int| 0 <= k < j ==> !spec_is_ws(#[trigger] bytes[k]),
        j == bytes.len() || spec_is_ws(bytes[j]),
    ensures
        spec_take_token(bytes) == bytes.subrange(0, j),
    decreases bytes.len(),
{
    if bytes.len() == 0 {
        assert(spec_take_token(bytes) =~= bytes.subrange(0, j));
    } else if j == 0 {
        assert(spec_is_ws(bytes[0]));
        assert(spec_take_token(bytes) =~= bytes.subrange(0, 0));
    } else {
        assert(!spec_is_ws(bytes[0]));
        lemma_take_token_prefix(bytes.drop_first(), j - 1);
        assert(seq![bytes[0]] + bytes.drop_first().subrange(0, j - 1) =~= bytes.subrange(0, j));
    }
}

/// The words of a byte sequence: its maximal whitespace-free runs, in
/// order.
pub open spec fn spec_tokens(bytes: Seq<u8>) -> Seq<Seq<u8>>
    decreases bytes.len(),
    via spec_tokens_decreases
{
    if bytes.len() == 0 {
        Seq::empty()
    } else if spec_is_ws(bytes[0]) {
        spec_tokens(bytes.drop_first())
    } else {
        seq![spec_take_token(bytes)] + spec_tokens(
            bytes.skip(spec_take_token(bytes).len() as int),
        )
    }
}

#[via_fn]
proof fn spec_tokens_decreases(bytes: Seq<u8>) {
    if bytes.len() > 0 && !spec_is_ws(bytes[0]) {
        lemma_take_token_len(bytes);
    }
}

/// The views of a token list, in order.
pub open spec fn tokens_view(toks: Seq<Vec<u8>>) -> Seq<Seq<u8>> {
    toks.map_values(|t: Vec<u8>| t@)
}

fn is_ws_byte(b: u8) -> (r: bool)
    ensures
        r == spec_is_ws(b),
{
    b == 32 || b == 9 || b == 10 || b == 11 || b == 12 || b == 13
}

/// Splits a byte sequence into its words.
fn tokenize(bytes: &[u8]) -> (r: Vec<Vec<u8>>)
    ensures
        tokens_view(r@) == spec_tokens(bytes@),
{
    let n: usize = bytes.len();
    let mut toks: Vec<Vec<u8>> = Vec::new();
    let mut i: usize = 0;
    proof {
        assert(tokens_view(toks@) =~= Seq::<Seq<u8>>::empty());
        assert(bytes@.skip(0) =~= bytes@);
    }
    while i < n
        invariant
            i <= n,
            n == bytes@.len(),
            spec_tokens(bytes@) == tokens_view(toks@) + spec_tokens(bytes@.skip(i as int)),
        decreases n - i,
    {
        if is_ws_byte(bytes[i]) {
            proof {
                assert(bytes@.skip(i as int).drop_first() =~= bytes@.skip(i as int + 1));
            }
            i = i + 1;
        } else {
            let start: usize = i;
            let mut tok: Vec<u8> = Vec::new();
            while i < n && !is_ws_byte(bytes[i])
                invariant
                    start <= i <= n,
                    n == bytes@.len(),
                    tok@ == bytes@.subrange(start as int, i as int),
                    forall|k: int| start <= k < i ==> !spec_is_ws(#[trigger] bytes@[k]),
                decreases n - i,
            {
                tok.push(bytes[i]);
                i = i + 1;
                assert(tok@ =~= bytes@.subrange(start as int, i as int));
            }
            let ghost rest: Seq<u8> = bytes@.skip(start as int);
            proof {
                assert(forall|k: int|
                    0 <= k < i - start ==> !spec_is_ws(#[trigger] rest[k]));
                lemma_take_token_prefix(rest, i - start);
                assert(spec_take_token(rest) =~= tok@);
                assert(rest.skip(tok@.len() as int) =~= bytes@.skip(i as int));
            }
            let ghost before: Seq<Seq<u8>> = tokens_view(toks@);
            let ghost tv: Seq<u8> = tok@;
            toks.push(tok);
            proof {
                assert(tokens_view(toks@) =~= before + seq![tv]);
                assert(spec_tokens(rest) == seq![tv] + spec_tokens(bytes@.skip(i as int)));
                assert(before + (seq![tv] + spec_tokens(bytes@.skip(i as int))) =~= (before
                    + seq![tv]) + spec_tokens(bytes@.skip(i as int)));
            }
        }
    }
    proof {
        assert(bytes@.skip(n as int) =~= Seq::<u8>::empty());
        assert(spec_tokens(Seq::<u8>::empty()) =~= Seq::<Seq<u8>>::empty());
        assert(tokens_view(toks@) + Seq::<Seq<u8>>::empty() =~= tokens_view(toks@));
    }
    toks
}

/// Every byte is a decimal digit.
pub open spec fn spec_all_digits(t: Seq<u8>) -> bool {
    forall|i: int| 0 <= i < t.len() ==> 48 <= #[trigger] t[i] <= 57
}

/// The value of decimal digit bytes, most significant first.
pub open spec fn spec_digits_val(t: Seq<u8>) -> int
    decreases t.len(),
{
    if t.len() == 0 {
        0
    } else {
        spec_digits_val(t.take(t.len() - 1)) * 10 + (t[t.len() - 1] - 48)
    }
}

/// The digit bytes of a number word: everything after one optional
/// leading plus sign.
pub open spec fn spec_number_digits(t: Seq<u8>) -> Seq<u8> {
    if t.len() >= 1 && t[0] == 43 {
        t.drop_first()
    } else {
        t
    }
}

/// The unsigned 32-bit value a word names, or nothing when the word is
/// empty, holds a byte that is no digit, or exceeds 32 bits.
pub open spec fn spec_parse_u32(t: Seq<u8>) -> Option<u32> {
    let digits = spec_number_digits(t);
    if digits.len() == 0 {
        None
    } else if !spec_all_digits(digits) {
        None
    } else if spec_digits_val(digits) > u32::MAX {
        None
    } else {
        Some(spec_digits_val(digits) as u32)
    }
}

/// The error a number word fails with, when it names no 32-bit value.
pub open spec fn spec_parse_u32_error(t: Seq<u8>) -> PrepareError
    recommends
        spec_parse_u32(t) is None,
{
    let digits = spec_number_digits(t);
    if digits.len() == 0 || !spec_all_digits(digits) {
        PrepareError::IdNotANumber
    } else {
        PrepareError::IdTooLarge
    }
}

/// The value of digit bytes never shrinks below zero.
pub proof fn lemma_digits_val_nonneg(t: Seq<u8>)
    requires
        spec_all_digits(t),
    ensures
        spec_digits_val(t) >= 0,
    decreases t.len(),
{
    if t.len() > 0 {
        assert(spec_all_digits(t.take(t.len() - 1)));
        lemma_digits_val_nonneg(t.take(t.len() - 1));
    }
}

/// The value of a digit prefix never exceeds the value of the whole.
pub proof fn lemma_digits_val_prefix(t: Seq<u8>, j: int)
    requires
        spec_all_digits(t),
        0 <= j <= t.len(),
    ensures
        spec_digits_val(t.take(j)) <= spec_digits_val(t),
    decreases t.len() - j,
{
    if j == t.len() {
        assert(t.take(j) =~= t);
    } else {
        lemma_digits_val_prefix(t, j + 1);
        assert(t.take(j + 1).take(j) =~= t.take(j));
        assert(spec_all_digits(t.take(j + 1)));
        lemma_digits_val_nonneg(t.take(j));
        assert(spec_digits_val(t.take(j + 1)) == spec_digits_val(t.take(j)) * 10 + (t[j] - 48));
    }
}

/// The bytes start with the given prefix.
pub open spec fn spec_starts_with(bytes: Seq<u8>, prefix: Seq<u8>) -> bool {
    bytes.len() >= prefix.len() && bytes.subrange(0, prefix.len() as int) == prefix
}

fn bytes_start_with(bytes: &[u8], prefix: &[u8]) -> (r: bool)
    ensures
        r == spec_starts_with(bytes@, prefix@),
{
    let m: usize = prefix.len();
    if bytes.len() < m {
        return false;
    }
    let mut i: usize = 0;
    while i < m
        invariant
            i <= m,
            m == prefix@.len(),
            m <= bytes@.len(),
            forall|j: int| 0 <= j < i ==> bytes@[j] == prefix@[j],
        decreases m - i,
    {
        if bytes[i] != prefix[i] {
            proof {
                assert(bytes@.subrange(0, m as int)[i as int] == bytes@[i as int]);
            }
            return false;
        }
        i = i + 1;
    }
    proof {
        assert(bytes@.subrange(0, m as int) =~= prefix@);
    }
    true
}

fn bytes_equal(a: &[u8], b: &[u8]) -> (r: bool)
    ensures
        r == (a@ == b@),
{
    let n: usize = a.len();
    if b.len() != n {
        return false;
    }
    let mut i: usize = 0;
    while i < n
        invariant
            i <= n,
            n == a@.len() == b@.len(),
            forall|j: int| 0 <= j < i ==> a@[j] == b@[j],
        decreases n - i,
    {
        if a[i] != b[i] {
            return false;
        }
        i = i + 1;
    }
    proof {
        assert(a@ =~= b@);
    }
    true
}

/// Reads an unsigned 32-bit decimal value from a word: one optional
/// leading plus sign, one or more digits.
fn parse_u32_token(t: &[u8]) -> (r: Result<u32, PrepareError>)
    ensures
        match r {
            Ok(v) => spec_parse_u32(t@) == Some(v),
            Err(e) => spec_parse_u32(t@) is None && e == spec_parse_u32_error(t@),
        },
{
    let n: usize = t.len();
    let mut start: usize = 0;
    if n >= 1 && t[0] == 43 {
        start = 1;
    }
    let ghost digits: Seq<u8> = spec_number_digits(t@);
    proof {
        assert(digits =~= t@.skip(start as int));
    }
    if start == n {
        return Err(PrepareError::IdNotANumber);
    }
    let mut j: usize = start;
    while j < n
        invariant
            start <= j <= n,
            n == t@.len(),
            digits == t@.skip(start as int),
            digits == spec_number_digits(t@),
            forall|k: int| 0 <= k < j - start ==> 48 <= #[trigger] digits[k] <= 57,
        decreases n - j,
    {
        if t[j] < 48 || t[j] > 57 {
            proof {
                assert(digits[j - start] == t@[j as int]);
                assert(!spec_all_digits(digits));
            }
            return Err(PrepareError::IdNotANumber);
        }
        proof {
            assert(digits[j - start] == t@[j as int]);
        }
        j = j + 1;
    }
    proof {
        assert(spec_all_digits(digits));
    }
    let mut acc: u64 = 0;
    let mut i: usize = start;
    proof {
        assert(digits.take(0) =~= Seq::<u8>::empty());
    }
    while i < n
        invariant
            start <= i <= n,
            n == t@.len(),
            digits == t@.skip(start as int),
            digits == spec_number_digits(t@),
            spec_all_digits(digits),
            start < n,
            acc == spec_digits_val(digits.take(i - start)),
            acc <= u32::MAX,
        decreases n - i,
    {
        let b: u8 = t[i];
        proof {
            assert(digits[i - start] == t@[i as int]);
            assert(48 <= b <= 57);
        }
        let d: u8 = b - 48;
        acc = acc * 10 + (d as u64);
        proof {
            assert(digits.take(i - start + 1).take(i - start) =~= digits.take(i - start));
            assert(digits.take(i - start + 1)[i - start] == digits[i - start]);
            assert(acc == spec_digits_val(digits.take(i - start + 1)));
        }
        i = i + 1;
        if acc > 0xffff_ffffu64 {
            proof {
                lemma_digits_val_prefix(digits, i - start);
                assert(spec_digits_val(digits) > u32::MAX);
            }
            return Err(PrepareError::IdTooLarge);
        }
    }
    proof {
        assert(digits.take(n - start) =~= digits);
    }
    Ok(acc as u32)
}

/// What a statement does.
#[derive(Clone, Copy, Debug, PartialEq, Eq, Structural)]
pub enum StatementType {
    Insert,
    Select,
}

/// A parsed statement: what to do, and for an insert the validated row.
#[derive(Debug)]
pub struct Statement {
    pub statement_type: StatementType,
    pub row_to_insert: Option<Row>,
}

impl Statement {
    /// An insert carries a row, and any carried row fits its columns.
    pub open spec fn wf(&self) -> bool {
        &&& (self.statement_type is Insert ==> self.row_to_insert is Some)
        &&& (self.row_to_insert matches Some(row) ==> row_wf(row@))
    }
}

/// What an `insert` line's words yield: the id and the two text columns,
/// or the first error found scanning the words left to right.
pub open spec fn spec_parse_insert(toks: Seq<Seq<u8>>) -> Result<
    (u32, Seq<char>, Seq<char>),
    PrepareError,
> {
    if toks.len() == 0 {
        Err(PrepareError::NoTokens)
    } else if toks[0] != encode_utf8("insert"@) {
        Err(PrepareError::FirstWordNotInsert)
    } else if toks.len() < 2 {
        Err(PrepareError::MissingId)
    } else if spec_parse_u32(toks[1]) is None {
        Err(spec_parse_u32_error(toks[1]))
    } else if toks.len() < 3 {
        Err(PrepareError::MissingUsername)
    } else if toks.len() < 4 {
        Err(PrepareError::MissingEmail)
    } else if toks.len() > 4 {
        Err(PrepareError::ExtraWord)
    } else if !valid_utf8(toks[2]) || !valid_utf8(toks[3]) {
        Err(PrepareError::BadTokenText)
    } else {
        Ok((spec_parse_u32(toks[1])->Some_0, decode_utf8(toks[2]), decode_utf8(toks[3])))
    }
}

/// What a whole line prepares to: an insert with its row, a select, or
/// the error the line fails with.
pub open spec fn spec_prepare(bytes: Seq<u8>) -> Result<
    (StatementType, Option<RowView>),
    PrepareError,
> {
    if spec_starts_with(bytes, encode_utf8("insert"@)) {
        match spec_parse_insert(spec_tokens(bytes)) {
            Err(e) => Err(e),
            Ok(t) => {
                if encode_utf8(t.1).len() > COLUMN_USERNAME_SIZE || encode_utf8(t.2).len()
                    > COLUMN_EMAIL_SIZE {
                    Err(PrepareError::StringTooLong)
                } else {
                    Ok(
                        (
                            StatementType::Insert,
                            Some(RowView { id: t.0, username: t.1, email: t.2 }),
                        ),
                    )
                }
            },
        }
    } else if spec_starts_with(bytes, encode_utf8("select"@)) {
        Ok((StatementType::Select, None))
    } else {
        Err(PrepareError::Unrecognized)
    }
}

/// Splits an `insert` line into its id, username and email words.  The
/// words are checked left to right and the first failure is reported; no
/// column width is checked here.
pub fn parse_insert_statement(input: &String) -> (r: Result<(u32, String, String), PrepareError>)
    ensures
        ({
            let p = spec_parse_insert(spec_tokens(encode_utf8(input@)));
            match r {
                Ok(t) => p == Ok::<(u32, Seq<char>, Seq<char>), PrepareError>((t.0, t.1@, t.2@)),
                Err(e) => p == Err::<(u32, Seq<char>, Seq<char>), PrepareError>(e),
            }
        }),
{
    let bytes: &[u8] = input.as_str().as_bytes();
    let toks: Vec<Vec<u8>> = tokenize(bytes);
    let ghost ts: Seq<Seq<u8>> = spec_tokens(encode_utf8(input@));
    if toks.len() == 0 {
        return Err(PrepareError::NoTokens);
    }
    proof {
        assert(ts[0] == toks@[0]@);
    }
    if !bytes_equal(toks[0].as_slice(), "insert".as_bytes()) {
        return Err(PrepareError::FirstWordNotInsert);
    }
    if toks.len() < 2 {
        return Err(PrepareError::MissingId);
    }
    proof {
        assert(ts[1] == toks@[1]@);
    }
    let id: u32 = match parse_u32_token(toks[1].as_slice()) {
        Ok(v) => v,
        Err(e) => {
            return Err(e);
        },
    };
    if toks.len() < 3 {
        return Err(PrepareError::MissingUsername);
    }
    if toks.len() < 4 {
        return Err(PrepareError::MissingEmail);
    }
    if toks.len() > 4 {
        return Err(PrepareError::ExtraWord);
    }
    proof {
        assert(ts[2] == toks@[2]@);
        assert(ts[3] == toks@[3]@);
    }
    let username: String = match bytes_into_string(toks[2].as_slice()) {
        Some(s) => s,
        None => {
            return Err(PrepareError::BadTokenText);
        },
    };
    let email: String = match bytes_into_string(toks[3].as_slice()) {
        Some(s) => s,
        None => {
            return Err(PrepareError::BadTokenText);
        },
    };
    Ok((id, username, email))
}

/// Turns an input line into a statement.  An `insert` line is split into
/// words and validated, the text columns length-checked against their
/// widths; a `select` line takes nothing further.
pub fn prepare_statement(input: &String) -> (r: Result<Statement, PrepareError>)
    ensures
        ({
            let p = spec_prepare(encode_utf8(input@));
            match r {
                Ok(stmt) => {
                    &&& stmt.wf()
                    &&& p is Ok
                    &&& stmt.statement_type == p->Ok_0.0
                    &&& (stmt.row_to_insert matches Some(row) ==> p->Ok_0.1 == Some(row@))
                    &&& (stmt.row_to_insert is None ==> p->Ok_0.1 is None)
                },
                Err(e) => p == Err::<(StatementType, Option<RowView>), PrepareError>(e),
            }
        }),
{
    let bytes: &[u8] = input.as_str().as_bytes();
    if bytes_start_with(bytes, "insert".as_bytes()) {
        match parse_insert_statement(input) {
            Err(e) => Err(e),
            Ok((id, username, email)) => {
                let ulen: usize = username.as_str().as_bytes().len();
                let elen: usize = email.as_str().as_bytes().len();
                proof {
                    assert(ulen == encode_utf8(username@).len());
                    assert(elen == encode_utf8(email@).len());
                }
                if ulen > COLUMN_USERNAME_SIZE || elen > COLUMN_EMAIL_SIZE {
                    return Err(PrepareError::StringTooLong);
                }
                Ok(
                    Statement {
                        statement_type: StatementType::Insert,
                        row_to_insert: Some(Row { id, username, email }),
                    },
                )
            },
        }
    } else if bytes_start_with(bytes, "select".as_bytes()) {
        Ok(Statement { statement_type: StatementType::Select, row_to_insert: None })
    } else {
        Err(PrepareError::Unrecognized)
    }
}

/// What running a statement produced: an acknowledged insert, or the
/// rows a select collected, in table order.
#[derive(Debug)]
pub enum ExecOutcome {
    Inserted,
    Selected(Vec<Row>),
}

impl Statement {
    /// Runs the statement against a table whose root needs no file read.
    /// An insert appends its row and fails only when the root is full;
    /// a select collects every row in order and cannot fail.
    pub fn execute_statement(self, table: &mut Table) -> (r: Result<ExecOutcome, DbError>)
        requires
            old(table).wf(),
            old(table).root_available(),
            self.wf(),
        ensures
            final(table).wf(),
            final(table).root_cached(),
            final(table).root_page_num == old(table).root_page_num,
            final(table).pager.file_length == old(table).pager.file_length,
            match r {
                Ok(ExecOutcome::Inserted) => {
                    &&& self.statement_type is Insert
                    &&& final(table).rows() == (if old(table).root_cached() {
                        old(table).rows()
                    } else {
                        Seq::<RowView>::empty()
                    }).push(self.row_to_insert->Some_0@)
                },
                Ok(ExecOutcome::Selected(rows)) => {
                    &&& self.statement_type is Select
                    &&& rows_view(rows@) == final(table).rows()
                    &&& (old(table).root_cached() ==> final(table).pager == old(table).pager)
                },
                Err(e) => {
                    &&& self.statement_type is Insert
                    &&& e == DbError::NodeFull
                    &&& old(table).root_cached()
                    &&& old(table).rows().len() >= crate::node::LEAF_NODE_MAX_CELLS
                    &&& final(table).pager == old(table).pager
                },
            },
    {
        match self.statement_type {
            StatementType::Insert => {
                match self.execute_insert(table) {
                    Ok(()) => Ok(ExecOutcome::Inserted),
                    Err(e) => Err(e),
                }
            },
            StatementType::Select => {
                let rows: Vec<Row> = self.execute_select(table);
                Ok(ExecOutcome::Selected(rows))
            },
        }
    }

    /// Appends the carried row at the end of the root node.
    fn execute_insert(self, table: &mut Table) -> (r: Result<(), DbError>)
        requires
            old(table).wf(),
            old(table).root_available(),
            self.wf(),
            self.statement_type is Insert,
        ensures
            final(table).wf(),
            final(table).root_cached(),
            final(table).root_page_num == old(table).root_page_num,
            final(table).pager.file_length == old(table).pager.file_length,
            match r {
                Ok(()) => final(table).rows() == (if old(table).root_cached() {
                    old(table).rows()
                } else {
                    Seq::<RowView>::empty()
                }).push(self.row_to_insert->Some_0@),
                Err(e) => {
                    &&& e == DbError::NodeFull
                    &&& old(table).root_cached()
                    &&& old(table).rows().len() >= crate::node::LEAF_NODE_MAX_CELLS
                    &&& final(table).pager == old(table).pager
                },
            },
    {
        let row: Row = match self.row_to_insert {
            Some(r) => r,
            None => {
                proof {
                    assert(false);
                }
                return Err(DbError::NodeFull);
            },
        };
        let ghost rv: RowView = row@;
        match table.insert_row(row) {
            Ok(()) => {
                proof {
                    assert(table.rows() =~= (if old(table).root_cached() {
                        old(table).rows()
                    } else {
                        Seq::<RowView>::empty()
                    }).push(rv));
                }
                Ok(())
            },
            Err(e) => Err(e),
        }
    }

    /// Walks the table from its start cursor to its end and collects
    /// every row, in cell order.
    fn execute_select(&self, table: &mut Table) -> (r: Vec<Row>)
        requires
            old(table).wf(),
            old(table).root_available(),
        ensures
            final(table).wf(),
            final(table).root_cached(),
            final(table).root_page_num == old(table).root_page_num,
            final(table).pager.file_length == old(table).pager.file_length,
            (old(table).root_cached() ==> final(table).pager == old(table).pager),
            rows_view(r@) == final(table).rows(),
    {
        let mut rows: Vec<Row> = Vec::new();
        let mut cursor: Cursor = table.table_start();
        let mut done: bool = table.is_end_of_table(&cursor);
        let ghost pager1: crate::pager::Pager = table.pager;
        proof {
            crate::node::lemma_layout_constants();
            assert(rows_view(rows@) =~= table.rows().take(0));
        }
        while !done
            invariant
                table.wf(),
                table.root_cached(),
                table.pager == pager1,
                table.root_page_num == 0,
                cursor.page_num == table.root_page_num,
                cursor.cell_num <= table.root_node().cells.len(),
                done == (cursor.cell_num == table.root_node().cells.len()),
                rows_view(rows@) == table.rows().take(cursor.cell_num as int),
            decreases table.root_node().cells.len() - cursor.cell_num,
        {
            proof {
                crate::node::lemma_layout_constants();
            }
            let ghost idx: int = cursor.cell_num as int;
            let row: Row = match table.cursor_value(&cursor) {
                Some(found) => found.clone(),
                None => {
                    proof {
                        assert(false);
                    }
                    Row { id: 0, username: String::new(), email: String::new() }
                },
            };
            let ghost before: Seq<RowView> = rows_view(rows@);
            rows.push(row);
            proof {
                assert(rows_view(rows@) =~= before.push(table.rows()[idx]));
                assert(table.rows().take(idx + 1) =~= table.rows().take(idx).push(
                    table.rows()[idx],
                ));
            }
            cursor.cursor_advance();
            done = table.is_end_of_table(&cursor);
        }
        proof {
            assert(table.rows().take(table.root_node().cells.len() as int) =~= table.rows());
        }
        rows
    }
}

} // verus!
