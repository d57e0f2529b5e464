//! The statements of the command line: how a line of input becomes a
//! statement, what a statement does to the table, and what is said of it.

use vstd::prelude::*;
use vstd::string::*;
use vstd::utf8::encode_utf8;
use crate::insert::{insert_done, table_insert, ExecuteResult};
use crate::layout::{COLUMN_EMAIL_SIZE, COLUMN_USERNAME_SIZE};
use crate::row::Row;
use crate::store::select;
use crate::table::Table;
use crate::text::{
    begins_with, decimal, decimal_text, has_prefix, parse_i32, same_text, signed_value,
};

verus! {

/// The kinds of statement.
#[derive(Debug, Clone, Copy, PartialEq, Eq, Structural)]
pub enum StatementType {
    Select,
    Insert,
}

/// A statement that was read.
#[derive(Debug)]
pub struct Statement {
    pub statement_type: StatementType,
    /// The row of an insert statement.
    pub row_to_insert: Option<Row>,
}

/// What became of a line that was read as a statement.
#[derive(Debug)]
pub enum PrepareResult {
    Success(Statement),
    StringTooLong,
    SyntaxError,
    NegativeId,
    UnrecognizedStatement,
}

/// The line that was read last.
pub struct InputBuffer {
    /// The line without the white space at its end.
    pub buffer: String,
    pub buffer_length: usize,
    /// The length of the line in bytes.
    pub input_length: usize,
}

/// The text without the white space at its beginning and at its end, as
/// `str::trim` of std gives it.
pub uninterp spec fn trimmed(text: Seq<char>) -> Seq<char>;

/// The text without the white space at its end, as `str::trim_end` of std
/// gives it.
pub uninterp spec fn trimmed_end(text: Seq<char>) -> Seq<char>;

/// The texts that `scan_fmt::parse::scan` takes out of the input for the
/// places that the format marks with `{}`.
pub uninterp spec fn scanned(input: Seq<char>, format: Seq<char>) -> Seq<Seq<char>>;

/// The format of an insert statement: the word and three fields.
pub open spec fn insert_format() -> Seq<char> {
    "insert {} {} {}"@
}

/// `str::trim` of std: the text without leading and trailing white space.
#[verifier::external_body]
pub(crate) fn trim_text(text: &str) -> (inner: &str)
    ensures
        inner@ == trimmed(text@),
{
    text.trim()
}

/// `str::trim_end` of std: the text without trailing white space.
#[verifier::external_body]
fn trim_end(text: &str) -> (inner: &str)
    ensures
        inner@ == trimmed_end(text@),
{
    text.trim_end()
}

/// `String::capacity` of std: how many bytes the text has room for. Nothing
/// is claimed of it.
#[verifier::external_body]
fn capacity_of(text: &String) -> usize {
    text.capacity()
}

/// `scan_fmt::parse::scan`: the fields of the input, one for each `{}` of
/// the format, in order.
///
/// The scan goes through format and input side by side. White space in
/// either is passed over; another character of the format has to stand in
/// the input; `{}` takes the characters of the input up to the next white
/// space. Where the input ends early, the fields that were found are
/// returned; where a character does not match, a single empty text is.
#[verifier::external_body]
fn scan_fields(input: &str, format: &str) -> (fields: Vec<String>)
    requires
        format@ == insert_format(),
    ensures
        texts(fields@) == scanned(input@, format@),
{
    scan_fmt::parse::scan(input, format).collect()
}

/// The texts of the strings.
pub open spec fn texts(fields: Seq<String>) -> Seq<Seq<char>> {
    Seq::new(fields.len(), |i: int| fields[i]@)
}

/// The first `size` bytes of a field that holds `bytes` and is filled up
/// with zero bytes.
pub open spec fn padded(bytes: Seq<u8>, size: int) -> Seq<u8> {
    Seq::new(
        size as nat,
        |k: int|
            if k < bytes.len() {
                bytes[k]
            } else {
                0u8
            },
    )
}

/// Whether the first three fields are there, none of them is empty, and
/// the first stands for a number.
pub open spec fn fields_parse(fields: Seq<Seq<char>>) -> bool {
    &&& fields.len() >= 3
    &&& fields[0].len() > 0
    &&& fields[1].len() > 0
    &&& fields[2].len() > 0
    &&& signed_value(fields[0]) is Some
}

/// Whether `result` is what the fields of an insert statement come to.
///
/// Fields that do not parse are a syntax error. A negative id is refused,
/// then a user name of more than 32 bytes or an e-mail address of more
/// than 255. Else the statement inserts the row with the id, the user name
/// and the e-mail address, each text filled up with zero bytes.
pub open spec fn insert_prepared(result: PrepareResult, fields: Seq<Seq<char>>) -> bool {
    if !fields_parse(fields) {
        result is SyntaxError
    } else if signed_value(fields[0])->0 < 0 {
        result is NegativeId
    } else if encode_utf8(fields[1]).len() > COLUMN_USERNAME_SIZE || encode_utf8(fields[2]).len()
        > COLUMN_EMAIL_SIZE {
        result is StringTooLong
    } else {
        &&& result matches PrepareResult::Success(statement)
        &&& statement.statement_type == StatementType::Insert
        &&& statement.row_to_insert matches Some(row)
        &&& row.id == signed_value(fields[0])->0
        &&& row.username@ == padded(encode_utf8(fields[1]), COLUMN_USERNAME_SIZE as int)
        &&& row.email@ == padded(encode_utf8(fields[2]), COLUMN_EMAIL_SIZE as int)
    }
}

/// The statement that the fields of an insert statement come to.
pub fn prepare_insert(fields: &Vec<String>) -> (result: PrepareResult)
    ensures
        insert_prepared(result, texts(fields@)),
{
    if fields.len() < 3 {
        return PrepareResult::SyntaxError;
    }
    proof {
        assert(texts(fields@)[0] == fields@[0]@);
        assert(texts(fields@)[1] == fields@[1]@);
        assert(texts(fields@)[2] == fields@[2]@);
    }
    if fields[0].as_str().is_empty() || fields[1].as_str().is_empty()
        || fields[2].as_str().is_empty() {
        return PrepareResult::SyntaxError;
    }
    let id: i32 = match parse_i32(fields[0].as_str()) {
        Some(id) => id,
        None => {
            return PrepareResult::SyntaxError;
        },
    };
    if id < 0 {
        return PrepareResult::NegativeId;
    }
    let id: u32 = id as u32;
    let username: &[u8] = fields[1].as_str().as_bytes();
    let email: &[u8] = fields[2].as_str().as_bytes();
    let mut username_bytes: [u8; COLUMN_USERNAME_SIZE] = [0u8; COLUMN_USERNAME_SIZE];
    let mut email_bytes: [u8; COLUMN_EMAIL_SIZE] = [0u8; COLUMN_EMAIL_SIZE];
    if username.len() > COLUMN_USERNAME_SIZE {
        return PrepareResult::StringTooLong;
    }
    if email.len() > COLUMN_EMAIL_SIZE {
        return PrepareResult::StringTooLong;
    }
    let mut k: usize = 0;
    while k < username.len()
        invariant
            k <= username@.len() <= COLUMN_USERNAME_SIZE,
            forall|j: int| 0 <= j < k ==> username_bytes@[j] == username@[j],
            forall|j: int| k <= j < COLUMN_USERNAME_SIZE ==> username_bytes@[j] == 0u8,
        decreases username@.len() - k,
    {
        username_bytes[k] = username[k];
        k = k + 1;
    }
    let mut k: usize = 0;
    while k < email.len()
        invariant
            k <= email@.len() <= COLUMN_EMAIL_SIZE,
            forall|j: int| 0 <= j < k ==> email_bytes@[j] == email@[j],
            forall|j: int| k <= j < COLUMN_EMAIL_SIZE ==> email_bytes@[j] == 0u8,
        decreases email@.len() - k,
    {
        email_bytes[k] = email[k];
        k = k + 1;
    }
    proof {
        assert(username_bytes@ =~= padded(username@, COLUMN_USERNAME_SIZE as int));
        assert(email_bytes@ =~= padded(email@, COLUMN_EMAIL_SIZE as int));
    }
    let row = Row { id, username: username_bytes, email: email_bytes };
    let statement = Statement {
        statement_type: StatementType::Insert,
        row_to_insert: Some(row),
    };
    PrepareResult::Success(statement)
}

/// Whether `result` is what a line of input comes to.
///
/// Of the line without the white space around it: one that begins with
/// `insert` is an insert statement with the fields that the scan finds;
/// the line `select` is a select statement; any other line is not
/// recognized.
pub open spec fn statement_prepared(result: PrepareResult, line: Seq<char>) -> bool {
    let input = trimmed(line);
    if begins_with(input, "insert"@) {
        insert_prepared(result, scanned(input, insert_format()))
    } else if input == "select"@ {
        &&& result matches PrepareResult::Success(statement)
        &&& statement.statement_type == StatementType::Select
        &&& statement.row_to_insert is None
    } else {
        result is UnrecognizedStatement
    }
}

/// The statement in the input buffer.
pub fn prepare_statement(input_buffer: &InputBuffer) -> (result: PrepareResult)
    ensures
        statement_prepared(result, input_buffer.buffer@),
{
    let input: &str = trim_text(input_buffer.buffer.as_str());
    if has_prefix(input, "insert") {
        let fields: Vec<String> = scan_fields(input, "insert {} {} {}");
        return prepare_insert(&fields);
    }
    if same_text(input, "select") {
        let statement = Statement { statement_type: StatementType::Select, row_to_insert: None };
        return PrepareResult::Success(statement);
    }
    PrepareResult::UnrecognizedStatement
}

impl InputBuffer {
    /// An input buffer that holds no line.
    pub fn new() -> (input_buffer: InputBuffer)
        ensures
            input_buffer.buffer@ == Seq::<char>::empty(),
            input_buffer.buffer_length == 0,
            input_buffer.input_length == 0,
    {
        InputBuffer { buffer: String::new(), buffer_length: 0, input_length: 0 }
    }

    /// Takes a line that was read: the buffer holds the line without the
    /// white space at its end.
    pub fn take_line(&mut self, line: &String)
        ensures
            final(self).buffer@ == trimmed_end(line@),
            final(self).input_length == encode_utf8(trimmed_end(line@)).len() as usize,
    {
        let kept: &str = trim_end(line.as_str());
        self.input_length = kept.len();
        self.buffer_length = capacity_of(line);
        self.buffer = String::from_str(kept);
    }
}

/// Whether `result` and `rows` are what the statement does to the table
/// `before`, which becomes `after`.
///
/// An insert statement puts its row into the table; one without a row
/// finds the table full. A select statement gives all rows.
pub open spec fn statement_executed(
    statement: &Statement,
    before: &Table,
    after: &Table,
    result: ExecuteResult,
    rows: Seq<Row>,
) -> bool {
    match statement.statement_type {
        StatementType::Insert => {
            &&& rows.len() == 0
            &&& match statement.row_to_insert {
                None => result is TableFull && after.same_as(before) && after@ == before@,
                Some(row) => insert_done(before, after, &row, result),
            }
        },
        StatementType::Select => {
            &&& result is Success
            &&& after.same_as(before)
            &&& after@ == before@
            &&& rows.len() == before@.len()
            &&& forall|k: int| 0 <= k < rows.len() ==> (#[trigger] rows[k]).stored_in(before@[k].value)
        },
    }
}

/// Puts the row of the statement into the table.
pub fn execute_insert(statement: &Statement, table: &mut Table) -> (result: ExecuteResult)
    requires
        old(table).wf(),
    ensures
        final(table).wf(),
        match statement.row_to_insert {
            None => result is TableFull && final(table).same_as(old(table)) && final(table)@
                == old(table)@,
            Some(row) => insert_done(old(table), final(table), &row, result),
        },
{
    match &statement.row_to_insert {
        Some(row) => table_insert(table, row),
        None => ExecuteResult::TableFull,
    }
}

/// All rows of the table in the order of their keys.
pub fn execute_select(_statement: &Statement, table: &mut Table) -> (done: (
    ExecuteResult,
    Vec<Row>,
))
    requires
        old(table).wf(),
    ensures
        final(table).wf(),
        done.0 is Success,
        final(table).same_as(old(table)),
        final(table)@ == old(table)@,
        done.1@.len() == old(table)@.len(),
        forall|k: int|
            0 <= k < done.1@.len() ==> (#[trigger] done.1@[k]).stored_in(old(table)@[k].value),
{
    let rows = select(table);
    (ExecuteResult::Success, rows)
}

/// Does what the statement says: the result, and the rows that a select
/// statement gives.
pub fn execute_statement(statement: &Statement, table: &mut Table) -> (done: (
    ExecuteResult,
    Vec<Row>,
))
    requires
        old(table).wf(),
    ensures
        final(table).wf(),
        statement_executed(statement, old(table), final(table), done.0, done.1@),
{
    match statement.statement_type {
        StatementType::Insert => {
            let result = execute_insert(statement, table);
            (result, Vec::new())
        },
        StatementType::Select => execute_select(statement, table),
    }
}

/// What is said of the result of a statement.
pub fn execute_message(result: ExecuteResult) -> (message: &'static str)
    ensures
        message@ == match result {
            ExecuteResult::Success => "Executed successfully."@,
            ExecuteResult::DuplicateKey => "Error: Duplicate key."@,
            ExecuteResult::TableFull => "Error: Table full."@,
        },
{
    match result {
        ExecuteResult::Success => "Executed successfully.",
        ExecuteResult::DuplicateKey => "Error: Duplicate key.",
        ExecuteResult::TableFull => "Error: Table full.",
    }
}

/// What is said of a line that is no statement: nothing of a line that
/// is one.
pub fn prepare_message(result: &PrepareResult, input_buffer: &InputBuffer) -> (message: Option<
    String,
>)
    ensures
        match result {
            PrepareResult::Success(_) => message is None,
            PrepareResult::NegativeId => message matches Some(m) && m@
                == "Error: ID must be positive."@,
            PrepareResult::StringTooLong => message matches Some(m) && m@
                == "Error: String too long."@,
            PrepareResult::SyntaxError => message matches Some(m) && m@
                == "Syntax error. Could not parse statement."@,
            PrepareResult::UnrecognizedStatement => message matches Some(m) && m@
                == "Unrecognized keyword at start of '"@ + input_buffer.buffer@ + "'"@,
        },
{
    match result {
        PrepareResult::Success(_) => None,
        PrepareResult::NegativeId => Some(String::from_str("Error: ID must be positive.")),
        PrepareResult::StringTooLong => Some(String::from_str("Error: String too long.")),
        PrepareResult::SyntaxError => Some(
            String::from_str("Syntax error. Could not parse statement."),
        ),
        PrepareResult::UnrecognizedStatement => {
            let mut message = String::from_str("Unrecognized keyword at start of '");
            message.append(input_buffer.buffer.as_str());
            message.append("'");
            Some(message)
        },
    }
}

/// The text of a row: the id in decimal, the user name and the e-mail
/// address, with commas between them and brackets around them.
pub open spec fn row_text(id: u32, username: Seq<char>, email: Seq<char>) -> Seq<char> {
    "("@ + decimal(id as nat) + ", "@ + username + ", "@ + email + ")"@
}

/// The row as a line of text.
pub fn render_row(row: &Row) -> (line: String)
    ensures
        line@ == row_text(
            row.id,
            crate::row::utf8_lossy(crate::row::until_nul(row.username@)),
            crate::row::utf8_lossy(crate::row::until_nul(row.email@)),
        ),
{
    let mut line = String::from_str("(");
    let id = decimal_text(row.id);
    line.append(id.as_str());
    line.append(", ");
    let username = row.get_username();
    line.append(username.as_str());
    line.append(", ");
    let email = row.get_email();
    line.append(email.as_str());
    line.append(")");
    line
}

} // verus!
