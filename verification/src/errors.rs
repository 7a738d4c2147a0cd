//! The closed error taxonomy of the store: format errors, schema errors,
//! existence errors, evaluation errors and wrapped I/O failures, with a
//! parse-phase / execute-phase wrapping level so a caller can tell "could not
//! understand" from "understood but failed to run".

use vstd::prelude::*;
use vstd::string::StringExecFns;

verus! {

/// Mathematical shape of a [`MyDatabaseError`]: the same variants with string
/// payloads abstracted to character sequences.
pub enum ErrModel {
    InvalidKeyType,
    InvalidCommandFormat(Seq<char>),
    InvalidFieldType,
    InvalidFieldName,
    InvalidFieldValue,
    DuplicateColumnName,
    TableNotFound(Seq<char>),
    TableAlreadyExists(Seq<char>),
    KeysMismatch,
    RecordAlreadyExists,
    KeyNotFound,
    IoError(Seq<char>),
    CommandParseError(Box<ErrModel>),
    CommandExecuteError(Box<ErrModel>),
    InvalidWhereClauseFormat(Seq<char>),
    WronglyParsedClause(Seq<char>),
    CannotCompareValues,
    InvalidLogicalOperation,
    InvalidMathOperation,
    DivisionByZero,
}

/// Everything that can go wrong while parsing or executing a command.
#[derive(Debug)]
pub enum MyDatabaseError {
    InvalidKeyType,
    InvalidCommandFormat(String),
    InvalidFieldType,
    InvalidFieldName,
    InvalidFieldValue,
    DuplicateColumnName,
    TableNotFound(String),
    TableAlreadyExists(String),
    KeysMismatch,
    RecordAlreadyExists,
    KeyNotFound,
    IoError(String),
    CommandParseError(Box<MyDatabaseError>),
    CommandExecuteError(Box<MyDatabaseError>),
    InvalidWhereClauseFormat(String),
    WronglyParsedClause(String),
    CannotCompareValues,
    InvalidLogicalOperation,
    InvalidMathOperation,
    DivisionByZero,
}

pub open spec fn err_view(e: &MyDatabaseError) -> ErrModel
    decreases e,
{
    match e {
        MyDatabaseError::InvalidKeyType => ErrModel::InvalidKeyType,
        MyDatabaseError::InvalidCommandFormat(s) => ErrModel::InvalidCommandFormat(s@),
        MyDatabaseError::InvalidFieldType => ErrModel::InvalidFieldType,
        MyDatabaseError::InvalidFieldName => ErrModel::InvalidFieldName,
        MyDatabaseError::InvalidFieldValue => ErrModel::InvalidFieldValue,
        MyDatabaseError::DuplicateColumnName => ErrModel::DuplicateColumnName,
        MyDatabaseError::TableNotFound(s) => ErrModel::TableNotFound(s@),
        MyDatabaseError::TableAlreadyExists(s) => ErrModel::TableAlreadyExists(s@),
        MyDatabaseError::KeysMismatch => ErrModel::KeysMismatch,
        MyDatabaseError::RecordAlreadyExists => ErrModel::RecordAlreadyExists,
        MyDatabaseError::KeyNotFound => ErrModel::KeyNotFound,
        MyDatabaseError::IoError(s) => ErrModel::IoError(s@),
        MyDatabaseError::CommandParseError(b) => ErrModel::CommandParseError(
            Box::new(err_view(b)),
        ),
        MyDatabaseError::CommandExecuteError(b) => ErrModel::CommandExecuteError(
            Box::new(err_view(b)),
        ),
        MyDatabaseError::InvalidWhereClauseFormat(s) => ErrModel::InvalidWhereClauseFormat(s@),
        MyDatabaseError::WronglyParsedClause(s) => ErrModel::WronglyParsedClause(s@),
        MyDatabaseError::CannotCompareValues => ErrModel::CannotCompareValues,
        MyDatabaseError::InvalidLogicalOperation => ErrModel::InvalidLogicalOperation,
        MyDatabaseError::InvalidMathOperation => ErrModel::InvalidMathOperation,
        MyDatabaseError::DivisionByZero => ErrModel::DivisionByZero,
    }
}

impl View for MyDatabaseError {
    type V = ErrModel;

    open spec fn view(&self) -> ErrModel {
        err_view(self)
    }
}

/// The display text of each error shape, used by front ends when rendering a
/// failed command back to the caller.
pub open spec fn message_model(e: ErrModel) -> Seq<char>
    decreases e,
{
    match e {
        ErrModel::InvalidKeyType => "Given key is not valid in this type of database"@,
        ErrModel::InvalidCommandFormat(s) => "Invalid command format for command "@ + s,
        ErrModel::InvalidFieldType => "Invalid field type specified"@,
        ErrModel::InvalidFieldName => "Invalid field name specified"@,
        ErrModel::InvalidFieldValue => "Invalid field value for the specified type"@,
        ErrModel::DuplicateColumnName => "Column name provided more than once"@,
        ErrModel::TableNotFound(s) => "Table '"@ + s + "' not found in database"@,
        ErrModel::TableAlreadyExists(s) => "Table with name '"@ + s
            + "' already exists in database"@,
        ErrModel::KeysMismatch => "Keys do not match the table structure"@,
        ErrModel::RecordAlreadyExists => "Record with the given key already exists"@,
        ErrModel::KeyNotFound => "Specified key not found in table"@,
        ErrModel::IoError(s) => "IO Error occurred: "@ + s,
        ErrModel::CommandParseError(b) => "Error parsing command: "@ + message_model(*b),
        ErrModel::CommandExecuteError(b) => "Error executing command: "@ + message_model(*b),
        ErrModel::InvalidWhereClauseFormat(s) => "Error parsing where clause: "@ + s,
        ErrModel::WronglyParsedClause(s) => "Wrongly parsed clause: "@ + s,
        ErrModel::CannotCompareValues => "Cannot determine which value is bigger for bools or strings with numbers"@,
        ErrModel::InvalidLogicalOperation => "Cannot perform AND/OR operation on non-boolean values"@,
        ErrModel::InvalidMathOperation => "Cannot perform mathematical operation on non-numeric values"@,
        ErrModel::DivisionByZero => "Cannot divide by zero"@,
    }
}

impl MyDatabaseError {
    /// Render the error as its display text.
    pub fn message(&self) -> (out: String)
        ensures
            out@ == message_model(self@),
        decreases self,
    {
        match self {
            MyDatabaseError::InvalidKeyType => String::from_str(
                "Given key is not valid in this type of database",
            ),
            MyDatabaseError::InvalidCommandFormat(s) => String::from_str(
                "Invalid command format for command ",
            ).concat(s.as_str()),
            MyDatabaseError::InvalidFieldType => String::from_str("Invalid field type specified"),
            MyDatabaseError::InvalidFieldName => String::from_str("Invalid field name specified"),
            MyDatabaseError::InvalidFieldValue => String::from_str(
                "Invalid field value for the specified type",
            ),
            MyDatabaseError::DuplicateColumnName => String::from_str(
                "Column name provided more than once",
            ),
            MyDatabaseError::TableNotFound(s) => String::from_str("Table '").concat(
                s.as_str(),
            ).concat("' not found in database"),
            MyDatabaseError::TableAlreadyExists(s) => String::from_str("Table with name '").concat(
                s.as_str(),
            ).concat("' already exists in database"),
            MyDatabaseError::KeysMismatch => String::from_str(
                "Keys do not match the table structure",
            ),
            MyDatabaseError::RecordAlreadyExists => String::from_str(
                "Record with the given key already exists",
            ),
            MyDatabaseError::KeyNotFound => String::from_str("Specified key not found in table"),
            MyDatabaseError::IoError(s) => String::from_str("IO Error occurred: ").concat(
                s.as_str(),
            ),
            MyDatabaseError::CommandParseError(b) => {
                let inner = b.message();
                String::from_str("Error parsing command: ").concat(inner.as_str())
            },
            MyDatabaseError::CommandExecuteError(b) => {
                let inner = b.message();
                String::from_str("Error executing command: ").concat(inner.as_str())
            },
            MyDatabaseError::InvalidWhereClauseFormat(s) => String::from_str(
                "Error parsing where clause: ",
            ).concat(s.as_str()),
            MyDatabaseError::WronglyParsedClause(s) => String::from_str(
                "Wrongly parsed clause: ",
            ).concat(s.as_str()),
            MyDatabaseError::CannotCompareValues => String::from_str(
                "Cannot determine which value is bigger for bools or strings with numbers",
            ),
            MyDatabaseError::InvalidLogicalOperation => String::from_str(
                "Cannot perform AND/OR operation on non-boolean values",
            ),
            MyDatabaseError::InvalidMathOperation => String::from_str(
                "Cannot perform mathematical operation on non-numeric values",
            ),
            MyDatabaseError::DivisionByZero => String::from_str("Cannot divide by zero"),
        }
    }
}

} // verus!
