//! The file of saved addresses.

use crate::pointer::PtrPath;
use crate::text;
use crate::value::ValueType;
use vstd::prelude::*;

verus! {

/// The version of the file format.
pub const FORMAT_VERSION: u32 = 1;

/// A saved address as it stands in the file.
pub struct TableEntry {
    pub address: u64,
    pub value_type: ValueType,
    pub desc: String,
    pub frozen: bool,
    pub edit_text: String,
    pub pointer: Option<PtrPath>,
    pub str_len: usize,
}

/// What a file holds.
pub struct TableFile {
    pub version: u32,
    pub process_hint: String,
    pub aa_script: String,
    pub entries: Vec<TableEntry>,
}

impl TableFile {
    /// The contents of a file of the present version.
    pub fn new(process_hint: String, aa_script: String, entries: Vec<TableEntry>) -> (r: TableFile)
        ensures
            r == (TableFile { version: FORMAT_VERSION, process_hint, aa_script, entries }),
    {
        TableFile { version: FORMAT_VERSION, process_hint, aa_script, entries }
    }
}

/// Why a file could not be saved or loaded, with the system's words.
pub enum TableError {
    Serialize(String),
    Write { path: String, cause: String },
    Read { path: String, cause: String },
    Format(String),
    /// The file is of a later version.
    TooNew(u32),
}

impl TableError {
    /// The error in words.
    pub open spec fn words(self) -> Seq<char> {
        match self {
            TableError::Serialize(e) => "serializar: "@ + e@,
            TableError::Write { path, cause } => "escrever "@ + path@ + ": "@ + cause@,
            TableError::Read { path, cause } => "ler "@ + path@ + ": "@ + cause@,
            TableError::Format(e) => "formato invalido: "@ + e@,
            TableError::TooNew(v) => "arquivo da versao "@ + text::decimal(v as nat)
                + " e mais novo que o suportado ("@ + text::decimal(FORMAT_VERSION as nat) + ")."@,
        }
    }

    /// The error in words.
    pub fn to_text(&self) -> (r: String)
        ensures
            r@ == self.words(),
    {
        match self {
            TableError::Serialize(e) => {
                let mut s = "serializar: ".to_owned();
                s.append(e.as_str());
                s
            },
            TableError::Write { path, cause } => {
                let mut s = "escrever ".to_owned();
                s.append(path.as_str());
                s.append(": ");
                s.append(cause.as_str());
                s
            },
            TableError::Read { path, cause } => {
                let mut s = "ler ".to_owned();
                s.append(path.as_str());
                s.append(": ");
                s.append(cause.as_str());
                s
            },
            TableError::Format(e) => {
                let mut s = "formato invalido: ".to_owned();
                s.append(e.as_str());
                s
            },
            TableError::TooNew(v) => {
                let mut s = "arquivo da versao ".to_owned();
                text::push_decimal(&mut s, *v as u64);
                s.append(" e mais novo que o suportado (");
                text::push_decimal(&mut s, FORMAT_VERSION as u64);
                s.append(").");
                s
            },
        }
    }
}

/// Files of a version can be read: of the present one, or an earlier.
pub open spec fn is_known(version: u32) -> bool {
    version <= FORMAT_VERSION
}

/// Accepts what was read from a file, unless it is of a later version.
pub fn load(file: TableFile) -> (r: Result<TableFile, TableError>)
    ensures
        match r {
            Ok(f) => is_known(file.version) && f == file,
            Err(e) => !is_known(file.version) && e == TableError::TooNew(file.version),
        },
{
    if file.version > FORMAT_VERSION {
        return Err(TableError::TooNew(file.version));
    }
    Ok(file)
}

/// A file of the present version can be read, and of every earlier one, but of no later one.
pub proof fn law_later_files_are_refused(version: u32)
    ensures
        FORMAT_VERSION == 1,
        version <= 1 ==> is_known(version),
        version > 1 ==> !is_known(version),
{
}

} // verus!
