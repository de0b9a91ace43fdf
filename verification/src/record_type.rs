use vstd::prelude::*;
use vstd::string::StringExecFns;

use crate::error::Error;

verus! {

/// The three labels selecting the emitted record's element name. Fixed for a
/// whole run and supplied at start.
#[derive(Clone, Copy, Debug, PartialEq, Eq, Structural)]
pub enum RecordType {
    /// A new or updated record.
    Record,
    /// A similar record should be deleted.
    DeleteRecord,
    /// All similar records with these attributes should be deleted.
    DeleteAllRecords,
}

/// The element name that a record kind selects.
pub open spec fn record_type_name(t: RecordType) -> Seq<char> {
    match t {
        RecordType::Record => "Record"@,
        RecordType::DeleteRecord => "DeleteRecord"@,
        RecordType::DeleteAllRecords => "DeleteAllRecords"@,
    }
}

impl RecordType {
    /// The element name this kind selects, as text.
    pub fn as_str(&self) -> (r: &'static str)
        ensures
            r@ == record_type_name(*self),
    {
        match self {
            RecordType::Record => "Record",
            RecordType::DeleteRecord => "DeleteRecord",
            RecordType::DeleteAllRecords => "DeleteAllRecords",
        }
    }

    /// Parses a record-kind literal. Exactly the three names are accepted;
    /// anything else is rejected with a configuration error before any I/O.
    pub fn from_str(s: &str) -> (r: Result<RecordType, Error>)
        ensures
            match r {
                Ok(t) => s@ == record_type_name(t),
                Err(e) => {
                    &&& e is ConfigurationError
                    &&& s@ != "Record"@
                    &&& s@ != "DeleteRecord"@
                    &&& s@ != "DeleteAllRecords"@
                },
            },
    {
        let owned = s.to_owned();
        if owned == String::from_str("Record") {
            Ok(RecordType::Record)
        } else if owned == String::from_str("DeleteRecord") {
            Ok(RecordType::DeleteRecord)
        } else if owned == String::from_str("DeleteAllRecords") {
            Ok(RecordType::DeleteAllRecords)
        } else {
            Err(Error::ConfigurationError(String::from_str(
                "record type must be Record, DeleteRecord or DeleteAllRecords",
            )))
        }
    }
}

} // verus!
