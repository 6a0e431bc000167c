use vstd::prelude::*;

verus! {

/// Every failure the store can report. All of them are ordinary result
/// values: no operation of this library panics.
#[derive(Debug)]
pub enum DatabaseError {
    /// A table of this name is already registered.
    TableExists(String),
    /// No table of this name is registered.
    TableDoesNotExist(String),
    /// A table was built without a concrete primary-key type.
    TableMissingPrimaryKey,
    /// A table was built with an empty name.
    TableNameNotSet,
    /// A table was built without any declared field.
    TableMustContainFields,
    /// An entry was built without any field.
    EntryMustContainFields,
    /// An entry with the same primary key is already stored.
    EntryExists,
    /// No entry with this primary key is stored.
    EntryDoesNotExists,
    /// The filesystem reported a failure; the message is its description.
    DatabaseIoError(String),
    /// A store was created over a path that already exists.
    DatabaseExistsError,
    /// A store was opened from a path that does not exist.
    DatabaseDoesNotExist(String),
    /// The entry carries a field name that the schema does not declare.
    UnsupportedField(String),
    /// The schema requires this field but the entry does not carry it.
    MissingRequiredField(String),
    /// A value's type tag does not match the type the schema declares.
    MismatchedFieldType,
    /// The absent marker was used where a concrete type is needed.
    UnsupportedFieldType,
    /// The persisted bytes do not decode to a database value.
    DatabaseSerializationError,
    /// The database lock could not be acquired.
    UnableToGetLock,
    /// An entry's primary key is missing or not a concrete value.
    InvalidPrimaryKey,
    /// The compressed block is corrupt or truncated.
    DatabaseDecompressionError,
    /// The database could not be compressed.
    DatabaseCompressionError,
}

impl DatabaseError {
    /// A short, fixed description of the error variant.
    pub fn describe(&self) -> (r: &'static str)
        ensures
            r@.len() > 0,
    {
        let s: &'static str = match self {
            DatabaseError::TableExists(_) => "table already exists",
            DatabaseError::TableDoesNotExist(_) => "table does not exist",
            DatabaseError::TableMissingPrimaryKey => "missing primary key from table",
            DatabaseError::TableNameNotSet => "table name must not be empty",
            DatabaseError::TableMustContainFields => "table must contain at least one field",
            DatabaseError::EntryMustContainFields => "entry must contain at least one field",
            DatabaseError::EntryExists => "entry exists",
            DatabaseError::EntryDoesNotExists => "entry does not exist",
            DatabaseError::DatabaseIoError(_) => "database io error",
            DatabaseError::DatabaseExistsError => "database already exists",
            DatabaseError::DatabaseDoesNotExist(_) => "database is not found",
            DatabaseError::UnsupportedField(_) => "field name is not supported on table",
            DatabaseError::MissingRequiredField(_) => "missing required field",
            DatabaseError::MismatchedFieldType => "field is not a supported type",
            DatabaseError::UnsupportedFieldType => "field is not a supported type",
            DatabaseError::DatabaseSerializationError => "database serialization error",
            DatabaseError::UnableToGetLock => "unable to acquire lock on database",
            DatabaseError::InvalidPrimaryKey => "invalid primary key",
            DatabaseError::DatabaseDecompressionError => "database decompression error",
            DatabaseError::DatabaseCompressionError => "database compression error",
        };
        proof {
            reveal_strlit("table already exists");
            reveal_strlit("table does not exist");
            reveal_strlit("missing primary key from table");
            reveal_strlit("table name must not be empty");
            reveal_strlit("table must contain at least one field");
            reveal_strlit("entry must contain at least one field");
            reveal_strlit("entry exists");
            reveal_strlit("entry does not exist");
            reveal_strlit("database io error");
            reveal_strlit("database already exists");
            reveal_strlit("database is not found");
            reveal_strlit("field name is not supported on table");
            reveal_strlit("missing required field");
            reveal_strlit("field is not a supported type");
            reveal_strlit("database serialization error");
            reveal_strlit("unable to acquire lock on database");
            reveal_strlit("invalid primary key");
            reveal_strlit("database decompression error");
            reveal_strlit("database compression error");
        }
        s
    }
}

} // verus!
