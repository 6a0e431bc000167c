use vstd::prelude::*;

use crate::assoc::{assoc_has_key, assoc_map, lemma_find_at_first_match,
    lemma_find_iff_has_key, lemma_index_is_binding, lemma_push_fresh, lemma_update_value,
    unique_keys};
use crate::errors::DatabaseError;
use crate::fields::{Field, FieldType, FieldV};
use vstd::string::StrSliceExecFns;

verus! {

/// The mathematical value of an [`Entry`]: a concrete primary key, the
/// named field values in the order they were added, and the timestamp of
/// the last successful write, if any.
#[verifier::ext_equal]
pub struct EntryV {
    pub primary: FieldV,
    pub fields: Seq<(Seq<char>, FieldV)>,
    pub last: Option<u64>,
}

/// The named pairs of an executable field list, as mathematical values.
pub open spec fn pairs_view(s: Seq<(String, Field)>) -> Seq<(Seq<char>, FieldV)> {
    s.map_values(|p: (String, Field)| (p.0@, p.1@))
}

impl EntryV {
    /// The field list as a map from field name to value.
    pub open spec fn fields_map(self) -> Map<Seq<char>, FieldV> {
        assoc_map(self.fields)
    }

    /// A well-formed entry has a concrete primary key and at least one
    /// field; field names are unique and non-empty, and every field value
    /// is concrete.
    pub open spec fn wf(self) -> bool {
        &&& self.primary.is_concrete()
        &&& self.fields.len() >= 1
        &&& unique_keys(self.fields)
        &&& forall|i: int| 0 <= i < self.fields.len() ==> (#[trigger] self.fields[i]).0.len() > 0
            && self.fields[i].1.is_concrete()
    }

    /// The same entry with its write timestamp set to `now`.
    pub open spec fn stamped(self, now: u64) -> EntryV {
        EntryV { last: Some(now), ..self }
    }
}

/// One schema-conformant record: a concrete primary key, a list of named
/// field values, and the timestamp of the last successful write.
#[derive(Debug)]
pub struct Entry {
    pub primary_field: Field,
    pub fields: Vec<(String, Field)>,
    pub last_timestamp: Option<u64>,
}

impl View for Entry {
    type V = EntryV;

    open spec fn view(&self) -> EntryV {
        EntryV {
            primary: self.primary_field@,
            fields: pairs_view(self.fields@),
            last: self.last_timestamp,
        }
    }
}

impl Entry {
    /// Returns a builder for a new entry.
    pub fn new() -> (b: EntryBuilder)
        ensures
            b@.primary == FieldV::Absent,
            b@.fields.len() == 0,
            b@.last is None,
            b.inv(),
    {
        EntryBuilder {
            entry: Entry {
                primary_field: Field::NotImplemented,
                fields: Vec::new(),
                last_timestamp: None,
            },
        }
    }

    /// Returns the value stored under the given field name, if any.
    pub fn get_field(&self, key: String) -> (r: Option<Field>)
        ensures
            r is Some <==> self@.fields_map().contains_key(key@),
            r matches Some(f) ==> self@.fields_map()[key@] == f@,
    {
        let ghost pairs = self@.fields;
        let mut i: usize = 0;
        while i < self.fields.len()
            invariant
                i <= self.fields.len(),
                pairs == pairs_view(self.fields@),
                forall|j: int| 0 <= j < i ==> (#[trigger] pairs[j]).0 != key@,
            decreases self.fields.len() - i,
        {
            if String::eq(&self.fields[i].0, &key) {
                let f = self.fields[i].1.clone();
                proof {
                    lemma_find_at_first_match(pairs, key@, i as int);
                    lemma_find_iff_has_key(pairs, key@);
                }
                return Some(f);
            }
            i += 1;
        }
        proof {
            lemma_find_iff_has_key(pairs, key@);
        }
        None
    }
}

impl Clone for Entry {
    /// Cloning keeps the mathematical value.
    fn clone(&self) -> (r: Self)
        ensures
            r@ == self@,
    {
        let r = Entry {
            primary_field: self.primary_field.clone(),
            fields: clone_field_pairs(&self.fields),
            last_timestamp: self.last_timestamp,
        };
        proof {
            assert(r@ =~= self@);
        }
        r
    }
}

/// Copies a field list, keeping its mathematical value.
pub(crate) fn clone_field_pairs(v: &Vec<(String, Field)>) -> (r: Vec<(String, Field)>)
    ensures
        pairs_view(r@) == pairs_view(v@),
{
    let mut r: Vec<(String, Field)> = Vec::new();
    let mut i: usize = 0;
    while i < v.len()
        invariant
            i <= v.len(),
            r@.len() == i,
            forall|j: int| 0 <= j < i ==> (#[trigger] r@[j]).0@ == v@[j].0@ && r@[j].1@
                == v@[j].1@,
        decreases v.len() - i,
    {
        let name = v[i].0.clone();
        let value = v[i].1.clone();
        r.push((name, value));
        i += 1;
    }
    proof {
        assert(pairs_view(r@) =~= pairs_view(v@));
    }
    r
}

/// Whether no two pairs of the list carry the same name.
pub(crate) fn string_keys_unique<T>(v: &Vec<(String, T)>) -> (r: bool)
    ensures
        r == (forall|a: int, b: int| 0 <= a < b < v@.len() ==> (#[trigger] v@[a]).0@ != (
        #[trigger] v@[b]).0@),
{
    let mut i: usize = 0;
    while i < v.len()
        invariant
            i <= v.len(),
            forall|a: int, b: int| 0 <= a < b < i ==> (#[trigger] v@[a]).0@ != (
            #[trigger] v@[b]).0@,
        decreases v.len() - i,
    {
        let mut j: usize = 0;
        while j < i
            invariant
                j <= i < v.len(),
                forall|a: int, b: int| 0 <= a < b < i ==> (#[trigger] v@[a]).0@ != (
                #[trigger] v@[b]).0@,
                forall|a: int| 0 <= a < j ==> (#[trigger] v@[a]).0@ != v@[i as int].0@,
            decreases i - j,
        {
            if String::eq(&v[j].0, &v[i].0) {
                return false;
            }
            j += 1;
        }
        i += 1;
    }
    true
}

impl Entry {
    /// Whether this entry is well formed: a concrete primary key and at
    /// least one field, with unique non-empty field names and concrete
    /// values.
    pub fn check_wf(&self) -> (r: bool)
        ensures
            r == self@.wf(),
    {
        if let crate::fields::FieldType::Absent = self.primary_field.get_type() {
            return false;
        }
        if self.fields.len() == 0 {
            return false;
        }
        if !string_keys_unique(&self.fields) {
            proof {
                let pairs = self@.fields;
                let (a, b) = choose|a: int, b: int|
                    0 <= a < b < self.fields@.len() && (self.fields@[a]).0@ == (
                    self.fields@[b]).0@;
                assert(pairs[a].0 == pairs[b].0);
                assert(!unique_keys(pairs));
            }
            return false;
        }
        let mut i: usize = 0;
        while i < self.fields.len()
            invariant
                i <= self.fields.len(),
                forall|j: int| 0 <= j < i ==> (#[trigger] pairs_view(self.fields@)[j]).0.len()
                    > 0 && pairs_view(self.fields@)[j].1.is_concrete(),
            decreases self.fields.len() - i,
        {
            if self.fields[i].0.as_str().unicode_len() == 0 {
                proof {
                    assert((#[trigger] self@.fields[i as int]).0.len() == 0);
                }
                return false;
            }
            if let crate::fields::FieldType::Absent = self.fields[i].1.get_type() {
                proof {
                    assert(!(#[trigger] self@.fields[i as int]).1.is_concrete());
                }
                return false;
            }
            i += 1;
        }
        proof {
            assert forall|a: int, b: int| 0 <= a < b < self@.fields.len() implies (
            #[trigger] self@.fields[a]).0 != (#[trigger] self@.fields[b]).0 by {
                assert(self@.fields[a].0 == self.fields@[a].0@);
                assert(self@.fields[b].0 == self.fields@[b].0@);
            }
        }
        true
    }
}

/// Accumulates the parts of an [`Entry`]; a final `build` step checks the
/// entry's invariants before handing the entry out.
pub struct EntryBuilder {
    entry: Entry,
}

impl View for EntryBuilder {
    type V = EntryV;

    closed spec fn view(&self) -> EntryV {
        self.entry@
    }
}

impl EntryBuilder {
    /// What every builder state guarantees: field names are unique and
    /// non-empty, and every added value is concrete.
    pub open spec fn inv(self) -> bool {
        &&& unique_keys(self@.fields)
        &&& forall|i: int| 0 <= i < self@.fields.len() ==> (#[trigger] self@.fields[i]).0.len()
            > 0 && self@.fields[i].1.is_concrete()
        &&& self@.last is None
    }

    /// Sets the primary key of the entry under construction. Fails with
    /// `InvalidPrimaryKey` exactly when the value is the absent marker.
    pub fn set_primary_field(self, field: Field) -> (r: Result<Self, DatabaseError>)
        ensures
            field@.is_concrete() <==> r is Ok,
            r matches Ok(b) ==> b@ == (EntryV { primary: field@, ..self@ }) && (self.inv()
                ==> b.inv()),
            r matches Err(e) ==> e is InvalidPrimaryKey,
    {
        if let FieldType::Absent = field.get_type() {
            return Err(DatabaseError::InvalidPrimaryKey);
        }
        let mut s = self;
        s.entry.primary_field = field;
        proof {
            assert(s@ =~= (EntryV { primary: field@, ..self@ }));
        }
        Ok(s)
    }

    /// Adds a field to the entry under construction; a name that was
    /// already added has its value replaced. Fails with
    /// `UnsupportedFieldType` when the value is the absent marker, and
    /// otherwise with `InvalidPrimaryKey` when the name is empty.
    pub fn add_field(self, key: String, field: Field) -> (r: Result<Self, DatabaseError>)
        requires
            self.inv(),
        ensures
            r is Ok <==> field@.is_concrete() && key@.len() > 0,
            r matches Ok(b) ==> b.inv() && b@.primary == self@.primary && b@.last == self@.last
                && b@.fields_map() == self@.fields_map().insert(key@, field@)
                && b@.fields.len() >= 1,
            r matches Err(e) ==> if !field@.is_concrete() {
                e is UnsupportedFieldType
            } else {
                e is InvalidPrimaryKey
            },
    {
        if let FieldType::Absent = field.get_type() {
            return Err(DatabaseError::UnsupportedFieldType);
        }
        if key.as_str().unicode_len() == 0 {
            return Err(DatabaseError::InvalidPrimaryKey);
        }
        let ghost pairs = self@.fields;
        let mut s = self;
        let mut i: usize = 0;
        while i < s.entry.fields.len()
            invariant
                i <= s.entry.fields.len(),
                s == self,
                self.inv(),
                field@.is_concrete(),
                key@.len() > 0,
                pairs == pairs_view(s.entry.fields@),
                forall|j: int| 0 <= j < i ==> (#[trigger] pairs[j]).0 != key@,
            decreases s.entry.fields.len() - i,
        {
            if String::eq(&s.entry.fields[i].0, &key) {
                s.entry.fields[i] = (key, field);
                proof {
                    assert(pairs_view(s.entry.fields@) =~= pairs.update(
                        i as int,
                        (pairs[i as int].0, field@),
                    ));
                    lemma_update_value(pairs, i as int, field@);
                    lemma_index_is_binding(pairs, i as int);
                    lemma_find_iff_has_key(pairs, key@);
                    assert(s@.fields_map() =~= self@.fields_map().insert(key@, field@));
                }
                return Ok(s);
            }
            i += 1;
        }
        proof {
            assert(!assoc_has_key(pairs, key@));
        }
        s.entry.fields.push((key, field));
        proof {
            assert(pairs_view(s.entry.fields@) =~= pairs.push((key@, field@)));
            lemma_push_fresh(pairs, key@, field@);
            assert(s@.fields_map() =~= self@.fields_map().insert(key@, field@));
        }
        Ok(s)
    }

    /// Checks that the entry is complete and hands it out: the primary key
    /// must be concrete (else `InvalidPrimaryKey`) and at least one field
    /// must have been added (else `EntryMustContainFields`); the checks
    /// run in that order.
    pub fn build(self) -> (r: Result<Entry, DatabaseError>)
        requires
            self.inv(),
        ensures
            r is Ok <==> self@.primary.is_concrete() && self@.fields.len() >= 1,
            r matches Ok(e) ==> e@ == self@ && e@.wf(),
            r matches Err(e) ==> if !self@.primary.is_concrete() {
                e is InvalidPrimaryKey
            } else {
                e is EntryMustContainFields
            },
    {
        if let FieldType::Absent = self.entry.primary_field.get_type() {
            return Err(DatabaseError::InvalidPrimaryKey);
        }
        if self.entry.fields.len() == 0 {
            return Err(DatabaseError::EntryMustContainFields);
        }
        Ok(self.entry)
    }
}

} // verus!
