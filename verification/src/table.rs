use vstd::prelude::*;

use crate::assoc::{assoc_find, assoc_has_key, assoc_map, lemma_find_at_first_match,
    lemma_find_iff_has_key, lemma_find_none, lemma_index_is_binding, lemma_push_fresh,
    lemma_remove_at, lemma_update_value, unique_keys};
use crate::entry::{pairs_view, Entry, EntryV};
use crate::errors::DatabaseError;
use crate::fields::{Field, FieldRequirement, FieldType, FieldV};
use vstd::string::StrSliceExecFns;

verus! {

/// The named pairs of an executable schema field list, as mathematical
/// values.
pub open spec fn schema_view(s: Seq<(String, FieldRequirement)>) -> Seq<
    (Seq<char>, FieldRequirement),
> {
    s.map_values(|p: (String, FieldRequirement)| (p.0@, p.1))
}

/// The mathematical values of an executable entry list.
pub open spec fn entries_view(s: Seq<Entry>) -> Seq<EntryV> {
    s.map_values(|e: Entry| e@)
}

/// Each entry of `s` keyed by its own primary key.
pub open spec fn entry_pairs(s: Seq<EntryV>) -> Seq<(FieldV, EntryV)> {
    s.map_values(|e: EntryV| (e.primary, e))
}

/// The mathematical value of a [`Table`]: its name, its schema (primary
/// key type and declared fields in declaration order), its stored entries
/// in storage order, and its optional expiration window.
#[verifier::ext_equal]
pub struct TableV {
    pub name: Seq<char>,
    pub primary_type: FieldType,
    pub fields: Seq<(Seq<char>, FieldRequirement)>,
    pub entries: Seq<EntryV>,
    pub expire: Option<u64>,
}

impl TableV {
    /// The declared fields as a map from field name to requirement.
    pub open spec fn schema_map(self) -> Map<Seq<char>, FieldRequirement> {
        assoc_map(self.fields)
    }

    /// The stored entries as a map from primary key to entry.
    pub open spec fn entries_map(self) -> Map<FieldV, EntryV> {
        assoc_map(entry_pairs(self.entries))
    }

    /// The entry's primary key has the declared primary type.
    pub open spec fn primary_ok(self, e: EntryV) -> bool {
        e.primary.tag() == self.primary_type
    }

    /// Every entry field that the schema declares carries a value of the
    /// declared type.
    pub open spec fn types_ok(self, e: EntryV) -> bool {
        forall|i: int| 0 <= i < e.fields.len() ==> match assoc_find(
            self.fields,
            (#[trigger] e.fields[i]).0,
        ) {
            Some(req) => req.spec_field_type() == e.fields[i].1.tag(),
            None => true,
        }
    }

    /// Every entry field is declared by the schema.
    pub open spec fn names_ok(self, e: EntryV) -> bool {
        forall|i: int| 0 <= i < e.fields.len() ==> assoc_has_key(
            self.fields,
            (#[trigger] e.fields[i]).0,
        )
    }

    /// Every schema field marked required is present on the entry.
    pub open spec fn required_ok(self, e: EntryV) -> bool {
        forall|j: int| 0 <= j < self.fields.len() ==> ((#[trigger] self.fields[j]).1 is Required
            ==> assoc_has_key(e.fields, self.fields[j].0))
    }

    /// The entry satisfies the schema in full.
    pub open spec fn conforms(self, e: EntryV) -> bool {
        self.primary_ok(e) && self.types_ok(e) && self.names_ok(e) && self.required_ok(e)
    }

    /// The entry field at `i` is not declared by the schema, so validation
    /// reports it as unsupported.
    pub open spec fn undeclared_at(self, e: EntryV, i: int) -> bool {
        0 <= i < e.fields.len() && !assoc_has_key(self.fields, e.fields[i].0)
    }

    /// The schema field at `j` is required but absent from the entry, so
    /// validation reports it as missing.
    pub open spec fn missing_at(self, e: EntryV, j: int) -> bool {
        0 <= j < self.fields.len() && self.fields[j].1 is Required && !assoc_has_key(
            e.fields,
            self.fields[j].0,
        )
    }

    /// A well-formed table has a non-empty name, a concrete primary key
    /// type, and at least one declared field with unique names and
    /// concrete types; its entries have unique primary keys, and each is
    /// well formed, satisfies the schema, and carries a write timestamp.
    pub open spec fn wf(self) -> bool {
        &&& self.name.len() > 0
        &&& self.primary_type != FieldType::Absent
        &&& self.fields.len() >= 1
        &&& unique_keys(self.fields)
        &&& forall|i: int| 0 <= i < self.fields.len() ==> (
        #[trigger] self.fields[i]).1.spec_field_type() != FieldType::Absent
        &&& unique_keys(entry_pairs(self.entries))
        &&& forall|i: int| 0 <= i < self.entries.len() ==> (#[trigger] self.entries[i]).wf()
            && self.conforms(self.entries[i]) && self.entries[i].last is Some
    }

    /// The same table with `e` stored under its primary key, replacing any
    /// entry stored there.
    pub open spec fn with_entry(self, e: EntryV) -> TableV {
        TableV { entries: upsert_entries(self.entries, e), ..self }
    }

    /// The same table with the entry stored under `key` removed;
    /// meaningful only when such an entry is stored.
    pub open spec fn without_entry(self, key: FieldV) -> TableV {
        TableV {
            entries: self.entries.remove(
                crate::assoc::first_index(entry_pairs(self.entries), key),
            ),
            ..self
        }
    }
}

/// `entries` with `e` stored under its primary key: the stored entry is
/// replaced in place if the key is present, else `e` is appended.
pub open spec fn upsert_entries(entries: Seq<EntryV>, e: EntryV) -> Seq<EntryV> {
    if assoc_has_key(entry_pairs(entries), e.primary) {
        entries.update(crate::assoc::first_index(entry_pairs(entries), e.primary), e)
    } else {
        entries.push(e)
    }
}

/// A named collection of entries that all satisfy one declared schema.
#[derive(Debug)]
pub struct Table {
    name: String,
    primary_field: FieldType,
    fields: Vec<(String, FieldRequirement)>,
    entries: Vec<Entry>,
    expire_after: Option<u64>,
}

impl View for Table {
    type V = TableV;

    closed spec fn view(&self) -> TableV {
        TableV {
            name: self.name@,
            primary_type: self.primary_field,
            fields: schema_view(self.fields@),
            entries: entries_view(self.entries@),
            expire: self.expire_after,
        }
    }
}


/// Looks up a declared field by name.
fn schema_find(fields: &Vec<(String, FieldRequirement)>, name: &String) -> (r: Option<
    FieldRequirement,
>)
    ensures
        r == assoc_find(schema_view(fields@), name@),
{
    let ghost pairs = schema_view(fields@);
    let mut i: usize = 0;
    while i < fields.len()
        invariant
            i <= fields.len(),
            pairs == schema_view(fields@),
            forall|j: int| 0 <= j < i ==> (#[trigger] pairs[j]).0 != name@,
        decreases fields.len() - i,
    {
        if String::eq(&fields[i].0, name) {
            proof {
                lemma_find_at_first_match(pairs, name@, i as int);
            }
            return Some(fields[i].1);
        }
        i += 1;
    }
    proof {
        lemma_find_none(pairs, name@);
    }
    None
}

/// Whether no two entries of the list carry the same primary key.
fn entry_primaries_unique(entries: &Vec<Entry>) -> (r: bool)
    ensures
        r == (forall|a: int, b: int| 0 <= a < b < entries@.len() ==> (
        #[trigger] entries@[a]).primary_field@ != (#[trigger] entries@[b]).primary_field@),
{
    let mut i: usize = 0;
    while i < entries.len()
        invariant
            i <= entries.len(),
            forall|a: int, b: int| 0 <= a < b < i ==> (#[trigger] entries@[a]).primary_field@
                != (#[trigger] entries@[b]).primary_field@,
        decreases entries.len() - i,
    {
        let mut j: usize = 0;
        while j < i
            invariant
                j <= i < entries.len(),
                forall|a: int, b: int| 0 <= a < b < i ==> (
                #[trigger] entries@[a]).primary_field@ != (
                #[trigger] entries@[b]).primary_field@,
                forall|a: int| 0 <= a < j ==> (#[trigger] entries@[a]).primary_field@
                    != entries@[i as int].primary_field@,
            decreases i - j,
        {
            if Field::eq(&entries[j].primary_field, &entries[i].primary_field) {
                return false;
            }
            j += 1;
        }
        i += 1;
    }
    true
}

/// Whether the entry field list carries the given name.
fn entry_fields_have_key(fields: &Vec<(String, Field)>, name: &String) -> (r: bool)
    ensures
        r == assoc_has_key(pairs_view(fields@), name@),
{
    let ghost pairs = pairs_view(fields@);
    let mut i: usize = 0;
    while i < fields.len()
        invariant
            i <= fields.len(),
            pairs == pairs_view(fields@),
            forall|j: int| 0 <= j < i ==> (#[trigger] pairs[j]).0 != name@,
        decreases fields.len() - i,
    {
        if String::eq(&fields[i].0, name) {
            proof {
                assert(pairs[i as int].0 == name@);
            }
            return true;
        }
        i += 1;
    }
    false
}

impl Table {
    /// Returns a builder for a new table.
    pub fn new() -> (b: TableBuilder)
        ensures
            b@.name.len() == 0,
            b@.primary_type == FieldType::Absent,
            b@.fields.len() == 0,
            b@.entries.len() == 0,
            b@.expire is None,
            b.inv(),
    {
        TableBuilder {
            table: Table {
                name: String::new(),
                primary_field: FieldType::Absent,
                fields: Vec::new(),
                entries: Vec::new(),
                expire_after: None,
            },
        }
    }

    /// Returns the table's name.
    pub fn get_name(&self) -> (r: &String)
        ensures
            r@ == self@.name,
    {
        &self.name
    }

    /// Returns the declared primary key type.
    pub fn get_primary_type(&self) -> (r: FieldType)
        ensures
            r == self@.primary_type,
    {
        self.primary_field
    }

    /// Returns the table's expiration window, if one was configured.
    pub fn get_expiration(&self) -> (r: Option<u64>)
        ensures
            r == self@.expire,
    {
        self.expire_after
    }

    /// The declared fields, in declaration order.
    pub(crate) fn fields_ref(&self) -> (r: &Vec<(String, FieldRequirement)>)
        ensures
            schema_view(r@) == self@.fields,
    {
        &self.fields
    }

    /// The stored entries, in storage order.
    pub(crate) fn entries_ref(&self) -> (r: &Vec<Entry>)
        ensures
            entries_view(r@) == self@.entries,
    {
        &self.entries
    }

    /// Assembles a table directly from its parts; used by the persistence
    /// decoder, which re-checks the table's invariants itself.
    pub(crate) fn from_parts(
        name: String,
        primary_field: FieldType,
        fields: Vec<(String, FieldRequirement)>,
        entries: Vec<Entry>,
        expire_after: Option<u64>,
    ) -> (t: Table)
        ensures
            t@ == (TableV {
                name: name@,
                primary_type: primary_field,
                fields: schema_view(fields@),
                entries: entries_view(entries@),
                expire: expire_after,
            }),
    {
        Table { name, primary_field, fields, entries, expire_after }
    }

    /// Whether this table is well formed: a non-empty name, a concrete
    /// primary key type, at least one declared field with unique names
    /// and concrete types, and entries with unique primary keys that all
    /// satisfy the schema and carry a write timestamp.
    pub fn check_wf(&self) -> (r: bool)
        ensures
            r == self@.wf(),
    {
        if self.name.as_str().unicode_len() == 0 {
            return false;
        }
        if let FieldType::Absent = self.primary_field {
            return false;
        }
        if self.fields.len() == 0 {
            return false;
        }
        if !crate::entry::string_keys_unique(&self.fields) {
            proof {
                let pairs = self@.fields;
                let (a, b) = choose|a: int, b: int|
                    0 <= a < b < self.fields@.len() && (self.fields@[a]).0@ == (
                    self.fields@[b]).0@;
                assert(pairs[a].0 == pairs[b].0);
                assert(!unique_keys(pairs));
            }
            return false;
        }
        let mut i: usize = 0;
        while i < self.fields.len()
            invariant
                i <= self.fields.len(),
                forall|j: int| 0 <= j < i ==> (
                #[trigger] schema_view(self.fields@)[j]).1.spec_field_type()
                    != FieldType::Absent,
            decreases self.fields.len() - i,
        {
            if let FieldType::Absent = self.fields[i].1.unwrap() {
                proof {
                    assert((#[trigger] self@.fields[i as int]).1.spec_field_type()
                        == FieldType::Absent);
                }
                return false;
            }
            i += 1;
        }
        if !entry_primaries_unique(&self.entries) {
            proof {
                let pairs = entry_pairs(self@.entries);
                let (a, b) = choose|a: int, b: int|
                    0 <= a < b < self.entries@.len() && (self.entries@[a]).primary_field@ == (
                    self.entries@[b]).primary_field@;
                assert(pairs[a].0 == pairs[b].0);
                assert(!unique_keys(pairs));
            }
            return false;
        }
        let mut k: usize = 0;
        while k < self.entries.len()
            invariant
                k <= self.entries.len(),
                forall|j: int| 0 <= j < k ==> (#[trigger] self@.entries[j]).wf()
                    && self@.conforms(self@.entries[j]) && self@.entries[j].last is Some,
            decreases self.entries.len() - k,
        {
            let ghost ev = self@.entries[k as int];
            if !self.entries[k].check_wf() {
                proof {
                    assert(!(#[trigger] self@.entries[k as int]).wf());
                }
                return false;
            }
            if let Err(_) = self.validate_field_types(&self.entries[k]) {
                proof {
                    assert(!self@.conforms(#[trigger] self@.entries[k as int]));
                }
                return false;
            }
            if let Err(_) = self.validate_required_fields(&self.entries[k]) {
                proof {
                    assert(!self@.conforms(#[trigger] self@.entries[k as int]));
                }
                return false;
            }
            if let None = self.entries[k].last_timestamp {
                proof {
                    assert(!((#[trigger] self@.entries[k as int]).last is Some));
                }
                return false;
            }
            k += 1;
        }
        proof {
            assert forall|a: int, b: int| 0 <= a < b < entry_pairs(self@.entries).len() implies (
            #[trigger] entry_pairs(self@.entries)[a]).0 != (#[trigger] entry_pairs(
                self@.entries,
            )[b]).0 by {
                assert(entry_pairs(self@.entries)[a].0 == self.entries@[a].primary_field@);
                assert(entry_pairs(self@.entries)[b].0 == self.entries@[b].primary_field@);
            }
            assert forall|a: int, b: int| 0 <= a < b < self@.fields.len() implies (
            #[trigger] self@.fields[a]).0 != (#[trigger] self@.fields[b]).0 by {
                assert(self@.fields[a].0 == self.fields@[a].0@);
                assert(self@.fields[b].0 == self.fields@[b].0@);
            }
        }
        true
    }

    /// Finds the index of the stored entry with the given primary key.
    fn find_entry_index(&self, key: &Field) -> (r: Option<usize>)
        ensures
            r matches Some(i) ==> i < self@.entries.len() && self@.entries[i as int].primary
                == key@ && (unique_keys(entry_pairs(self@.entries)) ==> assoc_find(
                entry_pairs(self@.entries),
                key@,
            ) == Some(self@.entries[i as int])),
            r is None ==> !assoc_has_key(entry_pairs(self@.entries), key@),
    {
        let ghost pairs = entry_pairs(self@.entries);
        let mut i: usize = 0;
        while i < self.entries.len()
            invariant
                i <= self.entries.len(),
                pairs == entry_pairs(entries_view(self.entries@)),
                forall|j: int| 0 <= j < i ==> (#[trigger] pairs[j]).0 != key@,
            decreases self.entries.len() - i,
        {
            if Field::eq(&self.entries[i].primary_field, key) {
                proof {
                    if unique_keys(pairs) {
                        lemma_index_is_binding(pairs, i as int);
                    }
                }
                return Some(i);
            }
            i += 1;
        }
        proof {
            lemma_find_none(pairs, key@);
        }
        None
    }

    /// Returns the stored entry with the given primary key, or
    /// `EntryDoesNotExists` if no entry carries it.
    pub fn get(&self, key: &Field) -> (r: Result<&Entry, DatabaseError>)
        requires
            self@.wf(),
        ensures
            r is Ok <==> self@.entries_map().contains_key(key@),
            r matches Ok(e) ==> e@ == self@.entries_map()[key@],
            r matches Err(e) ==> e is EntryDoesNotExists,
    {
        proof {
            lemma_find_iff_has_key(entry_pairs(self@.entries), key@);
        }
        match self.find_entry_index(key) {
            Some(i) => Ok(&self.entries[i]),
            None => Err(DatabaseError::EntryDoesNotExists),
        }
    }

    /// Checks that the entry's primary key and every declared field it
    /// carries have the types the schema declares. The primary key is
    /// checked first; fields the schema does not declare are not examined
    /// here.
    fn validate_field_types(&self, entry: &Entry) -> (r: Result<(), DatabaseError>)
        ensures
            r is Ok <==> self@.primary_ok(entry@) && self@.types_ok(entry@),
            r matches Err(e) ==> e is MismatchedFieldType,
    {
        if self.primary_field != entry.primary_field.get_type() {
            return Err(DatabaseError::MismatchedFieldType);
        }
        let ghost pairs = pairs_view(entry.fields@);
        let mut i: usize = 0;
        while i < entry.fields.len()
            invariant
                i <= entry.fields.len(),
                pairs == pairs_view(entry.fields@),
                self@.primary_ok(entry@),
                forall|j: int| 0 <= j < i ==> match assoc_find(
                    self@.fields,
                    (#[trigger] pairs[j]).0,
                ) {
                    Some(req) => req.spec_field_type() == pairs[j].1.tag(),
                    None => true,
                },
            decreases entry.fields.len() - i,
        {
            match schema_find(&self.fields, &entry.fields[i].0) {
                Some(req) => {
                    if req.unwrap() != entry.fields[i].1.get_type() {
                        proof {
                            assert(entry@.fields[i as int] == pairs[i as int]);
                            assert(!self@.types_ok(entry@));
                        }
                        return Err(DatabaseError::MismatchedFieldType);
                    }
                },
                None => {},
            }
            i += 1;
        }
        Ok(())
    }

    /// Checks that every entry field is declared by the schema (else
    /// `UnsupportedField`, for the first offender in the entry's field
    /// order) and that every required schema field is present (else
    /// `MissingRequiredField`, for the first offender in declaration
    /// order); the checks run in that order.
    fn validate_required_fields(&self, entry: &Entry) -> (r: Result<(), DatabaseError>)
        ensures
            r is Ok <==> self@.names_ok(entry@) && self@.required_ok(entry@),
            r matches Err(e) ==> if !self@.names_ok(entry@) {
                e matches DatabaseError::UnsupportedField(n) && exists|i: int|
                    #[trigger] self@.undeclared_at(entry@, i) && n@ == entry@.fields[i].0
                    && forall|j: int| 0 <= j < i ==> !self@.undeclared_at(entry@, j)
            } else {
                e matches DatabaseError::MissingRequiredField(n) && exists|j: int|
                    #[trigger] self@.missing_at(entry@, j) && n@ == self@.fields[j].0 && forall|
                        l: int,
                    | 0 <= l < j ==> !self@.missing_at(entry@, l)
            },
    {
        let ghost pairs = pairs_view(entry.fields@);
        let mut i: usize = 0;
        while i < entry.fields.len()
            invariant
                i <= entry.fields.len(),
                pairs == pairs_view(entry.fields@),
                forall|j: int| 0 <= j < i ==> !self@.undeclared_at(entry@, j),
            decreases entry.fields.len() - i,
        {
            let declared = match schema_find(&self.fields, &entry.fields[i].0) {
                Some(_) => true,
                None => false,
            };
            proof {
                lemma_find_iff_has_key(self@.fields, pairs[i as int].0);
            }
            if !declared {
                let name = entry.fields[i].0.clone();
                proof {
                    assert(self@.undeclared_at(entry@, i as int));
                    assert(entry@.fields[i as int] == pairs[i as int]);
                    assert(!self@.names_ok(entry@));
                }
                return Err(DatabaseError::UnsupportedField(name));
            }
            i += 1;
        }
        proof {
            assert forall|k: int| 0 <= k < entry@.fields.len() implies assoc_has_key(
                self@.fields,
                (#[trigger] entry@.fields[k]).0,
            ) by {
                assert(!self@.undeclared_at(entry@, k));
            }
        }
        let mut j: usize = 0;
        while j < self.fields.len()
            invariant
                j <= self.fields.len(),
                self@.names_ok(entry@),
                forall|l: int| 0 <= l < j ==> !self@.missing_at(entry@, l),
            decreases self.fields.len() - j,
        {
            let required = match self.fields[j].1 {
                FieldRequirement::Required(_) => true,
                FieldRequirement::Optional(_) => false,
            };
            if required {
                if !entry_fields_have_key(&entry.fields, &self.fields[j].0) {
                    let name = self.fields[j].0.clone();
                    proof {
                        assert(self@.fields[j as int] == schema_view(self.fields@)[j as int]);
                        assert(self@.missing_at(entry@, j as int));
                        assert(!self@.required_ok(entry@));
                    }
                    return Err(DatabaseError::MissingRequiredField(name));
                }
            }
            j += 1;
        }
        proof {
            assert forall|l: int|
                0 <= l < self@.fields.len() && (#[trigger] self@.fields[l]).1 is Required
                 implies assoc_has_key(entry@.fields, self@.fields[l].0) by {
                assert(!self@.missing_at(entry@, l));
            }
        }
        Ok(())
    }

    /// Stores a new entry under its primary key, stamping its write
    /// timestamp with `now`. Fails with `MismatchedFieldType`,
    /// `UnsupportedField` or `MissingRequiredField` when the entry
    /// violates the schema (in validation order), and otherwise with
    /// `EntryExists` when the primary key is already stored.
    pub fn insert(&mut self, entry: Entry, now: u64) -> (r: Result<(), DatabaseError>)
        requires
            old(self)@.wf(),
            entry@.wf(),
        ensures
            final(self)@.wf(),
            r is Ok <==> old(self)@.conforms(entry@) && !old(self)@.entries_map().contains_key(
                entry@.primary,
            ),
            r is Ok ==> final(self)@ == old(self)@.with_entry(entry@.stamped(now))
                && final(self)@.entries_map() == old(self)@.entries_map().insert(
                entry@.primary,
                entry@.stamped(now),
            ),
            r is Err ==> *final(self) == *old(self),
            validation_error_spec(old(self)@, entry@, r),
            old(self)@.conforms(entry@) && old(self)@.entries_map().contains_key(entry@.primary)
                ==> (r matches Err(e) && e is EntryExists),
    {
        if let Err(e) = self.validate_field_types(&entry) {
            return Err(e);
        }
        if let Err(e) = self.validate_required_fields(&entry) {
            return Err(e);
        }
        let mut entry = entry;
        entry.last_timestamp = Some(now);
        match self.find_entry_index(&entry.primary_field) {
            Some(_) => {
                proof {
                    lemma_find_iff_has_key(entry_pairs(self@.entries), entry@.primary);
                }
                Err(DatabaseError::EntryExists)
            },
            None => {
                let ghost t0 = self@;
                let ghost ev = entry@;
                proof {
                    lemma_find_iff_has_key(entry_pairs(t0.entries), ev.primary);
                }
                self.entries.push(entry);
                proof {
                    assert(entry_pairs(self@.entries) =~= entry_pairs(t0.entries).push(
                        (ev.primary, ev),
                    ));
                    lemma_push_fresh(entry_pairs(t0.entries), ev.primary, ev);
                    assert(self@.entries_map() =~= t0.entries_map().insert(ev.primary, ev));
                    assert(self@ =~= t0.with_entry(ev));
                }
                Ok(())
            },
        }
    }

    /// Stores the entry under its primary key, stamping its write
    /// timestamp with `now` and replacing any entry already stored there.
    /// Fails only when the entry violates the schema, with the same errors
    /// and order as `insert`.
    pub fn update(&mut self, entry: Entry, now: u64) -> (r: Result<(), DatabaseError>)
        requires
            old(self)@.wf(),
            entry@.wf(),
        ensures
            final(self)@.wf(),
            r is Ok <==> old(self)@.conforms(entry@),
            r is Ok ==> final(self)@ == old(self)@.with_entry(entry@.stamped(now))
                && final(self)@.entries_map() == old(self)@.entries_map().insert(
                entry@.primary,
                entry@.stamped(now),
            ),
            r is Err ==> *final(self) == *old(self),
            validation_error_spec(old(self)@, entry@, r),
    {
        if let Err(e) = self.validate_field_types(&entry) {
            return Err(e);
        }
        if let Err(e) = self.validate_required_fields(&entry) {
            return Err(e);
        }
        let mut entry = entry;
        entry.last_timestamp = Some(now);
        let ghost t0 = self@;
        let ghost ev = entry@;
        match self.find_entry_index(&entry.primary_field) {
            Some(i) => {
                proof {
                    lemma_index_is_binding(entry_pairs(t0.entries), i as int);
                    lemma_find_iff_has_key(entry_pairs(t0.entries), ev.primary);
                }
                self.entries[i] = entry;
                proof {
                    let pairs = entry_pairs(t0.entries);
                    assert(entry_pairs(self@.entries) =~= pairs.update(
                        i as int,
                        (pairs[i as int].0, ev),
                    ));
                    lemma_update_value(pairs, i as int, ev);
                    assert(crate::assoc::first_index(pairs, ev.primary) == i as int) by {
                        crate::assoc::lemma_first_index(pairs, ev.primary);
                        let f = crate::assoc::first_index(pairs, ev.primary);
                        if f != i as int {
                            assert(pairs[f].0 == pairs[i as int].0);
                        }
                    }
                    assert(self@.entries_map() =~= t0.entries_map().insert(ev.primary, ev));
                    assert(self@ =~= t0.with_entry(ev));
                }
                Ok(())
            },
            None => {
                self.entries.push(entry);
                proof {
                    assert(entry_pairs(self@.entries) =~= entry_pairs(t0.entries).push(
                        (ev.primary, ev),
                    ));
                    lemma_push_fresh(entry_pairs(t0.entries), ev.primary, ev);
                    assert(self@.entries_map() =~= t0.entries_map().insert(ev.primary, ev));
                    assert(self@ =~= t0.with_entry(ev));
                }
                Ok(())
            },
        }
    }

    /// Stores the entry whether or not its primary key is already present:
    /// the upsert alias of `update`.
    pub fn insert_or_update(&mut self, entry: Entry, now: u64) -> (r: Result<(), DatabaseError>)
        requires
            old(self)@.wf(),
            entry@.wf(),
        ensures
            final(self)@.wf(),
            r is Ok <==> old(self)@.conforms(entry@),
            r is Ok ==> final(self)@ == old(self)@.with_entry(entry@.stamped(now))
                && final(self)@.entries_map() == old(self)@.entries_map().insert(
                entry@.primary,
                entry@.stamped(now),
            ),
            r is Err ==> *final(self) == *old(self),
            validation_error_spec(old(self)@, entry@, r),
    {
        self.update(entry, now)
    }

    /// Removes the entry stored under the given primary key, or fails
    /// with `EntryDoesNotExists` if no entry carries it.
    pub fn delete(&mut self, primary_field: Field) -> (r: Result<(), DatabaseError>)
        requires
            old(self)@.wf(),
        ensures
            final(self)@.wf(),
            r is Ok <==> old(self)@.entries_map().contains_key(primary_field@),
            r is Ok ==> final(self)@.entries_map() == old(self)@.entries_map().remove(
                primary_field@,
            ) && final(self)@ == old(self)@.without_entry(primary_field@),
            r is Err ==> *final(self) == *old(self),
            r matches Err(e) ==> e is EntryDoesNotExists,
    {
        let ghost t0 = self@;
        match self.find_entry_index(&primary_field) {
            Some(i) => {
                proof {
                    let pairs = entry_pairs(t0.entries);
                    lemma_index_is_binding(pairs, i as int);
                    lemma_find_iff_has_key(pairs, primary_field@);
                }
                self.entries.remove(i);
                proof {
                    let pairs = entry_pairs(t0.entries);
                    assert(entry_pairs(self@.entries) =~= pairs.remove(i as int));
                    lemma_remove_at(pairs, i as int);
                    assert(pairs[i as int].0 == primary_field@);
                    assert(crate::assoc::first_index(pairs, primary_field@) == i as int) by {
                        crate::assoc::lemma_first_index(pairs, primary_field@);
                        let f = crate::assoc::first_index(pairs, primary_field@);
                        if f != i as int {
                            assert(pairs[f].0 == pairs[i as int].0);
                        }
                    }
                    assert(self@.entries_map() =~= t0.entries_map().remove(primary_field@));
                    assert(self@ =~= (TableV {
                        entries: t0.entries.remove(i as int),
                        ..t0
                    }));
                }
                Ok(())
            },
            None => {
                proof {
                    lemma_find_iff_has_key(entry_pairs(t0.entries), primary_field@);
                }
                Err(DatabaseError::EntryDoesNotExists)
            },
        }
    }

    /// Returns a copy of every stored entry, in storage order.
    pub fn scan(&self) -> (r: Result<Vec<Entry>, DatabaseError>)
        ensures
            r matches Ok(v) && entries_view(v@) == self@.entries,
    {
        let mut out: Vec<Entry> = Vec::new();
        let mut i: usize = 0;
        while i < self.entries.len()
            invariant
                i <= self.entries.len(),
                out@.len() == i,
                forall|j: int| 0 <= j < i ==> (#[trigger] out@[j])@ == self.entries@[j]@,
            decreases self.entries.len() - i,
        {
            let e = self.entries[i].clone();
            out.push(e);
            i += 1;
        }
        proof {
            assert(entries_view(out@) =~= self@.entries);
        }
        Ok(out)
    }

    /// Returns a copy of every stored entry that meets the criteria: for
    /// each `(name, value)` pair, the entry carries `name` with exactly
    /// `value`. An empty criteria list matches every entry.
    pub fn query(&self, criteria: &Vec<(String, Field)>) -> (r: Vec<Entry>)
        ensures
            entries_view(r@) == self@.entries.filter(
                |e: EntryV| matches_criteria(e, pairs_view(criteria@)),
            ),
    {
        let ghost pred = |e: EntryV| matches_criteria(e, pairs_view(criteria@));
        let mut out: Vec<Entry> = Vec::new();
        let mut i: usize = 0;
        while i < self.entries.len()
            invariant
                i <= self.entries.len(),
                pred == (|e: EntryV| matches_criteria(e, pairs_view(criteria@))),
                entries_view(out@) == self@.entries.take(i as int).filter(pred),
                self@.entries == entries_view(self.entries@),
            decreases self.entries.len() - i,
        {
            let ghost prefix = self@.entries.take(i as int);
            let matched = entry_matches(&self.entries[i], criteria);
            if matched {
                let e = self.entries[i].clone();
                out.push(e);
            }
            proof {
                reveal(Seq::filter);
                let next = self@.entries.take(i + 1);
                assert(next.drop_last() =~= prefix);
                assert(next.last() == self@.entries[i as int]);
                if matched {
                    assert(entries_view(out@) =~= prefix.filter(pred).push(
                        self@.entries[i as int],
                    ));
                } else {
                    assert(entries_view(out@) =~= prefix.filter(pred));
                }
            }
            i += 1;
        }
        proof {
            assert(self@.entries.take(self.entries@.len() as int) =~= self@.entries);
        }
        out
    }

    /// Removes every stored entry that meets the criteria (the matching
    /// rule of `query`) and returns how many were removed.
    pub fn delete_many(&mut self, criteria: &Vec<(String, Field)>) -> (r: u64)
        requires
            old(self)@.wf(),
        ensures
            final(self)@.wf(),
            final(self)@ == (TableV {
                entries: old(self)@.entries.filter(
                    |e: EntryV| !matches_criteria(e, pairs_view(criteria@)),
                ),
                ..old(self)@
            }),
            r == old(self)@.entries.filter(
                |e: EntryV| matches_criteria(e, pairs_view(criteria@)),
            ).len(),
    {
        let ghost keep = |e: EntryV| !matches_criteria(e, pairs_view(criteria@));
        let ghost gone = |e: EntryV| matches_criteria(e, pairs_view(criteria@));
        let ghost all = self@.entries;
        let mut out: Vec<Entry> = Vec::new();
        let mut count: usize = 0;
        let mut i: usize = 0;
        while i < self.entries.len()
            invariant
                i <= self.entries.len(),
                keep == (|e: EntryV| !matches_criteria(e, pairs_view(criteria@))),
                gone == (|e: EntryV| matches_criteria(e, pairs_view(criteria@))),
                all == entries_view(self.entries@),
                entries_view(out@) == all.take(i as int).filter(keep),
                count == all.take(i as int).filter(gone).len(),
                count <= i,
            decreases self.entries.len() - i,
        {
            let ghost prefix = all.take(i as int);
            let matched = entry_matches(&self.entries[i], criteria);
            if matched {
                count += 1;
            } else {
                let e = self.entries[i].clone();
                out.push(e);
            }
            proof {
                reveal(Seq::filter);
                let next = all.take(i + 1);
                assert(next.drop_last() =~= prefix);
                assert(next.last() == all[i as int]);
                if matched {
                    assert(entries_view(out@) =~= prefix.filter(keep));
                } else {
                    assert(entries_view(out@) =~= prefix.filter(keep).push(all[i as int]));
                }
            }
            i += 1;
        }
        proof {
            assert(all.take(self.entries@.len() as int) =~= all);
        }
        self.entries = out;
        proof {
            lemma_filter_wf_entries(all, old(self)@, keep);
            assert(self@ =~= (TableV { entries: all.filter(keep), ..old(self)@ }));
        }
        count as u64
    }

    /// Removes every stale entry, if this table has an expiration window:
    /// an entry is stale when its last write lies more than the window's
    /// length before `now`. A table without a window is left untouched,
    /// and so is an entry without a write timestamp.
    pub fn prune(&mut self, now: u64)
        requires
            old(self)@.wf(),
        ensures
            final(self)@.wf(),
            final(self)@ == pruned_table(old(self)@, now),
    {
        let d = match self.expire_after {
            Some(d) => d,
            None => {
                return ;
            },
        };
        let ghost keep = |e: EntryV| !stale(e, now, d);
        let ghost all = self@.entries;
        let mut out: Vec<Entry> = Vec::new();
        let mut i: usize = 0;
        while i < self.entries.len()
            invariant
                i <= self.entries.len(),
                keep == (|e: EntryV| !stale(e, now, d)),
                all == entries_view(self.entries@),
                entries_view(out@) == all.take(i as int).filter(keep),
            decreases self.entries.len() - i,
        {
            let ghost prefix = all.take(i as int);
            let is_stale = match self.entries[i].last_timestamp {
                Some(t0) => t0 <= now && now - t0 > d,
                None => false,
            };
            if !is_stale {
                let e = self.entries[i].clone();
                out.push(e);
            }
            proof {
                reveal(Seq::filter);
                let next = all.take(i + 1);
                assert(next.drop_last() =~= prefix);
                assert(next.last() == all[i as int]);
                if is_stale {
                    assert(entries_view(out@) =~= prefix.filter(keep));
                } else {
                    assert(entries_view(out@) =~= prefix.filter(keep).push(all[i as int]));
                }
            }
            i += 1;
        }
        proof {
            assert(all.take(self.entries@.len() as int) =~= all);
        }
        self.entries = out;
        proof {
            lemma_filter_wf_entries(all, old(self)@, keep);
            assert(self@ =~= pruned_table(old(self)@, now));
        }
    }
}

impl Clone for Table {
    /// Cloning keeps the mathematical value.
    fn clone(&self) -> (r: Self)
        ensures
            r@ == self@,
    {
        let mut fields: Vec<(String, FieldRequirement)> = Vec::new();
        let mut i: usize = 0;
        while i < self.fields.len()
            invariant
                i <= self.fields.len(),
                fields@.len() == i,
                forall|j: int| 0 <= j < i ==> (#[trigger] fields@[j]).0@ == self.fields@[j].0@
                    && fields@[j].1 == self.fields@[j].1,
            decreases self.fields.len() - i,
        {
            let name = self.fields[i].0.clone();
            fields.push((name, self.fields[i].1));
            i += 1;
        }
        let mut entries: Vec<Entry> = Vec::new();
        let mut k: usize = 0;
        while k < self.entries.len()
            invariant
                k <= self.entries.len(),
                entries@.len() == k,
                forall|j: int| 0 <= j < k ==> (#[trigger] entries@[j])@ == self.entries@[j]@,
            decreases self.entries.len() - k,
        {
            let e = self.entries[k].clone();
            entries.push(e);
            k += 1;
        }
        let r = Table {
            name: self.name.clone(),
            primary_field: self.primary_field,
            fields,
            entries,
            expire_after: self.expire_after,
        };
        proof {
            assert(schema_view(r.fields@) =~= schema_view(self.fields@));
            assert(entries_view(r.entries@) =~= entries_view(self.entries@));
            assert(r@ =~= self@);
        }
        r
    }
}

/// An entry is stale once its last write lies more than `d` time units
/// before `now`; an entry that was never written is not stale.
pub open spec fn stale(e: EntryV, now: u64, d: u64) -> bool {
    e.last matches Some(t0) && t0 <= now && now - t0 > d
}

/// What pruning at time `now` leaves of a table: its stale entries are
/// dropped if it has an expiration window, and nothing changes otherwise.
pub open spec fn pruned_table(t: TableV, now: u64) -> TableV {
    match t.expire {
        Some(d) => TableV { entries: t.entries.filter(|e: EntryV| !stale(e, now, d)), ..t },
        None => t,
    }
}

/// An entry meets the criteria when, for every pair, it carries that
/// field name with exactly that value.
pub open spec fn matches_criteria(e: EntryV, c: Seq<(Seq<char>, FieldV)>) -> bool {
    forall|i: int| 0 <= i < c.len() ==> assoc_find(e.fields, (#[trigger] c[i]).0) == Some(
        c[i].1,
    )
}

/// Looks up an entry field value by name.
fn entry_find<'a>(fields: &'a Vec<(String, Field)>, name: &String) -> (r: Option<&'a Field>)
    ensures
        r matches Some(f) ==> assoc_find(pairs_view(fields@), name@) == Some(f@),
        r is None ==> assoc_find(pairs_view(fields@), name@) is None,
{
    let ghost pairs = pairs_view(fields@);
    let mut i: usize = 0;
    while i < fields.len()
        invariant
            i <= fields.len(),
            pairs == pairs_view(fields@),
            forall|j: int| 0 <= j < i ==> (#[trigger] pairs[j]).0 != name@,
        decreases fields.len() - i,
    {
        if String::eq(&fields[i].0, name) {
            proof {
                lemma_find_at_first_match(pairs, name@, i as int);
            }
            return Some(&fields[i].1);
        }
        i += 1;
    }
    proof {
        lemma_find_none(pairs, name@);
    }
    None
}

/// Whether the entry meets the criteria.
fn entry_matches(e: &Entry, criteria: &Vec<(String, Field)>) -> (r: bool)
    ensures
        r == matches_criteria(e@, pairs_view(criteria@)),
{
    let ghost c = pairs_view(criteria@);
    let mut i: usize = 0;
    while i < criteria.len()
        invariant
            i <= criteria.len(),
            c == pairs_view(criteria@),
            forall|j: int| 0 <= j < i ==> assoc_find(e@.fields, (#[trigger] c[j]).0) == Some(
                c[j].1,
            ),
        decreases criteria.len() - i,
    {
        match entry_find(&e.fields, &criteria[i].0) {
            Some(v) => {
                if !Field::eq(v, &criteria[i].1) {
                    proof {
                        assert(c[i as int].0 == criteria@[i as int].0@);
                        assert(!matches_criteria(e@, c));
                    }
                    return false;
                }
            },
            None => {
                proof {
                    assert(c[i as int].0 == criteria@[i as int].0@);
                    assert(!matches_criteria(e@, c));
                }
                return false;
            },
        }
        i += 1;
    }
    true
}

/// Every element of a filtered sequence is an element of the original.
pub proof fn lemma_filter_elems<A>(s: Seq<A>, pred: spec_fn(A) -> bool)
    ensures
        forall|i: int| 0 <= i < s.filter(pred).len() ==> s.contains(#[trigger] s.filter(pred)[i]),
    decreases s.len(),
{
    reveal(Seq::filter);
    if s.len() == 0 {
    } else {
        let butlast = s.drop_last();
        lemma_filter_elems(butlast, pred);
        assert forall|i: int| 0 <= i < s.filter(pred).len() implies s.contains(
            #[trigger] s.filter(pred)[i],
        ) by {
            if i < butlast.filter(pred).len() {
                assert(butlast.contains(butlast.filter(pred)[i]));
                let w = choose|w: int| 0 <= w < butlast.len() && butlast[w]
                    == butlast.filter(pred)[i];
                assert(s[w] == s.filter(pred)[i]);
            } else {
                assert(s.filter(pred)[i] == s.last());
                assert(s[s.len() - 1] == s.last());
            }
        }
    }
}

/// Filtering a well-formed table's entries keeps the table well formed:
/// the survivors still have unique primary keys and still satisfy the
/// schema.
proof fn lemma_filter_wf_entries(all: Seq<EntryV>, t: TableV, pred: spec_fn(EntryV) -> bool)
    requires
        t.wf(),
        all == t.entries,
    ensures
        (TableV { entries: all.filter(pred), ..t }).wf(),
{
    let f = all.filter(pred);
    lemma_filter_elems(all, pred);
    assert forall|i: int| 0 <= i < f.len() implies (#[trigger] f[i]).wf() && t.conforms(f[i])
        && f[i].last is Some by {
        assert(all.contains(f[i]));
        let w = choose|w: int| 0 <= w < all.len() && all[w] == f[i];
        assert(t.entries[w] == f[i]);
    }
    assert forall|i: int, j: int| 0 <= i < j < entry_pairs(f).len() implies (
    #[trigger] entry_pairs(f)[i]).0 != (#[trigger] entry_pairs(f)[j]).0 by {
        lemma_filter_unique_primaries(all, pred, i, j);
    }
    let t2 = TableV { entries: f, ..t };
    assert forall|i: int| 0 <= i < t2.entries.len() implies (#[trigger] t2.entries[i]).wf()
        && t2.conforms(t2.entries[i]) && t2.entries[i].last is Some by {
        assert(t2.entries[i] == f[i]);
        assert(t.conforms(f[i]));
        assert(t2.fields == t.fields && t2.primary_type == t.primary_type);
    }
}

/// Two distinct positions of a filtered entry sequence carry distinct
/// primary keys, provided the original entries did.
proof fn lemma_filter_unique_primaries(
    all: Seq<EntryV>,
    pred: spec_fn(EntryV) -> bool,
    i: int,
    j: int,
)
    requires
        unique_keys(entry_pairs(all)),
        0 <= i < j < all.filter(pred).len(),
    ensures
        entry_pairs(all.filter(pred))[i].0 != entry_pairs(all.filter(pred))[j].0,
    decreases all.len(),
{
    reveal(Seq::filter);
    let f = all.filter(pred);
    if all.len() == 0 {
    } else {
        let butlast = all.drop_last();
        assert forall|a: int, b: int| 0 <= a < b < entry_pairs(butlast).len() implies (
        #[trigger] entry_pairs(butlast)[a]).0 != (#[trigger] entry_pairs(butlast)[b]).0 by {
            assert(entry_pairs(all)[a].0 == entry_pairs(butlast)[a].0);
            assert(entry_pairs(all)[b].0 == entry_pairs(butlast)[b].0);
        }
        if j < butlast.filter(pred).len() {
            lemma_filter_unique_primaries(butlast, pred, i, j);
        } else if pred(all.last()) && j == butlast.filter(pred).len() {
            assert(f[j] == all.last());
            lemma_filter_elems(butlast, pred);
            assert(f[i] == butlast.filter(pred)[i]);
            assert(butlast.contains(f[i]));
            let w = choose|w: int| 0 <= w < butlast.len() && butlast[w] == f[i];
            assert(entry_pairs(all)[w].0 == f[i].primary);
            assert(entry_pairs(all)[all.len() - 1].0 == all.last().primary);
        }
    }
}

/// Which error a schema violation produces, and when: the primary key's
/// type is checked first, then the declared fields' types, then undeclared
/// names, then missing required fields; an entry that passes all four
/// checks produces no validation error.
pub open spec fn validation_error_spec(
    t: TableV,
    e: EntryV,
    r: Result<(), DatabaseError>,
) -> bool {
    &&& (!t.primary_ok(e) ==> (r matches Err(err) && err is MismatchedFieldType))
    &&& (t.primary_ok(e) && !t.types_ok(e) ==> (r matches Err(err)
        && err is MismatchedFieldType))
    &&& (t.primary_ok(e) && t.types_ok(e) && !t.names_ok(e) ==> (r matches Err(err)
        && err matches DatabaseError::UnsupportedField(n) && exists|i: int|
        #[trigger] t.undeclared_at(e, i) && n@ == e.fields[i].0 && forall|j: int|
            0 <= j < i ==> !t.undeclared_at(e, j)))
    &&& (t.primary_ok(e) && t.types_ok(e) && t.names_ok(e) && !t.required_ok(e) ==> (
    r matches Err(err) && err matches DatabaseError::MissingRequiredField(n) && exists|j: int|
        #[trigger] t.missing_at(e, j) && n@ == t.fields[j].0 && forall|l: int|
            0 <= l < j ==> !t.missing_at(e, l)))
}

/// Accumulates the parts of a [`Table`]; a final `build` step checks the
/// table's invariants before handing the table out.
pub struct TableBuilder {
    table: Table,
}

impl View for TableBuilder {
    type V = TableV;

    closed spec fn view(&self) -> TableV {
        self.table@
    }
}

impl TableBuilder {
    /// What every builder state guarantees: declared field names are
    /// unique, declared types are concrete, and no entry is stored yet.
    pub open spec fn inv(self) -> bool {
        &&& unique_keys(self@.fields)
        &&& forall|i: int| 0 <= i < self@.fields.len() ==> (
        #[trigger] self@.fields[i]).1.spec_field_type() != FieldType::Absent
        &&& self@.entries.len() == 0
    }

    /// Sets the name of the table under construction.
    pub fn name(self, name: String) -> (b: Self)
        ensures
            b@ == (TableV { name: name@, ..self@ }),
            self.inv() ==> b.inv(),
    {
        let mut s = self;
        s.table.name = name;
        proof {
            assert(s@ =~= (TableV { name: name@, ..self@ }));
        }
        s
    }

    /// Sets the primary key type of the table under construction. Fails
    /// with `UnsupportedFieldType` exactly when given the absent marker.
    pub fn primary_field(self, primary_key: FieldType) -> (r: Result<Self, DatabaseError>)
        ensures
            r is Ok <==> primary_key != FieldType::Absent,
            r matches Ok(b) ==> b@ == (TableV { primary_type: primary_key, ..self@ }) && (
            self.inv() ==> b.inv()),
            r matches Err(e) ==> e is UnsupportedFieldType,
    {
        if let FieldType::Absent = primary_key {
            return Err(DatabaseError::UnsupportedFieldType);
        }
        let mut s = self;
        s.table.primary_field = primary_key;
        proof {
            assert(s@ =~= (TableV { primary_type: primary_key, ..self@ }));
        }
        Ok(s)
    }

    /// Declares a required field on the table under construction; a name
    /// already declared has its requirement replaced. Fails with
    /// `UnsupportedFieldType` exactly when given the absent marker.
    pub fn add_field(self, key: String, field_type: FieldType) -> (r: Result<Self, DatabaseError>)
        requires
            self.inv(),
        ensures
            r is Ok <==> field_type != FieldType::Absent,
            r matches Ok(b) ==> b.inv() && b@.name == self@.name && b@.primary_type
                == self@.primary_type && b@.expire == self@.expire && b@.schema_map()
                == self@.schema_map().insert(key@, FieldRequirement::Required(field_type))
                && b@.fields.len() >= 1,
            r matches Err(e) ==> e is UnsupportedFieldType,
    {
        self.add_requirement(key, field_type, true)
    }

    /// Declares an optional field on the table under construction; a name
    /// already declared has its requirement replaced. Fails with
    /// `UnsupportedFieldType` exactly when given the absent marker.
    pub fn add_optional_field(self, key: String, field_type: FieldType) -> (r: Result<
        Self,
        DatabaseError,
    >)
        requires
            self.inv(),
        ensures
            r is Ok <==> field_type != FieldType::Absent,
            r matches Ok(b) ==> b.inv() && b@.name == self@.name && b@.primary_type
                == self@.primary_type && b@.expire == self@.expire && b@.schema_map()
                == self@.schema_map().insert(key@, FieldRequirement::Optional(field_type))
                && b@.fields.len() >= 1,
            r matches Err(e) ==> e is UnsupportedFieldType,
    {
        self.add_requirement(key, field_type, false)
    }

    /// Declares a field with the given requirement, replacing an earlier
    /// declaration of the same name.
    fn add_requirement(self, key: String, field_type: FieldType, required: bool) -> (r: Result<
        Self,
        DatabaseError,
    >)
        requires
            self.inv(),
        ensures
            r is Ok <==> field_type != FieldType::Absent,
            r matches Ok(b) ==> b.inv() && b@.name == self@.name && b@.primary_type
                == self@.primary_type && b@.expire == self@.expire && b@.schema_map()
                == self@.schema_map().insert(
                key@,
                if required {
                    FieldRequirement::Required(field_type)
                } else {
                    FieldRequirement::Optional(field_type)
                },
            ) && b@.fields.len() >= 1,
            r matches Err(e) ==> e is UnsupportedFieldType,
    {
        if let FieldType::Absent = field_type {
            return Err(DatabaseError::UnsupportedFieldType);
        }
        let req = if required {
            FieldRequirement::Required(field_type)
        } else {
            FieldRequirement::Optional(field_type)
        };
        let ghost pairs = self@.fields;
        let mut s = self;
        let mut i: usize = 0;
        while i < s.table.fields.len()
            invariant
                i <= s.table.fields.len(),
                s == self,
                self.inv(),
                req.spec_field_type() == field_type,
                req == (if required {
                    FieldRequirement::Required(field_type)
                } else {
                    FieldRequirement::Optional(field_type)
                }),
                field_type != FieldType::Absent,
                pairs == schema_view(s.table.fields@),
                forall|j: int| 0 <= j < i ==> (#[trigger] pairs[j]).0 != key@,
            decreases s.table.fields.len() - i,
        {
            if String::eq(&s.table.fields[i].0, &key) {
                s.table.fields[i] = (key, req);
                proof {
                    assert(schema_view(s.table.fields@) =~= pairs.update(
                        i as int,
                        (pairs[i as int].0, req),
                    ));
                    lemma_update_value(pairs, i as int, req);
                    assert(s@.schema_map() =~= self@.schema_map().insert(key@, req));
                    assert(s@.name == self@.name && s@.primary_type == self@.primary_type
                        && s@.expire == self@.expire && s@.entries == self@.entries);
                    assert forall|l: int| 0 <= l < s@.fields.len() implies (
                    #[trigger] s@.fields[l]).1.spec_field_type() != FieldType::Absent by {
                        if l != i as int {
                            assert(s@.fields[l] == pairs[l]);
                        }
                    }
                }
                return Ok(s);
            }
            i += 1;
        }
        proof {
            assert(!assoc_has_key(pairs, key@));
        }
        s.table.fields.push((key, req));
        proof {
            assert(schema_view(s.table.fields@) =~= pairs.push((key@, req)));
            lemma_push_fresh(pairs, key@, req);
            assert(s@.schema_map() =~= self@.schema_map().insert(key@, req));
        }
        Ok(s)
    }

    /// Sets the expiration window of the table under construction:
    /// entries whose last write lies further than this many time units in
    /// the past become eligible for pruning.
    pub fn add_expiration(self, expire_after: u64) -> (b: Self)
        ensures
            b@ == (TableV { expire: Some(expire_after), ..self@ }),
            self.inv() ==> b.inv(),
    {
        let mut s = self;
        s.table.expire_after = Some(expire_after);
        proof {
            assert(s@ =~= (TableV { expire: Some(expire_after), ..self@ }));
        }
        s
    }

    /// Checks that the table is completely configured and hands it out:
    /// the primary key type must be concrete (else
    /// `TableMissingPrimaryKey`), the name non-empty (else
    /// `TableNameNotSet`) and at least one field declared (else
    /// `TableMustContainFields`); the checks run in that order.
    pub fn build(self) -> (r: Result<Table, DatabaseError>)
        requires
            self.inv(),
        ensures
            r is Ok <==> self@.primary_type != FieldType::Absent && self@.name.len() > 0
                && self@.fields.len() >= 1,
            r matches Ok(t) ==> t@ == self@ && t@.wf(),
            r matches Err(e) ==> if self@.primary_type == FieldType::Absent {
                e is TableMissingPrimaryKey
            } else if self@.name.len() == 0 {
                e is TableNameNotSet
            } else {
                e is TableMustContainFields
            },
    {
        if let FieldType::Absent = self.table.primary_field {
            return Err(DatabaseError::TableMissingPrimaryKey);
        }
        if self.table.name.as_str().unicode_len() == 0 {
            return Err(DatabaseError::TableNameNotSet);
        }
        if self.table.fields.len() == 0 {
            return Err(DatabaseError::TableMustContainFields);
        }
        Ok(self.table)
    }
}

/// Storing `e` in a table rebinds exactly `e`'s primary key: the entries
/// map afterwards is the old map with `e` under its key.
pub proof fn lemma_with_entry_map(t: TableV, e: EntryV)
    requires
        unique_keys(entry_pairs(t.entries)),
    ensures
        t.with_entry(e).entries_map() == t.entries_map().insert(e.primary, e),
{
    let pairs = entry_pairs(t.entries);
    if assoc_has_key(pairs, e.primary) {
        let i = crate::assoc::first_index(pairs, e.primary);
        crate::assoc::lemma_first_index(pairs, e.primary);
        assert(entry_pairs(t.entries.update(i, e)) =~= pairs.update(i, (pairs[i].0, e)));
        lemma_update_value(pairs, i, e);
        assert(t.with_entry(e).entries_map() =~= t.entries_map().insert(e.primary, e));
    } else {
        assert(entry_pairs(t.entries.push(e)) =~= pairs.push((e.primary, e)));
        lemma_push_fresh(pairs, e.primary, e);
        assert(t.with_entry(e).entries_map() =~= t.entries_map().insert(e.primary, e));
    }
}

/// Law: storing a conforming entry and reading its key back yields the
/// entry unchanged but for its write timestamp, which is the time of the
/// store.
pub proof fn lemma_insert_then_get(t: TableV, e: EntryV, now: u64)
    requires
        t.wf(),
        e.wf(),
    ensures
        t.with_entry(e.stamped(now)).entries_map().contains_key(e.primary),
        t.with_entry(e.stamped(now)).entries_map()[e.primary] == e.stamped(now),
        e.stamped(now).primary == e.primary,
        e.stamped(now).fields == e.fields,
        e.stamped(now).last == Some(now),
{
    lemma_with_entry_map(t, e.stamped(now));
}

/// Law: once an entry is stored under a key, that key is present, so a
/// second `insert` of any entry with the same primary key reports that
/// the entry exists; `update` has no such failure and always leaves the
/// latest fields behind, as `lemma_insert_then_get` states.
pub proof fn lemma_insert_twice(t: TableV, e: EntryV, e2: EntryV, now: u64)
    requires
        t.wf(),
        e.wf(),
        e2.primary == e.primary,
    ensures
        t.with_entry(e.stamped(now)).entries_map().contains_key(e2.primary),
{
    lemma_with_entry_map(t, e.stamped(now));
}

/// Law: an empty criteria list matches every entry, so a query with no
/// criteria returns the whole table.
pub proof fn lemma_empty_criteria_match_all(t: TableV)
    ensures
        t.entries.filter(|e: EntryV| matches_criteria(e, Seq::<(Seq<char>, FieldV)>::empty()))
            == t.entries,
{
    reveal(Seq::filter);
    lemma_filter_trivial(t.entries, |e: EntryV| matches_criteria(
        e,
        Seq::<(Seq<char>, FieldV)>::empty(),
    ));
}

/// Filtering with a predicate that holds everywhere keeps the sequence.
proof fn lemma_filter_trivial(s: Seq<EntryV>, pred: spec_fn(EntryV) -> bool)
    requires
        forall|i: int| 0 <= i < s.len() ==> pred(#[trigger] s[i]),
    ensures
        s.filter(pred) == s,
    decreases s.len(),
{
    reveal(Seq::filter);
    if s.len() == 0 {
    } else {
        assert(pred(s[s.len() - 1]));
        lemma_filter_trivial(s.drop_last(), pred);
        assert(s.drop_last().push(s.last()) =~= s);
    }
}

/// Law: in a table with an expiration window, pruning at time `now`
/// removes a stored entry exactly when its last write lies further than
/// the window before `now`; an entry that stays keeps its value.
pub proof fn lemma_prune_visibility(t: TableV, now: u64, d: u64, key: FieldV)
    requires
        t.wf(),
        t.expire == Some(d),
        t.entries_map().contains_key(key),
    ensures
        stale(t.entries_map()[key], now, d) <==> !pruned_table(t, now).entries_map().contains_key(
            key,
        ),
        !stale(t.entries_map()[key], now, d) ==> pruned_table(t, now).entries_map()[key]
            == t.entries_map()[key],
{
    broadcast use vstd::seq_lib::group_filter_ensures;

    let pairs = entry_pairs(t.entries);
    let keep = |e: EntryV| !stale(e, now, d);
    let f = t.entries.filter(keep);
    let t2 = pruned_table(t, now);
    assert(t2.entries == f);
    lemma_find_iff_has_key(pairs, key);
    let i = crate::assoc::first_index(pairs, key);
    crate::assoc::lemma_first_index(pairs, key);
    lemma_index_is_binding(pairs, i);
    let e = t.entries[i];
    assert(t.entries_map()[key] == e);
    lemma_filter_elems(t.entries, keep);
    if !stale(e, now, d) {
        t.entries.lemma_filter_contains(keep, i);
        let j = choose|j: int| 0 <= j < f.len() && f[j] == e;
        assert(entry_pairs(f)[j].0 == key);
        assert(assoc_has_key(entry_pairs(f), key));
        assert forall|a: int, b: int| 0 <= a < b < entry_pairs(f).len() implies (
        #[trigger] entry_pairs(f)[a]).0 != (#[trigger] entry_pairs(f)[b]).0 by {
            lemma_filter_unique_primaries(t.entries, keep, a, b);
        }
        lemma_index_is_binding(entry_pairs(f), j);
        lemma_find_iff_has_key(entry_pairs(f), key);
        assert(t2.entries_map()[key] == e);
    } else {
        if assoc_has_key(entry_pairs(f), key) {
            let j = choose|j: int| 0 <= j < entry_pairs(f).len() && (#[trigger] entry_pairs(
                f,
            )[j]).0 == key;
            assert(f[j].primary == key);
            assert(t.entries.contains(f[j]));
            let w = choose|w: int| 0 <= w < t.entries.len() && t.entries[w] == f[j];
            assert(entry_pairs(t.entries)[w].0 == key);
            assert(w == i) by {
                if w != i {
                    assert(pairs[w].0 == pairs[i].0);
                }
            }
            assert(f[j] == e);
            assert(keep(f[j]));
        }
        lemma_find_iff_has_key(entry_pairs(f), key);
    }
}

} // verus!
