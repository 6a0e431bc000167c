use vstd::prelude::*;


verus! {

/// The type tag carried by every stored value: one variant for each
/// supported scalar kind, plus `Absent` for the untyped/absent marker.
#[derive(Clone, Copy, PartialEq, Eq, Structural, Debug)]
pub enum FieldType {
    String,
    I64,
    I32,
    U64,
    U32,
    Date,
    Absent,
}

/// A typed scalar value. `Date` carries a wall-clock timestamp as whole
/// milliseconds since the epoch; `NotImplemented` is the absent marker.
#[derive(Debug)]
pub enum Field {
    String(String),
    I64(i64),
    I32(i32),
    U64(u64),
    U32(u32),
    Date(u64),
    NotImplemented,
}

/// The mathematical value of a [`Field`]: the same variants over
/// mathematical strings.
pub enum FieldV {
    Str(Seq<char>),
    I64(i64),
    I32(i32),
    U64(u64),
    U32(u32),
    Date(u64),
    Absent,
}

impl FieldV {
    /// The type tag of this value.
    pub open spec fn tag(self) -> FieldType {
        match self {
            FieldV::Str(_) => FieldType::String,
            FieldV::I64(_) => FieldType::I64,
            FieldV::I32(_) => FieldType::I32,
            FieldV::U64(_) => FieldType::U64,
            FieldV::U32(_) => FieldType::U32,
            FieldV::Date(_) => FieldType::Date,
            FieldV::Absent => FieldType::Absent,
        }
    }

    /// A value is concrete when it is not the absent marker.
    pub open spec fn is_concrete(self) -> bool {
        self.tag() != FieldType::Absent
    }
}

impl View for Field {
    type V = FieldV;

    open spec fn view(&self) -> FieldV {
        match self {
            Field::String(s) => FieldV::Str(s@),
            Field::I64(v) => FieldV::I64(*v),
            Field::I32(v) => FieldV::I32(*v),
            Field::U64(v) => FieldV::U64(*v),
            Field::U32(v) => FieldV::U32(*v),
            Field::Date(v) => FieldV::Date(*v),
            Field::NotImplemented => FieldV::Absent,
        }
    }
}

impl Field {
    /// Returns the type tag of this value.
    pub fn get_type(&self) -> (t: FieldType)
        ensures
            t == self@.tag(),
    {
        match self {
            Field::String(_) => FieldType::String,
            Field::I32(_) => FieldType::I32,
            Field::I64(_) => FieldType::I64,
            Field::U64(_) => FieldType::U64,
            Field::U32(_) => FieldType::U32,
            Field::Date(_) => FieldType::Date,
            Field::NotImplemented => FieldType::Absent,
        }
    }
}

impl Clone for Field {
    /// Cloning keeps the mathematical value.
    fn clone(&self) -> (r: Self)
        ensures
            r@ == self@,
    {
        match self {
            Field::String(s) => Field::String(s.clone()),
            Field::I64(v) => Field::I64(*v),
            Field::I32(v) => Field::I32(*v),
            Field::U64(v) => Field::U64(*v),
            Field::U32(v) => Field::U32(*v),
            Field::Date(v) => Field::Date(*v),
            Field::NotImplemented => Field::NotImplemented,
        }
    }
}

impl PartialEq for Field {
    /// Equality is structural and variant-aware: values of different
    /// variants are never equal.
    fn eq(&self, other: &Self) -> (r: bool) {
        match (self, other) {
            (Field::String(a), Field::String(b)) => String::eq(a, b),
            (Field::I64(a), Field::I64(b)) => a == b,
            (Field::I32(a), Field::I32(b)) => a == b,
            (Field::U64(a), Field::U64(b)) => a == b,
            (Field::U32(a), Field::U32(b)) => a == b,
            (Field::Date(a), Field::Date(b)) => a == b,
            (Field::NotImplemented, Field::NotImplemented) => true,
            _ => false,
        }
    }
}

impl vstd::std_specs::cmp::PartialEqSpecImpl for Field {
    open spec fn obeys_eq_spec() -> bool {
        true
    }

    open spec fn eq_spec(&self, other: &Self) -> bool {
        self@ == other@
    }
}

/// Whether a schema field must be present on every entry (`Required`) or
/// may be omitted (`Optional`); either way it carries the declared type.
#[derive(Clone, Copy, PartialEq, Eq, Structural, Debug)]
pub enum FieldRequirement {
    Required(FieldType),
    Optional(FieldType),
}

impl FieldRequirement {
    /// The declared type, whether required or optional.
    pub open spec fn spec_field_type(self) -> FieldType {
        match self {
            FieldRequirement::Required(t) => t,
            FieldRequirement::Optional(t) => t,
        }
    }

    /// Returns the declared type, whether required or optional.
    pub fn unwrap(&self) -> (t: FieldType)
        ensures
            t == self.spec_field_type(),
    {
        match self {
            FieldRequirement::Required(t) => *t,
            FieldRequirement::Optional(t) => *t,
        }
    }

    /// Whether the field is required.
    pub open spec fn is_required(self) -> bool {
        self is Required
    }
}

} // verus!
