//! The content of a proposal: a tree of named values.

use crate::text::same_text;
use vstd::prelude::*;
use vstd::string::*;

verus! {

/// One value of a proposal's content.
#[derive(Debug, PartialEq, Eq)]
pub enum Payload {
    Null,
    Bool(bool),
    /// A whole number that is not negative.
    Count(u64),
    /// Any other number, by its digits.
    Decimal(String),
    Text(String),
    List(Vec<Payload>),
    Object(Vec<Field>),
}

/// A named member of an object.
#[derive(Debug, PartialEq, Eq)]
pub struct Field {
    pub name: String,
    pub value: Payload,
}

/// The model of a [`Payload`].
pub enum PayloadV {
    Null,
    Bool(bool),
    Count(u64),
    Decimal(Seq<char>),
    Text(Seq<char>),
    List(Seq<PayloadV>),
    Object(Seq<FieldV>),
}

/// The model of a [`Field`].
pub struct FieldV {
    pub name: Seq<char>,
    pub value: PayloadV,
}

pub open spec fn payload_model(p: Payload) -> PayloadV
    decreases p,
{
    match p {
        Payload::Null => PayloadV::Null,
        Payload::Bool(b) => PayloadV::Bool(b),
        Payload::Count(n) => PayloadV::Count(n),
        Payload::Decimal(t) => PayloadV::Decimal(t@),
        Payload::Text(t) => PayloadV::Text(t@),
        Payload::List(items) => PayloadV::List(
            Seq::new(
                items@.len(),
                |i: int|
                    if 0 <= i < items@.len() {
                        payload_model(items@[i])
                    } else {
                        PayloadV::Null
                    },
            ),
        ),
        Payload::Object(fields) => PayloadV::Object(
            Seq::new(
                fields@.len(),
                |i: int|
                    if 0 <= i < fields@.len() {
                        field_model(fields@[i])
                    } else {
                        FieldV { name: Seq::empty(), value: PayloadV::Null }
                    },
            ),
        ),
    }
}

pub open spec fn field_model(f: Field) -> FieldV
    decreases f,
{
    FieldV { name: f.name@, value: payload_model(f.value) }
}

impl DeepView for Payload {
    type V = PayloadV;

    open spec fn deep_view(&self) -> PayloadV {
        payload_model(*self)
    }
}

impl DeepView for Field {
    type V = FieldV;

    open spec fn deep_view(&self) -> FieldV {
        field_model(*self)
    }
}

impl Clone for Payload {
    fn clone(&self) -> (r: Self)
        ensures
            r.deep_view() == self.deep_view(),
        decreases self,
    {
        match self {
            Payload::Null => Payload::Null,
            Payload::Bool(b) => Payload::Bool(*b),
            Payload::Count(n) => Payload::Count(*n),
            Payload::Decimal(t) => Payload::Decimal(t.clone()),
            Payload::Text(t) => Payload::Text(t.clone()),
            Payload::List(items) => {
                let mut out: Vec<Payload> = Vec::new();
                let mut i: usize = 0;
                while i < items.len()
                    invariant
                        i <= items.len(),
                        *self == Payload::List(*items),
                        out@.len() == i,
                        forall|k: int| 0 <= k < i ==> payload_model(#[trigger] out@[k]) == payload_model(items@[k]),
                    decreases items.len() - i,
                {
                    assert(decreases_to!(*self => self->List_0));
                    assert(decreases_to!(self->List_0 => self->List_0@));
                    assert(decreases_to!(self->List_0@ => self->List_0@[i as int]));
                    let item = items[i].clone();
                    out.push(item);
                    i = i + 1;
                }
                let r = Payload::List(out);
                assert(payload_model(r)->List_0 =~= payload_model(*self)->List_0);
                r
            },
            Payload::Object(fields) => {
                let mut out: Vec<Field> = Vec::new();
                let mut i: usize = 0;
                while i < fields.len()
                    invariant
                        i <= fields.len(),
                        *self == Payload::Object(*fields),
                        out@.len() == i,
                        forall|k: int| 0 <= k < i ==> field_model(#[trigger] out@[k]) == field_model(fields@[k]),
                    decreases fields.len() - i,
                {
                    assert(decreases_to!(*self => self->Object_0));
                    assert(decreases_to!(self->Object_0 => self->Object_0@));
                    assert(decreases_to!(self->Object_0@ => self->Object_0@[i as int]));
                    assert(decreases_to!(self->Object_0@[i as int] => self->Object_0@[i as int].value));
                    let value = fields[i].value.clone();
                    out.push(Field { name: fields[i].name.clone(), value });
                    i = i + 1;
                }
                let r = Payload::Object(out);
                assert(payload_model(r)->Object_0 =~= payload_model(*self)->Object_0);
                r
            },
        }
    }
}

impl Clone for Field {
    fn clone(&self) -> (r: Self)
        ensures
            r.deep_view() == self.deep_view(),
    {
        Field { name: self.name.clone(), value: self.value.clone() }
    }
}

/// The first member of that name.
pub open spec fn field_of(fields: Seq<FieldV>, name: Seq<char>) -> Option<PayloadV>
    decreases fields.len(),
{
    if fields.len() == 0 {
        None
    } else if fields[0].name == name {
        Some(fields[0].value)
    } else {
        field_of(fields.skip(1), name)
    }
}

impl PayloadV {
    /// The text under `name`, where there is one.
    pub open spec fn text(self, name: Seq<char>) -> Option<Seq<char>> {
        match self {
            PayloadV::Object(fields) => match field_of(fields, name) {
                Some(PayloadV::Text(t)) => Some(t),
                _ => None,
            },
            _ => None,
        }
    }

    /// The count under `name`, where there is one.
    pub open spec fn count(self, name: Seq<char>) -> Option<u64> {
        match self {
            PayloadV::Object(fields) => match field_of(fields, name) {
                Some(PayloadV::Count(n)) => Some(n),
                _ => None,
            },
            _ => None,
        }
    }

    /// Is the `op` member the text `op`?
    pub open spec fn has_op(self, op: Seq<char>) -> bool {
        self.text("op"@) == Some(op)
    }

    /// The `value` member's text; empty where there is none.
    pub open spec fn value_text(self) -> Seq<char> {
        match self.text("value"@) {
            Some(t) => t,
            None => Seq::empty(),
        }
    }
}

impl Payload {
    /// The member of that name.
    pub fn member(&self, name: &str) -> (r: Option<&Payload>)
        ensures
            match (r, self.deep_view()) {
                (Some(v), PayloadV::Object(fields)) => field_of(fields, name@) == Some(
                    v.deep_view(),
                ),
                (None, PayloadV::Object(fields)) => field_of(fields, name@) is None,
                (Some(v), _) => false,
                (None, _) => true,
            },
    {
        match self {
            Payload::Object(fields) => {
                let ghost all = self.deep_view()->Object_0;
                assert(all.skip(0) =~= all);
                let mut i: usize = 0;
                while i < fields.len()
                    invariant
                        i <= fields.len(),
                        *self == Payload::Object(*fields),
                        all == self.deep_view()->Object_0,
                        field_of(all, name@) == field_of(all.skip(i as int), name@),
                    decreases fields.len() - i,
                {
                    assert(all.skip(i as int)[0] == all[i as int]);
                    assert(all[i as int] == field_model(fields@[i as int]));
                    if same_text(fields[i].name.as_str(), name) {
                        return Some(&fields[i].value);
                    }
                    assert(all.skip(i as int).skip(1) =~= all.skip(i + 1));
                    i = i + 1;
                }
                assert(all.skip(i as int) =~= Seq::empty());
                None
            },
            _ => None,
        }
    }

    /// The text under `name`, where there is one.
    pub fn text(&self, name: &str) -> (r: Option<&String>)
        ensures
            match r {
                Some(t) => self.deep_view().text(name@) == Some(t@),
                None => self.deep_view().text(name@) is None,
            },
    {
        match self.member(name) {
            Some(Payload::Text(t)) => Some(t),
            _ => None,
        }
    }

    /// The count under `name`, where there is one.
    pub fn count(&self, name: &str) -> (r: Option<u64>)
        ensures
            r == self.deep_view().count(name@),
    {
        match self.member(name) {
            Some(Payload::Count(n)) => Some(*n),
            _ => None,
        }
    }

    /// Is the `op` member the text `op`?
    pub fn has_op(&self, op: &str) -> (r: bool)
        ensures
            r == self.deep_view().has_op(op@),
    {
        match self.text("op") {
            Some(t) => same_text(t.as_str(), op),
            None => false,
        }
    }

    /// The `value` member's text; empty where there is none.
    pub fn value_text(&self) -> (r: String)
        ensures
            r@ == self.deep_view().value_text(),
    {
        match self.text("value") {
            Some(t) => t.clone(),
            None => String::new(),
        }
    }
}

/// What is read under a name is the value of the first member of that name, and
/// nothing where there is none.
pub proof fn a_member_reads_as_the_first_of_its_name(
    fields: Seq<FieldV>,
    name: Seq<char>,
    i: int,
)
    ensures
        0 <= i < fields.len() && fields[i].name == name && (forall|j: int|
            0 <= j < i ==> (#[trigger] fields[j]).name != name) ==> field_of(fields, name) == Some(
            fields[i].value,
        ),
        (forall|j: int| 0 <= j < fields.len() ==> (#[trigger] fields[j]).name != name) ==> field_of(
            fields,
            name,
        ) is None,
    decreases fields.len(),
{
    if fields.len() > 0 {
        let rest = fields.skip(1);
        a_member_reads_as_the_first_of_its_name(rest, name, i - 1);
        if forall|j: int| 0 <= j < fields.len() ==> (#[trigger] fields[j]).name != name {
            assert(fields[0].name != name);
            assert forall|j: int| 0 <= j < rest.len() implies (#[trigger] rest[j]).name != name by {
                assert(rest[j] == fields[j + 1]);
            }
        }
        if 0 < i < fields.len() && fields[i].name == name && (forall|j: int|
            0 <= j < i ==> (#[trigger] fields[j]).name != name) {
            assert(fields[0].name != name);
            assert(rest[i - 1] == fields[i]);
            assert forall|j: int| 0 <= j < i - 1 implies (#[trigger] rest[j]).name != name by {
                assert(rest[j] == fields[j + 1]);
            }
        }
    }
}

/// A text is read where the member is a text, and a count where it is a count;
/// a payload that is no object has neither.
pub proof fn a_payload_reads_as_it_is_written(fields: Seq<FieldV>, name: Seq<char>, t: Seq<char>)
    ensures
        field_of(fields, name) matches Some(PayloadV::Text(x)) ==> PayloadV::Object(fields).text(
            name,
        ) == Some(x) && PayloadV::Object(fields).count(name) is None,
        field_of(fields, name) matches Some(PayloadV::Count(n)) ==> PayloadV::Object(fields).count(
            name,
        ) == Some(n) && PayloadV::Object(fields).text(name) is None,
        field_of(fields, name) is None ==> PayloadV::Object(fields).text(name) is None
            && PayloadV::Object(fields).count(name) is None,
        PayloadV::Text(t).text(name) is None,
        forall|op: Seq<char>| #[trigger]
            PayloadV::Object(fields).has_op(op) <==> PayloadV::Object(fields).text("op"@) == Some(
                op,
            ),
        PayloadV::Object(fields).text("value"@) matches Some(x) ==> PayloadV::Object(
            fields,
        ).value_text() == x,
        PayloadV::Object(fields).text("value"@) is None ==> PayloadV::Object(
            fields,
        ).value_text().len() == 0,
{
}

} // verus!
