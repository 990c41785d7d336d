//! The data model of the record store: a record is a named mapping from
//! field names to typed scalar values. The pipeline only reads records.

use crate::utils::str_eq;
use vstd::prelude::*;

verus! {

/// A typed scalar field value. Compound store data that is not a scalar is
/// carried as `Null`, the absent-like variant.
#[derive(Debug, PartialEq, Eq)]
pub enum Value {
    Str(String),
    Num(usize),
    Bool(bool),
    Null,
}

/// The mathematical model of a `Value`.
pub enum ValueView {
    Str(Seq<char>),
    Num(nat),
    Bool(bool),
    Null,
}

impl View for Value {
    type V = ValueView;

    open spec fn view(&self) -> ValueView {
        match self {
            Value::Str(s) => ValueView::Str(s@),
            Value::Num(n) => ValueView::Num(*n as nat),
            Value::Bool(b) => ValueView::Bool(*b),
            Value::Null => ValueView::Null,
        }
    }
}

impl Clone for Value {
    fn clone(&self) -> (r: Value)
        ensures
            r@ == self@,
    {
        match self {
            Value::Str(s) => Value::Str(s.clone()),
            Value::Num(n) => Value::Num(*n),
            Value::Bool(b) => Value::Bool(*b),
            Value::Null => Value::Null,
        }
    }
}

/// One stored item: its identifier, the collection it lives in, its source
/// file name, and its named fields.
#[derive(Debug, PartialEq, Eq)]
pub struct Record {
    pub id: String,
    pub collection: String,
    pub file_name: String,
    pub fields: Vec<(String, Value)>,
}

/// The mathematical model of a `Record`.
pub struct RecordView {
    pub id: Seq<char>,
    pub collection: Seq<char>,
    pub file_name: Seq<char>,
    pub fields: Seq<(Seq<char>, ValueView)>,
}

impl View for Record {
    type V = RecordView;

    open spec fn view(&self) -> RecordView {
        RecordView {
            id: self.id@,
            collection: self.collection@,
            file_name: self.file_name@,
            fields: self.fields@.map_values(|p: (String, Value)| (p.0@, p.1@)),
        }
    }
}

/// The value bound to `key` in `fields`: the first entry with that name, or
/// `None` when no entry has it.
pub open spec fn field_lookup(fields: Seq<(Seq<char>, ValueView)>, key: Seq<char>) -> Option<
    ValueView,
>
    decreases fields.len(),
{
    if fields.len() == 0 {
        None
    } else if fields[0].0 == key {
        Some(fields[0].1)
    } else {
        field_lookup(fields.drop_first(), key)
    }
}

impl RecordView {
    /// The value of the field named `key`, if the record has one.
    pub open spec fn get(self, key: Seq<char>) -> Option<ValueView> {
        field_lookup(self.fields, key)
    }
}

impl Record {
    /// The value of the field named `key`, if this record has one.
    pub fn get<'a>(&'a self, key: &str) -> (r: Option<&'a Value>)
        ensures
            match r {
                Some(v) => self@.get(key@) == Some(v@),
                None => self@.get(key@) is None,
            },
    {
        let n = self.fields.len();
        let mut i: usize = 0;
        proof {
            assert(self@.fields.skip(0) =~= self@.fields);
        }
        while i < n
            invariant
                i <= n,
                n == self.fields@.len(),
                self@.fields.len() == n,
                forall|j: int|
                    0 <= j < n ==> self@.fields[j] == (self.fields@[j].0@, self.fields@[j].1@),
                field_lookup(self@.fields, key@) == field_lookup(
                    self@.fields.skip(i as int),
                    key@,
                ),
            decreases n - i,
        {
            proof {
                assert(self@.fields.skip(i as int)[0] == self@.fields[i as int]);
            }
            if str_eq(self.fields[i].0.as_str(), key) {
                return Some(&self.fields[i].1);
            }
            proof {
                assert(self@.fields.skip(i as int).drop_first() =~= self@.fields.skip(i as int + 1));
            }
            i += 1;
        }
        None
    }
}

/// Copies a record's field list entry by entry.
fn clone_fields(fields: &Vec<(String, Value)>) -> (r: Vec<(String, Value)>)
    ensures
        r@.map_values(|p: (String, Value)| (p.0@, p.1@)) == fields@.map_values(
            |p: (String, Value)| (p.0@, p.1@),
        ),
{
    let mut out: Vec<(String, Value)> = Vec::new();
    let n = fields.len();
    let mut i: usize = 0;
    while i < n
        invariant
            i <= n,
            n == fields@.len(),
            out@.len() == i,
            forall|j: int|
                0 <= j < i ==> (#[trigger] out@[j].0@, out@[j].1@) == (
                    fields@[j].0@,
                    fields@[j].1@,
                ),
        decreases n - i,
    {
        let name = fields[i].0.clone();
        let val = fields[i].1.clone();
        out.push((name, val));
        i += 1;
    }
    proof {
        assert(out@.map_values(|p: (String, Value)| (p.0@, p.1@)) =~= fields@.map_values(
            |p: (String, Value)| (p.0@, p.1@),
        ));
    }
    out
}

impl Clone for Record {
    fn clone(&self) -> (r: Record)
        ensures
            r@ == self@,
    {
        Record {
            id: self.id.clone(),
            collection: self.collection.clone(),
            file_name: self.file_name.clone(),
            fields: clone_fields(&self.fields),
        }
    }
}

/// A field value the lookup returns is one of the record's field values.
pub proof fn lemma_field_lookup_in(fields: Seq<(Seq<char>, ValueView)>, key: Seq<char>)
    ensures
        field_lookup(fields, key) matches Some(v) ==> exists|i: int|
            0 <= i < fields.len() && fields[i].1 == v,
    decreases fields.len(),
{
    if fields.len() > 0 {
        if fields[0].0 == key {
            assert(field_lookup(fields, key) matches Some(v) ==> fields[0].1 == v);
        } else {
            lemma_field_lookup_in(fields.drop_first(), key);
            if field_lookup(fields, key) is Some {
                let v = field_lookup(fields, key)->Some_0;
                let i = choose|i: int|
                    0 <= i < fields.drop_first().len() && fields.drop_first()[i].1 == v;
                assert(fields[i + 1].1 == v);
            }
        }
    }
}

/// The models of a sequence of records.
pub open spec fn views_of(s: Seq<Record>) -> Seq<RecordView> {
    s.map_values(|r: Record| r@)
}

/// Copies a record list entry by entry.
pub fn clone_records(records: &Vec<Record>) -> (r: Vec<Record>)
    ensures
        views_of(r@) == views_of(records@),
{
    let mut out: Vec<Record> = Vec::new();
    let n = records.len();
    let mut i: usize = 0;
    while i < n
        invariant
            i <= n,
            n == records@.len(),
            out@.len() == i,
            forall|j: int| 0 <= j < i ==> (#[trigger] out@[j])@ == records@[j]@,
        decreases n - i,
    {
        out.push(records[i].clone());
        i += 1;
    }
    proof {
        assert(views_of(out@) =~= views_of(records@));
    }
    out
}

} // verus!
