//! A closure the pipeline runs as a step of its own.

use vstd::prelude::*;

use crate::sorted;
use crate::sorted::{Fields, Names};
use crate::status::Status;
use crate::value::Value;

verus! {

/// Rust to run in place of a command. Only its wall clock is measured, and it
/// takes neither a timeout nor a core count.
pub struct Closure<F> {
    pub name: String,
    pub fields: Fields,
    pub tags: Names,
    pub status: Status,
    /// The body, `None` once it has run.
    pub f: Option<F>,
}

impl<F> Closure<F> {
    /// Whether what is kept under names is kept in their order.
    pub open spec fn well_formed(&self) -> bool {
        &&& self.fields.well_formed()
        &&& self.tags.well_formed()
    }

    /// A closure named `name` that runs `f`.
    pub fn new(name: impl Value, f: F) -> (r: Closure<F>)
        ensures
            r.name@ == name.text(),
            r.fields@.len() == 0,
            r.tags@.len() == 0,
            r.status == Status::NotRun,
            r.f == Some(f),
            r.well_formed(),
    {
        Closure {
            name: name.render(),
            fields: Fields::new(),
            tags: Names::new(),
            status: Status::NotRun,
            f: Some(f),
        }
    }

    pub fn field(self, key: impl Value, value: impl Value) -> (r: Closure<F>)
        ensures
            r.fields@ == sorted::put(self.fields@, key.text(), value.text()),
            r == (Closure { fields: r.fields, ..self }),
            self.well_formed() ==> r.well_formed(),
    {
        let mut closure = self;
        closure.fields.insert(key.render(), value.render());
        closure
    }

    pub fn tag(self, tag: impl Value) -> (r: Closure<F>)
        ensures
            r.tags@ == sorted::named(self.tags@, tag.text()),
            r == (Closure { tags: r.tags, ..self }),
            self.well_formed() ==> r.well_formed(),
    {
        let mut closure = self;
        closure.tags.insert(tag.render());
        closure
    }

    pub fn label(&self) -> (s: &str)
        ensures
            s@ == self.name@,
    {
        self.name.as_str()
    }

    pub fn status(&self) -> (r: &Status)
        ensures
            *r == self.status,
    {
        &self.status
    }

    pub fn fields(&self) -> (r: &Fields)
        ensures
            *r == self.fields,
    {
        &self.fields
    }

    pub fn tags(&self) -> (r: &Names)
        ensures
            *r == self.tags,
    {
        &self.tags
    }
}

} // verus!
