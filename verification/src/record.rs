//! One collected record, and the report that is written from the records.

use crate::text::{decimal, decimal_digits, is_trimmed, lemma_trimmed_shape, trim, trimmed};
use vstd::prelude::*;

verus! {

/// What a record holds, as plain values: the model that contracts speak of.
pub struct RecordView {
    pub name: Seq<char>,
    pub species: Seq<char>,
    pub age: u8,
}

/// A name, a species and an age.
///
/// A record does not change once it is made, and neither its name nor its
/// species starts or ends with whitespace. Either of them may be empty.
#[derive(Debug, PartialEq, Eq)]
pub struct Record {
    name: String,
    species: String,
    age: u8,
}

impl View for Record {
    type V = RecordView;

    closed spec fn view(&self) -> RecordView {
        RecordView { name: self.name@, species: self.species@, age: self.age }
    }
}

impl Clone for Record {
    fn clone(&self) -> (r: Record)
        ensures
            r@ == self@,
    {
        proof {
            use_type_invariant(self);
        }
        Record { name: self.name.clone(), species: self.species.clone(), age: self.age }
    }
}

impl DeepView for Record {
    type V = RecordView;

    open spec fn deep_view(&self) -> RecordView {
        self@
    }
}

/// The line that reports `r`: `<name> is a <species> and is <age> years old`.
pub open spec fn report_text(r: RecordView) -> Seq<char> {
    r.name + " is a "@ + r.species + " and is "@ + decimal_digits(r.age as nat) + " years old"@
}

/// The report of `records`: one line for each, in their order.
pub open spec fn report_texts(records: Seq<RecordView>) -> Seq<Seq<char>> {
    Seq::new(records.len(), |i: int| report_text(records[i]))
}

impl Record {
    #[verifier::type_invariant]
    spec fn well_formed(self) -> bool {
        is_trimmed(self.name@) && is_trimmed(self.species@)
    }

    /// Makes a record. The whitespace at the ends of `name` and of `species`
    /// is left out.
    pub fn new(name: &str, species: &str, age: u8) -> (r: Record)
        ensures
            r@ == (RecordView { name: trimmed(name@), species: trimmed(species@), age }),
    {
        proof {
            lemma_trimmed_shape(name@);
            lemma_trimmed_shape(species@);
        }
        Record { name: trim(name).to_owned(), species: trim(species).to_owned(), age }
    }

    /// Makes a record of a name and a species that are trimmed already.
    pub(crate) fn from_trimmed(name: String, species: String, age: u8) -> (r: Record)
        requires
            is_trimmed(name@),
            is_trimmed(species@),
        ensures
            r@ == (RecordView { name: name@, species: species@, age }),
    {
        Record { name, species, age }
    }

    /// The name, which has no whitespace at its ends.
    pub fn name(&self) -> (name: &str)
        ensures
            name@ == self@.name,
            is_trimmed(name@),
    {
        proof {
            use_type_invariant(self);
        }
        self.name.as_str()
    }

    /// The species, which has no whitespace at its ends.
    pub fn species(&self) -> (species: &str)
        ensures
            species@ == self@.species,
            is_trimmed(species@),
    {
        proof {
            use_type_invariant(self);
        }
        self.species.as_str()
    }

    /// The age.
    pub fn age(&self) -> (age: u8)
        ensures
            age == self@.age,
    {
        self.age
    }

    /// Writes the line that reports this record.
    pub fn report_line(&self) -> (line: String)
        ensures
            line@ == report_text(self@),
    {
        let mut line = self.name.clone();
        line.append(" is a ");
        line.append(self.species.as_str());
        line.append(" and is ");
        line.append(decimal(self.age).as_str());
        line.append(" years old");
        line
    }
}

/// Writes the report: one line for each record, in the order of `records`.
pub fn report(records: &Vec<Record>) -> (lines: Vec<String>)
    ensures
        lines.deep_view() == report_texts(records.deep_view()),
{
    let mut lines: Vec<String> = Vec::new();
    let mut i: usize = 0;
    while i < records.len()
        invariant
            i <= records.len(),
            lines.len() == i,
            forall|j: int| 0 <= j < i ==> (#[trigger] lines[j])@ == report_text(records[j]@),
        decreases records.len() - i,
    {
        lines.push(records[i].report_line());
        i = i + 1;
    }
    assert(lines.deep_view() =~= report_texts(records.deep_view()));
    lines
}

} // verus!
