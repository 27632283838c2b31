//! The collection loop as a state machine: it is fed one line of input at a
//! time, and says after each what it waits for next.
//!
//! One round is a name, a species, an age and an answer to the question
//! whether to go on. The first round is always asked for. An age that is no
//! number below 256 is refused; the line can then be given again, or the run
//! given up, as `collect` does.

use crate::record::{Record, RecordView};
use crate::text::{
    eq_ignore_ascii_case, eq_ignoring_ascii_case, is_trimmed, lemma_trimmed_shape, parse_u8,
    parsed_u8, same_ignoring_ascii_case, trim, trimmed,
};
use vstd::prelude::*;

verus! {

/// What a line of input is asked for.
#[derive(Clone, Copy, Debug, PartialEq, Eq, Structural)]
pub enum Field {
    Name,
    Species,
    Age,
    Continue,
}

/// Why collecting stopped without a result.
#[derive(Clone, Copy, Debug, PartialEq, Eq, Structural)]
pub enum Failure {
    /// The input ended where a line for this field was needed.
    EndOfInput(Field),
    /// The line given for the age is no number from 0 to 255.
    InvalidAge,
}

/// The state of a collection, as plain values: the records so far, the name
/// and species of the record that is being entered, and the field that the
/// next line is for (`None` once the collection is done).
pub struct Session {
    pub records: Seq<RecordView>,
    pub name: Seq<char>,
    pub species: Seq<char>,
    pub awaiting: Option<Field>,
}

/// The state in which every collection starts: nothing collected, and the
/// first name awaited.
pub open spec fn start() -> Session {
    Session {
        records: Seq::empty(),
        name: Seq::empty(),
        species: Seq::empty(),
        awaiting: Some(Field::Name),
    }
}

/// Whether `answer` is `no`, in any mix of upper and lower case.
pub open spec fn is_stop_word(answer: Seq<char>) -> bool {
    eq_ignoring_ascii_case(answer, seq!['n', 'o'])
}

/// Whether `line` is taken in state `s`: every line is, but an age that does
/// not parse.
pub open spec fn accepts(s: Session, line: Seq<char>) -> bool {
    s.awaiting == Some(Field::Age) ==> parsed_u8(trimmed(line)) is Some
}

/// The state that follows `s` when `line` is read. A line that is not taken
/// leaves the state as it is, and so does any line once the collection is
/// done.
pub open spec fn after(s: Session, line: Seq<char>) -> Session {
    let text = trimmed(line);
    match s.awaiting {
        Some(Field::Name) => Session { name: text, awaiting: Some(Field::Species), ..s },
        Some(Field::Species) => Session { species: text, awaiting: Some(Field::Age), ..s },
        Some(Field::Age) => match parsed_u8(text) {
            Some(age) => Session {
                records: s.records.push(RecordView { name: s.name, species: s.species, age }),
                name: Seq::empty(),
                species: Seq::empty(),
                awaiting: Some(Field::Continue),
            },
            None => s,
        },
        Some(Field::Continue) => Session {
            awaiting: if is_stop_word(text) {
                None
            } else {
                Some(Field::Name)
            },
            ..s
        },
        None => s,
    }
}

/// Where reading `lines` from state `s` ends: in the state that is done, or
/// with the first failure. Lines after the stop word are not read.
pub open spec fn run(s: Session, lines: Seq<Seq<char>>) -> Result<Session, Failure>
    decreases lines.len(),
{
    match s.awaiting {
        None => Ok(s),
        Some(field) => if lines.len() == 0 {
            Err(Failure::EndOfInput(field))
        } else if !accepts(s, lines.first()) {
            Err(Failure::InvalidAge)
        } else {
            run(after(s, lines.first()), lines.drop_first())
        },
    }
}

/// The records that a whole input gives, or the failure that ends it.
pub open spec fn collected(lines: Seq<Seq<char>>) -> Result<Seq<RecordView>, Failure> {
    match run(start(), lines) {
        Ok(s) => Ok(s.records),
        Err(e) => Err(e),
    }
}

/// The text that asks for a field.
pub open spec fn prompt_text(field: Field) -> Seq<char> {
    match field {
        Field::Name => "What is their name?: "@,
        Field::Species => "What kind of animal are they?: "@,
        Field::Age => "How old are they?: "@,
        Field::Continue => "Do you wish to continue?: "@,
    }
}

/// The words that tell a user of a failure: which field it was that the input
/// ended at, or that the age was no number.
pub open spec fn failure_text(failure: Failure) -> Seq<char> {
    match failure {
        Failure::EndOfInput(Field::Name) => "the input ended where a name was expected"@,
        Failure::EndOfInput(Field::Species) => "the input ended where a species was expected"@,
        Failure::EndOfInput(Field::Age) => "the input ended where an age was expected"@,
        Failure::EndOfInput(Field::Continue) =>
            "the input ended where an answer to the question whether to continue was expected"@,
        Failure::InvalidAge => "the age has to be a whole number from 0 to 255"@,
    }
}

impl Field {
    /// The text that asks for this field.
    pub fn prompt(&self) -> (text: &'static str)
        ensures
            text@ == prompt_text(*self),
    {
        match self {
            Field::Name => "What is their name?: ",
            Field::Species => "What kind of animal are they?: ",
            Field::Age => "How old are they?: ",
            Field::Continue => "Do you wish to continue?: ",
        }
    }
}

impl Failure {
    /// The words that tell a user of this failure.
    pub fn message(&self) -> (text: &'static str)
        ensures
            text@ == failure_text(*self),
    {
        match self {
            Failure::EndOfInput(Field::Name) => "the input ended where a name was expected",
            Failure::EndOfInput(Field::Species) => "the input ended where a species was expected",
            Failure::EndOfInput(Field::Age) => "the input ended where an age was expected",
            Failure::EndOfInput(Field::Continue) =>
                "the input ended where an answer to the question whether to continue was expected",
            Failure::InvalidAge => "the age has to be a whole number from 0 to 255",
        }
    }
}

/// Tells whether `answer` is the word that ends the collection.
pub fn is_stop(answer: &str) -> (stop: bool)
    ensures
        stop == is_stop_word(answer@),
{
    proof {
        reveal_strlit("no");
        assert("no"@ =~= seq!['n', 'o']);
    }
    eq_ignore_ascii_case(answer, "no")
}

/// The name and the species of the record that is being entered, both
/// without whitespace at their ends.
struct Draft {
    name: String,
    species: String,
}

impl Draft {
    #[verifier::type_invariant]
    spec fn well_formed(self) -> bool {
        is_trimmed(self.name@) && is_trimmed(self.species@)
    }

    fn new() -> (d: Draft)
        ensures
            d.name@ == Seq::<char>::empty(),
            d.species@ == Seq::<char>::empty(),
    {
        Draft { name: String::new(), species: String::new() }
    }
}

/// A collection in progress.
pub struct Collector {
    records: Vec<Record>,
    draft: Draft,
    awaiting: Option<Field>,
}

impl View for Collector {
    type V = Session;

    closed spec fn view(&self) -> Session {
        Session {
            records: self.records.deep_view(),
            name: self.draft.name@,
            species: self.draft.species@,
            awaiting: self.awaiting,
        }
    }
}

impl Collector {
    /// Starts a collection.
    pub fn new() -> (c: Collector)
        ensures
            c@ == start(),
    {
        let c = Collector {
            records: Vec::new(),
            draft: Draft::new(),
            awaiting: Some(Field::Name),
        };
        assert(c@.records =~= start().records);
        c
    }

    /// The field that the next line is for, or `None` when the collection is
    /// done.
    pub fn awaiting(&self) -> (field: Option<Field>)
        ensures
            field == self@.awaiting,
    {
        self.awaiting
    }

    /// Whether the collection is done.
    pub fn is_done(&self) -> (done: bool)
        ensures
            done == (self@.awaiting is None),
    {
        self.awaiting.is_none()
    }

    /// The records collected so far, in the order in which they were entered.
    pub fn records(&self) -> (records: &Vec<Record>)
        ensures
            records.deep_view() == self@.records,
    {
        &self.records
    }

    /// Ends the collection and hands out its records.
    pub fn into_records(self) -> (records: Vec<Record>)
        ensures
            records.deep_view() == self@.records,
    {
        self.records
    }

    /// Reads one line of input, for the field that is awaited.
    ///
    /// The whitespace at the ends of the line, its line terminator with it, is
    /// left out. An age that is no number is refused with `InvalidAge`, and
    /// the collector then still waits for the age, with the name and the
    /// species that were entered. Once the collection is done, a line changes
    /// nothing.
    pub fn feed(&mut self, line: &str) -> (r: Result<(), Failure>)
        ensures
            final(self)@ == after(old(self)@, line@),
            r == (if accepts(old(self)@, line@) {
                Ok::<(), Failure>(())
            } else {
                Err(Failure::InvalidAge)
            }),
    {
        proof {
            use_type_invariant(&self.draft);
            lemma_trimmed_shape(line@);
        }
        let text = trim(line);
        match self.awaiting {
            Some(Field::Name) => {
                self.draft.name = text.to_owned();
                self.awaiting = Some(Field::Species);
                Ok(())
            },
            Some(Field::Species) => {
                self.draft.species = text.to_owned();
                self.awaiting = Some(Field::Age);
                Ok(())
            },
            Some(Field::Age) => match parse_u8(text) {
                Some(age) => {
                    let ghost before = self.records.deep_view();
                    let mut draft = Draft::new();
                    core::mem::swap(&mut self.draft, &mut draft);
                    proof {
                        use_type_invariant(&draft);
                    }
                    let record = Record::from_trimmed(draft.name, draft.species, age);
                    self.records.push(record);
                    self.awaiting = Some(Field::Continue);
                    assert(self.records.deep_view() =~= before.push(record@));
                    Ok(())
                },
                None => Err(Failure::InvalidAge),
            },
            Some(Field::Continue) => {
                self.awaiting = if is_stop(text) {
                    None
                } else {
                    Some(Field::Name)
                };
                Ok(())
            },
            None => Ok(()),
        }
    }
}

/// Collects the records that `lines` hold, each entry being one line of
/// input: a name, a species, an age and an answer, round after round, until
/// an answer is the stop word.
///
/// The first failure ends the collection: an age that is no number, or the
/// end of `lines` before the stop word.
pub fn collect(lines: &Vec<String>) -> (r: Result<Vec<Record>, Failure>)
    ensures
        match r {
            Ok(records) => collected(lines.deep_view()) == Ok::<Seq<RecordView>, Failure>(
                records.deep_view(),
            ),
            Err(failure) => collected(lines.deep_view()) == Err::<Seq<RecordView>, Failure>(
                failure,
            ),
        },
{
    let ghost input = lines.deep_view();
    let mut collector = Collector::new();
    let mut i: usize = 0;
    assert(input.skip(0) =~= input);
    loop
        invariant
            i <= lines.len(),
            input == lines.deep_view(),
            run(start(), input) == run(collector@, input.skip(i as int)),
        decreases lines.len() - i,
    {
        match collector.awaiting() {
            None => {
                return Ok(collector.into_records());
            },
            Some(field) => {
                if i == lines.len() {
                    return Err(Failure::EndOfInput(field));
                }
                proof {
                    let rest = input.skip(i as int);
                    assert(rest.first() == lines[i as int]@);
                    assert(rest.drop_first() =~= input.skip(i + 1));
                }
                match collector.feed(lines[i].as_str()) {
                    Ok(()) => {},
                    Err(failure) => {
                        return Err(failure);
                    },
                }
                i = i + 1;
            },
        }
    }
}

/// The stop word has four spellings, and nothing else is taken for it.
pub proof fn lemma_stop_word_spellings(answer: Seq<char>)
    ensures
        is_stop_word(answer) <==> (answer == seq!['n', 'o'] || answer == seq!['N', 'o'] || answer
            == seq!['n', 'O'] || answer == seq!['N', 'O']),
{
    let word = seq!['n', 'o'];
    if is_stop_word(answer) {
        assert(same_ignoring_ascii_case(answer[0], word[0]));
        assert(same_ignoring_ascii_case(answer[1], word[1]));
        assert(answer[0] == 'n' || answer[0] == 'N');
        assert(answer[1] == 'o' || answer[1] == 'O');
        if answer[0] == 'n' && answer[1] == 'o' {
            assert(answer =~= seq!['n', 'o']);
        } else if answer[0] == 'N' && answer[1] == 'o' {
            assert(answer =~= seq!['N', 'o']);
        } else if answer[0] == 'n' && answer[1] == 'O' {
            assert(answer =~= seq!['n', 'O']);
        } else {
            assert(answer =~= seq!['N', 'O']);
        }
    }
}

/// Whether a state that is done, or asks whether to go on, holds a record.
pub open spec fn has_record_when_asked(s: Session) -> bool {
    (s.awaiting is None || s.awaiting == Some(Field::Continue)) ==> s.records.len() >= 1
}

/// A collection cannot be done before it holds a record: the question whether
/// to go on is only asked after a record, and no line of input takes a record
/// away. This holds at the start and is kept by every line that is read.
pub proof fn lemma_done_needs_a_record(s: Session, line: Seq<char>)
    ensures
        has_record_when_asked(start()),
        has_record_when_asked(s) ==> has_record_when_asked(after(s, line)),
        after(s, line).records.len() >= s.records.len(),
{
}

/// A line that is refused changes nothing: the field is still awaited, and
/// what was entered before is kept.
pub proof fn lemma_refused_line_changes_nothing(s: Session, line: Seq<char>)
    requires
        !accepts(s, line),
    ensures
        after(s, line) == s,
        s.awaiting == Some(Field::Age),
{
}

/// The line that gives the name in round `round` of `lines`, rounds being
/// counted from 0.
pub open spec fn name_line(lines: Seq<Seq<char>>, round: int) -> Seq<char> {
    lines[4 * round]
}

/// The line that gives the species in round `round` of `lines`.
pub open spec fn species_line(lines: Seq<Seq<char>>, round: int) -> Seq<char> {
    lines[4 * round + 1]
}

/// The line that gives the age in round `round` of `lines`.
pub open spec fn age_line(lines: Seq<Seq<char>>, round: int) -> Seq<char> {
    lines[4 * round + 2]
}

/// The line that answers, at the end of round `round` of `lines`, whether to
/// go on.
pub open spec fn answer_line(lines: Seq<Seq<char>>, round: int) -> Seq<char> {
    lines[4 * round + 3]
}

/// Whether `lines` starts with `rounds` rounds that are complete: there is at
/// least one, the age of each is a number, and the answer of the last, and of
/// no round before it, is the stop word. What follows them does not matter.
pub open spec fn is_complete_input(lines: Seq<Seq<char>>, rounds: nat) -> bool {
    &&& rounds >= 1
    &&& lines.len() >= 4 * rounds
    &&& forall|j: int| 0 <= j < rounds ==> parsed_u8(trimmed(#[trigger] age_line(lines, j))) is Some
    &&& forall|j: int|
        0 <= j < rounds ==> (is_stop_word(trimmed(#[trigger] answer_line(lines, j))) <==> j
            == rounds - 1)
}

/// The record that round `round` of `lines` enters: the name and the species
/// as they were typed, without the whitespace at their ends, and the age as
/// the number that was typed.
pub open spec fn entered_record(lines: Seq<Seq<char>>, round: int) -> RecordView {
    RecordView {
        name: trimmed(name_line(lines, round)),
        species: trimmed(species_line(lines, round)),
        age: parsed_u8(trimmed(age_line(lines, round))).unwrap(),
    }
}

/// The records that the first `rounds` rounds of `lines` enter, in their
/// order.
pub open spec fn entered_records(lines: Seq<Seq<char>>, rounds: nat) -> Seq<RecordView> {
    Seq::new(rounds, |j: int| entered_record(lines, j))
}

/// The state in which a collection that started in `s` is done after `rounds`
/// rounds of `lines`.
spec fn done_after(s: Session, lines: Seq<Seq<char>>, rounds: nat) -> Session {
    Session {
        records: s.records + entered_records(lines, rounds),
        name: Seq::empty(),
        species: Seq::empty(),
        awaiting: None,
    }
}

/// Round `j` of what follows the first round is round `j + 1` of the whole.
proof fn lemma_later_rounds(lines: Seq<Seq<char>>, j: int)
    requires
        0 <= j,
        lines.len() >= 4 * (j + 2),
    ensures
        name_line(lines.skip(4), j) == name_line(lines, j + 1),
        species_line(lines.skip(4), j) == species_line(lines, j + 1),
        age_line(lines.skip(4), j) == age_line(lines, j + 1),
        answer_line(lines.skip(4), j) == answer_line(lines, j + 1),
        entered_record(lines.skip(4), j) == entered_record(lines, j + 1),
{
}

/// Reading one round from a state that awaits a name: the state that follows,
/// if the age of the round is a number.
proof fn lemma_one_round(s: Session, lines: Seq<Seq<char>>)
    requires
        s.awaiting == Some(Field::Name),
        lines.len() >= 4,
        parsed_u8(trimmed(age_line(lines, 0))) is Some,
    ensures
        run(s, lines) == run(
            Session {
                records: s.records.push(entered_record(lines, 0)),
                name: Seq::empty(),
                species: Seq::empty(),
                awaiting: if is_stop_word(trimmed(answer_line(lines, 0))) {
                    None
                } else {
                    Some(Field::Name)
                },
            },
            lines.skip(4),
        ),
{
    let l1 = lines.drop_first();
    let l2 = l1.drop_first();
    let l3 = l2.drop_first();
    let s1 = after(s, lines.first());
    let s2 = after(s1, l1.first());
    let s3 = after(s2, l2.first());
    assert(l1.first() == lines[1] && l2.first() == lines[2] && l3.first() == lines[3]);
    assert(l3.drop_first() =~= lines.skip(4));
    assert(run(s, lines) == run(s1, l1));
    assert(run(s1, l1) == run(s2, l2));
    assert(run(s2, l2) == run(s3, l3));
    assert(run(s3, l3) == run(after(s3, l3.first()), l3.drop_first()));
}

proof fn lemma_complete_rounds(s: Session, lines: Seq<Seq<char>>, rounds: nat)
    requires
        s.awaiting == Some(Field::Name),
        is_complete_input(lines, rounds),
    ensures
        run(s, lines) == Ok::<Session, Failure>(done_after(s, lines, rounds)),
    decreases rounds,
{
    let rest = lines.skip(4);
    let first = entered_record(lines, 0);
    assert(parsed_u8(trimmed(age_line(lines, 0))) is Some);
    assert(is_stop_word(trimmed(answer_line(lines, 0))) <==> rounds == 1);
    lemma_one_round(s, lines);
    if rounds == 1 {
        assert(s.records.push(first) =~= s.records + entered_records(lines, 1));
    } else {
        let next = Session {
            records: s.records.push(first),
            name: Seq::empty(),
            species: Seq::empty(),
            awaiting: Some(Field::Name),
        };
        let left = (rounds - 1) as nat;
        assert(is_complete_input(rest, left)) by {
            assert forall|j: int| 0 <= j < left implies parsed_u8(
                trimmed(#[trigger] age_line(rest, j)),
            ) is Some by {
                lemma_later_rounds(lines, j);
                assert(parsed_u8(trimmed(age_line(lines, j + 1))) is Some);
            }
            assert forall|j: int| 0 <= j < left implies (is_stop_word(
                trimmed(#[trigger] answer_line(rest, j)),
            ) <==> j == left - 1) by {
                lemma_later_rounds(lines, j);
                assert(is_stop_word(trimmed(answer_line(lines, j + 1))) <==> j + 1 == rounds - 1);
            }
        }
        lemma_complete_rounds(next, rest, left);
        assert(next.records + entered_records(rest, left) =~= s.records + entered_records(
            lines,
            rounds,
        )) by {
            assert forall|j: int| 0 <= j < left implies entered_record(rest, j) == entered_record(
                lines,
                j + 1,
            ) by {
                lemma_later_rounds(lines, j);
            }
        }
    }
}

proof fn lemma_done_rounds(s: Session, lines: Seq<Seq<char>>) -> (rounds: nat)
    requires
        s.awaiting == Some(Field::Name),
        run(s, lines) is Ok,
    ensures
        is_complete_input(lines, rounds),
        run(s, lines) == Ok::<Session, Failure>(done_after(s, lines, rounds)),
    decreases lines.len(),
{
    let l1 = lines.drop_first();
    let l2 = l1.drop_first();
    let l3 = l2.drop_first();
    let s1 = after(s, lines.first());
    let s2 = after(s1, l1.first());
    let s3 = after(s2, l2.first());
    assert(lines.len() >= 1);
    assert(run(s, lines) == run(s1, l1));
    assert(l1.len() >= 1);
    assert(run(s1, l1) == run(s2, l2));
    assert(l2.len() >= 1 && accepts(s2, l2.first()));
    assert(run(s2, l2) == run(s3, l3));
    assert(l3.len() >= 1);
    assert(l2.first() == lines[2]);
    lemma_one_round(s, lines);
    let rest = lines.skip(4);
    let first = entered_record(lines, 0);
    if is_stop_word(trimmed(answer_line(lines, 0))) {
        assert(s.records.push(first) =~= s.records + entered_records(lines, 1));
        assert(is_complete_input(lines, 1));
        1
    } else {
        let next = Session {
            records: s.records.push(first),
            name: Seq::empty(),
            species: Seq::empty(),
            awaiting: Some(Field::Name),
        };
        let left = lemma_done_rounds(next, rest);
        let rounds = left + 1;
        assert(is_complete_input(lines, rounds)) by {
            assert forall|j: int| 0 <= j < rounds implies parsed_u8(
                trimmed(#[trigger] age_line(lines, j)),
            ) is Some by {
                if j > 0 {
                    lemma_later_rounds(lines, j - 1);
                    assert(parsed_u8(trimmed(age_line(rest, j - 1))) is Some);
                }
            }
            assert forall|j: int| 0 <= j < rounds implies (is_stop_word(
                trimmed(#[trigger] answer_line(lines, j)),
            ) <==> j == rounds - 1) by {
                if j > 0 {
                    lemma_later_rounds(lines, j - 1);
                    assert(is_stop_word(trimmed(answer_line(rest, j - 1))) <==> j - 1 == left - 1);
                }
            }
        }
        assert(next.records + entered_records(rest, left) =~= s.records + entered_records(
            lines,
            rounds,
        )) by {
            assert forall|j: int| 0 <= j < left implies entered_record(rest, j) == entered_record(
                lines,
                j + 1,
            ) by {
                lemma_later_rounds(lines, j);
            }
        }
        rounds
    }
}

/// An input of complete rounds gives one record for each round, in the order
/// of the rounds: the name and the species of each as typed but for the
/// whitespace at their ends, and the age as the number typed.
pub proof fn lemma_complete_input_is_collected(lines: Seq<Seq<char>>, rounds: nat)
    requires
        is_complete_input(lines, rounds),
    ensures
        collected(lines) == Ok::<Seq<RecordView>, Failure>(entered_records(lines, rounds)),
        entered_records(lines, rounds).len() == rounds,
{
    lemma_complete_rounds(start(), lines, rounds);
    assert(start().records + entered_records(lines, rounds) =~= entered_records(lines, rounds));
}

/// Only an input of complete rounds gives records at all, and then it gives
/// at least one: no collection ends without a record.
pub proof fn lemma_collected_input_is_complete(lines: Seq<Seq<char>>) -> (rounds: nat)
    requires
        collected(lines) is Ok,
    ensures
        is_complete_input(lines, rounds),
        collected(lines) == Ok::<Seq<RecordView>, Failure>(entered_records(lines, rounds)),
        collected(lines).unwrap().len() == rounds,
        rounds >= 1,
{
    let rounds = lemma_done_rounds(start(), lines);
    assert(start().records + entered_records(lines, rounds) =~= entered_records(lines, rounds));
    rounds
}

} // verus!
