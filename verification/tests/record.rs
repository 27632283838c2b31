use pet_records::record::{report, Record};

#[test]
fn report_line_is_exact() {
    let rex = Record::new("Rex", "Dog", 3);
    assert_eq!(rex.report_line(), "Rex is a Dog and is 3 years old");
}

#[test]
fn report_line_writes_every_age_in_full() {
    assert_eq!(Record::new("Tom", "Cat", 0).report_line(), "Tom is a Cat and is 0 years old");
    assert_eq!(Record::new("Tom", "Cat", 10).report_line(), "Tom is a Cat and is 10 years old");
    assert_eq!(
        Record::new("Harriet", "Tortoise", 175).report_line(),
        "Harriet is a Tortoise and is 175 years old"
    );
    assert_eq!(Record::new("Tom", "Cat", 255).report_line(), "Tom is a Cat and is 255 years old");
}

#[test]
fn report_line_of_empty_fields() {
    assert_eq!(Record::new("", "", 1).report_line(), " is a  and is 1 years old");
}

#[test]
fn new_record_trims_name_and_species() {
    let rex = Record::new("  Rex  ", "\tDog\n", 3);
    assert_eq!(rex.name(), "Rex");
    assert_eq!(rex.species(), "Dog");
    assert_eq!(rex.age(), 3);
    assert_eq!(rex, Record::new("Rex", "Dog", 3));
}

#[test]
fn new_record_of_whitespace_only_is_empty() {
    let blank = Record::new("   ", "\n", 0);
    assert_eq!(blank.name(), "");
    assert_eq!(blank.species(), "");
}

#[test]
fn records_differ_by_any_field() {
    let rex = Record::new("Rex", "Dog", 3);
    assert_ne!(rex, Record::new("Max", "Dog", 3));
    assert_ne!(rex, Record::new("Rex", "Cat", 3));
    assert_ne!(rex, Record::new("Rex", "Dog", 4));
}

#[test]
fn clone_is_equal() {
    let rex = Record::new("Rex", "Dog", 3);
    let twin = rex.clone();
    assert_eq!(twin, rex);
    assert_eq!(twin.report_line(), rex.report_line());
}

#[test]
fn report_has_one_line_for_each_record_in_order() {
    let records = vec![
        Record::new("Rex", "Dog", 3),
        Record::new("Milo", "Cat", 1),
        Record::new("Rex", "Dog", 3),
    ];
    assert_eq!(
        report(&records),
        vec![
            "Rex is a Dog and is 3 years old".to_string(),
            "Milo is a Cat and is 1 years old".to_string(),
            "Rex is a Dog and is 3 years old".to_string(),
        ]
    );
}

#[test]
fn report_of_nothing_is_empty() {
    let none: Vec<Record> = Vec::new();
    assert!(report(&none).is_empty());
}
