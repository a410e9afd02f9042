use chapter_code::selector::{
    catalog_listing, find_example, resolve_selection, same_text, select_example_to_run,
    selection_message, Selection,
};

const CATALOG: [&str; 3] = ["a", "b", "c"];

fn run(line: &str) -> Result<usize, String> {
    select_example_to_run(&CATALOG, line)
}

#[test]
fn empty_input_selects_first_example() {
    assert_eq!(run(""), Ok(0));
    assert_eq!(CATALOG[run("").unwrap()], "a");
}

#[test]
fn numeric_input_selects_by_position() {
    assert_eq!(run("1"), Ok(1));
    assert_eq!(CATALOG[run("1").unwrap()], "b");
}

#[test]
fn out_of_range_index_is_reported() {
    let r = run("5");
    assert_eq!(
        r,
        Err("The given index \"5\" doesn't correspond to any known example".to_string())
    );
    assert!(r.unwrap_err().contains("\"5\""));
}

#[test]
fn exact_name_selects_example() {
    assert_eq!(run("b"), Ok(1));
    assert_eq!(CATALOG[run("b").unwrap()], "b");
}

#[test]
fn unknown_name_is_reported() {
    let r = run("zzz");
    assert_eq!(
        r,
        Err("\"zzz\" doesn't correspond to any known example".to_string())
    );
    assert!(r.unwrap_err().contains("\"zzz\""));
}

#[test]
fn surrounding_whitespace_is_ignored() {
    assert_eq!(run("  b  \n"), run("b"));
    assert_eq!(run("  b  \n"), Ok(1));
    assert_eq!(run("\t2\r\n"), Ok(2));
    assert_eq!(run("   \n"), Ok(0));
    assert_eq!(
        run("  zzz \n"),
        Err("\"zzz\" doesn't correspond to any known example".to_string())
    );
}

#[test]
fn repeated_selection_is_independent() {
    let first = run("1\n");
    let second = run("1\n");
    assert_eq!(first, Ok(1));
    assert_eq!(second, Ok(1));
    assert_eq!(CATALOG[first.unwrap()], "b");
    assert_eq!(CATALOG[second.unwrap()], "b");
}

#[test]
fn empty_catalog_reports_no_examples() {
    let empty: [&str; 0] = [];
    assert_eq!(
        select_example_to_run(&empty, "\n"),
        Err("No examples available".to_string())
    );
    assert_eq!(resolve_selection(&empty, ""), Selection::NoExamples);
    assert_eq!(resolve_selection(&empty, "0"), Selection::IndexOutOfRange);
    assert_eq!(resolve_selection(&empty, "a"), Selection::UnknownName);
}

#[test]
fn last_position_and_first_past_it() {
    assert_eq!(resolve_selection(&CATALOG, "2"), Selection::Run(2));
    assert_eq!(resolve_selection(&CATALOG, "3"), Selection::IndexOutOfRange);
    assert_eq!(resolve_selection(&CATALOG, "0"), Selection::Run(0));
}

#[test]
fn numeral_is_read_as_position_before_name() {
    let catalog = ["x", "y", "1"];
    assert_eq!(resolve_selection(&catalog, "1"), Selection::Run(1));
    let catalog = ["x", "7"];
    assert_eq!(resolve_selection(&catalog, "7"), Selection::IndexOutOfRange);
}

#[test]
fn plus_sign_and_leading_zeros_are_numbers() {
    assert_eq!(resolve_selection(&CATALOG, "+2"), Selection::Run(2));
    assert_eq!(resolve_selection(&CATALOG, "001"), Selection::Run(1));
    assert_eq!(resolve_selection(&CATALOG, "-1"), Selection::UnknownName);
    assert_eq!(resolve_selection(&CATALOG, "+"), Selection::UnknownName);
}

#[test]
fn huge_number_is_treated_as_a_name() {
    assert_eq!(
        resolve_selection(&CATALOG, "99999999999999999999999"),
        Selection::UnknownName
    );
    assert_eq!(
        resolve_selection(&CATALOG, "18446744073709551615"),
        Selection::IndexOutOfRange
    );
    let catalog = ["a", "99999999999999999999999"];
    assert_eq!(
        resolve_selection(&catalog, "99999999999999999999999"),
        Selection::Run(1)
    );
}

#[test]
fn duplicate_names_select_the_first() {
    let catalog = ["a", "dup", "b", "dup"];
    assert_eq!(resolve_selection(&catalog, "dup"), Selection::Run(1));
    assert_eq!(find_example(&catalog, "dup"), Some(1));
    assert_eq!(find_example(&catalog, "du"), None);
}

#[test]
fn names_compare_exactly() {
    assert!(same_text("triangle", "triangle"));
    assert!(!same_text("triangle", "Triangle"));
    assert!(!same_text("tri", "triangle"));
    assert!(same_text("", ""));
    assert!(same_text("héllo", "héllo"));
    assert_eq!(resolve_selection(&CATALOG, "B"), Selection::UnknownName);
}

#[test]
fn messages_name_the_input() {
    assert_eq!(
        selection_message(Selection::IndexOutOfRange, "42"),
        "The given index \"42\" doesn't correspond to any known example"
    );
    assert_eq!(
        selection_message(Selection::UnknownName, "foo"),
        "\"foo\" doesn't correspond to any known example"
    );
    assert_eq!(
        selection_message(Selection::NoExamples, ""),
        "No examples available"
    );
}

#[test]
fn listing_shows_position_and_name() {
    let listing = catalog_listing(&CATALOG);
    assert_eq!(listing, vec!["0 a", "1 b", "2 c"]);
    let names: Vec<String> = (0..12).map(|i| format!("ex{}", i)).collect();
    let refs: Vec<&str> = names.iter().map(|s| s.as_str()).collect();
    let listing = catalog_listing(&refs);
    assert_eq!(listing[11], "11 ex11");
    let empty: [&str; 0] = [];
    assert!(catalog_listing(&empty).is_empty());
}

#[test]
fn listed_position_selects_its_example() {
    let names: Vec<String> = (0..15).map(|i| format!("ex{}", i)).collect();
    let refs: Vec<&str> = names.iter().map(|s| s.as_str()).collect();
    for (i, line) in catalog_listing(&refs).iter().enumerate() {
        let shown = line.split(' ').next().unwrap();
        assert_eq!(resolve_selection(&refs, shown), Selection::Run(i));
    }
}
