use brunch::digits::parse_u32;
use brunch::digits::u64_to_decimal;
use brunch::numbering::current_generation;
use brunch::numbering::list_generations;
use brunch::numbering::next_generation;

fn names(parts: &[&str]) -> Vec<String> {
    parts.iter().map(|s| s.to_string()).collect()
}

#[test]
fn parse_plain_numbers() {
    assert_eq!(parse_u32("0"), Some(0));
    assert_eq!(parse_u32("42"), Some(42));
    assert_eq!(parse_u32("4294967295"), Some(u32::MAX));
}

#[test]
fn parse_accepts_leading_plus() {
    assert_eq!(parse_u32("+7"), Some(7));
    assert_eq!(parse_u32("+"), None);
}

#[test]
fn parse_rejects_non_numbers() {
    assert_eq!(parse_u32(""), None);
    assert_eq!(parse_u32("foo"), None);
    assert_eq!(parse_u32("12abc"), None);
    assert_eq!(parse_u32("-1"), None);
    assert_eq!(parse_u32("1 "), None);
}

#[test]
fn parse_rejects_overflow() {
    assert_eq!(parse_u32("4294967296"), None);
    assert_eq!(parse_u32("99999999999999999999"), None);
}

#[test]
fn decimal_rendering() {
    assert_eq!(u64_to_decimal(0), "0");
    assert_eq!(u64_to_decimal(7), "7");
    assert_eq!(u64_to_decimal(1234567890), "1234567890");
    assert_eq!(u64_to_decimal(u64::MAX), "18446744073709551615");
}

#[test]
fn decimal_round_trips_through_parse() {
    for n in [0u64, 1, 9, 10, 99, 100, 4294967295] {
        assert_eq!(parse_u32(&u64_to_decimal(n)), Some(n as u32));
    }
}

#[test]
fn numbering_gap_tolerance() {
    // Generations {1, 2, 4} on disk, 3 deleted: the next id is 5, not 3.
    assert_eq!(next_generation(&names(&["1", "2", "4"])), 5);
}

#[test]
fn first_generation_is_one() {
    // An absent generations directory lists as empty.
    assert_eq!(next_generation(&names(&[])), 1);
}

#[test]
fn numbering_ignores_foreign_entries() {
    assert_eq!(next_generation(&names(&["2", "lost+found", ".tmp", "7x"])), 3);
    assert_eq!(next_generation(&names(&["junk"])), 1);
}

#[test]
fn numbering_zero_entry() {
    assert_eq!(next_generation(&names(&["0"])), 1);
}

#[test]
fn listing_sorts_and_filters() {
    assert_eq!(
        list_generations(&names(&["10", "2", "junk", "1", "4"])),
        vec![1, 2, 4, 10]
    );
    assert_eq!(list_generations(&names(&[])), Vec::<u32>::new());
}

#[test]
fn listing_keeps_every_parsed_entry() {
    assert_eq!(list_generations(&names(&["3", "1", "3"])), vec![1, 3, 3]);
}

#[test]
fn current_generation_reads_final_component() {
    let target = names(&["home", "user", ".local", "state", "brunch", "generations", "3"]);
    assert_eq!(current_generation(&target), Some(3));
}

#[test]
fn current_generation_unparsable_is_none() {
    assert_eq!(current_generation(&names(&["generations", "latest"])), None);
    assert_eq!(current_generation(&names(&[])), None);
}
