use xlayout::layout::Layout;
use xlayout::monitors::Monitor;
use xlayout::setup::{match_setup, validate, ValidationError};

fn mon(idx: i32, link: &str, width: i32, height: i32, name: &str) -> Monitor {
    Monitor { idx, link: link.to_string(), width, height, name: name.to_string() }
}

fn three_monitors() -> Vec<Monitor> {
    vec![
        mon(0, "eDP", 1600, 1200, "laptop"),
        mon(1, "DisplayPort-1", 1920, 1080, "dell"),
        mon(2, "DisplayPort-2", 1920, 1200, "hp"),
    ]
}

#[test]
fn empty_directives_turn_everything_off() {
    let (items, missing) = match_setup(&vec![], three_monitors());
    assert_eq!(missing.len(), 0);
    assert_eq!(items.len(), 3);
    assert_eq!(items[0].monitor.link, "eDP");
    assert_eq!(items[1].monitor.link, "DisplayPort-1");
    assert_eq!(items[2].monitor.link, "DisplayPort-2");
    for item in &items {
        assert!(item.layout.is_none());
    }
}

#[test]
fn directives_claim_their_monitor_in_order() {
    let layouts = vec![Layout::new("2").unwrap(), Layout::new("0f").unwrap()];
    let (items, missing) = match_setup(&layouts, three_monitors());
    assert_eq!(missing.len(), 0);
    assert_eq!(items.len(), 3);
    assert_eq!(items[0].monitor.link, "DisplayPort-2");
    assert_eq!(items[1].monitor.link, "eDP");
    assert!(items[1].layout.unwrap().force);
    // the unclaimed monitor follows, to be powered off
    assert_eq!(items[2].monitor.link, "DisplayPort-1");
    assert!(items[2].layout.is_none());
}

#[test]
fn unmatched_directive_is_reported_and_dropped() {
    let layouts = vec![Layout::new("5").unwrap(), Layout::new("0").unwrap()];
    let (items, missing) = match_setup(&layouts, three_monitors());
    assert_eq!(missing, vec![5]);
    assert_eq!(items.len(), 3);
    assert_eq!(items[0].monitor.link, "eDP");
    assert!(items[0].layout.is_some());
}

#[test]
fn duplicate_directive_index_misses() {
    let layouts = vec![Layout::new("1").unwrap(), Layout::new("1p").unwrap()];
    let (items, missing) = match_setup(&layouts, three_monitors());
    assert_eq!(missing, vec![1]);
    assert_eq!(items.len(), 3);
}

#[test]
fn blackout_is_refused() {
    let (items, _) = match_setup(&vec![], three_monitors());
    let err = validate(&items).unwrap();
    assert_eq!(err, ValidationError::RefuseBlackout);
    assert_eq!(err.exit_code(), 3);
}

#[test]
fn no_valid_arguments_without_monitors() {
    let layouts = vec![Layout::new("0").unwrap()];
    let (items, missing) = match_setup(&layouts, vec![]);
    assert_eq!(missing, vec![0]);
    assert_eq!(items.len(), 0);
    let err = validate(&items).unwrap();
    assert_eq!(err, ValidationError::NoValidArguments);
    assert_eq!(err.exit_code(), 2);
}

#[test]
fn two_primaries_are_rejected() {
    let layouts = vec![Layout::new("0p").unwrap(), Layout::new("1p").unwrap()];
    let (items, _) = match_setup(&layouts, three_monitors());
    let err = validate(&items).unwrap();
    assert_eq!(err, ValidationError::MultiplePrimary);
    assert_eq!(err.exit_code(), 1);
    assert_eq!(err.message(), "More than one primary monitor provided");
}

#[test]
fn one_primary_is_accepted() {
    let layouts = vec![Layout::new("0p").unwrap(), Layout::new("1").unwrap()];
    let (items, _) = match_setup(&layouts, three_monitors());
    assert!(validate(&items).is_none());
}

#[test]
fn zero_primaries_are_accepted() {
    let layouts = vec![Layout::new("0").unwrap()];
    let (items, _) = match_setup(&layouts, three_monitors());
    assert!(validate(&items).is_none());
}
