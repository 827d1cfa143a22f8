use xlayout::layout::Layout;
use xlayout::monitors::Monitor;
use xlayout::output::{build_args, build_args_checked, MonitorLayoutPair};
use xlayout::setup::match_setup;

fn mon(idx: i32, link: &str, width: i32, height: i32, name: &str) -> Monitor {
    Monitor { idx, link: link.to_string(), width, height, name: name.to_string() }
}

fn pair(m: Monitor, opt: &str) -> MonitorLayoutPair {
    MonitorLayoutPair::new(m, Some(Layout::new(opt).unwrap()))
}

#[test]
fn offsets_chain_left_to_right() {
    let pairs = vec![
        pair(mon(0, "A", 1920, 1080, ""), "0"),
        pair(mon(1, "B", 1920, 1200, ""), "1"),
        pair(mon(2, "C", 1600, 1200, ""), "2"),
    ];
    let groups = build_args(&pairs);
    assert_eq!(groups.len(), 1);
    let g = &groups[0];
    assert_eq!(
        g,
        &vec![
            "--output", "A", "--rotation", "normal", "--pos", "0x0", "--mode", "1920x1080",
            "--auto", "--output", "B", "--rotation", "normal", "--pos", "1920x0", "--mode",
            "1920x1200", "--auto", "--output", "C", "--rotation", "normal", "--pos", "3840x0",
            "--mode", "1600x1200", "--auto",
        ]
    );
}

#[test]
fn rotated_monitor_contributes_its_height() {
    let pairs = vec![
        pair(mon(0, "A", 1920, 1080, ""), "0L"),
        pair(mon(1, "B", 1920, 1200, ""), "1"),
    ];
    let groups = build_args(&pairs);
    let g = &groups[0];
    // the second monitor starts after the first one's height, not its width
    assert_eq!(g[4], "--pos");
    assert_eq!(g[5], "0x0");
    assert_eq!(g[13], "--pos");
    assert_eq!(g[14], "1080x0");
}

#[test]
fn explicit_positions_are_kept_and_y_is_inherited() {
    let pairs = vec![
        pair(mon(0, "A", 1600, 1200, ""), "0x100y250"),
        pair(mon(1, "B", 1920, 1080, ""), "1"),
    ];
    let groups = build_args(&pairs);
    let g = &groups[0];
    assert_eq!(g[5], "100x250");
    // the accumulator still advanced by A's width, and B inherits A's Y
    assert_eq!(g[14], "1600x250");
}

#[test]
fn negative_positions_render_with_sign() {
    let pairs = vec![pair(mon(0, "A", 1920, 1080, ""), "0x-500y-10")];
    let groups = build_args(&pairs);
    assert_eq!(groups[0][5], "-500x-10");
}

#[test]
fn unconfigured_monitor_is_turned_off_without_advancing() {
    let pairs = vec![
        MonitorLayoutPair::new(mon(0, "A", 1111, 999, ""), None),
        pair(mon(1, "B", 1920, 1080, ""), "1"),
    ];
    let groups = build_args(&pairs);
    assert_eq!(groups.len(), 1);
    let g = &groups[0];
    assert_eq!(g[0], "--output");
    assert_eq!(g[1], "A");
    assert_eq!(g[2], "--off");
    // B starts at 0: the off item did not advance the accumulator
    assert_eq!(g[8], "0x0");
}

#[test]
fn force_emits_standalone_off_group_first() {
    let pairs = vec![
        pair(mon(0, "A", 1920, 1080, ""), "0"),
        pair(mon(1, "B", 1920, 1200, ""), "1f"),
    ];
    let groups = build_args(&pairs);
    assert_eq!(groups.len(), 2);
    assert_eq!(groups[0], vec!["--output", "B", "--off"]);
    // the trailing group still configures both monitors, B after A
    let g = &groups[1];
    assert_eq!(g[1], "A");
    assert_eq!(g[10], "B");
    assert_eq!(g[14], "1920x0");
}

#[test]
fn two_forced_monitors_emit_two_off_groups_in_order() {
    let pairs = vec![
        pair(mon(0, "A", 1920, 1080, ""), "0f"),
        pair(mon(1, "B", 1920, 1200, ""), "1f"),
    ];
    let groups = build_args(&pairs);
    assert_eq!(groups.len(), 3);
    assert_eq!(groups[0], vec!["--output", "A", "--off"]);
    assert_eq!(groups[1], vec!["--output", "B", "--off"]);
}

#[test]
fn overflowing_chain_is_reported() {
    let pairs = vec![
        pair(mon(0, "A", 2147483647, 1080, ""), "0"),
        pair(mon(1, "B", 2, 1080, ""), "1"),
    ];
    assert!(build_args_checked(&pairs).is_none());
}

#[test]
fn end_to_end_scenario() {
    let monitors = vec![
        mon(0, "eDP", 1600, 1200, "laptop"),
        mon(1, "DisplayPort-1", 1920, 1080, "dell"),
        mon(2, "DisplayPort-2", 1920, 1200, "hp"),
    ];
    let layouts = vec![
        Layout::new("1L").unwrap(),
        Layout::new("2x1080y300").unwrap(),
        Layout::new("0").unwrap(),
    ];
    let (items, missing) = match_setup(&layouts, monitors);
    assert_eq!(missing.len(), 0);
    let groups = build_args(&items);
    assert_eq!(groups.len(), 1);
    let g = &groups[0];
    assert_eq!(
        g,
        &vec![
            "--output", "DisplayPort-1", "--rotation", "left", "--pos", "0x0", "--mode",
            "1920x1080", "--auto", "--output", "DisplayPort-2", "--rotation", "normal", "--pos",
            "1080x300", "--mode", "1920x1200", "--auto", "--output", "eDP", "--rotation",
            "normal", "--pos", "3000x300", "--mode", "1600x1200", "--auto",
        ]
    );
}

#[test]
fn build_args_two_monitors() {
    let pairs = vec![
        MonitorLayoutPair::new(
            mon(0, "DisplayPort-1", 1920, 1200, "hp"),
            Some(Layout::new("1L").unwrap()),
        ),
        MonitorLayoutPair::new(
            mon(1, "DisplayPort-2", 1920, 1080, "dell"),
            Some(Layout::new("1x1080y230").unwrap()),
        ),
    ];
    let groups = build_args(&pairs);
    assert_eq!(groups.len(), 1);
    assert_eq!(
        &groups[0],
        &vec![
            "--output", "DisplayPort-1", "--rotation", "left", "--pos", "0x0", "--mode",
            "1920x1200", "--auto", "--output", "DisplayPort-2", "--rotation", "normal", "--pos",
            "1080x230", "--mode", "1920x1080", "--auto",
        ]
    );
}
