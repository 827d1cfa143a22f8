use xlayout::monitors::{
    collect_builders, dedup_strings, find_resolution, join_spaces, model_from_decode_output,
    parse_monitor, sort_strings, Monitor,
};
use xlayout::text::{split_lines, trim_str};

#[test]
fn parse_monitor_header() {
    let m = parse_monitor("DisplayPort-1 connected 1920x1080+0+0 (normal left) 527mm x 296mm")
        .unwrap();
    assert_eq!(m.link, "DisplayPort-1");
    assert_eq!(m.idx, -1);
    assert_eq!(m.width, -1);
    assert_eq!(m.height, -1);
    assert_eq!(m.name, "");
}

#[test]
fn parse_monitor_rejects() {
    assert!(parse_monitor("HDMI-A-0 disconnected (normal left inverted)").is_none());
    assert!(parse_monitor("   1920x1080     60.00*+").is_none());
    assert!(parse_monitor("").is_none());
}

#[test]
fn resolution_line_is_read() {
    assert_eq!(find_resolution("   1920x1080     60.00*+  50.00"), Some((1920, 1080)));
    assert_eq!(find_resolution("   800x600      60.32    56.25"), Some((800, 600)));
    // six digits on one side match nothing
    assert_eq!(find_resolution("   123456x1080 60.00"), None);
    // the digits must follow whitespace and a blank must follow them
    assert_eq!(find_resolution("1920x1080 60.00"), None);
    assert_eq!(find_resolution(" 1920x1080"), None);
}

#[test]
fn split_lines_and_trim() {
    let lines = split_lines("a\nb\r\n\nlast");
    assert_eq!(lines, vec!["a", "b", "", "last"]);
    assert_eq!(trim_str("  padded\t "), "padded");
    assert_eq!(trim_str(""), "");
}

#[test]
fn probe_listing_becomes_builders() {
    let listing = "Screen 0: minimum 320 x 200\neDP connected primary 1600x1200+0+0 (normal left) 340mm x 190mm\n\tEDID: \n\t\t00ffffffffffff004ca3523100000000\n\t\t00144ca34154313233\n\tnon-desktop: 0\n   1600x1200     60.02*+  40.01\n   1280x720      60.00\nHDMI-A-0 disconnected (normal left inverted right)\nDisplayPort-1 connected 1920x1080+1600+0 (normal left) 527mm x 296mm\n   1920x1080     60.00*+  50.00\n";
    let lines = split_lines(listing);
    let builders = collect_builders(&lines);
    // one leading empty builder, then one per connected output
    assert_eq!(builders.len(), 3);
    let mons: Vec<Monitor> = builders
        .into_iter()
        .filter(|b| b.has_monitor())
        .filter_map(|b| b.build("dummy".to_string()))
        .collect();
    assert_eq!(mons.len(), 2);
    assert_eq!(mons[0].idx, 0);
    assert_eq!(mons[0].link, "eDP");
    assert_eq!(mons[0].width, 1600);
    assert_eq!(mons[0].height, 1200);
    assert_eq!(mons[1].idx, 1);
    assert_eq!(mons[1].link, "DisplayPort-1");
    assert_eq!(mons[1].width, 1920);
    assert_eq!(mons[1].height, 1080);
}

#[test]
fn edid_blob_is_gathered() {
    let listing = "eDP connected 1600x1200+0+0\n\
\tEDID: \n\
\t\t00ffffffffffff00\n\
\t\t4ca3523100000000\n\
\tnon-desktop: 0\n";
    let lines = split_lines(listing);
    let builders = collect_builders(&lines);
    assert_eq!(builders.len(), 2);
    assert_eq!(builders[1].get_edid(), "00ffffffffffff004ca3523100000000");
}

#[test]
fn model_name_wins() {
    let out = "Block 0\n\
    ASCII string: XYZ\n\
    Monitor name: DELL U2415\n\
    ASCII string: ABC\n";
    assert_eq!(model_from_decode_output(out), "DELL U2415");
}

#[test]
fn ascii_strings_are_sorted_and_joined() {
    let out = "Block 0\n\
    ASCII string: ZZ9\n\
    ASCII string: AA1\n\
    ASCII string: ZZ9\n\
    Alphanumeric Data String: 'MM5'\n";
    assert_eq!(model_from_decode_output(out), "AA1 MM5 ZZ9");
}

#[test]
fn unknown_model_without_markers() {
    assert_eq!(model_from_decode_output("Block 0\nno markers here\n"), "unknown");
    assert_eq!(model_from_decode_output(""), "unknown");
}

#[test]
fn sort_dedup_join_strings() {
    let v = vec!["b".to_string(), "a".to_string(), "b".to_string(), "".to_string()];
    let sorted = sort_strings(v);
    assert_eq!(sorted, vec!["", "a", "b", "b"]);
    let deduped = dedup_strings(&sorted);
    assert_eq!(deduped, vec!["", "a", "b"]);
    assert_eq!(join_spaces(&deduped), " a b");
}

#[test]
fn describe_monitor() {
    let m = Monitor {
        idx: 0,
        link: "DP-1".to_string(),
        width: 1920,
        height: 1080,
        name: "dell".to_string(),
    };
    assert_eq!(m.describe(), "0. dell (1920x1080) on DP-1");
}
