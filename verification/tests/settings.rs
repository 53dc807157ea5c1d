use filescope::settings::{Settings, ZOOM_MAX, ZOOM_MIN};

#[test]
fn round_trips_through_serialize_and_parse() {
    let settings = Settings {
        is_list: true,
        zoom: 128,
        sort_key: 2,
        sort_desc: true,
        show_hidden: true,
        width: 900,
        height: 600,
        maximized: true,
    };
    assert_eq!(Settings::parse(&settings.serialize()), settings);
}

#[test]
fn empty_input_gives_defaults() {
    assert_eq!(Settings::parse(""), Settings::default());
}

#[test]
fn missing_and_malformed_keys_keep_their_defaults() {
    // Only `zoom` is valid here: the junk line, unknown key, and unparsable
    // number must all be ignored rather than losing the whole file.
    let parsed = Settings::parse("zoom=96\nnonsense\nunknown=1\nheight=abc\n");
    assert_eq!(parsed.zoom, 96);
    assert_eq!(parsed.height, Settings::default().height);
    assert_eq!(parsed.is_list, Settings::default().is_list);
}

#[test]
fn zoom_is_clamped_to_the_supported_range() {
    assert_eq!(Settings::parse("zoom=9999").zoom, ZOOM_MAX);
    assert_eq!(Settings::parse("zoom=1").zoom, ZOOM_MIN);
}

#[test]
fn sort_key_out_of_range_falls_back_to_name() {
    assert_eq!(Settings::parse("sort_key=7").sort_key, 0);
}

#[test]
fn serialize_writes_one_key_per_line() {
    let text = Settings::default().serialize();
    assert_eq!(
        text,
        "is_list=false\nzoom=80\nsort_key=0\nsort_desc=false\nshow_hidden=false\nwidth=1120\nheight=740\nmaximized=false\n"
    );
}

#[test]
fn negative_sizes_round_trip() {
    let settings = Settings { width: -5, height: i32::MIN, ..Settings::default() };
    assert_eq!(Settings::parse(&settings.serialize()), settings);
}

#[test]
fn values_are_trimmed_and_parsed_like_std() {
    let parsed = Settings::parse("  width = +640 \r\nheight=-0\r\nis_list=TRUE\nmaximized= true\n");
    assert_eq!(parsed.width, 640);
    assert_eq!(parsed.height, 0);
    assert!(!parsed.is_list);
    assert!(parsed.maximized);
    // Out of i32's range, or a lone sign, is malformed.
    assert_eq!(Settings::parse("width=2147483648").width, 1120);
    assert_eq!(Settings::parse("width=-2147483648").width, i32::MIN);
    assert_eq!(Settings::parse("width=-").width, 1120);
    assert_eq!(Settings::parse("sort_key=-1").sort_key, 0);
    assert_eq!(Settings::parse("sort_key=+2").sort_key, 2);
    assert_eq!(Settings::parse("sort_key=0002").sort_key, 2);
}

#[test]
fn later_lines_win_and_the_first_equals_sign_splits() {
    let parsed = Settings::parse("zoom=64\nzoom=96\nsort_desc=true=false\n");
    assert_eq!(parsed.zoom, 96);
    assert!(!parsed.sort_desc);
}

#[test]
fn an_appended_line_only_does_what_it_says() {
    let text = "zoom=96\nsort_key=1\n";
    let base = Settings::parse(text);
    assert_eq!(Settings::parse(&format!("{text}\nnonsense")), base);
    assert_eq!(Settings::parse(&format!("{text}\ncolour=blue")), base);
    assert_eq!(Settings::parse(&format!("{text}\n  zoom = 100 ")), Settings { zoom: 100, ..base });
    // A last line's trailing carriage return is only whitespace.
    assert_eq!(Settings::parse("zoom=100\r"), Settings::parse("zoom=100\r\n"));
}

#[test]
fn out_of_range_preferences_read_back_clamped() {
    let wild = Settings { zoom: 9999, sort_key: 7, ..Settings::default() };
    assert_eq!(Settings::parse(&wild.serialize()), Settings { zoom: 160, sort_key: 0, ..wild });
    let small = Settings { zoom: -5, width: -1, ..Settings::default() };
    assert_eq!(Settings::parse(&small.serialize()), Settings { zoom: 48, ..small });
}
