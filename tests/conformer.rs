use conformer::config::{has_arg, parse_cli_args, parse_config, parse_position, Config};
use conformer::listing::sort_entries;
use conformer::naming::{format_title, get_file_extention};
use conformer::numbers::find_all_numbers;
use conformer::order::{str_eq, str_lt};
use conformer::plan::{plan_entry, Action, PlanError};

fn strings(items: &[&str]) -> Vec<String> {
    items.iter().map(|s| s.to_string()).collect()
}

fn config(path: &str, nth_number: Option<usize>, test_run: bool, get_numbers: bool) -> Config {
    Config { path: path.to_string(), nth_number, test_run, get_numbers, help: false }
}

#[test]
fn listing_sorted_by_full_path() {
    let sorted = sort_entries(&strings(&["/d/b2.mkv", "/d/a1.mkv"]));
    assert_eq!(sorted, strings(&["/d/a1.mkv", "/d/b2.mkv"]));
}

#[test]
fn listing_order_independent_of_input_order() {
    let a = sort_entries(&strings(&["c", "a10", "a2", "b", "a1"]));
    let b = sort_entries(&strings(&["a1", "b", "a2", "c", "a10"]));
    assert_eq!(a, strings(&["a1", "a10", "a2", "b", "c"]));
    assert_eq!(a, b);
}

#[test]
fn listing_keeps_duplicates_and_prefixes_first() {
    let sorted = sort_entries(&strings(&["ab", "a", "ab", ""]));
    assert_eq!(sorted, strings(&["", "a", "ab", "ab"]));
}

#[test]
fn listing_empty() {
    assert!(sort_entries(&Vec::new()).is_empty());
}

#[test]
fn numbers_none_without_digits() {
    assert!(find_all_numbers("/media/show/episode.mkv").is_empty());
    assert!(find_all_numbers("").is_empty());
}

#[test]
fn numbers_maximal_runs_in_order() {
    assert_eq!(find_all_numbers("a12b345c6"), strings(&["12", "345", "6"]));
    assert_eq!(find_all_numbers("007x007"), strings(&["007", "007"]));
    assert_eq!(find_all_numbers("2024"), strings(&["2024"]));
}

#[test]
fn numbers_unicode_decimal_digits() {
    assert_eq!(find_all_numbers("ep\u{0663}\u{0664}.mkv"), strings(&["\u{0663}\u{0664}"]));
}

#[test]
fn get_numbers_mode_lists_runs() {
    let c = config("Show", None, false, true);
    match plan_entry(&c, "Show.S01E05.mkv") {
        Ok(Action::ShowNumbers(v)) => assert_eq!(v, strings(&["01", "05"])),
        _ => panic!("expected the digit runs"),
    }
}

#[test]
fn rename_scans_directory_component() {
    let c = config("/media/Season1", Some(0), false, false);
    let entry = "/media/Season1/episode.10.mkv";
    assert_eq!(find_all_numbers(entry), strings(&["1", "10"]));
    match plan_entry(&c, entry) {
        Ok(Action::Rename { from, to }) => {
            assert_eq!(from, entry);
            assert_eq!(to, "/media/Season1E1.mkv");
        }
        _ => panic!("expected a rename"),
    }
}

#[test]
fn position_out_of_range_stops() {
    let c = config("/tv", Some(5), false, false);
    assert!(matches!(plan_entry(&c, "/tv/s01e02.mkv"), Err(PlanError::PositionOutOfRange)));
    let c = config("/tv", Some(2), true, false);
    assert!(matches!(plan_entry(&c, "/tv/s01e02.mkv"), Err(PlanError::PositionOutOfRange)));
}

#[test]
fn missing_position_stops() {
    let c = config("/tv", None, true, false);
    assert!(matches!(plan_entry(&c, "/tv/s01e02.mkv"), Err(PlanError::NoPosition)));
}

#[test]
fn dry_run_shows_name() {
    let c = config("/tv/Show", Some(1), true, false);
    match plan_entry(&c, "/tv/Show/s01e02.mkv") {
        Ok(Action::ShowName(name)) => assert_eq!(name, "/tv/ShowE02.mkv"),
        _ => panic!("expected a name"),
    }
}

#[test]
fn title_round_trip_keeps_leading_zeros() {
    let c = config("/media/Season1", None, true, false);
    let name = format_title("mp4", "007", &c);
    assert_eq!(name, "/media/Season1E007.mp4");
    assert_eq!(find_all_numbers(&name), strings(&["1", "007", "4"]));
}

#[test]
fn extension_rules() {
    assert_eq!(get_file_extention("a.b.mkv"), "mkv");
    assert_eq!(get_file_extention("noext"), "noext");
    assert_eq!(get_file_extention("file."), "");
    assert_eq!(get_file_extention(""), "");
    assert_eq!(get_file_extention(".hidden"), "hidden");
}

#[test]
fn position_flag_values() {
    let args = strings(&["prog", "-p", "3", "/dir"]);
    assert_eq!(parse_cli_args("-p", &args), Some(3));
    assert_eq!(parse_cli_args("--position", &args), None);
    assert_eq!(parse_cli_args("-p", &strings(&["prog", "/dir", "-p"])), None);
    assert_eq!(parse_cli_args("-p", &strings(&["prog", "-p", "x", "/dir"])), None);
    assert_eq!(parse_cli_args("-p", &strings(&["prog", "-p", "", "-p", "4"])), None);
}

#[test]
fn position_parsing() {
    assert_eq!(parse_position("42"), Some(42));
    assert_eq!(parse_position("+4"), Some(4));
    assert_eq!(parse_position("0007"), Some(7));
    assert_eq!(parse_position("+"), None);
    assert_eq!(parse_position("-1"), None);
    assert_eq!(parse_position(""), None);
    assert_eq!(parse_position(" 1"), None);
    assert_eq!(parse_position("1_0"), None);
    assert_eq!(parse_position("99999999999999999999999"), None);
    assert_eq!(parse_position(&usize::MAX.to_string()), Some(usize::MAX));
}

#[test]
fn config_from_args() {
    let c = parse_config(&strings(&["prog", "-t", "--position", "2", "-g", "/media"])).unwrap();
    assert_eq!(c.path, "/media");
    assert_eq!(c.nth_number, Some(2));
    assert!(c.test_run);
    assert!(c.get_numbers);
    assert!(!c.help);
    let c = parse_config(&strings(&["prog", "-p", "1", "--position", "2", "--help", "x"])).unwrap();
    assert_eq!(c.nth_number, Some(1));
    assert!(c.help);
    assert!(!c.test_run);
    let c = parse_config(&strings(&["prog", "-p", "no", "--position", "2", "x"])).unwrap();
    assert_eq!(c.nth_number, Some(2));
    assert!(parse_config(&[]).is_none());
}

#[test]
fn flag_presence() {
    let args = strings(&["prog", "--test", "/d"]);
    assert!(has_arg("--test", &args));
    assert!(!has_arg("-t", &args));
}

#[test]
fn string_order() {
    assert!(str_lt("a", "b"));
    assert!(str_lt("a", "ab"));
    assert!(!str_lt("ab", "ab"));
    assert!(str_lt("Z", "a"));
    assert!(str_lt("z", "\u{e9}"));
    assert!(str_eq("abc", "abc"));
    assert!(!str_eq("abc", "abd"));
}
