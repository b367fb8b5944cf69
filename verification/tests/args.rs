use baum::args::parse;
use baum::args::parse_level;
use baum::args::resolves_to_cwd;
use baum::args::version_text;
use baum::args::Config;
use baum::args::Outcome;
use baum::args::Parsed;

fn strings(items: &[&str]) -> Vec<String> {
    items.iter().map(|s| s.to_string()).collect()
}

fn defaults() -> Config {
    Config {
        display_hidden: false,
        display_only_dirs: false,
        display_level: 0,
        display_indentation: true,
        display_bytes: false,
        ignored_dirs: Vec::new(),
    }
}

fn proceed(unknown: &[&str], dir: &str, config: Config) -> Parsed {
    Parsed { unknown: strings(unknown), outcome: Outcome::Proceed { dir: dir.to_string(), config } }
}

#[test]
fn no_arguments_give_the_defaults() {
    assert_eq!(parse(&strings(&[])), proceed(&[], ".", defaults()));
}

#[test]
fn first_value_is_the_directory() {
    assert_eq!(parse(&strings(&["src"])), proceed(&[], "src", defaults()));
}

#[test]
fn a_later_directory_replaces_an_earlier_one() {
    assert_eq!(parse(&strings(&["a", "b"])), proceed(&[], "b", defaults()));
}

#[test]
fn short_and_long_flags_agree() {
    let config = Config {
        display_hidden: true,
        display_only_dirs: true,
        display_indentation: false,
        display_bytes: true,
        ..defaults()
    };
    assert_eq!(parse(&strings(&["-h", "-p", "-b", "-d"])), proceed(&[], ".", config.clone()));
    assert_eq!(
        parse(&strings(&["-hidden", "-prefix", "-bytes", "-directories"])),
        proceed(&[], ".", config)
    );
}

#[test]
fn a_value_after_a_switch_is_the_directory() {
    let config = Config { display_hidden: true, display_bytes: true, ..defaults() };
    assert_eq!(parse(&strings(&["-h", "src", "-b"])), proceed(&[], "src", config.clone()));
    assert_eq!(parse(&strings(&["-h", "-b", "src"])), proceed(&[], "src", config));
}

#[test]
fn ignore_collects_names_until_the_next_option() {
    let config = Config {
        display_hidden: true,
        display_level: 2,
        ignored_dirs: strings(&["target", ".git"]),
        ..defaults()
    };
    assert_eq!(
        parse(&strings(&["src", "-i", "target", ".git", "-h", "-l", "2"])),
        proceed(&[], "src", config)
    );
    let long = Config { ignored_dirs: strings(&["x"]), ..defaults() };
    assert_eq!(parse(&strings(&["-ignore", "x"])), proceed(&[], ".", long));
}

#[test]
fn a_switch_ends_the_names_to_ignore() {
    let config = Config { display_hidden: true, ignored_dirs: strings(&["a"]), ..defaults() };
    assert_eq!(parse(&strings(&["-i", "a", "-h", "c"])), proceed(&[], "c", config));
    for switch in ["-p", "-prefix", "-b", "-bytes", "-d", "-directories", "-hidden"] {
        let parsed = parse(&strings(&["-i", "a", switch, "c"]));
        match parsed.outcome {
            Outcome::Proceed { dir, config } => {
                assert_eq!(dir, "c");
                assert_eq!(config.ignored_dirs, strings(&["a"]));
            }
            other => panic!("{:?}", other),
        }
    }
}

#[test]
fn ignore_may_be_taken_up_again() {
    let config = Config { display_bytes: true, ignored_dirs: strings(&["a", "b"]), ..defaults() };
    assert_eq!(parse(&strings(&["-i", "a", "-b", "-i", "b"])), proceed(&[], ".", config));
}

#[test]
fn a_switch_ends_the_level() {
    let config = Config { display_level: 2, display_only_dirs: true, ..defaults() };
    assert_eq!(parse(&strings(&["-l", "2", "-d", "src"])), proceed(&[], "src", config));
}

#[test]
fn bare_level_is_one() {
    let config = Config { display_level: 1, ..defaults() };
    assert_eq!(parse(&strings(&["-l"])), proceed(&[], ".", config.clone()));
    assert_eq!(parse(&strings(&["-level", "-b"])).outcome, Outcome::Proceed {
        dir: ".".to_string(),
        config: Config { display_bytes: true, ..config },
    });
}

#[test]
fn level_takes_its_value() {
    for (text, level) in [("0", 0u8), ("1", 1), ("2", 2), ("+2", 2), ("002", 2), ("+0", 0)] {
        let config = Config { display_level: level, ..defaults() };
        assert_eq!(parse(&strings(&["-l", text])), proceed(&[], ".", config));
    }
}

#[test]
fn the_last_level_counts() {
    let config = Config { display_level: 0, ..defaults() };
    assert_eq!(parse(&strings(&["-l", "2", "0"])), proceed(&[], ".", config));
}

#[test]
fn a_level_that_is_no_number_ends_the_reading() {
    for text in ["two", "3", "7", "10", "255", "256", "1.5", "", "+", "2 ", "0x1", "٣"] {
        assert_eq!(
            parse(&strings(&["-l", text, "-h"])),
            Parsed { unknown: Vec::new(), outcome: Outcome::InvalidLevel { given: text.to_string() } }
        );
    }
}

#[test]
fn unknown_options_are_recorded_and_their_values_skipped() {
    assert_eq!(
        parse(&strings(&["src", "-x", "lost", "lost too", "-zz", "and this"])),
        proceed(&["-x", "-zz"], "src", defaults())
    );
}

#[test]
fn values_count_again_after_an_option_that_is_known() {
    let config = Config { ignored_dirs: strings(&["kept"]), ..defaults() };
    assert_eq!(parse(&strings(&["-x", "lost", "-i", "kept"])), proceed(&["-x"], ".", config));
    let hidden = Config { display_hidden: true, ..defaults() };
    assert_eq!(parse(&strings(&["-x", "lost", "-h", "more"])), proceed(&["-x"], "more", hidden));
    let level = Config { display_level: 2, ..defaults() };
    assert_eq!(parse(&strings(&["-x", "lost", "-l", "2"])), proceed(&["-x"], ".", level));
}

#[test]
fn a_lone_dash_is_an_unknown_option() {
    assert_eq!(parse(&strings(&["-"])), proceed(&["-"], ".", defaults()));
}

#[test]
fn an_empty_value_is_a_directory() {
    assert_eq!(parse(&strings(&[""])), proceed(&[], "", defaults()));
}

#[test]
fn help_ends_the_reading() {
    for flag in ["-help", "--h", "--help"] {
        assert_eq!(
            parse(&strings(&["-x", flag, "-y", "-l", "bad"])),
            Parsed { unknown: strings(&["-x"]), outcome: Outcome::Help }
        );
    }
}

#[test]
fn version_ends_the_reading() {
    for flag in ["-v", "-version", "--v", "--version"] {
        assert_eq!(
            parse(&strings(&[flag, "--help"])),
            Parsed { unknown: Vec::new(), outcome: Outcome::Version }
        );
    }
}

#[test]
fn the_short_h_is_the_hidden_switch_and_asks_no_help() {
    let config = Config { display_hidden: true, ..defaults() };
    assert_eq!(parse(&strings(&["-h"])), proceed(&[], ".", config));
}

#[test]
fn requests_return_no_configuration_and_no_warning() {
    assert_eq!(parse(&strings(&["-v"])), Parsed { unknown: Vec::new(), outcome: Outcome::Version });
    assert_eq!(parse(&strings(&["-version"])), Parsed { unknown: Vec::new(), outcome: Outcome::Version });
    assert_eq!(parse(&strings(&["-help"])), Parsed { unknown: Vec::new(), outcome: Outcome::Help });
}

#[test]
fn near_misses_of_requests_are_not_known() {
    for flag in ["-V", "-vv", "-versions", "-Help", "-helps", "---help", "--", "-ver"] {
        assert_eq!(parse(&strings(&[flag])), proceed(&[flag], ".", defaults()));
    }
}

#[test]
fn every_level_that_is_read_is_0_1_or_2() {
    let words = ["-l", "-level", "0", "1", "2", "3", "+1", "src", "-h", "-i", "-x"];
    for a in words {
        for b in words {
            for c in words {
                if let Outcome::Proceed { config, .. } = parse(&strings(&[a, b, c])).outcome {
                    assert!(config.display_level <= 2);
                }
            }
        }
    }
}

#[test]
fn what_comes_first_ends_the_reading() {
    assert_eq!(
        parse(&strings(&["-l", "bad", "--help"])).outcome,
        Outcome::InvalidLevel { given: "bad".to_string() }
    );
    assert_eq!(parse(&strings(&["--version", "-l", "bad"])).outcome, Outcome::Version);
}

#[test]
fn parse_level_reads_0_1_and_2() {
    assert_eq!(parse_level("0"), Some(0));
    assert_eq!(parse_level("1"), Some(1));
    assert_eq!(parse_level("2"), Some(2));
    assert_eq!(parse_level("+0"), Some(0));
    assert_eq!(parse_level("+2"), Some(2));
    assert_eq!(parse_level("0000000000000000000000002"), Some(2));
}

#[test]
fn parse_level_refuses_the_rest() {
    for text in [
        "", "+", "-1", "3", "7", "12", "20", "255", "256", "1000", "99999999999999999999", "1a",
        "a1", " 1", "1 ", "++1", "1+", "١", "0000003",
    ] {
        assert_eq!(parse_level(text), None);
    }
}

#[test]
fn parse_level_reads_numbers_as_the_standard_parser_does() {
    let samples = ["0", "9", "10", "002", "255", "256", "300", "+0", "+", "", "x", "2x", "+-1", "2 "];
    for text in samples {
        assert_eq!(parse_level(text), text.parse::<u8>().ok().filter(|level| *level <= 2));
    }
    for n in 0u32..400 {
        let text = n.to_string();
        assert_eq!(parse_level(&text), text.parse::<u8>().ok().filter(|level| *level <= 2));
    }
}

#[test]
fn version_text_names_the_program() {
    assert_eq!(version_text(), "Version 0.1.0 - baum");
}

#[test]
fn only_dot_at_level_two_is_the_current_directory() {
    let at = |level: u8| Config { display_level: level, ..defaults() };
    assert!(resolves_to_cwd(".", &at(2)));
    assert!(!resolves_to_cwd(".", &at(1)));
    assert!(!resolves_to_cwd(".", &at(0)));
    assert!(!resolves_to_cwd(".", &at(3)));
    assert!(!resolves_to_cwd("./", &at(2)));
    assert!(!resolves_to_cwd("src", &at(2)));
    assert!(!resolves_to_cwd("", &at(2)));
}
