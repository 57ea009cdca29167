use jobshop::cfg::Config;
use jobshop::cfg::ConfigError;
use jobshop::cfg::InputError;
use jobshop::cfg::Operation;
use jobshop::parse::line_start;
use jobshop::parse::parse_jobs;
use rand::distributions::Bernoulli;

fn blank(population: usize, couples: usize) -> Config {
    Config::from_opt(population, couples, Bernoulli::new(0.1).unwrap()).unwrap()
}

fn op(machine: usize, duration: u64) -> Operation {
    Operation { duration, machine }
}

#[test]
fn zero_population_is_refused() {
    let r = Config::from_opt(0, 3, Bernoulli::new(0.1).unwrap());
    assert_eq!(r.err(), Some(ConfigError::ZeroPopulation));
}

#[test]
fn fresh_configuration_holds_the_parameters_and_no_problem() {
    let conf = blank(7, 3);
    assert_eq!(conf.population, 7);
    assert_eq!(conf.couples, 3);
    assert_eq!(conf.machines, 0);
    assert!(conf.jobs.is_empty());
    assert!(conf.ordered_schedule.is_empty());
}

#[test]
fn zero_couples_are_accepted() {
    let conf = blank(1, 0);
    assert_eq!(conf.couples, 0);
}

#[test]
fn loading_jobs_sets_machines_and_template() {
    let mut conf = blank(5, 2);
    let jobs = vec![vec![op(0, 3), op(4, 2)], vec![], vec![op(1, 2), op(0, 4), op(2, 1)]];
    assert_eq!(conf.load_jobs(jobs.clone()), Ok(()));
    assert_eq!(conf.jobs, jobs);
    assert_eq!(conf.machines, 5);
    assert_eq!(conf.ordered_schedule, vec![0, 0, 2, 2, 2]);
    assert_eq!(conf.population, 5);
    assert_eq!(conf.couples, 2);
}

#[test]
fn zero_duration_is_refused() {
    let mut conf = blank(5, 2);
    assert_eq!(conf.load_jobs(vec![vec![op(0, 3), op(1, 0)]]), Err(InputError::ZeroDuration));
    assert!(conf.jobs.is_empty());
    assert!(conf.ordered_schedule.is_empty());
}

#[test]
fn largest_machine_number_is_refused() {
    let mut conf = blank(5, 2);
    assert_eq!(conf.load_jobs(vec![vec![op(usize::MAX, 3)]]), Err(InputError::MachineTooLarge));
    assert_eq!(conf.load_jobs(vec![vec![op(usize::MAX - 1, 3)]]), Ok(()));
    assert_eq!(conf.machines, usize::MAX);
}

#[test]
fn jobs_without_operations_are_refused() {
    let mut conf = blank(5, 2);
    assert_eq!(conf.load_jobs(vec![]), Err(InputError::NoOperations));
    assert_eq!(conf.load_jobs(vec![vec![], vec![]]), Err(InputError::NoOperations));
}

#[test]
fn durations_beyond_u64_are_refused() {
    let mut conf = blank(5, 2);
    let jobs = vec![vec![op(0, u64::MAX)], vec![op(1, 1)]];
    assert_eq!(conf.load_jobs(jobs), Err(InputError::DurationOverflow));
    assert_eq!(conf.load_jobs(vec![vec![op(0, u64::MAX - 1)], vec![op(1, 1)]]), Ok(()));
}

#[test]
fn the_first_defect_of_the_jobs_is_reported() {
    let mut conf = blank(5, 2);
    let jobs = vec![vec![op(usize::MAX, u64::MAX)], vec![op(1, 0)]];
    assert_eq!(conf.load_jobs(jobs), Err(InputError::ZeroDuration));
    let jobs = vec![vec![op(usize::MAX, u64::MAX)], vec![op(1, 1)]];
    assert_eq!(conf.load_jobs(jobs), Err(InputError::MachineTooLarge));
}

#[test]
fn a_failed_load_keeps_the_problem_loaded_before() {
    let mut conf = blank(5, 2);
    assert_eq!(conf.load_jobs(vec![vec![op(0, 3), op(1, 2)]]), Ok(()));
    assert_eq!(conf.load_jobs(vec![vec![op(0, 0)]]), Err(InputError::ZeroDuration));
    assert_eq!(conf.jobs, vec![vec![op(0, 3), op(1, 2)]]);
    assert_eq!(conf.machines, 2);
    assert_eq!(conf.ordered_schedule, vec![0, 0]);
}

#[test]
fn text_is_parsed_line_by_line() {
    let text = b"2 2\n0 3 1 2\n1 2 0 4\n";
    let jobs = parse_jobs(text).unwrap();
    assert_eq!(jobs, vec![vec![op(0, 3), op(1, 2)], vec![op(1, 2), op(0, 4)]]);
}

#[test]
fn the_header_line_is_passed_over() {
    let jobs = parse_jobs(b"this is no number at all\n5 6\n").unwrap();
    assert_eq!(jobs, vec![vec![op(5, 6)]]);
}

#[test]
fn a_last_line_needs_no_line_feed() {
    let jobs = parse_jobs(b"h\n0 3\n1 2").unwrap();
    assert_eq!(jobs, vec![vec![op(0, 3)], vec![op(1, 2)]]);
}

#[test]
fn any_white_space_separates_tokens() {
    let jobs = parse_jobs(b"h\n \t0\t 3\x0b1\x0c2 \r\n7   8\r\n").unwrap();
    assert_eq!(jobs, vec![vec![op(0, 3), op(1, 2)], vec![op(7, 8)]]);
}

#[test]
fn a_blank_line_is_a_job_without_operations() {
    let jobs = parse_jobs(b"h\n0 3\n\n1 2\n").unwrap();
    assert_eq!(jobs, vec![vec![op(0, 3)], vec![], vec![op(1, 2)]]);
    let jobs = parse_jobs(b"h\n\n").unwrap();
    assert_eq!(jobs, vec![Vec::<Operation>::new()]);
}

#[test]
fn a_plus_sign_and_leading_zeros_are_accepted() {
    let jobs = parse_jobs(b"h\n+1 +002\n").unwrap();
    assert_eq!(jobs, vec![vec![op(1, 2)]]);
}

#[test]
fn empty_text_is_refused() {
    assert_eq!(parse_jobs(b""), Err(InputError::Empty));
    let mut conf = blank(5, 2);
    assert_eq!(conf.load_text(b""), Err(InputError::Empty));
}

#[test]
fn text_without_operations_is_refused() {
    let mut conf = blank(5, 2);
    assert_eq!(parse_jobs(b"header"), Ok(vec![]));
    assert_eq!(conf.load_text(b"header"), Err(InputError::NoOperations));
    assert_eq!(conf.load_text(b"header\n"), Err(InputError::NoOperations));
    assert_eq!(conf.load_text(b"header\n\n  \n"), Err(InputError::NoOperations));
}

#[test]
fn a_malformed_machine_number_is_reported_with_its_place() {
    assert_eq!(parse_jobs(b"h\n0 3 x1 2\n"), Err(InputError::BadMachine { start: 6, end: 8 }));
    assert_eq!(parse_jobs(b"h\n-1 2\n"), Err(InputError::BadMachine { start: 2, end: 4 }));
    assert_eq!(parse_jobs(b"h\n+ 2\n"), Err(InputError::BadMachine { start: 2, end: 3 }));
    assert_eq!(parse_jobs(b"h\n1.5 2\n"), Err(InputError::BadMachine { start: 2, end: 5 }));
}

#[test]
fn a_machine_number_beyond_usize_is_malformed() {
    let text = b"h\n99999999999999999999999999 2\n";
    assert_eq!(parse_jobs(text), Err(InputError::BadMachine { start: 2, end: 28 }));
}

#[test]
fn a_missing_duration_is_reported() {
    assert_eq!(parse_jobs(b"h\n0 3 1\n"), Err(InputError::MissingDuration));
    assert_eq!(parse_jobs(b"h\n0 3 1   \n2 2\n"), Err(InputError::MissingDuration));
}

#[test]
fn a_malformed_duration_is_reported_with_its_place() {
    assert_eq!(parse_jobs(b"h\n0 3z\n"), Err(InputError::BadDuration { start: 4, end: 6 }));
    let text = b"h\n0 18446744073709551616\n";
    assert_eq!(parse_jobs(text), Err(InputError::BadDuration { start: 4, end: 24 }));
    let text = b"h\n0 18446744073709551615\n";
    assert_eq!(parse_jobs(text), Ok(vec![vec![op(0, u64::MAX)]]));
}

#[test]
fn a_zero_duration_in_text_is_reported() {
    assert_eq!(parse_jobs(b"h\n0 0\n"), Err(InputError::ZeroDuration));
    assert_eq!(parse_jobs(b"h\n0 000\n"), Err(InputError::ZeroDuration));
}

#[test]
fn the_first_error_of_the_text_is_reported() {
    assert_eq!(parse_jobs(b"h\n0 0 x 1\n"), Err(InputError::ZeroDuration));
    assert_eq!(parse_jobs(b"h\nx 0\n1\n"), Err(InputError::BadMachine { start: 2, end: 3 }));
    assert_eq!(parse_jobs(b"h\n1\n0 0\n"), Err(InputError::MissingDuration));
}

#[test]
fn loading_text_sets_the_problem() {
    let mut conf = blank(5, 2);
    assert_eq!(conf.load_text(b"2 2\n0 3 1 2\n1 2 0 4\n"), Ok(()));
    assert_eq!(conf.jobs, vec![vec![op(0, 3), op(1, 2)], vec![op(1, 2), op(0, 4)]]);
    assert_eq!(conf.machines, 2);
    assert_eq!(conf.ordered_schedule, vec![0, 0, 1, 1]);
}

#[test]
fn a_failed_text_load_changes_nothing() {
    let mut conf = blank(5, 2);
    assert_eq!(conf.load_text(b"2 2\n0 3 1 2\n"), Ok(()));
    assert_eq!(conf.load_text(b"2 2\n0 3 1\n"), Err(InputError::MissingDuration));
    assert_eq!(conf.jobs, vec![vec![op(0, 3), op(1, 2)]]);
    assert_eq!(conf.ordered_schedule, vec![0, 0]);
}

#[test]
fn the_largest_machine_number_in_text_is_refused() {
    let text = format!("h\n{} 1\n", usize::MAX);
    assert_eq!(parse_jobs(text.as_bytes()), Err(InputError::MachineTooLarge));
    let text = format!("h\n{} 1\n", usize::MAX - 1);
    assert_eq!(parse_jobs(text.as_bytes()), Ok(vec![vec![op(usize::MAX - 1, 1)]]));
}

#[test]
fn durations_in_text_beyond_u64_are_refused() {
    let mut conf = blank(5, 2);
    let text = format!("h\n0 {}\n1 1\n", u64::MAX);
    assert_eq!(conf.load_text(text.as_bytes()), Err(InputError::DurationOverflow));
    assert!(conf.jobs.is_empty());
}

#[test]
fn unicode_white_space_separates_tokens() {
    let jobs = parse_jobs(b"\n1\xc2\xa01").unwrap();
    assert_eq!(jobs, vec![vec![op(1, 1)]]);
    let text = "h\n0\u{85}3\u{a0}1\u{1680}2\n\u{2000}4\u{2001}5\u{2002}6\u{2003}7\u{2004}\n";
    let jobs = parse_jobs(text.as_bytes()).unwrap();
    assert_eq!(jobs, vec![vec![op(0, 3), op(1, 2)], vec![op(4, 5), op(6, 7)]]);
    let text = "h\n1\u{2005}2\u{2006}3\u{2007}4\u{2008}5\u{2009}6\u{200a}7\u{2028}8\n";
    let jobs = parse_jobs(text.as_bytes()).unwrap();
    assert_eq!(jobs, vec![vec![op(1, 2), op(3, 4), op(5, 6), op(7, 8)]]);
    let text = "h\n1\u{2029}2\u{202f}3\u{205f}4\u{3000}5 6\u{3000}\n";
    let jobs = parse_jobs(text.as_bytes()).unwrap();
    assert_eq!(jobs, vec![vec![op(1, 2), op(3, 4), op(5, 6)]]);
}

#[test]
fn the_parser_splits_as_the_standard_library_does() {
    let mut text = String::from("h\n");
    let mut expected = Vec::new();
    let mut n = 1;
    for code in 0..0x3100u32 {
        if let Some(c) = char::from_u32(code) {
            if c != '\n' && !c.is_ascii_digit() && c != '+' {
                text.push_str(&format!("{}{}{}\n", n, c, n + 1));
                if c.is_whitespace() {
                    expected.push((code, Some((n, n + 1))));
                } else {
                    expected.push((code, None));
                }
                n += 2;
            }
        }
    }
    let mut lines = text.lines();
    lines.next();
    for (line, (code, pair)) in lines.zip(expected) {
        let parsed = parse_jobs(format!("h\n{}\n", line).as_bytes());
        match pair {
            Some((machine, duration)) => {
                assert_eq!(parsed, Ok(vec![vec![op(machine, duration as u64)]]), "U+{:04X}", code)
            }
            None => assert!(parsed.is_err(), "U+{:04X}", code),
        }
    }
}

#[test]
fn characters_that_are_no_white_space_stay_in_their_token() {
    let text = "h\n1\u{200b}2 3\n";
    assert_eq!(parse_jobs(text.as_bytes()), Err(InputError::BadMachine { start: 2, end: 7 }));
    let text = "h\n1 2\u{feff}\n";
    assert_eq!(parse_jobs(text.as_bytes()), Err(InputError::BadDuration { start: 4, end: 8 }));
    assert_eq!(parse_jobs(b"h\n1\xc2 2\n"), Err(InputError::BadMachine { start: 2, end: 4 }));
    assert_eq!(parse_jobs(b"h\n1 2\xe2\x80"), Err(InputError::BadDuration { start: 4, end: 7 }));
}

#[test]
fn a_line_starts_behind_the_line_feed_before_it() {
    let text = b"ab\ncd\n\nef";
    assert_eq!(line_start(text, 0), 0);
    assert_eq!(line_start(text, 2), 0);
    assert_eq!(line_start(text, 3), 3);
    assert_eq!(line_start(text, 5), 3);
    assert_eq!(line_start(text, 6), 6);
    assert_eq!(line_start(text, 7), 7);
    assert_eq!(line_start(text, 9), 7);
    assert_eq!(line_start(b"", 0), 0);
}
