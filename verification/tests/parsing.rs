use truthgraph::cluster::compute_clusters;
use truthgraph::command::{Answer, Command, CommandError, CommandType};
use truthgraph::config::find_parameter;
use truthgraph::equalifier::exact_equalifier::ExactEqualifier;
use truthgraph::equalifier::numeric_vec_equalifier::vec_dist_algo;
use truthgraph::text::{is_space_char, join_from, parse_count, same_text, split_text, Separator};

#[test]
fn set_command() {
    let c = Command::from("SET q1 a FROM s1").unwrap();
    assert_eq!(c.cmd, CommandType::SetAnswer);
    assert_eq!(c.question.as_deref(), Some("q1"));
    assert_eq!(c.answer.as_deref(), Some("a"));
    assert_eq!(c.source.as_deref(), Some("s1"));
    assert_eq!(c.distribution, "default");
    assert_eq!(c.config_key, None);
    let lower = Command::from("  set   q1\ta from s1  ").unwrap();
    assert_eq!(lower.cmd, CommandType::SetAnswer);
    assert_eq!(lower.source.as_deref(), Some("s1"));
}

#[test]
fn get_commands() {
    let a = Command::from("GET ANSWER TO q1").unwrap();
    assert_eq!(a.cmd, CommandType::GetAnswer);
    assert_eq!(a.question.as_deref(), Some("q1"));
    assert_eq!(a.source, None);
    let s = Command::from("get SOURCE s1").unwrap();
    assert_eq!(s.cmd, CommandType::GetSource);
    assert_eq!(s.source.as_deref(), Some("s1"));
    let l = Command::from("GET ANSWERS TO q2").unwrap();
    assert_eq!(l.cmd, CommandType::GetAnswers);
    assert_eq!(l.question.as_deref(), Some("q2"));
}

#[test]
fn believe_configure_and_test_commands() {
    let b = Command::from("BELIEVE s4").unwrap();
    assert_eq!(b.cmd, CommandType::Believe);
    assert_eq!(b.source.as_deref(), Some("s4"));
    let c = Command::from("CONFIGURE maximum_strength 50").unwrap();
    assert_eq!(c.cmd, CommandType::Configure);
    assert_eq!(c.config_key.as_deref(), Some("maximum_strength"));
    assert_eq!(c.config_val.as_deref(), Some("50"));
    assert_eq!(c.distribution, "");
    let t = Command::from("TEST EQUALITY a b").unwrap();
    assert_eq!(t.cmd, CommandType::TestEquality);
    assert_eq!(t.answer1.as_deref(), Some("a"));
    assert_eq!(t.answer2.as_deref(), Some("b"));
}

#[test]
fn lines_that_are_no_command() {
    assert_eq!(Command::from("").err(), Some(CommandError::Empty));
    assert_eq!(Command::from("   ").err(), Some(CommandError::Empty));
    assert_eq!(Command::from("SET q1 a FROM").err(), Some(CommandError::Incomplete));
    assert_eq!(Command::from("BELIEVE").err(), Some(CommandError::Incomplete));
    assert_eq!(Command::from("CONFIGURE key").err(), Some(CommandError::Incomplete));
    assert_eq!(Command::from("GET answer TO q").err(), Some(CommandError::InvalidGet));
    assert_eq!(Command::from("GET ANSWER TO").err(), Some(CommandError::InvalidGet));
    assert_eq!(Command::from("TEST EQUALITY a").err(), Some(CommandError::InvalidTest));
    assert_eq!(Command::from("DROP q1").err(), Some(CommandError::UnknownCommand));
}

#[test]
fn default_command_is_invalid_and_empty() {
    let c = Command::default();
    assert_eq!(c.cmd, CommandType::Invalid);
    assert_eq!(c.cmd, CommandType::default());
    assert_eq!(c.source, None);
    assert_eq!(c.distribution, "");
}

#[test]
fn answer_carries_the_fingerprint_of_its_content() {
    let a = Answer::new(String::from("hello"), String::from("s1"));
    assert_eq!(a.content, "hello");
    assert_eq!(a.source, "s1");
    assert_eq!(a.hash, fasthash::metro::hash64("hello".as_bytes()));
    assert_eq!(a.hash, 6455825309044375053);
    let b = Answer::new(String::from("hello"), String::from("s2"));
    let c = Answer::new(String::from("world"), String::from("s1"));
    assert_eq!(a.hash, b.hash);
    assert_ne!(a.hash, c.hash);
    let d = a.duplicate();
    assert_eq!(d.hash, a.hash);
    assert_eq!(d.content, a.content);
    assert_eq!(d.source, a.source);
}

#[test]
fn exact_comparison_accepts_every_answer() {
    let e = ExactEqualifier::new();
    let a = Answer::new(String::from(""), String::from("s1"));
    assert!(e.is_valid_answer(&a));
}

#[test]
fn white_space_is_what_the_standard_library_says() {
    for n in 0..=0x10ffff_u32 {
        if let Some(c) = char::from_u32(n) {
            assert_eq!(is_space_char(c), c.is_whitespace());
        }
    }
}

#[test]
fn split_at_white_space_drops_empty_pieces() {
    let words = split_text("  a\tbc \u{2003} d\n", Separator::Whitespace, false);
    assert_eq!(words, vec!["a", "bc", "d"]);
    let expected: Vec<&str> = "  a\tbc \u{2003} d\n".split_whitespace().collect();
    assert_eq!(words, expected);
    assert!(split_text("", Separator::Whitespace, false).is_empty());
}

#[test]
fn split_at_a_symbol_keeps_empty_pieces() {
    assert_eq!(split_text("1,2,,3,", Separator::Symbol(','), true), vec!["1", "2", "", "3", ""]);
    assert_eq!(split_text("", Separator::Symbol(','), true), vec![""]);
    assert_eq!(split_text("a=b=c", Separator::Symbol('='), true), vec!["a", "b", "c"]);
    assert_eq!(split_text("é,ü", Separator::Symbol(','), true), vec!["é", "ü"]);
}

#[test]
fn counts() {
    assert_eq!(parse_count("0"), Some(0));
    assert_eq!(parse_count("10"), Some(10));
    assert_eq!(parse_count("+7"), Some(7));
    assert_eq!(parse_count("007"), Some(7));
    assert_eq!(parse_count(""), None);
    assert_eq!(parse_count("+"), None);
    assert_eq!(parse_count("-1"), None);
    assert_eq!(parse_count("1.5"), None);
    assert_eq!(parse_count("12a"), None);
    let max = format!("{}", usize::MAX);
    assert_eq!(parse_count(&max), Some(usize::MAX));
    assert_eq!(parse_count(&format!("{}0", max)), None);
    assert_eq!(parse_count("18446744073709551616"), "18446744073709551616".parse::<usize>().ok());
}

#[test]
fn same_text_compares_contents() {
    assert!(same_text("abc", "abc"));
    assert!(!same_text("abc", "abd"));
    assert!(!same_text("abc", "ab"));
}

#[test]
fn parameters_of_a_configuration_value() {
    let words = vec![
        String::from("numeric_vec"),
        String::from("vec_length=2"),
        String::from("diff_fn=l1=x"),
        String::from("vec_length=3"),
        String::from("empty="),
    ];
    assert_eq!(find_parameter(&words, "vec_length").as_deref(), Some("3"));
    assert_eq!(find_parameter(&words, "diff_fn").as_deref(), Some("l1"));
    assert_eq!(find_parameter(&words, "empty").as_deref(), Some(""));
    assert_eq!(find_parameter(&words, "numeric_vec"), None);
    assert_eq!(find_parameter(&words, "allowed_difference"), None);
}

#[test]
fn measures_by_name() {
    assert_eq!(vec_dist_algo::from("l1"), Some(vec_dist_algo::L1));
    assert_eq!(vec_dist_algo::from("l2"), Some(vec_dist_algo::L2));
    assert_eq!(vec_dist_algo::from("percent_not_equal"), Some(vec_dist_algo::percent_not_equal));
    assert_eq!(vec_dist_algo::from("L1"), None);
    assert_eq!(vec_dist_algo::from("iou"), Some(vec_dist_algo::iou));
    assert_eq!(vec_dist_algo::from("cosine"), None);
}

#[test]
fn clusters_follow_the_first_member() {
    // 0 and 2 belong together, 1 and 3 belong together, 4 stands alone.
    let mut table = vec![vec![false; 5]; 5];
    for (a, b) in [(0, 2), (1, 3)] {
        table[a][b] = true;
        table[b][a] = true;
    }
    for a in 0..5 {
        table[a][a] = true;
    }
    assert_eq!(compute_clusters(&table), vec![vec![0, 2], vec![1, 3], vec![4]]);
    assert!(compute_clusters(&Vec::new()).is_empty());
    // An answer joins the first cluster whose first member it is linked to.
    let mut chain = vec![vec![false; 3]; 3];
    chain[0][2] = true;
    chain[1][2] = true;
    assert_eq!(compute_clusters(&chain), vec![vec![0, 2], vec![1]]);
    // A table with rows that are too short says no.
    let short = vec![vec![true], vec![]];
    assert_eq!(compute_clusters(&short), vec![vec![0], vec![1]]);
}

#[test]
fn commands_are_written_as_lines() {
    for line in [
        "SET q1 a FROM s1",
        "GET ANSWER TO q1",
        "GET SOURCE s1",
        "BELIEVE s1",
        "CONFIGURE maximum_strength 50",
        "TEST EQUALITY a b",
        "GET ANSWERS TO q1",
    ] {
        let c = Command::from(line).unwrap();
        assert_eq!(c.to_text().as_deref(), Some(line));
    }
    let mut c = Command::default();
    assert_eq!(c.to_text().as_deref(), Some("INVALID"));
    c.cmd = CommandType::Believe;
    assert_eq!(c.to_text(), None);
}

#[test]
fn the_value_of_a_configuration_is_the_rest_of_the_line() {
    let c = Command::from("CONFIGURE comparison_method  numeric   max_distance=4 ").unwrap();
    assert_eq!(c.config_key.as_deref(), Some("comparison_method"));
    assert_eq!(c.config_val.as_deref(), Some("numeric max_distance=4"));
    assert_eq!(c.to_text().as_deref(), Some("CONFIGURE comparison_method numeric max_distance=4"));
}

#[test]
fn pieces_are_joined_by_one_space() {
    let pieces = vec![String::from("a"), String::from("bc"), String::from(""), String::from("d")];
    assert_eq!(join_from(&pieces, 0), "a bc  d");
    assert_eq!(join_from(&pieces, 1), "bc  d");
    assert_eq!(join_from(&pieces, 3), "d");
    assert_eq!(join_from(&pieces, 4), "");
    assert_eq!(join_from(&pieces, 9), "");
}
