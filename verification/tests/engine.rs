use truthgraph::command::{Answer, Command, CommandResponse, CommandType};
use truthgraph::equalifier::numeric_vec_equalifier::{vec_dist_algo, NumericVecEqualifier};
use truthgraph::equalifier::{Equalifier, NumericEqualifier};
use truthgraph::graph::{read_configuration, Configuration, Graph, GraphError, Question, Source};
use truthgraph::config::ConfigParameter;
use truthgraph::scalar::{read_number, Distance, Scalar, Text, Weight};
use truthgraph::text::is_number_text;

#[derive(Clone, Copy, Debug, PartialEq)]
struct Real(f64);

impl Scalar for Real {
    fn ratio(numer: u32, denom: u32) -> Self {
        Real(f64::from(numer) / f64::from(denom))
    }
    fn count(count: usize) -> Self {
        Real(count as f64)
    }
    fn written(_text: Text) -> Self {
        unreachable!("a name for contracts only")
    }
    fn sum_of(self, other: Self) -> Self {
        Real(self.0 + other.0)
    }
    fn difference(self, other: Self) -> Self {
        Real(self.0 - other.0)
    }
    fn product(self, other: Self) -> Self {
        Real(self.0 * other.0)
    }
    fn quotient(self, other: Self) -> Self {
        Real(self.0 / other.0)
    }
    fn absolute(self) -> Self {
        Real(self.0.abs())
    }
    fn square_root(self) -> Self {
        Real(self.0.sqrt())
    }
    fn logarithm(self, base: Self) -> Self {
        Real(self.0.log(base.0))
    }
    fn clamped(self, low: Self, high: Self) -> Self {
        if low.0 <= high.0 {
            Real(num::clamp(self.0, low.0, high.0))
        } else {
            Real(f64::NAN)
        }
    }
    fn above(self, other: Self) -> bool {
        self.0 > other.0
    }
    fn same(self, other: Self) -> bool {
        self.0 == other.0
    }

    fn from_ratio(numer: u32, denom: u32) -> Self {
        Self::ratio(numer, denom)
    }
    fn from_count(count: usize) -> Self {
        Self::count(count)
    }
    fn parse(text: &str) -> Self {
        Real(text.parse::<f64>().unwrap_or(f64::NAN))
    }
    fn plus(self, other: Self) -> Self {
        self.sum_of(other)
    }
    fn minus(self, other: Self) -> Self {
        self.difference(other)
    }
    fn times(self, other: Self) -> Self {
        self.product(other)
    }
    fn over(self, other: Self) -> Self {
        self.quotient(other)
    }
    fn magnitude(self) -> Self {
        self.absolute()
    }
    fn root(self) -> Self {
        self.square_root()
    }
    fn log_base(self, base: Self) -> Self {
        self.logarithm(base)
    }
    fn clamp_between(self, low: Self, high: Self) -> Self {
        self.clamped(low, high)
    }
    fn exceeds(self, other: Self) -> bool {
        self.above(other)
    }
    fn equals(self, other: Self) -> bool {
        self.same(other)
    }
}

fn close(a: f64, b: f64) -> bool {
    (a - b).abs() < 1.0e-6
}

fn render(output: &CommandResponse<Real>) -> String {
    match output.cmd {
        CommandType::GetAnswer => format!(
            "{} ({:.3}%)",
            output.answer.as_ref().unwrap(),
            output.confidence.unwrap().0 * 100.0
        ),
        CommandType::GetSource => format!("{:.3}", output.quality.unwrap().0),
        CommandType::TestEquality => format!("{:.3}", output.distance.unwrap().value().0),
        CommandType::GetAnswers => output
            .answers
            .as_ref()
            .unwrap()
            .iter()
            .map(|p| format!("{} ({:.3}%)", p.answer, p.confidence.0 * 100.0))
            .collect::<Vec<String>>()
            .join(", "),
        _ => String::new(),
    }
}

fn run(g: &mut Graph<Real>, line: &str) -> CommandResponse<Real> {
    let command = Command::from(line).unwrap();
    g.execute_command(&command).unwrap()
}

#[test]
fn numeric_vector_distance_test_l1() {
    let nd = NumericVecEqualifier::new(Real(1.0), vec_dist_algo::L1, 2);
    let a = Answer::new(String::from("1.0,2.0"), String::from("s1"));
    let b = Answer::new(String::from("1.1,2.1"), String::from("s2"));
    assert!(close(nd.get_distance(&a, &b).value().0, 0.2));
}

#[test]
fn numeric_vector_distance_test_l2() {
    let nd = NumericVecEqualifier::new(Real(1.0), vec_dist_algo::L2, 2);
    let a = Answer::new(String::from("1.0,2.0"), String::from("s1"));
    let b = Answer::new(String::from("1.1,2.1"), String::from("s2"));
    assert!(close(nd.get_distance(&a, &b).value().0, (0.02_f64).sqrt()));
}

#[test]
fn numeric_vector_distance_test_percent_not_equal() {
    let nd = NumericVecEqualifier::new(Real(0.25), vec_dist_algo::percent_not_equal, 10);
    let a = Answer::new(String::from("1,2,3,4,5,6,7,8,9,10"), String::from("s1"));
    let b = Answer::new(String::from("1,1,3,4,5,6,7,8,9,10"), String::from("s2"));
    assert!(close(nd.get_distance(&a, &b).value().0, 0.1 / 0.25));
}

#[test]
fn test_graph_1() {
    let commands: Vec<Command> = "\
    SET q1 a FROM s1
    SET q1 a FROM s2
    SET q1 a FROM s3
    SET q1 w FROM s4

    SET q2 b FROM s1
    SET q2 c FROM s2
    SET q2 b FROM s3
    SET q2 w FROM s4

    SET q3 d FROM s1
    SET q4 e FROM s2
    SET q5 f FROM s3
    SET q6 w FROM s4

    GET ANSWER TO q1
    GET ANSWER TO q2
    GET ANSWER TO q3
    GET ANSWER TO q4
    GET ANSWER TO q5
    GET ANSWER TO q6
    GET SOURCE s1
    GET SOURCE s2
    GET SOURCE s3
    GET SOURCE s4

    BELIEVE s4
    GET SOURCE s4
    GET ANSWER TO q6

    TEST EQUALITY a a
    TEST EQUALITY a b

    GET ANSWERS TO q2
    "
    .lines()
    .filter(|l| !l.trim().is_empty())
    .map(|l| Command::from(l.trim()))
    .filter_map(|x| x.ok())
    .collect();

    let mut g: Graph<Real> = Graph::new();

    let mut outputs: Vec<String> = Vec::new();

    for command in &commands {
        let output = g.execute_command(&command).unwrap();
        if output.cmd == CommandType::GetAnswer
            || output.cmd == CommandType::GetSource
            || output.cmd == CommandType::TestEquality
            || output.cmd == CommandType::GetAnswers
        {
            outputs.push(format!("> {}", render(&output)));
        }
    }

    assert_eq!(
        outputs.join("\n"),
        "\
> a (95.885%)
> b (95.607%)
> d (86.641%)
> e (50.379%)
> f (86.641%)
> w (13.359%)
> 0.866
> 0.504
> 0.866
> 0.134
> 0.999
> w (99.900%)
> 0.000
> 1.000
> b (98.215%), c (50.379%), w (99.900%)"
    );
}

#[test]
fn new_graph_has_the_default_settings() {
    let g: Graph<Real> = Graph::new();
    assert_eq!(g.default_source_quality.0, 0.5);
    assert_eq!(g.initial_source_strength.0, 1.0);
    assert_eq!(g.maximum_strength.0, 100.0);
    assert_eq!(g.log_weight_factor.0, 10.0);
    assert_eq!(g.quality_of_believed_sources.0, 0.999);
    assert!(matches!(g.equalifier, Equalifier::Exact(_)));
    assert!(g.sources.is_empty());
    assert!(g.questions.is_empty());
}

#[test]
fn new_with_equalifier_installs_the_comparison() {
    let g: Graph<Real> =
        Graph::new_with_equalifier(Equalifier::Numeric(NumericEqualifier::new(Real(4.0))));
    match g.equalifier {
        Equalifier::Numeric(e) => assert_eq!(e.max_distance.0, 4.0),
        _ => panic!("the numeric comparison was not installed"),
    }
}

#[test]
fn sources_and_questions_are_created_once() {
    let mut g: Graph<Real> = Graph::new();
    g.create_source_if_not_exists("s1");
    g.create_source_if_not_exists("s1");
    g.create_question_if_not_exists("q1");
    g.create_question_if_not_exists("q1");
    g.create_question_if_not_exists("q2");
    assert_eq!(g.sources.len(), 1);
    assert_eq!(g.sources[0].name, "s1");
    assert_eq!(g.sources[0].quality.0, 0.5);
    assert_eq!(g.sources[0].strength.0, 1.0);
    assert_eq!(g.questions.len(), 2);
    assert_eq!(g.questions[1].name, "q2");
    assert_eq!(g.find_source("s1"), Some(0));
    assert_eq!(g.find_source("s2"), None);
    assert_eq!(g.find_question("q2"), Some(1));
}

#[test]
fn a_single_answer_has_no_weight() {
    let mut g: Graph<Real> = Graph::new();
    run(&mut g, "SET q a FROM s");
    assert!(matches!(g.questions[0].weight, Weight::Nothing));
    assert_eq!(g.questions[0].weight.value().0, 0.0);
    assert_eq!(g.questions[0].confidence.0, 0.5);
    assert_eq!(g.questions[0].correct_answers.len(), 1);
    assert_eq!(g.sources[0].quality.0, 0.5);
    assert_eq!(g.sources[0].strength.0, 1.0);
}

#[test]
fn two_agreeing_answers_give_weight_and_quality() {
    let mut g: Graph<Real> = Graph::new();
    run(&mut g, "SET q a FROM s1");
    run(&mut g, "SET q a FROM s2");
    // confidence = 1 - 0.5 * 0.5, weight = -log10(0.25)
    let weight = -(0.25_f64).log(10.0);
    assert!(close(g.questions[0].confidence.0, 0.75));
    assert!(close(g.questions[0].weight.value().0, weight));
    // quality = (0.5 * 1 + weight) / (1 + weight)
    assert!(close(g.sources[0].quality.0, (0.5 + weight) / (1.0 + weight)));
    assert!(close(g.sources[0].strength.0, 1.0 + weight));
    assert!(close(g.sources[1].quality.0, (0.5 + weight) / (1.0 + weight)));
}

#[test]
fn set_then_get_answer_returns_an_answer_of_the_question() {
    let mut g: Graph<Real> = Graph::new();
    run(&mut g, "SET q a FROM s1");
    let r = run(&mut g, "GET ANSWER TO q");
    assert_eq!(r.answer.as_deref(), Some("a"));
    assert!(r.confidence.unwrap().0 >= 0.0 && r.confidence.unwrap().0 <= 1.0);
}

#[test]
fn get_answer_to_a_new_question_is_none() {
    let mut g: Graph<Real> = Graph::new();
    let r = run(&mut g, "GET ANSWER TO q");
    assert_eq!(r.answer.as_deref(), Some("None"));
    assert_eq!(r.confidence.unwrap().0, 0.0);
    assert_eq!(g.questions.len(), 1);
}

#[test]
fn believe_then_get_source_gives_the_quality_of_believed_sources() {
    let mut g: Graph<Real> = Graph::new();
    run(&mut g, "BELIEVE s");
    let r = run(&mut g, "GET SOURCE s");
    assert_eq!(r.quality.unwrap().0, 0.999);
    assert_eq!(g.sources[0].strength.0, 100.0);
}

#[test]
fn a_source_that_gave_no_answer_keeps_its_numbers() {
    let mut g: Graph<Real> = Graph::new();
    run(&mut g, "GET SOURCE idle");
    run(&mut g, "SET q a FROM s1");
    run(&mut g, "SET q a FROM s2");
    run(&mut g, "GET ANSWER TO q");
    assert_eq!(g.sources[0].quality.0, 0.5);
    assert_eq!(g.sources[0].strength.0, 1.0);
}

#[test]
fn successive_reads_return_the_same_answer() {
    let mut g: Graph<Real> = Graph::new();
    run(&mut g, "SET q a FROM s1");
    run(&mut g, "SET q a FROM s2");
    run(&mut g, "SET q b FROM s3");
    let first = run(&mut g, "GET ANSWER TO q");
    let second = run(&mut g, "GET ANSWER TO q");
    assert_eq!(first.answer, second.answer);
    assert!(close(first.confidence.unwrap().0, second.confidence.unwrap().0));
}

#[test]
fn qualities_and_strengths_stay_in_range() {
    let mut g: Graph<Real> = Graph::new();
    for round in 0..40 {
        for s in 0..4 {
            let answer = if s == 3 { "w" } else { "a" };
            run(&mut g, &format!("SET q{} {} FROM s{}", round % 3, answer, s));
        }
        run(&mut g, &format!("GET ANSWER TO q{}", round % 3));
    }
    assert!(g.is_in_order());
    for s in &g.sources {
        assert!(s.quality.0 >= 0.0 && s.quality.0 <= 1.0);
        assert!(s.strength.0 >= 0.0 && s.strength.0 <= 100.0);
    }
    for q in &g.questions {
        assert!(q.confidence.0 >= 0.0 && q.confidence.0 <= 1.0);
        assert!(q.weight.value().0 >= 0.0);
        for c in &q.correct_answers {
            assert!(q.answers.iter().any(|a| a.content == c.content && a.source == c.source));
        }
    }
}

#[test]
fn test_equality_under_exact_comparison() {
    let mut g: Graph<Real> = Graph::new();
    let same = run(&mut g, "TEST EQUALITY x x");
    assert!(matches!(same.distance, Some(Distance::Zero)));
    assert_eq!(same.distance.unwrap().value().0, 0.0);
    let other = run(&mut g, "TEST EQUALITY x y");
    assert!(matches!(other.distance, Some(Distance::One)));
    assert_eq!(other.distance.unwrap().value().0, 1.0);
}

fn configure(g: &mut Graph<Real>, key: &str, val: &str) -> Result<CommandResponse<Real>, GraphError> {
    let mut c = Command::default();
    c.cmd = CommandType::Configure;
    c.config_key = Some(String::from(key));
    c.config_val = Some(String::from(val));
    g.execute_command(&c)
}

#[test]
fn test_equality_under_numeric_comparison() {
    let mut g: Graph<Real> = Graph::new();
    configure(&mut g, "comparison_method", "numeric max_distance=4").unwrap();
    let same = run(&mut g, "TEST EQUALITY 2.5 2.5");
    assert_eq!(same.distance.unwrap().value().0, 0.0);
    let near = run(&mut g, "TEST EQUALITY 1 2");
    assert!(close(near.distance.unwrap().value().0, 0.25));
    let far = run(&mut g, "TEST EQUALITY 1 20");
    assert_eq!(far.distance.unwrap().value().0, 1.0);
    let unreadable = run(&mut g, "TEST EQUALITY 1 x");
    assert!(matches!(unreadable.distance, Some(Distance::One)));
}

#[test]
fn numeric_answers_cluster_by_distance() {
    let mut g: Graph<Real> = Graph::new();
    configure(&mut g, "comparison_method", "numeric max_distance=1").unwrap();
    run(&mut g, "SET q 1.0 FROM s1");
    run(&mut g, "SET q 1.5 FROM s2");
    run(&mut g, "SET q 7 FROM s3");
    let r = run(&mut g, "GET ANSWER TO q");
    assert_eq!(r.answer.as_deref(), Some("1.0"));
    assert_eq!(g.questions[0].correct_answers.len(), 2);
}

#[test]
fn configure_numeric_vec() {
    let mut g: Graph<Real> = Graph::new();
    configure(
        &mut g,
        "comparison_method",
        "numeric_vec allowed_difference=1.0 vec_length=2 diff_fn=l1",
    )
    .unwrap();
    match g.equalifier {
        Equalifier::NumericVec(e) => {
            assert_eq!(e.allowed_difference.0, 1.0);
            assert_eq!(e.vec_length, 2);
            assert_eq!(e.diff_fn, vec_dist_algo::L1);
            let a = Answer::new(String::from("1.0,2.0"), String::from("s1"));
            let b = Answer::new(String::from("1.0"), String::from("s1"));
            assert!(e.is_valid_answer(&a));
            assert!(!e.is_valid_answer(&b));
            assert!(matches!(e.get_distance(&a, &b), Distance::One));
        }
        _ => panic!("the vector comparison was not installed"),
    }
    let r = run(&mut g, "TEST EQUALITY 1.0,2.0 1.1,2.1");
    assert!(close(r.distance.unwrap().value().0, 0.2));
}

#[test]
fn configure_errors_leave_the_graph_unchanged() {
    let mut g: Graph<Real> = Graph::new();
    assert_eq!(
        configure(&mut g, "comparison_method", "numeric").err(),
        Some(GraphError::ConfigMissingParameter(ConfigParameter::MaxDistance))
    );
    assert_eq!(
        configure(&mut g, "comparison_method", "numeric_vec vec_length=2 diff_fn=l1").err(),
        Some(GraphError::ConfigMissingParameter(ConfigParameter::AllowedDifference))
    );
    assert_eq!(
        configure(&mut g, "comparison_method", "numeric_vec allowed_difference=1 diff_fn=l1").err(),
        Some(GraphError::ConfigMissingParameter(ConfigParameter::VecLength))
    );
    assert_eq!(
        configure(&mut g, "comparison_method", "numeric_vec allowed_difference=1 vec_length=3")
            .err(),
        Some(GraphError::ConfigMissingParameter(ConfigParameter::DiffFn))
    );
    assert_eq!(
        configure(&mut g, "comparison_method", "fuzzy").err(),
        Some(GraphError::ConfigUnknownMethod)
    );
    assert_eq!(configure(&mut g, "colour", "red").err(), Some(GraphError::ConfigUnknownKey));
    assert_eq!(
        configure(&mut g, "maximum_strength", "much").err(),
        Some(GraphError::ConfigMissingParameter(ConfigParameter::Value))
    );
    assert!(matches!(g.equalifier, Equalifier::Exact(_)));
    assert_eq!(g.maximum_strength.0, 100.0);
}

#[test]
fn configure_settings() {
    let mut g: Graph<Real> = Graph::new();
    configure(&mut g, "default_source_quality", "0.25").unwrap();
    configure(&mut g, "initial_source_strength", "2").unwrap();
    configure(&mut g, "maximum_strength", "50").unwrap();
    configure(&mut g, "log_weight_factor", "2").unwrap();
    assert_eq!(g.default_source_quality.0, 0.25);
    assert_eq!(g.initial_source_strength.0, 2.0);
    assert_eq!(g.maximum_strength.0, 50.0);
    assert_eq!(g.log_weight_factor.0, 2.0);
    run(&mut g, "GET SOURCE s");
    assert_eq!(g.sources[0].quality.0, 0.25);
    assert_eq!(g.sources[0].strength.0, 2.0);
    configure(&mut g, "comparison_method", "exact").unwrap();
    assert!(matches!(g.equalifier, Equalifier::Exact(_)));
}

#[test]
fn commands_without_their_fields_are_refused() {
    let mut g: Graph<Real> = Graph::new();
    let mut c = Command::default();
    assert_eq!(g.execute_command(&c).err(), Some(GraphError::NotImplemented));
    c.cmd = CommandType::SetAnswer;
    assert_eq!(g.execute_command(&c).err(), Some(GraphError::MissingField));
    c.cmd = CommandType::GetAnswers;
    assert_eq!(g.execute_command(&c).err(), Some(GraphError::MissingField));
    assert!(g.sources.is_empty());
    assert!(g.questions.is_empty());
    assert_eq!(GraphError::NotImplemented.message(), "Not implemented or invalid command");
    assert_eq!(
        GraphError::ConfigMissingParameter(ConfigParameter::MaxDistance).message(),
        "max_distance must be specified"
    );
}

#[test]
fn get_answers_gives_one_answer_for_each_fingerprint() {
    let mut g: Graph<Real> = Graph::new();
    run(&mut g, "SET q a FROM s1");
    run(&mut g, "SET q b FROM s2");
    run(&mut g, "SET q a FROM s3");
    let r = run(&mut g, "GET ANSWERS TO q");
    let answers = r.answers.unwrap();
    assert_eq!(answers.len(), 2);
    assert_eq!(answers[0].answer, "a");
    assert_eq!(answers[1].answer, "b");
    let none = run(&mut g, "GET ANSWERS TO unknown");
    assert!(none.answers.unwrap().is_empty());
}

#[test]
fn a_source_without_strength_starts_afresh() {
    let mut g: Graph<Real> = Graph::new();
    configure(&mut g, "initial_source_strength", "0").unwrap();
    run(&mut g, "SET q a FROM s1");
    let r = run(&mut g, "GET SOURCE s1");
    assert_eq!(r.quality.unwrap().0, 0.5);
    assert_eq!(g.sources[0].strength.0, 0.0);
    run(&mut g, "SET q a FROM s2");
    run(&mut g, "GET ANSWER TO q");
    for s in &g.sources {
        assert!(s.quality.0 >= 0.0 && s.quality.0 <= 1.0);
        assert!(s.strength.0 >= 0.0 && s.strength.0 <= 100.0);
    }
}

#[test]
fn strength_stops_at_the_maximum() {
    let mut g: Graph<Real> = Graph::new();
    configure(&mut g, "maximum_strength", "1.5").unwrap();
    run(&mut g, "SET q a FROM s1");
    run(&mut g, "SET q a FROM s2");
    assert_eq!(g.sources[0].strength.0, 1.5);
    assert_eq!(g.sources[1].strength.0, 1.5);
}

#[test]
fn reading_and_installing_a_configuration() {
    let c = read_configuration::<Real>("log_weight_factor", "2.5").unwrap();
    assert!(matches!(c, Configuration::LogWeightFactor(Real(v)) if v == 2.5));
    let mut g: Graph<Real> = Graph::new();
    g.install(c);
    assert_eq!(g.log_weight_factor.0, 2.5);
    assert_eq!(g.maximum_strength.0, 100.0);
    g.install(Configuration::Comparison(Equalifier::Numeric(NumericEqualifier::new(Real(3.0)))));
    assert!(matches!(g.equalifier, Equalifier::Numeric(_)));
    assert_eq!(
        read_configuration::<Real>("comparison_method", "").err(),
        Some(GraphError::ConfigUnknownMethod)
    );
    assert_eq!(
        read_configuration::<Real>("comparison_method", "numeric max_distance=far").err(),
        Some(GraphError::ConfigMissingParameter(ConfigParameter::MaxDistance))
    );
}

#[test]
fn answers_with_the_content_none_are_answers() {
    let mut g: Graph<Real> = Graph::new();
    run(&mut g, "SET q None FROM s1");
    let r = run(&mut g, "GET ANSWER TO q");
    assert_eq!(r.answer.as_deref(), Some("None"));
    assert_eq!(g.questions[0].correct_answers.len(), 1);
}

#[test]
fn a_source_may_answer_twice() {
    let mut g: Graph<Real> = Graph::new();
    run(&mut g, "SET q a FROM s1");
    run(&mut g, "SET q b FROM s1");
    assert_eq!(g.questions[0].answers.len(), 2);
    assert_eq!(g.sources.len(), 1);
    let r = run(&mut g, "GET ANSWER TO q");
    assert_eq!(r.answer.as_deref(), Some("a"));
}

#[test]
fn a_graph_with_given_settings() {
    let mut g: Graph<Real> = Graph::with_settings(
        Real(0.25),
        Real(2.0),
        Real(50.0),
        Real(2.0),
        Real(0.9),
        Equalifier::Numeric(NumericEqualifier::new(Real(1.0))),
    );
    assert_eq!(g.default_source_quality.0, 0.25);
    assert_eq!(g.initial_source_strength.0, 2.0);
    assert_eq!(g.maximum_strength.0, 50.0);
    assert_eq!(g.log_weight_factor.0, 2.0);
    assert_eq!(g.quality_of_believed_sources.0, 0.9);
    run(&mut g, "BELIEVE s");
    assert_eq!(g.sources[0].quality.0, 0.9);
    assert_eq!(g.sources[0].strength.0, 50.0);
}

#[test]
fn a_comparison_is_configured_by_a_line() {
    let mut g: Graph<Real> = Graph::new();
    run(&mut g, "CONFIGURE comparison_method numeric_vec allowed_difference=0.25 vec_length=10 diff_fn=percent_not_equal");
    let r = run(&mut g, "TEST EQUALITY 1,2,3,4,5,6,7,8,9,10 1,1,3,4,5,6,7,8,9,10");
    assert!(close(r.distance.unwrap().value().0, 0.4));
    run(&mut g, "configure comparison_method exact");
    assert!(matches!(g.equalifier, Equalifier::Exact(_)));
}

#[test]
fn a_graph_out_of_order_is_found_out() {
    let mut g: Graph<Real> = Graph::new();
    assert!(g.is_in_order());
    run(&mut g, "SET q a FROM s1");
    run(&mut g, "SET q b FROM s2");
    assert!(g.is_in_order());

    // A name that occurs twice.
    g.sources.push(Source { name: String::from("s1"), quality: Real(0.5), strength: Real(1.0) });
    assert!(!g.is_in_order());
    g.sources.pop();
    assert!(g.is_in_order());
    let mut twin: Question<Real> = Question::default();
    twin.name = String::from("q");
    g.questions.push(twin);
    assert!(!g.is_in_order());
    g.questions.pop();

    // An answer from a source that the graph does not know.
    g.questions[0].answers.push(Answer::new(String::from("c"), String::from("stranger")));
    assert!(!g.is_in_order());
    g.questions[0].answers.pop();

    // An answer with a fingerprint that is not that of its content.
    let mut forged = Answer::new(String::from("c"), String::from("s1"));
    forged.hash = forged.hash.wrapping_add(1);
    assert!(!forged.is_well_marked());
    g.questions[0].answers.push(forged);
    assert!(!g.is_in_order());
    g.questions[0].answers.pop();

    // A weight on a question that believes one answer only.
    let kept = g.questions[0].weight;
    g.questions[0].weight = Weight::Measured(Real(1.0));
    assert!(!g.is_in_order());
    g.questions[0].weight = kept;
    assert!(g.is_in_order());

    // A believed answer that is no answer of the question.
    let believed = g.questions[0].correct_answers.pop().unwrap();
    g.questions[0].correct_answers.push(Answer::new(String::from("z"), String::from("s1")));
    assert!(!g.is_in_order());
    g.questions[0].correct_answers.pop();
    g.questions[0].correct_answers.push(believed);
    assert!(g.is_in_order());
}

#[test]
fn numeric_vector_distance_as_sets() {
    let nd = NumericVecEqualifier::new(Real(1.0), vec_dist_algo::iou, 3);
    let a = Answer::new(String::from("1,2,3"), String::from("s1"));
    let b = Answer::new(String::from("2,3,4"), String::from("s2"));
    // two values in both, four in either
    assert!(close(nd.get_distance(&a, &b).value().0, 0.5));
    assert!(close(nd.get_distance(&a, &a).value().0, 0.0));
    let c = Answer::new(String::from("1,1,1"), String::from("s1"));
    let d = Answer::new(String::from("1,2,2"), String::from("s2"));
    // one value in both, two in either
    assert!(close(nd.get_distance(&c, &d).value().0, 0.5));
    let e = Answer::new(String::from("7,8,9"), String::from("s2"));
    assert!(close(nd.get_distance(&a, &e).value().0, 1.0));
}

#[test]
fn texts_that_write_numbers() {
    for text in ["0", "10", "-1", "+7", "1.5", "1.", ".5", "-0.25", "1e5", "1E5", "2.5e-3", "1e+2", "007"] {
        assert!(is_number_text(text), "{}", text);
        assert_eq!(read_number::<Real>(text), Some(Real(text.parse::<f64>().unwrap())), "{}", text);
    }
    for text in ["", "+", "-", ".", "e5", "1e", "1e+", "1.5.2", "1,5", "abc", "12a", " 1", "1 ", "inf", "NaN", "--1", "1e5.5", "0x10"] {
        assert!(!is_number_text(text), "{}", text);
        assert_eq!(read_number::<Real>(text), None, "{}", text);
    }
}

#[test]
fn numeric_answers_are_valid_if_they_write_a_number() {
    let e = NumericEqualifier::new(Real(1.0));
    assert!(e.is_valid_answer(&Answer::new(String::from("2.5"), String::from("s"))));
    assert!(!e.is_valid_answer(&Answer::new(String::from("two"), String::from("s"))));
    let any: Equalifier<Real> = Equalifier::Numeric(e);
    assert!(any.is_valid_answer(&Answer::new(String::from("-3"), String::from("s"))));
    assert!(!any.is_valid_answer(&Answer::new(String::from(""), String::from("s"))));
    let v = NumericVecEqualifier::new(Real(1.0), vec_dist_algo::L1, 2);
    assert!(v.is_valid_answer(&Answer::new(String::from("1,2"), String::from("s"))));
    assert!(!v.is_valid_answer(&Answer::new(String::from("1,x"), String::from("s"))));
    assert!(!v.is_valid_answer(&Answer::new(String::from("1,2,3"), String::from("s"))));
    let a = Answer::new(String::from("1,x"), String::from("s"));
    let b = Answer::new(String::from("1,2"), String::from("s"));
    assert!(matches!(v.get_distance(&a, &b), Distance::One));
    assert!(matches!(v.get_distance(&b, &b), Distance::Measured(_)));
}

#[test]
fn the_highest_confidence_wins_and_the_first_of_equals() {
    // s1 and s2 say a, s3 says b, s4 says c: the cluster of a is the most
    // trusted; b and c are equal, and b came first.
    let mut g: Graph<Real> = Graph::new();
    run(&mut g, "SET q b FROM s3");
    run(&mut g, "SET q c FROM s4");
    let r = run(&mut g, "GET ANSWER TO q");
    assert_eq!(r.answer.as_deref(), Some("b"));
    run(&mut g, "SET q a FROM s1");
    run(&mut g, "SET q a FROM s2");
    let r = run(&mut g, "GET ANSWER TO q");
    assert_eq!(r.answer.as_deref(), Some("a"));
    let analysis = g.compute_answer_clusters_with_confidence(0);
    assert_eq!(analysis.correct_cluster, 2);
    assert_eq!(analysis.clusters, vec![vec![0], vec![1], vec![2, 3]]);
}

#[test]
fn a_command_is_tried_only_on_a_graph_in_order() {
    let mut g: Graph<Real> = Graph::new();
    let set = Command::from("SET q a FROM s1").unwrap();
    assert!(matches!(g.try_execute(&set), Some(Ok(_))));
    assert_eq!(g.questions[0].answers.len(), 1);
    g.sources.push(Source { name: String::from("s1"), quality: Real(0.5), strength: Real(1.0) });
    assert!(g.try_execute(&set).is_none());
    assert_eq!(g.questions[0].answers.len(), 1);
    assert_eq!(g.sources.len(), 2);
}

#[test]
fn get_answers_pairs_each_answer_with_the_confidence_in_its_cluster() {
    let mut g: Graph<Real> = Graph::new();
    run(&mut g, "SET q a FROM s1");
    run(&mut g, "SET q b FROM s2");
    run(&mut g, "SET q a FROM s3");
    let analysis = g.compute_answer_clusters_with_confidence(0);
    let r = run(&mut g, "GET ANSWERS TO q");
    let answers = r.answers.unwrap();
    assert_eq!(answers.len(), 2);
    assert_eq!(answers[0].confidence.0, analysis.cluster_confidences[0].0);
    assert_eq!(answers[1].confidence.0, analysis.cluster_confidences[1].0);
    let q1 = g.sources[0].quality.0;
    let q2 = g.sources[1].quality.0;
    let q3 = g.sources[2].quality.0;
    assert!(close(answers[0].confidence.0, 1.0 - (1.0 - q1) * (1.0 - q3)));
    assert!(close(answers[1].confidence.0, 1.0 - (1.0 - q2)));
}

#[test]
fn removing_an_effect_takes_back_what_adding_it_gave() {
    let mut g: Graph<Real> = Graph::new();
    run(&mut g, "SET q a FROM s1");
    run(&mut g, "SET q a FROM s2");
    let weight = g.questions[0].weight.value().0;
    let (p, s) = (g.sources[0].quality.0, g.sources[0].strength.0);
    g.remove_question_effect(0);
    // quality = (p * s - w) / (s - w), strength = s - w
    assert!(close(g.sources[0].quality.0, (p * s - weight) / (s - weight)));
    assert!(close(g.sources[0].strength.0, s - weight));
    assert!(close(g.sources[0].quality.0, 0.5));
    assert!(close(g.sources[0].strength.0, 1.0));
    g.add_question_effect(0);
    assert!(close(g.sources[0].quality.0, p));
    assert!(close(g.sources[0].strength.0, s));
    // A source whose strength equals the weight starts afresh.
    g.sources[1].strength = Real(weight);
    g.sources[1].quality = Real(0.9);
    g.remove_question_effect(0);
    assert_eq!(g.sources[1].quality.0, 0.5);
    assert_eq!(g.sources[1].strength.0, 1.0);
}

#[test]
fn a_number_is_at_distance_zero_from_itself() {
    let mut g: Graph<Real> = Graph::new();
    configure(&mut g, "comparison_method", "numeric max_distance=2").unwrap();
    for x in ["0", "-3.5", "1e10", "007"] {
        let r = run(&mut g, &format!("TEST EQUALITY {} {}", x, x));
        assert_eq!(r.distance.unwrap().value().0, 0.0);
    }
}

#[test]
fn the_error_of_a_configuration_names_its_key() {
    assert_eq!(
        GraphError::ConfigUnknownKey.message_for("colour"),
        "Unknown configuration key: \"colour\""
    );
    assert_eq!(
        GraphError::ConfigUnknownMethod.message_for("comparison_method"),
        "unknown comparison method \"comparison_method\". Try exact, numeric, or numeric_vec"
    );
    assert_eq!(
        GraphError::MissingField.message_for("colour"),
        GraphError::MissingField.message()
    );
}
