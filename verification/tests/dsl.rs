use layouts_rs::dsl::{
    check_types, lookup, Expression, Metric, MetricCategory, MetricGroup, MetricValue, RustExpression, Stat,
    StatValue, Stats, StatsLet, StatsSection, Target, Ty, TypeError,
};

fn s(text: &str) -> String {
    text.to_string()
}

fn reference(name: &str) -> Expression {
    Expression::Ref(s(name))
}

fn sum(name: &str, condition: Option<&str>) -> Expression {
    Expression::Sum { reference: s(name), condition: condition.map(|c| RustExpression(s(c))) }
}

fn finger_map() -> Ty {
    Ty::MapOf(s("Finger"))
}

fn finger_usage() -> Metric {
    Metric::new(
        s("finger_usage"),
        MetricCategory::Unigram,
        Some(MetricValue::Add(RustExpression(s("count")))),
        Some(RustExpression(s("ngram.key.ch != ' '"))),
        Some(MetricGroup { key: s("ngram.key.finger"), kind: s("Finger") }),
    )
}

fn stats_of_rules() -> Stats {
    Stats {
        lets: vec![
            StatsLet { name: s("left_hand_usage"), value: sum("finger_usage", Some("hand == Hand::Left")) },
            StatsLet { name: s("right_hand_usage"), value: sum("finger_usage", Some("hand == Hand::Right")) },
        ],
        sections: vec![StatsSection {
            name: s("general"),
            stats: vec![
                Stat {
                    name: s("left_hand_usage"),
                    value: StatValue::Percent(
                        reference("left_hand_usage"),
                        Expression::Add(
                            Box::new(reference("left_hand_usage")),
                            Box::new(reference("right_hand_usage")),
                        ),
                    ),
                    ty: Ty::Scalar,
                },
                Stat {
                    name: s("finger_usage"),
                    value: StatValue::Normalize(reference("finger_usage"), sum("finger_usage", None)),
                    ty: Ty::Scalar,
                },
            ],
        }],
    }
}

fn targets_of_rules() -> Vec<Target> {
    vec![
        Target { name: s("left_hand_usage"), source: s("general.left_hand_usage"), ty: Ty::Scalar },
        Target { name: s("finger_usage"), source: s("general.finger_usage"), ty: Ty::Scalar },
    ]
}

#[test]
fn dsl_metric_takes_its_type_from_its_group() {
    let metric = finger_usage();
    assert_eq!(metric.ty, finger_map());
    assert_eq!(metric.name, "finger_usage");
    let plain = Metric::new(s("total"), MetricCategory::Bigram(None), None, None, None);
    assert_eq!(plain.ty, Ty::Scalar);
    assert_eq!(plain.value, MetricValue::Add(RustExpression(s("count"))));
    assert_eq!(MetricValue::default(), MetricValue::Add(RustExpression(s("count"))));
}

#[test]
fn dsl_categories_answer_their_questions() {
    let unigram = MetricCategory::Unigram;
    let bigram = MetricCategory::Bigram(None);
    let scissors = MetricCategory::Bigram(Some(s("scissor")));
    let trigram = MetricCategory::Trigram(None);
    let rolls = MetricCategory::Trigram(Some(s("roll")));

    assert!(unigram.is_unigram());
    assert!(!bigram.is_unigram());
    assert!(bigram.is_bigram_no_kind());
    assert!(!scissors.is_bigram_no_kind());
    assert!(scissors.is_bigram_kind("scissor"));
    assert!(!scissors.is_bigram_kind("roll"));
    assert!(!rolls.is_bigram_kind("roll"));
    assert!(trigram.is_trigram_no_kind());
    assert!(!rolls.is_trigram_no_kind());
    assert!(rolls.is_trigram_kind("roll"));
    assert!(!rolls.is_trigram_kind("scissor"));
    assert!(!unigram.is_trigram_kind("roll"));
}

#[test]
fn dsl_types_are_scalar_or_map() {
    assert!(Ty::Scalar.is_scalar());
    assert!(!Ty::Scalar.is_map());
    assert!(finger_map().is_map());
    assert!(!finger_map().is_scalar());
}

#[test]
fn dsl_lookup_finds_the_latest_definition() {
    let env = vec![(s("a"), Ty::Scalar), (s("b"), finger_map()), (s("a"), finger_map())];
    assert_eq!(lookup(&env, &s("a")), Some(finger_map()));
    assert_eq!(lookup(&env, &s("b")), Some(finger_map()));
    assert_eq!(lookup(&env, &s("c")), None);
}

#[test]
fn dsl_expressions_are_typed() {
    let env = vec![(s("usage"), finger_map()), (s("total"), Ty::Scalar)];
    assert_eq!(reference("usage").ty(&env), Ok(finger_map()));
    assert_eq!(reference("missing").ty(&env), Err(TypeError::UndefinedReference(s("missing"))));
    assert_eq!(sum("usage", None).ty(&env), Ok(Ty::Scalar));
    assert_eq!(sum("total", None).ty(&env), Err(TypeError::SumOfScalar(s("total"))));
    assert_eq!(sum("missing", None).ty(&env), Err(TypeError::UndefinedReference(s("missing"))));
    let add = |a: Expression, b: Expression| Expression::Add(Box::new(a), Box::new(b));
    assert_eq!(add(reference("total"), sum("usage", None)).ty(&env), Ok(Ty::Scalar));
    assert_eq!(
        add(reference("total"), reference("usage")).ty(&env),
        Err(TypeError::AddOfNonScalar(Ty::Scalar, finger_map()))
    );
    assert_eq!(
        add(reference("nope"), reference("usage")).ty(&env),
        Err(TypeError::UndefinedReference(s("nope")))
    );
}

#[test]
fn dsl_stat_values_are_typed() {
    let env = vec![(s("usage"), finger_map()), (s("total"), Ty::Scalar)];
    assert_eq!(StatValue::Percent(reference("total"), reference("total")).ty(&env), Ok(Ty::Scalar));
    assert_eq!(
        StatValue::Percent(reference("usage"), reference("total")).ty(&env),
        Err(TypeError::PercentOfNonScalar(finger_map(), Ty::Scalar))
    );
    assert_eq!(StatValue::Ratio(reference("total"), sum("usage", None)).ty(&env), Ok(Ty::Scalar));
    assert_eq!(
        StatValue::Ratio(reference("total"), reference("usage")).ty(&env),
        Err(TypeError::RatioOfNonScalar(Ty::Scalar, finger_map()))
    );
    assert_eq!(StatValue::Normalize(reference("usage"), reference("total")).ty(&env), Ok(finger_map()));
    assert_eq!(
        StatValue::Normalize(reference("total"), reference("total")).ty(&env),
        Err(TypeError::NormalizeMismatch(Ty::Scalar, Ty::Scalar))
    );
    assert_eq!(StatValue::Reference(s("usage")).ty(&env), Ok(finger_map()));
    assert_eq!(StatValue::Reference(s("x")).ty(&env), Err(TypeError::UndefinedReference(s("x"))));
    assert_eq!(
        StatValue::Percent(reference("x"), reference("y")).ty(&env),
        Err(TypeError::UndefinedReference(s("x")))
    );
}

#[test]
fn dsl_checks_and_records_types() {
    let rules = check_types(vec![finger_usage()], stats_of_rules(), targets_of_rules()).unwrap();
    assert_eq!(rules.metrics, vec![finger_usage()]);
    assert_eq!(rules.stats.lets, stats_of_rules().lets);
    let stats = &rules.stats.sections[0].stats;
    assert_eq!(rules.stats.sections[0].name, "general");
    assert_eq!(stats[0].ty, Ty::Scalar);
    assert_eq!(stats[1].ty, finger_map());
    assert_eq!(stats[1].value, stats_of_rules().sections[0].stats[1].value);
    assert_eq!(
        rules.targets,
        vec![
            Target { name: s("left_hand_usage"), source: s("general.left_hand_usage"), ty: Ty::Scalar },
            Target { name: s("finger_usage"), source: s("general.finger_usage"), ty: finger_map() },
        ]
    );
}

#[test]
fn dsl_reports_the_first_error() {
    let mut stats = stats_of_rules();
    stats.lets.push(StatsLet { name: s("bad"), value: sum("left_hand_usage", None) });
    assert_eq!(
        check_types(vec![finger_usage()], stats, targets_of_rules()).err(),
        Some(TypeError::SumOfScalar(s("left_hand_usage")))
    );

    let mut stats = stats_of_rules();
    stats.sections.push(StatsSection {
        name: s("more"),
        stats: vec![Stat { name: s("x"), value: StatValue::Reference(s("nothing")), ty: Ty::Scalar }],
    });
    assert_eq!(
        check_types(vec![finger_usage()], stats, targets_of_rules()).err(),
        Some(TypeError::UndefinedReference(s("nothing")))
    );

    let mut targets = targets_of_rules();
    targets.push(Target { name: s("t"), source: s("general.missing"), ty: Ty::Scalar });
    targets.push(Target { name: s("u"), source: s("other.missing"), ty: Ty::Scalar });
    assert_eq!(
        check_types(vec![finger_usage()], stats_of_rules(), targets).err(),
        Some(TypeError::UndefinedReference(s("general.missing")))
    );

    let targets = vec![Target { name: s("t"), source: s("left_hand_usage"), ty: Ty::Scalar }];
    assert_eq!(
        check_types(vec![finger_usage()], stats_of_rules(), targets).err(),
        Some(TypeError::UndefinedReference(s("left_hand_usage")))
    );
}

#[test]
fn dsl_lets_see_only_earlier_lets() {
    let stats = Stats {
        lets: vec![
            StatsLet { name: s("b"), value: reference("a") },
            StatsLet { name: s("a"), value: sum("finger_usage", None) },
        ],
        sections: vec![],
    };
    assert_eq!(
        check_types(vec![finger_usage()], stats, vec![]).err(),
        Some(TypeError::UndefinedReference(s("a")))
    );
}

#[test]
fn dsl_sums_group_from_the_left() {
    let sum = Expression::sum_of(reference("a"), vec![reference("b"), reference("c")]);
    assert_eq!(
        sum,
        Expression::Add(
            Box::new(Expression::Add(Box::new(reference("a")), Box::new(reference("b")))),
            Box::new(reference("c"))
        )
    );
    assert_eq!(Expression::sum_of(reference("a"), vec![]), reference("a"));
}

#[test]
fn dsl_targets_take_the_type_of_their_stat() {
    let stats = Stats {
        lets: vec![],
        sections: vec![StatsSection {
            name: s("s"),
            stats: vec![
                Stat { name: s("a"), value: StatValue::Reference(s("finger_usage")), ty: Ty::Scalar },
                Stat { name: s("b"), value: StatValue::Reference(s("finger_usage")), ty: Ty::Scalar },
                Stat { name: s("c"), value: StatValue::Percent(sum("finger_usage", None), sum("finger_usage", None)), ty: Ty::Scalar },
            ],
        }],
    };
    let targets = vec![
        Target { name: s("x"), source: s("s.a"), ty: Ty::Scalar },
        Target { name: s("y"), source: s("s.c"), ty: Ty::Scalar },
    ];
    let rules = check_types(vec![finger_usage()], stats, targets).unwrap();
    assert_eq!(rules.targets[0].ty, finger_map());
    assert_eq!(rules.targets[1].ty, Ty::Scalar);
}
