use indexmap::IndexMap;
use jev_quantum::engine::{parse_rng_mode, plan_answer, AnswerPlan, RngMode};
use jev_quantum::protocol::{models_catalog, ProtocolError, Question, SystemOneRequest};
use jev_quantum::rng::{index_of, Xoshiro256PlusPlus};
use serde_json::Value;

fn state() -> Value {
    Value::String("x".to_string())
}

#[test]
fn missing_model_rejected() {
    let req = SystemOneRequest {
        model: "   ".to_string(),
        state: state(),
        questions: IndexMap::from_iter([(
            "q".to_string(),
            Question::Noul {
                instructions: None,
                criteria: None,
            },
        )]),
    };
    assert_eq!(req.validate(), Err(ProtocolError::MissingModel));
}

#[test]
fn protocol_empty_questions_rejected() {
    let req = SystemOneRequest {
        model: "jev-quantum-latest".to_string(),
        state: state(),
        questions: IndexMap::new(),
    };
    assert_eq!(req.validate(), Err(ProtocolError::EmptyQuestions));
}

#[test]
fn choice_cardinality_rejected() {
    let req = SystemOneRequest {
        model: "jev-quantum-latest".to_string(),
        state: state(),
        questions: IndexMap::from_iter([(
            "too_many".to_string(),
            Question::Choice {
                instructions: None,
                criteria: (0..256).map(|i| (i.to_string(), None)).collect(),
            },
        )]),
    };
    assert!(matches!(
        req.validate(),
        Err(ProtocolError::InvalidChoiceCardinality(_))
    ));
}

#[test]
fn score_cardinality_rejected() {
    let req = SystemOneRequest {
        model: "jev-quantum-latest".to_string(),
        state: state(),
        questions: IndexMap::from_iter([(
            "one".to_string(),
            Question::Score {
                instructions: None,
                criteria: vec!["only".to_string()],
            },
        )]),
    };
    assert!(matches!(
        req.validate(),
        Err(ProtocolError::InvalidScoreCardinality(_))
    ));
}

#[test]
fn models_catalog_lists_local_model() {
    let catalog = models_catalog("jev-quantum-latest");
    assert_eq!(catalog.object, "list");
    assert_eq!(catalog.data[0].id, "jev-quantum-latest");
}

#[test]
fn first_bad_question_is_named_and_good_requests_pass() {
    let mut questions = IndexMap::new();
    questions.insert(
        "ok".to_string(),
        Question::Choice {
            instructions: None,
            criteria: IndexMap::from_iter([("a".to_string(), None)]),
        },
    );
    questions.insert(
        "levels".to_string(),
        Question::Score { instructions: None, criteria: (0..11).map(|i| i.to_string()).collect() },
    );
    questions.insert(
        "empty".to_string(),
        Question::Choice { instructions: None, criteria: IndexMap::new() },
    );
    let req = SystemOneRequest { model: " m ".to_string(), state: state(), questions };
    let err = req.validate().unwrap_err();
    assert_eq!(err, ProtocolError::InvalidScoreCardinality("levels".to_string()));
    assert_eq!(err.code(), "invalid_cardinality");
    let api = err.into_api_error();
    assert_eq!(api.error.message, "score 'levels' must have between 2 and 10 levels");
    let good = SystemOneRequest {
        model: "m".to_string(),
        state: state(),
        questions: IndexMap::from_iter([(
            "s".to_string(),
            Question::Score { instructions: None, criteria: vec!["a".to_string(), "b".to_string()] },
        )]),
    };
    assert_eq!(good.validate(), Ok(()));
}

#[test]
fn error_replies() {
    assert_eq!(ProtocolError::MissingModel.code(), "invalid_request");
    assert_eq!(ProtocolError::EmptyQuestions.message(), "questions must not be empty");
    assert_eq!(
        ProtocolError::InvalidChoiceCardinality("q".to_string()).message(),
        "choice 'q' must have between 1 and 255 options"
    );
    let api = ProtocolError::MissingModel.into_api_error();
    assert_eq!(api.error.code, "invalid_request");
    assert_eq!(api.error.message, "model must not be empty");
}

#[test]
fn question_kinds() {
    assert_eq!(Question::Noul { instructions: None, criteria: None }.kind(), "noul");
    assert_eq!(Question::Score { instructions: None, criteria: vec![] }.kind(), "score");
}

#[test]
fn answers_are_planned_from_the_generator() {
    let mut rng = Xoshiro256PlusPlus::from_seed(7);
    let mut twin = Xoshiro256PlusPlus::from_seed(7);
    let choice = Question::Choice {
        instructions: None,
        criteria: (0..5).map(|i| (i.to_string(), None)).collect(),
    };
    let plan = plan_answer(&choice, &mut rng);
    assert_eq!(plan, AnswerPlan::Choice(twin.bounded_usize(5)));
    let noul = Question::Noul { instructions: None, criteria: None };
    assert_eq!(plan_answer(&noul, &mut rng), AnswerPlan::Noul(twin.next_u64()));
    let score = Question::Score { instructions: None, criteria: vec!["a".to_string(), "b".to_string(), "c".to_string()] };
    match plan_answer(&score, &mut rng) {
        AnswerPlan::Score(i) => assert!(i < 3),
        other => panic!("expected a score, got {other:?}"),
    }
}

#[test]
fn rng_modes_parse() {
    assert_eq!(RngMode::parse("Direct"), Some(RngMode::Direct));
    assert_eq!(RngMode::parse("BUFFERED"), Some(RngMode::Buffered));
    assert_eq!(RngMode::parse("pooled"), None);
    assert_eq!(RngMode::Buffered.as_str(), "buffered");
    assert_eq!(parse_rng_mode("direct"), Ok(RngMode::Direct));
    assert_eq!(
        parse_rng_mode("Fast"),
        Err("unknown rng mode 'Fast' (use direct|buffered)".to_string())
    );
}

#[test]
fn plans_from_equal_generators_agree() {
    let mut criteria = IndexMap::new();
    for label in ["UP", "RIGHT", "DOWN", "LEFT"] {
        criteria.insert(label.to_string(), None);
    }
    let question = Question::Choice { instructions: None, criteria };
    let mut a = Xoshiro256PlusPlus::from_seed(7);
    let mut b = Xoshiro256PlusPlus::from_seed(7);
    for _ in 0..50 {
        assert_eq!(plan_answer(&question, &mut a), plan_answer(&question, &mut b));
    }
    let mut c = Xoshiro256PlusPlus::from_seed(7);
    let first = c.next_u64();
    let mut d = Xoshiro256PlusPlus::from_seed(7);
    assert_eq!(plan_answer(&question, &mut d), AnswerPlan::Choice(index_of(first, 4)));
    let single = Question::Score { instructions: None, criteria: vec!["only".to_string()] };
    let before = d.state();
    assert_eq!(plan_answer(&single, &mut d), AnswerPlan::Score(0));
    assert_eq!(d.state(), before);
}
