use dabping::alert::pattern::{ElemError, Pattern, PatternError};
use dabping::double::Double;

fn d(v: f64) -> Double {
    Double { bits: v.to_bits() }
}

fn s(vals: &[f64]) -> Vec<Option<Double>> {
    vals.iter().map(|v| Some(d(*v))).collect()
}

#[test]
fn parses_and_rejects() {
    assert!(Pattern::parse(">10%,>10%,>10%").is_ok());
    assert!(Pattern::parse("<0.05, >=99, ==U, *, *12*").is_ok());
    assert!(Pattern::parse("10").is_err()); // no operator
    assert!(Pattern::parse("*0*").is_err());
    assert!(Pattern::parse("*5*").is_err()); // nothing concrete
    assert!(Pattern::parse(">x%").is_err());
}

#[test]
fn consecutive_right_anchored() {
    let p = Pattern::parse(">10,>10,>10").unwrap();
    assert!(p.matches(&s(&[0.0, 20.0, 30.0, 40.0])));
    assert!(!p.matches(&s(&[20.0, 30.0, 40.0, 0.0]))); // newest is fine
    assert!(!p.matches(&s(&[20.0, 30.0]))); // not enough history
    assert_eq!(p.depth(), 3);
}

#[test]
fn any_and_unknown() {
    let p = Pattern::parse("==U,*,==U").unwrap();
    assert!(p.matches(&[Some(d(1.0)), None, Some(d(5.0)), None]));
    assert!(!p.matches(&[None, Some(d(5.0)), Some(d(5.0))]));
}

#[test]
fn span_windows() {
    // two loss events within 3 rounds of each other
    let p = Pattern::parse(">0,*3*,>0").unwrap();
    assert!(p.matches(&s(&[5.0, 0.0, 0.0, 5.0]))); // gap of 2
    assert!(p.matches(&s(&[5.0, 5.0]))); // gap of 0
    assert!(!p.matches(&s(&[5.0, 0.0, 0.0, 0.0, 0.0, 5.0]))); // gap of 4
    assert!(!p.matches(&s(&[0.0, 0.0, 5.0, 0.0]))); // newest must match >0
    assert_eq!(p.depth(), 5);
}

#[test]
fn span_against_short_history() {
    let p = Pattern::parse(">0,*5*,>0").unwrap();
    assert!(p.matches(&s(&[5.0, 5.0]))); // span shrinks to fit
    assert!(!p.matches(&s(&[5.0]))); // but both events must exist
}

#[test]
fn says_which_element_is_bad() {
    let err = |p: &str| Pattern::parse(p).unwrap_err();
    assert_eq!(err(">1,*x*"), PatternError::Element(1, ElemError::BadSpan));
    assert_eq!(err(">1,>2,*65*"), PatternError::Element(2, ElemError::SpanRange));
    assert_eq!(err("1"), PatternError::Element(0, ElemError::NoOperator));
    assert_eq!(err(">U"), PatternError::Element(0, ElemError::UnknownOp));
    assert_eq!(err(">1,==%"), PatternError::Element(1, ElemError::BadNumber));
    assert_eq!(err("*3*,*4*"), PatternError::NothingConcrete);
}

#[test]
fn compares_as_numbers() {
    let holds = |p: &str, v: f64| Pattern::parse(p).unwrap().matches(&s(&[v]));
    assert!(holds("==0", -0.0));
    assert!(holds(">=33.333333333333336%", 100.0 / 3.0));
    assert!(!holds(">33.333333333333336%", 100.0 / 3.0));
    assert!(holds("<=1e2", 100.0));
    assert!(holds("!=100", 99.9));
    assert!(!holds("==U", 0.0));
    assert!(!Pattern::parse("!=5").unwrap().matches(&[None]));
}

#[test]
fn older_rounds_are_irrelevant() {
    let p = Pattern::parse(">0,*2*,>0").unwrap();
    let mut long = vec![7.0; 50];
    long.extend([5.0, 0.0, 0.0, 5.0]);
    assert_eq!(p.depth(), 4);
    assert_eq!(p.matches(&s(&long)), p.matches(&s(&long[long.len() - 4..])));
}

#[test]
fn says_in_words_what_is_wrong() {
    let words = |p: &str| Pattern::parse(p).unwrap_err().messages(p);
    assert_eq!(words(">1, *x*"), vec!["pattern element \" *x*\"", "span must be *N*"]);
    assert_eq!(words("*65*"), vec!["pattern element \"*65*\"", "span must be 1..=64"]);
    assert_eq!(
        words("1"),
        vec![
            "pattern element \"1\"",
            "expected an operator (==, !=, >, <, >=, <=), `*`, `*N*` or `==U`",
        ]
    );
    assert_eq!(words(">U"), vec!["pattern element \">U\"", "unknown only supports ==U"]);
    assert_eq!(words(">1,>= x%"), vec!["pattern element \">= x%\"", "bad number \"x%\""]);
    assert_eq!(words("*3*,*4*"), vec!["pattern \"*3*,*4*\" matches nothing concrete"]);
}

#[test]
fn older_rounds_never_unmatch() {
    for p in [">0,*3*,>0", ">10,>10", "*5*,==U", "*,*2*"] {
        let p = Pattern::parse(p).unwrap();
        let samples = [Some(d(20.0)), None, Some(d(30.0)), Some(d(40.0)), None];
        for from in 0..samples.len() {
            for to in from..=samples.len() {
                if p.matches(&samples[from..to]) {
                    assert!(p.matches(&samples[..to]));
                }
            }
        }
    }
}

#[test]
fn nothing_older_than_the_depth_is_inspected() {
    let p = Pattern::parse(">0,*3*,*,*2*,==U").unwrap();
    assert_eq!(p.depth(), 8);
    let newest = [Some(d(1.0)), None, None, Some(d(0.0)), None, None, None, None];
    for older in [Some(d(0.0)), Some(d(5.0)), None] {
        let mut all = vec![older; 3];
        all.extend_from_slice(&newest);
        assert_eq!(p.matches(&all), p.matches(&newest));
    }
}
