//! Alert patterns.
//!
//! A pattern is a comma list of element matchers, right-anchored at the
//! newest round: `>10%,>10%,>10%` = the last three rounds each had >10%.
//! Elements:
//!   `>X` `<X` `>=X` `<=X` `==X` `!=X`  — compare (trailing `%` allowed)
//!   `==U`                              — value unknown (e.g. rtt with 100% loss)
//!   `*`                                — any one round
//!   `*N*`                              — 0..N rounds of anything (window)
//! Classic: `>0%,*12*,>0%,*12*,>0%` = three loss events within ~12 rounds
//! of each other.
use crate::decimal;
use crate::decimal::read_double;
use crate::double::Double;
use crate::text;
use crate::text::{
    alone, atop, chars_of, parse_unsigned, quoted, said, same, slice_string, split_text,
    strip_prefix, to_lower, trim,
};
use vstd::prelude::*;
use vstd::string::*;

verus! {

/// How a sample is compared with a threshold.
#[derive(Clone, Copy, Debug, PartialEq, Eq, Structural)]
pub enum Op {
    Eq,
    Ne,
    Gt,
    Lt,
    Ge,
    Le,
}

/// One element of a pattern.
#[derive(Clone, Copy, Debug, PartialEq, Eq, Structural)]
pub enum Elem {
    Test(Op, Double),
    Unknown,
    Any,
    Span(u32),
}

/// A parsed pattern, its elements from the oldest round to the newest.
#[derive(Debug)]
pub struct Pattern {
    pub elems: Vec<Elem>,
}

/// What is wrong with one element.
#[derive(Clone, Copy, Debug, PartialEq, Eq, Structural)]
pub enum ElemError {
    /// What stands between two stars is no number.
    BadSpan,
    /// A window of no rounds, or of more than `MAX_SPAN`.
    SpanRange,
    /// Neither an operator nor a star.
    NoOperator,
    /// `U` behind another operator than `==`.
    UnknownOp,
    BadNumber,
}

/// What is wrong with a pattern.
#[derive(Clone, Copy, Debug, PartialEq, Eq, Structural)]
pub enum PatternError {
    /// The first element that does not parse, by its place in the list.
    Element(usize, ElemError),
    /// Nothing but windows.
    NothingConcrete,
}

pub const MAX_SPAN: u32 = 64;

/// The operator that a text starts with, and how many characters it takes.
pub open spec fn operator(tok: Seq<char>) -> Option<(Op, int)> {
    if text::starts_with(tok, "=="@) {
        Some((Op::Eq, 2))
    } else if text::starts_with(tok, "!="@) {
        Some((Op::Ne, 2))
    } else if text::starts_with(tok, ">="@) {
        Some((Op::Ge, 2))
    } else if text::starts_with(tok, "<="@) {
        Some((Op::Le, 2))
    } else if text::starts_with(tok, ">"@) {
        Some((Op::Gt, 1))
    } else if text::starts_with(tok, "<"@) {
        Some((Op::Lt, 1))
    } else {
        None
    }
}

/// A text without one percent sign at its end.
pub open spec fn without_percent(s: Seq<char>) -> Seq<char> {
    if s.len() > 0 && s.last() == '%' {
        s.drop_last()
    } else {
        s
    }
}

/// The element that a token stands for.
pub open spec fn elem_of(tok: Seq<char>) -> Result<Elem, ElemError> {
    if tok == "*"@ {
        Ok(Elem::Any)
    } else if tok.len() >= 2 && tok[0] == '*' && tok.last() == '*' {
        match text::unsigned(tok.subrange(1, tok.len() - 1), u32::MAX as nat) {
            None => Err(ElemError::BadSpan),
            Some(n) => if n == 0 || n > MAX_SPAN {
                Err(ElemError::SpanRange)
            } else {
                Ok(Elem::Span(n as u32))
            },
        }
    } else {
        match operator(tok) {
            None => Err(ElemError::NoOperator),
            Some((op, len)) => {
                let rest = text::trimmed(tok.skip(len));
                if text::lowercased(rest) == "u"@ {
                    if op == Op::Eq {
                        Ok(Elem::Unknown)
                    } else {
                        Err(ElemError::UnknownOp)
                    }
                } else {
                    match decimal::read(text::trimmed(without_percent(rest))) {
                        Some(v) => Ok(Elem::Test(op, v)),
                        None => Err(ElemError::BadNumber),
                    }
                }
            },
        }
    }
}

/// The elements that the tokens stand for.
pub open spec fn elems_of(tokens: Seq<Seq<char>>) -> Seq<Result<Elem, ElemError>> {
    tokens.map_values(|t: Seq<char>| elem_of(text::trimmed(t)))
}

/// Something other than a window is among the elements.
pub open spec fn concrete(elems: Seq<Elem>) -> bool {
    exists|i: int| 0 <= i < elems.len() && !(#[trigger] elems[i] is Span)
}

/// The place of the first element that does not parse, or the length.
pub open spec fn first_bad(parsed: Seq<Result<Elem, ElemError>>) -> int
    decreases parsed.len(),
{
    if parsed.len() == 0 || parsed[0] is Err {
        0
    } else {
        1 + first_bad(parsed.drop_first())
    }
}

/// The elements of the pattern that a text stands for, or what is wrong with
/// it.
pub open spec fn pattern_of(s: Seq<char>) -> Result<Seq<Elem>, PatternError> {
    let parsed = elems_of(text::split(s, ','));
    let bad = first_bad(parsed);
    let elems = parsed.map_values(|e: Result<Elem, ElemError>| e->Ok_0);
    if bad < parsed.len() {
        Err(PatternError::Element(bad as usize, parsed[bad]->Err_0))
    } else if !concrete(elems) {
        Err(PatternError::NothingConcrete)
    } else {
        Ok(elems)
    }
}

proof fn lemma_first_bad(parsed: Seq<Result<Elem, ElemError>>, i: int)
    requires
        0 <= i <= parsed.len(),
        forall|j: int| 0 <= j < i ==> (#[trigger] parsed[j]) is Ok,
        i < parsed.len() ==> parsed[i] is Err,
    ensures
        first_bad(parsed) == i,
    decreases i,
{
    if i > 0 {
        let rest = parsed.drop_first();
        assert forall|j: int| 0 <= j < i - 1 implies (#[trigger] rest[j]) is Ok by {
            assert(rest[j] == parsed[j + 1]);
        }
        lemma_first_bad(rest, i - 1);
    }
}

/// What is said of an element that does not parse.
pub open spec fn elem_text(e: ElemError, tok: Seq<char>) -> Seq<char> {
    match e {
        ElemError::BadSpan => "span must be *N*"@,
        ElemError::SpanRange => "span must be 1..=64"@,
        ElemError::NoOperator =>
            "expected an operator (==, !=, >, <, >=, <=), `*`, `*N*` or `==U`"@,
        ElemError::UnknownOp => "unknown only supports ==U"@,
        ElemError::BadNumber => "bad number "@ + text::debug_form(operand(tok)),
    }
}

/// What stands behind the operator.
pub open spec fn operand(tok: Seq<char>) -> Seq<char> {
    match operator(tok) {
        Some((_, len)) => text::trimmed(tok.skip(len)),
        None => Seq::empty(),
    }
}

/// The token at a place of a pattern.
pub open spec fn token(pattern: Seq<char>, i: int) -> Seq<char> {
    let tokens = text::split(pattern, ',');
    if 0 <= i < tokens.len() {
        tokens[i]
    } else {
        Seq::empty()
    }
}

/// What is said of a pattern that does not parse, and below it of the element.
pub open spec fn pattern_texts(e: PatternError, pattern: Seq<char>) -> Seq<Seq<char>> {
    match e {
        PatternError::Element(i, e) => {
            let tok = token(pattern, i as int);
            seq![
                "pattern element "@ + text::debug_form(tok),
                elem_text(e, text::trimmed(tok)),
            ]
        },
        PatternError::NothingConcrete => seq![
            "pattern "@ + text::debug_form(pattern) + " matches nothing concrete"@,
        ],
    }
}

/// What stands behind the operator of a token.
fn after_operator(tok: &str) -> (r: String)
    ensures
        r@ == operand(tok@),
{
    proof {
        reveal_strlit("==");
        reveal_strlit("!=");
        reveal_strlit(">=");
        reveal_strlit("<=");
        reveal_strlit(">");
        reveal_strlit("<");
        reveal_strlit("");
        assert(""@ =~= Seq::empty());
    }
    let rest = if let Some(r) = strip_prefix(tok, "==") {
        r
    } else if let Some(r) = strip_prefix(tok, "!=") {
        r
    } else if let Some(r) = strip_prefix(tok, ">=") {
        r
    } else if let Some(r) = strip_prefix(tok, "<=") {
        r
    } else if let Some(r) = strip_prefix(tok, ">") {
        r
    } else if let Some(r) = strip_prefix(tok, "<") {
        r
    } else {
        return "".to_owned();
    };
    trim(rest.as_str())
}

impl PatternError {
    /// What to say of the pattern, and below it of its element.
    pub fn messages(&self, pattern: &str) -> (r: Vec<String>)
        ensures
            text::texts(r@) == pattern_texts(*self, pattern@),
    {
        match self {
            PatternError::Element(i, e) => {
                let tokens = split_text(pattern, ',');
                assert(text::texts(tokens@).len() == tokens@.len());
                let tok = if *i < tokens.len() {
                    assert(text::texts(tokens@)[*i as int] == tokens@[*i as int]@);
                    tokens[*i].clone()
                } else {
                    String::new()
                };
                assert(tok@ =~= token(pattern@, *i as int));
                let inner = match e {
                    ElemError::BadSpan => "span must be *N*".to_owned(),
                    ElemError::SpanRange => "span must be 1..=64".to_owned(),
                    ElemError::NoOperator => {
                        "expected an operator (==, !=, >, <, >=, <=), `*`, `*N*` or `==U`".to_owned()
                    },
                    ElemError::UnknownOp => "unknown only supports ==U".to_owned(),
                    ElemError::BadNumber => {
                        let mut m = "bad number ".to_owned();
                        let bare = trim(tok.as_str());
                        m.append(quoted(after_operator(bare.as_str()).as_str()).as_str());
                        m
                    },
                };
                let mut m = "pattern element ".to_owned();
                m.append(quoted(tok.as_str()).as_str());
                let r = atop(m, alone(inner));
                assert(text::texts(r@) =~= pattern_texts(*self, pattern@));
                r
            },
            PatternError::NothingConcrete => {
                alone(said("pattern ", quoted(pattern).as_str(), " matches nothing concrete"))
            },
        }
    }
}

/// How many rounds an element can take.
pub open spec fn width(e: Elem) -> nat {
    match e {
        Elem::Span(n) => n as nat,
        _ => 1,
    }
}

/// How many recent rounds the elements can possibly inspect.
pub open spec fn depth_of(elems: Seq<Elem>) -> nat
    decreases elems.len(),
{
    if elems.len() == 0 {
        0
    } else {
        depth_of(elems.drop_last()) + width(elems.last())
    }
}

/// Whether one element other than a window accepts a sample.
pub open spec fn accepts(e: Elem, sample: Option<Double>) -> bool {
    match e {
        Elem::Any => true,
        Elem::Unknown => sample is None,
        Elem::Span(_) => true,
        Elem::Test(op, v) => match sample {
            None => false,
            Some(s) => match op {
                Op::Eq => s.equals(v),
                Op::Ne => !s.equals(v),
                Op::Gt => v.less(s),
                Op::Lt => s.less(v),
                Op::Ge => v.less(s) || s.equals(v),
                Op::Le => s.less(v) || s.equals(v),
            },
        },
    }
}

/// Whether the elements match the newest samples: each takes one, a window
/// any number up to its size.
pub open spec fn matched(elems: Seq<Elem>, samples: Seq<Option<Double>>) -> bool
    decreases elems.len(),
{
    if elems.len() == 0 {
        true
    } else {
        let older = elems.drop_last();
        match elems.last() {
            Elem::Span(n) => exists|left: int|
                0 <= left <= samples.len() <= left + n && matched(
                    older,
                    #[trigger] samples.take(left),
                ),
            e => samples.len() > 0 && accepts(e, samples.last()) && matched(
                older,
                samples.drop_last(),
            ),
        }
    }
}

/// Rounds older than the pattern's depth do not change what it says.
pub proof fn older_rounds_are_irrelevant(
    elems: Seq<Elem>,
    older: Seq<Option<Double>>,
    recent: Seq<Option<Double>>,
)
    requires
        recent.len() >= depth_of(elems),
    ensures
        matched(elems, older + recent) == matched(elems, recent),
    decreases elems.len(),
{
    if elems.len() > 0 {
        let rest = elems.drop_last();
        let all = older + recent;
        match elems.last() {
            Elem::Span(n) => {
                if matched(elems, all) {
                    let left = choose|left: int|
                        0 <= left <= all.len() <= left + n && matched(
                            rest,
                            #[trigger] all.take(left),
                        );
                    let cut = left - older.len();
                    assert(all.take(left) == older + recent.take(cut));
                    older_rounds_are_irrelevant(rest, older, recent.take(cut));
                }
                if matched(elems, recent) {
                    let left = choose|left: int|
                        0 <= left <= recent.len() <= left + n && matched(
                            rest,
                            #[trigger] recent.take(left),
                        );
                    let whole = older.len() + left;
                    assert(all.take(whole) == older + recent.take(left));
                    older_rounds_are_irrelevant(rest, older, recent.take(left));
                }
            },
            _ => {
                assert(all.drop_last() == older + recent.drop_last());
                older_rounds_are_irrelevant(rest, older, recent.drop_last());
            },
        }
    }
}

/// A history cut to its newest `keep` rounds, at least the pattern's depth,
/// is matched as the whole is.
pub proof fn a_bounded_history_is_enough(
    elems: Seq<Elem>,
    samples: Seq<Option<Double>>,
    keep: nat,
)
    requires
        keep >= depth_of(elems),
        keep <= samples.len(),
    ensures
        matched(elems, samples.skip(samples.len() - keep)) == matched(elems, samples),
{
    let cut = samples.len() - keep;
    assert(samples == samples.take(cut) + samples.skip(cut));
    older_rounds_are_irrelevant(elems, samples.take(cut), samples.skip(cut));
}

/// A history that matches still does with older rounds in front of it.
pub proof fn older_rounds_never_unmatch(
    elems: Seq<Elem>,
    older: Seq<Option<Double>>,
    samples: Seq<Option<Double>>,
)
    ensures
        matched(elems, samples) ==> matched(elems, older + samples),
    decreases elems.len(),
{
    if elems.len() > 0 && matched(elems, samples) {
        let rest = elems.drop_last();
        let all = older + samples;
        match elems.last() {
            Elem::Span(n) => {
                let left = choose|left: int|
                    0 <= left <= samples.len() <= left + n && matched(
                        rest,
                        #[trigger] samples.take(left),
                    );
                older_rounds_never_unmatch(rest, older, samples.take(left));
                assert(all.take(older.len() + left) == older + samples.take(left));
            },
            _ => {
                older_rounds_never_unmatch(rest, older, samples.drop_last());
                assert(all.drop_last() == older + samples.drop_last());
            },
        }
    }
}

/// How many elements take one round each.
pub open spec fn singles(elems: Seq<Elem>) -> nat
    decreases elems.len(),
{
    if elems.len() == 0 {
        0
    } else {
        singles(elems.drop_last()) + if elems.last() is Span {
            0nat
        } else {
            1nat
        }
    }
}

/// How many rounds the windows can take together.
pub open spec fn windows(elems: Seq<Elem>) -> nat
    decreases elems.len(),
{
    if elems.len() == 0 {
        0
    } else {
        windows(elems.drop_last()) + match elems.last() {
            Elem::Span(n) => n as nat,
            _ => 0nat,
        }
    }
}

/// A pattern inspects the newest rounds up to its depth and no others. The depth
/// is one for each element that is no window, and the sizes of the windows.
pub proof fn nothing_older_than_the_depth_is_inspected(
    elems: Seq<Elem>,
    samples: Seq<Option<Double>>,
)
    ensures
        depth_of(elems) == singles(elems) + windows(elems),
        ({
            let n = if samples.len() < depth_of(elems) {
                samples.len()
            } else {
                depth_of(elems)
            };
            matched(elems, samples) == matched(elems, samples.skip(samples.len() - n))
        }),
    decreases elems.len(),
{
    if elems.len() > 0 {
        nothing_older_than_the_depth_is_inspected(elems.drop_last(), samples);
    }
    if samples.len() < depth_of(elems) {
        assert(samples.skip(0) =~= samples);
    } else {
        a_bounded_history_is_enough(elems, samples, depth_of(elems));
    }
}

/// A comparison is one of numbers: a known sample meets it where its value
/// stands to the threshold's as the sign says. An unknown one meets none.
pub proof fn comparisons_are_of_numbers(v: Double, s: Double)
    requires
        !v.nan(),
        !s.nan(),
    ensures
        accepts(Elem::Test(Op::Lt, v), Some(s)) <==> s.value() < v.value(),
        accepts(Elem::Test(Op::Gt, v), Some(s)) <==> s.value() > v.value(),
        accepts(Elem::Test(Op::Le, v), Some(s)) <==> s.value() <= v.value(),
        accepts(Elem::Test(Op::Ge, v), Some(s)) <==> s.value() >= v.value(),
        accepts(Elem::Test(Op::Eq, v), Some(s)) <==> s.value() == v.value(),
        accepts(Elem::Test(Op::Ne, v), Some(s)) <==> s.value() != v.value(),
        forall|op: Op| !#[trigger] accepts(Elem::Test(op, v), None),
        accepts(Elem::Unknown, None),
        !accepts(Elem::Unknown, Some(s)),
        accepts(Elem::Any, None),
        accepts(Elem::Any, Some(s)),
{
}

/// How elements are written: an operator and a number, with or without a
/// percent sign, stand for that comparison; a star for any round; `==U` for an
/// unknown one.
pub proof fn elements_are_written_so(num: Seq<char>, v: Double)
    requires
        decimal::read(num) == Some(v),
        num.len() > 0,
        !text::is_space(num[0]),
        !text::is_space(num.last()),
        num.last() != '%',
        num[0] != '=',
        num[0] != '*',
        text::lowercased(num) != "u"@,
        text::lowercased(num.push('%')) != "u"@,
    ensures
        elem_of(seq!['<'] + num) == Ok::<Elem, ElemError>(Elem::Test(Op::Lt, v)),
        elem_of(seq!['>'] + num) == Ok::<Elem, ElemError>(Elem::Test(Op::Gt, v)),
        elem_of(seq!['<', '='] + num) == Ok::<Elem, ElemError>(Elem::Test(Op::Le, v)),
        elem_of(seq!['>', '='] + num) == Ok::<Elem, ElemError>(Elem::Test(Op::Ge, v)),
        elem_of(seq!['=', '='] + num) == Ok::<Elem, ElemError>(Elem::Test(Op::Eq, v)),
        elem_of(seq!['!', '='] + num) == Ok::<Elem, ElemError>(Elem::Test(Op::Ne, v)),
        elem_of(seq!['>'] + num.push('%')) == Ok::<Elem, ElemError>(Elem::Test(Op::Gt, v)),
        elem_of(seq!['<'] + num.push('%')) == Ok::<Elem, ElemError>(Elem::Test(Op::Lt, v)),
{
    assert(seq!['<'][0] == '<' && seq!['>'][0] == '>');
    assert(seq!['<', '='][0] == '<' && seq!['>', '='][0] == '>');
    assert(seq!['=', '='][0] == '=' && seq!['!', '='][0] == '!');
    assert(seq!['<'].len() == 1 && seq!['>'].len() == 1);
    lemma_compared(seq!['<'], num, num, v);
    lemma_compared(seq!['>'], num, num, v);
    lemma_compared(seq!['<', '='], num, num, v);
    lemma_compared(seq!['>', '='], num, num, v);
    lemma_compared(seq!['=', '='], num, num, v);
    lemma_compared(seq!['!', '='], num, num, v);
    lemma_compared(seq!['>'], num.push('%'), num, v);
    lemma_compared(seq!['<'], num.push('%'), num, v);
}

/// A star stands for any round, and `==U`, in either case, for an unknown one;
/// no other operator goes with a `U`. What starts with none of the operators
/// and with no star is no element.
pub proof fn other_elements_are_written_so(op: char, u: Seq<char>, other: Seq<char>)
    requires
        op == '<' || op == '>',
        u == seq!['U'] || u == seq!['u'],
        other.len() > 0,
        other[0] != '=' && other[0] != '!' && other[0] != '<' && other[0] != '>' && other[0] != '*',
    ensures
        elem_of(seq!['*']) == Ok::<Elem, ElemError>(Elem::Any),
        elem_of(seq!['=', '='] + u) == Ok::<Elem, ElemError>(Elem::Unknown),
        elem_of(seq![op] + u) == Err::<Elem, ElemError>(ElemError::UnknownOp),
        elem_of(other) == Err::<Elem, ElemError>(ElemError::NoOperator),
{
    lemma_operator_strings();
    reveal_strlit("*");
    reveal_strlit("u");
    assert(seq!['*'] =~= "*"@);
    assert(text::lowercased(u) =~= "u"@);
    text::lemma_trimmed_already(u);
    let known = seq!['=', '='] + u;
    assert(known[0] == '=' && "*"@[0] == '*');
    assert(known.take(2) =~= seq!['=', '=']);
    assert(known.skip(2) =~= u);
    let more = seq![op] + u;
    assert(more[0] == op && more[1] == u[0]);
    assert(more.take(1) =~= seq![op]);
    assert(more.skip(1) =~= u);
    assert(more.take(2)[1] == u[0] && more.take(2)[0] == op && more.take(1)[0] == op);
    assert(other.len() >= 1 ==> other.take(1)[0] == other[0]);
    assert(other.len() >= 2 ==> other.take(2)[0] == other[0]);
    assert(seq!['<'][0] == '<' && seq!['>'][0] == '>');
    assert(seq!['<', '='][0] == '<' && seq!['>', '='][0] == '>');
    assert(seq!['=', '='][0] == '=' && seq!['!', '='][0] == '!');
    assert(seq!['<', '='][1] == '=' && seq!['>', '='][1] == '=');
}

proof fn lemma_operator_strings()
    ensures
        "=="@ == seq!['=', '='],
        "!="@ == seq!['!', '='],
        ">="@ == seq!['>', '='],
        "<="@ == seq!['<', '='],
        ">"@ == seq!['>'],
        "<"@ == seq!['<'],
{
    reveal_strlit("==");
    reveal_strlit("!=");
    reveal_strlit(">=");
    reveal_strlit("<=");
    reveal_strlit(">");
    reveal_strlit("<");
    assert("=="@ =~= seq!['=', '=']);
    assert("!="@ =~= seq!['!', '=']);
    assert(">="@ =~= seq!['>', '=']);
    assert("<="@ =~= seq!['<', '=']);
    assert(">"@ =~= seq!['>']);
    assert("<"@ =~= seq!['<']);
}

proof fn lemma_compared(op: Seq<char>, rest: Seq<char>, num: Seq<char>, v: Double)
    requires
        decimal::read(num) == Some(v),
        num.len() > 0,
        !text::is_space(num[0]),
        !text::is_space(num.last()),
        num.last() != '%',
        num[0] != '=',
        rest == num || rest == num.push('%'),
        text::lowercased(rest) != "u"@,
        op == seq!['<'] || op == seq!['>'] || op == seq!['<', '='] || op == seq!['>', '='] || op
            == seq!['=', '='] || op == seq!['!', '='],
    ensures
        elem_of(op + rest) == Ok::<Elem, ElemError>(
            Elem::Test(
                if op == seq!['<'] {
                    Op::Lt
                } else if op == seq!['>'] {
                    Op::Gt
                } else if op == seq!['<', '='] {
                    Op::Le
                } else if op == seq!['>', '='] {
                    Op::Ge
                } else if op == seq!['=', '='] {
                    Op::Eq
                } else {
                    Op::Ne
                },
                v,
            ),
        ),
{
    lemma_operator_strings();
    reveal_strlit("*");
    let tok = op + rest;
    assert(tok[0] == op[0]);
    assert("*"@[0] == '*');
    assert(tok.take(op.len() as int) =~= op);
    assert(tok.skip(op.len() as int) =~= rest);
    assert(tok.take(2)[1] == tok[1] && tok.take(2)[0] == tok[0] && tok.take(1)[0] == tok[0]);
    assert(tok[1] == (if op.len() == 2 {
        '='
    } else {
        num[0]
    })) by {
        assert(rest[0] == num[0]);
    }
    assert(seq!['<'].len() == 1 && seq!['>'].len() == 1);
    assert(seq!['<', '='][0] == '<' && seq!['>', '='][0] == '>' && seq!['=', '='][0] == '='
        && seq!['!', '='][0] == '!' && seq!['<'][0] == '<' && seq!['>'][0] == '>');
    text::lemma_trimmed_already(rest);
    text::lemma_trimmed_already(num);
    assert(num.push('%').drop_last() =~= num);
}

/// A window is written as its size between two stars, from 1 to 64.
pub proof fn windows_are_written_so(n: nat)
    ensures
        elem_of(seq!['*'] + text::decimal(n) + seq!['*']) == (if 1 <= n <= 64 {
            Ok::<Elem, ElemError>(Elem::Span(n as u32))
        } else if n <= u32::MAX {
            Err::<Elem, ElemError>(ElemError::SpanRange)
        } else {
            Err::<Elem, ElemError>(ElemError::BadSpan)
        }),
{
    reveal_strlit("*");
    text::a_numeral_stands_for_its_number(n);
    text::numerals_are_read_back(n, u32::MAX as nat);
    let d = text::decimal(n);
    let tok = seq!['*'] + d + seq!['*'];
    assert(tok.subrange(1, tok.len() - 1) =~= d);
    assert("*"@.len() == 1);
}

/// A sample that is no number is unequal to every threshold and stands in no
/// other relation to any.
pub proof fn a_nan_is_unequal_to_all(v: Double, s: Double)
    requires
        s.nan(),
    ensures
        accepts(Elem::Test(Op::Ne, v), Some(s)),
        !accepts(Elem::Test(Op::Eq, v), Some(s)),
        !accepts(Elem::Test(Op::Lt, v), Some(s)),
        !accepts(Elem::Test(Op::Gt, v), Some(s)),
        !accepts(Elem::Test(Op::Le, v), Some(s)),
        !accepts(Elem::Test(Op::Ge, v), Some(s)),
{
}

/// How many rounds the elements from place `i` on take.
pub open spec fn from_there(takes: Seq<nat>, i: int) -> nat
    decreases takes.len() - i,
{
    if i < 0 || i >= takes.len() {
        0
    } else {
        takes[i] + from_there(takes, i + 1)
    }
}

/// The elements can be laid over the newest samples so: a window over as many
/// as its size at most, every other element over one that it accepts, each
/// element behind the one before it and the last one at the end.
pub open spec fn laid_over(
    elems: Seq<Elem>,
    samples: Seq<Option<Double>>,
    takes: Seq<nat>,
) -> bool {
    &&& takes.len() == elems.len()
    &&& from_there(takes, 0) <= samples.len()
    &&& forall|i: int|
        0 <= i < elems.len() ==> match #[trigger] elems[i] {
            Elem::Span(n) => takes[i] <= n,
            e => takes[i] == 1 && accepts(e, samples[samples.len() - from_there(takes, i)]),
        }
}

/// A pattern matches exactly where its elements can be laid over the newest
/// samples.
pub proof fn a_pattern_is_laid_over_the_newest_rounds(
    elems: Seq<Elem>,
    samples: Seq<Option<Double>>,
)
    ensures
        matched(elems, samples) <==> exists|takes: Seq<nat>| laid_over(elems, samples, takes),
    decreases elems.len(),
{
    if elems.len() == 0 {
        let none = Seq::<nat>::empty();
        assert(laid_over(elems, samples, none));
    } else {
        let rest = elems.drop_last();
        let n = rest.len() as int;
        assert(elems[n] == elems.last());
        if matched(elems, samples) {
            let (left, more): (int, nat) = match elems.last() {
                Elem::Span(_) => {
                    let left = choose|left: int|
                        0 <= left <= samples.len() <= left + elems.last()->Span_0 && matched(
                            rest,
                            #[trigger] samples.take(left),
                        );
                    (left, (samples.len() - left) as nat)
                },
                _ => (samples.len() - 1, 1nat),
            };
            assert(samples.take(samples.len() - 1) =~= samples.drop_last() || samples.len() == 0);
            a_pattern_is_laid_over_the_newest_rounds(rest, samples.take(left));
            let before = choose|takes: Seq<nat>| laid_over(rest, samples.take(left), takes);
            let takes = before.push(more);
            assert forall|i: int| 0 <= i <= n + 1 implies #[trigger] from_there(takes, i)
                == from_there(before, i) + (if i <= n {
                more
            } else {
                0
            }) by {
                lemma_one_more(before, more, i);
            }
            assert forall|i: int| 0 <= i < elems.len() implies match #[trigger] elems[i] {
                Elem::Span(k) => takes[i] <= k,
                e => takes[i] == 1 && accepts(e, samples[samples.len() - from_there(takes, i)]),
            } by {
                if i < n {
                    assert(rest[i] == elems[i]);
                    assert(takes[i] == before[i]);
                    lemma_within(before, i);
                    let at = left - from_there(before, i);
                    assert(from_there(takes, i) == from_there(before, i) + more);
                    if !(elems[i] is Span) {
                        assert(from_there(before, i) >= 1);
                        assert(samples.take(left)[at] == samples[at]);
                    }
                } else {
                    assert(from_there(takes, n) == from_there(before, n) + more);
                    assert(from_there(before, n) == 0);
                }
            }
            assert(from_there(takes, 0) == from_there(before, 0) + more);
            assert(laid_over(elems, samples, takes));
        }
        if exists|takes: Seq<nat>| laid_over(elems, samples, takes) {
            let takes = choose|takes: Seq<nat>| laid_over(elems, samples, takes);
            let before = takes.drop_last();
            let more = takes[n];
            assert(before.push(more) =~= takes);
            let left = samples.len() - more;
            lemma_one_more(before, more, 0);
            assert(from_there(takes, 0) == from_there(before, 0) + more);
            assert forall|i: int| 0 <= i < rest.len() implies match #[trigger] rest[i] {
                Elem::Span(k) => before[i] <= k,
                e => before[i] == 1 && accepts(
                    e,
                    samples.take(left)[left - from_there(before, i)],
                ),
            } by {
                assert(rest[i] == elems[i]);
                assert(takes[i] == before[i]);
                lemma_one_more(before, more, i);
                lemma_within(before, i);
                let at = left - from_there(before, i);
                if !(elems[i] is Span) {
                    assert(from_there(before, i) >= 1);
                    assert(samples.take(left)[at] == samples[at]);
                }
            }
            assert(laid_over(rest, samples.take(left), before));
            a_pattern_is_laid_over_the_newest_rounds(rest, samples.take(left));
            lemma_one_more(before, more, n);
            assert(from_there(before, n) == 0);
            match elems.last() {
                Elem::Span(_) => {
                    assert(matched(rest, samples.take(left)));
                },
                _ => {
                    assert(samples.take(left) =~= samples.drop_last());
                    assert(samples[samples.len() - from_there(takes, n)] == samples.last());
                },
            }
        }
    }
}

proof fn lemma_one_more(takes: Seq<nat>, more: nat, i: int)
    requires
        0 <= i <= takes.len() + 1,
    ensures
        from_there(takes.push(more), i) == from_there(takes, i) + (if i <= takes.len() {
            more
        } else {
            0
        }),
    decreases takes.len() + 1 - i,
{
    reveal_with_fuel(from_there, 2);
    if i < takes.len() {
        lemma_one_more(takes, more, i + 1);
        assert(takes.push(more)[i] == takes[i]);
    }
}

/// What a later element takes, an earlier one and all behind it take at least.
proof fn lemma_within(takes: Seq<nat>, i: int)
    requires
        0 <= i <= takes.len(),
    ensures
        from_there(takes, i) <= from_there(takes, 0),
    decreases i,
{
    if i > 0 {
        lemma_within(takes, i - 1);
    }
}

/// A pattern without windows takes exactly the newest rounds, one by one.
pub proof fn without_windows_the_newest_rounds_decide(
    elems: Seq<Elem>,
    samples: Seq<Option<Double>>,
)
    requires
        forall|i: int| 0 <= i < elems.len() ==> !(#[trigger] elems[i] is Span),
    ensures
        matched(elems, samples) <==> elems.len() <= samples.len() && forall|i: int|
            0 <= i < elems.len() ==> accepts(
                #[trigger] elems[i],
                samples[samples.len() - elems.len() + i],
            ),
    decreases elems.len(),
{
    if elems.len() > 0 {
        let rest = elems.drop_last();
        if samples.len() > 0 {
            without_windows_the_newest_rounds_decide(rest, samples.drop_last());
            let n = elems.len();
            assert(elems[n - 1] == elems.last());
            if matched(elems, samples) {
                assert forall|i: int| 0 <= i < n implies accepts(
                    #[trigger] elems[i],
                    samples[samples.len() - n + i],
                ) by {
                    if i < n - 1 {
                        assert(elems[i] == rest[i]);
                    }
                }
            }
            if n <= samples.len() && (forall|i: int|
                0 <= i < n ==> accepts(#[trigger] elems[i], samples[samples.len() - n + i])) {
                assert forall|i: int| 0 <= i < n - 1 implies accepts(
                    #[trigger] rest[i],
                    samples.drop_last()[samples.len() - n + i],
                ) by {
                    assert(elems[i] == rest[i]);
                }
            }
        }
    }
}

impl Pattern {
    /// The pattern that a text stands for; the error is that of its first
    /// element that does not parse.
    pub fn parse(s: &str) -> (r: Result<Pattern, PatternError>)
        ensures
            match r {
                Ok(p) => pattern_of(s@) == Ok::<Seq<Elem>, PatternError>(p.elems@),
                Err(e) => pattern_of(s@) == Err::<Seq<Elem>, PatternError>(e),
            },
    {
        let tokens = split_text(s, ',');
        let ghost parsed = elems_of(text::split(s@, ','));
        let mut elems: Vec<Elem> = Vec::new();
        let mut solid = false;
        let mut i: usize = 0;
        while i < tokens.len()
            invariant
                text::texts(tokens@) == text::split(s@, ','),
                parsed == elems_of(text::split(s@, ',')),
                i <= tokens@.len(),
                elems@.len() == i,
                forall|j: int|
                    0 <= j < i ==> #[trigger] parsed[j] == Ok::<Elem, ElemError>(elems@[j]),
                solid == concrete(elems@),
            decreases tokens@.len() - i,
        {
            let tok = trim(tokens[i].as_str());
            assert(text::texts(tokens@)[i as int] == tokens@[i as int]@);
            assert(parsed[i as int] == elem_of(tok@));
            match parse_elem(tok.as_str()) {
                Ok(e) => {
                    let ghost before = elems@;
                    elems.push(e);
                    let window = match e {
                        Elem::Span(_) => true,
                        _ => false,
                    };
                    proof {
                        if concrete(before) {
                            let k = choose|k: int|
                                0 <= k < before.len() && !(#[trigger] before[k] is Span);
                            assert(!(elems@[k] is Span));
                        }
                        if !window {
                            assert(!(elems@[i as int] is Span));
                        }
                        if concrete(elems@) && window {
                            let k = choose|k: int|
                                0 <= k < elems@.len() && !(#[trigger] elems@[k] is Span);
                            assert(!(before[k] is Span));
                        }
                    }
                    if !window {
                        solid = true;
                    }
                },
                Err(why) => {
                    proof {
                        lemma_first_bad(parsed, i as int);
                    }
                    return Err(PatternError::Element(i, why));
                },
            }
            i = i + 1;
        }
        proof {
            assert(text::texts(tokens@).len() == tokens@.len());
            lemma_first_bad(parsed, i as int);
            assert(parsed.map_values(|e: Result<Elem, ElemError>| e->Ok_0) =~= elems@);
        }
        if !solid {
            return Err(PatternError::NothingConcrete);
        }
        Ok(Pattern { elems })
    }

    /// How many recent rounds the pattern can possibly inspect.
    pub fn depth(&self) -> (r: usize)
        ensures
            depth_of(self.elems@) <= usize::MAX ==> r == depth_of(self.elems@),
            depth_of(self.elems@) > usize::MAX ==> r == usize::MAX,
    {
        let mut sum: usize = 0;
        let mut i: usize = 0;
        assert(self.elems@.take(0) == Seq::<Elem>::empty());
        while i < self.elems.len()
            invariant
                i <= self.elems@.len(),
                depth_of(self.elems@.take(i as int)) <= usize::MAX ==> sum == depth_of(
                    self.elems@.take(i as int),
                ),
                depth_of(self.elems@.take(i as int)) > usize::MAX ==> sum == usize::MAX,
            decreases self.elems@.len() - i,
        {
            assert(self.elems@.take(i + 1).drop_last() == self.elems@.take(i as int));
            let w: usize = match self.elems[i] {
                Elem::Span(n) => n as usize,
                _ => 1,
            };
            sum = if w > usize::MAX - sum {
                usize::MAX
            } else {
                sum + w
            };
            i = i + 1;
        }
        assert(self.elems@.take(i as int) == self.elems@);
        sum
    }

    /// `samples` is oldest→newest; None = unknown value.
    pub fn matches(&self, samples: &[Option<Double>]) -> (r: bool)
        ensures
            r == matched(self.elems@, samples@),
    {
        assert(self.elems@.take(self.elems@.len() as int) == self.elems@);
        assert(samples@.take(samples@.len() as int) == samples@);
        match_prefix(&self.elems, self.elems.len(), samples, samples.len())
    }
}

/// Whether the first `ne` elements match the first `ns` samples.
fn match_prefix(elems: &Vec<Elem>, ne: usize, samples: &[Option<Double>], ns: usize) -> (r: bool)
    requires
        ne <= elems@.len(),
        ns <= samples@.len(),
    ensures
        r == matched(elems@.take(ne as int), samples@.take(ns as int)),
    decreases ne,
{
    if ne == 0 {
        return true;
    }
    let ghost es = elems@.take(ne as int);
    let ghost ss = samples@.take(ns as int);
    assert(es.drop_last() == elems@.take(ne - 1));
    match elems[ne - 1] {
        Elem::Span(n) => {
            let low: usize = if (n as usize) < ns {
                ns - n as usize
            } else {
                0
            };
            let mut left: usize = ns;
            loop
                invariant
                    0 < ne <= elems@.len(),
                    low <= left <= ns <= samples@.len(),
                    low == 0 || low == ns - n,
                    ns <= low + n,
                    es == elems@.take(ne as int),
                    ss == samples@.take(ns as int),
                    es.drop_last() == elems@.take(ne - 1),
                    es.last() == Elem::Span(n),
                    forall|j: int|
                        left < j <= ns ==> !matched(es.drop_last(), #[trigger] ss.take(j)),
                decreases left,
            {
                assert(ss.take(left as int) == samples@.take(left as int));
                if match_prefix(elems, ne - 1, samples, left) {
                    return true;
                }
                if left == low {
                    return false;
                }
                left = left - 1;
            }
        },
        e => {
            if ns == 0 {
                return false;
            }
            assert(ss.drop_last() == samples@.take(ns - 1));
            elem_match(&e, samples[ns - 1]) && match_prefix(elems, ne - 1, samples, ns - 1)
        },
    }
}

/// Whether one element other than a window accepts a sample.
fn elem_match(e: &Elem, sample: Option<Double>) -> (r: bool)
    ensures
        r == accepts(*e, sample),
{
    match (*e, sample) {
        (Elem::Any, _) => true,
        (Elem::Span(_), _) => true,
        (Elem::Unknown, s) => s.is_none(),
        (Elem::Test(op, v), Some(s)) => match op {
            Op::Eq => s.num_eq(v),
            Op::Ne => !s.num_eq(v),
            Op::Gt => v.num_lt(s),
            Op::Lt => s.num_lt(v),
            Op::Ge => v.num_lt(s) || s.num_eq(v),
            Op::Le => s.num_lt(v) || s.num_eq(v),
        },
        (Elem::Test(_, _), None) => false,
    }
}

/// The element that a token stands for.
pub fn parse_elem(tok: &str) -> (r: Result<Elem, ElemError>)
    ensures
        r == elem_of(tok@),
{
    if same(tok, "*") {
        return Ok(Elem::Any);
    }
    let v = chars_of(tok);
    if v.len() >= 2 && v[0] == '*' && v[v.len() - 1] == '*' {
        let inner = slice_string(&v, 1, v.len() - 1);
        return match parse_unsigned(inner.as_str(), u32::MAX as u64) {
            None => Err(ElemError::BadSpan),
            Some(n) => if n == 0 || n > MAX_SPAN as u64 {
                Err(ElemError::SpanRange)
            } else {
                Ok(Elem::Span(n as u32))
            },
        };
    }
    proof {
        reveal_strlit("==");
        reveal_strlit("!=");
        reveal_strlit(">=");
        reveal_strlit("<=");
        reveal_strlit(">");
        reveal_strlit("<");
    }
    let (op, rest) = if let Some(r) = strip_prefix(tok, "==") {
        (Op::Eq, r)
    } else if let Some(r) = strip_prefix(tok, "!=") {
        (Op::Ne, r)
    } else if let Some(r) = strip_prefix(tok, ">=") {
        (Op::Ge, r)
    } else if let Some(r) = strip_prefix(tok, "<=") {
        (Op::Le, r)
    } else if let Some(r) = strip_prefix(tok, ">") {
        (Op::Gt, r)
    } else if let Some(r) = strip_prefix(tok, "<") {
        (Op::Lt, r)
    } else {
        return Err(ElemError::NoOperator);
    };
    let rest = trim(rest.as_str());
    if same(to_lower(rest.as_str()).as_str(), "u") {
        return if op == Op::Eq {
            Ok(Elem::Unknown)
        } else {
            Err(ElemError::UnknownOp)
        };
    }
    let chars = chars_of(rest.as_str());
    let end: usize = if chars.len() > 0 && chars[chars.len() - 1] == '%' {
        chars.len() - 1
    } else {
        chars.len()
    };
    let bare = slice_string(&chars, 0, end);
    assert(bare@ == without_percent(rest@));
    match read_double(trim(bare.as_str()).as_str()) {
        Some(v) => Ok(Elem::Test(op, v)),
        None => Err(ElemError::BadNumber),
    }
}

} // verus!
