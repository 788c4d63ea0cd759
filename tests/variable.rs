use tapgen::context::{ContextValue, RenderContext};
use tapgen::definition::{list_field, RawField, RawItem, RawScalar};
use tapgen::error::{Error, InvalidVariableError, SchemaError};
use tapgen::variable::{choice_position, default_mask, Condition, Pattern, Variable, VariableValue};

fn strings(items: &[&str]) -> Vec<String> {
    items.iter().map(|s| s.to_string()).collect()
}

fn variable(value: VariableValue) -> Variable {
    Variable { value, prompt: String::from("?"), condition: None }
}

fn text(default: &str, pattern: Option<&str>, choices: Option<&[&str]>) -> Variable {
    variable(VariableValue::String {
        default: default.to_string(),
        pattern: pattern.map(|p| Pattern::new(p.to_string()).unwrap()),
        choices: choices.map(strings),
    })
}

#[test]
fn string_default_matching_pattern_validates() {
    assert!(text("foo", Some("^[a-z]+$"), None).validate().is_ok());
}

#[test]
fn string_default_mismatching_pattern_fails() {
    let err = text("123", Some("^[a-z]+$"), None).validate().unwrap_err();
    assert_eq!(err, InvalidVariableError::DefaultMismatchPattern);
}

#[test]
fn string_default_outside_choices_fails() {
    let err = text("c", None, Some(&["a", "b"])).validate().unwrap_err();
    assert_eq!(err, InvalidVariableError::DefaultOutsideChoices);
}

#[test]
fn empty_string_default_is_always_valid() {
    assert!(text("", None, Some(&["a", "b"])).validate().is_ok());
    assert!(text("", Some("^[a-z]+$"), None).validate().is_ok());
    assert!(text("", None, None).validate().is_ok());
}

#[test]
fn string_default_among_choices_validates() {
    assert!(text("b", None, Some(&["a", "b"])).validate().is_ok());
}

#[test]
fn pattern_with_choices_fails() {
    let err = text("a", Some("a"), Some(&["a"])).validate().unwrap_err();
    assert_eq!(err, InvalidVariableError::PatternWithChoices);
}

#[test]
fn empty_choices_fail() {
    let err = text("", None, Some(&[])).validate().unwrap_err();
    assert_eq!(err, InvalidVariableError::DefaultOutsideChoices);
    let err = variable(VariableValue::Array { default: vec![], choices: vec![] }).validate().unwrap_err();
    assert_eq!(err, InvalidVariableError::DefaultOutsideChoices);
}

#[test]
fn reversed_integer_range_fails() {
    let v = variable(VariableValue::Integer { default: 5, range: Some((10, 1)) });
    assert_eq!(v.validate().unwrap_err(), InvalidVariableError::UnreasonableRange);
}

#[test]
fn empty_integer_range_fails() {
    let v = variable(VariableValue::Integer { default: 3, range: Some((3, 3)) });
    assert_eq!(v.validate().unwrap_err(), InvalidVariableError::UnreasonableRange);
}

#[test]
fn integer_default_outside_range_fails() {
    let v = variable(VariableValue::Integer { default: 11, range: Some((1, 10)) });
    assert_eq!(v.validate().unwrap_err(), InvalidVariableError::UnreasonableRange);
    let v = variable(VariableValue::Integer { default: 10, range: Some((1, 10)) });
    assert!(v.validate().is_ok());
}

#[test]
fn array_default_outside_choices_fails() {
    let v = variable(VariableValue::Array { default: strings(&["x"]), choices: strings(&["a", "b"]) });
    assert_eq!(v.validate().unwrap_err(), InvalidVariableError::DefaultOutsideChoices);
}

#[test]
fn array_default_within_choices_validates() {
    let v = variable(VariableValue::Array { default: strings(&["b"]), choices: strings(&["a", "b"]) });
    assert!(v.validate().is_ok());
}

#[test]
fn boolean_always_validates() {
    assert!(variable(VariableValue::Boolean { default: true }).validate().is_ok());
}

#[test]
fn invalid_regex_is_refused() {
    assert!(Pattern::new(String::from("(")).is_err());
    let p = Pattern::new(String::from("^a+$")).unwrap();
    assert_eq!(p.as_str(), "^a+$");
    assert!(p.is_match("aaa"));
    assert!(!p.is_match("aab"));
}

#[test]
fn condition_evaluates_by_truthiness() {
    let mut ctx = RenderContext::new();
    ctx.insert(String::from("n"), ContextValue::Int(0));
    ctx.insert(String::from("s"), ContextValue::Str(String::from("x")));
    assert!(!Condition::new(String::from("n")).unwrap().eval(&ctx).unwrap());
    assert!(Condition::new(String::from("s")).unwrap().eval(&ctx).unwrap());
    assert!(Condition::new(String::from("n == 0")).unwrap().eval(&ctx).unwrap());
    assert!(!Condition::new(String::from("missing")).unwrap().eval(&ctx).unwrap());
    assert!(Condition::new(String::from("a ==")).is_err());
}

#[test]
fn accepts_checks_constraints() {
    let v = text("", None, Some(&["a", "b"]));
    assert!(v.accepts(&ContextValue::Str(String::from("a"))));
    assert!(!v.accepts(&ContextValue::Str(String::from("c"))));
    assert!(!v.accepts(&ContextValue::Int(1)));
    let v = text("", Some("^[0-9]+$"), None);
    assert!(v.accepts(&ContextValue::Str(String::from("42"))));
    assert!(!v.accepts(&ContextValue::Str(String::from("x"))));
    let v = variable(VariableValue::Integer { default: 1, range: Some((1, 5)) });
    assert!(v.accepts(&ContextValue::Int(5)));
    assert!(!v.accepts(&ContextValue::Int(6)));
    let v = variable(VariableValue::Array { default: vec![], choices: strings(&["a", "b"]) });
    assert!(v.accepts(&ContextValue::List(strings(&["b", "a"]))));
    assert!(!v.accepts(&ContextValue::List(strings(&["z"]))));
}

#[test]
fn default_value_omits_empty_string() {
    assert_eq!(text("", None, None).default_value(), None);
    assert_eq!(text("d", None, None).default_value(), Some(ContextValue::Str(String::from("d"))));
    let v = variable(VariableValue::Integer { default: 7, range: None });
    assert_eq!(v.default_value(), Some(ContextValue::Int(7)));
}

#[test]
fn choice_position_and_mask() {
    let items = strings(&["a", "b", "c"]);
    assert_eq!(choice_position(&items, &String::from("b")), Some(1));
    assert_eq!(choice_position(&items, &String::from("z")), None);
    assert_eq!(default_mask(&items, &strings(&["c", "a"])), vec![true, false, true]);
}

fn table(fields: Vec<(&str, RawField)>) -> RawItem {
    RawItem::Table(fields.into_iter().map(|(k, v)| (k.to_string(), v)).collect())
}

fn str_field(s: &str) -> RawField {
    RawField::Str(s.to_string())
}

#[test]
fn declaration_shapes_are_told_by_default() {
    let name = String::from("v");
    let v = Variable::from_declaration(&name, &table(vec![("default", str_field("x")), ("prompt", str_field("P"))])).unwrap();
    assert!(matches!(v.value, VariableValue::String { .. }));
    assert_eq!(v.prompt, "P");
    let v = Variable::from_declaration(
        &name,
        &table(vec![
            ("default", RawField::StrList(strings(&["a"]))),
            ("choices", RawField::StrList(strings(&["a", "b"]))),
            ("prompt", str_field("P")),
        ]),
    )
    .unwrap();
    assert!(matches!(v.value, VariableValue::Array { .. }));
    let v = Variable::from_declaration(
        &name,
        &table(vec![("default", RawField::Int(3)), ("range", RawField::IntList(vec![1, 5])), ("prompt", str_field("P"))]),
    )
    .unwrap();
    assert!(matches!(v.value, VariableValue::Integer { default: 3, range: Some((1, 5)) }));
    let v = Variable::from_declaration(
        &name,
        &table(vec![("default", RawField::Bool(true)), ("prompt", str_field("P")), ("condition", str_field("x"))]),
    )
    .unwrap();
    assert!(matches!(v.value, VariableValue::Boolean { default: true }));
    assert_eq!(v.condition.unwrap().as_str(), "x");
}

fn schema_cause(r: Result<Variable, Error>) -> (SchemaError, String) {
    match r {
        Err(Error::Schema { cause, field, .. }) => (cause, field),
        other => panic!("expected a schema error, got {:?}", other),
    }
}

#[test]
fn declaration_schema_errors() {
    let name = String::from("v");
    let (c, _) = schema_cause(Variable::from_declaration(&name, &RawItem::Field(str_field("x"))));
    assert_eq!(c, SchemaError::NotATable);
    let (c, f) = schema_cause(Variable::from_declaration(&name, &table(vec![("prompt", str_field("P"))])));
    assert_eq!((c, f.as_str()), (SchemaError::NoShape, "default"));
    let (c, f) = schema_cause(Variable::from_declaration(
        &name,
        &table(vec![("default", RawField::Bool(true)), ("prompt", str_field("P")), ("pattern", str_field("x"))]),
    ));
    assert_eq!((c, f.as_str()), (SchemaError::UnknownField, "pattern"));
    let (c, f) = schema_cause(Variable::from_declaration(&name, &table(vec![("default", RawField::Int(1))])));
    assert_eq!((c, f.as_str()), (SchemaError::MissingPrompt, "prompt"));
    let (c, f) = schema_cause(Variable::from_declaration(
        &name,
        &table(vec![("default", RawField::Int(1)), ("prompt", str_field("P")), ("range", RawField::IntList(vec![1]))]),
    ));
    assert_eq!((c, f.as_str()), (SchemaError::WrongType, "range"));
    let (c, f) = schema_cause(Variable::from_declaration(
        &name,
        &table(vec![("default", RawField::StrList(vec![])), ("prompt", str_field("P"))]),
    ));
    assert_eq!((c, f.as_str()), (SchemaError::NoShape, "choices"));
}

#[test]
fn declaration_compile_and_validation_errors() {
    let name = String::from("v");
    let r = Variable::from_declaration(
        &name,
        &table(vec![("default", str_field("")), ("prompt", str_field("P")), ("pattern", str_field("("))]),
    );
    assert!(matches!(r, Err(Error::InvalidPattern { .. })));
    let r = Variable::from_declaration(
        &name,
        &table(vec![("default", RawField::Bool(false)), ("prompt", str_field("P")), ("condition", str_field("a =="))]),
    );
    assert!(matches!(r, Err(Error::Condition { .. })));
    let r = Variable::from_declaration(
        &name,
        &table(vec![("default", RawField::Int(0)), ("prompt", str_field("P")), ("range", RawField::IntList(vec![10, 1]))]),
    );
    assert!(matches!(r, Err(Error::ValidateVariable { source: InvalidVariableError::UnreasonableRange, .. })));
}

#[test]
fn lists_are_classified_by_their_elements() {
    let texts = vec![RawScalar::Str(String::from("a")), RawScalar::Str(String::from("b"))];
    assert!(matches!(list_field(&texts), RawField::StrList(ref l) if *l == strings(&["a", "b"])));
    assert!(matches!(list_field(&vec![]), RawField::StrList(ref l) if l.is_empty()));
    assert!(matches!(list_field(&vec![RawScalar::Int(1), RawScalar::Int(5)]), RawField::IntList(ref l) if *l == vec![1, 5]));
    assert!(matches!(list_field(&vec![RawScalar::Int(1), RawScalar::Str(String::from("a"))]), RawField::Other));
    assert!(matches!(list_field(&vec![RawScalar::Bool(true)]), RawField::Other));
}
