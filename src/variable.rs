//! Typed variable declarations and their invariants.
use vstd::prelude::*;
use crate::context::{ContextValue, RenderContext};
use crate::path::same_text;
use crate::definition::{find_key, first_value, RawField, RawItem};
use crate::error::{Error, InvalidVariableError, SchemaError};
use crate::trusted::{
    expression_compile, expression_eval, expression_truth, expression_valid, regex_compile,
    regex_is_match, regex_match, regex_valid,
};

verus! {

/// A regular expression that a string value must match.
#[derive(Debug)]
pub struct Pattern {
    source: String,
}

impl View for Pattern {
    type V = Seq<char>;

    closed spec fn view(&self) -> Seq<char> {
        self.source@
    }
}

impl Pattern {
    #[verifier::type_invariant]
    spec fn compiles(&self) -> bool {
        regex_valid(self.source@)
    }

    /// Compiles `source`; fails where it is no valid regular expression.
    pub fn new(source: String) -> (r: Result<Pattern, String>)
        ensures
            r is Ok <==> regex_valid(source@),
            r matches Ok(p) ==> p@ == source@,
    {
        match regex_compile(source.as_str()) {
            Ok(()) => Ok(Pattern { source }),
            Err(e) => Err(e),
        }
    }

    /// Whether the pattern matches somewhere in `value`.
    pub fn is_match(&self, value: &str) -> (r: bool)
        ensures
            r == regex_match(self@, value@),
    {
        proof { use_type_invariant(self); }
        regex_is_match(self.source.as_str(), value)
    }

    /// The source text of the pattern.
    pub fn as_str(&self) -> (r: &str)
        ensures
            r@ == self@,
    {
        self.source.as_str()
    }
}

/// A boolean expression gating a variable, compiled when loaded.
#[derive(Debug)]
pub struct Condition {
    source: String,
}

impl View for Condition {
    type V = Seq<char>;

    closed spec fn view(&self) -> Seq<char> {
        self.source@
    }
}

impl Condition {
    #[verifier::type_invariant]
    spec fn compiles(&self) -> bool {
        expression_valid(self.source@)
    }

    /// Compiles `source`; fails where it is no valid expression.
    pub fn new(source: String) -> (r: Result<Condition, String>)
        ensures
            r is Ok <==> expression_valid(source@),
            r matches Ok(c) ==> c@ == source@,
    {
        match expression_compile(source.as_str()) {
            Ok(()) => Ok(Condition { source }),
            Err(e) => Err(e),
        }
    }

    /// The truth of the expression against the variables resolved so far;
    /// values that are not booleans count by truthiness.
    pub fn eval(&self, ctx: &RenderContext) -> (r: Result<bool, String>)
        ensures
            r is Ok <==> expression_truth(self@, ctx@) is Some,
            r matches Ok(b) ==> expression_truth(self@, ctx@) == Some(b),
    {
        expression_eval(self.source.as_str(), ctx)
    }

    /// The source text of the expression.
    pub fn as_str(&self) -> (r: &str)
        ensures
            r@ == self@,
    {
        self.source.as_str()
    }
}

/// The kind of a variable, with its default and its constraints.
#[derive(Debug)]
pub enum VariableValue {
    String { default: String, pattern: Option<Pattern>, choices: Option<Vec<String>> },
    Array { default: Vec<String>, choices: Vec<String> },
    Integer { default: i64, range: Option<(i64, i64)> },
    Boolean { default: bool },
}

/// A declared variable.
#[derive(Debug)]
pub struct Variable {
    pub value: VariableValue,
    pub prompt: String,
    pub condition: Option<Condition>,
}

/// Whether `text` is one of `choices`.
pub open spec fn among(choices: Seq<String>, text: Seq<char>) -> bool {
    exists|i: int| 0 <= i < choices.len() && choices[i]@ == text
}

/// The invariant a variable's kind breaks, if any, in the order the checks
/// are made.
pub open spec fn violation(value: VariableValue) -> Option<InvalidVariableError> {
    match value {
        VariableValue::String { default, pattern, choices } => match choices {
            Some(cs) => if pattern is Some {
                Some(InvalidVariableError::PatternWithChoices)
            } else if cs@.len() == 0 || (default@.len() > 0 && !among(cs@, default@)) {
                Some(InvalidVariableError::DefaultOutsideChoices)
            } else {
                None
            },
            None => match pattern {
                Some(p) => if default@.len() > 0 && !regex_match(p@, default@) {
                    Some(InvalidVariableError::DefaultMismatchPattern)
                } else {
                    None
                },
                None => None,
            },
        },
        VariableValue::Array { default, choices } => if choices@.len() == 0 || exists|i: int|
            0 <= i < default@.len() && !among(choices@, default@[i]@) {
            Some(InvalidVariableError::DefaultOutsideChoices)
        } else {
            None
        },
        VariableValue::Integer { default, range } => match range {
            Some((min, max)) => if min >= max || default < min || default > max {
                Some(InvalidVariableError::UnreasonableRange)
            } else {
                None
            },
            None => None,
        },
        VariableValue::Boolean { .. } => None,
    }
}

/// Whether `text` is one of `choices`.
fn contains_text(choices: &Vec<String>, text: &String) -> (r: bool)
    ensures
        r == among(choices@, text@),
{
    let mut i: usize = 0;
    while i < choices.len()
        invariant
            i <= choices.len(),
            forall|j: int| 0 <= j < i ==> choices@[j]@ != text@,
        decreases choices.len() - i,
    {
        if choices[i] == *text {
            return true;
        }
        i = i + 1;
    }
    false
}

impl Variable {
    /// Checks the invariants of the variable's kind, handing the variable
    /// back where they hold and naming the first one broken otherwise.
    pub fn validate(self) -> (r: Result<Variable, InvalidVariableError>)
        ensures
            match violation(self.value) {
                Some(e) => r == Err::<Variable, InvalidVariableError>(e),
                None => r == Ok::<Variable, InvalidVariableError>(self),
            },
    {
        match &self.value {
            VariableValue::String { default, pattern, choices } => {
                match choices {
                    Some(cs) => {
                        if pattern.is_some() {
                            return Err(InvalidVariableError::PatternWithChoices);
                        }
                        if cs.len() == 0 {
                            return Err(InvalidVariableError::DefaultOutsideChoices);
                        }
                        if default.unicode_len() > 0 && !contains_text(cs, default) {
                            return Err(InvalidVariableError::DefaultOutsideChoices);
                        }
                    },
                    None => {
                        if let Some(p) = pattern {
                            if default.unicode_len() > 0 && !p.is_match(default.as_str()) {
                                return Err(InvalidVariableError::DefaultMismatchPattern);
                            }
                        }
                    },
                }
            },
            VariableValue::Array { default, choices } => {
                if choices.len() == 0 {
                    return Err(InvalidVariableError::DefaultOutsideChoices);
                }
                let mut i: usize = 0;
                while i < default.len()
                    invariant
                        i <= default.len(),
                        choices@.len() > 0,
                        self.value matches VariableValue::Array { default: d0, choices: c0 } && d0
                            == *default && c0 == *choices,
                        forall|j: int| 0 <= j < i ==> among(choices@, default@[j]@),
                    decreases default.len() - i,
                {
                    if !contains_text(choices, &default[i]) {
                        assert(!among(choices@, default@[i as int]@));
                        return Err(InvalidVariableError::DefaultOutsideChoices);
                    }
                    i = i + 1;
                }
            },
            VariableValue::Integer { default, range } => {
                if let Some((min, max)) = range {
                    if *min >= *max || *default < *min || *default > *max {
                        return Err(InvalidVariableError::UnreasonableRange);
                    }
                }
            },
            VariableValue::Boolean { .. } => {},
        }
        Ok(self)
    }

    /// Whether the variable is in scope given the variables resolved so
    /// far: it has no condition, or its condition holds.
    pub fn in_scope(&self, ctx: &RenderContext) -> (r: Result<bool, String>)
        ensures
            match self.condition {
                None => r == Ok::<bool, String>(true),
                Some(c) => (r is Ok <==> expression_truth(c@, ctx@) is Some) && (r matches Ok(b)
                    ==> expression_truth(c@, ctx@) == Some(b)),
            },
    {
        match &self.condition {
            None => Ok(true),
            Some(c) => c.eval(ctx),
        }
    }
}

pub const DEFAULT_FIELD: &'static str = "default";
pub const PROMPT_FIELD: &'static str = "prompt";
pub const CONDITION_FIELD: &'static str = "condition";
pub const PATTERN_FIELD: &'static str = "pattern";
pub const CHOICES_FIELD: &'static str = "choices";
pub const RANGE_FIELD: &'static str = "range";

/// The four shapes a declaration can have, told apart by its default.
#[derive(Debug, Clone, Copy, PartialEq, Eq, Structural)]
pub enum Shape {
    Text,
    List,
    Integer,
    Boolean,
}

/// The shape that the type of the default selects.
pub open spec fn shape_of(fields: Seq<(String, RawField)>) -> Option<Shape> {
    match first_value(fields, DEFAULT_FIELD@) {
        Some(RawField::Str(_)) => Some(Shape::Text),
        Some(RawField::StrList(_)) => Some(Shape::List),
        Some(RawField::Int(_)) => Some(Shape::Integer),
        Some(RawField::Bool(_)) => Some(Shape::Boolean),
        _ => None,
    }
}

/// Whether a shape has a field named `key`.
pub open spec fn allowed_field(shape: Shape, key: Seq<char>) -> bool {
    key == DEFAULT_FIELD@ || key == PROMPT_FIELD@ || key == CONDITION_FIELD@ || match shape {
        Shape::Text => key == PATTERN_FIELD@ || key == CHOICES_FIELD@,
        Shape::List => key == CHOICES_FIELD@,
        Shape::Integer => key == RANGE_FIELD@,
        Shape::Boolean => false,
    }
}

/// The first field that the shape does not have.
pub open spec fn first_unallowed(fields: Seq<(String, RawField)>, shape: Shape) -> Option<Seq<char>>
    decreases fields.len(),
{
    if fields.len() == 0 {
        None
    } else if !allowed_field(shape, fields[0].0@) {
        Some(fields[0].0@)
    } else {
        first_unallowed(fields.drop_first(), shape)
    }
}

/// Whether an optional field is absent or a string.
pub open spec fn text_or_absent(fields: Seq<(String, RawField)>, key: Seq<char>) -> bool {
    first_value(fields, key) is None || first_value(fields, key) matches Some(RawField::Str(_))
}

/// Whether an optional field is absent or a list of strings.
pub open spec fn list_or_absent(fields: Seq<(String, RawField)>, key: Seq<char>) -> bool {
    first_value(fields, key) is None || first_value(fields, key) matches Some(RawField::StrList(_))
}

/// Whether a range field is absent or a pair of integers.
pub open spec fn range_or_absent(fields: Seq<(String, RawField)>) -> bool {
    first_value(fields, RANGE_FIELD@) is None || (first_value(fields, RANGE_FIELD@) matches Some(
        RawField::IntList(l),
    ) && l@.len() == 2)
}

/// Why the fields of a table match no shape, with the field at fault, in
/// the order the checks are made.
pub open spec fn schema_fault(fields: Seq<(String, RawField)>) -> Option<(SchemaError, Seq<char>)> {
    if shape_of(fields) is None {
        Some((SchemaError::NoShape, DEFAULT_FIELD@))
    } else if first_unallowed(fields, shape_of(fields)->0) is Some {
        Some((SchemaError::UnknownField, first_unallowed(fields, shape_of(fields)->0)->0))
    } else if first_value(fields, PROMPT_FIELD@) is None {
        Some((SchemaError::MissingPrompt, PROMPT_FIELD@))
    } else if !(first_value(fields, PROMPT_FIELD@) matches Some(RawField::Str(_))) {
        Some((SchemaError::WrongType, PROMPT_FIELD@))
    } else if !text_or_absent(fields, CONDITION_FIELD@) {
        Some((SchemaError::WrongType, CONDITION_FIELD@))
    } else {
        match shape_of(fields)->0 {
            Shape::Text => if !text_or_absent(fields, PATTERN_FIELD@) {
                Some((SchemaError::WrongType, PATTERN_FIELD@))
            } else if !list_or_absent(fields, CHOICES_FIELD@) {
                Some((SchemaError::WrongType, CHOICES_FIELD@))
            } else {
                None
            },
            Shape::List => if first_value(fields, CHOICES_FIELD@) is None {
                Some((SchemaError::NoShape, CHOICES_FIELD@))
            } else if !list_or_absent(fields, CHOICES_FIELD@) {
                Some((SchemaError::WrongType, CHOICES_FIELD@))
            } else {
                None
            },
            Shape::Integer => if !range_or_absent(fields) {
                Some((SchemaError::WrongType, RANGE_FIELD@))
            } else {
                None
            },
            Shape::Boolean => None,
        }
    }
}

/// The text of an optional string field.
pub open spec fn text_at(fields: Seq<(String, RawField)>, key: Seq<char>) -> Option<Seq<char>> {
    match first_value(fields, key) {
        Some(RawField::Str(s)) => Some(s@),
        _ => None,
    }
}

/// The texts of an optional list field.
pub open spec fn list_at(fields: Seq<(String, RawField)>, key: Seq<char>) -> Option<Seq<Seq<char>>> {
    match first_value(fields, key) {
        Some(RawField::StrList(l)) => Some(l@.map_values(|x: String| x@)),
        _ => None,
    }
}

/// The views of a list of strings.
pub open spec fn texts(v: Seq<String>) -> Seq<Seq<char>> {
    v.map_values(|x: String| x@)
}

/// Whether `value` is the kind that `fields` (which match a shape) declare.
pub open spec fn describes(value: VariableValue, fields: Seq<(String, RawField)>) -> bool {
    match value {
        VariableValue::String { default, pattern, choices } => {
            &&& text_at(fields, DEFAULT_FIELD@) == Some(default@)
            &&& text_at(fields, PATTERN_FIELD@) == match pattern {
                Some(p) => Some(p@),
                None => None::<Seq<char>>,
            }
            &&& list_at(fields, CHOICES_FIELD@) == match choices {
                Some(c) => Some(texts(c@)),
                None => None::<Seq<Seq<char>>>,
            }
        },
        VariableValue::Array { default, choices } => {
            &&& list_at(fields, DEFAULT_FIELD@) == Some(texts(default@))
            &&& list_at(fields, CHOICES_FIELD@) == Some(texts(choices@))
        },
        VariableValue::Integer { default, range } => {
            &&& first_value(fields, DEFAULT_FIELD@) == Some(RawField::Int(default))
            &&& match first_value(fields, RANGE_FIELD@) {
                Some(RawField::IntList(l)) => range == Some((l@[0], l@[1])),
                _ => range is None,
            }
        },
        VariableValue::Boolean { default } => first_value(fields, DEFAULT_FIELD@) == Some(
            RawField::Bool(default),
        ),
    }
}

/// The error of a declaration that matches no shape.
fn schema_error(name: &String, field: &str, cause: SchemaError) -> (r: Error)
    ensures
        r matches Error::Schema { name: n, field: f, cause: c } && n@ == name@ && f@ == field@ && c
            == cause,
{
    Error::Schema { name: name.clone(), field: field.to_string(), cause }
}

/// The first field that `shape` does not have.
fn find_unallowed(fields: &Vec<(String, RawField)>, shape: Shape) -> (r: Option<usize>)
    ensures
        match first_unallowed(fields@, shape) {
            Some(k) => r matches Some(i) && i < fields@.len() && fields@[i as int].0@ == k,
            None => r is None,
        },
{
    let mut i: usize = 0;
    assert(fields@.subrange(0, fields@.len() as int) =~= fields@);
    while i < fields.len()
        invariant
            i <= fields.len(),
            first_unallowed(fields@, shape) == first_unallowed(
                fields@.subrange(i as int, fields@.len() as int),
                shape,
            ),
        decreases fields.len() - i,
    {
        let ghost rest = fields@.subrange(i as int, fields@.len() as int);
        assert(rest.drop_first() =~= fields@.subrange(i + 1, fields@.len() as int));
        let k = fields[i].0.as_str();
        let ok = same_text(k, DEFAULT_FIELD) || same_text(k, PROMPT_FIELD) || same_text(
            k,
            CONDITION_FIELD,
        ) || match shape {
            Shape::Text => same_text(k, PATTERN_FIELD) || same_text(k, CHOICES_FIELD),
            Shape::List => same_text(k, CHOICES_FIELD),
            Shape::Integer => same_text(k, RANGE_FIELD),
            Shape::Boolean => false,
        };
        if !ok {
            return Some(i);
        }
        i = i + 1;
    }
    assert(fields@.subrange(i as int, fields@.len() as int).len() == 0);
    None
}

/// The field names differ from each other.
proof fn lemma_field_names_distinct()
    ensures
        PATTERN_FIELD@ != DEFAULT_FIELD@,
        PATTERN_FIELD@ != PROMPT_FIELD@,
        PATTERN_FIELD@ != CONDITION_FIELD@,
        PATTERN_FIELD@ != CHOICES_FIELD@,
        PATTERN_FIELD@ != RANGE_FIELD@,
{
    reveal_strlit("default");
    reveal_strlit("prompt");
    reveal_strlit("condition");
    reveal_strlit("pattern");
    reveal_strlit("choices");
    reveal_strlit("range");
    assert(PATTERN_FIELD@[0] != DEFAULT_FIELD@[0]);
    assert(PATTERN_FIELD@[1] != PROMPT_FIELD@[1]);
    assert(PATTERN_FIELD@[0] != CONDITION_FIELD@[0]);
    assert(PATTERN_FIELD@[0] != CHOICES_FIELD@[0]);
    assert(PATTERN_FIELD@[0] != RANGE_FIELD@[0]);
}

/// A field that a shape does not have is absent from fields that have no
/// such field.
proof fn lemma_unallowed_absent(fields: Seq<(String, RawField)>, shape: Shape, key: Seq<char>)
    requires
        first_unallowed(fields, shape) is None,
        !allowed_field(shape, key),
    ensures
        first_value(fields, key) is None,
    decreases fields.len(),
{
    if fields.len() > 0 {
        lemma_unallowed_absent(fields.drop_first(), shape, key);
    }
}

proof fn lemma_among_texts(a: Seq<String>, b: Seq<String>, t: Seq<char>)
    requires
        texts(a) == texts(b),
    ensures
        among(a, t) == among(b, t),
{
    assert(texts(a).len() == a.len() && texts(b).len() == b.len());
    if among(a, t) {
        let i = choose|i: int| 0 <= i < a.len() && a[i]@ == t;
        assert(texts(a)[i] == a[i]@ && texts(b)[i] == b[i]@);
    }
    if among(b, t) {
        let i = choose|i: int| 0 <= i < b.len() && b[i]@ == t;
        assert(texts(a)[i] == a[i]@ && texts(b)[i] == b[i]@);
    }
}

/// Two kinds that the same fields describe break the same invariant.
proof fn lemma_same_violation(v1: VariableValue, v2: VariableValue, fields: Seq<(String, RawField)>)
    requires
        describes(v1, fields),
        describes(v2, fields),
    ensures
        violation(v1) == violation(v2),
{
    match (v1, v2) {
        (
            VariableValue::String { default: d1, pattern: _, choices: c1 },
            VariableValue::String { default: d2, pattern: _, choices: c2 },
        ) => {
            if c1 is Some {
                lemma_among_texts(c1->0@, c2->0@, d1@);
                assert(texts(c1->0@).len() == c1->0@.len() && texts(c2->0@).len() == c2->0@.len());
            }
        },
        (
            VariableValue::Array { default: d1, choices: c1 },
            VariableValue::Array { default: d2, choices: c2 },
        ) => {
            assert(texts(c1@).len() == c1@.len() && texts(c2@).len() == c2@.len());
            assert(texts(d1@).len() == d1@.len() && texts(d2@).len() == d2@.len());
            assert forall|i: int| 0 <= i < d1@.len() implies among(c1@, d1@[i]@) == among(
                c2@,
                d2@[i]@,
            ) by {
                assert(texts(d1@)[i] == d1@[i]@ && texts(d2@)[i] == d2@[i]@);
                lemma_among_texts(c1@, c2@, d1@[i]@);
            }
        },
        _ => {},
    }
}

/// Whether `v` is what the declaration `item` reads as.
pub open spec fn reads_as(v: Variable, item: RawItem) -> bool {
    &&& item matches RawItem::Table(fields)
    &&& describes(v.value, fields@)
    &&& violation(v.value) is None
    &&& text_at(fields@, PROMPT_FIELD@) == Some(v.prompt@)
    &&& text_at(fields@, CONDITION_FIELD@) == match v.condition {
        Some(c) => Some(c@),
        None => None::<Seq<char>>,
    }
}

/// Whether a declaration matches a shape, compiles and validates.
pub open spec fn declaration_valid(item: RawItem) -> bool {
    &&& item matches RawItem::Table(fields)
    &&& schema_fault(fields@) is None
    &&& text_at(fields@, PATTERN_FIELD@) matches Some(p) ==> regex_valid(p)
    &&& text_at(fields@, CONDITION_FIELD@) matches Some(c) ==> expression_valid(c)
    &&& exists|v: VariableValue| describes(v, fields@) && violation(v) is None
}

/// Whether `e` is the error that reading the declaration `item` of the
/// variable `name` reports: the first schema fault with its field, else a
/// pattern that does not compile, else a condition that does not compile,
/// else the invariant the variable breaks. Each names the variable.
pub open spec fn declaration_error(name: Seq<char>, item: RawItem, e: Error) -> bool {
    match item {
        RawItem::Field(_) => e matches Error::Schema { name: n, cause: SchemaError::NotATable, .. }
            && n@ == name,
        RawItem::Table(fields) => match schema_fault(fields@) {
            Some((cause, field)) => e matches Error::Schema { name: n, field: f, cause: c } && n@
                == name && f@ == field && c == cause,
            None => if text_at(fields@, PATTERN_FIELD@) matches Some(p) && !regex_valid(p) {
                e matches Error::InvalidPattern { name: n, .. } && n@ == name
            } else if text_at(fields@, CONDITION_FIELD@) matches Some(c) && !expression_valid(c) {
                e matches Error::Condition { name: n, .. } && n@ == name
            } else {
                e matches Error::ValidateVariable { name: n, source } && n@ == name && exists|
                    v: VariableValue,
                | describes(v, fields@) && violation(v) == Some(source)
            },
        },
    }
}

impl Variable {
    /// Reads the declaration of the variable `name`: the type of its default
    /// selects its shape, every other field must belong to that shape, its
    /// pattern and condition must compile, and the result must validate.
    pub fn from_declaration(name: &String, item: &RawItem) -> (r: Result<Variable, Error>)
        ensures
            r is Ok <==> declaration_valid(*item),
            r matches Ok(v) ==> reads_as(v, *item),
            r matches Err(e) ==> declaration_error(name@, *item, e),
    {
        let fields = match item {
            RawItem::Table(f) => f,
            RawItem::Field(_) => {
                return Err(schema_error(name, "", SchemaError::NotATable));
            },
        };
        let d = match find_key(fields, DEFAULT_FIELD) {
            Some(i) => i,
            None => {
                return Err(schema_error(name, DEFAULT_FIELD, SchemaError::NoShape));
            },
        };
        let shape = match &fields[d].1 {
            RawField::Str(_) => Shape::Text,
            RawField::StrList(_) => Shape::List,
            RawField::Int(_) => Shape::Integer,
            RawField::Bool(_) => Shape::Boolean,
            _ => {
                return Err(schema_error(name, DEFAULT_FIELD, SchemaError::NoShape));
            },
        };
        if let Some(u) = find_unallowed(fields, shape) {
            return Err(schema_error(name, fields[u].0.as_str(), SchemaError::UnknownField));
        }
        let prompt = match find_key(fields, PROMPT_FIELD) {
            None => {
                return Err(schema_error(name, PROMPT_FIELD, SchemaError::MissingPrompt));
            },
            Some(i) => match &fields[i].1 {
                RawField::Str(s) => s.clone(),
                _ => {
                    return Err(schema_error(name, PROMPT_FIELD, SchemaError::WrongType));
                },
            },
        };
        let condition_source = match find_key(fields, CONDITION_FIELD) {
            None => None,
            Some(i) => match &fields[i].1 {
                RawField::Str(s) => Some(s.clone()),
                _ => {
                    return Err(schema_error(name, CONDITION_FIELD, SchemaError::WrongType));
                },
            },
        };
        let value = match shape {
            Shape::Text => {
                let default = match &fields[d].1 {
                    RawField::Str(s) => s.clone(),
                    _ => String::new(),
                };
                let pattern_source = match find_key(fields, PATTERN_FIELD) {
                    None => None,
                    Some(i) => match &fields[i].1 {
                        RawField::Str(s) => Some(s.clone()),
                        _ => {
                            return Err(schema_error(name, PATTERN_FIELD, SchemaError::WrongType));
                        },
                    },
                };
                let choices = match find_key(fields, CHOICES_FIELD) {
                    None => None,
                    Some(i) => match &fields[i].1 {
                        RawField::StrList(l) => Some(l.clone()),
                        _ => {
                            return Err(schema_error(name, CHOICES_FIELD, SchemaError::WrongType));
                        },
                    },
                };
                let pattern = match pattern_source {
                    None => None,
                    Some(p) => match Pattern::new(p) {
                        Ok(p) => Some(p),
                        Err(message) => {
                            return Err(Error::InvalidPattern { name: name.clone(), message });
                        },
                    },
                };
                VariableValue::String { default, pattern, choices }
            },
            Shape::List => {
                let default = match &fields[d].1 {
                    RawField::StrList(l) => l.clone(),
                    _ => Vec::new(),
                };
                let choices = match find_key(fields, CHOICES_FIELD) {
                    None => {
                        return Err(schema_error(name, CHOICES_FIELD, SchemaError::NoShape));
                    },
                    Some(i) => match &fields[i].1 {
                        RawField::StrList(l) => l.clone(),
                        _ => {
                            return Err(schema_error(name, CHOICES_FIELD, SchemaError::WrongType));
                        },
                    },
                };
                VariableValue::Array { default, choices }
            },
            Shape::Integer => {
                let default = match &fields[d].1 {
                    RawField::Int(n) => *n,
                    _ => 0,
                };
                let range = match find_key(fields, RANGE_FIELD) {
                    None => None,
                    Some(i) => match &fields[i].1 {
                        RawField::IntList(l) => {
                            if l.len() != 2 {
                                return Err(schema_error(name, RANGE_FIELD, SchemaError::WrongType));
                            }
                            Some((l[0], l[1]))
                        },
                        _ => {
                            return Err(schema_error(name, RANGE_FIELD, SchemaError::WrongType));
                        },
                    },
                };
                VariableValue::Integer { default, range }
            },
            Shape::Boolean => {
                let default = match &fields[d].1 {
                    RawField::Bool(b) => *b,
                    _ => false,
                };
                VariableValue::Boolean { default }
            },
        };
        proof {
            lemma_field_names_distinct();
            if shape != Shape::Text {
                lemma_unallowed_absent(fields@, shape, PATTERN_FIELD@);
            }
        }
        let condition = match condition_source {
            None => None,
            Some(c) => match Condition::new(c) {
                Ok(c) => Some(c),
                Err(message) => {
                    return Err(Error::Condition { name: name.clone(), message });
                },
            },
        };
        let ghost value_view = value;
        assert(describes(value_view, fields@));
        let variable = Variable { value, prompt, condition };
        proof {
            assert forall|v: VariableValue| describes(v, fields@) implies violation(v) == violation(
                value_view,
            ) by {
                lemma_same_violation(v, value_view, fields@);
            }
        }
        match variable.validate() {
            Ok(v) => Ok(v),
            Err(source) => Err(Error::ValidateVariable { name: name.clone(), source }),
        }
    }
}

/// Whether a resolved value satisfies a variable's kind and constraints.
pub open spec fn satisfies(value: VariableValue, v: ContextValue) -> bool {
    match value {
        VariableValue::String { pattern, choices, .. } => v is Str && match choices {
            Some(cs) => among(cs@, v->Str_0@),
            None => match pattern {
                Some(p) => regex_match(p@, v->Str_0@),
                None => true,
            },
        },
        VariableValue::Array { choices, .. } => v is List && forall|i: int|
            0 <= i < v->List_0@.len() ==> among(choices@, #[trigger] v->List_0@[i]@),
        VariableValue::Integer { range, .. } => v is Int && match range {
            Some((min, max)) => min <= v->Int_0 <= max,
            None => true,
        },
        VariableValue::Boolean { .. } => v is Bool,
    }
}

impl Variable {
    /// Whether a value given for the variable has its kind and meets its
    /// constraints: one of the choices, a match of the pattern, a subset of
    /// the choices, or within the range.
    pub fn accepts(&self, value: &ContextValue) -> (r: bool)
        ensures
            r == satisfies(self.value, *value),
    {
        match (&self.value, value) {
            (VariableValue::String { pattern, choices, .. }, ContextValue::Str(s)) => match choices {
                Some(cs) => contains_text(cs, s),
                None => match pattern {
                    Some(p) => p.is_match(s.as_str()),
                    None => true,
                },
            },
            (VariableValue::Array { choices, .. }, ContextValue::List(l)) => {
                let mut i: usize = 0;
                while i < l.len()
                    invariant
                        i <= l.len(),
                        self.value matches VariableValue::Array { choices: c0, .. } && c0 == *choices,
                        *value == ContextValue::List(*l),
                        forall|j: int| 0 <= j < i ==> among(choices@, #[trigger] l@[j]@),
                    decreases l.len() - i,
                {
                    if !contains_text(choices, &l[i]) {
                        assert(!among(choices@, l@[i as int]@));
                        assert(value->List_0 == *l);
                        assert(self.value->Array_choices == *choices);
                        assert(!satisfies(self.value, *value));
                        return false;
                    }
                    i = i + 1;
                }
                true
            },
            (VariableValue::Integer { range, .. }, ContextValue::Int(n)) => match range {
                Some((min, max)) => *min <= *n && *n <= *max,
                None => true,
            },
            (VariableValue::Boolean { .. }, ContextValue::Bool(_)) => true,
            _ => false,
        }
    }

    /// The value offered when the user gives none: the default, where a
    /// string default is not empty.
    pub fn default_value(&self) -> (r: Option<ContextValue>)
        ensures
            match self.value {
                VariableValue::String { default, .. } => if default@.len() == 0 {
                    r is None
                } else {
                    r matches Some(ContextValue::Str(s)) && s@ == default@
                },
                VariableValue::Array { default, .. } => r matches Some(ContextValue::List(l)) && l@ == default@,
                VariableValue::Integer { default, .. } => r == Some(ContextValue::Int(default)),
                VariableValue::Boolean { default } => r == Some(ContextValue::Bool(default)),
            },
    {
        match &self.value {
            VariableValue::String { default, .. } => if default.unicode_len() == 0 {
                None
            } else {
                Some(ContextValue::Str(default.clone()))
            },
            VariableValue::Array { default, .. } => {
                let l = default.clone();
                assert(l@ =~= default@);
                Some(ContextValue::List(l))
            },
            VariableValue::Integer { default, .. } => Some(ContextValue::Int(*default)),
            VariableValue::Boolean { default } => Some(ContextValue::Bool(*default)),
        }
    }
}

/// The position of `item` among `items`, the first where it recurs.
pub fn choice_position(items: &Vec<String>, item: &String) -> (r: Option<usize>)
    ensures
        match r {
            Some(i) => i < items@.len() && items@[i as int]@ == item@ && forall|j: int|
                0 <= j < i ==> items@[j]@ != item@,
            None => !among(items@, item@),
        },
{
    let mut i: usize = 0;
    while i < items.len()
        invariant
            i <= items.len(),
            forall|j: int| 0 <= j < i ==> items@[j]@ != item@,
        decreases items.len() - i,
    {
        if items[i] == *item {
            return Some(i);
        }
        i = i + 1;
    }
    None
}

/// For each choice, whether it is among the defaults: the choices checked
/// at first in a multiple selection.
pub fn default_mask(choices: &Vec<String>, defaults: &Vec<String>) -> (r: Vec<bool>)
    ensures
        r@.len() == choices@.len(),
        forall|i: int| 0 <= i < choices@.len() ==> r@[i] == among(defaults@, #[trigger] choices@[i]@),
{
    let mut mask: Vec<bool> = Vec::new();
    let mut i: usize = 0;
    while i < choices.len()
        invariant
            i <= choices.len(),
            mask@.len() == i,
            forall|j: int| 0 <= j < i ==> mask@[j] == among(defaults@, #[trigger] choices@[j]@),
        decreases choices.len() - i,
    {
        mask.push(contains_text(defaults, &choices[i]));
        i = i + 1;
    }
    mask
}

} // verus!
