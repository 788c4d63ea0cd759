//! Everything this library takes from other crates, each item with what it
//! relies on. No logic of the library stands here.
use vstd::prelude::*;
use vstd::utf8::{decode_utf8, valid_utf8};
use crate::context::{bind, engine_value, ContextValue, RenderContext};
use crate::variable::Variable;

verus! {

/// A context handed to the template engine, carried through unread.
#[verifier::external_type_specification]
#[verifier::external_body]
pub struct ExEngineValue(minijinja::Value);

/// An insertion-ordered map, here of the declared variables.
#[verifier::external_type_specification]
#[verifier::external_body]
#[verifier::reject_recursive_types(K)]
#[verifier::reject_recursive_types(V)]
#[verifier::reject_recursive_types(S)]
pub struct ExIndexMap<K, V, S>(indexmap::IndexMap<K, V, S>);

/// What a map of variables holds: its names with their variables, in the
/// map's order.
pub uninterp spec fn variable_entries(m: indexmap::IndexMap<String, Variable>) -> Seq<(Seq<char>, Variable)>;

/// Relies on indexmap::IndexMap::new: an empty map.
#[verifier::external_body]
pub(crate) fn variables_new() -> (r: indexmap::IndexMap<String, Variable>)
    ensures
        variable_entries(r) == Seq::<(Seq<char>, Variable)>::empty(),
{
    indexmap::IndexMap::new()
}

/// Relies on indexmap::IndexMap::insert: where an equal key is present its
/// value is replaced in place, else the pair is appended last.
#[verifier::external_body]
pub(crate) fn variables_insert(m: &mut indexmap::IndexMap<String, Variable>, key: String, value: Variable)
    ensures
        variable_entries(*final(m)) == bind(variable_entries(*old(m)), key@, value),
{
    m.insert(key, value);
}

/// Relies on indexmap::IndexMap::get_index_of: the position of the equal
/// key, if present.
#[verifier::external_body]
pub(crate) fn variables_position(m: &indexmap::IndexMap<String, Variable>, key: &String) -> (r: Option<usize>)
    ensures
        match r {
            Some(i) => i < variable_entries(*m).len() && variable_entries(*m)[i as int].0 == key@,
            None => forall|i: int| 0 <= i < variable_entries(*m).len() ==> variable_entries(*m)[i].0 != key@,
        },
{
    m.get_index_of(key)
}

/// Relies on indexmap::IndexMap::len: the number of entries.
#[verifier::external_body]
pub(crate) fn variables_len(m: &indexmap::IndexMap<String, Variable>) -> (r: usize)
    ensures
        r == variable_entries(*m).len(),
{
    m.len()
}

/// Relies on indexmap::IndexMap::get_index: the entry at a position, if
/// there is one.
#[verifier::external_body]
pub(crate) fn variables_at(m: &indexmap::IndexMap<String, Variable>, i: usize) -> (r: Option<(&String, &Variable)>)
    ensures
        r is Some <==> i < variable_entries(*m).len(),
        r matches Some(e) ==> e.0@ == variable_entries(*m)[i as int].0 && *e.1 == variable_entries(
            *m,
        )[i as int].1,
{
    m.get_index(i)
}

/// Whether `regex::Regex::new` accepts a pattern.
pub uninterp spec fn regex_valid(pattern: Seq<char>) -> bool;

/// What `regex::Regex::is_match` answers for a pattern and a text.
pub uninterp spec fn regex_match(pattern: Seq<char>, text: Seq<char>) -> bool;

/// Whether `glob::Pattern::new` accepts a pattern.
pub uninterp spec fn glob_valid(pattern: Seq<char>) -> bool;

/// What `glob::Pattern::matches` answers for a pattern and a path.
pub uninterp spec fn glob_match(pattern: Seq<char>, path: Seq<char>) -> bool;

/// Whether minijinja compiles an expression (in an environment without
/// filters or tests).
pub uninterp spec fn expression_valid(source: Seq<char>) -> bool;

/// The truth of an expression evaluated by minijinja against a context, or
/// `None` where evaluation fails.
pub uninterp spec fn expression_truth(source: Seq<char>, ctx: Seq<(Seq<char>, ContextValue)>) -> Option<bool>;

/// Whether minijinja compiles a template source.
pub uninterp spec fn template_valid(source: Seq<char>) -> bool;

/// The text minijinja renders from a template source against a context,
/// undefined names being errors; `None` where rendering fails.
pub uninterp spec fn rendered(source: Seq<char>, ctx: Seq<(Seq<char>, ContextValue)>) -> Option<Seq<char>>;

/// Relies on regex::Regex::new: it fails exactly on the patterns it refuses;
/// the error is handed on as its message.
#[verifier::external_body]
pub(crate) fn regex_compile(pattern: &str) -> (r: Result<(), String>)
    ensures
        r is Ok <==> regex_valid(pattern@),
{
    regex::Regex::new(pattern).map(|_| ()).map_err(|e| e.to_string())
}

/// Relies on regex::Regex::new and regex::Regex::is_match: whether the
/// compiled pattern matches somewhere in the text; it depends on the pattern
/// and the text alone.
#[verifier::external_body]
pub(crate) fn regex_is_match(pattern: &str, text: &str) -> (r: bool)
    requires
        regex_valid(pattern@),
    ensures
        r == regex_match(pattern@, text@),
{
    match regex::Regex::new(pattern) {
        Ok(re) => re.is_match(text),
        Err(_) => false,
    }
}

/// Relies on glob::Pattern::new: it fails exactly on the patterns it refuses;
/// the error is handed on as its message.
#[verifier::external_body]
pub(crate) fn glob_compile(pattern: &str) -> (r: Result<(), String>)
    ensures
        r is Ok <==> glob_valid(pattern@),
{
    glob::Pattern::new(pattern).map(|_| ()).map_err(|e| e.to_string())
}

/// Relies on glob::Pattern::new and glob::Pattern::matches with the default
/// options; it depends on the pattern and the path alone.
#[verifier::external_body]
pub(crate) fn glob_is_match(pattern: &str, path: &str) -> (r: bool)
    requires
        glob_valid(pattern@),
    ensures
        r == glob_match(pattern@, path@),
{
    match glob::Pattern::new(pattern) {
        Ok(p) => p.matches(path),
        Err(_) => false,
    }
}

/// Relies on memchr::memchr: the position of the first zero byte, if any.
#[verifier::external_body]
pub(crate) fn find_nul(buf: &[u8]) -> (r: Option<usize>)
    ensures
        match r {
            Some(i) => i < buf@.len() && buf@[i as int] == 0 && forall|j: int|
                0 <= j < i ==> buf@[j] != 0,
            None => forall|j: int| 0 <= j < buf@.len() ==> buf@[j] != 0,
        },
{
    memchr::memchr(0u8, buf)
}

/// Relies on std's String::from_utf8: it succeeds exactly on valid UTF-8
/// and then holds the decoded characters.
#[verifier::external_body]
pub(crate) fn decode_text(buf: Vec<u8>) -> (r: Option<String>)
    ensures
        r is Some <==> valid_utf8(buf@),
        r matches Some(s) ==> s@ == decode_utf8(buf@),
{
    String::from_utf8(buf).ok()
}

/// Relies on minijinja's Value::from for strings.
#[verifier::external_body]
pub(crate) fn engine_string(s: &String) -> (r: minijinja::Value) {
    minijinja::Value::from(s.clone())
}

/// Relies on minijinja's Value::from for 64-bit integers.
#[verifier::external_body]
pub(crate) fn engine_int(i: i64) -> (r: minijinja::Value) {
    minijinja::Value::from(i)
}

/// Relies on minijinja's Value::from for booleans.
#[verifier::external_body]
pub(crate) fn engine_bool(b: bool) -> (r: minijinja::Value) {
    minijinja::Value::from(b)
}

/// Relies on minijinja's Value::from_iter over values: a sequence.
#[verifier::external_body]
pub(crate) fn engine_list(items: Vec<minijinja::Value>) -> (r: minijinja::Value) {
    minijinja::Value::from_iter(items)
}

/// Relies on minijinja's Value::from_iter over pairs: a map.
#[verifier::external_body]
pub(crate) fn engine_map(pairs: Vec<(String, minijinja::Value)>) -> (r: minijinja::Value) {
    minijinja::Value::from_iter(pairs)
}

/// Relies on minijinja's Environment::compile_expression, in an environment
/// without filters or tests: it fails exactly on what it refuses.
#[verifier::external_body]
pub(crate) fn expression_compile(source: &str) -> (r: Result<(), String>)
    ensures
        r is Ok <==> expression_valid(source@),
{
    minijinja::Environment::empty().compile_expression(source).map(|_| ()).map_err(|e| e.to_string())
}

/// Relies on minijinja's Environment::compile_expression (in an environment
/// without filters or tests), Expression::eval and Value::is_true: the truth
/// of the expression against the context, handed over as a map from the
/// names to their values; it depends on the two alone.
#[verifier::external_body]
pub(crate) fn expression_eval(source: &str, ctx: &RenderContext) -> (r: Result<bool, String>)
    ensures
        r is Ok <==> expression_truth(source@, ctx@) is Some,
        r matches Ok(b) ==> expression_truth(source@, ctx@) == Some(b),
{
    let env = minijinja::Environment::empty();
    let expr = env.compile_expression(source).map_err(|e| e.to_string())?;
    let values = minijinja::Value::from_iter(ctx.entries().iter().map(|(k, v)| (k.clone(), engine_value(v))));
    expr.eval(values).map(|v| v.is_true()).map_err(|e| e.to_string())
}

/// Relies on minijinja's Environment::template_from_str: it fails exactly on
/// the sources it refuses.
#[verifier::external_body]
pub(crate) fn template_compile(source: &str) -> (r: Result<(), String>)
    ensures
        r is Ok <==> template_valid(source@),
{
    minijinja::Environment::new().template_from_str(source).map(|_| ()).map_err(|e| e.to_string())
}

/// Relies on minijinja's Environment::render_str, with undefined names
/// refused: the text rendered against the context, handed over as a map from
/// the names to their values; it depends on the two alone.
#[verifier::external_body]
pub(crate) fn template_render(source: &str, ctx: &RenderContext) -> (r: Result<String, String>)
    ensures
        r is Ok <==> rendered(source@, ctx@) is Some,
        r matches Ok(s) ==> rendered(source@, ctx@) == Some(s@),
{
    let mut env = minijinja::Environment::new();
    env.set_undefined_behavior(minijinja::UndefinedBehavior::Strict);
    let values = minijinja::Value::from_iter(ctx.entries().iter().map(|(k, v)| (k.clone(), engine_value(v))));
    env.render_str(source, values).map_err(|e| e.to_string())
}

} // verus!
