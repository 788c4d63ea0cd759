use tapgen::context::{ContextValue, Field, RenderContext};
use tapgen::definition::{RawField, RawItem};
use tapgen::error::Error;
use tapgen::git::Repository;
use tapgen::metadata::{GlobPatterns, Metadata, Url};
use tapgen::output::{merge_action, needs_resolver, FileAction, MergeCounts, StagedKind};
use tapgen::path::{path_to_string, same_text};
use tapgen::template::{base_components, Discovered, EntryKind, Template};

fn strings(items: &[&str]) -> Vec<String> {
    items.iter().map(|s| s.to_string()).collect()
}

fn item(key: &str, value: RawItem) -> (String, RawItem) {
    (key.to_string(), value)
}

fn text(s: &str) -> RawItem {
    RawItem::Field(RawField::Str(s.to_string()))
}

fn list(items: &[&str]) -> RawItem {
    RawItem::Field(RawField::StrList(strings(items)))
}

fn declaration(fields: Vec<(&str, RawField)>) -> RawItem {
    RawItem::Table(fields.into_iter().map(|(k, v)| (k.to_string(), v)).collect())
}

fn header() -> Vec<(String, RawItem)> {
    vec![item("__name__", text("demo")), item("__author__", text("someone"))]
}

fn dir(path: &[&str]) -> Discovered {
    Discovered { components: strings(path), is_dir: true, contents: vec![] }
}

fn file(path: &[&str], contents: &[u8]) -> Discovered {
    Discovered { components: strings(path), is_dir: false, contents: contents.to_vec() }
}

fn project_template() -> Template {
    let mut items = header();
    items.push(item("__base__", text(".")));
    items.push(item(
        "project_name",
        declaration(vec![
            ("default", RawField::Str(String::from("demo"))),
            ("prompt", RawField::Str(String::from("Project name"))),
        ]),
    ));
    let t = Template::load(&items).unwrap();
    t.init(&vec![dir(&[]), file(&["{{ project_name }}.txt"], b"Hello {{ project_name }}!")]).unwrap()
}

fn acme() -> RenderContext {
    let mut ctx = RenderContext::new();
    ctx.insert(String::from("project_name"), ContextValue::Str(String::from("Acme")));
    ctx
}

#[test]
fn single_variable_template_stages_rendered_file() {
    let t = project_template();
    let out = t.generate(&acme()).unwrap();
    let files: Vec<_> = out.entries().iter().filter(|e| !matches!(e.kind, StagedKind::Directory)).collect();
    assert_eq!(files.len(), 1);
    assert_eq!(files[0].path, "Acme.txt");
    assert_eq!(files[0].kind, StagedKind::Text(String::from("Hello Acme!")));
    assert_eq!(out.basename(), "");
}

#[test]
fn base_subdirectory_is_the_basename() {
    let mut items = header();
    items.push(item("__base__", text("{{ name }}")));
    let t = Template::load(&items).unwrap();
    assert_eq!(t.base, strings(&["{{ name }}"]));
    let t = t.init(&vec![dir(&["{{ name }}"]), file(&["{{ name }}", "a.txt"], b"{{ name }}")]).unwrap();
    let mut ctx = RenderContext::new();
    ctx.insert(String::from("name"), ContextValue::Str(String::from("proj")));
    let out = t.generate(&ctx).unwrap();
    assert_eq!(out.basename(), "proj");
    assert_eq!(out.entries()[1].path, "proj/a.txt");
    assert_eq!(out.entries()[1].kind, StagedKind::Text(String::from("proj")));
}

#[test]
fn generate_is_idempotent() {
    let t = project_template();
    let a = t.generate(&acme()).unwrap();
    let b = t.generate(&acme()).unwrap();
    assert_eq!(a.basename(), b.basename());
    assert_eq!(a.entries(), b.entries());
}

#[test]
fn undefined_variable_fails_rendering() {
    let t = project_template();
    let r = t.generate(&RenderContext::new());
    assert!(matches!(r, Err(Error::Render { .. })));
}

#[test]
fn missing_base_entry_fails() {
    let mut items = header();
    items.push(item("__base__", text("sub")));
    let t = Template::load(&items).unwrap().init(&vec![file(&["x.txt"], b"x")]).unwrap();
    assert!(matches!(t.generate(&RenderContext::new()), Err(Error::MissingBasename)));
}

#[test]
fn exclude_beats_copy_beats_render() {
    let mut items = header();
    items.push(item("__copy__", list(&["*.raw", "both.*"])));
    items.push(item("__exclude__", list(&["both.*", "skip"])));
    let t = Template::load(&items).unwrap();
    let found = vec![
        dir(&[]),
        file(&["both.txt"], b"x"),
        file(&["data.raw"], b"{{ not rendered }}"),
        file(&["image.bin"], &[1, 0, 2]),
        dir(&["skip"]),
        file(&["skip", "inner.txt"], b"kept {{ 1 + 1 }}"),
        file(&["plain.txt"], b"{{ 1 + 1 }}"),
    ];
    let t = t.init(&found).unwrap();
    let paths: Vec<String> = t.entries.iter().map(|e| e.components.join("/")).collect();
    assert_eq!(paths, strings(&["", "data.raw", "image.bin", "plain.txt", "skip/inner.txt"]));
    assert_eq!(t.entries[1].kind, EntryKind::Copy(b"{{ not rendered }}".to_vec()));
    assert_eq!(t.entries[2].kind, EntryKind::Copy(vec![1, 0, 2]));
    assert_eq!(t.entries[3].kind, EntryKind::Render(String::from("{{ 1 + 1 }}")));
    let out = t.generate(&RenderContext::new()).unwrap();
    assert_eq!(out.entries()[1].kind, StagedKind::Bytes(b"{{ not rendered }}".to_vec()));
    assert_eq!(out.entries()[3].kind, StagedKind::Text(String::from("2")));
    assert_eq!(out.entries()[4].kind, StagedKind::Text(String::from("kept 2")));
}

#[test]
fn entries_are_ordered_by_depth() {
    let t = Template::load(&header()).unwrap();
    let found = vec![
        dir(&[]),
        dir(&["a"]),
        dir(&["a", "b"]),
        file(&["a", "b", "c.txt"], b""),
        file(&["a", "x.txt"], b""),
        file(&["z.txt"], b""),
    ];
    let t = t.init(&found).unwrap();
    let paths: Vec<String> = t.entries.iter().map(|e| e.components.join("/")).collect();
    assert_eq!(paths, strings(&["", "a", "z.txt", "a/b", "a/x.txt", "a/b/c.txt"]));
}

#[test]
fn invalid_text_files_fail_the_build() {
    let t = Template::load(&header()).unwrap();
    let r = t.init(&vec![file(&["bad.txt"], &[0xff, 0xfe])]);
    assert!(matches!(r, Err(Error::Encoding { ref path }) if path == "bad.txt"));
    let t = Template::load(&header()).unwrap();
    let r = t.init(&vec![file(&["bad.txt"], b"{% if %}")]);
    assert!(matches!(r, Err(Error::TemplateSyntax { ref path, .. }) if path == "bad.txt"));
}

#[test]
fn metadata_is_read_from_reserved_keys() {
    let mut items = header();
    items.push(item("__url__", text("https://example.com/t")));
    items.push(item("__description__", text("A template")));
    let m = Metadata::from_definition(&items).unwrap();
    assert_eq!(m.name, "demo");
    assert_eq!(m.author, "someone");
    assert_eq!(m.url.unwrap().as_str(), "https://example.com/t");
    assert_eq!(m.description.as_deref(), Some("A template"));
    assert_eq!(m.base, "");
}

#[test]
fn metadata_errors() {
    let mut items = header();
    items.push(item("__colour__", text("red")));
    assert!(matches!(Metadata::from_definition(&items), Err(Error::UnknownMetadata { ref key }) if key == "__colour__"));
    let items = vec![item("__author__", text("someone"))];
    assert!(matches!(Metadata::from_definition(&items), Err(Error::MissingMetadata { ref key }) if key == "__name__"));
    let items = vec![item("__name__", list(&[])), item("__author__", text("someone"))];
    assert!(matches!(Metadata::from_definition(&items), Err(Error::InvalidMetadata { ref key }) if key == "__name__"));
    let mut items = header();
    items.push(item("__url__", text("not a url")));
    assert!(matches!(Metadata::from_definition(&items), Err(Error::InvalidUrl { ref url }) if url == "not a url"));
    let mut items = header();
    items.push(item("__exclude__", list(&["a[", "b"])));
    assert!(matches!(Metadata::from_definition(&items), Err(Error::InvalidGlob { ref pattern, .. }) if pattern == "a["));
}

#[test]
fn url_shape() {
    assert!(Url::try_from(String::from("http://www.example.org")).is_ok());
    assert_eq!(Url::try_from(String::from("example")).unwrap_err(), "invalid url: 'example'");
}

#[test]
fn glob_patterns_match_relative_paths() {
    let g = GlobPatterns::new(strings(&["*.png", "docs/**"])).unwrap();
    assert!(g.matches_path_any("a/b.png"));
    assert!(g.matches_path_any("docs/x/y.md"));
    assert!(!g.matches_path_any("src/main.rs"));
    assert!(!GlobPatterns::empty().matches_path_any("x"));
}

#[test]
fn load_fails_on_bad_declaration_and_base() {
    let mut items = header();
    items.push(item("v", text("x")));
    assert!(matches!(Template::load(&items), Err(Error::Schema { .. })));
    let mut items = header();
    items.push(item("__base__", text("../up")));
    assert!(matches!(Template::load(&items), Err(Error::BasePath { .. })));
}

#[test]
fn variables_keep_declaration_order() {
    let mut items = header();
    for name in ["zeta", "alpha", "mid"] {
        items.push(item(name, declaration(vec![("default", RawField::Bool(true)), ("prompt", RawField::Str(String::from("?")))])));
    }
    let t = Template::load(&items).unwrap();
    let names: Vec<&str> = t.variables.keys().map(|n| n.as_str()).collect();
    assert_eq!(names, vec!["zeta", "alpha", "mid"]);
}

#[test]
fn duplicate_declarations_fail() {
    let mut items = header();
    for _ in 0..2 {
        items.push(item("twice", declaration(vec![("default", RawField::Bool(true)), ("prompt", RawField::Str(String::from("?")))])));
    }
    assert!(matches!(Template::load(&items), Err(Error::DuplicateVariable { ref name }) if name == "twice"));
}

#[test]
fn base_path_normalisation() {
    assert_eq!(base_components("").unwrap(), Vec::<String>::new());
    assert_eq!(base_components(".").unwrap(), Vec::<String>::new());
    assert_eq!(base_components("a/./b/../c/").unwrap(), strings(&["a", "c"]));
    assert!(matches!(base_components(".."), Err(Error::BasePath { .. })));
    assert!(matches!(base_components("/abs"), Err(Error::BasePath { .. })));
}

#[test]
fn paths_join_with_slashes() {
    assert_eq!(path_to_string(&strings(&[])), "");
    assert_eq!(path_to_string(&strings(&["a", "b", "c.txt"])), "a/b/c.txt");
    assert!(same_text("ab", "ab"));
    assert!(!same_text("ab", "abc"));
}

#[test]
fn false_condition_leaves_variable_absent() {
    let mut items = header();
    items.push(item("a", declaration(vec![("default", RawField::Bool(true)), ("prompt", RawField::Str(String::from("a?")))])));
    items.push(item(
        "b",
        declaration(vec![
            ("default", RawField::Str(String::from("dflt"))),
            ("prompt", RawField::Str(String::from("b?"))),
            ("condition", RawField::Str(String::from("a == true"))),
        ]),
    ));
    let t = Template::load(&items).unwrap();
    let mut ctx = RenderContext::new();
    let mut from = 0;
    while let Some(i) = t.next_in_scope(&ctx, from).unwrap() {
        let (name, _) = t.variables.get_index(i).unwrap();
        assert_eq!(name, "a");
        assert!(t.record(&mut ctx, i, ContextValue::Bool(false)));
        from = i + 1;
    }
    assert!(ctx.contains("a"));
    assert!(!ctx.contains("b"));
    assert_eq!(ctx.get("b"), None);
    assert_eq!(ctx.len(), 1);
}

#[test]
fn true_condition_brings_variable_in_scope() {
    let mut items = header();
    items.push(item("a", declaration(vec![("default", RawField::Bool(true)), ("prompt", RawField::Str(String::from("a?")))])));
    items.push(item(
        "b",
        declaration(vec![
            ("default", RawField::Bool(true)),
            ("prompt", RawField::Str(String::from("b?"))),
            ("condition", RawField::Str(String::from("a == true and _git.name == 'me'"))),
        ]),
    ));
    let t = Template::load(&items).unwrap();
    let mut ctx = RenderContext::new();
    ctx.insert(String::from("_git"), ContextValue::Record(vec![(String::from("name"), Field::Str(String::from("me")))]));
    ctx.insert(String::from("a"), ContextValue::Bool(true));
    assert_eq!(t.next_in_scope(&ctx, 1).unwrap(), Some(1));
}

#[test]
fn record_binds_only_accepted_answers() {
    let mut items = header();
    items.push(item(
        "n",
        declaration(vec![
            ("default", RawField::Int(2)),
            ("range", RawField::IntList(vec![1, 3])),
            ("prompt", RawField::Str(String::from("n?"))),
        ]),
    ));
    let t = Template::load(&items).unwrap();
    let mut ctx = RenderContext::new();
    assert!(!t.record(&mut ctx, 0, ContextValue::Int(9)));
    assert!(!t.record(&mut ctx, 0, ContextValue::Str(String::from("2"))));
    assert!(!t.record(&mut ctx, 1, ContextValue::Int(2)));
    assert_eq!(ctx.len(), 0);
    assert!(t.record(&mut ctx, 0, ContextValue::Int(3)));
    assert_eq!(ctx.get("n"), Some(&ContextValue::Int(3)));
}

#[test]
fn context_insert_replaces_in_place() {
    let mut ctx = RenderContext::new();
    ctx.insert(String::from("x"), ContextValue::Int(1));
    ctx.insert(String::from("y"), ContextValue::List(strings(&["a"])));
    ctx.insert(String::from("x"), ContextValue::Int(2));
    assert_eq!(ctx.len(), 2);
    assert_eq!(ctx.get("x"), Some(&ContextValue::Int(2)));
    assert_eq!(ctx.entries()[0].0, "x");
}

#[test]
fn merge_with_declining_resolver_skips() {
    assert!(needs_resolver(true, false));
    let action = merge_action(true, false, false);
    assert_eq!(action, FileAction::Skip);
    let mut counts = MergeCounts::new();
    counts.record(action);
    assert_eq!(counts, MergeCounts { created: 0, overwritten: 0, skipped: 1 });
}

#[test]
fn merge_with_force_overwrites() {
    assert!(!needs_resolver(true, true));
    let action = merge_action(true, true, false);
    assert_eq!(action, FileAction::Overwrite);
    let mut counts = MergeCounts::new();
    counts.record(action);
    assert_eq!(counts, MergeCounts { created: 0, overwritten: 1, skipped: 0 });
}

#[test]
fn merge_of_absent_file_creates() {
    for force in [false, true] {
        assert!(!needs_resolver(false, force));
        assert_eq!(merge_action(false, force, false), FileAction::Create);
    }
    let mut counts = MergeCounts::new();
    counts.record(FileAction::Create);
    counts.record(FileAction::Overwrite);
    assert_eq!(counts, MergeCounts { created: 1, overwritten: 1, skipped: 0 });
    assert!(counts.has_room());
}

#[test]
fn repository_keeps_its_path() {
    assert_eq!(Repository::new("/tmp/owner/repo").path(), "/tmp/owner/repo");
}

#[test]
fn load_names_the_failing_declaration() {
    let mut items = header();
    items.push(item("ok", declaration(vec![("default", RawField::Bool(true)), ("prompt", RawField::Str(String::from("?")))])));
    items.push(item(
        "bad",
        declaration(vec![
            ("default", RawField::Int(0)),
            ("range", RawField::IntList(vec![10, 1])),
            ("prompt", RawField::Str(String::from("?"))),
        ]),
    ));
    assert!(matches!(
        Template::load(&items),
        Err(Error::ValidateVariable { ref name, source: tapgen::error::InvalidVariableError::UnreasonableRange }) if name == "bad"
    ));
    let mut items = header();
    items.push(item(
        "gated",
        declaration(vec![
            ("default", RawField::Bool(true)),
            ("prompt", RawField::Str(String::from("?"))),
            ("condition", RawField::Str(String::from("a =="))),
        ]),
    ));
    assert!(matches!(Template::load(&items), Err(Error::Condition { ref name, .. }) if name == "gated"));
    let mut items = header();
    items.push(item("v", text("x")));
    assert!(matches!(Template::load(&items), Err(Error::Schema { ref name, .. }) if name == "v"));
}

#[test]
fn load_reports_metadata_before_declarations() {
    let items = vec![item("v", text("x"))];
    assert!(matches!(Template::load(&items), Err(Error::MissingMetadata { ref key }) if key == "__name__"));
}

#[test]
fn load_keeps_the_metadata() {
    let mut items = header();
    items.push(item("__exclude__", list(&["*.tmp"])));
    let t = Template::load(&items).unwrap();
    assert_eq!(t.metadata.name, "demo");
    assert!(t.metadata.exclude.matches_path_any("a.tmp"));
}

#[test]
fn render_error_names_the_first_failing_path() {
    let t = Template::load(&header()).unwrap();
    let t = t
        .init(&vec![dir(&[]), file(&["a.txt"], b"{{ missing }}"), file(&["{{ gone }}.txt"], b"x")])
        .unwrap();
    assert!(matches!(t.generate(&RenderContext::new()), Err(Error::Render { ref path, .. }) if path == "a.txt"));
}

#[test]
fn syntax_error_names_the_first_failing_file() {
    let t = Template::load(&header()).unwrap();
    let r = t.init(&vec![dir(&[]), file(&["ok.txt"], b"fine"), file(&["x.txt"], b"{{ x"), file(&["y.txt"], &[0xff])]);
    assert!(matches!(r, Err(Error::TemplateSyntax { ref path, .. }) if path == "x.txt"));
}
