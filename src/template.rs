//! A loaded template: its metadata, its variables in declaration order, its
//! base path and the depth-ordered model of its file tree.
use vstd::prelude::*;
use vstd::string::*;
use crate::definition::RawItem;
use crate::error::Error;
use crate::metadata::{base_text, fault_of, metadata_read, 
    any_glob_match, is_reserved, metadata_fault, reserved_shape, text_of, GlobPatterns, Metadata,
    BASE_KEY,
};
use crate::path::{join_path, path_to_string, same_text, views};
use crate::context::{ContextValue, RenderContext};
use crate::output::{staged_view, Output, StagedEntry, StagedKind, StagedView};
use crate::context::{bind, lemma_bind_at};
use crate::trusted::{variable_entries, variables_at, variables_insert, variables_len, variables_new, variables_position, expression_truth, decode_text, find_nul, rendered, template_compile, template_render, template_valid};
use vstd::utf8::{decode_utf8, valid_utf8};
use crate::variable::{declaration_error, declaration_valid, reads_as, satisfies, Variable};

verus! {

/// The components after closing one segment of a base path: empty and `.`
/// segments are dropped, `..` removes the last component (and fails where
/// there is none), any other segment is appended.
pub open spec fn close_segment(parts: Seq<Seq<char>>, seg: Seq<char>) -> Option<Seq<Seq<char>>> {
    if seg.len() == 0 || seg == seq!['.'] {
        Some(parts)
    } else if seg == seq!['.', '.'] {
        if parts.len() == 0 {
            None
        } else {
            Some(parts.drop_last())
        }
    } else {
        Some(parts.push(seg))
    }
}

/// The components closed so far and the open segment, after reading `s`.
pub open spec fn scan_base(s: Seq<char>) -> Option<(Seq<Seq<char>>, Seq<char>)>
    decreases s.len(),
{
    if s.len() == 0 {
        Some((Seq::empty(), Seq::empty()))
    } else {
        match scan_base(s.drop_last()) {
            None => None,
            Some((parts, seg)) => if s.last() == '/' {
                match close_segment(parts, seg) {
                    None => None,
                    Some(p) => Some((p, Seq::empty())),
                }
            } else {
                Some((parts, seg.push(s.last())))
            },
        }
    }
}

/// The components of a base path relative to the template root; `None`
/// where it is absolute or climbs out of the root.
pub open spec fn base_of(s: Seq<char>) -> Option<Seq<Seq<char>>> {
    if s.len() > 0 && s[0] == '/' {
        None
    } else {
        match scan_base(s) {
            None => None,
            Some((parts, seg)) => close_segment(parts, seg),
        }
    }
}

/// Closes one segment of a base path.
fn close(parts: &mut Vec<String>, seg: &str) -> (ok: bool)
    ensures
        match close_segment(views(old(parts)@), seg@) {
            None => !ok,
            Some(p) => ok && views(final(parts)@) == p,
        },
{
    proof {
        reveal_strlit(".");
        reveal_strlit("..");
        assert("."@ =~= seq!['.']);
        assert(".."@ =~= seq!['.', '.']);
    }
    if seg.unicode_len() == 0 || same_text(seg, ".") {
        return true;
    }
    if same_text(seg, "..") {
        if parts.len() == 0 {
            return false;
        }
        parts.pop();
        assert(views(parts@) =~= views(old(parts)@).drop_last());
        return true;
    }
    parts.push(seg.to_string());
    assert(views(parts@) =~= views(old(parts)@).push(seg@));
    true
}

/// Where the declarations among the first `i` keys are valid and named apart,
/// the first `m` declarations are sound.
proof fn lemma_sound_upto(items: Seq<(String, RawItem)>, pred: spec_fn((String, RawItem)) -> bool, i: int, m: int)
    requires
        pred == declaration_pred(),
        0 <= i < items.len(),
        m == items.take(i).filter(pred).len(),
        items.take(i + 1).filter(pred) == items.take(i).filter(pred).push(items[i]),
        items.take(i + 1).filter(pred) == items.filter(pred).take(items.take(i + 1).filter(pred).len() as int),
        items.take(i + 1).filter(pred).len() <= items.filter(pred).len(),
        forall|j: int| 0 <= j < items.take(i).filter(pred).len() ==> declaration_valid(
            #[trigger] items.take(i).filter(pred)[j].1),
        distinct_names(items.take(i).filter(pred)),
    ensures
        m < declarations(items).len(),
        declarations(items)[m] == items[i],
        forall|j: int| 0 <= j <= m ==> declarations(items)[j] == #[trigger] items.take(i + 1).filter(pred)[j],
        sound_before(declarations(items), m),
{
    let d = declarations(items);
    let k = items.take(i + 1).filter(pred);
    let k0 = items.take(i).filter(pred);
    assert(k.len() == m + 1);
    assert forall|j: int| 0 <= j <= m implies d[j] == #[trigger] k[j] by {
        assert(items.filter(pred).take(k.len() as int)[j] == items.filter(pred)[j]);
    }
    assert(k[m] == items[i]);
    assert forall|j: int| 0 <= j < m implies declaration_valid(#[trigger] d[j].1) && !repeats_name(d, j) by {
        assert(d[j] == k[j] && k[j] == k0[j]);
        assert forall|a: int| 0 <= a < j implies d[a].0@ != d[j].0@ by {
            assert(d[a] == k[a] && k[a] == k0[a]);
        }
    }
}

/// Once reading a prefix fails, reading the whole fails.
proof fn lemma_scan_none_extends(s: Seq<char>, k: int)
    requires
        0 <= k <= s.len(),
        scan_base(s.take(k)) is None,
    ensures
        scan_base(s) is None,
    decreases s.len() - k,
{
    if k < s.len() {
        assert(s.take(k + 1).drop_last() =~= s.take(k));
        lemma_scan_none_extends(s, k + 1);
    } else {
        assert(s.take(k) =~= s);
    }
}

/// Filtering a prefix gives a prefix of the filtered sequence.
pub proof fn lemma_filter_prefix<A>(s: Seq<A>, k: int, pred: spec_fn(A) -> bool)
    requires
        0 <= k <= s.len(),
    ensures
        s.take(k).filter(pred).len() <= s.filter(pred).len(),
        s.take(k).filter(pred) == s.filter(pred).take(s.take(k).filter(pred).len() as int),
    decreases s.len(),
{
    if k == s.len() {
        assert(s.take(k) =~= s);
        assert(s.filter(pred).take(s.filter(pred).len() as int) =~= s.filter(pred));
    } else {
        let d = s.drop_last();
        assert(s.take(k) =~= d.take(k));
        lemma_filter_prefix(d, k, pred);
        assert(s =~= d.push(s.last()));
        d.lemma_filter_push(s.last(), pred);
        let m = d.take(k).filter(pred).len() as int;
        if pred(s.last()) {
            assert(d.filter(pred).push(s.last()).take(m) =~= d.filter(pred).take(m));
        }
    }
}

/// The components of a base path relative to the template root; fails
/// where the path is absolute or climbs out of the root.
pub fn base_components(base: &str) -> (r: Result<Vec<String>, Error>)
    ensures
        match base_of(base@) {
            None => r matches Err(Error::BasePath { base: b }) && b@ == base@,
            Some(p) => r matches Ok(c) && views(c@) == p,
        },
{
    let n = base.unicode_len();
    if n > 0 && base.get_char(0) == '/' {
        return Err(Error::BasePath { base: base.to_string() });
    }
    let mut parts: Vec<String> = Vec::new();
    let mut start: usize = 0;
    let mut i: usize = 0;
    assert(base@.take(0) =~= Seq::<char>::empty());
    while i < n
        invariant
            n == base@.len(),
            start <= i <= n,
            scan_base(base@.take(i as int)) == Some((views(parts@), base@.subrange(start as int, i as int))),
        decreases n - i,
    {
        assert(base@.take(i + 1).drop_last() =~= base@.take(i as int));
        assert(base@.take(i + 1).last() == base@[i as int]);
        if base.get_char(i) == '/' {
            let seg = base.substring_char(start, i);
            if !close(&mut parts, seg) {
                proof { lemma_scan_none_extends(base@, i + 1); }
                return Err(Error::BasePath { base: base.to_string() });
            }
            start = i + 1;
            assert(base@.subrange(start as int, i + 1) =~= Seq::<char>::empty());
        } else {
            assert(base@.subrange(start as int, i + 1) =~= base@.subrange(start as int, i as int).push(base@[i as int]));
        }
        i = i + 1;
    }
    assert(base@.take(n as int) =~= base@);
    let seg = base.substring_char(start, n);
    if !close(&mut parts, seg) {
        return Err(Error::BasePath { base: base.to_string() });
    }
    Ok(parts)
}

/// The declarations among the top-level keys: those not in the reserved
/// form.
pub open spec fn declarations(items: Seq<(String, RawItem)>) -> Seq<(String, RawItem)> {
    items.filter(declaration_pred())
}

/// Whether a top-level key is a declaration.
pub open spec fn declaration_pred() -> spec_fn((String, RawItem)) -> bool {
    |it: (String, RawItem)| !reserved_shape(it.0@)
}

/// Whether no two declarations share a name.
pub open spec fn distinct_names(decls: Seq<(String, RawItem)>) -> bool {
    forall|i: int, j: int| 0 <= i < j < decls.len() ==> decls[i].0@ != decls[j].0@
}

/// Whether the declaration at `k` repeats the name of an earlier one.
pub open spec fn repeats_name(decls: Seq<(String, RawItem)>, k: int) -> bool {
    exists|j: int| 0 <= j < k && decls[j].0@ == decls[k].0@
}

/// Whether the declarations before `k` are valid and named apart.
pub open spec fn sound_before(decls: Seq<(String, RawItem)>, k: int) -> bool {
    forall|j: int| 0 <= j < k ==> declaration_valid(#[trigger] decls[j].1) && !repeats_name(decls, j)
}

/// Whether `k` is the first declaration that repeats a name or is invalid.
pub open spec fn first_unsound(decls: Seq<(String, RawItem)>, k: int) -> bool {
    0 <= k < decls.len() && sound_before(decls, k) && (repeats_name(decls, k) || !declaration_valid(
        decls[k].1,
    ))
}

/// Whether `e` is the error that loading a definition reports: the first
/// metadata fault; else, for the first declaration that repeats a name or is
/// invalid, the repetition or the error of reading it, naming it; else the
/// base path that is absolute or leaves the root.
pub open spec fn load_error(items: Seq<(String, RawItem)>, e: Error) -> bool {
    let decls = declarations(items);
    match metadata_fault(items) {
        Some(f) => fault_of(e) == Some(f),
        None => if exists|k: int| first_unsound(decls, k) {
            exists|k: int| #![trigger decls[k]]
                first_unsound(decls, k) && if repeats_name(decls, k) {
                    e matches Error::DuplicateVariable { name } && name@ == decls[k].0@
                } else {
                    declaration_error(decls[k].0@, decls[k].1, e)
                }
        } else {
            e matches Error::BasePath { base } && base@ == base_text(items)
        },
    }
}

/// An entry found by walking the template tree.
#[derive(Debug)]
pub struct Discovered {
    /// The path relative to the template root, as components.
    pub components: Vec<String>,
    pub is_dir: bool,
    /// The bytes of a file; empty for a directory.
    pub contents: Vec<u8>,
}

/// An entry of the template tree.
#[derive(Debug, PartialEq, Eq)]
pub struct Entry {
    /// The path relative to the template root, as components.
    pub components: Vec<String>,
    pub kind: EntryKind,
}

/// What generation does with an entry.
#[derive(Debug, PartialEq, Eq)]
pub enum EntryKind {
    /// A directory, created.
    Directory,
    /// A binary file or one matched by a copy pattern, copied byte for byte.
    Copy(Vec<u8>),
    /// A text file, rendered from this source.
    Render(String),
}

/// A loaded template.
#[derive(Debug)]
pub struct Template {
    pub metadata: Metadata,
    /// The variables by name, in declaration order.
    pub variables: indexmap::IndexMap<String, Variable>,
    /// The base path, as components relative to the template root.
    pub base: Vec<String>,
    /// The entries of the tree, by ascending depth, in discovery order within
    /// each depth.
    pub entries: Vec<Entry>,
}

impl Template {
    /// Reads a definition: its metadata from the reserved keys, then each
    /// other key as a variable declaration, in order, then the base path.
    /// The tree is left empty, to be filled by `init`.
    pub fn load(items: &Vec<(String, RawItem)>) -> (r: Result<Template, Error>)
        ensures
            r is Ok <==> {
                &&& metadata_fault(items@) is None
                &&& forall|i: int| 0 <= i < declarations(items@).len() ==> declaration_valid(
                    #[trigger] declarations(items@)[i].1,
                )
                &&& distinct_names(declarations(items@))
                &&& base_of(base_text(items@)) is Some
            },
            r matches Err(e) ==> load_error(items@, e),
            r matches Ok(t) ==> {
                &&& metadata_read(items@, t.metadata)
                &&& variable_entries(t.variables).len() == declarations(items@).len()
                &&& forall|i: int| 0 <= i < declarations(items@).len() ==> (#[trigger] variable_entries(t.variables)[i]).0
                    == declarations(items@)[i].0@ && reads_as(variable_entries(t.variables)[i].1, declarations(items@)[i].1)
                &&& base_of(t.metadata.base@) == Some(views(t.base@))
                &&& t.entries@.len() == 0
            },
    {
        let metadata = Metadata::from_definition(items)?;
        let mut variables = variables_new();
        let mut i: usize = 0;
        let ghost pred = declaration_pred();
        assert(items@.take(0).filter(pred) =~= Seq::<(String, RawItem)>::empty());
        while i < items.len()
            invariant
                i <= items.len(),
                pred == declaration_pred(),
                metadata_fault(items@) is None,
                variable_entries(variables).len() == items@.take(i as int).filter(pred).len(),
                forall|j: int| 0 <= j < variable_entries(variables).len() ==> (#[trigger] variable_entries(variables)[j]).0
                    == items@.take(i as int).filter(pred)[j].0@ && reads_as(variable_entries(variables)[j].1, items@.take(i as int).filter(pred)[j].1),
                forall|j: int| 0 <= j < items@.take(i as int).filter(pred).len() ==> declaration_valid(
                    #[trigger] items@.take(i as int).filter(pred)[j].1),
                distinct_names(items@.take(i as int).filter(pred)),
            decreases items.len() - i,
        {
            assert(items@.take(i + 1) =~= items@.take(i as int).push(items@[i as int]));
            proof {
                items@.take(i as int).lemma_filter_push(items@[i as int], pred);
                lemma_filter_prefix(items@, i + 1, pred);
            }
            if !is_reserved(items[i].0.as_str()) {
                let ghost m = variable_entries(variables).len() as int;
                proof {
                    let k = items@.take(i + 1).filter(pred);
                    assert(pred(items@[i as int]));
                    assert(k == items@.take(i as int).filter(pred).push(items@[i as int]));
                    assert(k[m] == items@[i as int]);
                    assert(items@.filter(pred).take(k.len() as int)[m] == items@.filter(pred)[m]);
                    assert(declarations(items@)[m] == items@[i as int]);
                }
                match variables_position(&variables, &items[i].0) {
                    Some(p) => {
                        proof {
                            let k = items@.take(i + 1).filter(pred);
                            assert(k[p as int] == items@.take(i as int).filter(pred)[p as int]);
                            assert(items@.filter(pred).take(k.len() as int)[p as int] == items@.filter(pred)[p as int]);
                            assert(declarations(items@)[p as int].0@ == declarations(items@)[m].0@);
                            assert(!distinct_names(declarations(items@)));
                            lemma_sound_upto(items@, pred, i as int, m);
                            let d = declarations(items@);
                            assert(d[p as int] == items@.take(i + 1).filter(pred)[p as int]);
                            assert(d[p as int].0@ == d[m].0@);
                            assert(repeats_name(d, m));
                            assert(first_unsound(d, m));
                        }
                        return Err(Error::DuplicateVariable { name: items[i].0.clone() });
                    },
                    None => {},
                }
                match Variable::from_declaration(&items[i].0, &items[i].1) {
                    Ok(v) => {
                        let ghost before = variable_entries(variables);
                        proof { lemma_bind_at(before, items@[i as int].0@, v, None); }
                        variables_insert(&mut variables, items[i].0.clone(), v);
                        assert(variable_entries(variables) == before.push((items@[i as int].0@, v)));
                        proof {
                            let k = items@.take(i + 1).filter(pred);
                            let k0 = items@.take(i as int).filter(pred);
                            assert forall|a: int, b: int| 0 <= a < b < k.len() implies k[a].0@ != k[b].0@ by {
                                if b < m {
                                    assert(k[a] == k0[a] && k[b] == k0[b]);
                                } else {
                                    assert(k[a] == k0[a]);
                                    assert(before[a].0 == k0[a].0@);
                                }
                            }
                        }
                    },
                    Err(e) => {
                        proof {
                            lemma_sound_upto(items@, pred, i as int, m);
                            let d = declarations(items@);
                            assert forall|j: int| 0 <= j < m implies d[j].0@ != d[m].0@ by {
                                assert(d[j] == items@.take(i + 1).filter(pred)[j]);
                                assert(items@.take(i + 1).filter(pred)[j] == items@.take(i as int).filter(pred)[j]);
                                assert(variable_entries(variables)[j].0 != items@[i as int].0@);
                            }
                            assert(!repeats_name(d, m));
                            assert(first_unsound(d, m));
                        }
                        return Err(e);
                    },
                }
            }
            i = i + 1;
        }
        assert(items@.take(items.len() as int) =~= items@);
        proof {
            let d = declarations(items@);
            assert(items@.take(items@.len() as int) =~= items@);
            assert forall|k: int| !first_unsound(d, k) by {
                if 0 <= k < d.len() {
                    assert(declaration_valid(d[k].1));
                    assert forall|j: int| 0 <= j < k implies d[j].0@ != d[k].0@ by {}
                }
            }
        }
        let base = base_components(metadata.base.as_str())?;
        Ok(Template { metadata, variables, base, entries: Vec::new() })
    }
}

/// The text of a path given by its components.
pub open spec fn path_text(components: Seq<String>) -> Seq<char> {
    join_path(views(components))
}

/// Whether bytes hold a zero byte, the mark of a binary file.
pub open spec fn has_nul(bytes: Seq<u8>) -> bool {
    exists|i: int| 0 <= i < bytes.len() && bytes[i] == 0
}

/// Whether an exclude pattern matches a found entry.
pub open spec fn excluded(d: Discovered, exclude: Seq<Seq<char>>) -> bool {
    any_glob_match(exclude, path_text(d.components@))
}

/// Whether no exclude pattern matches a found entry.
pub open spec fn survives(exclude: Seq<Seq<char>>) -> spec_fn(Discovered) -> bool {
    |d: Discovered| !excluded(d, exclude)
}

/// The entries that no exclude pattern matches, in discovery order.
pub open spec fn kept(found: Seq<Discovered>, exclude: Seq<Seq<char>>) -> Seq<Discovered> {
    found.filter(survives(exclude))
}

/// What generation does with a kept entry: a directory is created; a file
/// holding a zero byte, or matched by a copy pattern, is copied; any other
/// file is rendered. `None` where a rendered file is not UTF-8 or is no valid
/// template.
pub open spec fn kind_of(d: Discovered, copy: Seq<Seq<char>>) -> Option<KindView> {
    if d.is_dir {
        Some(KindView::Directory)
    } else if has_nul(d.contents@) || any_glob_match(copy, path_text(d.components@)) {
        Some(KindView::Copy(d.contents@))
    } else if valid_utf8(d.contents@) && template_valid(decode_utf8(d.contents@)) {
        Some(KindView::Render(decode_utf8(d.contents@)))
    } else {
        None
    }
}

/// What generation does with an entry, as plain values.
pub enum KindView {
    Directory,
    Copy(Seq<u8>),
    Render(Seq<char>),
}

/// The plain view of an entry kind.
pub open spec fn kind_view(k: EntryKind) -> KindView {
    match k {
        EntryKind::Directory => KindView::Directory,
        EntryKind::Copy(b) => KindView::Copy(b@),
        EntryKind::Render(t) => KindView::Render(t@),
    }
}

/// Whether `e` is the entry built from `d`.
pub open spec fn builds(e: Entry, d: Discovered, copy: Seq<Seq<char>>) -> bool {
    &&& e.components@ == d.components@
    &&& kind_of(d, copy) == Some(kind_view(e.kind))
}

/// An entry as plain values: its components and its kind.
pub open spec fn entry_view(e: Entry) -> (Seq<String>, KindView) {
    (e.components@, kind_view(e.kind))
}

/// The plain views of entries.
pub open spec fn entry_views(s: Seq<Entry>) -> Seq<(Seq<String>, KindView)> {
    s.map_values(|e: Entry| entry_view(e))
}

/// Whether an entry has depth `d`.
pub open spec fn at_depth(d: int) -> spec_fn((Seq<String>, KindView)) -> bool {
    |e: (Seq<String>, KindView)| e.0.len() == d
}

/// The entries of depth at most `d`, by ascending depth, in their order
/// within each depth.
pub open spec fn layers(s: Seq<(Seq<String>, KindView)>, d: int) -> Seq<(Seq<String>, KindView)>
    decreases d + 1,
{
    if d < 0 {
        Seq::empty()
    } else {
        layers(s, d - 1) + s.filter(at_depth(d))
    }
}

/// The largest depth among entries.
pub open spec fn max_depth(s: Seq<(Seq<String>, KindView)>) -> int
    decreases s.len(),
{
    if s.len() == 0 {
        0
    } else {
        let m = max_depth(s.drop_last());
        if s.last().0.len() > m {
            s.last().0.len() as int
        } else {
            m
        }
    }
}

/// The entries by ascending depth, in their order within each depth.
pub open spec fn depth_ordered(s: Seq<(Seq<String>, KindView)>) -> Seq<(Seq<String>, KindView)> {
    layers(s, max_depth(s))
}

/// A copy of an entry.
fn copy_entry(e: &Entry) -> (r: Entry)
    ensures
        entry_view(r) == entry_view(*e),
{
    let components = e.components.clone();
    assert(components@ =~= e.components@);
    let kind = match &e.kind {
        EntryKind::Directory => EntryKind::Directory,
        EntryKind::Copy(b) => {
            let c = b.clone();
            assert(c@ =~= b@);
            EntryKind::Copy(c)
        },
        EntryKind::Render(t) => EntryKind::Render(t.clone()),
    };
    Entry { components, kind }
}

/// The entries ordered by ascending depth, in their order within each depth.
pub fn order_by_depth(entries: &Vec<Entry>) -> (r: Vec<Entry>)
    ensures
        entry_views(r@) == depth_ordered(entry_views(entries@)),
{
    let ghost s = entry_views(entries@);
    let mut max: usize = 0;
    let mut i: usize = 0;
    while i < entries.len()
        invariant
            i <= entries.len(),
            s == entry_views(entries@),
            max == max_depth(s.take(i as int)),
        decreases entries.len() - i,
    {
        assert(s.take(i + 1).drop_last() =~= s.take(i as int));
        assert(s.take(i + 1).last() == entry_view(entries@[i as int]));
        if entries[i].components.len() > max {
            max = entries[i].components.len();
        }
        i = i + 1;
    }
    assert(s.take(entries.len() as int) =~= s);
    let mut out: Vec<Entry> = Vec::new();
    let mut d: usize = 0;
    assert(entry_views(out@) =~= layers(s, -1));
    loop
        invariant_except_break
            d <= max,
            entry_views(out@) == layers(s, d - 1),
        invariant
            s == entry_views(entries@),
            max == max_depth(s),
        ensures
            entry_views(out@) == layers(s, max as int),
        decreases max - d,
    {
        let mut j: usize = 0;
        let ghost before = entry_views(out@);
        assert(s.take(0).filter(at_depth(d as int)) =~= Seq::<(Seq<String>, KindView)>::empty());
        assert(before =~= before + s.take(0).filter(at_depth(d as int)));
        while j < entries.len()
            invariant
                j <= entries.len(),
                s == entry_views(entries@),
                entry_views(out@) == before + s.take(j as int).filter(at_depth(d as int)),
            decreases entries.len() - j,
        {
            assert(s.take(j + 1) =~= s.take(j as int).push(s[j as int]));
            proof { s.take(j as int).lemma_filter_push(s[j as int], at_depth(d as int)); }
            if entries[j].components.len() == d {
                let e = copy_entry(&entries[j]);
                let ghost prev = out@;
                out.push(e);
                assert(entry_views(out@) =~= entry_views(prev).push(entry_view(e)));
            }
            j = j + 1;
        }
        assert(s.take(entries.len() as int) =~= s);
        assert(entry_views(out@) == layers(s, d as int));
        if d == max {
            break;
        }
        d = d + 1;
    }
    out
}

/// Whether `e` is the error a kept file that makes no entry reports: a
/// syntax error where it is UTF-8, else an encoding error, naming the file.
pub open spec fn file_error(d: Discovered, e: Error) -> bool {
    if valid_utf8(d.contents@) {
        e matches Error::TemplateSyntax { path, .. } && path@ == path_text(d.components@)
    } else {
        e matches Error::Encoding { path } && path@ == path_text(d.components@)
    }
}

/// Whether `k` is the first kept entry that makes no entry.
pub open spec fn first_unbuilt(ks: Seq<Discovered>, copy: Seq<Seq<char>>, k: int) -> bool {
    &&& 0 <= k < ks.len()
    &&& kind_of(ks[k], copy) is None
    &&& forall|j: int| 0 <= j < k ==> (#[trigger] kind_of(ks[j], copy)) is Some
}

/// Reads a found file: the kind of entry it makes, or why it makes none.
fn classify(d: &Discovered, path: &String, copy: &GlobPatterns) -> (r: Result<EntryKind, Error>)
    requires
        !d.is_dir,
        path@ == path_text(d.components@),
    ensures
        match kind_of(*d, copy@) {
            Some(k) => r matches Ok(e) && kind_view(e) == k,
            None => r matches Err(e) && file_error(*d, e),
        },
{
    let binary = match find_nul(d.contents.as_slice()) {
        Some(i) => {
            assert(d.contents@[i as int] == 0);
            true
        },
        None => false,
    };
    if binary || copy.matches_path_any(path.as_str()) {
        let bytes = d.contents.clone();
        assert(bytes@ =~= d.contents@);
        return Ok(EntryKind::Copy(bytes));
    }
    let text = match decode_text(d.contents.clone()) {
        Some(t) => t,
        None => {
            return Err(Error::Encoding { path: path.clone() });
        },
    };
    match template_compile(text.as_str()) {
        Ok(()) => Ok(EntryKind::Render(text)),
        Err(message) => Err(Error::TemplateSyntax { path: path.clone(), message }),
    }
}

/// The entries built from the kept entries, in discovery order.
pub open spec fn built(found: Seq<Discovered>, copy: Seq<Seq<char>>, exclude: Seq<Seq<char>>) -> Seq<(Seq<String>, KindView)> {
    kept(found, exclude).map_values(|d: Discovered| (d.components@, kind_of(d, copy)->0))
}

/// Whether every kept entry makes an entry.
pub open spec fn tree_valid(found: Seq<Discovered>, copy: Seq<Seq<char>>, exclude: Seq<Seq<char>>) -> bool {
    forall|i: int| 0 <= i < kept(found, exclude).len() ==> kind_of(#[trigger] kept(found, exclude)[i], copy) is Some
}

impl Template {
    /// Builds the model of the tree from the entries found by walking the
    /// base path in lexicographic order: each entry that an exclude pattern
    /// matches is left out (its children are tested on their own); the rest
    /// are classified and ordered by ascending depth.
    pub fn init(self, found: &Vec<Discovered>) -> (r: Result<Template, Error>)
        ensures
            r is Ok <==> tree_valid(found@, self.metadata.copy@, self.metadata.exclude@),
            r matches Ok(t) ==> {
                &&& t.metadata == self.metadata
                &&& t.variables == self.variables
                &&& t.base == self.base
                &&& entry_views(t.entries@) == depth_ordered(
                    built(found@, self.metadata.copy@, self.metadata.exclude@),
                )
            },
            r matches Err(e) ==> exists|k: int| #![trigger kept(found@, self.metadata.exclude@)[k]]
                first_unbuilt(kept(found@, self.metadata.exclude@), self.metadata.copy@, k) && file_error(
                    kept(found@, self.metadata.exclude@)[k],
                    e,
                ),
    {
        let ghost copy = self.metadata.copy@;
        let ghost exclude = self.metadata.exclude@;
        let ghost keep = survives(exclude);
        let mut entries: Vec<Entry> = Vec::new();
        let mut i: usize = 0;
        assert(found@.take(0).filter(keep) =~= Seq::<Discovered>::empty());
        assert(entry_views(entries@) =~= built(found@.take(0), copy, exclude));
        while i < found.len()
            invariant
                i <= found.len(),
                copy == self.metadata.copy@,
                exclude == self.metadata.exclude@,
                keep == survives(exclude),
                entry_views(entries@) == built(found@.take(i as int), copy, exclude),
                tree_valid(found@.take(i as int), copy, exclude),
            decreases found.len() - i,
        {
            let d = &found[i];
            assert(found@.take(i + 1) =~= found@.take(i as int).push(found@[i as int]));
            proof { found@.take(i as int).lemma_filter_push(found@[i as int], keep); }
            let path = path_to_string(&d.components);
            if !self.metadata.exclude.matches_path_any(path.as_str()) {
                assert(keep(*d));
                let kind = if d.is_dir {
                    EntryKind::Directory
                } else {
                    match classify(d, &path, &self.metadata.copy) {
                        Ok(k) => k,
                        Err(e) => {
                            proof {
                                let k = found@.take(i + 1).filter(keep);
                                assert(k[k.len() - 1] == found@[i as int]);
                                lemma_filter_prefix(found@, i + 1, keep);
                                let kf = kept(found@, exclude);
                                let n = k.len() - 1;
                                assert(kf[n] == found@[i as int]);
                                assert forall|j: int| 0 <= j < n implies (#[trigger] kind_of(kf[j], copy)) is Some by {
                                    assert(kf.take(k.len() as int)[j] == kf[j]);
                                    assert(k[j] == found@.take(i as int).filter(keep)[j]);
                                }
                                assert(first_unbuilt(kf, copy, n));
                            }
                            return Err(e);
                        },
                    }
                };
                let components = d.components.clone();
                assert(components@ =~= d.components@);
                let ghost prev = entries@;
                let entry = Entry { components, kind };
                assert(entry_view(entry) == (d.components@, kind_of(*d, copy)->0));
                entries.push(entry);
                assert(entry_views(entries@) =~= entry_views(prev).push(entry_view(entry)));
                assert(found@.take(i + 1).filter(keep) == found@.take(i as int).filter(keep).push(*d));
                assert(built(found@.take(i + 1), copy, exclude) =~= built(found@.take(i as int), copy, exclude).push(entry_view(entry)));
                proof {
                    let k = found@.take(i + 1).filter(keep);
                    assert forall|j: int| 0 <= j < k.len() implies kind_of(#[trigger] k[j], copy) is Some by {
                        if j < k.len() - 1 {
                            assert(k[j] == found@.take(i as int).filter(keep)[j]);
                        }
                    }
                }
            } else {
                assert(!keep(*d));
                assert(built(found@.take(i + 1), copy, exclude) =~= built(found@.take(i as int), copy, exclude));
            }
            i = i + 1;
        }
        assert(found@.take(found.len() as int) =~= found@);
        let ordered = order_by_depth(&entries);
        Ok(Template { metadata: self.metadata, variables: self.variables, base: self.base, entries: ordered })
    }
}

/// What an entry stages against a context: its rendered path, and a
/// directory, the copied bytes or the rendered text; `None` where rendering
/// fails.
pub open spec fn staged_of(e: (Seq<String>, KindView), ctx: Seq<(Seq<char>, ContextValue)>) -> Option<(Seq<char>, StagedView)> {
    match rendered(path_text(e.0), ctx) {
        None => None,
        Some(p) => match e.1 {
            KindView::Directory => Some((p, StagedView::Directory)),
            KindView::Copy(b) => Some((p, StagedView::Bytes(b))),
            KindView::Render(t) => match rendered(t, ctx) {
                None => None,
                Some(x) => Some((p, StagedView::Text(x))),
            },
        },
    }
}

/// Whether every entry stages against a context.
pub open spec fn stages(es: Seq<(Seq<String>, KindView)>, ctx: Seq<(Seq<char>, ContextValue)>) -> bool {
    forall|i: int| 0 <= i < es.len() ==> (#[trigger] staged_of(es[i], ctx)) is Some
}

/// What the entries stage against a context, in order.
pub open spec fn staged_all(es: Seq<(Seq<String>, KindView)>, ctx: Seq<(Seq<char>, ContextValue)>) -> Seq<(Seq<char>, StagedView)> {
    es.map_values(|e: (Seq<String>, KindView)| staged_of(e, ctx)->0)
}

/// Whether `k` is the first entry that fails to stage.
pub open spec fn first_unstaged(es: Seq<(Seq<String>, KindView)>, ctx: Seq<(Seq<char>, ContextValue)>, k: int) -> bool {
    &&& 0 <= k < es.len()
    &&& staged_of(es[k], ctx) is None
    &&& forall|j: int| 0 <= j < k ==> (#[trigger] staged_of(es[j], ctx)) is Some
}

/// Whether `e` is the error that staging the entries reports: a render
/// error naming the source path of the first entry that fails, else the
/// missing base entry.
pub open spec fn generate_error(es: Seq<(Seq<String>, KindView)>, ctx: Seq<(Seq<char>, ContextValue)>, e: Error) -> bool {
    if stages(es, ctx) {
        e is MissingBasename
    } else {
        exists|k: int| #![trigger es[k]]
            first_unstaged(es, ctx, k) && (e matches Error::Render { path, .. } && path@ == path_text(es[k].0))
    }
}

/// Whether some entry is the base path.
pub open spec fn has_base(es: Seq<(Seq<String>, KindView)>, base: Seq<String>) -> bool {
    exists|i: int| 0 <= i < es.len() && views(es[i].0) == views(base)
}

/// Whether `k` is the first entry that is the base path.
pub open spec fn first_base(es: Seq<(Seq<String>, KindView)>, base: Seq<String>, k: int) -> bool {
    0 <= k < es.len() && views(es[k].0) == views(base) && forall|j: int|
        0 <= j < k ==> views(es[j].0) != views(base)
}

/// Whether `o` is what staging the entries against a context gives: each
/// entry staged in order, and the rendered path of the first base entry as
/// the basename.
pub open spec fn generated(
    es: Seq<(Seq<String>, KindView)>,
    base: Seq<String>,
    ctx: Seq<(Seq<char>, ContextValue)>,
    o: (Seq<char>, Seq<(Seq<char>, StagedView)>),
) -> bool {
    &&& o.1 == staged_all(es, ctx)
    &&& exists|k: int| first_base(es, base, k) && o.0 == staged_all(es, ctx)[k].0
}

/// Whether two paths have the same components.
pub fn same_components(a: &Vec<String>, b: &Vec<String>) -> (r: bool)
    ensures
        r == (views(a@) == views(b@)),
{
    if a.len() != b.len() {
        assert(views(a@).len() != views(b@).len());
        return false;
    }
    let mut i: usize = 0;
    while i < a.len()
        invariant
            a@.len() == b@.len(),
            i <= a.len(),
            forall|j: int| 0 <= j < i ==> a@[j]@ == b@[j]@,
        decreases a.len() - i,
    {
        if !(a[i] == b[i]) {
            assert(views(a@)[i as int] != views(b@)[i as int]);
            return false;
        }
        i = i + 1;
    }
    assert(views(a@) =~= views(b@));
    true
}

impl Template {
    /// Renders a path of the tree as a template against the context.
    pub fn render_path(components: &Vec<String>, ctx: &RenderContext) -> (r: Result<String, Error>)
        ensures
            match rendered(path_text(components@), ctx@) {
                None => r matches Err(Error::Render { path: p, .. }) && p@ == path_text(components@),
                Some(t) => r matches Ok(s) && s@ == t,
            },
    {
        let source = path_to_string(components);
        match template_render(source.as_str(), ctx) {
            Ok(s) => Ok(s),
            Err(message) => Err(Error::Render { path: source, message }),
        }
    }

    /// Renders a text file of the tree against the context.
    pub fn render_template(components: &Vec<String>, source: &String, ctx: &RenderContext) -> (r: Result<String, Error>)
        ensures
            match rendered(source@, ctx@) {
                None => r matches Err(Error::Render { path: p, .. }) && p@ == path_text(components@),
                Some(t) => r matches Ok(s) && s@ == t,
            },
    {
        match template_render(source.as_str(), ctx) {
            Ok(s) => Ok(s),
            Err(message) => Err(Error::Render { path: path_to_string(components), message }),
        }
    }

    /// Stages the tree against a resolved context: by ascending depth, each
    /// directory at its rendered path, each copied file byte for byte and
    /// each other file rendered; the base entry's rendered path becomes the
    /// basename.
    pub fn generate(&self, ctx: &RenderContext) -> (r: Result<Output, Error>)
        ensures
            r is Ok <==> stages(entry_views(self.entries@), ctx@) && has_base(entry_views(self.entries@), self.base@),
            r matches Ok(o) ==> generated(entry_views(self.entries@), self.base@, ctx@, o@),
            r matches Err(e) ==> generate_error(entry_views(self.entries@), ctx@, e),
    {
        let ghost es = entry_views(self.entries@);
        let ghost cv = ctx@;
        let mut staged: Vec<StagedEntry> = Vec::new();
        let mut basename: Option<String> = None;
        let mut i: usize = 0;
        while i < self.entries.len()
            invariant
                i <= self.entries.len(),
                es == entry_views(self.entries@),
                cv == ctx@,
                forall|j: int| 0 <= j < i ==> (#[trigger] staged_of(es[j], cv)) is Some,
                staged@.map_values(|e: StagedEntry| (e.path@, staged_view(e.kind))) == staged_all(es.take(i as int), cv),
                match basename {
                    None => forall|j: int| 0 <= j < i ==> views(es[j].0) != views(self.base@),
                    Some(b) => exists|k: int| k < i && first_base(es, self.base@, k) && b@ == (staged_of(es[k], cv)->0).0,
                },
            decreases self.entries.len() - i,
        {
            let e = &self.entries[i];
            assert(es[i as int] == entry_view(*e));
            let path = match Template::render_path(&e.components, ctx) {
                Ok(p) => p,
                Err(err) => {
                    assert(first_unstaged(es, cv, i as int));
                    return Err(err);
                },
            };
            let kind = match &e.kind {
                EntryKind::Directory => StagedKind::Directory,
                EntryKind::Copy(b) => {
                    let c = b.clone();
                    assert(c@ =~= b@);
                    StagedKind::Bytes(c)
                },
                EntryKind::Render(t) => match Template::render_template(&e.components, t, ctx) {
                    Ok(text) => StagedKind::Text(text),
                    Err(err) => {
                        assert(first_unstaged(es, cv, i as int));
                        return Err(err);
                    },
                },
            };
            let is_base = same_components(&e.components, &self.base);
            assert(is_base == (views(es[i as int].0) == views(self.base@)));
            let ghost was_none = basename is None;
            if basename.is_none() && is_base {
                basename = Some(path.clone());
                assert(first_base(es, self.base@, i as int));
            }
            let ghost prev = staged@;
            let entry = StagedEntry { path, kind };
            assert((entry.path@, staged_view(entry.kind)) == staged_of(es[i as int], cv)->0);
            staged.push(entry);
            assert(staged@.map_values(|e: StagedEntry| (e.path@, staged_view(e.kind))) =~= prev.map_values(|e: StagedEntry| (e.path@, staged_view(e.kind))).push((entry.path@, staged_view(entry.kind))));
            assert(es.take(i + 1) =~= es.take(i as int).push(es[i as int]));
            assert(staged_all(es.take(i + 1), cv) =~= staged_all(es.take(i as int), cv).push(staged_of(es[i as int], cv)->0));
            proof {
                if was_none && is_base {
                    assert(basename->0@ == (staged_of(es[i as int], cv)->0).0);
                    assert(first_base(es, self.base@, i as int));
                }
                if basename is None {
                    assert(!is_base);
                    assert forall|j: int| 0 <= j < i + 1 implies views(es[j].0) != views(self.base@) by {
                        if j == i {
                            assert(!is_base);
                        }
                    }
                }
            }
            i = i + 1;
        }
        assert(es.take(self.entries.len() as int) =~= es);
        match basename {
            Some(b) => {
                let out = Output::new(b, staged);
                Ok(out)
            },
            None => Err(Error::MissingBasename),
        }
    }
}

/// Whether a variable is in scope against a context: `None` where its
/// condition fails to evaluate.
pub open spec fn scope_of(v: Variable, ctx: Seq<(Seq<char>, ContextValue)>) -> Option<bool> {
    match v.condition {
        None => Some(true),
        Some(c) => expression_truth(c@, ctx),
    }
}

impl Template {
    /// The next variable to resolve, from position `from` on: the first
    /// whose condition holds against the variables resolved so far. The
    /// variables passed over are out of scope and stay absent from the
    /// context.
    pub fn next_in_scope(&self, ctx: &RenderContext, from: usize) -> (r: Result<Option<usize>, Error>)
        ensures
            match r {
                Ok(Some(k)) => from <= k < variable_entries(self.variables).len() && scope_of(
                    variable_entries(self.variables)[k as int].1,
                    ctx@,
                ) == Some(true) && forall|j: int| from <= j < k ==> scope_of(
                    #[trigger] variable_entries(self.variables)[j].1,
                    ctx@,
                ) == Some(false),
                Ok(None) => forall|j: int| from <= j < variable_entries(self.variables).len() ==> scope_of(
                    #[trigger] variable_entries(self.variables)[j].1,
                    ctx@,
                ) == Some(false),
                Err(e) => exists|k: int| from <= k < variable_entries(self.variables).len() && scope_of(variable_entries(self.variables)[k].1, ctx@) is None
                    && (forall|j: int| from <= j < k ==> scope_of(#[trigger] variable_entries(self.variables)[j].1, ctx@) == Some(false))
                    && (e matches Error::Evaluate { name, .. } && name@ == variable_entries(self.variables)[k].0),
            },
    {
        let n = variables_len(&self.variables);
        let mut i: usize = from;
        while i < n
            invariant
                from <= i,
                n == variable_entries(self.variables).len(),
                forall|j: int| from <= j < i ==> scope_of(#[trigger] variable_entries(self.variables)[j].1, ctx@) == Some(false),
            decreases n - i,
        {
            match variables_at(&self.variables, i) {
                Some((name, v)) => match v.in_scope(ctx) {
                    Ok(true) => {
                        return Ok(Some(i));
                    },
                    Ok(false) => {},
                    Err(message) => {
                        return Err(Error::Evaluate { name: name.clone(), message });
                    },
                },
                None => {},
            }
            i = i + 1;
        }
        Ok(None)
    }
}

impl Template {
    /// Binds the answer given for the variable at `index` in the context,
    /// where it satisfies the variable's kind and constraints; otherwise the
    /// context is left as it was.
    pub fn record(&self, ctx: &mut RenderContext, index: usize, value: ContextValue) -> (r: bool)
        ensures
            r == (index < variable_entries(self.variables).len() && satisfies(
                variable_entries(self.variables)[index as int].1.value,
                value,
            )),
            r ==> final(ctx)@ == bind(old(ctx)@, variable_entries(self.variables)[index as int].0, value),
            !r ==> final(ctx)@ == old(ctx)@,
    {
        match variables_at(&self.variables, index) {
            Some((name, v)) => {
                if v.accepts(&value) {
                    ctx.insert(name.clone(), value);
                    true
                } else {
                    false
                }
            },
            None => false,
        }
    }
}

/// Every entry lies at a depth of at most the largest depth.
proof fn lemma_max_depth(s: Seq<(Seq<String>, KindView)>)
    ensures
        max_depth(s) >= 0,
        forall|i: int| 0 <= i < s.len() ==> (#[trigger] s[i]).0.len() <= max_depth(s),
    decreases s.len(),
{
    if s.len() > 0 {
        lemma_max_depth(s.drop_last());
        assert forall|i: int| 0 <= i < s.len() implies (#[trigger] s[i]).0.len() <= max_depth(s) by {
            if i < s.len() - 1 {
                assert(s[i] == s.drop_last()[i]);
            }
        }
    }
}

/// The entries of depth at most `d` are those of `s` with such a depth.
proof fn lemma_layers_contains(s: Seq<(Seq<String>, KindView)>, d: int, x: (Seq<String>, KindView))
    ensures
        layers(s, d).contains(x) <==> (s.contains(x) && x.0.len() <= d),
    decreases d + 1,
{
    if d >= 0 {
        lemma_layers_contains(s, d - 1, x);
        let f = s.filter(at_depth(d));
        let l = layers(s, d - 1);
        if f.contains(x) {
            s.lemma_filter_contains_rev(at_depth(d), x);
        }
        if s.contains(x) && x.0.len() == d {
            let i = choose|i: int| 0 <= i < s.len() && s[i] == x;
            s.lemma_filter_contains(at_depth(d), i);
        }
        if layers(s, d).contains(x) {
            let i = choose|i: int| 0 <= i < layers(s, d).len() && layers(s, d)[i] == x;
            if i < l.len() {
                assert(l[i] == x);
            } else {
                assert(f[i - l.len()] == x);
            }
        }
        if l.contains(x) {
            let i = choose|i: int| 0 <= i < l.len() && l[i] == x;
            assert(layers(s, d)[i] == x);
        }
        if f.contains(x) {
            let i = choose|i: int| 0 <= i < f.len() && f[i] == x;
            assert(layers(s, d)[l.len() + i] == x);
        }
    }
}

/// Ordering by depth keeps exactly the entries it is given.
pub proof fn lemma_depth_ordered_contains(s: Seq<(Seq<String>, KindView)>, x: (Seq<String>, KindView))
    ensures
        depth_ordered(s).contains(x) <==> s.contains(x),
{
    lemma_max_depth(s);
    lemma_layers_contains(s, max_depth(s), x);
    if s.contains(x) {
        let i = choose|i: int| 0 <= i < s.len() && s[i] == x;
        assert(s[i].0.len() <= max_depth(s));
    }
}

/// Ordering by depth puts no entry before one of smaller depth.
pub proof fn lemma_depth_ordered_ascending(s: Seq<(Seq<String>, KindView)>, i: int, j: int)
    requires
        0 <= i < j < depth_ordered(s).len(),
    ensures
        depth_ordered(s)[i].0.len() <= depth_ordered(s)[j].0.len(),
{
    lemma_layers_ascending(s, max_depth(s), i, j);
}

proof fn lemma_layers_ascending(s: Seq<(Seq<String>, KindView)>, d: int, i: int, j: int)
    requires
        0 <= i < j < layers(s, d).len(),
    ensures
        layers(s, d)[i].0.len() <= layers(s, d)[j].0.len(),
    decreases d + 1,
{
    if d >= 0 {
        let l = layers(s, d - 1);
        let f = s.filter(at_depth(d));
        if j < l.len() {
            lemma_layers_ascending(s, d - 1, i, j);
        } else {
            assert(layers(s, d)[j] == f[j - l.len()]);
            assert(f.contains(f[j - l.len()]));
            s.lemma_filter_contains_rev(at_depth(d), f[j - l.len()]);
            if i < l.len() {
                assert(l.contains(l[i]));
                lemma_layers_contains(s, d - 1, l[i]);
            } else {
                assert(f.contains(f[i - l.len()]));
                s.lemma_filter_contains_rev(at_depth(d), f[i - l.len()]);
            }
        }
    }
}

/// Where every entry stages, the rendered paths of the staged tree are
/// exactly the renderings of the paths of the entries that no exclude
/// pattern matches.
pub proof fn lemma_staged_paths(
    found: Seq<Discovered>,
    copy: Seq<Seq<char>>,
    exclude: Seq<Seq<char>>,
    ctx: Seq<(Seq<char>, ContextValue)>,
    p: Seq<char>,
)
    requires
        tree_valid(found, copy, exclude),
        stages(depth_ordered(built(found, copy, exclude)), ctx),
    ensures
        (exists|i: int| 0 <= i < depth_ordered(built(found, copy, exclude)).len()
            && staged_all(depth_ordered(built(found, copy, exclude)), ctx)[i].0 == p) <==> (exists|j: int|
            0 <= j < kept(found, exclude).len() && rendered(path_text(kept(found, exclude)[j].components@), ctx)
                == Some(p)),
{
    let b = built(found, copy, exclude);
    let o = depth_ordered(b);
    let k = kept(found, exclude);
    if exists|i: int| 0 <= i < o.len() && staged_all(o, ctx)[i].0 == p {
        let i = choose|i: int| 0 <= i < o.len() && staged_all(o, ctx)[i].0 == p;
        assert(staged_of(o[i], ctx) is Some);
        assert(o.contains(o[i]));
        lemma_depth_ordered_contains(b, o[i]);
        let j = choose|j: int| 0 <= j < b.len() && b[j] == o[i];
        assert(b[j].0 == k[j].components@);
    }
    if exists|j: int| 0 <= j < k.len() && rendered(path_text(k[j].components@), ctx) == Some(p) {
        let j = choose|j: int| 0 <= j < k.len() && rendered(path_text(k[j].components@), ctx) == Some(p);
        assert(b[j].0 == k[j].components@);
        assert(b.contains(b[j]));
        lemma_depth_ordered_contains(b, b[j]);
        let i = choose|i: int| 0 <= i < o.len() && o[i] == b[j];
        assert(staged_of(o[i], ctx) is Some);
        assert(staged_all(o, ctx)[i].0 == p);
    }
}

/// Staging the same entries against the same context twice gives the same
/// output.
pub proof fn lemma_generate_idempotent(
    es: Seq<(Seq<String>, KindView)>,
    base: Seq<String>,
    ctx: Seq<(Seq<char>, ContextValue)>,
    o1: (Seq<char>, Seq<(Seq<char>, StagedView)>),
    o2: (Seq<char>, Seq<(Seq<char>, StagedView)>),
)
    requires
        generated(es, base, ctx, o1),
        generated(es, base, ctx, o2),
    ensures
        o1 == o2,
{
    let k1 = choose|k: int| first_base(es, base, k) && o1.0 == staged_all(es, ctx)[k].0;
    let k2 = choose|k: int| first_base(es, base, k) && o2.0 == staged_all(es, ctx)[k].0;
    if k1 < k2 {
        assert(views(es[k1].0) != views(base));
    } else if k2 < k1 {
        assert(views(es[k2].0) != views(base));
    }
}

/// Exclude beats copy beats render: an entry that an exclude pattern
/// matches makes no entry; a kept file holding a zero byte or matched by a
/// copy pattern is copied byte for byte; any other kept file is rendered.
pub proof fn lemma_exclude_copy_render(
    found: Seq<Discovered>,
    copy: Seq<Seq<char>>,
    exclude: Seq<Seq<char>>,
    d: Discovered,
)
    requires
        tree_valid(found, copy, exclude),
    ensures
        kept(found, exclude).contains(d) <==> found.contains(d) && !excluded(d, exclude),
        forall|j: int| 0 <= j < kept(found, exclude).len() && !kept(found, exclude)[j].is_dir && (has_nul(
            kept(found, exclude)[j].contents@,
        ) || any_glob_match(copy, path_text(kept(found, exclude)[j].components@))) ==> (
        #[trigger] built(found, copy, exclude)[j]).1 == KindView::Copy(kept(found, exclude)[j].contents@),
        forall|j: int| 0 <= j < kept(found, exclude).len() && !kept(found, exclude)[j].is_dir && !has_nul(
            kept(found, exclude)[j].contents@,
        ) && !any_glob_match(copy, path_text(kept(found, exclude)[j].components@)) ==> (
        #[trigger] built(found, copy, exclude)[j]).1 is Render,
{
    let k = kept(found, exclude);
    if k.contains(d) {
        found.lemma_filter_contains_rev(survives(exclude), d);
    }
    if found.contains(d) && !excluded(d, exclude) {
        let i = choose|i: int| 0 <= i < found.len() && found[i] == d;
        found.lemma_filter_contains(survives(exclude), i);
    }
    assert forall|j: int| 0 <= j < k.len() implies kind_of(#[trigger] k[j], copy) is Some by {}
}

/// Each staged entry comes from a kept entry: an entry an exclude pattern
/// matches stages nothing.
pub proof fn lemma_staged_from_kept(
    found: Seq<Discovered>,
    copy: Seq<Seq<char>>,
    exclude: Seq<Seq<char>>,
    ctx: Seq<(Seq<char>, ContextValue)>,
    i: int,
)
    requires
        tree_valid(found, copy, exclude),
        stages(depth_ordered(built(found, copy, exclude)), ctx),
        0 <= i < depth_ordered(built(found, copy, exclude)).len(),
    ensures
        exists|j: int|
            0 <= j < kept(found, exclude).len() && staged_all(depth_ordered(built(found, copy, exclude)), ctx)[i]
                == staged_of(#[trigger] built(found, copy, exclude)[j], ctx)->0,
{
    let b = built(found, copy, exclude);
    let o = depth_ordered(b);
    assert(o.contains(o[i]));
    lemma_depth_ordered_contains(b, o[i]);
    let j = choose|j: int| 0 <= j < b.len() && b[j] == o[i];
    assert(staged_all(o, ctx)[i] == staged_of(b[j], ctx)->0);
}

/// A kept entry is staged somewhere, as what it stages.
proof fn lemma_kept_staged(
    found: Seq<Discovered>,
    copy: Seq<Seq<char>>,
    exclude: Seq<Seq<char>>,
    ctx: Seq<(Seq<char>, ContextValue)>,
    j: int,
) -> (i: int)
    requires
        stages(depth_ordered(built(found, copy, exclude)), ctx),
        0 <= j < kept(found, exclude).len(),
    ensures
        0 <= i < depth_ordered(built(found, copy, exclude)).len(),
        staged_of(built(found, copy, exclude)[j], ctx) is Some,
        staged_all(depth_ordered(built(found, copy, exclude)), ctx)[i] == staged_of(
            built(found, copy, exclude)[j],
            ctx,
        )->0,
{
    let b = built(found, copy, exclude);
    let o = depth_ordered(b);
    assert(b.contains(b[j]));
    lemma_depth_ordered_contains(b, b[j]);
    let i = choose|i: int| 0 <= i < o.len() && o[i] == b[j];
    assert(staged_of(o[i], ctx) is Some);
    i
}

/// A kept file holding a zero byte or matched by a copy pattern is staged
/// at its rendered path with its bytes unchanged.
pub proof fn lemma_copied_staged(
    found: Seq<Discovered>,
    copy: Seq<Seq<char>>,
    exclude: Seq<Seq<char>>,
    ctx: Seq<(Seq<char>, ContextValue)>,
    j: int,
)
    requires
        tree_valid(found, copy, exclude),
        stages(depth_ordered(built(found, copy, exclude)), ctx),
        0 <= j < kept(found, exclude).len(),
        !kept(found, exclude)[j].is_dir,
        has_nul(kept(found, exclude)[j].contents@) || any_glob_match(
            copy,
            path_text(kept(found, exclude)[j].components@),
        ),
    ensures
        exists|i: int|
            0 <= i < depth_ordered(built(found, copy, exclude)).len() && #[trigger] staged_all(
                depth_ordered(built(found, copy, exclude)),
                ctx,
            )[i] == (
                rendered(path_text(kept(found, exclude)[j].components@), ctx)->0,
                StagedView::Bytes(kept(found, exclude)[j].contents@),
            ),
{
    let k = kept(found, exclude);
    let b = built(found, copy, exclude);
    assert(b[j] == (k[j].components@, KindView::Copy(k[j].contents@)));
    let i = lemma_kept_staged(found, copy, exclude, ctx, j);
}

/// Any other kept file is staged at its rendered path with its text
/// rendered.
pub proof fn lemma_rendered_staged(
    found: Seq<Discovered>,
    copy: Seq<Seq<char>>,
    exclude: Seq<Seq<char>>,
    ctx: Seq<(Seq<char>, ContextValue)>,
    j: int,
)
    requires
        tree_valid(found, copy, exclude),
        stages(depth_ordered(built(found, copy, exclude)), ctx),
        0 <= j < kept(found, exclude).len(),
        !kept(found, exclude)[j].is_dir,
        !has_nul(kept(found, exclude)[j].contents@),
        !any_glob_match(copy, path_text(kept(found, exclude)[j].components@)),
    ensures
        exists|i: int|
            0 <= i < depth_ordered(built(found, copy, exclude)).len() && #[trigger] staged_all(
                depth_ordered(built(found, copy, exclude)),
                ctx,
            )[i] == (
                rendered(path_text(kept(found, exclude)[j].components@), ctx)->0,
                StagedView::Text(rendered(decode_utf8(kept(found, exclude)[j].contents@), ctx)->0),
            ),
{
    let k = kept(found, exclude);
    let b = built(found, copy, exclude);
    assert(kind_of(k[j], copy) is Some);
    assert(b[j] == (k[j].components@, KindView::Render(decode_utf8(k[j].contents@))));
    let i = lemma_kept_staged(found, copy, exclude, ctx, j);
}

} // verus!
