//! Template metadata: the reserved keys of a definition.
use vstd::prelude::*;
use vstd::string::*;
use crate::definition::{find_key, first_value, RawField, RawItem};
use crate::error::Error;
use crate::path::same_text;
use crate::trusted::{glob_compile, glob_is_match, glob_match, glob_valid, regex_compile, regex_is_match, regex_match, regex_valid};

verus! {

pub const NAME_KEY: &'static str = "__name__";
pub const AUTHOR_KEY: &'static str = "__author__";
pub const URL_KEY: &'static str = "__url__";
pub const DESCRIPTION_KEY: &'static str = "__description__";
pub const BASE_KEY: &'static str = "__base__";
pub const COPY_KEY: &'static str = "__copy__";
pub const EXCLUDE_KEY: &'static str = "__exclude__";

/// The shape a url must have somewhere in it.
pub const URL_PATTERN: &'static str = "https?:\\/\\/(www\\.)?[-a-zA-Z0-9@:%._\\+~#=]{1,256}\\.[a-zA-Z0-9()]{1,6}\\b([-a-zA-Z0-9()@:%_\\+.~#?&//=]*)";

/// Whether `text` has the shape of a url.
pub open spec fn url_shaped(text: Seq<char>) -> bool {
    regex_valid(URL_PATTERN@) && regex_match(URL_PATTERN@, text)
}

/// A url.
#[derive(Debug)]
pub struct Url {
    value: String,
}

impl View for Url {
    type V = Seq<char>;

    closed spec fn view(&self) -> Seq<char> {
        self.value@
    }
}

impl Url {
    /// Takes `value` where it has the shape of a url; otherwise fails with a
    /// message that quotes it.
    pub fn try_from(value: String) -> (r: Result<Url, String>)
        ensures
            r is Ok <==> url_shaped(value@),
            r matches Ok(u) ==> u@ == value@,
            r matches Err(m) ==> m@ == "invalid url: '"@ + value@ + "'"@,
    {
        let shaped = match regex_compile(URL_PATTERN) {
            Ok(()) => regex_is_match(URL_PATTERN, value.as_str()),
            Err(_) => false,
        };
        if shaped {
            Ok(Url { value })
        } else {
            let mut m = String::from_str("invalid url: '");
            m.append(value.as_str());
            m.append("'");
            Err(m)
        }
    }

    /// The url's text.
    pub fn as_str(&self) -> (r: &str)
        ensures
            r@ == self@,
    {
        self.value.as_str()
    }
}

/// Whether some pattern of `patterns` matches `path`.
pub open spec fn any_glob_match(patterns: Seq<Seq<char>>, path: Seq<char>) -> bool {
    exists|i: int| 0 <= i < patterns.len() && glob_match(patterns[i], path)
}

/// The first pattern of `patterns` that is no valid glob pattern.
pub open spec fn first_invalid_glob(patterns: Seq<Seq<char>>) -> Option<Seq<char>>
    decreases patterns.len(),
{
    if patterns.len() == 0 {
        None
    } else if !glob_valid(patterns[0]) {
        Some(patterns[0])
    } else {
        first_invalid_glob(patterns.drop_first())
    }
}

/// A set of glob patterns, matched against paths relative to the template
/// root.
#[derive(Debug)]
pub struct GlobPatterns {
    patterns: Vec<String>,
}

impl View for GlobPatterns {
    type V = Seq<Seq<char>>;

    closed spec fn view(&self) -> Seq<Seq<char>> {
        self.patterns@.map_values(|p: String| p@)
    }
}

impl GlobPatterns {
    #[verifier::type_invariant]
    spec fn compiles(&self) -> bool {
        forall|i: int| 0 <= i < self.patterns@.len() ==> glob_valid(#[trigger] self.patterns@[i]@)
    }

    /// No patterns.
    pub fn empty() -> (r: GlobPatterns)
        ensures
            r@.len() == 0,
    {
        GlobPatterns { patterns: Vec::new() }
    }

    /// Compiles each pattern; fails on the first that is no valid glob
    /// pattern.
    pub fn new(patterns: Vec<String>) -> (r: Result<GlobPatterns, Error>)
        ensures
            match first_invalid_glob(patterns@.map_values(|p: String| p@)) {
                Some(bad) => r matches Err(Error::InvalidGlob { pattern, .. }) && pattern@ == bad,
                None => r matches Ok(g) && g@ == patterns@.map_values(|p: String| p@),
            },
    {
        let ghost views = patterns@.map_values(|p: String| p@);
        let mut i: usize = 0;
        assert(views.subrange(0, views.len() as int) =~= views);
        while i < patterns.len()
            invariant
                i <= patterns.len(),
                views == patterns@.map_values(|p: String| p@),
                forall|j: int| 0 <= j < i ==> glob_valid(#[trigger] patterns@[j]@),
                first_invalid_glob(views) == first_invalid_glob(views.subrange(i as int, views.len() as int)),
            decreases patterns.len() - i,
        {
            let ghost rest = views.subrange(i as int, views.len() as int);
            assert(rest.drop_first() =~= views.subrange(i + 1, views.len() as int));
            assert(rest[0] == patterns@[i as int]@);
            match glob_compile(patterns[i].as_str()) {
                Ok(()) => {},
                Err(message) => {
                    return Err(Error::InvalidGlob { pattern: patterns[i].clone(), message });
                },
            }
            i = i + 1;
        }
        assert(views.subrange(i as int, views.len() as int).len() == 0);
        Ok(GlobPatterns { patterns })
    }

    /// Whether some pattern matches `path`.
    pub fn matches_path_any(&self, path: &str) -> (r: bool)
        ensures
            r == any_glob_match(self@, path@),
    {
        proof { use_type_invariant(self); }
        let mut i: usize = 0;
        while i < self.patterns.len()
            invariant
                i <= self.patterns.len(),
                forall|j: int| 0 <= j < self.patterns@.len() ==> glob_valid(#[trigger] self.patterns@[j]@),
                forall|j: int| 0 <= j < i ==> !glob_match(#[trigger] self@[j], path@),
            decreases self.patterns.len() - i,
        {
            assert(self@[i as int] == self.patterns@[i as int]@);
            if glob_is_match(self.patterns[i].as_str(), path) {
                return true;
            }
            i = i + 1;
        }
        false
    }
}

/// Whether `key` is written in the reserved form `__..__`.
pub open spec fn reserved_shape(key: Seq<char>) -> bool {
    key.len() >= 2 && key[0] == '_' && key[1] == '_' && key[key.len() - 2] == '_' && key[key.len()
        - 1] == '_'
}

/// Whether `key` names a metadata field.
pub open spec fn known_metadata(key: Seq<char>) -> bool {
    key == NAME_KEY@ || key == AUTHOR_KEY@ || key == URL_KEY@ || key == DESCRIPTION_KEY@ || key
        == BASE_KEY@ || key == COPY_KEY@ || key == EXCLUDE_KEY@
}

/// The first reserved key that names no metadata field.
pub open spec fn first_unknown_metadata(items: Seq<(String, RawItem)>) -> Option<Seq<char>>
    decreases items.len(),
{
    if items.len() == 0 {
        None
    } else if reserved_shape(items[0].0@) && !known_metadata(items[0].0@) {
        Some(items[0].0@)
    } else {
        first_unknown_metadata(items.drop_first())
    }
}

/// A text field: `None` where it holds another type, `Some(None)` where it
/// is absent.
pub open spec fn text_of(items: Seq<(String, RawItem)>, key: Seq<char>) -> Option<Option<Seq<char>>> {
    match first_value(items, key) {
        None => Some(None),
        Some(RawItem::Field(RawField::Str(s))) => Some(Some(s@)),
        _ => None,
    }
}

/// A list field: `None` where it holds another type, empty where it is
/// absent.
pub open spec fn list_of(items: Seq<(String, RawItem)>, key: Seq<char>) -> Option<Seq<Seq<char>>> {
    match first_value(items, key) {
        None => Some(Seq::empty()),
        Some(RawItem::Field(RawField::StrList(l))) => Some(l@.map_values(|p: String| p@)),
        _ => None,
    }
}

/// What is wrong with the metadata of a definition.
pub enum MetadataFault {
    /// A reserved key that names no field.
    Unknown(Seq<char>),
    /// A required field that is absent.
    Missing(Seq<char>),
    /// A field of the wrong type.
    Invalid(Seq<char>),
    /// A url without the shape of one.
    BadUrl(Seq<char>),
    /// A glob pattern that does not compile.
    BadGlob(Seq<char>),
}

/// The first fault of the metadata in a definition, in the order the
/// fields are read.
pub open spec fn metadata_fault(items: Seq<(String, RawItem)>) -> Option<MetadataFault> {
    if first_unknown_metadata(items) is Some {
        Some(MetadataFault::Unknown(first_unknown_metadata(items)->0))
    } else if text_of(items, NAME_KEY@) is None {
        Some(MetadataFault::Invalid(NAME_KEY@))
    } else if text_of(items, NAME_KEY@) == Some(None::<Seq<char>>) {
        Some(MetadataFault::Missing(NAME_KEY@))
    } else if text_of(items, AUTHOR_KEY@) is None {
        Some(MetadataFault::Invalid(AUTHOR_KEY@))
    } else if text_of(items, AUTHOR_KEY@) == Some(None::<Seq<char>>) {
        Some(MetadataFault::Missing(AUTHOR_KEY@))
    } else if text_of(items, URL_KEY@) is None {
        Some(MetadataFault::Invalid(URL_KEY@))
    } else if text_of(items, URL_KEY@) matches Some(Some(u)) && !url_shaped(u) {
        Some(MetadataFault::BadUrl(text_of(items, URL_KEY@)->0->0))
    } else if text_of(items, DESCRIPTION_KEY@) is None {
        Some(MetadataFault::Invalid(DESCRIPTION_KEY@))
    } else if text_of(items, BASE_KEY@) is None {
        Some(MetadataFault::Invalid(BASE_KEY@))
    } else if list_of(items, COPY_KEY@) is None {
        Some(MetadataFault::Invalid(COPY_KEY@))
    } else if first_invalid_glob(list_of(items, COPY_KEY@)->0) is Some {
        Some(MetadataFault::BadGlob(first_invalid_glob(list_of(items, COPY_KEY@)->0)->0))
    } else if list_of(items, EXCLUDE_KEY@) is None {
        Some(MetadataFault::Invalid(EXCLUDE_KEY@))
    } else if first_invalid_glob(list_of(items, EXCLUDE_KEY@)->0) is Some {
        Some(MetadataFault::BadGlob(first_invalid_glob(list_of(items, EXCLUDE_KEY@)->0)->0))
    } else {
        None
    }
}

/// The metadata fault an error reports, if it reports one.
pub open spec fn fault_of(e: Error) -> Option<MetadataFault> {
    match e {
        Error::UnknownMetadata { key } => Some(MetadataFault::Unknown(key@)),
        Error::MissingMetadata { key } => Some(MetadataFault::Missing(key@)),
        Error::InvalidMetadata { key } => Some(MetadataFault::Invalid(key@)),
        Error::InvalidUrl { url } => Some(MetadataFault::BadUrl(url@)),
        Error::InvalidGlob { pattern, .. } => Some(MetadataFault::BadGlob(pattern@)),
        _ => None,
    }
}

/// The view of an optional text.
pub open spec fn opt_view(o: Option<String>) -> Option<Seq<char>> {
    match o {
        Some(s) => Some(s@),
        None => None,
    }
}

/// Whether `key` is written in the reserved form `__..__`.
pub fn is_reserved(key: &str) -> (r: bool)
    ensures
        r == reserved_shape(key@),
{
    let n = key.unicode_len();
    n >= 2 && key.get_char(0) == '_' && key.get_char(1) == '_' && key.get_char(n - 2) == '_'
        && key.get_char(n - 1) == '_'
}

/// Whether `key` names a metadata field.
fn is_known(key: &str) -> (r: bool)
    ensures
        r == known_metadata(key@),
{
    same_text(key, NAME_KEY) || same_text(key, AUTHOR_KEY) || same_text(key, URL_KEY)
        || same_text(key, DESCRIPTION_KEY) || same_text(key, BASE_KEY) || same_text(key, COPY_KEY)
        || same_text(key, EXCLUDE_KEY)
}

/// Reads a text field.
fn text_field(items: &Vec<(String, RawItem)>, key: &str) -> (r: Result<Option<String>, Error>)
    ensures
        match text_of(items@, key@) {
            None => r matches Err(Error::InvalidMetadata { key: k }) && k@ == key@,
            Some(o) => r matches Ok(x) && opt_view(x) == o,
        },
{
    match find_key(items, key) {
        None => Ok(None),
        Some(i) => match &items[i].1 {
            RawItem::Field(RawField::Str(s)) => Ok(Some(s.clone())),
            _ => Err(Error::InvalidMetadata { key: key.to_string() }),
        },
    }
}

/// Reads a list field.
fn list_field(items: &Vec<(String, RawItem)>, key: &str) -> (r: Result<Vec<String>, Error>)
    ensures
        match list_of(items@, key@) {
            None => r matches Err(Error::InvalidMetadata { key: k }) && k@ == key@,
            Some(l) => r matches Ok(x) && x@.map_values(|p: String| p@) == l,
        },
{
    match find_key(items, key) {
        None => {
            let v: Vec<String> = Vec::new();
            assert(v@.map_values(|p: String| p@) =~= Seq::<Seq<char>>::empty());
            Ok(v)
        },
        Some(i) => match &items[i].1 {
            RawItem::Field(RawField::StrList(l)) => Ok(l.clone()),
            _ => Err(Error::InvalidMetadata { key: key.to_string() }),
        },
    }
}

/// The text of the base path a definition gives; empty where it gives none.
pub open spec fn base_text(items: Seq<(String, RawItem)>) -> Seq<char> {
    match text_of(items, BASE_KEY@) {
        Some(Some(b)) => b,
        _ => Seq::<char>::empty(),
    }
}

/// Whether `m` holds the metadata fields a definition gives.
pub open spec fn metadata_read(items: Seq<(String, RawItem)>, m: Metadata) -> bool {
    &&& text_of(items, NAME_KEY@) == Some(Some(m.name@))
    &&& text_of(items, AUTHOR_KEY@) == Some(Some(m.author@))
    &&& text_of(items, URL_KEY@) == Some(
        match m.url {
            Some(u) => Some(u@),
            None => None::<Seq<char>>,
        },
    )
    &&& text_of(items, DESCRIPTION_KEY@) == Some(opt_view(m.description))
    &&& text_of(items, BASE_KEY@) == Some(Some(m.base@)) || (text_of(items, BASE_KEY@) == Some(
        None::<Seq<char>>,
    ) && m.base@.len() == 0)
    &&& m.base@ == base_text(items)
    &&& list_of(items, COPY_KEY@) == Some(m.copy@)
    &&& list_of(items, EXCLUDE_KEY@) == Some(m.exclude@)
}

/// The metadata of a template.
#[derive(Debug)]
pub struct Metadata {
    pub name: String,
    pub author: String,
    pub url: Option<Url>,
    pub description: Option<String>,
    /// The base path, relative to the template root; empty for the root.
    pub base: String,
    /// Paths copied verbatim.
    pub copy: GlobPatterns,
    /// Paths left out.
    pub exclude: GlobPatterns,
}

impl Metadata {
    /// Reads the reserved keys of a definition; the other keys are left to
    /// the variables.
    pub fn from_definition(items: &Vec<(String, RawItem)>) -> (r: Result<Metadata, Error>)
        ensures
            match metadata_fault(items@) {
                Some(f) => r matches Err(e) && fault_of(e) == Some(f),
                None => r matches Ok(m) && metadata_read(items@, m),
            },
    {
        let mut i: usize = 0;
        assert(items@.subrange(0, items@.len() as int) =~= items@);
        while i < items.len()
            invariant
                i <= items.len(),
                first_unknown_metadata(items@) == first_unknown_metadata(
                    items@.subrange(i as int, items@.len() as int),
                ),
            decreases items.len() - i,
        {
            let ghost rest = items@.subrange(i as int, items@.len() as int);
            assert(rest.drop_first() =~= items@.subrange(i + 1, items@.len() as int));
            if is_reserved(items[i].0.as_str()) && !is_known(items[i].0.as_str()) {
                return Err(Error::UnknownMetadata { key: items[i].0.clone() });
            }
            i = i + 1;
        }
        assert(items@.subrange(i as int, items@.len() as int).len() == 0);
        let name = match text_field(items, NAME_KEY)? {
            Some(n) => n,
            None => {
                return Err(Error::MissingMetadata { key: NAME_KEY.to_string() });
            },
        };
        let author = match text_field(items, AUTHOR_KEY)? {
            Some(a) => a,
            None => {
                return Err(Error::MissingMetadata { key: AUTHOR_KEY.to_string() });
            },
        };
        let url = match text_field(items, URL_KEY)? {
            Some(u) => match Url::try_from(u.clone()) {
                Ok(url) => Some(url),
                Err(_) => {
                    return Err(Error::InvalidUrl { url: u });
                },
            },
            None => None,
        };
        let description = text_field(items, DESCRIPTION_KEY)?;
        let base = match text_field(items, BASE_KEY)? {
            Some(b) => b,
            None => String::new(),
        };
        let copy = GlobPatterns::new(list_field(items, COPY_KEY)?)?;
        let exclude = GlobPatterns::new(list_field(items, EXCLUDE_KEY)?)?;
        Ok(Metadata { name, author, url, description, base, copy, exclude })
    }
}

} // verus!
