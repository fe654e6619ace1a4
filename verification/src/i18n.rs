//! The choice of locale for the user interface, the rule for a missing translation,
//! and the checks made while the translation files (`<locale>.ftl`) are loaded. The
//! caller reads the files and formats the messages with Fluent bundles.
use vstd::prelude::*;
use crate::map::definition::strings_view;
use crate::text::{chars_of, same_chars};
use crate::vfs::{contains_dotdot, has_parent_component, text_contains_dotdot};
use fluent::FluentResource;
use unic_langid::LanguageIdentifier;

verus! {

/// The locales whose translations were read, and the one in use.
pub struct I18n {
    /// The names of the locales read, such as `ja-JP`.
    locales: Vec<String>,
    /// The locale in use.
    current_locale: String,
}

impl I18n {
    /// The names of the locales read.
    pub closed spec fn available(&self) -> Seq<Seq<char>> {
        strings_view(self.locales@)
    }

    /// The locale in use.
    pub closed spec fn current(&self) -> Seq<char> {
        self.current_locale@
    }

    /// No translations, with `default_locale` in use.
    pub fn empty(default_locale: &str) -> (r: Self)
        ensures
            r.available().len() == 0,
            r.current() == default_locale@,
    {
        let r = I18n { locales: Vec::new(), current_locale: default_locale.to_owned() };
        assert(r.available() =~= Seq::<Seq<char>>::empty());
        r
    }

    /// The translations of `locales` were read; `default_locale` is in use.
    pub fn with_locales(locales: Vec<String>, default_locale: &str) -> (r: Self)
        ensures
            r.available() == strings_view(locales@),
            r.current() == default_locale@,
    {
        I18n { locales, current_locale: default_locale.to_owned() }
    }

    /// Switches to `locale` when its translations were read; otherwise keeps the
    /// locale in use.
    pub fn set_locale(&mut self, locale: &str)
        ensures
            final(self).available() == old(self).available(),
            final(self).current() == if old(self).available().contains(locale@) {
                locale@
            } else {
                old(self).current()
            },
    {
        let wanted = chars_of(locale);
        let n = self.locales.len();
        for i in 0..n
            invariant
                n == self.locales@.len(),
                wanted@ == locale@,
                self.available() == old(self).available(),
                self.current() == old(self).current(),
                self.locales@.len() == self.available().len(),
                forall|j: int| 0 <= j < i ==> self.available()[j] != locale@,
        {
            let name = chars_of(self.locales[i].as_str());
            if same_chars(name.as_slice(), wanted.as_slice()) {
                assert(self.available()[i as int] == locale@);
                assert(old(self).available().contains(locale@));
                self.current_locale = locale.to_owned();
                return;
            }
        }
        assert(!self.available().contains(locale@)) by {
            if self.available().contains(locale@) {
                let j = choose|j: int| 0 <= j < self.available().len() && self.available()[j] == locale@;
                assert(self.available()[j] != locale@);
            }
        }
    }

    /// The locale in use.
    pub fn locale(&self) -> (r: &str)
        ensures
            r@ == self.current(),
    {
        self.current_locale.as_str()
    }

    /// The text shown for `key`: its translation in the locale in use, `found`, when
    /// there is one; otherwise the key itself.
    pub fn tr(&self, key: &str, found: Option<String>) -> (r: String)
        ensures
            r@ == match found {
                Some(t) => t@,
                None => key@,
            },
    {
        match found {
            Some(t) => t,
            None => key.to_owned(),
        }
    }
}

/// `fluent::FluentResource`, a parsed Fluent file, carried through as it is.
#[verifier::external_type_specification]
#[verifier::external_body]
pub struct ExFluentResource(FluentResource);

/// `unic_langid::LanguageIdentifier`, a parsed locale name, carried through as it is.
#[verifier::external_type_specification]
#[verifier::external_body]
pub struct ExLanguageIdentifier(LanguageIdentifier);

/// Whether Fluent reads the text `source` without a syntax error.
pub uninterp spec fn ftl_parses(source: Seq<char>) -> bool;

/// Whether `name` is a well-formed locale name (a Unicode language identifier).
pub uninterp spec fn langid_parses(name: Seq<char>) -> bool;

/// Parses a Fluent file; calls `FluentResource::try_new`. Claimed: a resource exactly
/// when the text parses without an error (the resource read despite errors is dropped).
#[verifier::external_body]
fn parse_ftl(source: String) -> (r: Option<FluentResource>)
    ensures
        r is Some == ftl_parses(source@),
{
    FluentResource::try_new(source).ok()
}

/// Parses a locale name; calls `LanguageIdentifier`'s `FromStr`. Claimed: an
/// identifier exactly when the name is well formed.
#[verifier::external_body]
fn parse_langid(name: &str) -> (r: Option<LanguageIdentifier>)
    ensures
        r is Some == langid_parses(name@),
{
    name.parse::<LanguageIdentifier>().ok()
}

/// Whether the assets directory `path` may be read: its text holds no `..` and it has
/// no `..` component (guarding against path traversal).
pub fn assets_dir_is_safe(path: &str) -> (r: bool)
    ensures
        r == !contains_dotdot(path@),
{
    !text_contains_dotdot(path) && !has_parent_component(path)
}

/// A translation file as the caller found it in the assets directory.
pub struct LocaleFile {
    /// The file name without `.ftl`: the locale's name.
    pub stem: String,
    /// Whether the file's canonical path lies inside the canonical assets directory.
    pub inside_dir: bool,
    /// The text of the file (empty when it is not inside the directory, as it is not read).
    pub source: String,
}

/// A translation file read: its locale's name, parsed resource and language.
pub struct LocaleResource {
    pub name: String,
    pub resource: FluentResource,
    pub language: LanguageIdentifier,
}

/// Why the translations could not be loaded.
#[derive(Debug, Clone, Copy, PartialEq, Eq, Structural)]
pub enum I18nError {
    /// A translation file lies outside the assets directory.
    OutsideDirectory { index: usize },
    /// The translation file at `index` is not valid Fluent.
    InvalidFtl { index: usize },
    /// The name of the translation file at `index` is not a locale name.
    InvalidLocaleName { index: usize },
}

/// Whether the translation file `f` loads: it lies inside the directory, its text is
/// valid Fluent and its name is a locale name.
pub open spec fn file_loads(f: LocaleFile) -> bool {
    f.inside_dir && ftl_parses(f.source@) && langid_parses(f.stem@)
}

/// The error the translation file `f`, at `index`, is refused with, checked in that order.
pub open spec fn file_error(f: LocaleFile, index: usize) -> I18nError {
    if !f.inside_dir {
        I18nError::OutsideDirectory { index }
    } else if !ftl_parses(f.source@) {
        I18nError::InvalidFtl { index }
    } else {
        I18nError::InvalidLocaleName { index }
    }
}

/// The locale names of `files`, in order.
pub open spec fn stems(files: Seq<LocaleFile>) -> Seq<Seq<char>> {
    files.map_values(|f: LocaleFile| f.stem@)
}

/// Loads the translation files `files`, in order: each must lie inside the assets
/// directory, hold valid Fluent and be named after a locale. The first file that
/// does not is reported; otherwise every locale read is available, with
/// `default_locale` in use, and the parsed resources are handed back in file order.
pub fn load_translations(files: &Vec<LocaleFile>, default_locale: &str) -> (r: Result<(I18n, Vec<LocaleResource>), I18nError>)
    ensures
        (r is Ok) == (forall|i: int| 0 <= i < files@.len() ==> file_loads(#[trigger] files@[i])),
        r matches Ok((t, rs)) ==> {
            &&& t.available() == stems(files@)
            &&& t.current() == default_locale@
            &&& rs@.len() == files@.len()
            &&& forall|i: int| 0 <= i < rs@.len() ==> (#[trigger] rs@[i]).name@ == files@[i].stem@
        },
        r matches Err(e) ==> exists|k: int| {
            &&& 0 <= k < files@.len()
            &&& forall|j: int| 0 <= j < k ==> file_loads(#[trigger] files@[j])
            &&& !file_loads(files@[k])
            &&& e == file_error(#[trigger] files@[k], k as usize)
        },
{
    let n = files.len();
    let mut names: Vec<String> = Vec::new();
    let mut out: Vec<LocaleResource> = Vec::new();
    for i in 0..n
        invariant
            n == files@.len(),
            names@.len() == i,
            out@.len() == i,
            forall|j: int| 0 <= j < i ==> file_loads(#[trigger] files@[j]),
            forall|j: int| 0 <= j < i ==> (#[trigger] names@[j])@ == files@[j].stem@,
            forall|j: int| 0 <= j < i ==> (#[trigger] out@[j]).name@ == files@[j].stem@,
    {
        let f = &files[i];
        if !f.inside_dir {
            assert(!file_loads(files@[i as int]));
            return Err(I18nError::OutsideDirectory { index: i });
        }
        let resource = match parse_ftl(f.source.clone()) {
            Some(res) => res,
            None => {
                assert(!file_loads(files@[i as int]));
                return Err(I18nError::InvalidFtl { index: i });
            },
        };
        let language = match parse_langid(f.stem.as_str()) {
            Some(l) => l,
            None => {
                assert(!file_loads(files@[i as int]));
                return Err(I18nError::InvalidLocaleName { index: i });
            },
        };
        names.push(f.stem.clone());
        out.push(LocaleResource { name: f.stem.clone(), resource, language });
    }
    let t = I18n::with_locales(names, default_locale);
    assert(t.available() =~= stems(files@));
    Ok((t, out))
}

} // verus!
