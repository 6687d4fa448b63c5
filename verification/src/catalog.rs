//! Translation catalogues: one Fluent bundle per translation domain, looked
//! up in domain order. Parsing and formatting are Fluent's; which domain
//! answers, and which error comes back, is decided here.

use vstd::prelude::*;
use vstd::string::StringExecFns;
use crate::i18n::{I18nError, Language, language_code};

verus! {

broadcast use vstd::string::group_string_axioms;

#[verifier::external_type_specification]
#[verifier::external_body]
pub struct ExFluentResource(fluent::FluentResource);

#[verifier::external_type_specification]
#[verifier::external_body]
pub struct ExLanguageIdentifier(unic_langid::LanguageIdentifier);

#[verifier::external_type_specification]
#[verifier::external_body]
pub struct ExIntlLangMemoizer(intl_memoizer::IntlLangMemoizer);

#[verifier::external_type_specification]
#[verifier::external_body]
#[verifier::reject_recursive_types(R)]
#[verifier::reject_recursive_types(M)]
pub struct ExFluentBundle<R, M>(fluent::bundle::FluentBundle<R, M>);

#[verifier::external_type_specification]
#[verifier::external_body]
pub struct ExFluentArgs<'a>(fluent::FluentArgs<'a>);

/// Whether a text is a Fluent (FTL) resource that parses without error.
pub uninterp spec fn ftl_parses(source: Seq<char>) -> bool;

/// Whether a text is a language identifier (such as "en-US").
pub uninterp spec fn language_id_parses(code: Seq<char>) -> bool;

/// The message and term entries of an FTL text that parses, in order: each
/// entry's identifier (a term's without its leading `-`) and whether it is
/// a message with a value.
pub uninterp spec fn ftl_entries(source: Seq<char>) -> Seq<(Seq<char>, bool)>;

/// The message and term entries that a parsed resource holds, in order
/// (see `ftl_entries`).
pub uninterp spec fn resource_entries(resource: fluent::FluentResource) -> Seq<(Seq<char>, bool)>;

/// The identifiers of the messages with a value that a bundle holds.
pub uninterp spec fn bundle_message_ids(
    bundle: fluent::bundle::FluentBundle<fluent::FluentResource, intl_memoizer::IntlLangMemoizer>,
) -> Set<Seq<char>>;

/// The identifiers of all the entries (messages and terms) that a bundle
/// holds.
pub uninterp spec fn bundle_entry_ids(
    bundle: fluent::bundle::FluentBundle<fluent::FluentResource, intl_memoizer::IntlLangMemoizer>,
) -> Set<Seq<char>>;

/// What formatting the message `key` of a bundle with the arguments gives:
/// nothing when the bundle holds no message with a value under `key`;
/// otherwise the formatted text, or the debug text of the formatting errors
/// that Fluent reported.
pub uninterp spec fn formatted_message(
    bundle: fluent::bundle::FluentBundle<fluent::FluentResource, intl_memoizer::IntlLangMemoizer>,
    key: Seq<char>,
    args: Option<&fluent::FluentArgs>,
) -> Option<Result<Seq<char>, Seq<char>>>;

/// Whether no two entries share an identifier.
pub open spec fn entry_ids_distinct(entries: Seq<(Seq<char>, bool)>) -> bool {
    forall|i: int, j: int| 0 <= i < j < entries.len() ==> (#[trigger] entries[i]).0 != (#[trigger] entries[j]).0
}

/// The identifiers of the entries.
pub open spec fn entry_ids(entries: Seq<(Seq<char>, bool)>) -> Set<Seq<char>> {
    Set::new(|id: Seq<char>| exists|i: int| 0 <= i < entries.len() && (#[trigger] entries[i]).0 == id)
}

/// The identifiers of the entries that are messages with a value.
pub open spec fn entry_messages(entries: Seq<(Seq<char>, bool)>) -> Set<Seq<char>> {
    Set::new(
        |id: Seq<char>| exists|i: int| 0 <= i < entries.len() && (#[trigger] entries[i]).0 == id && entries[i].1,
    )
}

/// Whether every character of a text is an ASCII letter.
pub open spec fn ascii_letters(s: Seq<char>) -> bool {
    forall|i: int| 0 <= i < s.len() ==> ('a' <= #[trigger] s[i] <= 'z' || 'A' <= s[i] <= 'Z')
}

/// `fluent::FluentResource::try_new`: whether it parses is named
/// `ftl_parses`, and the entries of the resource it gives are named
/// `ftl_entries`; on failure the error is the debug text of what it
/// returned.
#[verifier::external_body]
fn parse_ftl(source: String) -> (r: Result<fluent::FluentResource, String>)
    ensures
        r is Ok <==> ftl_parses(source@),
        r matches Ok(res) ==> resource_entries(res) == ftl_entries(source@),
{
    fluent::FluentResource::try_new(source).map_err(|e| format!("{e:?}"))
}

/// `str::parse::<unic_langid::LanguageIdentifier>`: whether it parses is
/// named `language_id_parses`; a code of two, three or five to eight ASCII
/// letters (a bare language subtag) always parses. On failure the error is
/// the error's text.
#[verifier::external_body]
fn parse_language_id(code: &str) -> (r: Result<unic_langid::LanguageIdentifier, String>)
    ensures
        r is Ok <==> language_id_parses(code@),
        (2 <= code@.len() <= 8 && code@.len() != 4 && ascii_letters(code@)) ==> r is Ok,
{
    code.parse::<unic_langid::LanguageIdentifier>().map_err(|e| e.to_string())
}

/// `fluent::bundle::FluentBundle::new` for one locale: the bundle holds no
/// entries.
#[verifier::external_body]
fn new_bundle(locale: unic_langid::LanguageIdentifier) -> (r: fluent::bundle::FluentBundle<
    fluent::FluentResource,
    intl_memoizer::IntlLangMemoizer,
>)
    ensures
        bundle_message_ids(r) == Set::<Seq<char>>::empty(),
        bundle_entry_ids(r) == Set::<Seq<char>>::empty(),
{
    fluent::bundle::FluentBundle::new(vec![locale])
}

/// `fluent::bundle::FluentBundle::add_resource`: each entry of the resource
/// whose identifier is not taken yet (by the bundle or by an earlier entry of
/// the resource) is added, and it fails exactly when some identifier was
/// taken. Entries the bundle held stay. When it succeeds, the bundle's
/// entries and messages are the old ones with those of the resource. On
/// failure the error is the debug text of the reported errors.
#[verifier::external_body]
fn add_resource(
    bundle: &mut fluent::bundle::FluentBundle<fluent::FluentResource, intl_memoizer::IntlLangMemoizer>,
    resource: fluent::FluentResource,
) -> (r: Result<(), String>)
    ensures
        r is Ok <==> (entry_ids_distinct(resource_entries(resource)) && forall|i: int|
            0 <= i < resource_entries(resource).len() ==> !bundle_entry_ids(*old(bundle)).contains(
                (#[trigger] resource_entries(resource)[i]).0,
            )),
        bundle_message_ids(*old(bundle)).subset_of(bundle_message_ids(*final(bundle))),
        bundle_entry_ids(*old(bundle)).subset_of(bundle_entry_ids(*final(bundle))),
        r is Ok ==> bundle_entry_ids(*final(bundle)) == bundle_entry_ids(*old(bundle)).union(
            entry_ids(resource_entries(resource)),
        ),
        r is Ok ==> bundle_message_ids(*final(bundle)) == bundle_message_ids(*old(bundle)).union(
            entry_messages(resource_entries(resource)),
        ),
{
    bundle.add_resource(resource).map_err(|e| format!("{e:?}"))
}

/// `fluent::bundle::FluentBundle::get_message` with the message's value,
/// formatted by `format_pattern`: its result is named `formatted_message`,
/// and it is `None` exactly when the bundle holds no message with a value
/// under `key`. Formatting errors come back as their debug text.
#[verifier::external_body]
fn format_message(
    bundle: &fluent::bundle::FluentBundle<fluent::FluentResource, intl_memoizer::IntlLangMemoizer>,
    key: &str,
    args: Option<&fluent::FluentArgs>,
) -> (r: Option<Result<String, String>>)
    ensures
        r is Some <==> bundle_message_ids(*bundle).contains(key@),
        match r {
            None => formatted_message(*bundle, key@, args) is None,
            Some(Ok(t)) => formatted_message(*bundle, key@, args) == Some(Ok::<Seq<char>, Seq<char>>(t@)),
            Some(Err(e)) => formatted_message(*bundle, key@, args) == Some(Err::<Seq<char>, Seq<char>>(e@)),
        },
{
    let pattern = bundle.get_message(key).and_then(|m| m.value())?;
    let mut errors = vec![];
    let value = bundle.format_pattern(pattern, args, &mut errors);
    if errors.is_empty() {
        Some(Ok(value.to_string()))
    } else {
        Some(Err(format!("{errors:?}")))
    }
}

/// A translation domain: its name and its bundle.
pub struct Domain {
    name: String,
    bundle: fluent::bundle::FluentBundle<fluent::FluentResource, intl_memoizer::IntlLangMemoizer>,
}

/// The translations of one language, one bundle per domain.
pub struct I18n {
    domains: Vec<Domain>,
    language: Language,
}

/// Whether a list of domain names has no name twice.
pub open spec fn distinct_names(names: Seq<Seq<char>>) -> bool {
    forall|i: int, j: int| 0 <= i < j < names.len() ==> names[i] != names[j]
}

/// The names of a list of domains.
spec fn names_of(domains: Seq<Domain>) -> Seq<Seq<char>> {
    domains.map_values(|d: Domain| d.name@)
}

/// The message identifiers of a list of domains.
spec fn messages_of(domains: Seq<Domain>) -> Seq<Set<Seq<char>>> {
    domains.map_values(|d: Domain| bundle_message_ids(d.bundle))
}

/// The position of the domain called `name`, if there is one.
fn find_domain(domains: &Vec<Domain>, name: &String) -> (r: Option<usize>)
    ensures
        match r {
            Some(i) => i < domains@.len() && names_of(domains@)[i as int] == name@,
            None => !names_of(domains@).contains(name@),
        },
{
    let mut i: usize = 0;
    while i < domains.len()
        invariant
            i <= domains@.len(),
            forall|j: int| 0 <= j < i ==> #[trigger] names_of(domains@)[j] != name@,
        decreases domains.len() - i,
    {
        if domains[i].name == *name {
            return Some(i);
        }
        i = i + 1;
    }
    proof {
        if names_of(domains@).contains(name@) {
            let j = choose|j: int| 0 <= j < names_of(domains@).len() && names_of(domains@)[j] == name@;
            assert(names_of(domains@)[j] != name@);
        }
    }
    None
}

/// The first answer in a list of per-domain answers, if any domain answers.
pub open spec fn first_answer(answers: Seq<Option<Result<Seq<char>, Seq<char>>>>) -> Option<
    Result<Seq<char>, Seq<char>>,
>
    decreases answers.len(),
{
    if answers.len() == 0 {
        None
    } else if answers[0] is Some {
        answers[0]
    } else {
        first_answer(answers.drop_first())
    }
}

impl I18n {
    #[verifier::type_invariant]
    spec fn inv(self) -> bool {
        distinct_names(names_of(self.domains@))
    }

    /// The names of the loaded domains, in lookup order.
    pub closed spec fn domain_names(self) -> Seq<Seq<char>> {
        names_of(self.domains@)
    }

    /// The message identifiers of each loaded domain, in lookup order.
    pub closed spec fn domain_messages(self) -> Seq<Set<Seq<char>>> {
        messages_of(self.domains@)
    }

    /// The language of the translations.
    pub closed spec fn spec_language(self) -> Language {
        self.language
    }

    /// What formatting the message `key` with the arguments gives in each
    /// loaded domain, in lookup order (see `formatted_message`).
    pub closed spec fn domain_formats(self, key: Seq<char>, args: Option<&fluent::FluentArgs>) -> Seq<
        Option<Result<Seq<char>, Seq<char>>>,
    > {
        self.domains@.map_values(|d: Domain| formatted_message(d.bundle, key, args))
    }

    /// Translations of `language` with no domain loaded yet.
    pub fn empty(language: Language) -> (r: I18n)
        ensures
            r.domain_names() == Seq::<Seq<char>>::empty(),
            r.domain_messages() == Seq::<Set<Seq<char>>>::empty(),
            r.spec_language() == language,
    {
        let r = I18n { domains: Vec::new(), language };
        assert(r.domain_names() =~= Seq::<Seq<char>>::empty());
        assert(r.domain_messages() =~= Seq::<Set<Seq<char>>>::empty());
        r
    }

    /// Loads a translation domain from its FTL text, for the translations'
    /// language: the domain then holds the text's messages with a value. A
    /// domain of the same name is replaced in place; a new one is looked up
    /// after those loaded before. Fails with a load error when the text does
    /// not parse ("Failed to parse <domain>.ftl: ...") or when two of its
    /// entries share an identifier ("Failed to add resource: ..."); the
    /// translations are unchanged then.
    pub fn load_domain(&mut self, domain: &str, ftl_content: String) -> (r: Result<(), I18nError>)
        ensures
            final(self).spec_language() == old(self).spec_language(),
            r is Err ==> final(self).domain_names() == old(self).domain_names() && final(self).domain_messages()
                == old(self).domain_messages(),
            !ftl_parses(ftl_content@) ==> (r matches Err(I18nError::LoadError(m)) && ("Failed to parse "@
                + domain@ + ".ftl: "@).is_prefix_of(m@)),
            ftl_parses(ftl_content@) ==> (r is Ok || (r matches Err(I18nError::LoadError(m))
                && "Failed to add resource: "@.is_prefix_of(m@))),
            ftl_parses(ftl_content@) ==> (r is Ok <==> entry_ids_distinct(ftl_entries(ftl_content@))),
            r is Ok ==> forall|i: int|
                0 <= i < final(self).domain_names().len() && final(self).domain_names()[i] == domain@
                    ==> #[trigger] final(self).domain_messages()[i] == entry_messages(ftl_entries(ftl_content@)),
            r is Ok ==> {
                let names = old(self).domain_names();
                &&& (names.contains(domain@) ==> final(self).domain_names() == names)
                &&& (!names.contains(domain@) ==> final(self).domain_names() == names.push(domain@))
                &&& final(self).domain_messages().len() == final(self).domain_names().len()
                &&& forall|i: int|
                    0 <= i < names.len() && names[i] != domain@ ==> #[trigger] final(self).domain_messages()[i]
                        == old(self).domain_messages()[i]
            },
    {
        proof {
            use_type_invariant(&*self);
        }
        let lang_code = self.language.code();
        let resource = match parse_ftl(ftl_content) {
            Ok(res) => res,
            Err(e) => {
                let mut m = String::from_str("Failed to parse ");
                m.append(domain);
                m.append(".ftl: ");
                let ghost head = m@;
                m.append(e.as_str());
                assert(head.is_prefix_of(m@)) by {
                    assert(m@.subrange(0, head.len() as int) =~= head);
                }
                return Err(I18nError::LoadError(m));
            },
        };
        let locale = match parse_language_id(lang_code) {
            Ok(l) => l,
            Err(e) => {
                proof {
                    assert(lang_code@.len() == 2);
                    assert(ascii_letters(lang_code@));
                }
                let mut m = String::from_str("Invalid language ID: ");
                m.append(e.as_str());
                return Err(I18nError::LoadError(m));
            },
        };
        let mut bundle = new_bundle(locale);
        let ghost entries = resource_entries(resource);
        match add_resource(&mut bundle, resource) {
            Ok(()) => {
                assert(bundle_message_ids(bundle) =~= entry_messages(ftl_entries(ftl_content@)));
            },
            Err(e) => {
                let mut m = String::from_str("Failed to add resource: ");
                let ghost head = m@;
                m.append(e.as_str());
                assert(head.is_prefix_of(m@)) by {
                    assert(m@.subrange(0, head.len() as int) =~= head);
                }
                return Err(I18nError::LoadError(m));
            },
        }
        let ghost loaded = bundle_message_ids(bundle);
        let ghost names = names_of(self.domains@);
        let ghost msgs = messages_of(self.domains@);
        let name = String::from_str(domain);
        let mut ds: Vec<Domain> = Vec::new();
        std::mem::swap(&mut ds, &mut self.domains);
        assert(names_of(ds@) == names);
        match find_domain(&ds, &name) {
            Some(i) => {
                let ghost before = ds@;
                ds.set(i, Domain { name, bundle });
                proof {
                    assert(names_of(ds@) =~= names);
                    assert(messages_of(ds@)[i as int] == loaded);
                    assert forall|j: int| 0 <= j < names.len() && names[j] == domain@ implies #[trigger] messages_of(
                        ds@,
                    )[j] == loaded by {
                        if j != i {
                            assert(names[j] == names[i as int]);
                        }
                    }
                    assert forall|j: int|
                        0 <= j < names.len() && names[j] != domain@ implies #[trigger] messages_of(ds@)[j]
                        == msgs[j] by {
                        assert(ds@[j] == before[j]);
                    }
                }
            },
            None => {
                let ghost before = ds@;
                ds.push(Domain { name, bundle });
                proof {
                    assert(names_of(ds@) =~= names.push(domain@));
                    assert(messages_of(ds@)[names.len() as int] == loaded);
                    assert forall|j: int| 0 <= j < names.len() + 1 && names_of(ds@)[j] == domain@ implies #[trigger] messages_of(
                        ds@,
                    )[j] == loaded by {
                        if j < names.len() {
                            assert(names_of(ds@)[j] == names[j]);
                            assert(names.contains(names[j]));
                        }
                    }
                    assert forall|j: int, k: int|
                        0 <= j < k < names_of(ds@).len() implies names_of(ds@)[j] != names_of(ds@)[k] by {
                        if k == names.len() {
                            assert(names_of(ds@)[j] == names[j]);
                            assert(names.contains(names[j]));
                        }
                    }
                    assert forall|j: int|
                        0 <= j < names.len() && names[j] != domain@ implies #[trigger] messages_of(ds@)[j]
                        == msgs[j] by {
                        assert(ds@[j] == before[j]);
                    }
                }
            },
        }
        self.domains = ds;
        Ok(())
    }

    /// Formats the message `key` with the arguments: the first domain, in
    /// lookup order, that holds a message with a value under `key` answers,
    /// with the formatted text or, when Fluent reports formatting errors, a
    /// format error "Formatting errors: ..." (see `domain_formats`). When no
    /// domain holds it: a key-not-found error.
    pub fn format(&self, key: &str, args: Option<&fluent::FluentArgs>) -> (r: Result<String, I18nError>)
        ensures
            (forall|i: int|
                0 <= i < self.domain_messages().len() ==> !(#[trigger] self.domain_messages()[i]).contains(
                    key@,
                )) <==> (r matches Err(I18nError::KeyNotFound(k)) && k@ == key@),
            match first_answer(self.domain_formats(key@, args)) {
                None => r matches Err(I18nError::KeyNotFound(k)) && k@ == key@,
                Some(Ok(t)) => r matches Ok(x) && x@ == t,
                Some(Err(e)) => r matches Err(I18nError::FormatError(m)) && m@ == "Formatting errors: "@ + e,
            },
    {
        let ghost msgs = messages_of(self.domains@);
        let ghost answers = self.domain_formats(key@, args);
        assert(answers.skip(0) =~= answers);
        let mut i: usize = 0;
        while i < self.domains.len()
            invariant
                i <= self.domains@.len(),
                msgs == messages_of(self.domains@),
                answers == self.domain_formats(key@, args),
                first_answer(answers) == first_answer(answers.skip(i as int)),
                forall|j: int| 0 <= j < i ==> !(#[trigger] msgs[j]).contains(key@),
            decreases self.domains.len() - i,
        {
            let answer = format_message(&self.domains[i].bundle, key, args);
            proof {
                assert(answers[i as int] == formatted_message(self.domains@[i as int].bundle, key@, args));
                assert(answers.skip(i as int)[0] == answers[i as int]);
                assert(answers.skip(i as int).drop_first() =~= answers.skip(i + 1));
            }
            match answer {
                Some(Ok(text)) => {
                    assert(msgs[i as int].contains(key@));
                    assert(self.domain_messages()[i as int].contains(key@));
                    return Ok(text);
                },
                Some(Err(e)) => {
                    assert(msgs[i as int].contains(key@));
                    assert(self.domain_messages()[i as int].contains(key@));
                    let mut m = String::from_str("Formatting errors: ");
                    m.append(e.as_str());
                    return Err(I18nError::FormatError(m));
                },
                None => {},
            }
            i = i + 1;
        }
        assert(answers.skip(i as int).len() == 0);
        Err(I18nError::KeyNotFound(String::from_str(key)))
    }

    /// Gets the message `key` without arguments (see `format`).
    pub fn get(&self, key: &str) -> (r: Result<String, I18nError>)
        ensures
            (forall|i: int|
                0 <= i < self.domain_messages().len() ==> !(#[trigger] self.domain_messages()[i]).contains(
                    key@,
                )) <==> (r matches Err(I18nError::KeyNotFound(k)) && k@ == key@),
            match first_answer(self.domain_formats(key@, None)) {
                None => r matches Err(I18nError::KeyNotFound(k)) && k@ == key@,
                Some(Ok(t)) => r matches Ok(x) && x@ == t,
                Some(Err(e)) => r matches Err(I18nError::FormatError(m)) && m@ == "Formatting errors: "@ + e,
            },
    {
        self.format(key, None)
    }

    /// The language of the translations.
    pub fn language(&self) -> (r: Language)
        ensures
            r == self.spec_language(),
    {
        self.language
    }
}

} // verus!
