//! The registry: language name to project name to registered project.
//!
//! A registration replaces the whole entry under its two keys in one step, so
//! every lookup sees a complete entry. Sharing between concurrent requests is
//! left to the caller: any number of lookups through `&Registry`, one
//! registration through `&mut Registry`.
use vstd::prelude::*;
use vstd::string::*;
use vstd::utf8::*;

use crate::language::LanguageName;
use crate::table::{keys_unique, lemma_table_lookup, lemma_table_push, lemma_table_update, table};

verus! {

/// What a registered project is made of, as values.
pub struct EntryModel {
    pub language: Seq<char>,
    pub project_name: Seq<char>,
    pub directory: Seq<char>,
}

/// A registered project: the language it is filed under, its name, unique
/// within the language, and the directory that bounds every path served
/// from it.
pub struct ProjectEntry {
    pub language: LanguageName,
    pub project_name: String,
    pub directory: String,
}

impl View for ProjectEntry {
    type V = EntryModel;

    open spec fn view(&self) -> EntryModel {
        EntryModel {
            language: self.language@,
            project_name: self.project_name@,
            directory: self.directory@,
        }
    }
}

impl ProjectEntry {
    /// An entry of the given parts.
    pub fn new(language: LanguageName, project_name: String, directory: String) -> (r: ProjectEntry)
        ensures
            r@ == (EntryModel {
                language: language@,
                project_name: project_name@,
                directory: directory@,
            }),
    {
        ProjectEntry { language, project_name, directory }
    }
}

/// The projects of one language, by project name.
pub type ProjectTable = Map<Seq<char>, EntryModel>;

/// The whole registry, by language name and then by project name.
pub type RegistryModel = Map<Seq<char>, ProjectTable>;

/// The registry after `e` is registered: its entry under its language and
/// project name is `e`, whatever stood there; nothing else changes.
pub open spec fn registered(m: RegistryModel, e: EntryModel) -> RegistryModel {
    let projects = if m.contains_key(e.language) {
        m[e.language]
    } else {
        Map::empty()
    };
    m.insert(e.language, projects.insert(e.project_name, e))
}

/// The entry filed under `language` and `project_name`, if any.
pub open spec fn looked_up(m: RegistryModel, language: Seq<char>, project_name: Seq<char>) -> Option<
    EntryModel,
> {
    if m.contains_key(language) && m[language].contains_key(project_name) {
        Some(m[language][project_name])
    } else {
        None
    }
}

/// The key of an entry within its language.
spec fn project_key() -> spec_fn(ProjectEntry) -> Seq<char> {
    |e: ProjectEntry| e.project_name@
}

/// The value of an entry within its language.
spec fn entry_model() -> spec_fn(ProjectEntry) -> EntryModel {
    |e: ProjectEntry| e@
}

/// The key of a language's table.
spec fn language_key() -> spec_fn(Language) -> Seq<char> {
    |l: Language| l.name@
}

/// The projects of a language's table.
spec fn language_table() -> spec_fn(Language) -> ProjectTable {
    |l: Language| l@
}

/// Whether two strings hold the same characters.
fn same_text(a: &str, b: &str) -> (r: bool)
    ensures
        r == (a@ == b@),
{
    let x = a.as_bytes();
    let y = b.as_bytes();
    proof {
        encode_utf8_decode_utf8(a@);
        encode_utf8_decode_utf8(b@);
    }
    if x.len() != y.len() {
        return false;
    }
    let mut i: usize = 0;
    while i < x.len()
        invariant
            x@ == a.spec_bytes(),
            y@ == b.spec_bytes(),
            x@.len() == y@.len(),
            i <= x@.len(),
            forall|j: int| 0 <= j < i ==> x@[j] == y@[j],
        decreases x@.len() - i,
    {
        if x[i] != y[i] {
            return false;
        }
        i = i + 1;
    }
    assert(x@ =~= y@);
    true
}

/// The projects registered under one language.
pub struct Language {
    name: String,
    projects: Vec<ProjectEntry>,
}

impl View for Language {
    type V = ProjectTable;

    closed spec fn view(&self) -> ProjectTable {
        table(self.projects@, project_key(), entry_model())
    }
}

impl Language {
    /// Project names are unique and every entry is filed under this language.
    pub closed spec fn wf(&self) -> bool {
        &&& keys_unique(self.projects@, project_key())
        &&& forall|i: int|
            0 <= i < self.projects@.len() ==> (#[trigger] self.projects@[i]).language@
                == self.name@
    }

    /// The language's name.
    pub closed spec fn spec_name(&self) -> Seq<char> {
        self.name@
    }

    /// The language's name.
    pub fn name(&self) -> (r: &str)
        ensures
            r@ == self.spec_name(),
    {
        self.name.as_str()
    }

    fn find(&self, project_name: &str) -> (r: Option<usize>)
        requires
            self.wf(),
        ensures
            match r {
                Some(i) => i < self.projects@.len() && self.projects@[i as int].project_name@
                    == project_name@,
                None => forall|i: int|
                    0 <= i < self.projects@.len() ==> self.projects@[i].project_name@
                        != project_name@,
            },
    {
        let mut i: usize = 0;
        while i < self.projects.len()
            invariant
                i <= self.projects@.len(),
                forall|j: int| 0 <= j < i ==> self.projects@[j].project_name@ != project_name@,
            decreases self.projects@.len() - i,
        {
            if same_text(self.projects[i].project_name.as_str(), project_name) {
                return Some(i);
            }
            i = i + 1;
        }
        None
    }

    /// Files `entry` under its project name, replacing an entry of that name.
    fn insert(&mut self, entry: ProjectEntry)
        requires
            old(self).wf(),
            entry@.language == old(self).name@,
        ensures
            final(self).wf(),
            final(self).name@ == old(self).name@,
            final(self)@ == old(self)@.insert(entry@.project_name, entry@),
    {
        proof {
            lemma_table_lookup(
                self.projects@,
                project_key(),
                entry_model(),
                entry@.project_name,
            );
        }
        match self.find(entry.project_name.as_str()) {
            Some(i) => {
                let ghost before = self.projects@;
                proof {
                    lemma_table_update(before, project_key(), entry_model(), i as int, entry);
                }
                self.projects.set(i, entry);
            },
            None => {
                proof {
                    lemma_table_push(self.projects@, project_key(), entry_model(), entry);
                }
                self.projects.push(entry);
            },
        }
    }

    /// The project registered under `project_name`, if any.
    pub fn project(&self, project_name: &str) -> (r: Option<&ProjectEntry>)
        requires
            self.wf(),
        ensures
            r is Some <==> self@.contains_key(project_name@),
            r matches Some(e) ==> e@ == self@[project_name@],
    {
        proof {
            lemma_table_lookup(self.projects@, project_key(), entry_model(), project_name@);
        }
        match self.find(project_name) {
            Some(i) => Some(&self.projects[i]),
            None => None,
        }
    }
}

/// Every registered project, by language and by project name.
pub struct Registry {
    languages: Vec<Language>,
}

impl View for Registry {
    type V = RegistryModel;

    closed spec fn view(&self) -> RegistryModel {
        table(self.languages@, language_key(), language_table())
    }
}

impl Registry {
    /// Language names are unique and every language is well formed.
    pub closed spec fn wf(&self) -> bool {
        &&& keys_unique(self.languages@, language_key())
        &&& forall|i: int| 0 <= i < self.languages@.len() ==> (#[trigger] self.languages@[i]).wf()
    }

    /// An empty registry.
    pub fn new() -> (r: Registry)
        ensures
            r.wf(),
            r@ == RegistryModel::empty(),
    {
        Registry { languages: Vec::new() }
    }

    fn find(&self, language: &str) -> (r: Option<usize>)
        ensures
            match r {
                Some(i) => i < self.languages@.len() && self.languages@[i as int].name@
                    == language@,
                None => forall|i: int|
                    0 <= i < self.languages@.len() ==> self.languages@[i].name@ != language@,
            },
    {
        let mut i: usize = 0;
        while i < self.languages.len()
            invariant
                i <= self.languages@.len(),
                forall|j: int| 0 <= j < i ==> self.languages@[j].name@ != language@,
            decreases self.languages@.len() - i,
        {
            if same_text(self.languages[i].name.as_str(), language) {
                return Some(i);
            }
            i = i + 1;
        }
        None
    }

    /// The projects filed under `language`, if it has any.
    pub fn language(&self, language: &LanguageName) -> (r: Option<&Language>)
        requires
            self.wf(),
        ensures
            r is Some <==> self@.contains_key(language@),
            r matches Some(l) ==> l.wf() && l@ == self@[language@] && l.spec_name()
                == language@,
    {
        proof {
            lemma_table_lookup(self.languages@, language_key(), language_table(), language@);
        }
        match self.find(language.as_str()) {
            Some(i) => Some(&self.languages[i]),
            None => None,
        }
    }

    /// The project filed under `language` and `project_name`, if any.
    pub fn lookup(&self, language: &LanguageName, project_name: &str) -> (r: Option<&ProjectEntry>)
        requires
            self.wf(),
        ensures
            match r {
                Some(e) => looked_up(self@, language@, project_name@) == Some(e@),
                None => looked_up(self@, language@, project_name@) is None,
            },
    {
        match self.language(language) {
            Some(l) => l.project(project_name),
            None => None,
        }
    }

    /// Files `entry` under its language and project name, replacing whatever
    /// stood there.
    pub fn register(&mut self, entry: ProjectEntry)
        requires
            old(self).wf(),
        ensures
            final(self).wf(),
            final(self)@ == registered(old(self)@, entry@),
    {
        let ghost orig = self.languages@;
        proof {
            lemma_table_lookup(orig, language_key(), language_table(), entry@.language);
        }
        match self.find(entry.language.as_str()) {
            Some(i) => {
                let mut lang = Language { name: String::new(), projects: Vec::new() };
                self.languages.set_and_swap(i, &mut lang);
                assert(lang == orig[i as int]);
                lang.insert(entry);
                self.languages.set(i, lang);
                proof {
                    lemma_table_update(orig, language_key(), language_table(), i as int, lang);
                    assert(self.languages@ == orig.update(i as int, lang));
                }
            },
            None => {
                let name = entry.language.as_str().to_owned();
                let mut lang = Language { name, projects: Vec::new() };
                lang.insert(entry);
                proof {
                    lemma_table_push(self.languages@, language_key(), language_table(), lang);
                }
                self.languages.push(lang);
            },
        }
    }
}

} // verus!
