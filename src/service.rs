//! The entry point for registrations and serve requests.
use vstd::prelude::*;
use vstd::string::*;

use crate::error::{Missing, RegistrationError, ResolveError};
use crate::language::{language_of_host, LanguageName};
use crate::path::{resolution, resolve_path};
use crate::registry::{registered, EntryModel, ProjectEntry, Registry, RegistryModel};

verus! {

/// The characters of a host, where there is one.
pub open spec fn host_chars(host: Option<&str>) -> Option<Seq<char>> {
    match host {
        Some(h) => Some(h@),
        None => None,
    }
}

/// The outcome of a serve request against the registry `m`: the host names
/// the language, the registry gives the project's directory, and the path is
/// resolved below it.
pub open spec fn request_outcome(
    m: RegistryModel,
    host: Option<Seq<char>>,
    project_name: Seq<char>,
    requested: Seq<char>,
) -> Result<Seq<char>, ResolveError> {
    match host {
        None => Err(ResolveError::BadAddressing),
        Some(h) => match language_of_host(h) {
            None => Err(ResolveError::BadAddressing),
            Some(language) => if !m.contains_key(language) {
                Err(ResolveError::NotFound(Missing::Language))
            } else if !m[language].contains_key(project_name) {
                Err(ResolveError::NotFound(Missing::Project))
            } else {
                match resolution(m[language][project_name].directory, requested) {
                    Some(p) => Ok(p),
                    None => Err(ResolveError::Forbidden),
                }
            },
        },
    }
}

/// Registrations and path resolution over one registry.
pub struct DirectoryService {
    registry: Registry,
}

impl View for DirectoryService {
    type V = RegistryModel;

    closed spec fn view(&self) -> RegistryModel {
        self.registry@
    }
}

impl DirectoryService {
    /// The service's registry is consistent.
    pub closed spec fn wf(&self) -> bool {
        self.registry.wf()
    }

    /// A service with no project registered.
    pub fn new() -> (r: DirectoryService)
        ensures
            r.wf(),
            r@ == RegistryModel::empty(),
    {
        DirectoryService { registry: Registry::new() }
    }

    /// The registry.
    pub fn registry(&self) -> (r: &Registry)
        requires
            self.wf(),
        ensures
            r.wf(),
            r@ == self@,
    {
        &self.registry
    }

    /// Registers `project_name` under `language` with base `directory`,
    /// replacing an earlier registration under the same two names. An empty
    /// language or project name is refused, and then nothing changes.
    pub fn register_project(&mut self, language: String, project_name: String, directory: String) -> (r:
        Result<(), RegistrationError>)
        requires
            old(self).wf(),
        ensures
            final(self).wf(),
            language@.len() == 0 ==> r == Err::<(), RegistrationError>(
                RegistrationError::EmptyLanguage,
            ),
            language@.len() > 0 && project_name@.len() == 0 ==> r == Err::<(), RegistrationError>(
                RegistrationError::EmptyProjectName,
            ),
            r is Err ==> final(self)@ == old(self)@,
            language@.len() > 0 && project_name@.len() > 0 ==> r is Ok && final(self)@
                == registered(
                old(self)@,
                EntryModel {
                    language: language@,
                    project_name: project_name@,
                    directory: directory@,
                },
            ),
    {
        let language = match LanguageName::new(language) {
            Some(l) => l,
            None => return Err(RegistrationError::EmptyLanguage),
        };
        if project_name.as_str().unicode_len() == 0 {
            return Err(RegistrationError::EmptyProjectName);
        }
        let entry = ProjectEntry::new(language, project_name, directory);
        self.registry.register(entry);
        Ok(())
    }

    /// The file path that a serve request names: the language from `host`
    /// (`<language>.docs`), the project registered under it as
    /// `project_name`, and `requested_path` resolved below that project's
    /// directory.
    pub fn resolve_request(&self, host: Option<&str>, project_name: &str, requested_path: &str) -> (r:
        Result<String, ResolveError>)
        requires
            self.wf(),
        ensures
            match r {
                Ok(p) => request_outcome(self@, host_chars(host), project_name@, requested_path@)
                    == Ok::<Seq<char>, ResolveError>(p@),
                Err(e) => request_outcome(self@, host_chars(host), project_name@, requested_path@)
                    == Err::<Seq<char>, ResolveError>(e),
            },
    {
        let language = match LanguageName::from_host_name(host) {
            Ok(l) => l,
            Err(e) => return Err(e),
        };
        let projects = match self.registry.language(&language) {
            Some(l) => l,
            None => return Err(ResolveError::NotFound(Missing::Language)),
        };
        let entry = match projects.project(project_name) {
            Some(e) => e,
            None => return Err(ResolveError::NotFound(Missing::Project)),
        };
        resolve_path(entry.directory.as_str(), requested_path)
    }
}

} // verus!
