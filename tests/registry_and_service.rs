use daps::error::{Missing, RegistrationError, ResolveError};
use daps::language::{LanguageName, HOST_SUFFIX};
use daps::registry::{ProjectEntry, Registry};
use daps::service::DirectoryService;

fn lang(name: &str) -> LanguageName {
    LanguageName::new(name.to_string()).unwrap()
}

fn entry(language: &str, project: &str, directory: &str) -> ProjectEntry {
    ProjectEntry::new(lang(language), project.to_string(), directory.to_string())
}

fn daps_service() -> DirectoryService {
    let mut service = DirectoryService::new();
    service
        .register_project("rust".to_string(), "daps".to_string(), "/srv/daps".to_string())
        .unwrap();
    service
}

#[test]
fn host_with_suffix_names_language() {
    let l = LanguageName::from_host_name(Some("rust.docs")).ok().unwrap();
    assert_eq!(l.as_str(), "rust");
    let l = LanguageName::from_host_name(Some("a.docs.docs")).ok().unwrap();
    assert_eq!(l.as_str(), "a.docs");
    assert_eq!(HOST_SUFFIX, ".docs");
}

#[test]
fn host_without_suffix_is_bad_addressing() {
    for host in ["unknown", "rust.doc", "rust.docs.org", ".docs", "docs", ""] {
        assert!(matches!(
            LanguageName::from_host_name(Some(host)),
            Err(ResolveError::BadAddressing)
        ));
    }
}

#[test]
fn missing_host_is_bad_addressing() {
    assert!(matches!(LanguageName::from_host_name(None), Err(ResolveError::BadAddressing)));
}

#[test]
fn empty_language_name_is_refused() {
    assert!(LanguageName::new(String::new()).is_none());
    assert_eq!(LanguageName::new("go".to_string()).unwrap().as_str(), "go");
}

#[test]
fn lookup_after_register_finds_entry() {
    let mut registry = Registry::new();
    registry.register(entry("rust", "daps", "/srv/daps"));
    let found = registry.lookup(&lang("rust"), "daps").unwrap();
    assert_eq!(found.language.as_str(), "rust");
    assert_eq!(found.project_name, "daps");
    assert_eq!(found.directory, "/srv/daps");
}

#[test]
fn second_registration_replaces_first() {
    let mut registry = Registry::new();
    registry.register(entry("rust", "daps", "/srv/old"));
    registry.register(entry("rust", "daps", "/srv/new"));
    let found = registry.lookup(&lang("rust"), "daps").unwrap();
    assert_eq!(found.directory, "/srv/new");
    assert_eq!(found.project_name, "daps");
    assert_eq!(registry.language(&lang("rust")).unwrap().name(), "rust");
}

#[test]
fn registration_keeps_other_entries() {
    let mut registry = Registry::new();
    registry.register(entry("rust", "daps", "/srv/daps"));
    registry.register(entry("rust", "other", "/srv/other"));
    registry.register(entry("go", "daps", "/srv/go-daps"));
    assert_eq!(registry.lookup(&lang("rust"), "daps").unwrap().directory, "/srv/daps");
    assert_eq!(registry.lookup(&lang("rust"), "other").unwrap().directory, "/srv/other");
    assert_eq!(registry.lookup(&lang("go"), "daps").unwrap().directory, "/srv/go-daps");
}

#[test]
fn lookup_of_unknown_keys_is_absent() {
    let mut registry = Registry::new();
    assert!(registry.lookup(&lang("rust"), "daps").is_none());
    registry.register(entry("rust", "daps", "/srv/daps"));
    assert!(registry.lookup(&lang("go"), "daps").is_none());
    assert!(registry.lookup(&lang("rust"), "nope").is_none());
    assert!(registry.language(&lang("go")).is_none());
    let rust = registry.language(&lang("rust")).unwrap();
    assert!(rust.project("daps").is_some());
    assert!(rust.project("dap").is_none());
}

#[test]
fn end_to_end_serves_file_below_directory() {
    let service = daps_service();
    assert_eq!(
        service.resolve_request(Some("rust.docs"), "daps", "index.html"),
        Ok("/srv/daps/index.html".to_string())
    );
}

#[test]
fn end_to_end_escape_is_forbidden() {
    let service = daps_service();
    assert_eq!(
        service.resolve_request(Some("rust.docs"), "daps", "../secret.txt"),
        Err(ResolveError::Forbidden)
    );
}

#[test]
fn end_to_end_unknown_language() {
    let service = daps_service();
    assert_eq!(
        service.resolve_request(Some("unknown.docs"), "daps", "index.html"),
        Err(ResolveError::NotFound(Missing::Language))
    );
    assert_eq!(
        service.resolve_request(Some("unknown"), "daps", "index.html"),
        Err(ResolveError::BadAddressing)
    );
    assert_eq!(
        service.resolve_request(None, "daps", "index.html"),
        Err(ResolveError::BadAddressing)
    );
}

#[test]
fn end_to_end_unknown_project() {
    let service = daps_service();
    assert_eq!(
        service.resolve_request(Some("rust.docs"), "nope", "index.html"),
        Err(ResolveError::NotFound(Missing::Project))
    );
}

#[test]
fn registration_with_empty_names_is_refused_and_changes_nothing() {
    let mut service = daps_service();
    assert_eq!(
        service.register_project(String::new(), "x".to_string(), "/srv/x".to_string()),
        Err(RegistrationError::EmptyLanguage)
    );
    assert_eq!(
        service.register_project(String::new(), String::new(), "/srv/x".to_string()),
        Err(RegistrationError::EmptyLanguage)
    );
    assert_eq!(
        service.register_project("rust".to_string(), String::new(), "/srv/x".to_string()),
        Err(RegistrationError::EmptyProjectName)
    );
    assert!(service.registry().language(&lang("rust")).unwrap().project("").is_none());
    assert_eq!(
        service.resolve_request(Some("rust.docs"), "daps", "index.html"),
        Ok("/srv/daps/index.html".to_string())
    );
}

#[test]
fn reregistration_through_service_moves_directory() {
    let mut service = daps_service();
    service
        .register_project("rust".to_string(), "daps".to_string(), "/var/www/daps".to_string())
        .unwrap();
    assert_eq!(
        service.resolve_request(Some("rust.docs"), "daps", "a/./b/../c.html"),
        Ok("/var/www/daps/a/c.html".to_string())
    );
}
