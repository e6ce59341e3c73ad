//! Configuration, planning, transactions and the SOCKS front.

use smart_fec_tunnel::balance::{
    address_missing, check_method, check_request, check_response, check_upstreams, choose_method,
    greeting_methods, health_request, plain_reply, Attempts, Health, SocksError, REPLY_FAILURE,
    REPLY_UNSUPPORTED,
};
use smart_fec_tunnel::controller::{
    is_plain_file_name, pointer_contents, pointer_paths, requested_bindings, revision_name,
    CandidateValidator, FileWrite, HostAddress, Notation, PlanAction, PlanError, Planner,
    PortBinding, PortConflict, PortProbe, RevisionAction, RevisionEvent, RevisionTransaction,
    TransactionError, TransactionState, TransportProtocol, WriteEvent, WriteStep,
};
use smart_fec_tunnel::product_config::{
    profile_defaults, ConfigError, ModuleId, ModuleSetting, ProductConfig, Profile,
};
use std::cell::RefCell;
use std::io;

#[test]
fn enhanced_profile_has_production_modules() {
    let modules = ProductConfig::for_profile(Profile::Enhanced)
        .resolve_modules()
        .unwrap();
    assert!(modules.contains(&ModuleId::MultiWarp));
    assert!(modules.contains(&ModuleId::AdaptiveFec));
    assert!(!modules.contains(&ModuleId::Masque));
    assert!(!modules.contains(&ModuleId::DnsDoq));
}

#[test]
fn disabling_required_dependency_is_rejected() {
    let mut config = ProductConfig::for_profile(Profile::Enhanced);
    config
        .modules
        .insert(ModuleId::Pmtu, ModuleSetting::Disabled);
    assert_eq!(
        config.resolve_modules(),
        Err(ConfigError::MissingDependency {
            module: ModuleId::AdaptiveFec,
            dependency: ModuleId::Pmtu,
        })
    );
}

#[test]
fn automatic_rollback_cannot_be_disabled() {
    for profile in [
        Profile::LowResource,
        Profile::Standard,
        Profile::Enhanced,
        Profile::Laboratory,
    ] {
        let mut config = ProductConfig::for_profile(profile);
        let usual = config.resolve_modules().unwrap();
        for setting in [
            ModuleSetting::Disabled,
            ModuleSetting::Enabled,
            ModuleSetting::Auto,
        ] {
            config.modules.insert(ModuleId::AutomaticRollback, setting);
            let modules = config.resolve_modules().unwrap();
            assert!(modules.contains(&ModuleId::AutomaticRollback));
            assert_eq!(modules, usual);
        }
    }
}

#[test]
fn experimental_module_requires_laboratory_profile() {
    let mut config = ProductConfig::for_profile(Profile::Standard);
    config
        .modules
        .insert(ModuleId::Masque, ModuleSetting::Enabled);
    config
        .modules
        .insert(ModuleId::Tuic, ModuleSetting::Disabled);
    assert_eq!(
        config.resolve_modules(),
        Err(ConfigError::ExperimentalModuleOutsideLaboratory(
            ModuleId::Masque
        ))
    );
}

#[test]
fn profiles_resolve_to_their_defaults() {
    for (profile, count) in [
        (Profile::Standard, 8),
        (Profile::Enhanced, 10),
        (Profile::LowResource, 6),
        (Profile::Laboratory, 7),
    ] {
        let modules = ProductConfig::for_profile(profile).resolve_modules().unwrap();
        assert_eq!(modules, profile_defaults(profile));
        let members = modules.members();
        assert_eq!(members.len(), count);
        let mut sorted = members.clone();
        sorted.sort();
        assert_eq!(members, sorted);
    }
    assert_eq!(
        profile_defaults(Profile::Laboratory).members(),
        vec![
            ModuleId::Masque,
            ModuleId::Pmtu,
            ModuleId::DirectEgress,
            ModuleId::DnsDoh,
            ModuleId::DnsDoq,
            ModuleId::Observability,
            ModuleId::AutomaticRollback,
        ]
    );
}

#[test]
fn configuration_mistakes_are_named() {
    let base = ProductConfig::for_profile(Profile::Standard);
    let mut c = base.clone();
    c.schema_version = 2;
    assert_eq!(
        c.resolve_modules(),
        Err(ConfigError::UnsupportedSchema {
            found: 2,
            supported: 1
        })
    );
    let mut c = base.clone();
    c.server.bandwidth_mbps = 0;
    assert_eq!(c.resolve_modules(), Err(ConfigError::ZeroBandwidth));
    let mut c = base.clone();
    c.server.public_tcp_port = 0;
    assert_eq!(c.resolve_modules(), Err(ConfigError::UnsafePublicPort));
    let mut c = base.clone();
    c.server.public_udp_port = 0;
    assert_eq!(c.resolve_modules(), Err(ConfigError::UnsafePublicPort));
    let mut c = base.clone();
    c.modules.insert(ModuleId::Masque, ModuleSetting::Enabled);
    assert_eq!(c.resolve_modules(), Err(ConfigError::ConflictingTransports));
    let mut c = base.clone();
    c.modules.insert(ModuleId::DnsDoq, ModuleSetting::Enabled);
    assert_eq!(
        c.resolve_modules(),
        Err(ConfigError::ExperimentalModuleOutsideLaboratory(ModuleId::DnsDoq))
    );
}

#[test]
fn overrides_are_honoured() {
    let mut c = ProductConfig::for_profile(Profile::Standard);
    assert_eq!(c.modules.insert(ModuleId::MultiWarp, ModuleSetting::Enabled), None);
    assert_eq!(
        c.modules.insert(ModuleId::Observability, ModuleSetting::Disabled),
        None
    );
    assert_eq!(
        c.modules.insert(ModuleId::Observability, ModuleSetting::Disabled),
        Some(ModuleSetting::Disabled)
    );
    c.modules.insert(ModuleId::DnsDoh, ModuleSetting::Auto);
    let modules = c.resolve_modules().unwrap();
    assert!(modules.contains(&ModuleId::MultiWarp));
    assert!(!modules.contains(&ModuleId::Observability));
    assert!(modules.contains(&ModuleId::DnsDoh));
    assert_eq!(c.modules.get(&ModuleId::DnsDoh), Some(ModuleSetting::Auto));
    assert_eq!(c.modules.get(&ModuleId::Tuic), None);
}

#[test]
fn the_first_missing_dependency_is_named() {
    let mut c = ProductConfig::for_profile(Profile::Enhanced);
    c.modules.insert(ModuleId::Tuic, ModuleSetting::Disabled);
    c.modules.insert(ModuleId::DirectEgress, ModuleSetting::Disabled);
    assert_eq!(
        c.resolve_modules(),
        Err(ConfigError::MissingDependency {
            module: ModuleId::AdaptiveFec,
            dependency: ModuleId::Tuic,
        })
    );
    c.modules.insert(ModuleId::AdaptiveFec, ModuleSetting::Disabled);
    assert_eq!(
        c.resolve_modules(),
        Err(ConfigError::MissingDependency {
            module: ModuleId::MultiWarp,
            dependency: ModuleId::DirectEgress,
        })
    );
    assert_eq!(
        ModuleId::AdaptiveFec.dependencies(),
        [ModuleId::Tuic, ModuleId::Pmtu]
    );
    assert_eq!(ModuleId::DnsDotFallback.dependencies(), [ModuleId::DnsDoh]);
    assert!(ModuleId::Tuic.dependencies().is_empty());
}

struct ClearPorts;
impl PortProbe for ClearPorts {
    fn conflict(&self, _: &PortBinding) -> io::Result<Option<PortConflict>> {
        Ok(None)
    }
}

struct HasConflict;
impl PortProbe for HasConflict {
    fn conflict(&self, request: &PortBinding) -> io::Result<Option<PortConflict>> {
        Ok(if request.protocol == TransportProtocol::Udp {
            Some(PortConflict {
                requested: request.clone(),
                current_owner: Some("existing-daemon".into()),
            })
        } else {
            None
        })
    }
}

struct Broken;
impl PortProbe for Broken {
    fn conflict(&self, _: &PortBinding) -> io::Result<Option<PortConflict>> {
        Err(io::Error::new(io::ErrorKind::PermissionDenied, "no"))
    }
}

#[test]
fn planner_reports_conflicts_without_mutation() {
    let config = ProductConfig::for_profile(Profile::Enhanced);
    let plan = Planner::new(&HasConflict).build(&config).unwrap();
    assert_eq!(plan.conflicts.len(), 1);
    assert_eq!(plan.conflicts[0].requested.protocol, TransportProtocol::Udp);
}

#[test]
fn clear_port_plan_contains_transaction_steps() {
    let plan = Planner::new(&ClearPorts)
        .build(&ProductConfig::for_profile(Profile::Standard))
        .unwrap();
    assert!(plan.conflicts.is_empty());
    assert!(plan.actions.contains(&PlanAction::ValidateCandidate));
}

#[test]
fn plans_list_every_step_in_order() {
    let mut config = ProductConfig::for_profile(Profile::LowResource);
    config.server.public_udp_port = 4443;
    let udp = PortBinding {
        address: HostAddress::V4(0),
        port: 4443,
        protocol: TransportProtocol::Udp,
        owner: "smart-gateway-transport",
    };
    let tcp = PortBinding {
        address: HostAddress::V4(0),
        port: 443,
        protocol: TransportProtocol::Tcp,
        owner: "smart-gateway-public",
    };
    let plan = Planner::new(&ClearPorts).build(&config).unwrap();
    assert_eq!(plan.schema_version, 1);
    assert_eq!(
        plan.actions,
        vec![
            PlanAction::EnableModule(ModuleId::Tuic),
            PlanAction::EnableModule(ModuleId::AdaptiveFec),
            PlanAction::EnableModule(ModuleId::Pmtu),
            PlanAction::EnableModule(ModuleId::DirectEgress),
            PlanAction::EnableModule(ModuleId::DnsDoh),
            PlanAction::EnableModule(ModuleId::AutomaticRollback),
            PlanAction::BindPort(udp),
            PlanAction::BindPort(tcp),
            PlanAction::StageRevision,
            PlanAction::ValidateCandidate,
            PlanAction::CommitRevision,
        ]
    );
    config.modules.insert(ModuleId::Tuic, ModuleSetting::Disabled);
    config.modules.insert(ModuleId::AdaptiveFec, ModuleSetting::Disabled);
    let modules = config.resolve_modules().unwrap();
    assert_eq!(requested_bindings(&config, &modules), vec![tcp]);
}

#[test]
fn planning_fails_with_the_reason() {
    let mut config = ProductConfig::for_profile(Profile::Standard);
    assert!(matches!(
        Planner::new(&Broken).build(&config),
        Err(PlanError::Probe(e)) if e.kind() == io::ErrorKind::PermissionDenied
    ));
    config.server.bandwidth_mbps = 0;
    assert!(matches!(
        Planner::new(&Broken).build(&config),
        Err(PlanError::Config(ConfigError::ZeroBandwidth))
    ));
}

/// Accepts a candidate that holds a file, among those that were staged.
struct RequireConfig<'a> {
    staged: &'a RefCell<Vec<String>>,
}
impl CandidateValidator for RequireConfig<'_> {
    fn validate(&self, candidate: &str) -> Result<(), String> {
        let wanted = format!("{candidate}/config.yaml");
        if self.staged.borrow().iter().any(|path| *path == wanted) {
            Ok(())
        } else {
            Err("config.yaml is missing".into())
        }
    }
}

/// Commits with a file system on which everything works, and gives the revision
/// that the pointer then names.
fn commit_all(tx: &mut RevisionTransaction, current: &mut String) -> Result<(), TransactionError> {
    let mut action = tx.commit(RevisionEvent::Start);
    loop {
        action = match action {
            RevisionAction::Finished => return Ok(()),
            RevisionAction::Refused(e) => return Err(e),
            RevisionAction::WritePointer { revision } => {
                *current = revision;
                tx.commit(RevisionEvent::Done)
            }
            _ => tx.commit(RevisionEvent::Done),
        };
    }
}

#[test]
fn transaction_requires_validation_and_can_rollback() {
    let staged = RefCell::new(Vec::new());
    let check = RequireConfig { staged: &staged };
    let mut current = String::new();

    let mut first = RevisionTransaction::begin(Notation::Unix, "root", None, 1, 9).unwrap();
    staged.borrow_mut().push(first.stage("config.yaml").unwrap().0);
    first.validate(&check).unwrap();
    commit_all(&mut first, &mut current).unwrap();
    let first_id = first.revision_id().to_owned();
    assert_eq!(current, first_id);

    let mut second =
        RevisionTransaction::begin(Notation::Unix, "root", Some(first_id.clone()), 2, 9).unwrap();
    staged.borrow_mut().push(second.stage("config.yaml").unwrap().0);
    assert!(matches!(
        commit_all(&mut second, &mut current),
        Err(TransactionError::InvalidState { .. })
    ));
    second.validate(&check).unwrap();
    commit_all(&mut second, &mut current).unwrap();
    assert_eq!(current, "rev-2-9");
    match second.rollback(RevisionEvent::Start) {
        RevisionAction::Look { path } => assert_eq!(path, "root/revisions/rev-1-9"),
        other => panic!("{other:?}"),
    }
    match second.rollback(RevisionEvent::Present(true)) {
        RevisionAction::WritePointer { revision } => current = revision,
        other => panic!("{other:?}"),
    }
    assert!(matches!(
        second.rollback(RevisionEvent::Done),
        RevisionAction::Finished
    ));
    assert_eq!(current, first_id);
    assert_eq!(second.state(), &TransactionState::RolledBack);
}

#[test]
fn artifact_path_traversal_is_rejected() {
    let tx = RevisionTransaction::begin(Notation::Unix, "root", None, 1, 9).unwrap();
    assert!(matches!(
        tx.stage("../escape"),
        Err(TransactionError::InvalidArtifactName)
    ));
    assert!(matches!(
        RevisionTransaction::begin(Notation::Unix, "root", Some("../old".into()), 1, 9),
        Err(TransactionError::InvalidArtifactName)
    ));
}

#[test]
fn failed_validation_never_advances_state() {
    let staged = RefCell::new(Vec::new());
    let mut tx = RevisionTransaction::begin(Notation::Unix, "root", None, 1, 9).unwrap();
    assert!(matches!(
        tx.validate(&RequireConfig { staged: &staged }),
        Err(TransactionError::Validation(_))
    ));
    assert_eq!(tx.state(), &TransactionState::Candidate);
    let mut current = String::new();
    assert!(commit_all(&mut tx, &mut current).is_err());
    assert!(current.is_empty());
}

#[test]
fn transactions_name_their_files() {
    let tx = RevisionTransaction::begin(Notation::Unix, "/srv/", None, 12_345, 678).unwrap();
    assert_eq!(tx.revision_id(), "rev-12345-678");
    assert_eq!(tx.candidate_path(), "/srv/candidates/rev-12345-678");
    assert_eq!(tx.committed_path(), "/srv/revisions/rev-12345-678");
    assert_eq!(
        tx.stage("a.conf").unwrap(),
        (
            "/srv/candidates/rev-12345-678/a.conf".to_string(),
            "/srv/candidates/rev-12345-678/.a.conf.tmp".to_string()
        )
    );
    assert_eq!(
        pointer_paths(Notation::Unix, "", "current"),
        (
            "current".to_string(),
            ".current.tmp".to_string(),
            ".current.previous".to_string()
        )
    );
    assert_eq!(pointer_contents("rev-1-2"), "rev-1-2\n");
    assert_eq!(
        revision_name(u128::MAX, u32::MAX),
        format!("rev-{}-{}", u128::MAX, u32::MAX)
    );
    assert_eq!(revision_name(0, 0), "rev-0-0");
}

#[test]
fn plain_file_names_are_those_of_the_standard_library() {
    for name in [
        "", "a", "a.b", ".", "..", "/", "/a", "a/", "a//", "a/.", "a/./", "a/..", "a/b", "./a",
        "../a", "...", ".hidden", "a/./b", "ü",
    ] {
        let mut components = std::path::Path::new(name).components();
        let expected = matches!(components.next(), Some(std::path::Component::Normal(_)))
            && components.next().is_none();
        assert_eq!(is_plain_file_name(Notation::Unix, name), expected, "{name}");
    }
}

#[test]
fn windows_names_know_backslashes_and_drives() {
    for plain in [
        "a", "a.b", "...", ".hidden", "a\\", "a\\.", "a/", "a/.\\", "C", "ab:c", "1:x", "ü:x",
    ] {
        assert!(is_plain_file_name(Notation::Windows, plain), "{plain}");
    }
    for other in [
        "", ".", "..", "..\\escape", "a\\b", "a/b", "C:", "C:x", "z:x", "C:\\x", "\\", "\\a", "/a",
        "\\\\server\\share", "\\\\?\\C:\\x", ".\\a", "a\\..", "a\\.\\b",
    ] {
        assert!(!is_plain_file_name(Notation::Windows, other), "{other}");
    }
    for unix in ["..\\escape", "a\\b", "C:x", "\\a"] {
        assert!(is_plain_file_name(Notation::Unix, unix), "{unix}");
    }
    let tx = RevisionTransaction::begin(Notation::Windows, "D:\\srv", None, 1, 9).unwrap();
    assert_eq!(tx.candidate_path(), "D:\\srv\\candidates\\rev-1-9");
    assert_eq!(tx.committed_path(), "D:\\srv\\revisions\\rev-1-9");
    assert_eq!(
        tx.stage("a.conf").unwrap().1,
        "D:\\srv\\candidates\\rev-1-9\\.a.conf.tmp"
    );
    for name in ["..\\escape", "a\\b", "C:x"] {
        assert!(matches!(
            tx.stage(name),
            Err(TransactionError::InvalidArtifactName)
        ));
        assert!(matches!(
            RevisionTransaction::begin(Notation::Windows, "r", Some(name.into()), 1, 9),
            Err(TransactionError::InvalidArtifactName)
        ));
    }
    for (root, path) in [
        ("r", "r\\current"),
        ("r\\", "r\\current"),
        ("r/", "r/current"),
        ("D:", "D:current"),
        ("", "current"),
    ] {
        assert_eq!(pointer_paths(Notation::Windows, root, "current").0, path);
    }
}

#[test]
fn failed_commits_can_be_tried_again() {
    let error = || io::Error::new(io::ErrorKind::Other, "disk");
    let mut tx = RevisionTransaction::begin(Notation::Unix, "r", None, 7, 8).unwrap();
    tx.accept_validation(Ok(())).unwrap();
    match tx.commit(RevisionEvent::Start) {
        RevisionAction::Move { from, to } => {
            assert_eq!(from, "r/candidates/rev-7-8");
            assert_eq!(to, "r/revisions/rev-7-8");
        }
        other => panic!("{other:?}"),
    }
    assert!(matches!(
        tx.commit(RevisionEvent::Failed(error())),
        RevisionAction::Refused(TransactionError::Io(_))
    ));
    tx.commit(RevisionEvent::Start);
    tx.commit(RevisionEvent::Done);
    match tx.commit(RevisionEvent::Failed(error())) {
        RevisionAction::Move { from, to } => {
            assert_eq!(from, "r/revisions/rev-7-8");
            assert_eq!(to, "r/candidates/rev-7-8");
        }
        other => panic!("{other:?}"),
    }
    assert!(matches!(
        tx.commit(RevisionEvent::Done),
        RevisionAction::Refused(TransactionError::Io(e)) if e.kind() == io::ErrorKind::Other
    ));
    assert_eq!(tx.state(), &TransactionState::Validated);
    let mut current = String::new();
    commit_all(&mut tx, &mut current).unwrap();
    assert_eq!(current, "rev-7-8");
    assert!(matches!(
        tx.validate(&RequireConfig { staged: &RefCell::new(Vec::new()) }),
        Err(TransactionError::InvalidState {
            expected: TransactionState::Candidate,
            actual: TransactionState::Committed
        })
    ));
}

#[test]
fn rollbacks_that_cannot_be_done_are_refused() {
    let committed = |previous: Option<String>| {
        let mut tx = RevisionTransaction::begin(Notation::Unix, "r", previous, 7, 8).unwrap();
        tx.accept_validation(Ok(())).unwrap();
        commit_all(&mut tx, &mut String::new()).unwrap();
        tx
    };
    let mut tx = RevisionTransaction::begin(Notation::Unix, "r", None, 7, 8).unwrap();
    assert!(matches!(
        tx.rollback(RevisionEvent::Start),
        RevisionAction::Refused(TransactionError::InvalidState {
            expected: TransactionState::Committed,
            actual: TransactionState::Candidate
        })
    ));
    assert!(matches!(
        committed(None).rollback(RevisionEvent::Start),
        RevisionAction::Refused(TransactionError::NoPreviousRevision)
    ));
    let mut tx = committed(Some("old".into()));
    tx.rollback(RevisionEvent::Start);
    assert!(matches!(
        tx.rollback(RevisionEvent::Present(false)),
        RevisionAction::Refused(TransactionError::NoPreviousRevision)
    ));
    tx.rollback(RevisionEvent::Start);
    tx.rollback(RevisionEvent::Present(true));
    assert!(matches!(
        tx.rollback(RevisionEvent::Failed(io::Error::new(io::ErrorKind::Other, "x"))),
        RevisionAction::Refused(TransactionError::Io(_))
    ));
    assert_eq!(tx.state(), &TransactionState::Committed);
}

fn write_steps(replaces: bool, events: &[WriteEvent]) -> Vec<WriteStep> {
    let mut write = FileWrite::begin(replaces);
    let mut steps = vec![write.step];
    for event in events {
        write.advance(*event);
        steps.push(write.step);
    }
    steps
}

#[test]
fn files_are_written_whole_or_not_at_all() {
    let ok = WriteEvent::Succeeded;
    let failed = WriteEvent::Failed;
    assert_eq!(
        write_steps(true, &[ok, ok, ok]),
        vec![WriteStep::Create, WriteStep::Fill, WriteStep::Install, WriteStep::Done]
    );
    assert_eq!(
        write_steps(true, &[failed]),
        vec![WriteStep::Create, WriteStep::Failed]
    );
    assert_eq!(
        write_steps(true, &[ok, failed, ok]),
        vec![WriteStep::Create, WriteStep::Fill, WriteStep::Discard, WriteStep::Failed]
    );
    assert_eq!(
        write_steps(true, &[ok, ok, failed, failed])[3..],
        [WriteStep::Discard, WriteStep::Failed]
    );
    let found = WriteEvent::Found {
        file: true,
        backup: true,
    };
    assert_eq!(
        write_steps(false, &[ok, ok, found, ok, ok, ok, failed]),
        vec![
            WriteStep::Create,
            WriteStep::Fill,
            WriteStep::Inspect,
            WriteStep::ClearBackup,
            WriteStep::SetAside,
            WriteStep::Install,
            WriteStep::DropBackup,
            WriteStep::Done,
        ]
    );
    assert_eq!(
        write_steps(false, &[ok, ok, found, ok, ok, failed, ok, ok])[6..],
        [WriteStep::PutBack, WriteStep::Discard, WriteStep::Failed]
    );
}

#[test]
fn socks_greetings_are_answered() {
    assert_eq!(greeting_methods(5, 1), Ok(1));
    assert_eq!(greeting_methods(5, 32), Ok(32));
    for (version, methods) in [(4, 1), (5, 0), (5, 33)] {
        assert_eq!(
            greeting_methods(version, methods),
            Err(SocksError::InvalidGreeting)
        );
    }
    assert_eq!(choose_method(&[2, 0]), ([5, 0], Ok(())));
    assert_eq!(
        choose_method(&[2, 1]),
        ([5, 0xff], Err(SocksError::AuthenticationRequired))
    );
    assert_eq!(check_request(&[5, 1, 0, 3]), Ok(()));
    for head in [[4, 1, 0, 1], [5, 2, 0, 1], [5, 1, 1, 1]] {
        assert_eq!(check_request(&head), Err(SocksError::UnsupportedCommand));
    }
    assert_eq!(plain_reply(REPLY_UNSUPPORTED), [5, 7, 0, 1, 0, 0, 0, 0, 0, 0]);
    assert_eq!(plain_reply(REPLY_FAILURE), [5, 1, 0, 1, 0, 0, 0, 0, 0, 0]);
}

#[test]
fn socks_addresses_are_read_whole() {
    assert_eq!(address_missing(1, &[]), Ok(6));
    assert_eq!(address_missing(1, &[0; 6]), Ok(0));
    assert_eq!(address_missing(4, &[0; 5]), Ok(13));
    assert_eq!(address_missing(3, &[]), Ok(1));
    assert_eq!(address_missing(3, &[255]), Ok(257));
    assert_eq!(address_missing(3, &[1, 65, 0, 80]), Ok(0));
    assert_eq!(address_missing(3, &[0]), Err(SocksError::EmptyDomain));
    assert_eq!(address_missing(2, &[]), Err(SocksError::UnsupportedAddress));
}

#[test]
fn socks_upstreams_are_checked() {
    assert_eq!(check_method(&[5, 0]), Ok(()));
    assert_eq!(check_method(&[5, 2]), Err(SocksError::UpstreamRejected));
    assert_eq!(check_response(&[5, 0, 0, 1]), Ok(()));
    assert_eq!(
        check_response(&[5, 4, 0, 1]),
        Err(SocksError::UpstreamFailed { code: 4 })
    );
    assert_eq!(check_upstreams(1), Err(SocksError::TooFewUpstreams));
    assert_eq!(check_upstreams(2), Ok(()));
    let request = health_request();
    assert_eq!(request[5..20], *b"www.gstatic.com");
    assert_eq!(request[20..], 443u16.to_be_bytes());
}

#[test]
fn upstreams_that_are_not_reached_wait_until_they_are() {
    let mut health = Health::new(3);
    assert_eq!(health.flags(), [true, true, true]);
    health.note(1, false);
    assert_eq!(health.flags(), [true, false, true]);
    let mut attempts = Attempts::new(1, 3);
    assert_eq!(attempts.next(health.flags()), Some(2));
    assert_eq!(attempts.next(health.flags()), Some(0));
    assert_eq!(attempts.next(health.flags()), Some(1));
    health.note(1, true);
    assert_eq!(health.flags(), [true, true, true]);
    assert_eq!(Attempts::new(1, 3).next(health.flags()), Some(1));
    assert!(Health::new(0).flags().is_empty());
}

#[test]
fn upstreams_take_turns_and_healthy_ones_come_first() {
    let healthy = [true, false, true];
    let mut attempts = Attempts::new(4, 3);
    let mut order = Vec::new();
    while let Some(index) = attempts.next(&healthy) {
        order.push(index);
    }
    assert_eq!(order, vec![2, 0, 1, 2, 0]);
    let mut attempts = Attempts::new(0, 3);
    assert_eq!(attempts.next(&[true, true, true]), Some(0));
    assert_eq!(attempts.next(&[false, false, true]), Some(2));
    assert_eq!(attempts.next(&[false, false, false]), Some(0));
    assert_eq!(attempts.next(&[false, false, false]), Some(1));
    assert_eq!(attempts.next(&[false, false, false]), Some(2));
    assert_eq!(attempts.next(&[true, true, true]), None);
}
