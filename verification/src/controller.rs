//! Planning a deployment, and the revision transaction that carries it out.
//!
//! Planning only asks which ports are taken. The transaction decides what is to be
//! done to which file; whoever drives it does so and reports how it went.

use crate::product_config::{self, ConfigError, ModuleId, ModuleSet, ProductConfig};
use crate::text::{self, chars_of, split_pieces};
use vstd::prelude::*;

verus! {

/// An error of the operating system.
#[verifier::external_type_specification]
#[verifier::external_body]
pub struct ExIoError(std::io::Error);

/// A transport protocol.
#[derive(Clone, Copy, Debug, PartialEq, Eq, Structural)]
pub enum TransportProtocol {
    Tcp,
    Udp,
}

/// An IP address, as the number that its bytes make in network order.
#[derive(Clone, Copy, Debug, PartialEq, Eq, Structural)]
pub enum HostAddress {
    V4(u32),
    V6(u128),
}

/// A port that the product needs.
#[derive(Clone, Copy, Debug, PartialEq, Eq)]
pub struct PortBinding {
    pub address: HostAddress,
    pub port: u16,
    pub protocol: TransportProtocol,
    pub owner: &'static str,
}

/// A port that is taken.
#[derive(Clone, Debug, PartialEq, Eq)]
pub struct PortConflict {
    pub requested: PortBinding,
    /// Best-effort diagnostic only; never used to construct a shell command.
    pub current_owner: Option<String>,
}

/// Finds out whether a port is taken.
pub trait PortProbe {
    /// The conflict that a port would have, if it would.
    fn conflict(&self, requested: &PortBinding) -> Result<Option<PortConflict>, std::io::Error>;
}

/// A step of a deployment.
#[derive(Clone, Copy, Debug, PartialEq, Eq)]
pub enum PlanAction {
    EnableModule(ModuleId),
    BindPort(PortBinding),
    StageRevision,
    ValidateCandidate,
    CommitRevision,
}

/// What a deployment will do.
#[derive(Clone, Debug, PartialEq, Eq)]
pub struct DeploymentPlan {
    pub schema_version: u32,
    pub modules: ModuleSet,
    pub actions: Vec<PlanAction>,
    pub conflicts: Vec<PortConflict>,
}

/// Why there is no plan.
#[derive(Debug)]
pub enum PlanError {
    Config(ConfigError),
    Probe(std::io::Error),
}

/// Makes plans.
pub struct Planner<'a, P> {
    probe: &'a P,
}

/// Whether a binding is that of the tunnel: every address, over UDP.
pub open spec fn is_transport_binding(b: PortBinding, config: ProductConfig) -> bool {
    &&& b.address == HostAddress::V4(0)
    &&& b.port == config.server.public_udp_port
    &&& b.protocol == TransportProtocol::Udp
    &&& b.owner@ == "smart-gateway-transport"@
}

/// Whether a binding is that of the public service: every address, over TCP.
pub open spec fn is_public_binding(b: PortBinding, config: ProductConfig) -> bool {
    &&& b.address == HostAddress::V4(0)
    &&& b.port == config.server.public_tcp_port
    &&& b.protocol == TransportProtocol::Tcp
    &&& b.owner@ == "smart-gateway-public"@
}

/// Whether modules include a transport.
pub open spec fn has_transport(modules: Set<ModuleId>) -> bool {
    modules.contains(ModuleId::Tuic) || modules.contains(ModuleId::Masque)
}

/// Whether `bindings` are the ports that a configuration needs, in order.
pub open spec fn are_requested(
    bindings: Seq<PortBinding>,
    config: ProductConfig,
    modules: Set<ModuleId>,
) -> bool {
    if has_transport(modules) {
        &&& bindings.len() == 2
        &&& is_transport_binding(bindings[0], config)
        &&& is_public_binding(bindings[1], config)
    } else {
        &&& bindings.len() == 1
        &&& is_public_binding(bindings[0], config)
    }
}

/// The steps of a deployment: enable the modules, bind the ports, and carry out the
/// transaction.
pub open spec fn plan_actions(members: Seq<ModuleId>, bindings: Seq<PortBinding>) -> Seq<
    PlanAction,
> {
    Seq::new(members.len(), |i: int| PlanAction::EnableModule(members[i])) + Seq::new(
        bindings.len(),
        |i: int| PlanAction::BindPort(bindings[i]),
    ) + seq![PlanAction::StageRevision, PlanAction::ValidateCandidate, PlanAction::CommitRevision]
}

/// The conflicts among answers, in order.
pub open spec fn conflicts_of(answers: Seq<Option<PortConflict>>) -> Seq<PortConflict>
    decreases answers.len(),
{
    if answers.len() == 0 {
        Seq::empty()
    } else {
        match answers.last() {
            Some(conflict) => conflicts_of(answers.drop_last()).push(conflict),
            None => conflicts_of(answers.drop_last()),
        }
    }
}

/// Whether `plan` is the plan of a configuration with these modules and ports, when
/// the ports were asked about and `answers` came.
pub open spec fn is_plan(
    plan: DeploymentPlan,
    config: ProductConfig,
    bindings: Seq<PortBinding>,
    answers: Seq<Option<PortConflict>>,
) -> bool {
    &&& config.resolves_to(Ok(plan.modules@))
    &&& are_requested(bindings, config, plan.modules@)
    &&& answers.len() == bindings.len()
    &&& plan.schema_version == config.schema_version
    &&& exists|members: Seq<ModuleId>|
        product_config::lists_in_order(members, plan.modules@) && plan.actions@
            == #[trigger] plan_actions(members, bindings)
    &&& plan.conflicts@ == conflicts_of(answers)
}

/// The ports that a configuration needs.
pub fn requested_bindings(config: &ProductConfig, modules: &ModuleSet) -> (bindings: Vec<
    PortBinding,
>)
    ensures
        are_requested(bindings@, *config, modules@),
{
    let mut bindings: Vec<PortBinding> = Vec::new();
    if modules.contains(&ModuleId::Tuic) || modules.contains(&ModuleId::Masque) {
        bindings.push(
            PortBinding {
                address: HostAddress::V4(0),
                port: config.server.public_udp_port,
                protocol: TransportProtocol::Udp,
                owner: "smart-gateway-transport",
            },
        );
    }
    bindings.push(
        PortBinding {
            address: HostAddress::V4(0),
            port: config.server.public_tcp_port,
            protocol: TransportProtocol::Tcp,
            owner: "smart-gateway-public",
        },
    );
    bindings
}

/// The plan of a configuration with these modules and ports, when the ports were
/// asked about and `answers` came.
pub fn plan_from_answers(
    config: &ProductConfig,
    modules: ModuleSet,
    bindings: &Vec<PortBinding>,
    answers: Vec<Option<PortConflict>>,
) -> (plan: DeploymentPlan)
    requires
        config.resolves_to(Ok(modules@)),
        are_requested(bindings@, *config, modules@),
        answers@.len() == bindings@.len(),
    ensures
        is_plan(plan, *config, bindings@, answers@),
{
    let ghost all = answers@;
    let members: Vec<ModuleId> = modules.members();
    let mut actions: Vec<PlanAction> = Vec::new();
    let mut i: usize = 0;
    while i < members.len()
        invariant
            i <= members@.len(),
            actions@ == Seq::new(i as nat, |k: int| PlanAction::EnableModule(members@[k])),
        decreases members@.len() - i,
    {
        actions.push(PlanAction::EnableModule(members[i]));
        i = i + 1;
        assert(actions@ =~= Seq::new(i as nat, |k: int| PlanAction::EnableModule(members@[k])));
    }
    let ghost enabled = actions@;
    let mut j: usize = 0;
    assert(enabled =~= enabled + Seq::new(0, |k: int| PlanAction::BindPort(bindings@[k])));
    while j < bindings.len()
        invariant
            j <= bindings@.len(),
            actions@ == enabled + Seq::new(
                j as nat,
                |k: int| PlanAction::BindPort(bindings@[k]),
            ),
        decreases bindings@.len() - j,
    {
        actions.push(PlanAction::BindPort(bindings[j]));
        j = j + 1;
        assert(actions@ =~= enabled + Seq::new(
            j as nat,
            |k: int| PlanAction::BindPort(bindings@[k]),
        ));
    }
    actions.push(PlanAction::StageRevision);
    actions.push(PlanAction::ValidateCandidate);
    actions.push(PlanAction::CommitRevision);
    assert(actions@ =~= plan_actions(members@, bindings@));
    let mut answers: Vec<Option<PortConflict>> = answers;
    let mut conflicts: Vec<PortConflict> = Vec::new();
    let mut taken: usize = 0;
    let total: usize = answers.len();
    assert(all.take(0) =~= Seq::<Option<PortConflict>>::empty());
    while taken < total
        invariant
            taken <= total,
            total == all.len(),
            answers@ == all.skip(taken as int),
            conflicts@ == conflicts_of(all.take(taken as int)),
        decreases total - taken,
    {
        assert(all.take(taken + 1).drop_last() =~= all.take(taken as int));
        assert(all.take(taken + 1).last() == answers@[0]);
        let answer: Option<PortConflict> = answers.remove(0);
        assert(answers@ =~= all.skip(taken + 1));
        match answer {
            Some(conflict) => conflicts.push(conflict),
            None => {},
        }
        taken = taken + 1;
    }
    assert(all.take(taken as int) =~= all);
    DeploymentPlan { schema_version: config.schema_version, modules, actions, conflicts }
}

/// Whether `answers` are what a probe answered when asked about `bindings`.
pub open spec fn are_answers<P: PortProbe>(
    probe: P,
    bindings: Seq<PortBinding>,
    answers: Seq<Option<PortConflict>>,
) -> bool {
    &&& answers.len() == bindings.len()
    &&& forall|k: int|
        0 <= k < bindings.len() ==> call_ensures(
            P::conflict,
            (&probe, &bindings[k]),
            Ok::<Option<PortConflict>, std::io::Error>(#[trigger] answers[k]),
        )
}

/// Whether `plan` is the plan of a configuration with what a probe answered.
pub open spec fn is_answered_plan<P: PortProbe>(
    plan: DeploymentPlan,
    config: ProductConfig,
    probe: P,
) -> bool {
    exists|bindings: Seq<PortBinding>, answers: Seq<Option<PortConflict>>| #[trigger]
        is_plan(plan, config, bindings, answers) && are_answers(probe, bindings, answers)
}

/// Whether `e` is the error of a probe when asked about one port.
pub open spec fn is_probe_error<P: PortProbe>(
    probe: P,
    binding: PortBinding,
    e: std::io::Error,
) -> bool {
    call_ensures(
        P::conflict,
        (&probe, &binding),
        Err::<Option<PortConflict>, std::io::Error>(e),
    )
}

/// Whether `e` is the error of a probe when asked about a port that a configuration
/// needs, once it had answered for all ports before that one.
pub open spec fn probe_failed<P: PortProbe>(
    config: ProductConfig,
    probe: P,
    e: std::io::Error,
) -> bool {
    exists|
        modules: Set<ModuleId>,
        bindings: Seq<PortBinding>,
        k: int,
        answers: Seq<Option<PortConflict>>,
    |
        {
            &&& config.resolves_to(Ok(modules))
            &&& #[trigger] are_requested(bindings, config, modules)
            &&& 0 <= k < bindings.len()
            &&& #[trigger] are_answers(probe, bindings.take(k), answers)
            &&& #[trigger] is_probe_error(probe, bindings[k], e)
        }
}

impl<'a, P: PortProbe> Planner<'a, P> {
    /// The probe that ports are asked of.
    pub closed spec fn asks(&self) -> P {
        *self.probe
    }

    /// A planner that asks `probe`.
    pub fn new(probe: &'a P) -> (planner: Self)
        ensures
            planner.asks() == *probe,
    {
        Planner { probe }
    }

    /// The plan of a configuration. Nothing is changed by planning. What the probe
    /// answers is up to it: a plan holds the conflicts that it found, or planning ends
    /// with the error of the first port that it has no answer for. How often the probe
    /// is asked is not stated.
    pub fn build(&self, config: &ProductConfig) -> (plan: Result<DeploymentPlan, PlanError>)
        ensures
            match plan {
                Ok(p) => is_answered_plan(p, *config, self.asks()),
                Err(PlanError::Config(e)) => config.resolves_to(Err(e)),
                Err(PlanError::Probe(e)) => probe_failed(*config, self.asks(), e),
            },
    {
        let modules: ModuleSet = match config.resolve_modules() {
            Ok(modules) => modules,
            Err(e) => return Err(PlanError::Config(e)),
        };
        assert(config.resolves_to(Ok(modules@)));
        let bindings: Vec<PortBinding> = requested_bindings(config, &modules);
        let mut answers: Vec<Option<PortConflict>> = Vec::new();
        let mut i: usize = 0;
        while i < bindings.len()
            invariant
                i <= bindings@.len(),
                answers@.len() == i,
                config.resolves_to(Ok(modules@)),
                are_requested(bindings@, *config, modules@),
                are_answers(*self.probe, bindings@.take(i as int), answers@),
            decreases bindings@.len() - i,
        {
            match self.probe.conflict(&bindings[i]) {
                Ok(answer) => answers.push(answer),
                Err(e) => {
                    assert(are_requested(bindings@, *config, modules@));
                    assert(are_answers(*self.probe, bindings@.take(i as int), answers@));
                    assert(is_probe_error(*self.probe, bindings@[i as int], e));
                    return Err(PlanError::Probe(e));
                },
            }
            i = i + 1;
        }
        let ghost said = answers@;
        assert(bindings@.take(i as int) =~= bindings@);
        let plan: DeploymentPlan = plan_from_answers(config, modules, &bindings, answers);
        assert(is_plan(plan, *config, bindings@, said));
        Ok(plan)
    }
}

/// Checks a candidate before it is committed.
pub trait CandidateValidator {
    /// Why the candidate in a directory will not do, if it will not.
    fn validate(&self, candidate: &str) -> Result<(), String>;
}

/// How far a transaction has come.
#[derive(Clone, Copy, Debug, PartialEq, Eq, Structural)]
pub enum TransactionState {
    Candidate,
    Validated,
    Committed,
    RolledBack,
}

/// Why a transaction does not go on.
#[derive(Debug)]
pub enum TransactionError {
    Io(std::io::Error),
    InvalidState { expected: TransactionState, actual: TransactionState },
    InvalidArtifactName,
    Validation(String),
    NoPreviousRevision,
}

/// Why a transaction does not go on, as a mathematical value.
pub enum TransactionErrorModel {
    Io(std::io::Error),
    InvalidState { expected: TransactionState, actual: TransactionState },
    InvalidArtifactName,
    Validation(Seq<char>),
    NoPreviousRevision,
}

impl View for TransactionError {
    type V = TransactionErrorModel;

    open spec fn view(&self) -> TransactionErrorModel {
        match self {
            TransactionError::Io(e) => TransactionErrorModel::Io(*e),
            TransactionError::InvalidState {
                expected,
                actual,
            } => TransactionErrorModel::InvalidState { expected: *expected, actual: *actual },
            TransactionError::InvalidArtifactName => TransactionErrorModel::InvalidArtifactName,
            TransactionError::Validation(why) => TransactionErrorModel::Validation(why@),
            TransactionError::NoPreviousRevision => TransactionErrorModel::NoPreviousRevision,
        }
    }
}

/// Whether a piece of a path names the directory it is in.
pub open spec fn is_here(piece: Seq<char>) -> bool {
    piece == seq!['.']
}

/// Whether a piece of a path names the directory above.
pub open spec fn is_above(piece: Seq<char>) -> bool {
    piece == seq!['.', '.']
}

/// How paths are written.
#[derive(Clone, Copy, Debug, PartialEq, Eq, Structural)]
pub enum Notation {
    /// With slashes.
    Unix,
    /// With backslashes or slashes, perhaps behind a drive.
    Windows,
}

/// Whether a character stands between the pieces of a path.
pub open spec fn is_separator_model(notation: Notation, c: char) -> bool {
    c == '/' || notation == Notation::Windows && c == '\\'
}

/// Whether a character is a letter from A to Z.
pub open spec fn is_letter_model(c: char) -> bool {
    0x41 <= c as u32 <= 0x5a || 0x61 <= c as u32 <= 0x7a
}

/// Whether a path begins with a drive.
pub open spec fn has_drive_model(notation: Notation, path: Seq<char>) -> bool {
    &&& notation == Notation::Windows
    &&& path.len() >= 2
    &&& is_letter_model(path[0])
    &&& path[1] == ':'
}

/// A path with a slash for every separator.
pub open spec fn slashed(notation: Notation, path: Seq<char>) -> Seq<char> {
    Seq::new(
        path.len(),
        |i: int|
            if is_separator_model(notation, path[i]) {
                '/'
            } else {
                path[i]
            },
    )
}

/// The pieces of a path.
pub open spec fn path_pieces(notation: Notation, path: Seq<char>) -> Seq<Seq<char>> {
    text::pieces_of(slashed(notation, path), '/')
}

/// Whether a path is a single name: there is no drive, it begins with a name, and what
/// may follow leads nowhere else.
pub open spec fn is_plain_model(notation: Notation, path: Seq<char>) -> bool {
    let pieces = path_pieces(notation, path);
    &&& !has_drive_model(notation, path)
    &&& pieces[0].len() > 0
    &&& !is_here(pieces[0])
    &&& !is_above(pieces[0])
    &&& forall|i: int|
        1 <= i < pieces.len() ==> (#[trigger] pieces[i]).len() == 0 || is_here(pieces[i])
}

/// A plain file name stays inside the directory that it is looked up in: it is not
/// absolute, names no drive, and no piece of it leads upwards.
pub proof fn law_plain_names_stay_inside(notation: Notation, path: Seq<char>)
    requires
        is_plain_model(notation, path),
    ensures
        path.len() > 0,
        !is_separator_model(notation, path[0]),
        !has_drive_model(notation, path),
        forall|i: int|
            0 <= i < path_pieces(notation, path).len() ==> !is_above(
                #[trigger] path_pieces(notation, path)[i],
            ),
{
    let pieces = path_pieces(notation, path);
    let plain = slashed(notation, path);
    text::lemma_first_piece(plain, '/');
    assert(plain.take(pieces[0].len() as int)[0] == pieces[0][0]);
    assert(pieces[0].contains(pieces[0][0]));
    assert(plain[0] != '/');
    assert forall|i: int| 0 <= i < pieces.len() implies !is_above(#[trigger] pieces[i]) by {
        if i > 0 && is_above(pieces[i]) {
            assert(pieces[i].len() == 2);
            assert(seq!['.'].len() == 1);
        }
    }
}

/// Whether a character stands between the pieces of a path.
fn is_separator(notation: Notation, c: char) -> (yes: bool)
    ensures
        yes == is_separator_model(notation, c),
{
    c == '/' || notation == Notation::Windows && c == '\\'
}

/// Whether a path begins with a drive.
fn has_drive(notation: Notation, path: &Vec<char>) -> (yes: bool)
    ensures
        yes == has_drive_model(notation, path@),
{
    if notation != Notation::Windows || path.len() < 2 {
        return false;
    }
    let first: u32 = path[0] as u32;
    (0x41 <= first && first <= 0x5a || 0x61 <= first && first <= 0x7a) && path[1] == ':'
}

/// Whether a path is a single name.
pub fn is_plain_file_name(notation: Notation, value: &str) -> (plain: bool)
    ensures
        plain == is_plain_model(notation, value@),
{
    let chars: Vec<char> = chars_of(value);
    if has_drive(notation, &chars) {
        return false;
    }
    let mut slashes: Vec<char> = Vec::new();
    let mut k: usize = 0;
    while k < chars.len()
        invariant
            k <= chars@.len(),
            slashes@ == slashed(notation, chars@).take(k as int),
        decreases chars@.len() - k,
    {
        slashes.push(
            if is_separator(notation, chars[k]) {
                '/'
            } else {
                chars[k]
            },
        );
        k = k + 1;
        assert(slashes@ =~= slashed(notation, chars@).take(k as int));
    }
    assert(slashes@ =~= slashed(notation, value@));
    let pieces: Vec<Vec<char>> = split_pieces(&slashes, '/');
    let ghost views = path_pieces(notation, value@);
    proof {
        text::lemma_first_piece(slashes@, '/');
    }
    assert(pieces@[0]@ == views[0]);
    if pieces[0].len() == 0 || is_dots(&pieces[0], 1) || is_dots(&pieces[0], 2) {
        return false;
    }
    let mut i: usize = 1;
    while i < pieces.len()
        invariant
            1 <= i <= pieces@.len(),
            pieces@.len() == views.len(),
            views == path_pieces(notation, value@),
            forall|j: int| 0 <= j < pieces@.len() ==> (#[trigger] pieces@[j])@ == views[j],
            forall|j: int|
                1 <= j < i ==> (#[trigger] views[j]).len() == 0 || is_here(views[j]),
        decreases pieces@.len() - i,
    {
        assert(pieces@[i as int]@ == views[i as int]);
        if pieces[i].len() != 0 && !is_dots(&pieces[i], 1) {
            return false;
        }
        i = i + 1;
    }
    true
}

/// Whether a piece of a path is one or two dots.
fn is_dots(piece: &Vec<char>, n: usize) -> (yes: bool)
    requires
        n == 1 || n == 2,
    ensures
        n == 1 ==> yes == is_here(piece@),
        n == 2 ==> yes == is_above(piece@),
{
    if piece.len() != n {
        return false;
    }
    if n == 1 {
        assert(piece[0] == '.' ==> piece@ =~= seq!['.']);
        piece[0] == '.'
    } else {
        assert(piece[0] == '.' && piece[1] == '.' ==> piece@ =~= seq!['.', '.']);
        piece[0] == '.' && piece[1] == '.'
    }
}

/// Whether a relative path can stand right behind another path: that one is empty, ends
/// in a separator, or is nothing but a drive.
pub open spec fn is_open_ended(notation: Notation, base: Seq<char>) -> bool {
    ||| base.len() == 0
    ||| is_separator_model(notation, base.last())
    ||| base.len() == 2 && has_drive_model(notation, base)
}

/// The separator that is put between the pieces of a path.
pub open spec fn separator_model(notation: Notation) -> char {
    match notation {
        Notation::Unix => '/',
        Notation::Windows => '\\',
    }
}

/// A path with a relative path behind it. The path in front is taken as it stands.
pub open spec fn join_model(notation: Notation, base: Seq<char>, rest: Seq<char>) -> Seq<char> {
    if is_open_ended(notation, base) {
        base + rest
    } else {
        base.push(separator_model(notation)) + rest
    }
}

/// A path with a relative path behind it.
fn join_path(notation: Notation, base: &str, rest: &str) -> (path: String)
    ensures
        path@ == join_model(notation, base@, rest@),
{
    let chars: Vec<char> = chars_of(base);
    let mut path: String = base.to_owned();
    let open_ended: bool = chars.len() == 0 || is_separator(notation, chars[chars.len() - 1])
        || chars.len() == 2 && has_drive(notation, &chars);
    if !open_ended {
        match notation {
            Notation::Unix => path.push('/'),
            Notation::Windows => path.push('\\'),
        }
    }
    path.append(rest);
    path
}

/// A decimal digit.
pub open spec fn digit_char(d: nat) -> char {
    (48 + d) as char
}

/// A number in decimal.
pub open spec fn decimal_text(n: nat) -> Seq<char>
    decreases n,
{
    if n < 10 {
        seq![digit_char(n)]
    } else {
        decimal_text(n / 10).push(digit_char(n % 10))
    }
}

/// Appends a number in decimal.
fn push_decimal(out: &mut String, n: u128)
    ensures
        final(out)@ == old(out)@ + decimal_text(n as nat),
    decreases n,
{
    let ghost before = out@;
    if n >= 10 {
        push_decimal(out, n / 10);
    }
    let digit: u8 = 48 + (n % 10) as u8;
    out.push(digit as char);
    assert(out@ =~= before + decimal_text(n as nat));
}

/// The name of a revision that was begun at a time by a process.
pub open spec fn revision_name_model(nanos: u128, process: u32) -> Seq<char> {
    "rev-"@ + decimal_text(nanos as nat) + seq!['-'] + decimal_text(process as nat)
}

/// The name of a revision that was begun `nanos` nanoseconds after the Unix epoch by
/// the process `process`.
pub fn revision_name(nanos: u128, process: u32) -> (name: String)
    ensures
        name@ == revision_name_model(nanos, process),
{
    let mut name: String = "rev-".to_owned();
    push_decimal(&mut name, nanos);
    name.push('-');
    push_decimal(&mut name, process as u128);
    assert(name@ =~= revision_name_model(nanos, process));
    name
}

/// A number in decimal has no other characters than digits.
proof fn lemma_decimal_digits(n: nat)
    ensures
        decimal_text(n).len() > 0,
        forall|i: int|
            0 <= i < decimal_text(n).len() ==> text::is_digit_model(#[trigger] decimal_text(n)[i]),
    decreases n,
{
    if n >= 10 {
        lemma_decimal_digits(n / 10);
    }
}

/// The name of a revision is a plain file name.
pub proof fn law_revision_names_are_plain(notation: Notation, nanos: u128, process: u32)
    ensures
        is_plain_model(notation, revision_name_model(nanos, process)),
{
    reveal_strlit("rev-");
    let name = revision_name_model(nanos, process);
    let prefix = "rev-"@;
    let time = decimal_text(nanos as nat);
    let pid = decimal_text(process as nat);
    lemma_decimal_digits(nanos as nat);
    lemma_decimal_digits(process as nat);
    assert forall|i: int| 0 <= i < name.len() implies !is_separator_model(
        notation,
        name[i],
    ) by {
        if i < prefix.len() {
            assert(name[i] == prefix[i]);
        } else if i < prefix.len() + time.len() {
            assert(name[i] == time[i - prefix.len()]);
        } else if i == prefix.len() + time.len() {
        } else {
            assert(name[i] == pid[i - prefix.len() - time.len() - 1]);
        }
    }
    assert(slashed(notation, name) =~= name);
    assert(!name.contains('/')) by {
        if name.contains('/') {
            let i = choose|i: int| 0 <= i < name.len() && name[i] == '/';
            assert(!is_separator_model(notation, name[i]));
        }
    }
    text::lemma_one_piece(name, '/');
    assert(name[0] == prefix[0] && name[1] == prefix[1]);
    assert(seq!['.'][0] != name[0]);
    assert(seq!['.', '.'][0] != name[0]);
}

/// What a transaction waits for.
#[derive(Clone, Copy, Debug, PartialEq, Eq, Structural)]
pub enum Progress {
    Idle,
    /// The candidate is being moved among the revisions.
    Moving,
    /// The pointer is being set to the revision.
    Pointing,
    /// The revision is being moved back among the candidates.
    Restoring,
    /// The previous revision is being looked for.
    Checking,
    /// The pointer is being set to the previous revision.
    PointingBack,
}

/// What a transaction is told.
#[derive(Debug)]
pub enum RevisionEvent {
    /// Begin.
    Start,
    /// What was to be done is done.
    Done,
    /// What was to be done failed.
    Failed(std::io::Error),
    /// Whether what was to be looked for is there.
    Present(bool),
}

/// What is to be done for a transaction. Paths include the root directory.
#[derive(Debug)]
pub enum RevisionAction {
    /// Move a directory.
    Move { from: String, to: String },
    /// Set the pointer to a revision, all or nothing.
    WritePointer { revision: String },
    /// Look for a directory.
    Look { path: String },
    /// Nothing: it is finished.
    Finished,
    /// Nothing: it does not go on.
    Refused(TransactionError),
}

/// What is to be done for a transaction, as a mathematical value.
pub enum RevisionActionModel {
    Move { from: Seq<char>, to: Seq<char> },
    WritePointer { revision: Seq<char> },
    Look { path: Seq<char> },
    Finished,
    Refused(TransactionErrorModel),
}

impl View for RevisionAction {
    type V = RevisionActionModel;

    open spec fn view(&self) -> RevisionActionModel {
        match self {
            RevisionAction::Move { from, to } => RevisionActionModel::Move { from: from@, to: to@ },
            RevisionAction::WritePointer { revision } => RevisionActionModel::WritePointer {
                revision: revision@,
            },
            RevisionAction::Look { path } => RevisionActionModel::Look { path: path@ },
            RevisionAction::Finished => RevisionActionModel::Finished,
            RevisionAction::Refused(e) => RevisionActionModel::Refused(e@),
        }
    }
}

/// A transaction on the revisions below a directory. Artifacts are constrained to
/// plain file names, so that no configuration can write outside the candidate
/// directory.
#[derive(Debug)]
pub struct RevisionTransaction {
    notation: Notation,
    root: String,
    previous: Option<String>,
    revision_id: String,
    state: TransactionState,
    progress: Progress,
    failure: Option<std::io::Error>,
}

/// A transaction as a mathematical value.
#[verifier::ext_equal]
pub struct TransactionModel {
    pub notation: Notation,
    pub root: Seq<char>,
    pub previous: Option<Seq<char>>,
    pub revision: Seq<char>,
    pub state: TransactionState,
    pub progress: Progress,
    pub failure: Option<std::io::Error>,
}

/// An optional name as a mathematical value.
pub open spec fn name_view(name: Option<String>) -> Option<Seq<char>> {
    match name {
        Some(n) => Some(n@),
        None => None,
    }
}

impl View for RevisionTransaction {
    type V = TransactionModel;

    closed spec fn view(&self) -> TransactionModel {
        TransactionModel {
            notation: self.notation,
            root: self.root@,
            previous: name_view(self.previous),
            revision: self.revision_id@,
            state: self.state,
            progress: self.progress,
            failure: self.failure,
        }
    }
}

/// The directory of a revision below `kind`, which is that of the candidates or that
/// of the revisions.
pub open spec fn revision_path(
    notation: Notation,
    root: Seq<char>,
    kind: Seq<char>,
    revision: Seq<char>,
) -> Seq<char> {
    join_model(notation, join_model(notation, root, kind), revision)
}

impl TransactionModel {
    /// What every operation keeps: the revision and the previous one have plain
    /// names, and a failure is remembered just while the revision is moved back.
    pub open spec fn wf(self) -> bool {
        &&& is_plain_model(self.notation, self.revision)
        &&& self.previous matches Some(name) ==> is_plain_model(self.notation, name)
        &&& self.failure is Some <==> self.progress == Progress::Restoring
        &&& self.progress == Progress::Moving || self.progress == Progress::Pointing
            || self.progress == Progress::Restoring ==> self.state == TransactionState::Validated
        &&& self.progress == Progress::Checking || self.progress == Progress::PointingBack
            ==> self.state == TransactionState::Committed && self.previous is Some
    }

    /// The directory of the candidate.
    pub open spec fn candidate(self) -> Seq<char> {
        revision_path(self.notation, self.root, "candidates"@, self.revision)
    }

    /// The directory of the revision once it is committed.
    pub open spec fn committed(self) -> Seq<char> {
        revision_path(self.notation, self.root, "revisions"@, self.revision)
    }

    /// Why an operation that needs a state is refused, if it is.
    pub open spec fn unexpected(self, expected: TransactionState) -> Option<
        TransactionErrorModel,
    > {
        if self.state == expected {
            None
        } else {
            Some(TransactionErrorModel::InvalidState { expected, actual: self.state })
        }
    }

    /// The transaction at another point.
    pub open spec fn at(self, progress: Progress) -> TransactionModel {
        TransactionModel { progress, ..self }
    }

    /// Whether a commit can be told of an event.
    pub open spec fn commit_awaits(self, event: RevisionEvent) -> bool {
        match event {
            RevisionEvent::Start => self.progress == Progress::Idle,
            RevisionEvent::Present(_) => false,
            _ => self.progress == Progress::Moving || self.progress == Progress::Pointing
                || self.progress == Progress::Restoring,
        }
    }

    /// What a commit does next.
    pub open spec fn commit_step(self, event: RevisionEvent) -> (
        TransactionModel,
        RevisionActionModel,
    ) {
        match self.progress {
            Progress::Moving => match event {
                RevisionEvent::Failed(e) => (
                    self.at(Progress::Idle),
                    RevisionActionModel::Refused(TransactionErrorModel::Io(e)),
                ),
                _ => (
                    self.at(Progress::Pointing),
                    RevisionActionModel::WritePointer { revision: self.revision },
                ),
            },
            Progress::Pointing => match event {
                RevisionEvent::Failed(e) => (
                    TransactionModel { failure: Some(e), ..self.at(Progress::Restoring) },
                    RevisionActionModel::Move { from: self.committed(), to: self.candidate() },
                ),
                _ => (
                    TransactionModel {
                        state: TransactionState::Committed,
                        ..self.at(Progress::Idle)
                    },
                    RevisionActionModel::Finished,
                ),
            },
            Progress::Restoring => (
                TransactionModel { failure: None, ..self.at(Progress::Idle) },
                RevisionActionModel::Refused(TransactionErrorModel::Io(self.failure->0)),
            ),
            _ => match self.unexpected(TransactionState::Validated) {
                Some(e) => (self, RevisionActionModel::Refused(e)),
                None => (
                    self.at(Progress::Moving),
                    RevisionActionModel::Move { from: self.candidate(), to: self.committed() },
                ),
            },
        }
    }

    /// Whether a rollback can be told of an event.
    pub open spec fn rollback_awaits(self, event: RevisionEvent) -> bool {
        match event {
            RevisionEvent::Start => self.progress == Progress::Idle,
            RevisionEvent::Present(_) => self.progress == Progress::Checking,
            _ => self.progress == Progress::PointingBack,
        }
    }

    /// What a rollback does next.
    pub open spec fn rollback_step(self, event: RevisionEvent) -> (
        TransactionModel,
        RevisionActionModel,
    ) {
        match event {
            RevisionEvent::Start => match self.unexpected(TransactionState::Committed) {
                Some(e) => (self, RevisionActionModel::Refused(e)),
                None => match self.previous {
                    None => (
                        self,
                        RevisionActionModel::Refused(TransactionErrorModel::NoPreviousRevision),
                    ),
                    Some(name) => (
                        self.at(Progress::Checking),
                        RevisionActionModel::Look {
                            path: revision_path(self.notation, self.root, "revisions"@, name),
                        },
                    ),
                },
            },
            RevisionEvent::Present(there) => if there {
                (
                    self.at(Progress::PointingBack),
                    RevisionActionModel::WritePointer { revision: self.previous->0 },
                )
            } else {
                (
                    self.at(Progress::Idle),
                    RevisionActionModel::Refused(TransactionErrorModel::NoPreviousRevision),
                )
            },
            RevisionEvent::Done => (
                TransactionModel { state: TransactionState::RolledBack, ..self.at(Progress::Idle) },
                RevisionActionModel::Finished,
            ),
            RevisionEvent::Failed(e) => (
                self.at(Progress::Idle),
                RevisionActionModel::Refused(TransactionErrorModel::Io(e)),
            ),
        }
    }

    /// The transaction after a check of the candidate, and the error that it gives.
    pub open spec fn validation(self, outcome: Result<(), Seq<char>>) -> (
        TransactionModel,
        Result<(), TransactionErrorModel>,
    ) {
        match outcome {
            Ok(_) => (
                TransactionModel { state: TransactionState::Validated, ..self },
                Ok(()),
            ),
            Err(why) => (self, Err(TransactionErrorModel::Validation(why))),
        }
    }
}

/// An error as a mathematical value.
pub open spec fn error_view<T>(r: Result<T, TransactionError>) -> Result<T, TransactionErrorModel> {
    match r {
        Ok(value) => Ok(value),
        Err(e) => Err(e@),
    }
}

/// The outcome of a check as a mathematical value.
pub open spec fn outcome_view(r: Result<(), String>) -> Result<(), Seq<char>> {
    match r {
        Ok(_) => Ok(()),
        Err(why) => Err(why@),
    }
}

/// The name that an artifact has until it is complete.
pub open spec fn temporary_name(name: Seq<char>) -> Seq<char> {
    seq!['.'] + name + ".tmp"@
}

impl RevisionTransaction {
    /// Begins a transaction below `root` that can be rolled back to `previous`,
    /// `nanos` nanoseconds after the Unix epoch in the process `process`, on a machine
    /// that writes paths in `notation`.
    pub fn begin(
        notation: Notation,
        root: &str,
        previous: Option<String>,
        nanos: u128,
        process: u32,
    ) -> (begun: Result<Self, TransactionError>)
        ensures
            match begun {
                Ok(t) => {
                    &&& t@.wf()
                    &&& t@ == (TransactionModel {
                        notation,
                        root: root@,
                        previous: name_view(previous),
                        revision: revision_name_model(nanos, process),
                        state: TransactionState::Candidate,
                        progress: Progress::Idle,
                        failure: None,
                    })
                    &&& previous matches Some(name) ==> is_plain_model(notation, name@)
                },
                Err(e) => {
                    &&& e == TransactionError::InvalidArtifactName
                    &&& previous matches Some(name) && !is_plain_model(notation, name@)
                },
            },
    {
        match &previous {
            Some(name) => {
                if !is_plain_file_name(notation, name.as_str()) {
                    return Err(TransactionError::InvalidArtifactName);
                }
            },
            None => {},
        }
        proof {
            law_revision_names_are_plain(notation, nanos, process);
        }
        Ok(
            RevisionTransaction {
                notation,
                root: root.to_owned(),
                previous,
                revision_id: revision_name(nanos, process),
                state: TransactionState::Candidate,
                progress: Progress::Idle,
                failure: None,
            },
        )
    }

    /// How far the transaction has come.
    pub fn state(&self) -> (state: &TransactionState)
        ensures
            *state == self@.state,
    {
        &self.state
    }

    /// The name of the revision.
    pub fn revision_id(&self) -> (name: &str)
        ensures
            name@ == self@.revision,
    {
        self.revision_id.as_str()
    }

    /// The directory of a revision below `kind`.
    fn place_of(&self, kind: &str, revision: &str) -> (path: String)
        ensures
            path@ == revision_path(self@.notation, self@.root, kind@, revision@),
    {
        let directory: String = join_path(self.notation, self.root.as_str(), kind);
        join_path(self.notation, directory.as_str(), revision)
    }

    /// The directory of the candidate.
    pub fn candidate_path(&self) -> (path: String)
        ensures
            path@ == self@.candidate(),
    {
        self.place_of("candidates", self.revision_id.as_str())
    }

    /// The directory of the revision once it is committed.
    pub fn committed_path(&self) -> (path: String)
        ensures
            path@ == self@.committed(),
    {
        self.place_of("revisions", self.revision_id.as_str())
    }

    /// Checks that the transaction is in a state.
    fn expect(&self, expected: TransactionState) -> (checked: Result<(), TransactionError>)
        ensures
            error_view(checked) == match self@.unexpected(expected) {
                None => Ok::<(), TransactionErrorModel>(()),
                Some(e) => Err(e),
            },
    {
        if self.state == expected {
            Ok(())
        } else {
            Err(TransactionError::InvalidState { expected, actual: self.state })
        }
    }

    /// Where an artifact goes, and where it stays until it is complete.
    pub fn stage(&self, artifact_name: &str) -> (paths: Result<(String, String), TransactionError>)
        ensures
            match self@.unexpected(TransactionState::Candidate) {
                Some(e) => paths matches Err(f) && f@ == e,
                None => if !is_plain_model(self@.notation, artifact_name@) {
                    paths matches Err(f) && f@ == TransactionErrorModel::InvalidArtifactName
                } else {
                    paths matches Ok((path, temporary)) && path@ == join_model(
                        self@.notation,
                        self@.candidate(),
                        artifact_name@,
                    ) && temporary@ == join_model(
                        self@.notation,
                        self@.candidate(),
                        temporary_name(artifact_name@),
                    )
                },
            },
    {
        match self.expect(TransactionState::Candidate) {
            Ok(_) => {},
            Err(e) => return Err(e),
        }
        if !is_plain_file_name(self.notation, artifact_name) {
            return Err(TransactionError::InvalidArtifactName);
        }
        let directory: String = self.candidate_path();
        let mut name: String = ".".to_owned();
        proof {
            reveal_strlit(".");
            assert(name@ =~= seq!['.']);
        }
        name.append(artifact_name);
        name.append(".tmp");
        Ok(
            (
                join_path(self.notation, directory.as_str(), artifact_name),
                join_path(self.notation, directory.as_str(), name.as_str()),
            ),
        )
    }

    /// Takes the outcome of a check of the candidate.
    pub fn accept_validation(&mut self, outcome: Result<(), String>) -> (checked: Result<
        (),
        TransactionError,
    >)
        requires
            old(self)@.wf(),
            old(self)@.state == TransactionState::Candidate,
        ensures
            final(self)@.wf(),
            (final(self)@, error_view(checked)) == old(self)@.validation(outcome_view(outcome)),
    {
        match outcome {
            Ok(_) => {
                self.state = TransactionState::Validated;
                Ok(())
            },
            Err(why) => Err(TransactionError::Validation(why)),
        }
    }

    /// Has the candidate checked. What the validator finds is up to it.
    pub fn validate<V: CandidateValidator>(&mut self, validator: &V) -> (checked: Result<
        (),
        TransactionError,
    >)
        requires
            old(self)@.wf(),
        ensures
            final(self)@.wf(),
            match old(self)@.unexpected(TransactionState::Candidate) {
                Some(e) => final(self)@ == old(self)@ && error_view(checked) == Err::<
                    (),
                    TransactionErrorModel,
                >(e),
                None => exists|path: &str, outcome: Result<(), String>|
                    {
                        &&& path@ == old(self)@.candidate()
                        &&& #[trigger] call_ensures(V::validate, (validator, path), outcome)
                        &&& (final(self)@, error_view(checked)) == old(self)@.validation(
                            outcome_view(outcome),
                        )
                    },
            },
    {
        match self.expect(TransactionState::Candidate) {
            Ok(_) => {},
            Err(e) => return Err(e),
        }
        let path: String = self.candidate_path();
        let outcome: Result<(), String> = validator.validate(path.as_str());
        self.accept_validation(outcome)
    }

    /// Commits the revision: told of an event, says what is to be done next.
    pub fn commit(&mut self, event: RevisionEvent) -> (action: RevisionAction)
        requires
            old(self)@.wf(),
            old(self)@.commit_awaits(event),
        ensures
            final(self)@.wf(),
            (final(self)@, action@) == old(self)@.commit_step(event),
    {
        match self.progress {
            Progress::Moving => match event {
                RevisionEvent::Failed(e) => {
                    self.progress = Progress::Idle;
                    RevisionAction::Refused(TransactionError::Io(e))
                },
                _ => {
                    self.progress = Progress::Pointing;
                    RevisionAction::WritePointer { revision: self.revision_id.clone() }
                },
            },
            Progress::Pointing => match event {
                RevisionEvent::Failed(e) => {
                    self.progress = Progress::Restoring;
                    self.failure = Some(e);
                    RevisionAction::Move { from: self.committed_path(), to: self.candidate_path() }
                },
                _ => {
                    self.progress = Progress::Idle;
                    self.state = TransactionState::Committed;
                    RevisionAction::Finished
                },
            },
            Progress::Restoring => {
                self.progress = Progress::Idle;
                let failure: Option<std::io::Error> = self.failure.take();
                match failure {
                    Some(e) => RevisionAction::Refused(TransactionError::Io(e)),
                    None => RevisionAction::Finished,
                }
            },
            _ => match self.expect(TransactionState::Validated) {
                Ok(_) => {
                    self.progress = Progress::Moving;
                    RevisionAction::Move { from: self.candidate_path(), to: self.committed_path() }
                },
                Err(e) => RevisionAction::Refused(e),
            },
        }
    }

    /// Rolls back to the previous revision: told of an event, says what is to be
    /// done next.
    pub fn rollback(&mut self, event: RevisionEvent) -> (action: RevisionAction)
        requires
            old(self)@.wf(),
            old(self)@.rollback_awaits(event),
        ensures
            final(self)@.wf(),
            (final(self)@, action@) == old(self)@.rollback_step(event),
    {
        match event {
            RevisionEvent::Start => {
                match self.expect(TransactionState::Committed) {
                    Ok(_) => {},
                    Err(e) => return RevisionAction::Refused(e),
                }
                match &self.previous {
                    None => RevisionAction::Refused(TransactionError::NoPreviousRevision),
                    Some(name) => {
                        let path: String = self.place_of("revisions", name.as_str());
                        self.progress = Progress::Checking;
                        RevisionAction::Look { path }
                    },
                }
            },
            RevisionEvent::Present(there) => {
                if !there {
                    self.progress = Progress::Idle;
                    return RevisionAction::Refused(TransactionError::NoPreviousRevision);
                }
                match &self.previous {
                    None => RevisionAction::Finished,
                    Some(name) => {
                        let revision: String = name.clone();
                        self.progress = Progress::PointingBack;
                        RevisionAction::WritePointer { revision }
                    },
                }
            },
            RevisionEvent::Done => {
                self.progress = Progress::Idle;
                self.state = TransactionState::RolledBack;
                RevisionAction::Finished
            },
            RevisionEvent::Failed(e) => {
                self.progress = Progress::Idle;
                RevisionAction::Refused(TransactionError::Io(e))
            },
        }
    }
}

/// A transaction goes forward one state at a time: it is committed only once it is
/// validated, and rolled back only once it is committed.
pub proof fn law_transactions_go_forward(
    t: TransactionModel,
    event: RevisionEvent,
    outcome: Result<(), Seq<char>>,
)
    requires
        t.wf(),
    ensures
        t.commit_awaits(event) ==> {
            let next = t.commit_step(event).0;
            next.state == t.state || (t.state == TransactionState::Validated && next.state
                == TransactionState::Committed)
        },
        t.rollback_awaits(event) ==> {
            let next = t.rollback_step(event).0;
            next.state == t.state || (t.state == TransactionState::Committed && next.state
                == TransactionState::RolledBack)
        },
        t.state == TransactionState::Candidate ==> {
            let next = t.validation(outcome).0;
            next.state == t.state || next.state == TransactionState::Validated
        },
{
}

/// A check that fails changes nothing.
pub proof fn law_failed_validation_changes_nothing(t: TransactionModel, why: Seq<char>)
    ensures
        t.validation(Err(why)) == (
            t,
            Err::<(), TransactionErrorModel>(TransactionErrorModel::Validation(why)),
        ),
{
}

/// A commit that fails, when the candidate is moved or when the pointer is set,
/// leaves the transaction as it was, so that it can be tried again; and where the
/// pointer could not be set, the revision is moved back before.
pub proof fn law_failed_commits_can_be_retried(
    t: TransactionModel,
    first: std::io::Error,
    restored: RevisionEvent,
)
    requires
        t.wf(),
        t.progress == Progress::Idle,
        t.state == TransactionState::Validated,
        restored == RevisionEvent::Done || restored is Failed,
    ensures
        ({
            let moving = t.commit_step(RevisionEvent::Start).0;
            let pointing = moving.commit_step(RevisionEvent::Done).0;
            let (restoring, undo) = pointing.commit_step(RevisionEvent::Failed(first));
            &&& moving.commit_step(RevisionEvent::Failed(first)) == (
                t,
                RevisionActionModel::Refused(TransactionErrorModel::Io(first)),
            )
            &&& undo == RevisionActionModel::Move { from: t.committed(), to: t.candidate() }
            &&& restoring.commit_step(restored) == (
                t,
                RevisionActionModel::Refused(TransactionErrorModel::Io(first)),
            )
        }),
{
    let moving = t.commit_step(RevisionEvent::Start).0;
    let pointing = moving.commit_step(RevisionEvent::Done).0;
    let restoring = pointing.commit_step(RevisionEvent::Failed(first)).0;
    assert(moving.commit_step(RevisionEvent::Failed(first)).0 =~= t);
    assert(restoring.commit_step(restored).0 =~= t);
}

/// The pointer is only ever set to the revision of the transaction, or back to the
/// previous one, and either is a plain name.
pub proof fn law_pointer_targets(t: TransactionModel, event: RevisionEvent, revision: Seq<char>)
    requires
        t.wf(),
    ensures
        t.commit_awaits(event) && t.commit_step(event).1 == (RevisionActionModel::WritePointer {
            revision,
        }) ==> revision == t.revision && is_plain_model(t.notation, revision),
        t.rollback_awaits(event) && t.rollback_step(event).1 == (
        RevisionActionModel::WritePointer { revision }) ==> t.previous == Some(revision)
            && is_plain_model(t.notation, revision),
{
}

/// A step on the way of new contents into a file that must never be seen half
/// written.
#[derive(Clone, Copy, Debug, PartialEq, Eq, Structural)]
pub enum WriteStep {
    /// Create the temporary file, which must not exist.
    Create,
    /// Write the contents to it and make them durable.
    Fill,
    /// Find out whether there is a file to be replaced, and a left-over backup.
    Inspect,
    /// Remove the left-over backup.
    ClearBackup,
    /// Rename the file to be replaced to the backup.
    SetAside,
    /// Rename the temporary file to its place.
    Install,
    /// Rename the backup to its old place, as far as that goes.
    PutBack,
    /// Remove the temporary file, as far as that goes.
    Discard,
    /// Remove the backup, as far as that goes.
    DropBackup,
    /// It is done.
    Done,
    /// It failed, and nothing has changed.
    Failed,
}

/// How a step went.
#[derive(Clone, Copy, Debug, PartialEq, Eq, Structural)]
pub enum WriteEvent {
    Succeeded,
    Failed,
    /// Whether there is a file to be replaced, and whether there is a backup.
    Found { file: bool, backup: bool },
}

/// New contents on their way into a file.
#[derive(Clone, Copy, Debug, PartialEq, Eq, Structural)]
pub struct FileWrite {
    pub step: WriteStep,
    /// Whether renaming replaces an existing file in one go.
    pub replaces: bool,
    /// Whether the file to be replaced was set aside.
    pub aside: bool,
}

impl FileWrite {
    /// Whether a step can go as an event says.
    pub open spec fn awaits(self, event: WriteEvent) -> bool {
        &&& self.step != WriteStep::Done && self.step != WriteStep::Failed
        &&& event is Found <==> self.step == WriteStep::Inspect
    }

    /// What comes next.
    pub open spec fn after(self, event: WriteEvent) -> FileWrite {
        let ok = event == WriteEvent::Succeeded;
        match self.step {
            WriteStep::Create => FileWrite {
                step: if ok {
                    WriteStep::Fill
                } else {
                    WriteStep::Failed
                },
                ..self
            },
            WriteStep::Fill => FileWrite {
                step: if !ok {
                    WriteStep::Discard
                } else if self.replaces {
                    WriteStep::Install
                } else {
                    WriteStep::Inspect
                },
                ..self
            },
            WriteStep::Inspect => FileWrite {
                step: match event {
                    WriteEvent::Found { file, backup } => if !file {
                        WriteStep::Install
                    } else if backup {
                        WriteStep::ClearBackup
                    } else {
                        WriteStep::SetAside
                    },
                    _ => WriteStep::Discard,
                },
                ..self
            },
            WriteStep::ClearBackup => FileWrite {
                step: if ok {
                    WriteStep::SetAside
                } else {
                    WriteStep::Discard
                },
                ..self
            },
            WriteStep::SetAside => FileWrite {
                step: if ok {
                    WriteStep::Install
                } else {
                    WriteStep::Discard
                },
                aside: ok,
                ..self
            },
            WriteStep::Install => FileWrite {
                step: if ok {
                    if self.aside {
                        WriteStep::DropBackup
                    } else {
                        WriteStep::Done
                    }
                } else if self.aside {
                    WriteStep::PutBack
                } else {
                    WriteStep::Discard
                },
                ..self
            },
            WriteStep::PutBack => FileWrite { step: WriteStep::Discard, aside: false, ..self },
            WriteStep::Discard => FileWrite { step: WriteStep::Failed, ..self },
            WriteStep::DropBackup => FileWrite { step: WriteStep::Done, aside: false, ..self },
            WriteStep::Done | WriteStep::Failed => self,
        }
    }

    /// Contents that are to go into a file.
    pub fn begin(replaces: bool) -> (write: Self)
        ensures
            write == (FileWrite { step: WriteStep::Create, replaces, aside: false }),
    {
        FileWrite { step: WriteStep::Create, replaces, aside: false }
    }

    /// Goes on after a step.
    pub fn advance(&mut self, event: WriteEvent)
        requires
            old(self).awaits(event),
        ensures
            *final(self) == old(self).after(event),
    {
        let ok: bool = event == WriteEvent::Succeeded;
        match self.step {
            WriteStep::Create => {
                self.step = if ok {
                    WriteStep::Fill
                } else {
                    WriteStep::Failed
                };
            },
            WriteStep::Fill => {
                self.step = if !ok {
                    WriteStep::Discard
                } else if self.replaces {
                    WriteStep::Install
                } else {
                    WriteStep::Inspect
                };
            },
            WriteStep::Inspect => {
                self.step = match event {
                    WriteEvent::Found { file, backup } => {
                        if !file {
                            WriteStep::Install
                        } else if backup {
                            WriteStep::ClearBackup
                        } else {
                            WriteStep::SetAside
                        }
                    },
                    _ => WriteStep::Discard,
                };
            },
            WriteStep::ClearBackup => {
                self.step = if ok {
                    WriteStep::SetAside
                } else {
                    WriteStep::Discard
                };
            },
            WriteStep::SetAside => {
                self.step = if ok {
                    WriteStep::Install
                } else {
                    WriteStep::Discard
                };
                self.aside = ok;
            },
            WriteStep::Install => {
                self.step = if ok {
                    if self.aside {
                        WriteStep::DropBackup
                    } else {
                        WriteStep::Done
                    }
                } else if self.aside {
                    WriteStep::PutBack
                } else {
                    WriteStep::Discard
                };
            },
            WriteStep::PutBack => {
                self.step = WriteStep::Discard;
                self.aside = false;
            },
            WriteStep::Discard => {
                self.step = WriteStep::Failed;
            },
            WriteStep::DropBackup => {
                self.step = WriteStep::Done;
                self.aside = false;
            },
            WriteStep::Done | WriteStep::Failed => {},
        }
    }
}

/// The files that are around while new contents are on their way: whether the place
/// holds the new contents, whether it is as it was, and whether the temporary file
/// exists.
pub struct FilesModel {
    pub installed: bool,
    pub unchanged: bool,
    pub temporary: bool,
}

/// What a step does to the files when it goes as an event says. Of the steps that
/// are taken as far as that goes, it is what happens when they succeed.
pub open spec fn files_after(w: FileWrite, files: FilesModel, event: WriteEvent) -> FilesModel {
    let ok = event == WriteEvent::Succeeded;
    match w.step {
        WriteStep::Create => FilesModel { temporary: ok, ..files },
        WriteStep::SetAside => if ok {
            FilesModel { unchanged: false, ..files }
        } else {
            files
        },
        WriteStep::Install => if ok {
            FilesModel { installed: true, unchanged: false, temporary: false }
        } else {
            files
        },
        WriteStep::PutBack => FilesModel { unchanged: true, ..files },
        WriteStep::Discard => FilesModel { temporary: false, ..files },
        _ => files,
    }
}

/// What holds of the files at every step.
pub open spec fn files_match(w: FileWrite, files: FilesModel) -> bool {
    match w.step {
        WriteStep::Create => !files.installed && files.unchanged && !files.temporary && !w.aside,
        WriteStep::Fill | WriteStep::Inspect | WriteStep::ClearBackup | WriteStep::SetAside => {
            !files.installed && files.unchanged && files.temporary && !w.aside
        },
        WriteStep::Install => !files.installed && files.temporary && (files.unchanged <==> !w.aside),
        WriteStep::PutBack => !files.installed && files.temporary && !files.unchanged,
        WriteStep::Discard => !files.installed && files.unchanged && files.temporary,
        WriteStep::DropBackup => files.installed && !files.temporary,
        WriteStep::Done => files.installed && !files.temporary,
        WriteStep::Failed => !files.installed && files.unchanged && !files.temporary,
    }
}

/// New contents come into a file whole or not at all: whatever fails on the way, but
/// for cleaning up itself, its place is as it was and no temporary file is left, so
/// that the next attempt finds what this one found.
pub proof fn law_files_are_written_whole(w: FileWrite, files: FilesModel, event: WriteEvent)
    requires
        w.awaits(event),
        files_match(w, files),
    ensures
        files_match(w.after(event), files_after(w, files, event)),
        w.after(event).step == WriteStep::Done ==> files_after(w, files, event).installed,
        w.after(event).step == WriteStep::Failed ==> files_after(w, files, event).unchanged
            && !files_after(w, files, event).temporary,
{
}

/// How many steps are left at most.
pub open spec fn steps_left(step: WriteStep) -> nat {
    match step {
        WriteStep::Create => 8,
        WriteStep::Fill => 7,
        WriteStep::Inspect => 6,
        WriteStep::ClearBackup => 5,
        WriteStep::SetAside => 4,
        WriteStep::Install => 3,
        WriteStep::PutBack => 2,
        WriteStep::Discard => 1,
        WriteStep::DropBackup => 1,
        WriteStep::Done => 0,
        WriteStep::Failed => 0,
    }
}

/// Writing comes to an end.
pub proof fn law_writing_ends(w: FileWrite, event: WriteEvent)
    requires
        w.awaits(event),
    ensures
        steps_left(w.after(event).step) < steps_left(w.step),
{
}

/// The names of a pointer below a root directory: its place, its temporary file and
/// its backup.
pub fn pointer_paths(notation: Notation, root: &str, name: &str) -> (paths: (
    String,
    String,
    String,
))
    ensures
        paths.0@ == join_model(notation, root@, name@),
        paths.1@ == join_model(notation, root@, temporary_name(name@)),
        paths.2@ == join_model(notation, root@, seq!['.'] + name@ + ".previous"@),
{
    let mut temporary: String = ".".to_owned();
    let mut backup: String = ".".to_owned();
    proof {
        reveal_strlit(".");
        assert(temporary@ =~= seq!['.']);
    }
    temporary.append(name);
    temporary.append(".tmp");
    backup.append(name);
    backup.append(".previous");
    (
        join_path(notation, root, name),
        join_path(notation, root, temporary.as_str()),
        join_path(notation, root, backup.as_str()),
    )
}

/// What a pointer to a revision holds.
pub fn pointer_contents(revision: &str) -> (contents: String)
    ensures
        contents@ == revision@.push('\n'),
{
    let mut contents: String = revision.to_owned();
    contents.push('\n');
    contents
}

/// Which ports are needed: for a transport the UDP port, and for the public service the TCP
/// port, on every address, in this order.
pub proof fn law_ports_are_those_of_the_configuration(
    bindings: Seq<PortBinding>,
    config: ProductConfig,
    modules: Set<ModuleId>,
)
    requires
        are_requested(bindings, config, modules),
    ensures
        ({
            let transport = modules.contains(ModuleId::Tuic) || modules.contains(ModuleId::Masque);
            let public = bindings.last();
            &&& bindings.len() == if transport {
                2int
            } else {
                1int
            }
            &&& public.address == HostAddress::V4(0)
            &&& public.port == config.server.public_tcp_port
            &&& public.protocol == TransportProtocol::Tcp
            &&& public.owner@ == "smart-gateway-public"@
            &&& transport ==> {
                &&& bindings[0].address == HostAddress::V4(0)
                &&& bindings[0].port == config.server.public_udp_port
                &&& bindings[0].protocol == TransportProtocol::Udp
                &&& bindings[0].owner@ == "smart-gateway-transport"@
            }
        }),
{
}

/// What a plan does: it enables its modules, each one once, binds its ports in order, and
/// at last stages, validates and commits the revision.
pub proof fn law_plans_are_complete(
    plan: DeploymentPlan,
    config: ProductConfig,
    bindings: Seq<PortBinding>,
    answers: Seq<Option<PortConflict>>,
    m: ModuleId,
    j: int,
)
    requires
        is_plan(plan, config, bindings, answers),
    ensures
        ({
            let actions = plan.actions@;
            let n = actions.len();
            let enabled = n - bindings.len() - 3;
            &&& plan.schema_version == config.schema_version
            &&& enabled >= 0
            &&& actions[n - 3] == PlanAction::StageRevision
            &&& actions[n - 2] == PlanAction::ValidateCandidate
            &&& actions[n - 1] == PlanAction::CommitRevision
            &&& 0 <= j < bindings.len() ==> actions[enabled + j] == PlanAction::BindPort(
                bindings[j],
            )
            &&& 0 <= j < enabled ==> (actions[j] matches PlanAction::EnableModule(module)
                && plan.modules@.contains(module))
            &&& plan.modules@.contains(m) ==> exists|i: int|
                0 <= i < enabled && #[trigger] actions[i] == PlanAction::EnableModule(m)
        }),
{
    let members = choose|members: Seq<ModuleId>|
        product_config::lists_in_order(members, plan.modules@) && plan.actions@
            == #[trigger] plan_actions(members, bindings);
    let actions = plan.actions@;
    assert(members.len() == actions.len() - bindings.len() - 3);
    if 0 <= j < members.len() {
        assert(actions[j] == PlanAction::EnableModule(members[j]));
        assert(members.contains(members[j]));
    }
    if plan.modules@.contains(m) {
        assert(members.contains(m));
        let i = choose|i: int| 0 <= i < members.len() && members[i] == m;
        assert(actions[i] == PlanAction::EnableModule(m));
    }
}

/// A plan enables no module twice, and keeps the order in which modules are listed.
pub proof fn law_plans_keep_the_order(
    plan: DeploymentPlan,
    config: ProductConfig,
    bindings: Seq<PortBinding>,
    answers: Seq<Option<PortConflict>>,
    i: int,
    j: int,
    a: ModuleId,
    b: ModuleId,
)
    requires
        is_plan(plan, config, bindings, answers),
        0 <= i < j < plan.actions@.len(),
        plan.actions@[i] == PlanAction::EnableModule(a),
        plan.actions@[j] == PlanAction::EnableModule(b),
    ensures
        a.rank_model() < b.rank_model(),
{
    let members = choose|members: Seq<ModuleId>|
        product_config::lists_in_order(members, plan.modules@) && plan.actions@
            == #[trigger] plan_actions(members, bindings);
    let actions = plan.actions@;
    assert(actions == plan_actions(members, bindings));
    assert(j < members.len()) by {
        if j >= members.len() + bindings.len() {
            assert(actions[j] == PlanAction::StageRevision || actions[j]
                == PlanAction::ValidateCandidate || actions[j] == PlanAction::CommitRevision);
        } else if j >= members.len() {
            assert(actions[j] == PlanAction::BindPort(bindings[j - members.len()]));
        }
    }
    assert(actions[i] == PlanAction::EnableModule(members[i]));
    assert(actions[j] == PlanAction::EnableModule(members[j]));
}

/// Conflicts are those among the answers, in order: the ones before, and behind them the
/// one that an answer gives, if it does. A plan holds them all.
pub proof fn law_conflicts_are_those_that_were_found(
    plan: DeploymentPlan,
    config: ProductConfig,
    bindings: Seq<PortBinding>,
    answers: Seq<Option<PortConflict>>,
    answer: Option<PortConflict>,
)
    ensures
        is_plan(plan, config, bindings, answers) ==> plan.conflicts@ == conflicts_of(answers)
            && answers.len() == bindings.len(),
        conflicts_of(Seq::empty()).len() == 0,
        match answer {
            Some(conflict) => conflicts_of(answers.push(answer)) == conflicts_of(answers).push(
                conflict,
            ),
            None => conflicts_of(answers.push(answer)) == conflicts_of(answers),
        },
{
    assert(answers.push(answer).drop_last() =~= answers);
}

/// The probe is asked about every port that is needed, and its answers are what a plan is
/// made with; where it fails, it fails on the first port that it has no answer for.
pub proof fn law_probes_are_asked_in_order<P: PortProbe>(
    probe: P,
    bindings: Seq<PortBinding>,
    answers: Seq<Option<PortConflict>>,
    k: int,
)
    requires
        are_answers(probe, bindings, answers),
    ensures
        answers.len() == bindings.len(),
        0 <= k < bindings.len() ==> call_ensures(
            P::conflict,
            (&probe, &bindings[k]),
            Ok::<Option<PortConflict>, std::io::Error>(answers[k]),
        ),
{
}

/// A name is plain if it has no separators, is not empty, is neither the directory it is in
/// nor the one above, and names no drive.
pub proof fn law_single_names_are_plain(notation: Notation, name: Seq<char>)
    requires
        forall|i: int|
            0 <= i < name.len() ==> #[trigger] name[i] != '/' && (notation == Notation::Windows
                ==> name[i] != '\\'),
    ensures
        ({
            let drive = notation == Notation::Windows && name.len() >= 2 && name[1] == ':' && (65
                <= name[0] as u32 <= 90 || 97 <= name[0] as u32 <= 122);
            let here = name.len() == 1 && name[0] == '.';
            let above = name.len() == 2 && name[0] == '.' && name[1] == '.';
            is_plain_model(notation, name) <==> name.len() > 0 && !drive && !here && !above
        }),
{
    assert(slashed(notation, name) =~= name);
    assert(!name.contains('/'));
    text::lemma_one_piece(name, '/');
    assert(path_pieces(notation, name) == seq![name]);
    if name.len() == 1 && name[0] == '.' {
        assert(name =~= seq!['.']);
    }
    if name.len() == 2 && name[0] == '.' && name[1] == '.' {
        assert(name =~= seq!['.', '.']);
    }
    if is_here(name) {
        assert(seq!['.'].len() == 1 && seq!['.'][0] == '.');
    }
    if is_above(name) {
        assert(seq!['.', '.'].len() == 2 && seq!['.', '.'][0] == '.' && seq!['.', '.'][1] == '.');
    }
}

/// A path of several pieces is plain only if what is before the last separator is, and
/// nothing is behind it, or just a dot.
pub proof fn law_longer_paths_are_seldom_plain(
    notation: Notation,
    before: Seq<char>,
    separator: char,
    behind: Seq<char>,
)
    requires
        separator == '/' || notation == Notation::Windows && separator == '\\',
        forall|i: int|
            0 <= i < behind.len() ==> #[trigger] behind[i] != '/' && (notation == Notation::Windows
                ==> behind[i] != '\\'),
    ensures
        is_plain_model(notation, before.push(separator) + behind) <==> is_plain_model(
            notation,
            before,
        ) && (behind.len() == 0 || behind.len() == 1 && behind[0] == '.'),
{
    let path = before.push(separator) + behind;
    let first = path_pieces(notation, before);
    let all = path_pieces(notation, path);
    assert(slashed(notation, path) =~= slashed(notation, before).push('/') + behind);
    text::law_pieces_lie_between_separators(slashed(notation, before), '/', behind);
    assert(!behind.contains('/'));
    text::lemma_one_piece(behind, '/');
    text::lemma_first_piece(slashed(notation, before), '/');
    assert(all == first + seq![behind]);
    assert(all[0] == first[0]);
    assert(all[first.len() as int] == behind);
    if behind.len() == 1 && behind[0] == '.' {
        assert(behind =~= seq!['.']);
    }
    if is_here(behind) {
        assert(seq!['.'].len() == 1 && seq!['.'][0] == '.');
    }
    if before.len() >= 2 {
        assert(path[0] == before[0] && path[1] == before[1]);
    } else if before.len() == 1 {
        assert(path[1] == separator);
    } else {
        assert(path[0] == separator);
        assert(first[0].len() == 0);
    }
    assert(has_drive_model(notation, path) <==> has_drive_model(notation, before));
    if is_plain_model(notation, path) {
        assert forall|i: int| 1 <= i < first.len() implies (#[trigger] first[i]).len() == 0
            || is_here(first[i]) by {
            assert(all[i] == first[i]);
        }
    }
    if is_plain_model(notation, before) && (behind.len() == 0 || is_here(behind)) {
        assert forall|i: int| 1 <= i < all.len() implies (#[trigger] all[i]).len() == 0 || is_here(
            all[i],
        ) by {
            if i < first.len() {
                assert(all[i] == first[i]);
            }
        }
    }
}

/// How paths are joined: with a separator in between, a slash or on Windows a backslash,
/// unless the path in front is empty, ends in a separator or is nothing but a drive.
pub proof fn law_paths_are_joined(notation: Notation, base: Seq<char>, rest: Seq<char>)
    ensures
        ({
            let windows = notation == Notation::Windows;
            let ended = base.len() > 0 && (base.last() == '/' || windows && base.last() == '\\');
            let drive = windows && base.len() == 2 && base[1] == ':' && (65 <= base[0] as u32 <= 90
                || 97 <= base[0] as u32 <= 122);
            let joined = join_model(notation, base, rest);
            &&& base.len() == 0 || ended || drive ==> joined == base + rest
            &&& base.len() > 0 && !ended && !drive && windows ==> joined == base + seq!['\\'] + rest
            &&& base.len() > 0 && !ended && !drive && !windows ==> joined == base + seq!['/'] + rest
        }),
{
    assert(base.push('/') =~= base + seq!['/']);
    assert(base.push('\\') =~= base + seq!['\\']);
}

/// A number in decimal is read back as the number, and starts with no zero but for zero.
pub proof fn law_decimals_are_read_back(n: nat)
    ensures
        text::decimal_value(decimal_text(n)) == n,
        decimal_text(n).len() > 0,
        n > 0 ==> decimal_text(n)[0] != '0',
        forall|i: int|
            0 <= i < decimal_text(n).len() ==> 48 <= #[trigger] decimal_text(n)[i] as u32 <= 57,
    decreases n,
{
    lemma_decimal_digits(n);
    reveal_with_fuel(text::decimal_value, 2);
    let digits = decimal_text(n);
    if n < 10 {
        assert(digits.drop_last() =~= Seq::<char>::empty());
    } else {
        law_decimals_are_read_back(n / 10);
        assert(digits.drop_last() =~= decimal_text(n / 10));
        assert(digits[0] == decimal_text(n / 10)[0]);
    }
    assert forall|i: int| 0 <= i < digits.len() implies 48 <= #[trigger] digits[i] as u32 <= 57 by {
        assert(text::is_digit_model(digits[i]));
    }
}

/// The name of a revision says when it was begun, and by which process.
pub proof fn law_revision_names_say_when_and_who(nanos: u128, process: u32)
    ensures
        exists|time: Seq<char>, pid: Seq<char>|
            {
                &&& #[trigger] text::decimal_value(time) == nanos
                &&& #[trigger] text::decimal_value(pid) == process
                &&& time == decimal_text(nanos as nat)
                &&& pid == decimal_text(process as nat)
                &&& revision_name_model(nanos, process) == "rev-"@ + time + seq!['-'] + pid
            },
{
    let time = decimal_text(nanos as nat);
    let pid = decimal_text(process as nat);
    law_decimals_are_read_back(nanos as nat);
    law_decimals_are_read_back(process as nat);
    assert(text::decimal_value(time) == nanos && text::decimal_value(pid) == process);
}

/// Where things lie: candidates and revisions each in a directory of their own below the
/// root, under the name of the revision.
pub proof fn law_revisions_have_places(t: TransactionModel)
    ensures
        t.candidate() == join_model(
            t.notation,
            join_model(t.notation, t.root, "candidates"@),
            t.revision,
        ),
        t.committed() == join_model(
            t.notation,
            join_model(t.notation, t.root, "revisions"@),
            t.revision,
        ),
{
}

/// How a commit goes where nothing fails: the candidate of a validated transaction is
/// moved among the revisions, the pointer is set to it, and it is committed. Nothing else
/// of the transaction changes.
pub proof fn law_commits_go_through(t: TransactionModel)
    requires
        t.wf(),
        t.progress == Progress::Idle,
        t.state == TransactionState::Validated,
    ensures
        ({
            let (moving, first) = t.commit_step(RevisionEvent::Start);
            let (pointing, second) = moving.commit_step(RevisionEvent::Done);
            let (done, last) = pointing.commit_step(RevisionEvent::Done);
            &&& first == (RevisionActionModel::Move {
                from: join_model(
                    t.notation,
                    join_model(t.notation, t.root, "candidates"@),
                    t.revision,
                ),
                to: join_model(
                    t.notation,
                    join_model(t.notation, t.root, "revisions"@),
                    t.revision,
                ),
            })
            &&& second == (RevisionActionModel::WritePointer { revision: t.revision })
            &&& last == RevisionActionModel::Finished
            &&& moving.state == TransactionState::Validated
            &&& pointing.state == TransactionState::Validated
            &&& done == (TransactionModel { state: TransactionState::Committed, ..t })
            &&& moving.commit_awaits(RevisionEvent::Done)
            &&& pointing.commit_awaits(RevisionEvent::Done)
        }),
{
    let moving = t.commit_step(RevisionEvent::Start).0;
    let pointing = moving.commit_step(RevisionEvent::Done).0;
    assert(pointing.commit_step(RevisionEvent::Done).0 =~= (TransactionModel {
        state: TransactionState::Committed,
        ..t
    }));
}

/// How a rollback goes where nothing fails: the previous revision is looked for, the
/// pointer is set back to it, and the transaction is rolled back. Where it is not there, or
/// there is none, the transaction stays as it was and says so; where the pointer cannot be
/// set it stays as it was too.
pub proof fn law_rollbacks_go_through(t: TransactionModel, e: std::io::Error)
    requires
        t.wf(),
        t.progress == Progress::Idle,
        t.state == TransactionState::Committed,
    ensures
        ({
            let (looking, first) = t.rollback_step(RevisionEvent::Start);
            let none = RevisionActionModel::Refused(TransactionErrorModel::NoPreviousRevision);
            match t.previous {
                None => looking == t && first == none,
                Some(name) => {
                    let (back, second) = looking.rollback_step(RevisionEvent::Present(true));
                    let (done, last) = back.rollback_step(RevisionEvent::Done);
                    &&& first == (RevisionActionModel::Look {
                        path: join_model(
                            t.notation,
                            join_model(t.notation, t.root, "revisions"@),
                            name,
                        ),
                    })
                    &&& second == (RevisionActionModel::WritePointer { revision: name })
                    &&& last == RevisionActionModel::Finished
                    &&& done == (TransactionModel { state: TransactionState::RolledBack, ..t })
                    &&& looking.rollback_step(RevisionEvent::Present(false)) == (t, none)
                    &&& back.rollback_step(RevisionEvent::Failed(e)) == (
                        t,
                        RevisionActionModel::Refused(TransactionErrorModel::Io(e)),
                    )
                    &&& looking.rollback_awaits(RevisionEvent::Present(true))
                    &&& back.rollback_awaits(RevisionEvent::Done)
                },
            }
        }),
{
    if t.previous is Some {
        let looking = t.rollback_step(RevisionEvent::Start).0;
        let back = looking.rollback_step(RevisionEvent::Present(true)).0;
        assert(back.rollback_step(RevisionEvent::Done).0 =~= (TransactionModel {
            state: TransactionState::RolledBack,
            ..t
        }));
        assert(looking.rollback_step(RevisionEvent::Present(false)).0 =~= t);
        assert(back.rollback_step(RevisionEvent::Failed(e)).0 =~= t);
    }
}

/// What is out of turn is refused, says which state it needs, and changes nothing: a commit
/// of what is not validated, and a rollback of what is not committed.
pub proof fn law_steps_out_of_turn_are_refused(t: TransactionModel)
    requires
        t.wf(),
        t.progress == Progress::Idle,
    ensures
        t.state != TransactionState::Validated ==> t.commit_step(RevisionEvent::Start) == (
            t,
            RevisionActionModel::Refused(
                TransactionErrorModel::InvalidState {
                    expected: TransactionState::Validated,
                    actual: t.state,
                },
            ),
        ),
        t.state != TransactionState::Committed ==> t.rollback_step(RevisionEvent::Start) == (
            t,
            RevisionActionModel::Refused(
                TransactionErrorModel::InvalidState {
                    expected: TransactionState::Committed,
                    actual: t.state,
                },
            ),
        ),
        t.commit_awaits(RevisionEvent::Start),
        t.rollback_awaits(RevisionEvent::Start),
        forall|s: TransactionState|
            (#[trigger] t.unexpected(s)) is None <==> t.state == s,
{
}

/// A check that finds nothing validates the candidate, and changes nothing else.
pub proof fn law_good_candidates_are_validated(t: TransactionModel)
    ensures
        t.validation(Ok(())).1 is Ok,
        t.validation(Ok(())).0.state == TransactionState::Validated,
        t.validation(Ok(())).0 == (TransactionModel { state: TransactionState::Validated, ..t }),
{
}

/// Transactions begin with a candidate that is named after its time and process; one that
/// could only be rolled back to what is no plain name does not begin.
pub proof fn law_transactions_begin_with_a_candidate(
    notation: Notation,
    root: &str,
    previous: Option<String>,
    nanos: u128,
    process: u32,
    begun: Result<RevisionTransaction, TransactionError>,
)
    requires
        call_ensures(RevisionTransaction::begin, (notation, root, previous, nanos, process), begun),
    ensures
        begun is Ok <==> (previous is None || is_plain_model(notation, previous->0@)),
        begun matches Err(e) ==> e == TransactionError::InvalidArtifactName,
        begun matches Ok(t) ==> {
            &&& t@.state == TransactionState::Candidate
            &&& t@.progress == Progress::Idle
            &&& t@.revision == revision_name_model(nanos, process)
            &&& t@.root == root@
            &&& t@.notation == notation
            &&& t@.previous is Some <==> previous is Some
            &&& previous is Some ==> t@.previous->0 == previous->0@
        },
{
}

/// Artifacts go into the directory of the candidate, under a name that starts with a dot
/// and ends in ".tmp" until they are complete; and only under a plain name, and only as long
/// as the candidate is not validated.
pub proof fn law_artifacts_go_to_the_candidate(
    t: RevisionTransaction,
    artifact: &str,
    paths: Result<(String, String), TransactionError>,
)
    requires
        call_ensures(RevisionTransaction::stage, (&t, artifact), paths),
    ensures
        paths is Ok <==> t@.state == TransactionState::Candidate && is_plain_model(
            t@.notation,
            artifact@,
        ),
        paths matches Ok((path, temporary)) ==> {
            &&& path@ == join_model(t@.notation, t@.candidate(), artifact@)
            &&& temporary@ == join_model(
                t@.notation,
                t@.candidate(),
                seq!['.'] + artifact@ + ".tmp"@,
            )
        },
        paths matches Err(e) ==> if t@.state == TransactionState::Candidate {
            e == TransactionError::InvalidArtifactName
        } else {
            e == (TransactionError::InvalidState {
                expected: TransactionState::Candidate,
                actual: t@.state,
            })
        },
{
}

/// How contents get into a file where nothing fails. Where renaming replaces a file: it is
/// created, filled and installed. Where it does not, what is there is set aside first, an
/// old backup is removed before that, and the backup is dropped in the end.
pub proof fn law_files_are_written_step_by_step(replaces: bool, w: FileWrite)
    requires
        call_ensures(FileWrite::begin, (replaces,), w),
    ensures
        ({
            let ok = WriteEvent::Succeeded;
            let fill = w.after(ok);
            let next = fill.after(ok);
            let free = next.after(WriteEvent::Found { file: false, backup: false });
            let stale = next.after(WriteEvent::Found { file: false, backup: true });
            let taken = next.after(WriteEvent::Found { file: true, backup: false });
            let both = next.after(WriteEvent::Found { file: true, backup: true });
            &&& w.step == WriteStep::Create
            &&& fill.step == WriteStep::Fill
            &&& replaces ==> next.step == WriteStep::Install && next.after(ok).step
                == WriteStep::Done
            &&& !replaces ==> {
                &&& next.step == WriteStep::Inspect
                &&& free.step == WriteStep::Install && free.after(ok).step == WriteStep::Done
                &&& stale.step == WriteStep::Install && stale.after(ok).step == WriteStep::Done
                &&& taken.step == WriteStep::SetAside
                &&& taken.after(ok).step == WriteStep::Install
                &&& taken.after(ok).after(ok).step == WriteStep::DropBackup
                &&& taken.after(ok).after(ok).after(ok).step == WriteStep::Done
                &&& both.step == WriteStep::ClearBackup
                &&& both.after(ok) == taken
            }
        }),
{
}

/// How a failure is cleaned up: what was created is discarded, what was set aside is put
/// back before, and it ends in a failure. Only what is done as far as that goes cannot fail.
pub proof fn law_failed_writes_are_cleaned_up(w: FileWrite, event: WriteEvent)
    requires
        w.awaits(event),
        event != WriteEvent::Succeeded,
    ensures
        w.step == WriteStep::Create ==> w.after(event).step == WriteStep::Failed,
        w.step == WriteStep::Fill || w.step == WriteStep::ClearBackup || w.step
            == WriteStep::SetAside || w.step == WriteStep::Install && !w.aside ==> w.after(
            event,
        ).step == WriteStep::Discard,
        w.step == WriteStep::Install && w.aside ==> w.after(event).step == WriteStep::PutBack,
        w.step == WriteStep::DropBackup ==> w.after(event).step == WriteStep::Done,
        (FileWrite { step: WriteStep::PutBack, ..w }).after(event).step == WriteStep::Discard,
        (FileWrite { step: WriteStep::Discard, ..w }).after(event).step == WriteStep::Failed,
        w.after(event).replaces == w.replaces,
{
}

/// A pointer has its place below the root, a temporary file and a backup beside it, and
/// holds the name of a revision and the end of the line.
pub proof fn law_pointers_name_revisions(
    notation: Notation,
    root: &str,
    name: &str,
    paths: (String, String, String),
    revision: &str,
    contents: String,
)
    requires
        call_ensures(pointer_paths, (notation, root, name), paths),
        call_ensures(pointer_contents, (revision,), contents),
    ensures
        paths.0@ == join_model(notation, root@, name@),
        paths.1@ == join_model(notation, root@, seq!['.'] + name@ + ".tmp"@),
        paths.2@ == join_model(notation, root@, seq!['.'] + name@ + ".previous"@),
        contents@ == revision@ + seq!['\n'],
{
    assert(revision@.push('\n') =~= revision@ + seq!['\n']);
}

/// Actions, errors and outcomes are seen as they are.
pub proof fn law_actions_are_seen_as_they_are(
    action: RevisionAction,
    e: TransactionError,
    checked: Result<(), TransactionError>,
    outcome: Result<(), String>,
    name: Option<String>,
)
    ensures
        match action {
            RevisionAction::Move { from, to } => action@ == (RevisionActionModel::Move {
                from: from@,
                to: to@,
            }),
            RevisionAction::WritePointer { revision } => action@ == (
            RevisionActionModel::WritePointer { revision: revision@ }),
            RevisionAction::Look { path } => action@ == (RevisionActionModel::Look { path: path@ }),
            RevisionAction::Finished => action@ == RevisionActionModel::Finished,
            RevisionAction::Refused(why) => action@ == RevisionActionModel::Refused(why@),
        },
        match e {
            TransactionError::Io(io) => e@ == TransactionErrorModel::Io(io),
            TransactionError::InvalidState { expected, actual } => e@ == (
            TransactionErrorModel::InvalidState { expected, actual }),
            TransactionError::InvalidArtifactName => e@
                == TransactionErrorModel::InvalidArtifactName,
            TransactionError::Validation(why) => e@ == TransactionErrorModel::Validation(why@),
            TransactionError::NoPreviousRevision => e@ == TransactionErrorModel::NoPreviousRevision,
        },
        match checked {
            Ok(_) => error_view(checked) is Ok,
            Err(f) => error_view(checked) == Err::<(), TransactionErrorModel>(f@),
        },
        match outcome {
            Ok(_) => outcome_view(outcome) is Ok,
            Err(why) => outcome_view(outcome) == Err::<(), Seq<char>>(why@),
        },
        match name {
            Some(n) => name_view(name) == Some(n@),
            None => name_view(name) is None,
        },
{
}

/// What the first call of a commit gives: the move of the candidate to its place among the
/// revisions. Nothing else changes until it is told how that went.
pub proof fn law_commits_begin_with_a_move(t: &mut RevisionTransaction, first: RevisionAction)
    requires
        old(t)@.wf(),
        old(t)@.progress == Progress::Idle,
        old(t)@.state == TransactionState::Validated,
        call_ensures(RevisionTransaction::commit, (t, RevisionEvent::Start), first),
    ensures
        first matches RevisionAction::Move { from, to } && from@ == join_model(
            old(t)@.notation,
            join_model(old(t)@.notation, old(t)@.root, "candidates"@),
            old(t)@.revision,
        ) && to@ == join_model(
            old(t)@.notation,
            join_model(old(t)@.notation, old(t)@.root, "revisions"@),
            old(t)@.revision,
        ),
        final(t)@ == (TransactionModel { progress: Progress::Moving, ..old(t)@ }),
{
    law_commits_go_through(old(t)@);
    assert(final(t)@ =~= (TransactionModel { progress: Progress::Moving, ..old(t)@ }));
}

} // verus!
