//! Typed product configuration.
//!
//! Serialization is kept outside: planning and validation speak of typed values
//! only.

use vstd::prelude::*;

verus! {

/// The schema version that is understood.
pub const CURRENT_SCHEMA_VERSION: u32 = 1;

/// What an installation is for.
#[derive(Clone, Copy, Debug, PartialEq, Eq, PartialOrd, Ord, Structural)]
pub enum Profile {
    Standard,
    Enhanced,
    LowResource,
    Laboratory,
}

/// A module of the product.
#[derive(Clone, Copy, Debug, PartialEq, Eq, PartialOrd, Ord, Structural)]
pub enum ModuleId {
    Tuic,
    Masque,
    AdaptiveFec,
    Pmtu,
    DirectEgress,
    MultiWarp,
    StableGoogleEgress,
    DnsDoh,
    DnsDotFallback,
    DnsDoq,
    Observability,
    AutomaticRollback,
}

/// What an operator wants of a module.
#[derive(Clone, Copy, Debug, PartialEq, Eq, Structural)]
pub enum ModuleSetting {
    Enabled,
    Disabled,
    Auto,
}

/// Settings of the server.
#[derive(Clone, Debug, PartialEq, Eq, Structural)]
pub struct ServerConfig {
    pub bandwidth_mbps: u32,
    pub public_tcp_port: u16,
    pub public_udp_port: u16,
}

/// Why a configuration is refused.
#[derive(Clone, Copy, Debug, PartialEq, Eq, Structural)]
pub enum ConfigError {
    UnsupportedSchema { found: u32, supported: u32 },
    ZeroBandwidth,
    UnsafePublicPort,
    MissingDependency { module: ModuleId, dependency: ModuleId },
    ConflictingTransports,
    ExperimentalModuleOutsideLaboratory(ModuleId),
}

impl ModuleId {
    /// The place of a module in the order in which modules are listed.
    pub open spec fn rank_model(self) -> nat {
        match self {
            ModuleId::Tuic => 0,
            ModuleId::Masque => 1,
            ModuleId::AdaptiveFec => 2,
            ModuleId::Pmtu => 3,
            ModuleId::DirectEgress => 4,
            ModuleId::MultiWarp => 5,
            ModuleId::StableGoogleEgress => 6,
            ModuleId::DnsDoh => 7,
            ModuleId::DnsDotFallback => 8,
            ModuleId::DnsDoq => 9,
            ModuleId::Observability => 10,
            ModuleId::AutomaticRollback => 11,
        }
    }

    /// The modules that a module needs.
    pub open spec fn dependencies_model(self) -> Seq<ModuleId> {
        match self {
            ModuleId::AdaptiveFec => seq![ModuleId::Tuic, ModuleId::Pmtu],
            ModuleId::MultiWarp => seq![ModuleId::DirectEgress],
            ModuleId::StableGoogleEgress => seq![ModuleId::DirectEgress],
            ModuleId::DnsDotFallback => seq![ModuleId::DnsDoh],
            ModuleId::DnsDoq => seq![ModuleId::DirectEgress],
            _ => Seq::empty(),
        }
    }

    /// The place of a module in the order in which modules are listed.
    fn rank(self) -> (rank: usize)
        ensures
            rank == self.rank_model(),
    {
        match self {
            ModuleId::Tuic => 0,
            ModuleId::Masque => 1,
            ModuleId::AdaptiveFec => 2,
            ModuleId::Pmtu => 3,
            ModuleId::DirectEgress => 4,
            ModuleId::MultiWarp => 5,
            ModuleId::StableGoogleEgress => 6,
            ModuleId::DnsDoh => 7,
            ModuleId::DnsDotFallback => 8,
            ModuleId::DnsDoq => 9,
            ModuleId::Observability => 10,
            ModuleId::AutomaticRollback => 11,
        }
    }

    /// The modules that a module needs.
    pub fn dependencies(self) -> (needed: &'static [ModuleId])
        ensures
            needed@ == self.dependencies_model(),
    {
        let needed: &'static [ModuleId] = match self {
            ModuleId::AdaptiveFec => &[ModuleId::Tuic, ModuleId::Pmtu],
            ModuleId::MultiWarp => &[ModuleId::DirectEgress],
            ModuleId::StableGoogleEgress => &[ModuleId::DirectEgress],
            ModuleId::DnsDotFallback => &[ModuleId::DnsDoh],
            ModuleId::DnsDoq => &[ModuleId::DirectEgress],
            _ => &[],
        };
        assert(needed@ =~= self.dependencies_model());
        needed
    }
}

/// How many modules there are.
pub const MODULE_COUNT: usize = 12;

/// The module at a place in the order in which modules are listed.
fn module_at(rank: usize) -> (module: ModuleId)
    requires
        rank < MODULE_COUNT,
    ensures
        module.rank_model() == rank,
{
    if rank == 0 {
        ModuleId::Tuic
    } else if rank == 1 {
        ModuleId::Masque
    } else if rank == 2 {
        ModuleId::AdaptiveFec
    } else if rank == 3 {
        ModuleId::Pmtu
    } else if rank == 4 {
        ModuleId::DirectEgress
    } else if rank == 5 {
        ModuleId::MultiWarp
    } else if rank == 6 {
        ModuleId::StableGoogleEgress
    } else if rank == 7 {
        ModuleId::DnsDoh
    } else if rank == 8 {
        ModuleId::DnsDotFallback
    } else if rank == 9 {
        ModuleId::DnsDoq
    } else if rank == 10 {
        ModuleId::Observability
    } else {
        ModuleId::AutomaticRollback
    }
}

/// Modules have different places.
pub proof fn lemma_ranks_differ(a: ModuleId, b: ModuleId)
    ensures
        a.rank_model() < MODULE_COUNT,
        a.rank_model() == b.rank_model() ==> a == b,
{
}

/// A set of modules.
#[derive(Clone, Debug, PartialEq, Eq)]
pub struct ModuleSet {
    flags: [bool; 12],
}

impl View for ModuleSet {
    type V = Set<ModuleId>;

    closed spec fn view(&self) -> Set<ModuleId> {
        Set::new(|m: ModuleId| self.flags@[m.rank_model() as int])
    }
}

/// Whether a list gives the members of a set in order.
pub open spec fn lists_in_order(list: Seq<ModuleId>, set: Set<ModuleId>) -> bool {
    &&& forall|m: ModuleId| #[trigger] list.contains(m) <==> set.contains(m)
    &&& forall|i: int, j: int|
        0 <= i < j < list.len() ==> (#[trigger] list[i]).rank_model() < (
        #[trigger] list[j]).rank_model()
}

impl ModuleSet {
    /// The empty set.
    pub fn new() -> (set: Self)
        ensures
            set@ == Set::<ModuleId>::empty(),
    {
        let set = ModuleSet { flags: [false; 12] };
        assert(set@ =~= Set::<ModuleId>::empty());
        set
    }

    /// Adds a module, and says whether it was not there.
    pub fn insert(&mut self, module: ModuleId) -> (new: bool)
        ensures
            new == !old(self)@.contains(module),
            final(self)@ == old(self)@.insert(module),
    {
        let ghost before = self@;
        let rank: usize = module.rank();
        let new: bool = !self.flags[rank];
        self.flags[rank] = true;
        proof {
            assert forall|m: ModuleId| self@.contains(m) == before.insert(module).contains(m) by {
                lemma_ranks_differ(m, module);
            }
            assert(self@ =~= before.insert(module));
        }
        new
    }

    /// Takes a module out, and says whether it was there.
    pub fn remove(&mut self, module: &ModuleId) -> (there: bool)
        ensures
            there == old(self)@.contains(*module),
            final(self)@ == old(self)@.remove(*module),
    {
        let ghost before = self@;
        let rank: usize = module.rank();
        let there: bool = self.flags[rank];
        self.flags[rank] = false;
        proof {
            assert forall|m: ModuleId| self@.contains(m) == before.remove(*module).contains(m) by {
                lemma_ranks_differ(m, *module);
            }
            assert(self@ =~= before.remove(*module));
        }
        there
    }

    /// Whether a module is in the set.
    pub fn contains(&self, module: &ModuleId) -> (there: bool)
        ensures
            there == self@.contains(*module),
    {
        self.flags[module.rank()]
    }

    /// The members in order.
    pub fn members(&self) -> (list: Vec<ModuleId>)
        ensures
            lists_in_order(list@, self@),
    {
        let mut list: Vec<ModuleId> = Vec::new();
        let mut rank: usize = 0;
        while rank < MODULE_COUNT
            invariant
                rank <= MODULE_COUNT,
                forall|m: ModuleId| #[trigger]
                    list@.contains(m) <==> self@.contains(m) && m.rank_model() < rank,
                forall|i: int, j: int|
                    0 <= i < j < list@.len() ==> (#[trigger] list@[i]).rank_model() < (
                    #[trigger] list@[j]).rank_model(),
            decreases MODULE_COUNT - rank,
        {
            let module: ModuleId = module_at(rank);
            let ghost before = list@;
            if self.flags[rank] {
                list.push(module);
                proof {
                    assert forall|m: ModuleId| #[trigger]
                        list@.contains(m) <==> before.contains(m) || m == module by {
                        assert(list@[before.len() as int] == module);
                        if before.contains(m) {
                            let at = choose|at: int| 0 <= at < before.len() && before[at] == m;
                            assert(list@[at] == m);
                        }
                    }
                    assert forall|i: int| 0 <= i < before.len() implies (
                    #[trigger] before[i]).rank_model() < rank by {
                        assert(before.contains(before[i]));
                    }
                }
            }
            proof {
                assert forall|m: ModuleId| #[trigger]
                    list@.contains(m) <==> self@.contains(m) && m.rank_model() < rank + 1 by {
                    lemma_ranks_differ(m, module);
                }
            }
            rank = rank + 1;
        }
        proof {
            assert forall|m: ModuleId| m.rank_model() < MODULE_COUNT by {
                lemma_ranks_differ(m, m);
            }
        }
        list
    }
}

/// Explicit settings of modules.
#[derive(Clone, Debug, PartialEq, Eq)]
pub struct ModuleOverrides {
    settings: [Option<ModuleSetting>; 12],
}

impl View for ModuleOverrides {
    type V = Map<ModuleId, ModuleSetting>;

    closed spec fn view(&self) -> Map<ModuleId, ModuleSetting> {
        Map::new(
            |m: ModuleId| self.settings@[m.rank_model() as int] is Some,
            |m: ModuleId| self.settings@[m.rank_model() as int]->0,
        )
    }
}

impl ModuleOverrides {
    /// No settings.
    pub fn new() -> (none: Self)
        ensures
            none@ == Map::<ModuleId, ModuleSetting>::empty(),
    {
        let none = ModuleOverrides { settings: [None; 12] };
        assert(none@ =~= Map::<ModuleId, ModuleSetting>::empty());
        none
    }

    /// Sets a module, and gives the setting that it had.
    pub fn insert(&mut self, module: ModuleId, setting: ModuleSetting) -> (had: Option<
        ModuleSetting,
    >)
        ensures
            had == if old(self)@.contains_key(module) {
                Some(old(self)@[module])
            } else {
                None
            },
            final(self)@ == old(self)@.insert(module, setting),
    {
        let ghost before = self@;
        let rank: usize = module.rank();
        let had: Option<ModuleSetting> = self.settings[rank];
        self.settings[rank] = Some(setting);
        proof {
            assert forall|m: ModuleId|
                self@.contains_key(m) == before.insert(module, setting).contains_key(m) && (
                self@.contains_key(m) ==> self@[m] == before.insert(module, setting)[m]) by {
                lemma_ranks_differ(m, module);
            }
            assert(self@ =~= before.insert(module, setting));
        }
        had
    }

    /// The setting of a module, if it has one.
    pub fn get(&self, module: &ModuleId) -> (setting: Option<ModuleSetting>)
        ensures
            setting == if self@.contains_key(*module) {
                Some(self@[*module])
            } else {
                None
            },
    {
        self.settings[module.rank()]
    }
}

/// The configuration of an installation.
#[derive(Clone, Debug, PartialEq, Eq)]
pub struct ProductConfig {
    pub schema_version: u32,
    pub profile: Profile,
    pub server: ServerConfig,
    /// Explicit operator overrides. Unspecified modules inherit the profile.
    pub modules: ModuleOverrides,
}

/// The modules of a profile.
pub open spec fn defaults_model(profile: Profile) -> Set<ModuleId> {
    match profile {
        Profile::Standard => set![
            ModuleId::Tuic,
            ModuleId::AdaptiveFec,
            ModuleId::Pmtu,
            ModuleId::DirectEgress,
            ModuleId::DnsDoh,
            ModuleId::DnsDotFallback,
            ModuleId::Observability,
            ModuleId::AutomaticRollback,
        ],
        Profile::Enhanced => set![
            ModuleId::Tuic,
            ModuleId::AdaptiveFec,
            ModuleId::Pmtu,
            ModuleId::DirectEgress,
            ModuleId::MultiWarp,
            ModuleId::StableGoogleEgress,
            ModuleId::DnsDoh,
            ModuleId::DnsDotFallback,
            ModuleId::Observability,
            ModuleId::AutomaticRollback,
        ],
        Profile::LowResource => set![
            ModuleId::Tuic,
            ModuleId::AdaptiveFec,
            ModuleId::Pmtu,
            ModuleId::DirectEgress,
            ModuleId::DnsDoh,
            ModuleId::AutomaticRollback,
        ],
        Profile::Laboratory => set![
            ModuleId::Masque,
            ModuleId::Pmtu,
            ModuleId::DirectEgress,
            ModuleId::DnsDoh,
            ModuleId::DnsDoq,
            ModuleId::Observability,
            ModuleId::AutomaticRollback,
        ],
    }
}

/// The modules of a profile.
pub fn profile_defaults(profile: Profile) -> (modules: ModuleSet)
    ensures
        modules@ == defaults_model(profile),
{
    let mut modules: ModuleSet = ModuleSet::new();
    modules.insert(ModuleId::Pmtu);
    modules.insert(ModuleId::DirectEgress);
    modules.insert(ModuleId::DnsDoh);
    modules.insert(ModuleId::AutomaticRollback);
    match profile {
        Profile::Standard => {
            modules.insert(ModuleId::Tuic);
            modules.insert(ModuleId::AdaptiveFec);
            modules.insert(ModuleId::DnsDotFallback);
            modules.insert(ModuleId::Observability);
        },
        Profile::Enhanced => {
            modules.insert(ModuleId::Tuic);
            modules.insert(ModuleId::AdaptiveFec);
            modules.insert(ModuleId::MultiWarp);
            modules.insert(ModuleId::StableGoogleEgress);
            modules.insert(ModuleId::DnsDotFallback);
            modules.insert(ModuleId::Observability);
        },
        Profile::LowResource => {
            modules.insert(ModuleId::Tuic);
            modules.insert(ModuleId::AdaptiveFec);
        },
        Profile::Laboratory => {
            modules.insert(ModuleId::Masque);
            modules.insert(ModuleId::DnsDoq);
            modules.insert(ModuleId::Observability);
        },
    }
    assert(modules@ =~= defaults_model(profile));
    modules
}

/// The first module that `module` needs and `set` lacks.
pub open spec fn is_missing(set: Set<ModuleId>, module: ModuleId, dependency: ModuleId) -> bool {
    exists|i: int|
        {
            &&& 0 <= i < module.dependencies_model().len()
            &&& #[trigger] module.dependencies_model()[i] == dependency
            &&& !set.contains(dependency)
            &&& forall|j: int|
                0 <= j < i ==> set.contains(#[trigger] module.dependencies_model()[j])
        }
}

/// Whether `set` has everything that `module` needs.
pub open spec fn is_satisfied(set: Set<ModuleId>, module: ModuleId) -> bool {
    forall|i: int|
        0 <= i < module.dependencies_model().len() ==> set.contains(
            #[trigger] module.dependencies_model()[i],
        )
}

/// Whether every module of a set has what it needs.
pub open spec fn is_closed(set: Set<ModuleId>) -> bool {
    forall|m: ModuleId| #[trigger] set.contains(m) ==> is_satisfied(set, m)
}

/// Whether `module` is the first module of a set that lacks something, and
/// `dependency` the first that it lacks.
pub open spec fn is_first_missing(
    set: Set<ModuleId>,
    module: ModuleId,
    dependency: ModuleId,
) -> bool {
    &&& set.contains(module)
    &&& is_missing(set, module, dependency)
    &&& forall|m: ModuleId| #[trigger]
        set.contains(m) && m.rank_model() < module.rank_model() ==> is_satisfied(set, m)
}

impl ProductConfig {
    /// Why the numbers in a configuration are refused, if they are.
    pub open spec fn scalar_error(self) -> Option<ConfigError> {
        if self.schema_version != CURRENT_SCHEMA_VERSION {
            Some(
                ConfigError::UnsupportedSchema {
                    found: self.schema_version,
                    supported: CURRENT_SCHEMA_VERSION,
                },
            )
        } else if self.server.bandwidth_mbps == 0 {
            Some(ConfigError::ZeroBandwidth)
        } else if self.server.public_tcp_port == 0 || self.server.public_udp_port == 0 {
            Some(ConfigError::UnsafePublicPort)
        } else {
            None
        }
    }

    /// The modules that the profile and the explicit settings ask for.
    pub open spec fn asked_model(self) -> Set<ModuleId> {
        Set::new(
            |m: ModuleId|
                if self.modules@.contains_key(m) && self.modules@[m] != ModuleSetting::Auto {
                    self.modules@[m] == ModuleSetting::Enabled
                } else {
                    defaults_model(self.profile).contains(m)
                },
        )
    }

    /// The modules that run: those that are asked for, and automatic rollback, which
    /// is the safety floor of the product and cannot be switched off.
    pub open spec fn resolved_model(self) -> Set<ModuleId> {
        self.asked_model().insert(ModuleId::AutomaticRollback)
    }

    /// Why a choice of modules is refused whatever they need, if it is.
    pub open spec fn choice_error(self) -> Option<ConfigError> {
        let set = self.resolved_model();
        if set.contains(ModuleId::Tuic) && set.contains(ModuleId::Masque) {
            Some(ConfigError::ConflictingTransports)
        } else if set.contains(ModuleId::Masque) && self.profile != Profile::Laboratory {
            Some(ConfigError::ExperimentalModuleOutsideLaboratory(ModuleId::Masque))
        } else if set.contains(ModuleId::DnsDoq) && self.profile != Profile::Laboratory {
            Some(ConfigError::ExperimentalModuleOutsideLaboratory(ModuleId::DnsDoq))
        } else {
            None
        }
    }

    /// Whether `r` is what comes of a configuration: its modules, or the first
    /// reason to refuse it.
    pub open spec fn resolves_to(self, r: Result<Set<ModuleId>, ConfigError>) -> bool {
        match self.scalar_error() {
            Some(e) => r == Err::<Set<ModuleId>, ConfigError>(e),
            None => match self.choice_error() {
                Some(e) => r == Err::<Set<ModuleId>, ConfigError>(e),
                None => match r {
                    Ok(set) => set == self.resolved_model() && is_closed(set),
                    Err(e) => e matches ConfigError::MissingDependency { module, dependency }
                        && is_first_missing(self.resolved_model(), module, dependency),
                },
            },
        }
    }

    /// The configuration of a profile without overrides.
    pub fn for_profile(profile: Profile) -> (config: Self)
        ensures
            config.schema_version == CURRENT_SCHEMA_VERSION,
            config.profile == profile,
            config.server == (ServerConfig {
                bandwidth_mbps: 30,
                public_tcp_port: 443,
                public_udp_port: 443,
            }),
            config.modules@ == Map::<ModuleId, ModuleSetting>::empty(),
    {
        ProductConfig {
            schema_version: CURRENT_SCHEMA_VERSION,
            profile,
            server: ServerConfig {
                bandwidth_mbps: 30,
                public_tcp_port: 443,
                public_udp_port: 443,
            },
            modules: ModuleOverrides::new(),
        }
    }

    /// The modules of a configuration.
    pub fn resolve_modules(&self) -> (modules: Result<ModuleSet, ConfigError>)
        ensures
            self.resolves_to(set_view(modules)),
    {
        match self.validate_scalar_fields() {
            Ok(_) => {},
            Err(e) => return Err(e),
        }
        let mut resolved: ModuleSet = profile_defaults(self.profile);
        let ghost defaults = resolved@;
        let mut rank: usize = 0;
        while rank < MODULE_COUNT
            invariant
                rank <= MODULE_COUNT,
                defaults == defaults_model(self.profile),
                forall|m: ModuleId| #[trigger]
                    resolved@.contains(m) == if m.rank_model() < rank {
                        self.asked_model().contains(m)
                    } else {
                        defaults.contains(m)
                    },
            decreases MODULE_COUNT - rank,
        {
            let module: ModuleId = module_at(rank);
            match self.modules.get(&module) {
                Some(ModuleSetting::Enabled) => {
                    resolved.insert(module);
                },
                Some(ModuleSetting::Disabled) => {
                    resolved.remove(&module);
                },
                _ => {},
            }
            proof {
                assert forall|m: ModuleId| #[trigger]
                    resolved@.contains(m) == if m.rank_model() < rank + 1 {
                        self.asked_model().contains(m)
                    } else {
                        defaults.contains(m)
                    } by {
                    lemma_ranks_differ(m, module);
                }
            }
            rank = rank + 1;
        }
        proof {
            assert forall|m: ModuleId| resolved@.contains(m) == self.asked_model().contains(
                m,
            ) by {
                lemma_ranks_differ(m, m);
            }
            assert(resolved@ =~= self.asked_model());
        }
        resolved.insert(ModuleId::AutomaticRollback);
        if resolved.contains(&ModuleId::Tuic) && resolved.contains(&ModuleId::Masque) {
            return Err(ConfigError::ConflictingTransports);
        }
        if resolved.contains(&ModuleId::Masque) && self.profile != Profile::Laboratory {
            return Err(ConfigError::ExperimentalModuleOutsideLaboratory(ModuleId::Masque));
        }
        if resolved.contains(&ModuleId::DnsDoq) && self.profile != Profile::Laboratory {
            return Err(ConfigError::ExperimentalModuleOutsideLaboratory(ModuleId::DnsDoq));
        }
        let members: Vec<ModuleId> = resolved.members();
        let mut i: usize = 0;
        while i < members.len()
            invariant
                i <= members@.len(),
                resolved@ == self.resolved_model(),
                lists_in_order(members@, resolved@),
                self.scalar_error() is None,
                self.choice_error() is None,
                forall|k: int|
                    0 <= k < i ==> is_satisfied(resolved@, #[trigger] members@[k]),
            decreases members@.len() - i,
        {
            let module: ModuleId = members[i];
            assert(members@.contains(members@[i as int]));
            let needed: &'static [ModuleId] = module.dependencies();
            let mut j: usize = 0;
            while j < needed.len()
                invariant
                    i < members@.len(),
                    j <= needed@.len(),
                    module == members@[i as int],
                    needed@ == module.dependencies_model(),
                    resolved@ == self.resolved_model(),
                    resolved@.contains(module),
                    lists_in_order(members@, resolved@),
                    self.scalar_error() is None,
                    self.choice_error() is None,
                    forall|k: int|
                        0 <= k < i ==> is_satisfied(resolved@, #[trigger] members@[k]),
                    forall|k: int|
                        0 <= k < j ==> resolved@.contains(
                            #[trigger] module.dependencies_model()[k],
                        ),
                decreases needed@.len() - j,
            {
                let dependency: ModuleId = needed[j];
                if !resolved.contains(&dependency) {
                    proof {
                        assert(module.dependencies_model()[j as int] == dependency);
                        assert(is_missing(resolved@, module, dependency));
                        assert forall|m: ModuleId| #[trigger]
                            resolved@.contains(m) && m.rank_model()
                                < module.rank_model() implies is_satisfied(resolved@, m) by {
                            assert(members@.contains(m));
                            let at = choose|at: int| 0 <= at < members@.len() && members@[at] == m;
                            if at > i {
                                assert(members@[i as int].rank_model() < members@[at].rank_model());
                            }
                            assert(at < i);
                        }
                    }
                    return Err(ConfigError::MissingDependency { module, dependency });
                }
                j = j + 1;
            }
            i = i + 1;
        }
        proof {
            assert forall|m: ModuleId| #[trigger] resolved@.contains(m) implies is_satisfied(
                resolved@,
                m,
            ) by {
                assert(members@.contains(m));
                let at = choose|at: int| 0 <= at < members@.len() && members@[at] == m;
                assert(is_satisfied(resolved@, members@[at]));
            }
        }
        Ok(resolved)
    }

    /// Checks the numbers in a configuration.
    fn validate_scalar_fields(&self) -> (checked: Result<(), ConfigError>)
        ensures
            checked == match self.scalar_error() {
                Some(e) => Err::<(), ConfigError>(e),
                None => Ok(()),
            },
    {
        if self.schema_version != CURRENT_SCHEMA_VERSION {
            return Err(
                ConfigError::UnsupportedSchema {
                    found: self.schema_version,
                    supported: CURRENT_SCHEMA_VERSION,
                },
            );
        }
        if self.server.bandwidth_mbps == 0 {
            return Err(ConfigError::ZeroBandwidth);
        }
        if self.server.public_tcp_port == 0 || self.server.public_udp_port == 0 {
            return Err(ConfigError::UnsafePublicPort);
        }
        Ok(())
    }
}

/// The modules as a mathematical value.
pub open spec fn set_view(r: Result<ModuleSet, ConfigError>) -> Result<Set<ModuleId>, ConfigError> {
    match r {
        Ok(set) => Ok(set@),
        Err(e) => Err(e),
    }
}

/// A configuration has just one outcome.
pub proof fn law_outcomes_are_definite(
    config: ProductConfig,
    a: Result<Set<ModuleId>, ConfigError>,
    b: Result<Set<ModuleId>, ConfigError>,
)
    requires
        config.resolves_to(a),
        config.resolves_to(b),
    ensures
        a == b,
{
    let set = config.resolved_model();
    match (a, b) {
        (
            Err(ConfigError::MissingDependency { module: m, dependency: d }),
            Err(ConfigError::MissingDependency { module: n, dependency: e }),
        ) => {
            if config.scalar_error() is None && config.choice_error() is None {
                lemma_ranks_differ(m, n);
                assert(set.contains(m) && set.contains(n));
                assert(!is_satisfied(set, m) && !is_satisfied(set, n));
            }
        },
        _ => {},
    }
}

/// Every profile is consistent by itself: without overrides it resolves to its
/// own modules.
pub proof fn law_profiles_are_consistent(
    config: ProductConfig,
    r: Result<Set<ModuleId>, ConfigError>,
)
    requires
        config.scalar_error() is None,
        config.modules@ == Map::<ModuleId, ModuleSetting>::empty(),
        config.resolves_to(r),
    ensures
        r == Ok::<Set<ModuleId>, ConfigError>(defaults_model(config.profile)),
{
    let set = defaults_model(config.profile);
    assert(config.resolved_model() =~= set);
    assert(is_closed(set));
    match r {
        Ok(_) => {},
        Err(ConfigError::MissingDependency { module, dependency }) => {
            assert(set.contains(module));
            assert(is_satisfied(set, module));
        },
        Err(_) => {},
    }
}

/// Automatic rollback runs, whatever an operator asks for.
pub proof fn law_rollback_is_always_on(config: ProductConfig, set: Set<ModuleId>)
    requires
        config.resolves_to(Ok(set)),
    ensures
        set.contains(ModuleId::AutomaticRollback),
{
}

/// What an operator asks for is done or refused: an enabled module runs, a
/// disabled one does not, and a module that is left to the profile follows it. The
/// one exception is automatic rollback, which cannot be disabled.
pub proof fn law_overrides_are_honoured(config: ProductConfig, set: Set<ModuleId>, m: ModuleId)
    requires
        config.resolves_to(Ok(set)),
    ensures
        config.modules@.contains_key(m) && config.modules@[m] == ModuleSetting::Enabled
            ==> set.contains(m),
        config.modules@.contains_key(m) && config.modules@[m] == ModuleSetting::Disabled && m
            != ModuleId::AutomaticRollback ==> !set.contains(m),
        !config.modules@.contains_key(m) || config.modules@[m] == ModuleSetting::Auto ==> (
        set.contains(m) <==> defaults_model(config.profile).contains(m)),
{
}

/// What is accepted can run: one transport at most, experimental modules in the
/// laboratory only, and every module with what it needs.
pub proof fn law_accepted_modules_fit_together(config: ProductConfig, set: Set<ModuleId>)
    requires
        config.resolves_to(Ok(set)),
    ensures
        !(set.contains(ModuleId::Tuic) && set.contains(ModuleId::Masque)),
        set.contains(ModuleId::Masque) || set.contains(ModuleId::DnsDoq) ==> config.profile
            == Profile::Laboratory,
        is_closed(set),
{
}

/// Which profile runs which module: the path discovery, direct egress, DNS over HTTPS and
/// automatic rollback run everywhere; TUIC and the redundancy in every profile but the
/// laboratory; several egresses and the stable one in the enhanced profile only; the DNS
/// fallback in the standard and the enhanced one; observability wherever resources are
/// not low; MASQUE and DNS over QUIC in the laboratory only.
pub proof fn law_profiles_run_what_they_are_for(profile: Profile)
    ensures
        ({
            let set = defaults_model(profile);
            let laboratory = profile == Profile::Laboratory;
            let enhanced = profile == Profile::Enhanced;
            &&& set.contains(ModuleId::Tuic) <==> !laboratory
            &&& set.contains(ModuleId::AdaptiveFec) <==> !laboratory
            &&& set.contains(ModuleId::Masque) <==> laboratory
            &&& set.contains(ModuleId::DnsDoq) <==> laboratory
            &&& set.contains(ModuleId::MultiWarp) <==> enhanced
            &&& set.contains(ModuleId::StableGoogleEgress) <==> enhanced
            &&& set.contains(ModuleId::DnsDotFallback) <==> profile == Profile::Standard || enhanced
            &&& set.contains(ModuleId::Observability) <==> profile != Profile::LowResource
            &&& set.contains(ModuleId::Pmtu)
            &&& set.contains(ModuleId::DirectEgress)
            &&& set.contains(ModuleId::DnsDoh)
            &&& set.contains(ModuleId::AutomaticRollback)
        }),
{
}

/// What a configuration resolves to where nothing is overridden: it is accepted, and runs
/// what its profile is for.
pub proof fn law_plain_configurations_run_their_profile(
    config: ProductConfig,
    r: Result<Set<ModuleId>, ConfigError>,
)
    requires
        config.schema_version == 1,
        config.server.bandwidth_mbps > 0,
        config.server.public_tcp_port > 0,
        config.server.public_udp_port > 0,
        forall|m: ModuleId|
            #[trigger] config.modules@.contains_key(m) ==> config.modules@[m]
                == ModuleSetting::Auto,
        config.resolves_to(r),
    ensures
        ({
            let laboratory = config.profile == Profile::Laboratory;
            let enhanced = config.profile == Profile::Enhanced;
            &&& r matches Ok(set) && {
                &&& set.contains(ModuleId::Tuic) <==> !laboratory
                &&& set.contains(ModuleId::AdaptiveFec) <==> !laboratory
                &&& set.contains(ModuleId::Masque) <==> laboratory
                &&& set.contains(ModuleId::DnsDoq) <==> laboratory
                &&& set.contains(ModuleId::MultiWarp) <==> enhanced
                &&& set.contains(ModuleId::StableGoogleEgress) <==> enhanced
                &&& set.contains(ModuleId::DnsDotFallback) <==> config.profile == Profile::Standard
                    || enhanced
                &&& set.contains(ModuleId::Observability) <==> config.profile
                    != Profile::LowResource
                &&& set.contains(ModuleId::Pmtu)
                &&& set.contains(ModuleId::DirectEgress)
                &&& set.contains(ModuleId::DnsDoh)
                &&& set.contains(ModuleId::AutomaticRollback)
            }
        }),
{
    let set = defaults_model(config.profile);
    assert forall|m: ModuleId| config.resolved_model().contains(m) == set.contains(m) by {
        assert(config.modules@.contains_key(m) ==> config.modules@[m] == ModuleSetting::Auto);
    }
    assert(config.resolved_model() =~= set);
    assert(is_closed(set));
    match r {
        Ok(_) => {},
        Err(ConfigError::MissingDependency { module, dependency }) => {
            assert(set.contains(module));
            assert(is_satisfied(set, module));
        },
        Err(_) => {},
    }
}

/// What a module needs: the redundancy needs TUIC and the path discovery; several
/// egresses, the stable one and DNS over QUIC need the direct one; the DNS fallback needs
/// DNS over HTTPS. Nothing else needs anything, and a module never needs itself.
pub proof fn law_needs_of_modules(module: ModuleId, dependency: ModuleId)
    ensures
        module.dependencies_model().contains(dependency) <==> match dependency {
            ModuleId::Tuic => module == ModuleId::AdaptiveFec,
            ModuleId::Pmtu => module == ModuleId::AdaptiveFec,
            ModuleId::DirectEgress => module == ModuleId::MultiWarp || module
                == ModuleId::StableGoogleEgress || module == ModuleId::DnsDoq,
            ModuleId::DnsDoh => module == ModuleId::DnsDotFallback,
            _ => false,
        },
        module.dependencies_model().len() <= 2,
        module.dependencies_model().len() == 2 ==> module.dependencies_model()[0]
            == ModuleId::Tuic,
{
    let needed = module.dependencies_model();
    if module == ModuleId::AdaptiveFec {
        assert(needed[0] == ModuleId::Tuic);
        assert(needed[1] == ModuleId::Pmtu);
    } else if needed.len() > 0 {
        assert(needed.len() == 1);
        assert(needed[0] == needed[0]);
    }
}

/// Modules are listed in one order, each in a place of its own.
pub proof fn law_modules_have_places(a: ModuleId, b: ModuleId)
    ensures
        a.rank_model() < 12,
        a.rank_model() == b.rank_model() <==> a == b,
        ModuleId::Tuic.rank_model() < ModuleId::Masque.rank_model(),
        ModuleId::Masque.rank_model() < ModuleId::AdaptiveFec.rank_model(),
        ModuleId::AdaptiveFec.rank_model() < ModuleId::Pmtu.rank_model(),
        ModuleId::Pmtu.rank_model() < ModuleId::DirectEgress.rank_model(),
        ModuleId::DirectEgress.rank_model() < ModuleId::MultiWarp.rank_model(),
        ModuleId::MultiWarp.rank_model() < ModuleId::StableGoogleEgress.rank_model(),
        ModuleId::StableGoogleEgress.rank_model() < ModuleId::DnsDoh.rank_model(),
        ModuleId::DnsDoh.rank_model() < ModuleId::DnsDotFallback.rank_model(),
        ModuleId::DnsDotFallback.rank_model() < ModuleId::DnsDoq.rank_model(),
        ModuleId::DnsDoq.rank_model() < ModuleId::Observability.rank_model(),
        ModuleId::Observability.rank_model() < ModuleId::AutomaticRollback.rank_model(),
{
}

/// A configuration is refused for its numbers, whatever its modules: another schema than
/// the first, no bandwidth or no port, and the first of these that holds is named.
pub proof fn law_bad_numbers_are_refused(
    config: ProductConfig,
    r: Result<Set<ModuleId>, ConfigError>,
)
    requires
        config.resolves_to(r),
    ensures
        ({
            let schema = config.schema_version != 1;
            let idle = !schema && config.server.bandwidth_mbps == 0;
            let closed = !schema && !idle && (config.server.public_tcp_port == 0
                || config.server.public_udp_port == 0);
            &&& schema <==> r == Err::<Set<ModuleId>, ConfigError>(
                ConfigError::UnsupportedSchema { found: config.schema_version, supported: 1 },
            )
            &&& !schema ==> !(r is Err && r->Err_0 is UnsupportedSchema)
            &&& idle <==> r == Err::<Set<ModuleId>, ConfigError>(ConfigError::ZeroBandwidth)
            &&& closed <==> r == Err::<Set<ModuleId>, ConfigError>(ConfigError::UnsafePublicPort)
        }),
{
}

/// Which modules a configuration asks for: an enabled module, and one that is left to a
/// profile which runs it. Automatic rollback is always asked for.
pub open spec fn is_asked_for(config: ProductConfig, m: ModuleId) -> bool {
    ||| m == ModuleId::AutomaticRollback
    ||| config.modules@.contains_key(m) && config.modules@[m] == ModuleSetting::Enabled
    ||| (!config.modules@.contains_key(m) || config.modules@[m] == ModuleSetting::Auto)
        && defaults_model(config.profile).contains(m)
}

/// When a choice of modules is refused: for two transports, for an experimental module
/// outside the laboratory, and for a module without one that it needs; the first of these
/// that holds is named. Any other choice is accepted, and runs just what was asked for.
pub proof fn law_bad_choices_are_refused(
    config: ProductConfig,
    r: Result<Set<ModuleId>, ConfigError>,
)
    requires
        config.schema_version == 1,
        config.server.bandwidth_mbps > 0,
        config.server.public_tcp_port > 0,
        config.server.public_udp_port > 0,
        config.resolves_to(r),
    ensures
        ({
            let laboratory = config.profile == Profile::Laboratory;
            let two = is_asked_for(config, ModuleId::Tuic) && is_asked_for(
                config,
                ModuleId::Masque,
            );
            let masque = !two && is_asked_for(config, ModuleId::Masque) && !laboratory;
            let doq = !two && !masque && is_asked_for(config, ModuleId::DnsDoq) && !laboratory;
            &&& two <==> r == Err::<Set<ModuleId>, ConfigError>(ConfigError::ConflictingTransports)
            &&& masque <==> r == Err::<Set<ModuleId>, ConfigError>(
                ConfigError::ExperimentalModuleOutsideLaboratory(ModuleId::Masque),
            )
            &&& doq <==> r == Err::<Set<ModuleId>, ConfigError>(
                ConfigError::ExperimentalModuleOutsideLaboratory(ModuleId::DnsDoq),
            )
            &&& r matches Err(e) ==> two || masque || doq || e is MissingDependency
            &&& r matches Err(ConfigError::MissingDependency { module, dependency }) ==> {
                &&& is_asked_for(config, module)
                &&& !is_asked_for(config, dependency)
                &&& module.dependencies_model().contains(dependency)
                &&& dependency == ModuleId::Pmtu ==> is_asked_for(config, ModuleId::Tuic)
                &&& forall|m: ModuleId, d: ModuleId|
                    #![trigger is_asked_for(config, m), m.dependencies_model().contains(d)]
                    is_asked_for(config, m) && m.dependencies_model().contains(d)
                        && m.rank_model() < module.rank_model() ==> is_asked_for(config, d)
            }
            &&& r matches Ok(set) ==> {
                &&& forall|m: ModuleId| #[trigger] set.contains(m) <==> is_asked_for(config, m)
                &&& forall|m: ModuleId, d: ModuleId|
                    #![trigger set.contains(m), m.dependencies_model().contains(d)]
                    set.contains(m) && m.dependencies_model().contains(d) ==> set.contains(d)
            }
        }),
{
    let set = config.resolved_model();
    assert forall|m: ModuleId| #[trigger] set.contains(m) == is_asked_for(config, m) by {
        if config.modules@.contains_key(m) {
            match config.modules@[m] {
                ModuleSetting::Enabled => {},
                ModuleSetting::Disabled => {},
                ModuleSetting::Auto => {},
            }
        }
    }
    match r {
        Ok(set) => {
            assert forall|m: ModuleId, d: ModuleId|
                #![trigger set.contains(m), m.dependencies_model().contains(d)]
                set.contains(m) && m.dependencies_model().contains(d) implies set.contains(d) by {
                assert(is_satisfied(set, m));
            }
        },
        Err(ConfigError::MissingDependency { module, dependency }) => {
            assert(set.contains(module));
            assert(is_missing(set, module, dependency));
            assert(set.contains(dependency) == is_asked_for(config, dependency));
            if dependency == ModuleId::Pmtu {
                assert(module == ModuleId::AdaptiveFec);
                assert(module.dependencies_model()[0] == ModuleId::Tuic);
                assert(set.contains(ModuleId::Tuic));
            }
            assert forall|m: ModuleId, d: ModuleId|
                #![trigger is_asked_for(config, m), m.dependencies_model().contains(d)]
                is_asked_for(config, m) && m.dependencies_model().contains(d) && m.rank_model()
                    < module.rank_model() implies is_asked_for(config, d) by {
                assert(set.contains(m));
                assert(is_satisfied(set, m));
                assert(set.contains(d));
            }
        },
        Err(_) => {},
    }
}

/// The first configuration of a profile is accepted as it is.
pub proof fn law_first_configurations(profile: Profile, config: ProductConfig)
    requires
        call_ensures(ProductConfig::for_profile, (profile,), config),
    ensures
        config.schema_version == 1,
        config.profile == profile,
        config.server.bandwidth_mbps == 30,
        config.server.public_tcp_port == 443,
        config.server.public_udp_port == 443,
        forall|m: ModuleId| !config.modules@.contains_key(m),
{
}

/// Sets and settings of modules, and what resolving gives, are seen as they are.
pub proof fn law_modules_are_seen_as_they_are(r: Result<ModuleSet, ConfigError>)
    ensures
        match r {
            Ok(set) => set_view(r) == Ok::<Set<ModuleId>, ConfigError>(set@),
            Err(e) => set_view(r) == Err::<Set<ModuleId>, ConfigError>(e),
        },
{
}

/// A list in order has each member of its set just once.
pub proof fn law_lists_in_order_are_definite(
    list: Seq<ModuleId>,
    set: Set<ModuleId>,
    i: int,
    j: int,
)
    requires
        lists_in_order(list, set),
        0 <= i < list.len(),
        0 <= j < list.len(),
    ensures
        set.contains(list[i]),
        i == j <==> list[i] == list[j],
        i < j <==> list[i].rank_model() < list[j].rank_model(),
{
    assert(list.contains(list[i]));
}

/// Every configuration has an outcome.
pub proof fn law_configurations_have_outcomes(config: ProductConfig)
    ensures
        exists|r: Result<Set<ModuleId>, ConfigError>| config.resolves_to(r),
{
    let set = config.resolved_model();
    match config.scalar_error() {
        Some(e) => {
            assert(config.resolves_to(Err(e)));
        },
        None => match config.choice_error() {
            Some(e) => {
                assert(config.resolves_to(Err(e)));
            },
            None => {
                if is_closed(set) {
                    assert(config.resolves_to(Ok(set)));
                } else {
                    lemma_first_lacking(set, 12);
                    let m = choose|m: ModuleId| #[trigger] set.contains(m) && !is_satisfied(set, m);
                    lemma_ranks_differ(m, m);
                    let (module, dependency) = choose|module: ModuleId, dependency: ModuleId|
                        is_first_missing(set, module, dependency);
                    assert(config.resolves_to(
                        Err(ConfigError::MissingDependency { module, dependency }),
                    ));
                }
            },
        },
    }
}

/// Of the modules before a place each has what it needs, or one is the first that lacks
/// something.
proof fn lemma_first_lacking(set: Set<ModuleId>, n: nat)
    ensures
        (forall|m: ModuleId| #[trigger]
            set.contains(m) && m.rank_model() < n ==> is_satisfied(set, m)) || exists|
            module: ModuleId,
            dependency: ModuleId,
        |
            is_first_missing(set, module, dependency),
    decreases n,
{
    if n > 0 {
        lemma_first_lacking(set, (n - 1) as nat);
        if !(forall|m: ModuleId| #[trigger]
            set.contains(m) && m.rank_model() < n ==> is_satisfied(set, m)) && !(exists|
            module: ModuleId,
            dependency: ModuleId,
        |
            is_first_missing(set, module, dependency)) {
            let m = choose|m: ModuleId| #[trigger]
                set.contains(m) && m.rank_model() < n && !is_satisfied(set, m);
            let needed = m.dependencies_model();
            let at: int = if !set.contains(needed[0]) {
                0
            } else {
                1
            };
            let i = choose|i: int|
                0 <= i < needed.len() && !set.contains(#[trigger] needed[i]);
            assert(0 <= i < needed.len() && !set.contains(needed[i]));
            assert(needed.len() <= 2);
            assert(!set.contains(needed[at]));
            assert(is_missing(set, m, needed[at]));
            assert(is_first_missing(set, m, needed[at]));
        }
    }
}

/// Sets and settings of modules keep what is put into them, and nothing else changes.
pub proof fn law_modules_are_kept(
    set: &mut ModuleSet,
    module: ModuleId,
    new: bool,
    overrides: &mut ModuleOverrides,
    setting: ModuleSetting,
    had: Option<ModuleSetting>,
    m: ModuleId,
)
    requires
        call_ensures(ModuleSet::insert, (set, module), new),
        call_ensures(ModuleOverrides::insert, (overrides, module, setting), had),
    ensures
        final(set)@.contains(m) <==> old(set)@.contains(m) || m == module,
        new <==> !old(set)@.contains(module),
        final(overrides)@.contains_key(module) && final(overrides)@[module] == setting,
        m != module ==> (final(overrides)@.contains_key(m) <==> old(overrides)@.contains_key(m)),
        m != module && old(overrides)@.contains_key(m) ==> final(overrides)@[m] == old(
            overrides,
        )@[m],
        had is Some <==> old(overrides)@.contains_key(module),
        had matches Some(s) ==> s == old(overrides)@[module],
{
}

/// A module that is taken out of a set is not in it, and every other stays.
pub proof fn law_modules_are_taken_out(
    set: &mut ModuleSet,
    module: &ModuleId,
    there: bool,
    m: ModuleId,
)
    requires
        call_ensures(ModuleSet::remove, (set, module), there),
    ensures
        final(set)@.contains(m) <==> old(set)@.contains(m) && m != *module,
        there <==> old(set)@.contains(*module),
{
}

} // verus!
