use vstd::prelude::*;
use crate::clock::unix_now_secs;
use crate::text::{has_prefix, joined, join, starts_with};
use crate::pkce::{code_challenge, code_verifier, make_code_challenge, make_code_verifier, random_key};

verus! {

/// An action guarded by access control.
#[derive(Debug, Clone, Copy, PartialEq, Eq, Hash, Structural)]
pub enum Permission {
    ReadTarget,
    BuildTarget,
    DeployTarget,
    AdminTarget,
    SignArtifact,
    ReadSecrets,
    WriteSecrets,
    ManageWorkers,
    ViewAnalytics,
    ManagePlugins,
}

/// The name of a permission, as recorded in the audit log.
pub open spec fn permission_name(p: Permission) -> Seq<char> {
    match p {
        Permission::ReadTarget => "ReadTarget"@,
        Permission::BuildTarget => "BuildTarget"@,
        Permission::DeployTarget => "DeployTarget"@,
        Permission::AdminTarget => "AdminTarget"@,
        Permission::SignArtifact => "SignArtifact"@,
        Permission::ReadSecrets => "ReadSecrets"@,
        Permission::WriteSecrets => "WriteSecrets"@,
        Permission::ManageWorkers => "ManageWorkers"@,
        Permission::ViewAnalytics => "ViewAnalytics"@,
        Permission::ManagePlugins => "ManagePlugins"@,
    }
}

impl Permission {
    /// The permission's name.
    pub fn name(&self) -> (r: String)
        ensures
            r@ == permission_name(*self),
    {
        match self {
            Permission::ReadTarget => "ReadTarget".to_string(),
            Permission::BuildTarget => "BuildTarget".to_string(),
            Permission::DeployTarget => "DeployTarget".to_string(),
            Permission::AdminTarget => "AdminTarget".to_string(),
            Permission::SignArtifact => "SignArtifact".to_string(),
            Permission::ReadSecrets => "ReadSecrets".to_string(),
            Permission::WriteSecrets => "WriteSecrets".to_string(),
            Permission::ManageWorkers => "ManageWorkers".to_string(),
            Permission::ViewAnalytics => "ViewAnalytics".to_string(),
            Permission::ManagePlugins => "ManagePlugins".to_string(),
        }
    }
}

/// A named set of permissions (a permission may be listed more than once; the role grants
/// the listed permissions).
pub struct Role {
    pub name: String,
    pub permissions: Vec<Permission>,
    pub description: String,
}

/// Who a caller is, as asserted by an identity provider.
pub struct IdentityClaims {
    pub subject: String,
    pub email: String,
    pub roles: Vec<String>,
    pub issuer: String,
    pub audience: String,
    pub expires_at: u64,
    pub issued_at: u64,
    pub groups: Vec<String>,
    pub name: Option<String>,
}

/// OpenID Connect provider settings.
pub struct OidcConfig {
    pub issuer_url: String,
    pub client_id: String,
    pub client_secret: Option<String>,
    pub redirect_url: String,
    pub scopes: Vec<String>,
    pub enable_pkce: bool,
}

impl Default for OidcConfig {
    fn default() -> (r: Self)
        ensures
            r.issuer_url@ == "https://auth.fish.build"@,
            r.client_id@ == "fish-cli"@,
            r.client_secret is None,
            r.redirect_url@ == "http://localhost:8080/callback"@,
            r.scopes@.len() == 4,
            r.scopes@[0]@ == "openid"@,
            r.scopes@[1]@ == "email"@,
            r.scopes@[2]@ == "profile"@,
            r.scopes@[3]@ == "groups"@,
            r.enable_pkce,
    {
        let mut scopes: Vec<String> = Vec::new();
        scopes.push("openid".to_string());
        scopes.push("email".to_string());
        scopes.push("profile".to_string());
        scopes.push("groups".to_string());
        OidcConfig {
            issuer_url: "https://auth.fish.build".to_string(),
            client_id: "fish-cli".to_string(),
            client_secret: None,
            redirect_url: "http://localhost:8080/callback".to_string(),
            scopes,
            enable_pkce: true,
        }
    }
}

/// One access decision.
pub struct AuditLogEntry {
    pub timestamp: u64,
    pub subject: String,
    pub email: String,
    pub action: String,
    pub target: String,
    pub permission: Permission,
    pub granted: bool,
    pub ip_address: Option<String>,
    pub user_agent: Option<String>,
    pub trace_id: Option<String>,
}

/// Some role of `roles` is named `name`.
pub open spec fn has_role(roles: Seq<Role>, name: Seq<char>) -> bool {
    exists|i: int| 0 <= i < roles.len() && (#[trigger] roles[i]).name@ == name
}

/// The role named `name` (meaningful when `has_role(roles, name)`).
pub open spec fn role_named(roles: Seq<Role>, name: Seq<char>) -> Role {
    roles[choose|i: int| 0 <= i < roles.len() && (#[trigger] roles[i]).name@ == name]
}

/// The role named `name` exists and grants `p`.
pub open spec fn role_grants(roles: Seq<Role>, name: Seq<char>, p: Permission) -> bool {
    has_role(roles, name) && role_named(roles, name).permissions@.contains(p)
}

/// Some role or group of the claims names a role that grants `p`.
pub open spec fn claims_grant(roles: Seq<Role>, claims: IdentityClaims, p: Permission) -> bool {
    ||| exists|j: int| 0 <= j < claims.roles@.len() && role_grants(roles, (#[trigger] claims.roles@[j])@, p)
    ||| exists|j: int| 0 <= j < claims.groups@.len() && role_grants(roles, (#[trigger] claims.groups@[j])@, p)
}

/// The claims have an expiry time, and it lies before `now`.
pub open spec fn is_expired(claims: IdentityClaims, now: u64) -> bool {
    claims.expires_at > 0 && claims.expires_at < now
}

/// The decision at time `now`: unexpired claims holding a role or group that grants `p`.
pub open spec fn permission_granted(roles: Seq<Role>, claims: IdentityClaims, p: Permission, now: u64) -> bool {
    !is_expired(claims, now) && claims_grant(roles, claims, p)
}

/// The permissions granted by the built-in role `name`, if it is one.
pub open spec fn builtin_role_permissions(name: Seq<char>) -> Option<Set<Permission>> {
    if name == "developer"@ {
        Some(set![Permission::ReadTarget, Permission::BuildTarget, Permission::ViewAnalytics])
    } else if name == "ci"@ {
        Some(set![Permission::ReadTarget, Permission::BuildTarget, Permission::ReadSecrets])
    } else if name == "release-manager"@ {
        Some(
            set![
                Permission::ReadTarget,
                Permission::BuildTarget,
                Permission::DeployTarget,
                Permission::SignArtifact,
                Permission::ReadSecrets,
                Permission::ViewAnalytics,
            ],
        )
    } else if name == "auditor"@ {
        Some(set![Permission::ReadTarget, Permission::ViewAnalytics])
    } else if name == "admin"@ {
        Some(
            set![
                Permission::ReadTarget,
                Permission::BuildTarget,
                Permission::DeployTarget,
                Permission::AdminTarget,
                Permission::SignArtifact,
                Permission::ReadSecrets,
                Permission::WriteSecrets,
                Permission::ManageWorkers,
                Permission::ViewAnalytics,
                Permission::ManagePlugins,
            ],
        )
    } else {
        None
    }
}

} // verus!

verus! {

/// The description of the built-in role `name`.
pub open spec fn builtin_role_description(name: Seq<char>) -> Seq<char> {
    if name == "developer"@ {
        "Standard developer with build and read access"@
    } else if name == "ci"@ {
        "CI/CD system with build and secret read access"@
    } else if name == "release-manager"@ {
        "Release manager with deploy and signing capabilities"@
    } else if name == "auditor"@ {
        "Security auditor with read and analytics access"@
    } else {
        "Administrator with full access to all resources"@
    }
}

/// Role names are unique.
pub open spec fn role_names_unique(roles: Seq<Role>) -> bool {
    forall|i: int, j: int|
        0 <= i < roles.len() && 0 <= j < roles.len() && i != j ==> (#[trigger] roles[i]).name@ != (
        #[trigger] roles[j]).name@
}

/// Whether `perms` lists `p`.
fn lists_permission(perms: &Vec<Permission>, p: Permission) -> (r: bool)
    ensures
        r == perms@.contains(p),
{
    let mut i: usize = 0;
    while i < perms.len()
        invariant
            i <= perms@.len(),
            forall|j: int| 0 <= j < i ==> perms@[j] != p,
        decreases perms@.len() - i,
    {
        if perms[i] == p {
            return true;
        }
        i = i + 1;
    }
    false
}

/// Role-based access control with an audit log.
pub struct AccessController {
    roles: Vec<Role>,
    audit_log: Vec<AuditLogEntry>,
    oidc_config: Option<OidcConfig>,
    /// The secret from which PKCE code verifiers are derived.
    pkce_key: Vec<u8>,
}

impl AccessController {
    /// Role names are unique.
    pub closed spec fn wf(self) -> bool {
        role_names_unique(self.roles@)
    }

    /// The registered roles.
    pub closed spec fn role_seq(self) -> Seq<Role> {
        self.roles@
    }

    /// A well-formed controller holds one role per name.
    pub proof fn lemma_role_names_distinct(self)
        requires
            self.wf(),
        ensures
            role_names_unique(self.role_seq()),
    {
    }

    /// The access decisions recorded so far, oldest first.
    pub closed spec fn log(self) -> Seq<AuditLogEntry> {
        self.audit_log@
    }

    /// The identity-provider settings, if configured.
    pub closed spec fn oidc(self) -> Option<OidcConfig> {
        self.oidc_config
    }

    /// The secret from which PKCE code verifiers are derived.
    pub closed spec fn pkce_key(self) -> Seq<u8> {
        self.pkce_key@
    }

    /// The position of the role named `name`, if any.
    fn find_role(&self, name: &String) -> (r: Option<usize>)
        requires
            self.wf(),
        ensures
            match r {
                Some(i) => i < self.roles@.len() && self.roles@[i as int].name@ == name@
                    && self.roles@[i as int] == role_named(self.roles@, name@),
                None => !has_role(self.roles@, name@),
            },
    {
        let mut i: usize = 0;
        while i < self.roles.len()
            invariant
                i <= self.roles@.len(),
                forall|j: int| 0 <= j < i ==> (#[trigger] self.roles@[j]).name@ != name@,
            decreases self.roles@.len() - i,
        {
            if self.roles[i].name == *name {
                proof {
                    assert(has_role(self.roles@, name@));
                    let c = choose|c: int| 0 <= c < self.roles@.len() && (#[trigger] self.roles@[c]).name@ == name@;
                    assert(c == i);
                }
                return Some(i);
            }
            i = i + 1;
        }
        None
    }

    /// Registers (or replaces) a role.
    pub fn register_role_with_description(
        &mut self,
        name: &str,
        permissions: Vec<Permission>,
        description: &str,
    )
        requires
            old(self).wf(),
        ensures
            final(self).wf(),
            has_role(final(self).role_seq(), name@),
            role_named(final(self).role_seq(), name@).name@ == name@,
            role_named(final(self).role_seq(), name@).permissions@ == permissions@,
            role_named(final(self).role_seq(), name@).description@ == description@,
            forall|n: Seq<char>|
                n != name@ ==> (has_role(final(self).role_seq(), n) == has_role(old(self).role_seq(), n)
                    && (has_role(old(self).role_seq(), n) ==> role_named(final(self).role_seq(), n)
                    == role_named(old(self).role_seq(), n))),
            final(self).role_seq().len() == old(self).role_seq().len() + if has_role(old(self).role_seq(), name@) {
                0int
            } else {
                1int
            },
            final(self).log() == old(self).log(),
            final(self).oidc() == old(self).oidc(),
    {
        let key = name.to_string();
        let role = Role { name: name.to_string(), permissions, description: description.to_string() };
        let ghost r0 = self.roles@;
        let found = self.find_role(&key);
        let ghost at = match found { Some(i) => i as int, None => r0.len() as int };
        match found {
            Some(i) => {
                self.roles.set(i, role);
            },
            None => {
                self.roles.push(role);
            },
        }
        proof {
            let rs = self.roles@;
            assert(rs[at].name@ == name@);
            assert forall|a: int, b: int| 0 <= a < rs.len() && 0 <= b < rs.len() && a != b implies (#[trigger] rs[a]).name@ != (#[trigger] rs[b]).name@ by {
                if a != at && b != at {
                    assert(rs[a] == r0[a] && rs[b] == r0[b]);
                } else if a == at {
                    assert(rs[b] == r0[b]);
                    if found is Some {
                        assert(r0[at].name@ == name@);
                    }
                } else {
                    assert(rs[a] == r0[a]);
                    if found is Some {
                        assert(r0[at].name@ == name@);
                    }
                }
            }
            assert(has_role(rs, name@));
            let c = choose|c: int| 0 <= c < rs.len() && (#[trigger] rs[c]).name@ == name@;
            assert(c == at);
            assert forall|n: Seq<char>| n != name@ implies (has_role(rs, n) == has_role(r0, n) && (has_role(r0, n) ==> role_named(rs, n) == role_named(r0, n))) by {
                if has_role(r0, n) {
                    let c0 = choose|c0: int| 0 <= c0 < r0.len() && (#[trigger] r0[c0]).name@ == n;
                    assert(c0 != at);
                    assert(rs[c0] == r0[c0]);
                    assert(has_role(rs, n));
                    let c1 = choose|c1: int| 0 <= c1 < rs.len() && (#[trigger] rs[c1]).name@ == n;
                    assert(c1 == c0);
                }
                if has_role(rs, n) {
                    let c1 = choose|c1: int| 0 <= c1 < rs.len() && (#[trigger] rs[c1]).name@ == n;
                    assert(c1 != at);
                    assert(rs[c1] == r0[c1]);
                    assert(has_role(r0, n));
                }
            }
        }
    }

    /// Registers (or replaces) a role with an empty description.
    pub fn register_role(&mut self, name: &str, permissions: Vec<Permission>)
        requires
            old(self).wf(),
        ensures
            final(self).wf(),
            has_role(final(self).role_seq(), name@),
            role_named(final(self).role_seq(), name@).permissions@ == permissions@,
            role_named(final(self).role_seq(), name@).description@ == Seq::<char>::empty(),
            forall|n: Seq<char>|
                n != name@ ==> (has_role(final(self).role_seq(), n) == has_role(old(self).role_seq(), n)
                    && (has_role(old(self).role_seq(), n) ==> role_named(final(self).role_seq(), n)
                    == role_named(old(self).role_seq(), n))),
            final(self).log() == old(self).log(),
            final(self).oidc() == old(self).oidc(),
    {
        proof {
            reveal_strlit("");
        }
        self.register_role_with_description(name, permissions, "");
    }

    /// A controller holding the built-in roles developer, ci, release-manager, auditor and
    /// admin, an empty audit log and no identity provider.
    pub fn new() -> (r: Self)
        ensures
            r.wf(),
            forall|n: Seq<char>| #[trigger] has_role(r.role_seq(), n) <==> builtin_role_permissions(n) is Some,
            forall|n: Seq<char>, p: Permission|
                builtin_role_permissions(n) is Some ==> (#[trigger] role_named(r.role_seq(), n).permissions@.contains(p)
                    <==> builtin_role_permissions(n)->0.contains(p)),
            forall|n: Seq<char>|
                builtin_role_permissions(n) is Some ==> #[trigger] role_named(r.role_seq(), n).description@
                    == builtin_role_description(n),
            r.log().len() == 0,
            r.oidc() is None,
    {
        let mut c = AccessController { roles: Vec::new(), audit_log: Vec::new(), oidc_config: None, pkce_key: Vec::new() };
        let dev = vec![Permission::ReadTarget, Permission::BuildTarget, Permission::ViewAnalytics];
        let ghost dev_v = dev@;
        c.register_role_with_description("developer", dev, "Standard developer with build and read access");
        let ghost s1 = c.role_seq();
        let ci = vec![Permission::ReadTarget, Permission::BuildTarget, Permission::ReadSecrets];
        let ghost ci_v = ci@;
        c.register_role_with_description("ci", ci, "CI/CD system with build and secret read access");
        let ghost s2 = c.role_seq();
        let rm = vec![
            Permission::ReadTarget,
            Permission::BuildTarget,
            Permission::DeployTarget,
            Permission::SignArtifact,
            Permission::ReadSecrets,
            Permission::ViewAnalytics,
        ];
        let ghost rm_v = rm@;
        c.register_role_with_description(
            "release-manager",
            rm,
            "Release manager with deploy and signing capabilities",
        );
        let ghost s3 = c.role_seq();
        let au = vec![Permission::ReadTarget, Permission::ViewAnalytics];
        let ghost au_v = au@;
        c.register_role_with_description("auditor", au, "Security auditor with read and analytics access");
        let ghost s4 = c.role_seq();
        let ad = vec![
            Permission::ReadTarget,
            Permission::BuildTarget,
            Permission::DeployTarget,
            Permission::AdminTarget,
            Permission::SignArtifact,
            Permission::ReadSecrets,
            Permission::WriteSecrets,
            Permission::ManageWorkers,
            Permission::ViewAnalytics,
            Permission::ManagePlugins,
        ];
        let ghost ad_v = ad@;
        c.register_role_with_description("admin", ad, "Administrator with full access to all resources");
        proof {
            reveal_strlit("developer");
            reveal_strlit("ci");
            reveal_strlit("release-manager");
            reveal_strlit("auditor");
            reveal_strlit("admin");
            reveal_strlit("Standard developer with build and read access");
            reveal_strlit("CI/CD system with build and secret read access");
            reveal_strlit("Release manager with deploy and signing capabilities");
            reveal_strlit("Security auditor with read and analytics access");
            reveal_strlit("Administrator with full access to all resources");
            assert("developer"@.len() == 9 && "ci"@.len() == 2 && "release-manager"@.len() == 15 && "auditor"@.len() == 7 && "admin"@.len() == 5);
            let rs = c.role_seq();
            assert(has_role(s1, "developer"@));
            assert(has_role(s2, "developer"@) && has_role(s2, "ci"@));
            assert(has_role(s3, "developer"@) && has_role(s3, "ci"@) && has_role(s3, "release-manager"@));
            assert(has_role(s4, "developer"@) && has_role(s4, "ci"@) && has_role(s4, "release-manager"@) && has_role(s4, "auditor"@));
            assert(has_role(s1, "developer"@) ==> role_named(s2, "developer"@) == role_named(s1, "developer"@));
            assert(role_named(s2, "developer"@) == role_named(s1, "developer"@));
            assert(role_named(s3, "developer"@) == role_named(s2, "developer"@));
            assert(role_named(s4, "developer"@) == role_named(s3, "developer"@));
            assert(role_named(rs, "developer"@) == role_named(s4, "developer"@));
            assert(role_named(s3, "ci"@) == role_named(s2, "ci"@));
            assert(role_named(s4, "ci"@) == role_named(s3, "ci"@));
            assert(role_named(rs, "ci"@) == role_named(s4, "ci"@));
            assert(role_named(s4, "release-manager"@) == role_named(s3, "release-manager"@));
            assert(role_named(rs, "release-manager"@) == role_named(s4, "release-manager"@));
            assert(role_named(rs, "auditor"@) == role_named(s4, "auditor"@));
            assert forall|n: Seq<char>| #[trigger] has_role(rs, n) <==> builtin_role_permissions(n) is Some by {
                if n != "developer"@ && n != "ci"@ && n != "release-manager"@ && n != "auditor"@ && n != "admin"@ {
                    assert(!has_role(Seq::<Role>::empty(), n));
                }
            }
            assert(role_named(rs, "developer"@).permissions@ == dev_v);
            assert(role_named(rs, "ci"@).permissions@ == ci_v);
            assert(role_named(rs, "release-manager"@).permissions@ == rm_v);
            assert(role_named(rs, "auditor"@).permissions@ == au_v);
            assert(role_named(rs, "admin"@).permissions@ == ad_v);
            assert forall|n: Seq<char>, p: Permission|
                builtin_role_permissions(n) is Some implies (#[trigger] role_named(rs, n).permissions@.contains(p)
                    <==> builtin_role_permissions(n)->0.contains(p)) by {
                let v = role_named(rs, n).permissions@;
                if v.contains(p) {
                    let k = choose|k: int| 0 <= k < v.len() && v[k] == p;
                }
                if builtin_role_permissions(n)->0.contains(p) {
                    if n == "developer"@ {
                        assert(dev_v[0] == Permission::ReadTarget);
                        if p == Permission::ReadTarget { assert(v[0] == p); }
                        else if p == Permission::BuildTarget { assert(v[1] == p); }
                        else { assert(v[2] == p); }
                    } else if n == "ci"@ {
                        if p == Permission::ReadTarget { assert(v[0] == p); }
                        else if p == Permission::BuildTarget { assert(v[1] == p); }
                        else { assert(v[2] == p); }
                    } else if n == "release-manager"@ {
                        if p == Permission::ReadTarget { assert(v[0] == p); }
                        else if p == Permission::BuildTarget { assert(v[1] == p); }
                        else if p == Permission::DeployTarget { assert(v[2] == p); }
                        else if p == Permission::SignArtifact { assert(v[3] == p); }
                        else if p == Permission::ReadSecrets { assert(v[4] == p); }
                        else { assert(v[5] == p); }
                    } else if n == "auditor"@ {
                        if p == Permission::ReadTarget { assert(v[0] == p); }
                        else { assert(v[1] == p); }
                    } else {
                        match p {
                            Permission::ReadTarget => { assert(v[0] == p); },
                            Permission::BuildTarget => { assert(v[1] == p); },
                            Permission::DeployTarget => { assert(v[2] == p); },
                            Permission::AdminTarget => { assert(v[3] == p); },
                            Permission::SignArtifact => { assert(v[4] == p); },
                            Permission::ReadSecrets => { assert(v[5] == p); },
                            Permission::WriteSecrets => { assert(v[6] == p); },
                            Permission::ManageWorkers => { assert(v[7] == p); },
                            Permission::ViewAnalytics => { assert(v[8] == p); },
                            Permission::ManagePlugins => { assert(v[9] == p); },
                        }
                    }
                }
            }
        }
        c
    }

    pub fn with_oidc_config(self, config: OidcConfig) -> (r: Self)
        ensures
            r.wf() == self.wf(),
            r.role_seq() == self.role_seq(),
            r.log() == self.log(),
            r.oidc() == Some(config),
            r.pkce_key().len() == 32,
    {
        let mut s = self;
        s.oidc_config = Some(config);
        s.pkce_key = random_key();
        s
    }

    /// Whether the role named `name` exists and grants `p`.
    fn grants(&self, name: &String, p: Permission) -> (r: bool)
        requires
            self.wf(),
        ensures
            r == role_grants(self.roles@, name@, p),
    {
        match self.find_role(name) {
            Some(i) => lists_permission(&self.roles[i].permissions, p),
            None => false,
        }
    }

    /// The access decision at time `now` (seconds since the Unix epoch): refused when the
    /// claims carry an expiry time before `now`, granted when one of their roles, or one of
    /// their groups taken as a role name, grants `required`.
    pub fn check_permission_at(&self, claims: &IdentityClaims, required: Permission, now: u64) -> (r: bool)
        requires
            self.wf(),
        ensures
            r == permission_granted(self.role_seq(), *claims, required, now),
            claims.expires_at > 0 && claims.expires_at < now ==> !r,
            r <==> (!(claims.expires_at > 0 && claims.expires_at < now) && ((exists|j: int|
                0 <= j < claims.roles@.len() && has_role(self.role_seq(), (#[trigger] claims.roles@[j])@)
                    && role_named(self.role_seq(), claims.roles@[j]@).permissions@.contains(required)) || (exists|
                j: int,
            |
                0 <= j < claims.groups@.len() && has_role(self.role_seq(), (#[trigger] claims.groups@[j])@)
                    && role_named(self.role_seq(), claims.groups@[j]@).permissions@.contains(required)))),
    {
        if claims.expires_at > 0 && claims.expires_at < now {
            return false;
        }
        let mut i: usize = 0;
        while i < claims.roles.len()
            invariant
                i <= claims.roles@.len(),
                forall|j: int| 0 <= j < i ==> !role_grants(self.roles@, (#[trigger] claims.roles@[j])@, required),
            decreases claims.roles@.len() - i,
        {
            if self.grants(&claims.roles[i], required) {
                return true;
            }
            i = i + 1;
        }
        let mut g: usize = 0;
        while g < claims.groups.len()
            invariant
                g <= claims.groups@.len(),
                forall|j: int| 0 <= j < claims.roles@.len() ==> !role_grants(self.roles@, (#[trigger] claims.roles@[j])@, required),
                forall|j: int| 0 <= j < g ==> !role_grants(self.roles@, (#[trigger] claims.groups@[j])@, required),
            decreases claims.groups@.len() - g,
        {
            if self.grants(&claims.groups[g], required) {
                return true;
            }
            g = g + 1;
        }
        false
    }

    /// The access decision now, reading the system clock. Whatever the clock reads, access
    /// is granted only through a role or group that grants `required`, and claims without an
    /// expiry time are decided by their roles and groups alone.
    pub fn check_permission(&self, claims: &IdentityClaims, required: Permission) -> (r: bool)
        requires
            self.wf(),
        ensures
            r ==> claims_grant(self.role_seq(), *claims, required),
            claims.expires_at == 0 ==> r == claims_grant(self.role_seq(), *claims, required),
            exists|now: u64| r == permission_granted(self.role_seq(), *claims, required, now),
    {
        let now = unix_now_secs();
        self.check_permission_at(claims, required, now)
    }

    /// Decides as `check_permission` and records the decision, stamped with the current
    /// time, in the audit log (see `check_permission_with_audit_at`).
    pub fn check_permission_with_audit(
        &mut self,
        claims: &IdentityClaims,
        required: Permission,
        target: &str,
        ip_address: Option<String>,
    ) -> (r: bool)
        requires
            old(self).wf(),
        ensures
            final(self).wf(),
            final(self).role_seq() == old(self).role_seq(),
            final(self).oidc() == old(self).oidc(),
            r ==> claims_grant(old(self).role_seq(), *claims, required),
            claims.expires_at == 0 ==> r == claims_grant(old(self).role_seq(), *claims, required),
            final(self).log().len() == old(self).log().len() + 1,
            final(self).log().take(old(self).log().len() as int) == old(self).log(),
            exists|now: u64|
                r == permission_granted(old(self).role_seq(), *claims, required, now) && final(self).log().last().timestamp
                    == now,
            ({
                let e = final(self).log().last();
                &&& e.subject@ == claims.subject@
                &&& e.email@ == claims.email@
                &&& e.action@ == permission_name(required)
                &&& e.target@ == target@
                &&& e.permission == required
                &&& e.granted == r
                &&& e.ip_address == ip_address
                &&& e.user_agent is None
                &&& e.trace_id is None
            }),
    {
        let now = unix_now_secs();
        self.check_permission_with_audit_at(claims, required, target, ip_address, now)
    }

    /// Decides as `check_permission_at` at time `now` and records the decision, stamped
    /// `now`, in the audit log.
    pub fn check_permission_with_audit_at(
        &mut self,
        claims: &IdentityClaims,
        required: Permission,
        target: &str,
        ip_address: Option<String>,
        now: u64,
    ) -> (r: bool)
        requires
            old(self).wf(),
        ensures
            final(self).wf(),
            final(self).role_seq() == old(self).role_seq(),
            final(self).oidc() == old(self).oidc(),
            r == permission_granted(old(self).role_seq(), *claims, required, now),
            final(self).log().len() == old(self).log().len() + 1,
            final(self).log().take(old(self).log().len() as int) == old(self).log(),
            ({
                let e = final(self).log().last();
                &&& e.timestamp == now
                &&& e.subject@ == claims.subject@
                &&& e.email@ == claims.email@
                &&& e.action@ == permission_name(required)
                &&& e.target@ == target@
                &&& e.permission == required
                &&& e.granted == r
                &&& e.ip_address == ip_address
                &&& e.user_agent is None
                &&& e.trace_id is None
            }),
    {
        let granted = self.check_permission_at(claims, required, now);
        let entry = AuditLogEntry {
            timestamp: now,
            subject: claims.subject.clone(),
            email: claims.email.clone(),
            action: required.name(),
            target: target.to_string(),
            permission: required,
            granted,
            ip_address,
            user_agent: None,
            trace_id: None,
        };
        self.audit_log.push(entry);
        proof {
            assert(self.audit_log@.take(old(self).audit_log@.len() as int) =~= old(self).audit_log@);
        }
        granted
    }

    /// The audit log, oldest decision first.
    pub fn get_audit_log(&self) -> (r: &[AuditLogEntry])
        ensures
            r@ == self.log(),
    {
        self.audit_log.as_slice()
    }

    /// The logged decisions about `subject`, oldest first.
    pub fn get_audit_log_for_user(&self, subject: &str) -> (r: Vec<&AuditLogEntry>)
        ensures
            r@.map_values(|e: &AuditLogEntry| *e) == self.log().filter(|e: AuditLogEntry| e.subject@ == subject@),
    {
        let mut r: Vec<&AuditLogEntry> = Vec::new();
        let key = subject.to_string();
        let mut i: usize = 0;
        while i < self.audit_log.len()
            invariant
                i <= self.audit_log@.len(),
                key@ == subject@,
                r@.map_values(|e: &AuditLogEntry| *e) == self.audit_log@.take(i as int).filter(|e: AuditLogEntry| e.subject@ == subject@),
            decreases self.audit_log@.len() - i,
        {
            proof {
                reveal_with_fuel(Seq::filter, 1);
                assert(self.audit_log@.take(i + 1).drop_last() =~= self.audit_log@.take(i as int));
            }
            if self.audit_log[i].subject == key {
                let ghost prev = r@;
                r.push(&self.audit_log[i]);
                proof {
                    assert(r@.map_values(|e: &AuditLogEntry| *e) =~= prev.map_values(|e: &AuditLogEntry| *e).push(self.audit_log@[i as int]));
                }
            }
            i = i + 1;
        }
        proof {
            assert(self.audit_log@.take(i as int) =~= self.audit_log@);
        }
        r
    }

    /// The logged refusals, oldest first.
    pub fn get_failed_access_attempts(&self) -> (r: Vec<&AuditLogEntry>)
        ensures
            r@.map_values(|e: &AuditLogEntry| *e) == self.log().filter(|e: AuditLogEntry| !e.granted),
    {
        let mut r: Vec<&AuditLogEntry> = Vec::new();
        let mut i: usize = 0;
        while i < self.audit_log.len()
            invariant
                i <= self.audit_log@.len(),
                r@.map_values(|e: &AuditLogEntry| *e) == self.audit_log@.take(i as int).filter(|e: AuditLogEntry| !e.granted),
            decreases self.audit_log@.len() - i,
        {
            proof {
                reveal_with_fuel(Seq::filter, 1);
                assert(self.audit_log@.take(i + 1).drop_last() =~= self.audit_log@.take(i as int));
            }
            if !self.audit_log[i].granted {
                let ghost prev = r@;
                r.push(&self.audit_log[i]);
                proof {
                    assert(r@.map_values(|e: &AuditLogEntry| *e) =~= prev.map_values(|e: &AuditLogEntry| *e).push(self.audit_log@[i as int]));
                }
            }
            i = i + 1;
        }
        proof {
            assert(self.audit_log@.take(i as int) =~= self.audit_log@);
        }
        r
    }

    /// All registered roles.
    pub fn list_roles(&self) -> (r: Vec<&Role>)
        ensures
            r@.map_values(|x: &Role| *x) == self.role_seq(),
            self.wf() ==> role_names_unique(r@.map_values(|x: &Role| *x)),
    {
        let mut r: Vec<&Role> = Vec::new();
        let mut i: usize = 0;
        while i < self.roles.len()
            invariant
                i <= self.roles@.len(),
                r@.map_values(|x: &Role| *x) == self.roles@.take(i as int),
            decreases self.roles@.len() - i,
        {
            let ghost prev = r@;
            r.push(&self.roles[i]);
            proof {
                assert(r@.map_values(|x: &Role| *x) =~= self.roles@.take(i + 1));
            }
            i = i + 1;
        }
        proof {
            assert(self.roles@.take(i as int) =~= self.roles@);
        }
        r
    }

    /// The role named `name`, if registered.
    pub fn get_role(&self, name: &str) -> (r: Option<&Role>)
        requires
            self.wf(),
        ensures
            match r {
                Some(x) => has_role(self.role_seq(), name@) && *x == role_named(self.role_seq(), name@),
                None => !has_role(self.role_seq(), name@),
            },
    {
        let key = name.to_string();
        match self.find_role(&key) {
            Some(i) => Some(&self.roles[i]),
            None => None,
        }
    }

    /// Stand-in token validation: an empty token is refused with "empty token"; a token
    /// that starts like a JWT ("eyJ") yields fixed developer claims issued now (clock) for
    /// one hour (see `validate_oidc_token_at`), with the configured issuer (or "https://auth.fish.build"); any other
    /// token is refused with "invalid token format".
    pub fn validate_oidc_token(&self, token: &str) -> (r: Result<IdentityClaims, String>)
        ensures
            token@.len() == 0 ==> (r matches Err(e) && e@ == "empty token"@),
            token@.len() > 0 && !has_prefix(token@, "eyJ"@) ==> (r matches Err(e) && e@ == "invalid token format"@),
            token@.len() > 0 && has_prefix(token@, "eyJ"@) ==> (r matches Ok(c) && {
                &&& c.subject@ == "user_123"@
                &&& c.email@ == "user@example.com"@
                &&& c.roles@.len() == 1 && c.roles@[0]@ == "developer"@
                &&& c.issuer@ == match self.oidc() {
                    Some(cfg) => cfg.issuer_url@,
                    None => "https://auth.fish.build"@,
                }
                &&& c.audience@ == "fish-cli"@
                &&& c.expires_at == if c.issued_at + 3600 <= u64::MAX { (c.issued_at + 3600) as u64 } else { u64::MAX }
                &&& c.groups@.len() == 1 && c.groups@[0]@ == "developers"@
                &&& (c.name matches Some(n) && n@ == "Test User"@)
            }),
    {
        let now = unix_now_secs();
        self.validate_oidc_token_at(token, now)
    }

    /// Stand-in token validation: an empty token is refused with "empty token"; a token
    /// that starts like a JWT ("eyJ") yields fixed developer claims issued at `now` for
    /// one hour, with the configured issuer (or "https://auth.fish.build"); any other
    /// token is refused with "invalid token format".
    pub fn validate_oidc_token_at(&self, token: &str, now: u64) -> (r: Result<IdentityClaims, String>)
        ensures
            token@.len() == 0 ==> (r matches Err(e) && e@ == "empty token"@),
            token@.len() > 0 && !has_prefix(token@, "eyJ"@) ==> (r matches Err(e) && e@ == "invalid token format"@),
            token@.len() > 0 && has_prefix(token@, "eyJ"@) ==> (r matches Ok(c) && {
                &&& c.subject@ == "user_123"@
                &&& c.email@ == "user@example.com"@
                &&& c.roles@.len() == 1 && c.roles@[0]@ == "developer"@
                &&& c.issuer@ == match self.oidc() {
                    Some(cfg) => cfg.issuer_url@,
                    None => "https://auth.fish.build"@,
                }
                &&& c.audience@ == "fish-cli"@
                &&& c.issued_at == now
                &&& c.expires_at == if c.issued_at + 3600 <= u64::MAX { (c.issued_at + 3600) as u64 } else { u64::MAX }
                &&& c.groups@.len() == 1 && c.groups@[0]@ == "developers"@
                &&& (c.name matches Some(n) && n@ == "Test User"@)
            }),
    {
        if token.unicode_len() == 0 {
            return Err("empty token".to_string());
        }
        if starts_with(token, "eyJ") {
            let issuer = match &self.oidc_config {
                Some(c) => c.issuer_url.clone(),
                None => "https://auth.fish.build".to_string(),
            };
            let mut roles: Vec<String> = Vec::new();
            roles.push("developer".to_string());
            let mut groups: Vec<String> = Vec::new();
            groups.push("developers".to_string());
            Ok(IdentityClaims {
                subject: "user_123".to_string(),
                email: "user@example.com".to_string(),
                roles,
                issuer,
                audience: "fish-cli".to_string(),
                expires_at: now.saturating_add(3600),
                issued_at: now,
                groups,
                name: Some("Test User".to_string()),
            })
        } else {
            Err("invalid token format".to_string())
        }
    }

    /// The authorization URL of the configured provider:
    /// `{issuer}/authorize?client_id={id}&redirect_uri={redirect}&response_type=code&scope={scopes joined by spaces}&state={state}`,
    /// followed, when the provider enables PKCE, by
    /// `&code_challenge={challenge}&code_challenge_method=S256` for the verifier that
    /// `pkce_code_verifier(state)` gives; "OIDC not configured" when there is no provider.
    pub fn get_authorization_url(&self, state: &str) -> (r: Result<String, String>)
        ensures
            self.oidc() is None ==> (r matches Err(e) && e@ == "OIDC not configured"@),
            self.oidc() matches Some(cfg) ==> ({
                let base = cfg.issuer_url@ + "/authorize?client_id="@ + cfg.client_id@ + "&redirect_uri="@
                    + cfg.redirect_url@ + "&response_type=code&scope="@ + joined(
                    cfg.scopes@.map_values(|x: String| x@),
                    " "@,
                ) + "&state="@ + state@;
                r matches Ok(u) && u@ == if cfg.enable_pkce {
                    base + "&code_challenge="@ + code_challenge(code_verifier(self.pkce_key(), state@))
                        + "&code_challenge_method=S256"@
                } else {
                    base
                }
            }),
    {
        match &self.oidc_config {
            None => Err("OIDC not configured".to_string()),
            Some(cfg) => {
                let scope = join(cfg.scopes.as_slice(), " ");
                let mut u = cfg.issuer_url.clone();
                u.append("/authorize?client_id=");
                u.append(cfg.client_id.as_str());
                u.append("&redirect_uri=");
                u.append(cfg.redirect_url.as_str());
                u.append("&response_type=code&scope=");
                u.append(scope.as_str());
                u.append("&state=");
                u.append(state);
                if cfg.enable_pkce {
                    let verifier = make_code_verifier(&self.pkce_key, state);
                    let challenge = make_code_challenge(verifier.as_str());
                    u.append("&code_challenge=");
                    u.append(challenge.as_str());
                    u.append("&code_challenge_method=S256");
                }
                Ok(u)
            },
        }
    }

    /// The PKCE code verifier that the authorization URL for `state` commits to; the
    /// client sends it with the authorization code when it asks for tokens.
    pub fn pkce_code_verifier(&self, state: &str) -> (r: String)
        ensures
            r@ == code_verifier(self.pkce_key(), state@),
    {
        make_code_verifier(&self.pkce_key, state)
    }
}

} // verus!

verus! {

impl Default for AccessController {
    fn default() -> (r: Self)
        ensures
            r.wf(),
            forall|n: Seq<char>| #[trigger] has_role(r.role_seq(), n) <==> builtin_role_permissions(n) is Some,
            forall|n: Seq<char>, p: Permission|
                builtin_role_permissions(n) is Some ==> (#[trigger] role_named(r.role_seq(), n).permissions@.contains(p)
                    <==> builtin_role_permissions(n)->0.contains(p)),
            r.log().len() == 0,
            r.oidc() is None,
    {
        AccessController::new()
    }
}

} // verus!

verus! {

/// Claims whose expiry time has passed are refused, whatever their roles.
pub proof fn law_expired_claims_refused(roles: Seq<Role>, claims: IdentityClaims, p: Permission, now: u64)
    requires
        is_expired(claims, now),
    ensures
        !permission_granted(roles, claims, p, now),
{
}

/// An unexpired claim that names, as a role or as a group, a role granting `p` is granted `p`.
pub proof fn law_role_or_group_grants(
    roles: Seq<Role>,
    claims: IdentityClaims,
    p: Permission,
    now: u64,
    j: int,
    via_group: bool,
)
    requires
        !is_expired(claims, now),
        via_group ==> 0 <= j < claims.groups@.len() && role_grants(roles, claims.groups@[j]@, p),
        !via_group ==> 0 <= j < claims.roles@.len() && role_grants(roles, claims.roles@[j]@, p),
    ensures
        permission_granted(roles, claims, p, now),
{
}

/// The built-in admin role grants every permission; the built-in developer role reads,
/// builds and views analytics but does not administer, deploy or touch secrets.
pub proof fn law_builtin_roles()
    ensures
        forall|p: Permission| #[trigger] builtin_role_permissions("admin"@)->0.contains(p),
        builtin_role_permissions("developer"@)->0.contains(Permission::BuildTarget),
        !builtin_role_permissions("developer"@)->0.contains(Permission::AdminTarget),
        !builtin_role_permissions("developer"@)->0.contains(Permission::DeployTarget),
        !builtin_role_permissions("developer"@)->0.contains(Permission::ReadSecrets),
{
    reveal_strlit("admin");
    reveal_strlit("developer");
    reveal_strlit("ci");
    reveal_strlit("release-manager");
    reveal_strlit("auditor");
    assert("developer"@.len() == 9 && "admin"@.len() == 5 && "ci"@.len() == 2 && "release-manager"@.len() == 15 && "auditor"@.len() == 7);
}

} // verus!
