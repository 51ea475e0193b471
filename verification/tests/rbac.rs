use fish::pkce::{base64url_encode, make_code_challenge};
use fish::rbac::{AccessController, IdentityClaims, OidcConfig, Permission};

fn claims(subject: &str, email: &str, roles: Vec<&str>, groups: Vec<&str>, name: Option<&str>) -> IdentityClaims {
    IdentityClaims {
        subject: subject.to_string(),
        email: email.to_string(),
        roles: roles.into_iter().map(|r| r.to_string()).collect(),
        issuer: "https://auth.company.com".to_string(),
        audience: "fish-cli".to_string(),
        expires_at: 9999999999,
        issued_at: 0,
        groups: groups.into_iter().map(|g| g.to_string()).collect(),
        name: name.map(|n| n.to_string()),
    }
}

#[test]
fn test_rbac_access_control() {
    let ac = AccessController::new();
    let claims = claims("user_123", "dev@company.com", vec!["developer"], vec![], None);

    assert!(ac.check_permission(&claims, Permission::BuildTarget));
    assert!(!ac.check_permission(&claims, Permission::AdminTarget));
    assert!(ac.check_permission(&claims, Permission::ViewAnalytics));
}

#[test]
fn test_rbac_with_audit_logging() {
    let mut ac = AccessController::new();
    let claims = claims("user_456", "admin@company.com", vec!["admin"], vec![], Some("Admin User"));

    assert!(ac.check_permission_with_audit(
        &claims,
        Permission::AdminTarget,
        "sensitive-build-target",
        Some("192.168.1.100".to_string())
    ));

    assert_eq!(ac.get_audit_log().len(), 1);
    assert_eq!(ac.get_audit_log()[0].subject, "user_456");
    assert!(ac.get_audit_log()[0].granted);

    let dev_claims = claims_dev();
    assert!(!ac.check_permission_with_audit(&dev_claims, Permission::AdminTarget, "sensitive-target", None));

    assert_eq!(ac.get_failed_access_attempts().len(), 1);
}

fn claims_dev() -> IdentityClaims {
    claims("user_789", "dev@company.com", vec!["developer"], vec![], None)
}

#[test]
fn test_oidc_flow() {
    let oidc_config = OidcConfig {
        issuer_url: "https://auth.example.com".to_string(),
        client_id: "fish-test".to_string(),
        client_secret: None,
        redirect_url: "http://localhost:8080/callback".to_string(),
        scopes: vec!["openid".to_string(), "email".to_string()],
        enable_pkce: true,
    };

    let ac = AccessController::new().with_oidc_config(oidc_config);

    let auth_url = ac.get_authorization_url("random_state_123").unwrap();
    assert!(auth_url.contains("auth.example.com"));
    assert!(auth_url.contains("random_state_123"));

    let fake_jwt = "eyJhbGciOiJSUzI1NiIsInR5cCI6IkpXVCJ9.eyJzdWIiOiIxMjM0NTY3ODkwIn0.signature";
    let claims = ac.validate_oidc_token(fake_jwt).unwrap();
    assert_eq!(claims.subject, "user_123");
}

#[test]
fn test_group_based_access() {
    let ac = AccessController::new();
    let claims = claims("user_group", "groupuser@company.com", vec![], vec!["admin"], None);
    assert!(ac.check_permission(&claims, Permission::AdminTarget));
}

#[test]
fn expired_claims_are_refused() {
    let ac = AccessController::new();
    let mut c = claims("user_1", "a@company.com", vec!["admin"], vec![], None);
    c.expires_at = 10;
    assert!(!ac.check_permission_at(&c, Permission::BuildTarget, 11));
    assert!(ac.check_permission_at(&c, Permission::BuildTarget, 10));
}

#[test]
fn builtin_roles_are_listed() {
    let ac = AccessController::new();
    assert_eq!(ac.list_roles().len(), 5);
    assert!(ac.get_role("admin").is_some());
    assert!(ac.get_role("nobody").is_none());
}

#[test]
fn audit_log_filters_by_user() {
    let mut ac = AccessController::new();
    let a = claims("alice", "a@company.com", vec!["developer"], vec![], None);
    let b = claims("bob", "b@company.com", vec!["viewer"], vec![], None);
    ac.check_permission_with_audit(&a, Permission::BuildTarget, "t1", None);
    ac.check_permission_with_audit(&b, Permission::BuildTarget, "t2", None);
    ac.check_permission_with_audit(&a, Permission::AdminTarget, "t3", None);
    assert_eq!(ac.get_audit_log_for_user("alice").len(), 2);
    assert_eq!(ac.get_audit_log_for_user("bob").len(), 1);
    assert_eq!(ac.get_failed_access_attempts().len(), 2);
}

#[test]
fn pkce_challenge_is_s256_of_the_verifier() {
    let ac = AccessController::new().with_oidc_config(oidc(true));
    let url = ac.get_authorization_url("random_state_123").unwrap();
    let base = "https://auth.example.com/authorize?client_id=fish-test&redirect_uri=http://localhost:8080/callback&response_type=code&scope=openid email&state=random_state_123";
    let verifier = ac.pkce_code_verifier("random_state_123");
    assert_eq!(verifier.len(), 64);
    let challenge = base64url_encode(&sha256_digest(verifier.as_bytes()));
    assert_eq!(url, format!("{base}&code_challenge={challenge}&code_challenge_method=S256"));
    assert_eq!(challenge.len(), 43);
    let plain = AccessController::new().with_oidc_config(oidc(false));
    assert_eq!(plain.get_authorization_url("random_state_123").unwrap(), base);
    assert_eq!(AccessController::new().get_authorization_url("s").unwrap_err(), "OIDC not configured");
}

#[test]
fn base64url_follows_rfc_vectors() {
    assert_eq!(base64url_encode(b""), "");
    assert_eq!(base64url_encode(b"f"), "Zg");
    assert_eq!(base64url_encode(b"fo"), "Zm8");
    assert_eq!(base64url_encode(b"foo"), "Zm9v");
    assert_eq!(base64url_encode(b"foobar"), "Zm9vYmFy");
    assert_eq!(base64url_encode(&[0xfb, 0xff]), "-_8");
    let digest = sha256_digest(b"dBjftJeZ4CVP-mB92K27uhbUJU1p1r_wW1gFWFOEjXk");
    assert_eq!(base64url_encode(&digest), "E9Melhoa2OwvFrEMTJguCHaoeK1t8URWbuGJSstw-cM");
    assert_eq!(make_code_challenge("dBjftJeZ4CVP-mB92K27uhbUJU1p1r_wW1gFWFOEjXk"), "E9Melhoa2OwvFrEMTJguCHaoeK1t8URWbuGJSstw-cM");
}

#[test]
fn token_and_audit_take_the_given_time() {
    let ac = AccessController::new();
    let c = ac.validate_oidc_token_at("eyJx", 1000).unwrap();
    assert_eq!((c.issued_at, c.expires_at), (1000, 4600));
    assert!(matches!(ac.validate_oidc_token_at("", 1), Err(e) if e == "empty token"));
    assert!(matches!(ac.validate_oidc_token_at("abc.def", 1), Err(e) if e == "invalid token format"));
    let mut ac = AccessController::new();
    let granted = ac.check_permission_with_audit_at(&c, Permission::ReadTarget, "//t", None, 2000);
    assert!(granted);
    assert_eq!(ac.get_audit_log()[0].timestamp, 2000);
    let denied = ac.check_permission_with_audit_at(&c, Permission::ReadTarget, "//t", None, 5000);
    assert!(!denied);
}

fn sha256_digest(data: &[u8]) -> Vec<u8> {
    <sha2::Sha256 as sha2::Digest>::digest(data).to_vec()
}

fn oidc(pkce: bool) -> OidcConfig {
    OidcConfig {
        issuer_url: "https://auth.example.com".to_string(),
        client_id: "fish-test".to_string(),
        client_secret: None,
        redirect_url: "http://localhost:8080/callback".to_string(),
        scopes: vec!["openid".to_string(), "email".to_string()],
        enable_pkce: pkce,
    }
}
