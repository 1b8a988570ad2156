use tect::key::{holds, ignores_private, module_signing, next, provider, shown, undeclared, unwritten, usable, wants_cn, which, Key, Recorded};
use tect::model::module::Key as Declared;
use tect::prompt::Prompt;

fn declared(generator: &str, format: &str) -> Declared {
    Declared {
        kind: "k".into(),
        generator: generator.into(),
        profile: None,
        bits: 4096,
        public: "/k".into(),
        format: format.into(),
        private: "k".into(),
        span: Default::default(),
    }
}

#[test]
fn what_a_recorded_public_half_has_to_look_like_is_per_generator() {
    let cosign = declared("cosign", "pem");
    assert!(holds(&cosign, b"-----BEGIN PUBLIC KEY-----\n").is_ok());
    assert!(holds(&cosign, b"-----BEGIN CERTIFICATE-----\n").is_err());

    let pem = declared("openssl", "pem");
    assert!(holds(&pem, b"-----BEGIN CERTIFICATE-----\n").is_ok());
    assert!(holds(&pem, b"\x30\x82").is_err());

    let der = declared("openssl", "der");
    assert!(holds(&der, b"\x30\x82\x03\x01").is_ok());
    assert!(holds(&der, b"-----BEGIN CERTIFICATE-----\n").is_err());

    let ssh = declared("ssh-keygen", "pem");
    assert!(holds(&ssh, b"ssh-ed25519 AAAA c\n").is_ok());
    assert!(holds(&ssh, b"sk-ssh-ed25519@openssh.com AAAA c\n").is_ok());
    assert!(holds(&ssh, b"not a key\n").is_err());
}

#[test]
fn a_refused_public_half_names_what_it_should_have_been() {
    let ssh = declared("ssh-keygen", "pem");
    let err = holds(&ssh, b"-----BEGIN CERTIFICATE-----\n").unwrap_err();
    assert_eq!(
        err,
        "`key \"k\"` is written by `ssh-keygen`, so the public half it records is an OpenSSH public key line, and this file is not one"
    );
    let pem = declared("openssl", "pem");
    let err = holds(&pem, b"nothing").unwrap_err();
    assert!(err.contains("a PEM certificate"), "{err}");
}

#[test]
fn private_key_ignore_spelling_is_flexible() {
    for line in ["keys/private/", "/keys/private/", "keys/private"] {
        assert!(ignores_private(line));
    }
    assert!(ignores_private("target\n  /keys/private/  \n"));
    assert!(!ignores_private("keys/\nprivate\n"));
}

#[test]
fn a_common_name_is_short_and_plain() {
    assert_eq!(usable("Test Key"), Ok("Test Key"));
    assert!(usable("").is_err());
    assert!(usable(" padded").is_err());
    assert!(usable("quote\"d").is_err());
    assert!(usable(&"x".repeat(64)).is_ok());
    assert!(usable(&"x".repeat(65)).is_err());
    assert!(usable(&"é".repeat(33)).is_err());
}

#[test]
fn the_signing_config_carries_the_common_name() {
    let config = module_signing("Test Key");
    assert!(config.contains("\nCN = Test Key\n"), "{config}");
    assert!(config.contains("extendedKeyUsage = codeSigning"));
}

#[test]
fn a_kind_nothing_declares_is_refused_naming_what_is_declared() {
    assert_eq!(
        undeclared("cosign", &vec!["secureboot".to_string()]),
        "no module in this repository declares a cosign key.\n\n\
         The keys declared here are secureboot. Import a module carrying one and run this again."
    );
    assert!(undeclared("", &Vec::new()).starts_with("no module in this repository declares a signing key."));
}

#[test]
fn the_declaring_module_is_named_without_the_fetched_directory() {
    let declaring = vec![
        ("local/keys".to_string(), declared("cosign", "pem")),
        (".remote/one/keyholder".to_string(), declared("cosign", "pem")),
    ];
    assert_eq!(
        provider(&declaring, "k", Some("one/keyholder".to_string()), &mut Prompt::silent()),
        Ok(1)
    );
    assert_eq!(
        provider(&declaring, "k", Some("other".to_string()), &mut Prompt::silent()),
        Err("`modules/other` does not declare `key \"k\"`".to_string())
    );
    assert_eq!(
        provider(&declaring, "k", None, &mut Prompt::silent()),
        Err("the k key is declared by local/keys, one/keyholder; name one with `--module`".to_string())
    );
    assert_eq!(
        provider(&declaring[..1], "k", None, &mut Prompt::silent()),
        Ok(0)
    );
    let mut scripted = Prompt::scripted(vec!["2".to_string()]);
    assert_eq!(provider(&declaring, "k", None, &mut scripted), Ok(1));
}

#[test]
fn what_follows_a_key_names_where_its_halves_went() {
    assert_eq!(shown("/repo", "/repo/keys/public/k"), "keys/public/k");
    assert_eq!(shown("/repo", "/elsewhere/k"), "/elsewhere/k");
    let said = next("cosign", "keys/public/cosign.pub", "keys/private/cosign.key");
    assert!(said.contains("gh secret set SIGNING_SECRET < keys/private/cosign.key"), "{said}");
    let said = next("openssl", "keys/public/sb.der", "keys/private/MOK.priv");
    assert!(said.contains("sudo mokutil --import keys/public/sb.der"), "{said}");
}

fn signing(profile: Option<&str>) -> Declared {
    let mut key = declared("openssl", "der");
    key.kind = "secureboot".into();
    key.profile = profile.map(String::from);
    key.public = "/usr/share/secureboot/sb_cert.der".into();
    key.private = "MOK.priv".into();
    key
}

#[test]
fn a_key_already_on_disk_is_never_overwritten() {
    let refused = Key::collect("/r", signing(Some("module-signing")), (Some(12), None), None, None, &mut Prompt::silent())
        .err()
        .expect("a refusal");
    assert_eq!(
        refused,
        "/r/keys/public/usr/share/secureboot/sb_cert.der holds a key already, and a key is never overwritten; move it aside first"
    );
    let refused = Key::collect("/r", signing(Some("module-signing")), (Some(0), Some(3)), None, None, &mut Prompt::silent())
        .err()
        .expect("a refusal");
    assert!(refused.starts_with("/r/keys/private/MOK.priv holds a key already"), "{refused}");
    assert!(unwritten("/p", Some(0)).is_ok());
    assert!(unwritten("/p", None).is_ok());
}

#[test]
fn only_a_certificate_takes_a_common_name() {
    let ssh = declared("ssh-keygen", "pem");
    let refused = Key::collect("/r", ssh, (None, None), Some("Nobody".into()), None, &mut Prompt::silent())
        .err()
        .expect("a refusal");
    assert_eq!(refused, "`--cn` is a certificate's common name, and `ssh-keygen` writes no certificate");
    let cosign = Key::collect("/r", declared("cosign", "pem"), (None, None), None, None, &mut Prompt::silent())
        .ok()
        .expect("a key");
    assert!(cosign.cn.is_none());
    assert_eq!(cosign.public, "/r/keys/public/k");
    assert_eq!(cosign.private, "/r/keys/private/k");
    let refused = Key::collect("/r", signing(None), (None, None), None, None, &mut Prompt::silent())
        .err()
        .expect("a refusal");
    assert_eq!(
        refused,
        "`openssl` generates a key for a profile, and `key \"secureboot\"` names none; `generator \"openssl\" profile=\"module-signing\"` is the one it has"
    );
    assert_eq!(wants_cn(&signing(Some("module-signing")), false), Ok(true));
    assert_eq!(wants_cn(&declared("cosign", "pem"), false), Ok(false));
}

#[test]
fn a_module_signing_certificate_is_named_after_the_repository_unless_told() {
    let key = Key::collect("/r", signing(Some("module-signing")), (None, None), None, Some("deb2"), &mut Prompt::silent())
        .ok()
        .expect("a key");
    assert_eq!(key.cn.as_deref(), Some("deb2 Secure Boot"));
    let key = Key::collect("/r", signing(Some("module-signing")), (None, None), None, None, &mut Prompt::silent())
        .ok()
        .expect("a key");
    assert_eq!(key.cn.as_deref(), Some("tectonic Secure Boot"));
    let key = Key::collect("/r", signing(Some("module-signing")), (None, None), Some("Test Key".into()), None, &mut Prompt::silent())
        .ok()
        .expect("a key");
    assert_eq!(key.cn.as_deref(), Some("Test Key"));
    let refused = Key::collect("/r", signing(Some("module-signing")), (None, None), Some("a;b".into()), None, &mut Prompt::silent())
        .err()
        .expect("a refusal");
    assert!(refused.starts_with("`a;b` is not a usable common name"), "{refused}");
    let mut prompt = Prompt::scripted(vec!["Lab Key".to_string()]);
    let key = Key::collect("/r", signing(Some("module-signing")), (None, None), None, None, &mut prompt)
        .ok()
        .expect("a key");
    assert_eq!(key.cn.as_deref(), Some("Lab Key"));
    assert_eq!(prompt.at, 1);
}

#[test]
fn a_recorded_key_is_refused_before_its_path_is_asked() {
    let ssh = declared("ssh-keygen", "pem");
    let mut prompt = Prompt::scripted(vec!["/tmp/held.pub".to_string()]);
    let refused = Recorded::collect("/r", &ssh, Some(40), None, &mut prompt).err().expect("a refusal");
    assert!(refused.contains("a key is never overwritten"), "{refused}");
    assert_eq!(prompt.at, 0);
    let recorded = Recorded::collect("/r", &ssh, Some(0), None, &mut prompt).ok().expect("a path");
    assert_eq!(recorded.from, "/tmp/held.pub");
    assert_eq!(recorded.public, "/r/keys/public/k");
    let given = Recorded::collect("/r", &ssh, None, Some("/h.pub".into()), &mut Prompt::silent())
        .ok()
        .expect("a path");
    assert_eq!(given.from, "/h.pub");
    let refused = Recorded::collect("/r", &ssh, None, None, &mut Prompt::silent()).err().expect("a refusal");
    assert!(refused.starts_with("give `--from`"), "{refused}");
}

#[test]
fn a_key_command_without_a_kind_picks_one_of_those_declared() {
    let kinds = vec!["cosign".to_string(), "secureboot".to_string()];
    let mut prompt = Prompt::scripted(vec!["2".to_string()]);
    assert_eq!(which("create key", &kinds, &mut prompt), Ok("secureboot".to_string()));
    let refused = which("create key", &kinds, &mut Prompt::silent()).err().expect("a refusal");
    assert_eq!(refused, "`tect create key <kind>` names which key; this repository declares cosign, secureboot");
    let none = which("set key", &Vec::new(), &mut Prompt::silent()).err().expect("a refusal");
    assert!(none.starts_with("no module in this repository declares a signing key."), "{none}");
}

#[test]
fn a_placeholder_is_no_key_and_an_unusable_answer_is_refused() {
    let mut prompt = Prompt::scripted(vec!["a;b".to_string()]);
    let refused = Key::collect("/r", signing(Some("module-signing")), (Some(0), Some(0)), None, None, &mut prompt)
        .err()
        .expect("a refusal");
    assert!(refused.starts_with("`a;b` is not a usable common name"), "{refused}");
    let mut prompt = Prompt::scripted(Vec::new());
    let refused = Key::collect("/r", signing(Some("module-signing")), (Some(0), None), None, None, &mut prompt)
        .err()
        .expect("a refusal");
    assert!(!refused.contains("never overwritten"), "{refused}");
}
