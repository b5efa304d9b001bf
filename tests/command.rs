use aptprep::command::{resolve_command, Command, LoadedInputs, ResolvedCommand};
use aptprep::config::{config_fingerprint, Config, DistributionDef, OutputConfig, SourceRepository};
use aptprep::error::AptPrepError;
use aptprep::lockfile::Lockfile;

fn config(targets: Vec<&str>, path: Option<&str>) -> Config {
    Config {
        source_repositories: vec![SourceRepository {
            source_url: "https://snapshot.ubuntu.com/ubuntu/20250910T140000Z".to_string(),
            architectures: vec!["amd64".to_string()],
            distributions: vec![DistributionDef::Simple("noble".to_string())],
        }],
        packages: vec!["curl".to_string()],
        output: OutputConfig { path: path.map(|p| p.to_string()), target_architectures: targets.into_iter().map(|s| s.to_string()).collect() },
    }
}

fn download(zero: usize, config_path: Option<&str>, output_dir: Option<&str>) -> Command {
    Command::Download {
        config_path: config_path.map(|s| s.to_string()),
        lockfile_path: "aptprep.lock".to_string(),
        output_dir: output_dir.map(|s| s.to_string()),
        max_concurrency_per_host: 8,
        max_retries: zero,
        download_parallelism: 16,
        checking_parallelism: 128,
    }
}

#[test]
fn fingerprint_is_sha256_hex() {
    assert_eq!(config_fingerprint(&b"abc".to_vec()), "ba7816bf8f01cfea414140de5dae2223b00361a396177a9cb410ff61f20015ad");
}

#[test]
fn lock_merges_and_sorts_target_architectures() {
    let cmd = Command::Lock {
        config_path: "config.yaml".to_string(),
        lockfile_path: "aptprep.lock".to_string(),
        target_architectures: vec!["arm64".to_string(), "amd64".to_string(), "arm64".to_string()],
    };
    let inputs = LoadedInputs { config: Some(Ok((config(vec!["i386"], None), "h".to_string()))), lockfile: None };
    match resolve_command(cmd, inputs) {
        Ok(ResolvedCommand::Lock(p)) => {
            assert_eq!(p.target_architectures, vec!["amd64".to_string(), "arm64".to_string()]);
            assert_eq!(p.config_hash, "h");
        },
        other => panic!("unexpected {:?}", other),
    }
}

#[test]
fn lock_without_target_architectures_fails() {
    let cmd = Command::Lock { config_path: "c".to_string(), lockfile_path: "l".to_string(), target_architectures: vec![] };
    let inputs = LoadedInputs { config: Some(Ok((config(vec![], None), "h".to_string()))), lockfile: None };
    assert!(matches!(resolve_command(cmd, inputs), Err(AptPrepError::CliArgumentValidation { .. })));
}

#[test]
fn lock_without_repositories_fails() {
    let mut c = config(vec!["amd64"], None);
    c.source_repositories.clear();
    let cmd = Command::Lock { config_path: "c".to_string(), lockfile_path: "l".to_string(), target_architectures: vec![] };
    let inputs = LoadedInputs { config: Some(Ok((c, "h".to_string()))), lockfile: None };
    assert!(matches!(resolve_command(cmd, inputs), Err(AptPrepError::LockfileValidation { .. })));
}

#[test]
fn zero_numeric_parameter_is_rejected() {
    let inputs = LoadedInputs { config: None, lockfile: Some(Ok(Lockfile::new("h".to_string(), vec![]))) };
    match resolve_command(download(0, None, Some("/out")), inputs) {
        Err(AptPrepError::CliArgumentValidation { details }) => assert_eq!(details, "max-retries must be greater than 0."),
        other => panic!("unexpected {:?}", other),
    }
}

#[test]
fn config_hash_mismatch_fails_download() {
    let inputs = LoadedInputs {
        config: Some(Ok((config(vec!["amd64"], Some("/out")), "other".to_string()))),
        lockfile: Some(Ok(Lockfile::new("h".to_string(), vec![]))),
    };
    assert!(matches!(resolve_command(download(5, Some("c"), None), inputs), Err(AptPrepError::LockfileValidation { .. })));
}

#[test]
fn download_takes_output_dir_from_config() {
    let inputs = LoadedInputs {
        config: Some(Ok((config(vec!["amd64"], Some("/mirror")), "h".to_string()))),
        lockfile: Some(Ok(Lockfile::new("h".to_string(), vec!["curl".to_string()]))),
    };
    match resolve_command(download(5, Some("c"), None), inputs) {
        Ok(ResolvedCommand::Download(p)) => {
            assert_eq!(p.output_dir, "/mirror");
            assert_eq!(p.options.max_retries, 5);
        },
        other => panic!("unexpected {:?}", other),
    }
    let inputs = LoadedInputs { config: None, lockfile: Some(Ok(Lockfile::new("h".to_string(), vec![]))) };
    assert!(matches!(resolve_command(download(5, None, None), inputs), Err(AptPrepError::CliArgumentValidation { .. })));
}

#[test]
fn lockfile_of_version_two_is_rejected_by_every_command() {
    let mut l = Lockfile::new("h".to_string(), vec![]);
    l.version = 2;
    let inputs = LoadedInputs { config: None, lockfile: Some(Ok(l)) };
    assert!(matches!(resolve_command(download(5, None, Some("/out")), inputs), Err(AptPrepError::LockfileValidation { .. })));
    let mut l = Lockfile::new("h".to_string(), vec![]);
    l.version = 2;
    let cmd = Command::GeneratePackagesFileFromLockfile { config_path: None, lockfile_path: "l".to_string(), output_path: Some("/o/Packages".to_string()) };
    assert!(matches!(resolve_command(cmd, LoadedInputs { config: None, lockfile: Some(Ok(l)) }), Err(AptPrepError::LockfileValidation { .. })));
}

#[test]
fn packages_path_defaults_below_the_output_path() {
    let cmd = Command::GeneratePackagesFileFromLockfile { config_path: Some("c".to_string()), lockfile_path: "l".to_string(), output_path: None };
    let inputs = LoadedInputs {
        config: Some(Ok((config(vec!["amd64"], Some("/mirror")), "h".to_string()))),
        lockfile: Some(Ok(Lockfile::new("h".to_string(), vec![]))),
    };
    match resolve_command(cmd, inputs) {
        Ok(ResolvedCommand::GeneratePackagesFileFromLockfile(p)) => assert_eq!(p.output_path, "/mirror/Packages"),
        other => panic!("unexpected {:?}", other),
    }
}

#[test]
fn example_config_names_curl_and_vim() {
    let c = aptprep::config::create_test_config();
    assert_eq!(c.packages, vec!["curl".to_string(), "vim".to_string()]);
    assert_eq!(c.source_repositories[0].distributions, vec![DistributionDef::Simple("noble".to_string())]);
    assert_eq!(c.output.target_architectures, vec!["amd64".to_string()]);
}

#[test]
fn required_packages_must_match_the_config() {
    let inputs = LoadedInputs {
        config: Some(Ok((config(vec!["amd64"], Some("/mirror")), "h".to_string()))),
        lockfile: Some(Ok(Lockfile::new("h".to_string(), vec!["vim".to_string()]))),
    };
    assert!(matches!(resolve_command(download(5, Some("c"), None), inputs), Err(AptPrepError::LockfileValidation { .. })));
}
