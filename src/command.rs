//! Command-line commands and their resolution into validated parameters.
use crate::config::Config;
use crate::error::AptPrepError;
use crate::lockfile::{Lockfile, LOCKFILE_VERSION};
use crate::text::{push_char, same_texts, sorted_unique, strictly_sorted, texts_of};
use vstd::prelude::*;
use vstd::string::*;

verus! {

/// A subcommand as given on the command line.
#[derive(Clone, Debug)]
pub enum Command {
    Lock { config_path: String, lockfile_path: String, target_architectures: Vec<String> },
    Download {
        config_path: Option<String>,
        lockfile_path: String,
        output_dir: Option<String>,
        max_concurrency_per_host: usize,
        max_retries: usize,
        download_parallelism: usize,
        checking_parallelism: usize,
    },
    GeneratePackagesFileFromLockfile { config_path: Option<String>, lockfile_path: String, output_path: Option<String> },
}

/// The parsed command line: the subcommand and the number of `-v` flags.
#[derive(Clone, Debug)]
pub struct Args {
    pub command: Command,
    pub verbosity: u8,
}

#[derive(Clone, Copy, Debug, PartialEq, Eq)]
pub struct DownloadAndCheckOptions {
    pub max_concurrency_per_host: usize,
    pub max_retries: usize,
    pub download_parallelism: usize,
    pub checking_parallelism: usize,
}

#[derive(Debug)]
pub struct LockParams {
    pub app_config: Config,
    pub config_hash: String,
    pub lockfile_path: String,
    pub target_architectures: Vec<String>,
}

#[derive(Debug)]
pub struct DownloadParams {
    pub lockfile: Lockfile,
    pub output_dir: String,
    pub options: DownloadAndCheckOptions,
}

#[derive(Debug)]
pub struct GeneratePackagesFileFromLockfileParams {
    pub lockfile: Lockfile,
    pub output_path: String,
}

/// A command with its inputs loaded and checked.
#[derive(Debug)]
pub enum ResolvedCommand {
    Lock(LockParams),
    Download(DownloadParams),
    GeneratePackagesFileFromLockfile(GeneratePackagesFileFromLockfileParams),
}

/// What the files a command names held: the configuration with its fingerprint, and the
/// lockfile as parsed; `None` for a file the command does not need.
#[derive(Debug)]
pub struct LoadedInputs {
    pub config: Option<Result<(Config, String), AptPrepError>>,
    pub lockfile: Option<Result<Lockfile, AptPrepError>>,
}

/// `path` joined with `Packages`.
pub open spec fn packages_path(path: Seq<char>) -> Seq<char> {
    let p = seq!['P', 'a', 'c', 'k', 'a', 'g', 'e', 's'];
    if path.len() == 0 {
        p
    } else if path.last() == '/' {
        path + p
    } else {
        path + seq!['/'] + p
    }
}

fn join_packages(path: &String) -> (r: String)
    ensures
        r@ == packages_path(path@),
{
    let n = path.as_str().unicode_len();
    let mut r = path.clone();
    if n > 0 && path.as_str().get_char(n - 1) != '/' {
        push_char(&mut r, '/');
    }
    r.append("Packages");
    proof {
        reveal_strlit("Packages");
    }
    assert(r@ =~= packages_path(path@));
    r
}

/// Some of the four download parameters is zero.
pub open spec fn some_zero(a: usize, b: usize, c: usize, d: usize) -> bool {
    a == 0 || b == 0 || c == 0 || d == 0
}

/// The message for the first zero among the four download parameters.
pub open spec fn zero_parameter_message(a: usize, b: usize, c: usize, d: usize) -> Seq<char> {
    if a == 0 {
        "max-concurrency-per-host must be greater than 0."@
    } else if b == 0 {
        "max-retries must be greater than 0."@
    } else if c == 0 {
        "download-parallelism must be greater than 0."@
    } else {
        "checking-parallelism must be greater than 0."@
    }
}

/// The lockfile as loaded, checked to be of the current format.
pub open spec fn lockfile_ok(l: Option<Result<Lockfile, AptPrepError>>) -> bool {
    l matches Some(Ok(lf)) && lf.version == LOCKFILE_VERSION
}

/// Turns a command and what its files held into validated parameters.
///
/// `lock` needs a configuration with repositories and at least one target architecture (from
/// the command line, else from the configuration; sorted, without repeats). `download` needs
/// positive numeric parameters, a lockfile of the current format, a configuration whose
/// fingerprint and requested packages are the lockfile's when one is given, and an output
/// directory. Writing the
/// `Packages` file needs a lockfile of the current format and an output path.
pub fn resolve_command(command: Command, inputs: LoadedInputs) -> (r: Result<ResolvedCommand, AptPrepError>)
    requires
        command is Lock ==> inputs.config is Some,
        command is Download ==> inputs.lockfile is Some && (command->Download_config_path is Some ==> inputs.config is Some),
        command is GeneratePackagesFileFromLockfile ==> inputs.lockfile is Some && (command->GeneratePackagesFileFromLockfile_output_path is None
            && command->GeneratePackagesFileFromLockfile_config_path is Some ==> inputs.config is Some),
    ensures
        match command {
            Command::Lock { config_path, lockfile_path, target_architectures } => match inputs.config.unwrap() {
                Err(e) => r == Err::<ResolvedCommand, AptPrepError>(e),
                Ok((cfg, fp)) => {
                    let wanted = if target_architectures@.len() == 0 { cfg.output.target_architectures@ } else { target_architectures@ };
                    if cfg.source_repositories@.len() == 0 {
                        r matches Err(e) && e is LockfileValidation
                    } else if wanted.len() == 0 {
                        r matches Err(e) && e is CliArgumentValidation
                    } else {
                        r matches Ok(ResolvedCommand::Lock(p)) && p.app_config == cfg && p.config_hash == fp
                            && p.lockfile_path == lockfile_path && strictly_sorted(p.target_architectures@)
                            && texts_of(p.target_architectures@) == texts_of(wanted)
                    }
                },
            },
            Command::Download { config_path, output_dir, max_concurrency_per_host, max_retries, download_parallelism, checking_parallelism, .. } => {
                if some_zero(max_concurrency_per_host, max_retries, download_parallelism, checking_parallelism) {
                    r matches Err(AptPrepError::CliArgumentValidation { details }) && details@ == zero_parameter_message(
                        max_concurrency_per_host,
                        max_retries,
                        download_parallelism,
                        checking_parallelism,
                    )
                } else if !lockfile_ok(inputs.lockfile) {
                    r matches Err(e) && (inputs.lockfile matches Some(Err(e0)) ==> e == e0)
                        && (inputs.lockfile matches Some(Ok(_)) ==> e is LockfileValidation)
                } else if config_path is Some && (inputs.config matches Some(Err(_))) {
                    r == Err::<ResolvedCommand, AptPrepError>(inputs.config->Some_0->Err_0)
                } else if config_path is Some && inputs.config->Some_0->Ok_0.1@ != inputs.lockfile->Some_0->Ok_0.config_hash@ {
                    r matches Err(e) && e is LockfileValidation
                } else if config_path is Some && texts_of(inputs.lockfile->Some_0->Ok_0.required_packages@)
                    != texts_of(inputs.config->Some_0->Ok_0.0.packages@) {
                    r matches Err(e) && e is LockfileValidation
                } else {
                    let dir = if output_dir is Some {
                        output_dir
                    } else if config_path is Some {
                        inputs.config->Some_0->Ok_0.0.output.path
                    } else {
                        None
                    };
                    match dir {
                        None => r matches Err(e) && e is CliArgumentValidation,
                        Some(d) => r matches Ok(ResolvedCommand::Download(p)) && p.output_dir == d
                            && p.lockfile == inputs.lockfile->Some_0->Ok_0 && p.options == (DownloadAndCheckOptions {
                                max_concurrency_per_host, max_retries, download_parallelism, checking_parallelism }),
                    }
                }
            },
            Command::GeneratePackagesFileFromLockfile { config_path, output_path, .. } => {
                if !lockfile_ok(inputs.lockfile) {
                    r matches Err(e) && (inputs.lockfile matches Some(Err(e0)) ==> e == e0)
                        && (inputs.lockfile matches Some(Ok(_)) ==> e is LockfileValidation)
                } else if output_path is Some {
                    r matches Ok(ResolvedCommand::GeneratePackagesFileFromLockfile(p)) && p.output_path == output_path.unwrap()
                        && p.lockfile == inputs.lockfile->Some_0->Ok_0
                } else if config_path is None {
                    r matches Err(e) && e is CliArgumentValidation
                } else {
                    match inputs.config.unwrap() {
                        Err(e0) => r == Err::<ResolvedCommand, AptPrepError>(e0),
                        Ok((cfg, _)) => match cfg.output.path {
                            None => r matches Err(e) && e is CliArgumentValidation,
                            Some(path) => r matches Ok(ResolvedCommand::GeneratePackagesFileFromLockfile(p))
                                && p.output_path@ == packages_path(path@) && p.lockfile == inputs.lockfile->Some_0->Ok_0,
                        },
                    }
                }
            },
        },
{
    match command {
        Command::Lock { config_path: _, lockfile_path, target_architectures } => {
            let (app_config, config_hash) = match inputs.config {
                Some(Ok(c)) => c,
                Some(Err(e)) => return Err(e),
                None => return Err(AptPrepError::Config { details: "configuration not loaded".to_string() }),
            };
            if app_config.source_repositories.len() == 0 {
                return Err(AptPrepError::LockfileValidation { details: "No source repositories defined in config".to_string() });
            }
            let targets = if target_architectures.len() == 0 {
                sorted_unique(&app_config.output.target_architectures)
            } else {
                sorted_unique(&target_architectures)
            };
            if targets.len() == 0 {
                proof {
                    let wanted = if target_architectures@.len() == 0 { app_config.output.target_architectures@ } else { target_architectures@ };
                    if wanted.len() > 0 {
                        assert(texts_of(wanted).contains(wanted[0]@));
                    }
                }
                return Err(AptPrepError::CliArgumentValidation {
                    details: "No target architectures provided. Configure output.target_architectures or pass --target-architecture.".to_string(),
                });
            }
            proof {
                let wanted = if target_architectures@.len() == 0 { app_config.output.target_architectures@ } else { target_architectures@ };
                if wanted.len() == 0 {
                    assert(texts_of(targets@).contains(targets@[0]@));
                    assert(texts_of(wanted) =~= Set::empty());
                }
            }
            Ok(ResolvedCommand::Lock(LockParams { app_config, config_hash, lockfile_path, target_architectures: targets }))
        },
        Command::Download {
            config_path,
            lockfile_path: _,
            output_dir,
            max_concurrency_per_host,
            max_retries,
            download_parallelism,
            checking_parallelism,
        } => {
            if max_concurrency_per_host == 0 || max_retries == 0 || download_parallelism == 0 || checking_parallelism == 0 {
                let details = if max_concurrency_per_host == 0 {
                    "max-concurrency-per-host must be greater than 0.".to_string()
                } else if max_retries == 0 {
                    "max-retries must be greater than 0.".to_string()
                } else if download_parallelism == 0 {
                    "download-parallelism must be greater than 0.".to_string()
                } else {
                    "checking-parallelism must be greater than 0.".to_string()
                };
                return Err(AptPrepError::CliArgumentValidation { details });
            }
            let lockfile = match inputs.lockfile {
                Some(Ok(l)) => match l.check_version() {
                    Ok(l) => l,
                    Err(e) => return Err(e),
                },
                Some(Err(e)) => return Err(e),
                None => return Err(AptPrepError::LockfileLoad { path: String::new(), reason: "lockfile not loaded".to_string() }),
            };
            let dir = match config_path {
                Some(_) => {
                    let (app_config, config_hash) = match inputs.config {
                        Some(Ok(c)) => c,
                        Some(Err(e)) => return Err(e),
                        None => return Err(AptPrepError::Config { details: "configuration not loaded".to_string() }),
                    };
                    if lockfile.config_hash != config_hash {
                        return Err(AptPrepError::LockfileValidation {
                            details: "Configuration hash does not match lockfile. Please regenerate the lockfile with 'aptprep lock'.".to_string(),
                        });
                    }
                    if !same_texts(&lockfile.required_packages, &app_config.packages) {
                        return Err(AptPrepError::LockfileValidation {
                            details: "Required packages in lockfile don't match configuration. Please regenerate the lockfile with 'aptprep lock'.".to_string(),
                        });
                    }
                    match output_dir {
                        Some(d) => Some(d),
                        None => app_config.output.path,
                    }
                },
                None => output_dir,
            };
            match dir {
                None => Err(AptPrepError::CliArgumentValidation { details: "No output directory provided. Configure output.path or pass --output-dir.".to_string() }),
                Some(output_dir) => Ok(ResolvedCommand::Download(DownloadParams {
                    lockfile,
                    output_dir,
                    options: DownloadAndCheckOptions { max_concurrency_per_host, max_retries, download_parallelism, checking_parallelism },
                })),
            }
        },
        Command::GeneratePackagesFileFromLockfile { config_path, lockfile_path: _, output_path } => {
            let lockfile = match inputs.lockfile {
                Some(Ok(l)) => match l.check_version() {
                    Ok(l) => l,
                    Err(e) => return Err(e),
                },
                Some(Err(e)) => return Err(e),
                None => return Err(AptPrepError::LockfileLoad { path: String::new(), reason: "lockfile not loaded".to_string() }),
            };
            match output_path {
                Some(p) => Ok(ResolvedCommand::GeneratePackagesFileFromLockfile(GeneratePackagesFileFromLockfileParams { lockfile, output_path: p })),
                None => match config_path {
                    None => Err(AptPrepError::CliArgumentValidation { details: "No output path provided. Pass --output or provide --config with output.path.".to_string() }),
                    Some(_) => {
                        let app_config = match inputs.config {
                            Some(Ok((c, _))) => c,
                            Some(Err(e)) => return Err(e),
                            None => return Err(AptPrepError::Config { details: "configuration not loaded".to_string() }),
                        };
                        match &app_config.output.path {
                            None => Err(AptPrepError::CliArgumentValidation { details: "No output path provided. Pass --output or configure output.path.".to_string() }),
                            Some(path) => Ok(ResolvedCommand::GeneratePackagesFileFromLockfile(GeneratePackagesFileFromLockfileParams {
                                lockfile,
                                output_path: join_packages(path),
                            })),
                        }
                    },
                },
            }
        },
    }
}

} // verus!
