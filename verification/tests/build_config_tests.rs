use mesh_history::build_config::{
    cuda_include_subdirs, cuda_lib_subdirs, discover_cuda_config, discover_hip_config,
    find_cuda_home, find_rocm_home, get_cuda_lib_dir, get_rocm_lib_dir, hip_include_subdirs,
    hip_lib_subdirs, is_cuda_available, python_env_dirs, rocm_default_homes, use_rocm,
    validate_cuda_installation, validate_rocm_installation, BuildError, PYTHON_PRINT_CUDA_DETAILS,
    PYTHON_PRINT_DIRS, PYTHON_PRINT_INCLUDE_PATH, PYTHON_PRINT_PYTORCH_DETAILS,
};

#[test]
fn test_python_scripts_constants() {
    assert!(PYTHON_PRINT_DIRS.contains("sysconfig"));
    assert!(PYTHON_PRINT_PYTORCH_DETAILS.contains("torch"));
    assert!(PYTHON_PRINT_CUDA_DETAILS.contains("CUDA_HOME"));
}

#[test]
fn test_python_include_path_constant() {
    assert!(PYTHON_PRINT_INCLUDE_PATH.contains("PYTHON_INCLUDE"));
}

#[test]
fn test_find_cuda_home_env_var() {
    // the CUDA_HOME environment variable wins over everything else
    let result = find_cuda_home(
        Some("/test/cuda".to_string()),
        Some("/other".to_string()),
        true,
        Some("/from/nvcc".to_string()),
        Some("/usr/local/cuda".to_string()),
    );
    assert_eq!(result, Some("/test/cuda".to_string()));
}

#[test]
fn find_cuda_home_priorities() {
    // CUDA_PATH is consulted when CUDA_HOME is unset
    assert_eq!(
        find_cuda_home(None, Some("/p".to_string()), true, Some("/n".to_string()), None),
        Some("/p".to_string())
    );
    // a found nvcc decides, even when its derivation yielded nothing
    assert_eq!(
        find_cuda_home(None, None, true, None, Some("/d".to_string())),
        None
    );
    // otherwise the existing platform default is used
    assert_eq!(
        find_cuda_home(None, None, false, None, Some("/usr/local/cuda".to_string())),
        Some("/usr/local/cuda".to_string())
    );
    assert_eq!(find_cuda_home(None, None, false, None, None), None);
}

#[test]
fn find_rocm_home_priorities() {
    assert_eq!(
        find_rocm_home(Some("/r".to_string()), None, None, false, None, vec![]),
        Some("/r".to_string())
    );
    assert_eq!(
        find_rocm_home(None, Some("/h".to_string()), None, false, None, vec![]),
        Some("/h".to_string())
    );
    assert_eq!(
        find_rocm_home(None, None, Some("/hip".to_string()), false, None, vec![]),
        Some("/hip".to_string())
    );
    assert_eq!(
        find_rocm_home(None, None, None, true, Some("/from/hipcc".to_string()), vec![]),
        Some("/from/hipcc".to_string())
    );
    // first existing default wins
    assert_eq!(
        find_rocm_home(
            None,
            None,
            None,
            false,
            None,
            vec![
                ("/a".to_string(), false),
                ("/opt/rocm".to_string(), true),
                ("/b".to_string(), true)
            ]
        ),
        Some("/opt/rocm".to_string())
    );
}

#[test]
fn use_rocm_checks_flag() {
    assert!(use_rocm(Some("1".to_string())));
    assert!(!use_rocm(Some("0".to_string())));
    assert!(!use_rocm(Some("true".to_string())));
    assert!(!use_rocm(None));
}

#[test]
fn discover_cuda_config_selects_dirs() {
    let cfg = discover_cuda_config(
        Some("/usr/local/cuda".to_string()),
        vec![
            ("/usr/local/cuda/include".to_string(), true),
            ("/usr/local/cuda/targets/x86_64-linux/include".to_string(), false),
        ],
        vec![
            ("/usr/local/cuda/lib64".to_string(), false),
            ("/usr/local/cuda/lib".to_string(), true),
            ("/usr/local/cuda/lib/x64".to_string(), true),
        ],
    )
    .unwrap();
    assert_eq!(cfg.cuda_home, Some("/usr/local/cuda".to_string()));
    assert_eq!(cfg.include_dirs, vec!["/usr/local/cuda/include".to_string()]);
    // only the first existing library directory is kept
    assert_eq!(cfg.lib_dirs, vec!["/usr/local/cuda/lib".to_string()]);
}

#[test]
fn discover_cuda_config_requires_home() {
    let r = discover_cuda_config(None, vec![], vec![]);
    assert!(matches!(r, Err(BuildError::CudaNotFound)));
}

#[test]
fn discover_hip_config_selects_dirs() {
    let cfg = discover_hip_config(
        Some("/opt/rocm".to_string()),
        vec![
            ("/opt/rocm/include".to_string(), true),
            ("/opt/rocm/hip/include".to_string(), true),
        ],
        vec![("/opt/rocm/lib".to_string(), false), ("/opt/rocm/lib64".to_string(), false)],
    )
    .unwrap();
    assert_eq!(cfg.rocm_home, Some("/opt/rocm".to_string()));
    assert_eq!(cfg.include_dirs.len(), 2);
    assert!(cfg.lib_dirs.is_empty());

    let r = discover_hip_config(None, vec![], vec![]);
    assert!(matches!(r, Err(BuildError::RocmNotFound)));
}

#[test]
fn validate_installations() {
    let ok = discover_cuda_config(Some("/c".to_string()), vec![], vec![]);
    let r = validate_cuda_installation(ok, "/c/include".to_string(), true);
    assert_eq!(r.unwrap(), "/c".to_string());

    let ok = discover_cuda_config(Some("/c".to_string()), vec![], vec![]);
    let r = validate_cuda_installation(ok, "/c/include".to_string(), false);
    match r {
        Err(BuildError::PathNotFound(p)) => assert_eq!(p, "/c/include".to_string()),
        _ => panic!("expected a missing-path error"),
    }

    let r = validate_cuda_installation(Err(BuildError::CudaNotFound), "/x".to_string(), true);
    assert!(matches!(r, Err(BuildError::CudaNotFound)));

    let ok = discover_hip_config(Some("/r".to_string()), vec![], vec![]);
    let r = validate_rocm_installation(ok, "/r/include".to_string(), true);
    assert_eq!(r.unwrap(), "/r".to_string());

    let r = validate_rocm_installation(Err(BuildError::RocmNotFound), "/x".to_string(), false);
    assert!(matches!(r, Err(BuildError::RocmNotFound)));
}

#[test]
fn build_error_messages() {
    assert_eq!(BuildError::CudaNotFound.message(), "CUDA installation not found");
    assert_eq!(BuildError::RocmNotFound.message(), "ROCm installation not found");
    assert_eq!(BuildError::PythonNotFound.message(), "Python interpreter not found");
    assert_eq!(
        BuildError::CommandFailed("python".to_string()).message(),
        "Command failed: python"
    );
    assert_eq!(BuildError::PathNotFound("/x".to_string()).message(), "Path not found: /x");
}

#[test]
fn python_env_dirs_parses_lines() {
    let cfg = python_env_dirs(vec![
        "noise".to_string(),
        "PYTHON_INCLUDE_DIR: /usr/include/python3.10".to_string(),
        "PYTHON_LIB_DIR: /usr/lib".to_string(),
        "PYTHON_LIB_DIR: /usr/lib64".to_string(),
    ]);
    assert_eq!(cfg.include_dir, Some("/usr/include/python3.10".to_string()));
    // the last matching line wins
    assert_eq!(cfg.lib_dir, Some("/usr/lib64".to_string()));

    let empty = python_env_dirs(vec!["unrelated".to_string()]);
    assert_eq!(empty.include_dir, None);
    assert_eq!(empty.lib_dir, None);
}

#[test]
fn is_cuda_available_requires_all_probes() {
    assert!(is_cuda_available(true, Some(2), true));
    assert!(!is_cuda_available(false, Some(2), true));
    assert!(!is_cuda_available(true, Some(0), true));
    assert!(!is_cuda_available(true, None, true));
    assert!(!is_cuda_available(true, Some(1), false));
}

#[test]
fn lib_dir_selection() {
    // an explicit environment override wins
    let r = get_cuda_lib_dir(Some("/env/lib".to_string()), vec![("/c/lib64".to_string(), true)]);
    assert_eq!(r.unwrap(), "/env/lib".to_string());

    // otherwise the first existing candidate is taken
    let r = get_cuda_lib_dir(
        None,
        vec![("/c/lib64".to_string(), false), ("/c/lib".to_string(), true)],
    );
    assert_eq!(r.unwrap(), "/c/lib".to_string());

    // with no candidate, the directory cannot be found
    let r = get_cuda_lib_dir(None, vec![]);
    match r {
        Err(BuildError::PathNotFound(msg)) => assert_eq!(msg, "CUDA library directory"),
        _ => panic!("expected a missing-path error"),
    }

    let r = get_rocm_lib_dir(None, vec![]);
    match r {
        Err(BuildError::PathNotFound(msg)) => assert_eq!(msg, "ROCm library directory"),
        _ => panic!("expected a missing-path error"),
    }
}

#[test]
fn subdir_lists_are_canonical() {
    assert_eq!(cuda_include_subdirs(), vec!["include", "targets/x86_64-linux/include"]);
    assert_eq!(cuda_lib_subdirs(), vec!["lib64", "lib", "lib/x64", "targets/x86_64-linux/lib"]);
    assert_eq!(hip_include_subdirs(), vec!["include", "hip/include"]);
    assert_eq!(hip_lib_subdirs(), vec!["lib", "lib64"]);
    assert_eq!(rocm_default_homes().len(), 3);
    assert_eq!(rocm_default_homes()[1], "/opt/rocm");
}
