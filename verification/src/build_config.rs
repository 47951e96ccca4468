//! Discovery of accelerator-toolkit and Python build configuration: the
//! decisions, computed from plain observations. Reading environment
//! variables, probing the file system and running interpreters happens
//! outside the library; callers hand in what they observed and get the
//! selected configuration back.

use vstd::prelude::*;

verus! {

/// Python script to extract Python paths from sysconfig
pub const PYTHON_PRINT_DIRS: &'static str = r"
import sysconfig
print('PYTHON_INCLUDE_DIR:', sysconfig.get_config_var('INCLUDEDIR'))
print('PYTHON_LIB_DIR:', sysconfig.get_config_var('LIBDIR'))
";

/// Python script to extract PyTorch details from torch.utils.cpp_extension
pub const PYTHON_PRINT_PYTORCH_DETAILS: &'static str = r"
import torch
from torch.utils import cpp_extension
print('LIBTORCH_CXX11:', torch._C._GLIBCXX_USE_CXX11_ABI)
for include_path in cpp_extension.include_paths():
    print('LIBTORCH_INCLUDE:', include_path)
for library_path in cpp_extension.library_paths():
    print('LIBTORCH_LIB:', library_path)
";

/// Python script to extract PyTorch details including CUDA info
pub const PYTHON_PRINT_CUDA_DETAILS: &'static str = r"
import torch
from torch.utils import cpp_extension
print('CUDA_HOME:', cpp_extension.CUDA_HOME)
for include_path in cpp_extension.include_paths():
    print('LIBTORCH_INCLUDE:', include_path)
for library_path in cpp_extension.library_paths():
    print('LIBTORCH_LIB:', library_path)
print('LIBTORCH_CXX11:', torch._C._GLIBCXX_USE_CXX11_ABI)
";

/// Python script to extract Python include paths
pub const PYTHON_PRINT_INCLUDE_PATH: &'static str = r"
import sysconfig
print('PYTHON_INCLUDE:', sysconfig.get_path('include'))
print('PYTHON_INCLUDE_DIR:', sysconfig.get_config_var('INCLUDEDIR'))
print('PYTHON_LIB_DIR:', sysconfig.get_config_var('LIBDIR'))
";

/// Configuration structure for a CUDA environment.
#[derive(Debug, Default)]
pub struct CudaConfig {
    pub cuda_home: Option<String>,
    pub include_dirs: Vec<String>,
    pub lib_dirs: Vec<String>,
}

/// Configuration structure for a HIP/ROCm environment.
#[derive(Debug, Default)]
pub struct HipConfig {
    pub rocm_home: Option<String>,
    pub include_dirs: Vec<String>,
    pub lib_dirs: Vec<String>,
}

/// Result of Python environment discovery.
#[derive(Debug)]
pub struct PythonConfig {
    pub include_dir: Option<String>,
    pub lib_dir: Option<String>,
}

/// Error type for build configuration.
#[derive(Debug)]
pub enum BuildError {
    CudaNotFound,
    RocmNotFound,
    PythonNotFound,
    CommandFailed(String),
    PathNotFound(String),
}

impl BuildError {
    /// A human-readable description of the error.
    pub fn message(&self) -> (r: String)
        ensures
            (match self {
                BuildError::CudaNotFound => r@ == "CUDA installation not found"@,
                BuildError::RocmNotFound => r@ == "ROCm installation not found"@,
                BuildError::PythonNotFound => r@ == "Python interpreter not found"@,
                BuildError::CommandFailed(cmd) => r@ == "Command failed: "@ + cmd@,
                BuildError::PathNotFound(path) => r@ == "Path not found: "@ + path@,
            }),
    {
        match self {
            BuildError::CudaNotFound => String::from_str("CUDA installation not found"),
            BuildError::RocmNotFound => String::from_str("ROCm installation not found"),
            BuildError::PythonNotFound => String::from_str("Python interpreter not found"),
            BuildError::CommandFailed(cmd) => {
                let mut s = String::from_str("Command failed: ");
                s.append(cmd.as_str());
                s
            },
            BuildError::PathNotFound(path) => {
                let mut s = String::from_str("Path not found: ");
                s.append(path.as_str());
                s
            },
        }
    }
}

/// Whether the ROCm backend should be used instead of CUDA: the USE_ROCM
/// environment variable, whose observed value is handed in, is set to "1".
pub fn use_rocm(env_value: Option<String>) -> (r: bool)
    ensures
        r == (env_value matches Some(v) && v@ == "1"@),
{
    match env_value {
        Some(v) => v == String::from_str("1"),
        None => false,
    }
}

/// Where the CUDA installation lives, given what the caller observed, in
/// order of preference: the CUDA_HOME environment variable, the CUDA_PATH
/// environment variable, a home derived from an nvcc binary found on the
/// search path (when nvcc was found, its derivation decides, even when it
/// yielded nothing), and finally a platform default that exists on disk.
pub fn find_cuda_home(
    env_cuda_home: Option<String>,
    env_cuda_path: Option<String>,
    nvcc_found: bool,
    nvcc_home: Option<String>,
    default_home: Option<String>,
) -> (r: Option<String>)
    ensures
        r == (if env_cuda_home is Some {
            env_cuda_home
        } else if env_cuda_path is Some {
            env_cuda_path
        } else if nvcc_found {
            nvcc_home
        } else {
            default_home
        }),
{
    if env_cuda_home.is_some() {
        env_cuda_home
    } else if env_cuda_path.is_some() {
        env_cuda_path
    } else if nvcc_found {
        nvcc_home
    } else {
        default_home
    }
}

/// The first candidate directory that exists, if any: candidates carry the
/// probed path and whether it exists.
pub open spec fn first_present(cands: Seq<(String, bool)>) -> Option<String>
    decreases cands.len(),
{
    if cands.len() == 0 {
        None
    } else if cands[0].1 {
        Some(cands[0].0)
    } else {
        first_present(cands.drop_first())
    }
}

proof fn lemma_first_present_skip(cands: Seq<(String, bool)>, i: int)
    requires
        0 <= i <= cands.len(),
        forall|j: int| 0 <= j < i ==> !cands[j].1,
    ensures
        first_present(cands) == first_present(cands.skip(i)),
    decreases i,
{
    if i > 0 {
        lemma_first_present_skip(cands, i - 1);
        let t = cands.skip(i - 1);
        assert(t[0] == cands[i - 1]);
        assert(!t[0].1);
        assert(t.drop_first() =~= cands.skip(i));
    } else {
        assert(cands.skip(0) =~= cands);
    }
}

fn first_present_exec(cands: &Vec<(String, bool)>) -> (r: Option<String>)
    ensures
        r == first_present(cands@),
{
    let mut i: usize = 0;
    while i < cands.len()
        invariant
            i <= cands@.len(),
            forall|j: int| 0 <= j < i ==> !cands@[j].1,
        decreases cands@.len() - i,
    {
        if cands[i].1 {
            proof {
                lemma_first_present_skip(cands@, i as int);
                assert(cands@.skip(i as int)[0] == cands@[i as int]);
            }
            return Some(cands[i].0.clone());
        }
        i = i + 1;
    }
    proof {
        lemma_first_present_skip(cands@, cands@.len() as int);
        assert(cands@.skip(cands@.len() as int).len() == 0);
    }
    None
}

/// Where the ROCm installation lives, given what the caller observed, in
/// order of preference: the ROCM_PATH, ROCM_HOME and HIP_PATH environment
/// variables, a home derived from a hipcc binary found on the search path
/// (when hipcc was found, its derivation decides), and finally the first
/// platform default that exists on disk.
pub fn find_rocm_home(
    env_rocm_path: Option<String>,
    env_rocm_home: Option<String>,
    env_hip_path: Option<String>,
    hipcc_found: bool,
    hipcc_home: Option<String>,
    default_candidates: Vec<(String, bool)>,
) -> (r: Option<String>)
    ensures
        r == (if env_rocm_path is Some {
            env_rocm_path
        } else if env_rocm_home is Some {
            env_rocm_home
        } else if env_hip_path is Some {
            env_hip_path
        } else if hipcc_found {
            hipcc_home
        } else {
            first_present(default_candidates@)
        }),
{
    if env_rocm_path.is_some() {
        env_rocm_path
    } else if env_rocm_home.is_some() {
        env_rocm_home
    } else if env_hip_path.is_some() {
        env_hip_path
    } else if hipcc_found {
        hipcc_home
    } else {
        first_present_exec(&default_candidates)
    }
}

/// Every candidate directory that exists, in candidate order.
pub open spec fn present_paths(cands: Seq<(String, bool)>) -> Seq<String>
    decreases cands.len(),
{
    if cands.len() == 0 {
        Seq::empty()
    } else {
        let rest = present_paths(cands.drop_last());
        if cands.last().1 {
            rest.push(cands.last().0)
        } else {
            rest
        }
    }
}

fn present_paths_exec(cands: &Vec<(String, bool)>) -> (r: Vec<String>)
    ensures
        r@ == present_paths(cands@),
{
    let mut out: Vec<String> = Vec::new();
    let mut i: usize = 0;
    while i < cands.len()
        invariant
            i <= cands@.len(),
            out@ == present_paths(cands@.take(i as int)),
        decreases cands@.len() - i,
    {
        if cands[i].1 {
            out.push(cands[i].0.clone());
        }
        proof {
            assert(cands@.take(i + 1).drop_last() =~= cands@.take(i as int));
            assert(cands@.take(i + 1).last() == cands@[i as int]);
            assert(out@ == present_paths(cands@.take(i + 1)));
        }
        i = i + 1;
    }
    proof {
        assert(cands@.take(cands@.len() as int) =~= cands@);
    }
    out
}

/// Assemble the CUDA configuration from the located home and the probed
/// include and library directory candidates, in their canonical order: every
/// include candidate that exists is kept, and only the first existing
/// library candidate is kept.
pub fn discover_cuda_config(
    cuda_home: Option<String>,
    include_candidates: Vec<(String, bool)>,
    lib_candidates: Vec<(String, bool)>,
) -> (r: Result<CudaConfig, BuildError>)
    ensures
        cuda_home is None ==> r == Err::<CudaConfig, BuildError>(BuildError::CudaNotFound),
        cuda_home matches Some(h) ==> r matches Ok(c) && c.cuda_home == Some(h) && c.include_dirs@
            == present_paths(include_candidates@) && c.lib_dirs@ == (match first_present(
            lib_candidates@,
        ) {
            Some(p) => seq![p],
            None => Seq::<String>::empty(),
        }),
{
    let home = match cuda_home {
        Some(h) => h,
        None => {
            return Err(BuildError::CudaNotFound);
        },
    };
    let include_dirs = present_paths_exec(&include_candidates);
    let mut lib_dirs: Vec<String> = Vec::new();
    match first_present_exec(&lib_candidates) {
        Some(p) => {
            lib_dirs.push(p);
        },
        None => {},
    }
    Ok(CudaConfig { cuda_home: Some(home), include_dirs, lib_dirs })
}

/// Assemble the ROCm/HIP configuration from the located home and the probed
/// include and library directory candidates, as for CUDA.
pub fn discover_hip_config(
    rocm_home: Option<String>,
    include_candidates: Vec<(String, bool)>,
    lib_candidates: Vec<(String, bool)>,
) -> (r: Result<HipConfig, BuildError>)
    ensures
        rocm_home is None ==> r == Err::<HipConfig, BuildError>(BuildError::RocmNotFound),
        rocm_home matches Some(h) ==> r matches Ok(c) && c.rocm_home == Some(h) && c.include_dirs@
            == present_paths(include_candidates@) && c.lib_dirs@ == (match first_present(
            lib_candidates@,
        ) {
            Some(p) => seq![p],
            None => Seq::<String>::empty(),
        }),
{
    let home = match rocm_home {
        Some(h) => h,
        None => {
            return Err(BuildError::RocmNotFound);
        },
    };
    let include_dirs = present_paths_exec(&include_candidates);
    let mut lib_dirs: Vec<String> = Vec::new();
    match first_present_exec(&lib_candidates) {
        Some(p) => {
            lib_dirs.push(p);
        },
        None => {},
    }
    Ok(HipConfig { rocm_home: Some(home), include_dirs, lib_dirs })
}

/// Validate a discovered CUDA configuration: discovery must have succeeded
/// with a known home whose include directory exists on disk; the caller
/// probes the include path and reports the outcome. Returns the home on
/// success.
pub fn validate_cuda_installation(
    config: Result<CudaConfig, BuildError>,
    include_path: String,
    include_exists: bool,
) -> (r: Result<String, BuildError>)
    ensures
        config matches Err(e) ==> r == Err::<String, BuildError>(e),
        (config matches Ok(c) && c.cuda_home is None) ==> r == Err::<String, BuildError>(
            BuildError::CudaNotFound,
        ),
        (match config {
            Ok(c) => match c.cuda_home {
                Some(h) => include_exists ==> r == Ok::<String, BuildError>(h),
                None => true,
            },
            Err(_) => true,
        }),
        (config matches Ok(c) && c.cuda_home is Some && !include_exists) ==> r == Err::<
            String,
            BuildError,
        >(BuildError::PathNotFound(include_path)),
{
    match config {
        Err(e) => Err(e),
        Ok(c) => match c.cuda_home {
            None => Err(BuildError::CudaNotFound),
            Some(h) => {
                if include_exists {
                    Ok(h)
                } else {
                    Err(BuildError::PathNotFound(include_path))
                }
            },
        },
    }
}

/// Validate a discovered ROCm installation, as for CUDA: discovery must have
/// succeeded with a known home whose include directory exists on disk.
pub fn validate_rocm_installation(
    config: Result<HipConfig, BuildError>,
    include_path: String,
    include_exists: bool,
) -> (r: Result<String, BuildError>)
    ensures
        config matches Err(e) ==> r == Err::<String, BuildError>(e),
        (config matches Ok(c) && c.rocm_home is None) ==> r == Err::<String, BuildError>(
            BuildError::RocmNotFound,
        ),
        (match config {
            Ok(c) => match c.rocm_home {
                Some(h) => include_exists ==> r == Ok::<String, BuildError>(h),
                None => true,
            },
            Err(_) => true,
        }),
        (config matches Ok(c) && c.rocm_home is Some && !include_exists) ==> r == Err::<
            String,
            BuildError,
        >(BuildError::PathNotFound(include_path)),
{
    match config {
        Err(e) => Err(e),
        Ok(c) => match c.rocm_home {
            None => Err(BuildError::RocmNotFound),
            Some(h) => {
                if include_exists {
                    Ok(h)
                } else {
                    Err(BuildError::PathNotFound(include_path))
                }
            },
        },
    }
}

/// The CUDA library directory: an explicit CUDA_LIB_DIR environment value
/// wins; otherwise the first existing candidate under the home is taken; with
/// neither, the directory cannot be found.
pub fn get_cuda_lib_dir(env_value: Option<String>, lib_candidates: Vec<(String, bool)>) -> (r:
    Result<String, BuildError>)
    ensures
        env_value matches Some(v) ==> r == Ok::<String, BuildError>(v),
        env_value is None ==> (match first_present(lib_candidates@) {
            Some(p) => r == Ok::<String, BuildError>(p),
            None => (match r {
                Err(BuildError::PathNotFound(msg)) => msg@ == "CUDA library directory"@,
                _ => false,
            }),
        }),
{
    match env_value {
        Some(v) => Ok(v),
        None => match first_present_exec(&lib_candidates) {
            Some(p) => Ok(p),
            None => Err(BuildError::PathNotFound(String::from_str("CUDA library directory"))),
        },
    }
}

/// The ROCm library directory: an explicit ROCM_LIB_DIR environment value
/// wins; otherwise the first existing candidate under the home is taken.
pub fn get_rocm_lib_dir(env_value: Option<String>, lib_candidates: Vec<(String, bool)>) -> (r:
    Result<String, BuildError>)
    ensures
        env_value matches Some(v) ==> r == Ok::<String, BuildError>(v),
        env_value is None ==> (match first_present(lib_candidates@) {
            Some(p) => r == Ok::<String, BuildError>(p),
            None => (match r {
                Err(BuildError::PathNotFound(msg)) => msg@ == "ROCm library directory"@,
                _ => false,
            }),
        }),
{
    match env_value {
        Some(v) => Ok(v),
        None => match first_present_exec(&lib_candidates) {
            Some(p) => Ok(p),
            None => Err(BuildError::PathNotFound(String::from_str("ROCm library directory"))),
        },
    }
}

/// Whether the accelerator probes together say the runtime is usable: it
/// initialized, it reported a positive device count, and the first device
/// was accessible.
pub open spec fn accel_probe_ok(
    init_ok: bool,
    device_count: Option<i32>,
    first_device_ok: bool,
) -> bool {
    &&& init_ok
    &&& first_device_ok
    &&& match device_count {
        Some(c) => c > 0,
        None => false,
    }
}

/// Whether the accelerator runtime is usable, from the probe outcomes the
/// caller collected: the runtime initialized, it reported a positive device
/// count, and the first device was accessible.
pub fn is_cuda_available(init_ok: bool, device_count: Option<i32>, first_device_ok: bool) -> (r:
    bool)
    ensures
        r == accel_probe_ok(init_ok, device_count, first_device_ok),
{
    if !init_ok {
        return false;
    }
    match device_count {
        Some(c) => c > 0 && first_device_ok,
        None => false,
    }
}

/// The tail of `s` after prefix `p`, when `s` starts with `p`.
pub open spec fn strip_prefix_spec(s: Seq<char>, p: Seq<char>) -> Option<Seq<char>> {
    if s.len() >= p.len() && s.subrange(0, p.len() as int) == p {
        Some(s.subrange(p.len() as int, s.len() as int))
    } else {
        None
    }
}

/// The directory named by the last line carrying prefix `p`, if any: a later
/// line overrides an earlier one.
pub open spec fn last_dir(lines: Seq<Seq<char>>, p: Seq<char>) -> Option<Seq<char>>
    decreases lines.len(),
{
    if lines.len() == 0 {
        None
    } else {
        match strip_prefix_spec(lines.last(), p) {
            Some(sfx) => Some(sfx),
            None => last_dir(lines.drop_last(), p),
        }
    }
}

/// The character sequences of a list of lines.
pub open spec fn views(lines: Seq<String>) -> Seq<Seq<char>> {
    lines.map_values(|l: String| l@)
}

/// The tail of `line` after `prefix`, when `line` starts with it.
fn strip_prefix_chars(line: &String, prefix: &str) -> (r: Option<String>)
    ensures
        (match strip_prefix_spec(line@, prefix@) {
            Some(sfx) => r matches Some(v) && v@ == sfx,
            None => r is None,
        }),
{
    let n = line.as_str().unicode_len();
    let p = prefix.unicode_len();
    if n < p {
        return None;
    }
    let mut i: usize = 0;
    while i < p
        invariant
            i <= p,
            p == prefix@.len(),
            n == line@.len(),
            p <= n,
            forall|j: int| 0 <= j < i ==> line@[j] == prefix@[j],
        decreases p - i,
    {
        if line.as_str().get_char(i) != prefix.get_char(i) {
            proof {
                if line@.subrange(0, p as int) == prefix@ {
                    assert(line@.subrange(0, p as int)[i as int] == line@[i as int]);
                }
            }
            return None;
        }
        i = i + 1;
    }
    proof {
        assert(line@.subrange(0, p as int) =~= prefix@);
    }
    let suffix = line.as_str().substring_char(p, n);
    Some(suffix.to_owned())
}

/// Parse the lines the Python interpreter printed for the sysconfig script:
/// the last line carrying each directory prefix decides that directory.
/// Running the interpreter and capturing its output happens outside the
/// library.
pub fn python_env_dirs(lines: Vec<String>) -> (r: PythonConfig)
    ensures
        (match last_dir(views(lines@), "PYTHON_INCLUDE_DIR: "@) {
            Some(sfx) => r.include_dir matches Some(v) && v@ == sfx,
            None => r.include_dir is None,
        }),
        (match last_dir(views(lines@), "PYTHON_LIB_DIR: "@) {
            Some(sfx) => r.lib_dir matches Some(v) && v@ == sfx,
            None => r.lib_dir is None,
        }),
{
    let mut include_dir: Option<String> = None;
    let mut lib_dir: Option<String> = None;
    let mut i: usize = 0;
    while i < lines.len()
        invariant
            i <= lines@.len(),
            (match last_dir(views(lines@.take(i as int)), "PYTHON_INCLUDE_DIR: "@) {
                Some(sfx) => include_dir matches Some(v) && v@ == sfx,
                None => include_dir is None,
            }),
            (match last_dir(views(lines@.take(i as int)), "PYTHON_LIB_DIR: "@) {
                Some(sfx) => lib_dir matches Some(v) && v@ == sfx,
                None => lib_dir is None,
            }),
        decreases lines@.len() - i,
    {
        match strip_prefix_chars(&lines[i], "PYTHON_INCLUDE_DIR: ") {
            Some(v) => {
                include_dir = Some(v);
            },
            None => {},
        }
        match strip_prefix_chars(&lines[i], "PYTHON_LIB_DIR: ") {
            Some(v) => {
                lib_dir = Some(v);
            },
            None => {},
        }
        proof {
            assert(views(lines@.take(i + 1)).drop_last() =~= views(lines@.take(i as int)));
            assert(views(lines@.take(i + 1)).last() == lines@[i as int]@);
        }
        i = i + 1;
    }
    proof {
        assert(views(lines@.take(lines@.len() as int)) =~= views(lines@));
    }
    PythonConfig { include_dir, lib_dir }
}

/// The include subdirectories searched under a CUDA home, in order: the old
/// layout and the new target layout.
pub fn cuda_include_subdirs() -> (r: Vec<&'static str>)
    ensures
        r@.len() == 2,
        r@[0]@ == "include"@,
        r@[1]@ == "targets/x86_64-linux/include"@,
{
    let mut v: Vec<&'static str> = Vec::new();
    v.push("include");
    v.push("targets/x86_64-linux/include");
    v
}

/// The library subdirectories searched under a CUDA home, in order.
pub fn cuda_lib_subdirs() -> (r: Vec<&'static str>)
    ensures
        r@.len() == 4,
        r@[0]@ == "lib64"@,
        r@[1]@ == "lib"@,
        r@[2]@ == "lib/x64"@,
        r@[3]@ == "targets/x86_64-linux/lib"@,
{
    let mut v: Vec<&'static str> = Vec::new();
    v.push("lib64");
    v.push("lib");
    v.push("lib/x64");
    v.push("targets/x86_64-linux/lib");
    v
}

/// The include subdirectories searched under a ROCm home, in order.
pub fn hip_include_subdirs() -> (r: Vec<&'static str>)
    ensures
        r@.len() == 2,
        r@[0]@ == "include"@,
        r@[1]@ == "hip/include"@,
{
    let mut v: Vec<&'static str> = Vec::new();
    v.push("include");
    v.push("hip/include");
    v
}

/// The library subdirectories searched under a ROCm home, in order.
pub fn hip_lib_subdirs() -> (r: Vec<&'static str>)
    ensures
        r@.len() == 2,
        r@[0]@ == "lib"@,
        r@[1]@ == "lib64"@,
{
    let mut v: Vec<&'static str> = Vec::new();
    v.push("lib");
    v.push("lib64");
    v
}

/// The default ROCm homes probed when no environment variable or hipcc
/// binary locates one, in order.
pub fn rocm_default_homes() -> (r: Vec<&'static str>)
    ensures
        r@.len() == 3,
        r@[0]@ == "/usr/local/fbcode/platform010/lib/rocm-7.0"@,
        r@[1]@ == "/opt/rocm"@,
        r@[2]@ == "/usr/local/rocm"@,
{
    let mut v: Vec<&'static str> = Vec::new();
    v.push("/usr/local/fbcode/platform010/lib/rocm-7.0");
    v.push("/opt/rocm");
    v.push("/usr/local/rocm");
    v
}

} // verus!
