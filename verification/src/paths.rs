//! Paths: the activation-target expander and path safety checks.
//!
//! The expander rewrites the tokens `$HOME`, `$XDG_DATA_HOME`,
//! `$XDG_CONFIG_HOME` and `$XDG_BIN_HOME` in a raw target path, longest
//! token first, in one pass each. The safety checks refuse paths with
//! parent-directory components and archive entries that escape their root.

use vstd::prelude::*;

use crate::strutil::{chars_slice, chars_to_string, starts_with, str_to_chars};
use crate::UhpmError;

verus! {

// ---------------------------------------------------------------------------
// Token replacement
// ---------------------------------------------------------------------------

/// Whether `pat` occurs in `s` at position `i`.
pub open spec fn occurs_at(s: Seq<char>, pat: Seq<char>, i: int) -> bool {
    0 <= i && i + pat.len() <= s.len() && s.subrange(i, i + pat.len()) == pat
}

/// The position of the first occurrence of `pat` in `s`, or `s.len()` when
/// `pat` does not occur.
pub open spec fn find_sub(s: Seq<char>, pat: Seq<char>) -> int
    decreases s.len(),
{
    if pat.len() == 0 {
        0
    } else if s.len() < pat.len() {
        s.len() as int
    } else if starts_with(s, pat) {
        0
    } else {
        1 + find_sub(s.skip(1), pat)
    }
}

pub proof fn lemma_find_sub(s: Seq<char>, pat: Seq<char>)
    requires
        pat.len() > 0,
    ensures
        0 <= find_sub(s, pat) <= s.len(),
        find_sub(s, pat) + pat.len() <= s.len() ==> (occurs_at(s, pat, find_sub(s, pat))
            || find_sub(s, pat) == s.len()),
        find_sub(s, pat) < s.len() ==> occurs_at(s, pat, find_sub(s, pat)) && find_sub(s, pat)
            + pat.len() <= s.len(),
        forall|j: int| 0 <= j < find_sub(s, pat) ==> !occurs_at(s, pat, j),
    decreases s.len(),
{
    if s.len() >= pat.len() && !starts_with(s, pat) {
        lemma_find_sub(s.skip(1), pat);
        let f = find_sub(s, pat);
        assert(f == 1 + find_sub(s.skip(1), pat));
        if f < s.len() {
            assert(occurs_at(s.skip(1), pat, f - 1));
            assert(s.subrange(f, f + pat.len() as int) =~= s.skip(1).subrange(
                f - 1,
                f - 1 + pat.len() as int,
            ));
        }
        assert forall|j: int| 0 <= j < f implies !occurs_at(s, pat, j) by {
            if j == 0 {
                if occurs_at(s, pat, 0) {
                    assert(starts_with(s, pat));
                }
            } else {
                assert(!occurs_at(s.skip(1), pat, j - 1));
                if occurs_at(s, pat, j) {
                    assert(s.skip(1).subrange(j - 1, j - 1 + pat.len() as int) =~= s.subrange(
                        j,
                        j + pat.len() as int,
                    ));
                }
            }
        }
    } else if s.len() < pat.len() {
        assert forall|j: int| 0 <= j < find_sub(s, pat) implies !occurs_at(s, pat, j) by {}
    }
}

/// One left-to-right pass replacing every occurrence of `pat` by `val`;
/// replacements are not rescanned.
pub open spec fn replace_all(s: Seq<char>, pat: Seq<char>, val: Seq<char>) -> Seq<char>
    decreases s.len(),
{
    if pat.len() == 0 {
        s
    } else {
        let i = find_sub(s, pat);
        if 0 <= i && i < s.len() && i + pat.len() <= s.len() {
            s.subrange(0, i) + val + replace_all(s.skip(i + pat.len()), pat, val)
        } else {
            s
        }
    }
}

/// Executable [`find_sub`].
pub(crate) fn find_sub_exec(s: &Vec<char>, pat: &Vec<char>) -> (r: usize)
    requires
        pat@.len() > 0,
    ensures
        r as int == find_sub(s@, pat@),
    decreases s@.len(),
{
    proof {
        lemma_find_sub(s@, pat@);
    }
    if s.len() < pat.len() {
        return s.len();
    }
    if crate::strutil::chars_start_with(s, pat) {
        return 0;
    }
    let rest = chars_slice(s, 1, s.len());
    proof {
        assert(rest@ =~= s@.skip(1));
    }
    let r = find_sub_exec(&rest, pat);
    1 + r
}

/// Executable [`replace_all`].
fn replace_all_exec(s: &Vec<char>, pat: &Vec<char>, val: &Vec<char>) -> (r: Vec<char>)
    requires
        pat@.len() > 0,
    ensures
        r@ == replace_all(s@, pat@, val@),
    decreases s@.len(),
{
    proof {
        lemma_find_sub(s@, pat@);
    }
    let i = find_sub_exec(s, pat);
    if i == s.len() {
        let r = chars_slice(s, 0, s.len());
        proof {
            assert(r@ =~= s@);
        }
        return r;
    }
    let head = chars_slice(s, 0, i);
    let tail = chars_slice(s, i + pat.len(), s.len());
    proof {
        assert(tail@ =~= s@.skip(i as int + pat@.len() as int));
    }
    let rest = replace_all_exec(&tail, pat, val);
    let mut out = head;
    crate::strutil::append_chars(&mut out, val);
    crate::strutil::append_chars(&mut out, &rest);
    proof {
        assert(out@ =~= s@.subrange(0, i as int) + val@ + replace_all(
            s@.skip(i as int + pat@.len() as int),
            pat@,
            val@,
        ));
    }
    out
}

// ---------------------------------------------------------------------------
// The environment and the expander
// ---------------------------------------------------------------------------

/// The directories the expander resolves tokens against. Each field holds
/// the directory's absolute path.
#[derive(Debug, Clone)]
pub struct Env {
    pub home: String,
    pub xdg_data: String,
    pub xdg_config: String,
    pub xdg_bin: String,
}

pub struct SpecEnv {
    pub home: Seq<char>,
    pub xdg_data: Seq<char>,
    pub xdg_config: Seq<char>,
    pub xdg_bin: Seq<char>,
}

impl View for Env {
    type V = SpecEnv;

    open spec fn view(&self) -> SpecEnv {
        SpecEnv {
            home: self.home@,
            xdg_data: self.xdg_data@,
            xdg_config: self.xdg_config@,
            xdg_bin: self.xdg_bin@,
        }
    }
}

pub open spec fn tok_home() -> Seq<char> {
    seq!['$', 'H', 'O', 'M', 'E']
}

pub open spec fn tok_data() -> Seq<char> {
    seq!['$', 'X', 'D', 'G', '_', 'D', 'A', 'T', 'A', '_', 'H', 'O', 'M', 'E']
}

pub open spec fn tok_config() -> Seq<char> {
    seq!['$', 'X', 'D', 'G', '_', 'C', 'O', 'N', 'F', 'I', 'G', '_', 'H', 'O', 'M', 'E']
}

pub open spec fn tok_bin() -> Seq<char> {
    seq!['$', 'X', 'D', 'G', '_', 'B', 'I', 'N', '_', 'H', 'O', 'M', 'E']
}

/// The expansion of a raw target path: tokens are replaced textually,
/// longest token first, one pass each.
pub open spec fn spec_expand(raw: Seq<char>, env: SpecEnv) -> Seq<char> {
    let a = replace_all(raw, tok_config(), env.xdg_config);
    let b = replace_all(a, tok_data(), env.xdg_data);
    let c = replace_all(b, tok_bin(), env.xdg_bin);
    replace_all(c, tok_home(), env.home)
}

fn tok_home_exec() -> (r: Vec<char>)
    ensures
        r@ == tok_home(),
{
    let v = str_to_chars("$HOME");
    proof {
        reveal_strlit("$HOME");
        assert(v@ =~= tok_home());
    }
    v
}

fn tok_data_exec() -> (r: Vec<char>)
    ensures
        r@ == tok_data(),
{
    let v = str_to_chars("$XDG_DATA_HOME");
    proof {
        reveal_strlit("$XDG_DATA_HOME");
        assert(v@ =~= tok_data());
    }
    v
}

fn tok_config_exec() -> (r: Vec<char>)
    ensures
        r@ == tok_config(),
{
    let v = str_to_chars("$XDG_CONFIG_HOME");
    proof {
        reveal_strlit("$XDG_CONFIG_HOME");
        assert(v@ =~= tok_config());
    }
    v
}

fn tok_bin_exec() -> (r: Vec<char>)
    ensures
        r@ == tok_bin(),
{
    let v = str_to_chars("$XDG_BIN_HOME");
    proof {
        reveal_strlit("$XDG_BIN_HOME");
        assert(v@ =~= tok_bin());
    }
    v
}

/// Expands the tokens of a raw target path against the environment. Fails
/// with a validation error exactly when the expansion is not absolute.
pub fn expand_vars(raw: &str, env: &Env) -> (r: Result<String, UhpmError>)
    ensures
        match r {
            Ok(s) => s@ == spec_expand(raw@, env@) && spec_expand(raw@, env@).len() > 0
                && spec_expand(raw@, env@)[0] == '/',
            Err(e) => e is Validation && !(spec_expand(raw@, env@).len() > 0 && spec_expand(
                raw@,
                env@,
            )[0] == '/'),
        },
{
    let rawc = str_to_chars(raw);
    let a = replace_all_exec(&rawc, &tok_config_exec(), &str_to_chars(env.xdg_config.as_str()));
    let b = replace_all_exec(&a, &tok_data_exec(), &str_to_chars(env.xdg_data.as_str()));
    let c = replace_all_exec(&b, &tok_bin_exec(), &str_to_chars(env.xdg_bin.as_str()));
    let d = replace_all_exec(&c, &tok_home_exec(), &str_to_chars(env.home.as_str()));
    if d.len() == 0 || d[0] != '/' {
        return Err(UhpmError::Validation(String::from_str("expanded target is not absolute")));
    }
    Ok(chars_to_string(&d))
}

// ---------------------------------------------------------------------------
// Path safety
// ---------------------------------------------------------------------------

/// Whether the path contains a `..` component.
pub open spec fn has_dotdot(s: Seq<char>) -> bool {
    exists|i: int|
        0 <= i && i + 2 <= s.len() && #[trigger] s[i] == '.' && s[i + 1] == '.' && (i == 0 || s[i
            - 1] == '/') && (i + 2 == s.len() || s[i + 2] == '/')
}

/// Whether an archive entry path stays under the extraction root: nonempty,
/// relative, and free of `..` components.
pub open spec fn is_safe_entry_path(s: Seq<char>) -> bool {
    s.len() > 0 && s[0] != '/' && !has_dotdot(s)
}

/// Executable check for a `..` component.
pub fn has_dotdot_exec(v: &Vec<char>) -> (r: bool)
    ensures
        r == has_dotdot(v@),
{
    if v.len() < 2 {
        return false;
    }
    let mut i: usize = 0;
    while i < v.len() - 1
        invariant
            v@.len() >= 2,
            i <= v@.len(),
            forall|j: int|
                0 <= j < i ==> !(j + 2 <= v@.len() && #[trigger] v@[j] == '.' && v@[j + 1] == '.'
                    && (j == 0 || v@[j - 1] == '/') && (j + 2 == v@.len() || v@[j + 2] == '/')),
        decreases v.len() - i,
    {
        if v[i] == '.' && v[i + 1] == '.' && (i == 0 || v[i - 1] == '/') && (i + 2 == v.len()
            || v[i + 2] == '/') {
            return true;
        }
        i = i + 1;
    }
    false
}

/// Validates a path that must not climb out of its root: refuses `..`
/// components. Returns the path itself.
pub fn sanitize_file_path(path: &str) -> (r: Result<String, UhpmError>)
    ensures
        match r {
            Ok(s) => s@ == path@ && !has_dotdot(path@),
            Err(e) => e is UnsafePath && has_dotdot(path@),
        },
{
    let v = str_to_chars(path);
    if has_dotdot_exec(&v) {
        Err(UhpmError::UnsafePath(String::from_str("path contains a parent-directory component")))
    } else {
        Ok(chars_to_string(&v))
    }
}

/// Executable check that an archive entry path stays under its root.
pub fn check_entry_path(path: &String) -> (r: bool)
    ensures
        r == is_safe_entry_path(path@),
{
    let v = str_to_chars(path.as_str());
    if v.len() == 0 {
        return false;
    }
    if v[0] == '/' {
        return false;
    }
    !has_dotdot_exec(&v)
}

// ---------------------------------------------------------------------------
// Package paths
// ---------------------------------------------------------------------------

/// The directory name of an installed version: `<name>-<version>`.
pub open spec fn spec_pkg_dir_name(name: Seq<char>, v: crate::version::SpecVersion) -> Seq<char> {
    name + seq!['-'] + crate::version::spec_render_version(v)
}

/// The tree of `(name, version)` under a root: `<root>/packages/<name>-<version>`.
pub open spec fn spec_pkg_dir(root: Seq<char>, name: Seq<char>, v: crate::version::SpecVersion) -> Seq<char> {
    root + seq!['/', 'p', 'a', 'c', 'k', 'a', 'g', 'e', 's', '/'] + spec_pkg_dir_name(name, v)
}

/// The path of the package tree of `(name, version)` under `root`.
pub fn get_pkg_path(root: &String, name: &String, version: &crate::version::Version) -> (r:
    String)
    ensures
        r@ == spec_pkg_dir(root@, name@, version@),
{
    let mut out = str_to_chars(root.as_str());
    let mid = str_to_chars("/packages/");
    proof {
        reveal_strlit("/packages/");
        assert(mid@ =~= seq!['/', 'p', 'a', 'c', 'k', 'a', 'g', 'e', 's', '/']);
    }
    crate::strutil::append_chars(&mut out, &mid);
    let namec = str_to_chars(name.as_str());
    crate::strutil::append_chars(&mut out, &namec);
    out.push('-');
    let verc = crate::version::render_version(version);
    crate::strutil::append_chars(&mut out, &verc);
    proof {
        assert(out@ =~= spec_pkg_dir(root@, name@, version@));
    }
    chars_to_string(&out)
}

/// Splits a `NAME@VERSION` argument at its first `@`.
pub fn parse_target(s: &str) -> (r: Option<(String, String)>)
    ensures
        match r {
            Some(p) => crate::version::first_idx(s@, '@') < s@.len() && p.0@ == s@.subrange(
                0,
                crate::version::first_idx(s@, '@'),
            ) && p.1@ == s@.skip(crate::version::first_idx(s@, '@') + 1),
            None => crate::version::first_idx(s@, '@') == s@.len(),
        },
{
    let v = str_to_chars(s);
    proof {
        crate::version::lemma_first_idx(v@, '@');
    }
    let i = crate::version::find_first(&v, '@');
    if i == v.len() {
        return None;
    }
    let name = chars_slice(&v, 0, i);
    let ver = chars_slice(&v, i + 1, v.len());
    proof {
        assert(ver@ =~= v@.skip(i as int + 1));
    }
    Some((chars_to_string(&name), chars_to_string(&ver)))
}

} // verus!

verus! {

/// Relies on dirs' `home_dir`: the user's home directory, which depends on
/// the environment.
#[verifier::external_body]
fn sys_home_dir() -> Option<String> {
    dirs::home_dir().and_then(|p| p.to_str().map(|s| s.to_owned()))
}

/// Relies on dirs' `data_dir`: `$XDG_DATA_HOME` or its standard default,
/// which depends on the environment.
#[verifier::external_body]
fn sys_data_dir() -> Option<String> {
    dirs::data_dir().and_then(|p| p.to_str().map(|s| s.to_owned()))
}

/// Relies on dirs' `config_dir`: `$XDG_CONFIG_HOME` or its standard default,
/// which depends on the environment.
#[verifier::external_body]
fn sys_config_dir() -> Option<String> {
    dirs::config_dir().and_then(|p| p.to_str().map(|s| s.to_owned()))
}

/// Relies on dirs' `executable_dir`: `$XDG_BIN_HOME` or its standard
/// default, which depends on the environment.
#[verifier::external_body]
fn sys_executable_dir() -> Option<String> {
    dirs::executable_dir().and_then(|p| p.to_str().map(|s| s.to_owned()))
}

impl Env {
    /// An environment from explicit directories.
    pub fn new(home: String, xdg_data: String, xdg_config: String, xdg_bin: String) -> (r: Env)
        ensures
            r@.home == home@,
            r@.xdg_data == xdg_data@,
            r@.xdg_config == xdg_config@,
            r@.xdg_bin == xdg_bin@,
    {
        Env { home, xdg_data, xdg_config, xdg_bin }
    }

    /// The environment the process runs in, read through dirs: the home
    /// directory and the three XDG directories with their standard
    /// defaults. Nothing when the home directory cannot be determined.
    pub fn from_system() -> Option<Env> {
        let home = match sys_home_dir() {
            Some(h) => h,
            None => {
                return None;
            },
        };
        let xdg_data = match sys_data_dir() {
            Some(d) => d,
            None => {
                return None;
            },
        };
        let xdg_config = match sys_config_dir() {
            Some(d) => d,
            None => {
                return None;
            },
        };
        let xdg_bin = match sys_executable_dir() {
            Some(d) => d,
            None => {
                return None;
            },
        };
        Some(Env { home, xdg_data, xdg_config, xdg_bin })
    }
}

} // verus!
