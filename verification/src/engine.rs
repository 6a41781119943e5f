//! The lifecycle coordinator: install, switch, update and remove as
//! transitions over the catalog and the filesystem model.
//!
//! The coordinator computes every decision here, over the model; the process
//! around the library mirrors each step onto the real filesystem and feeds
//! archives and directory listings in as plain values.

use vstd::prelude::*;

use crate::catalog::{cat_inv, has_pkg, Catalog};
use crate::fsmodel::{fs_drop, fs_get, fs_set, FsNode, FsState, SpecFsNode};
use crate::paths::{spec_expand, Env, SpecEnv};
use crate::strutil::starts_with;
use crate::symlist::{SpecSymlinkEntry, SymlinkEntry};
use crate::UhpmError;

verus! {

/// The state the coordinator owns: the catalog, the filesystem model, the
/// root directory of the store, and the expander environment.
#[derive(Debug)]
pub struct World {
    pub root: String,
    pub env: Env,
    pub catalog: Catalog,
    pub fs: FsState,
}

/// The coordinator's invariant: the catalog invariant holds.
pub open spec fn world_inv(w: World) -> bool {
    cat_inv(w.catalog@)
}

/// The absolute path of an activation source inside the package tree.
pub open spec fn spec_src_abs(root: Seq<char>, source: Seq<char>) -> Seq<char> {
    root + seq!['/'] + source
}

/// The index right after the last `/`, or 0 when no `/` occurs.
pub open spec fn after_last_slash(p: Seq<char>) -> int
    decreases p.len(),
{
    if p.len() == 0 {
        0
    } else if p.last() == '/' {
        p.len() as int
    } else {
        after_last_slash(p.drop_last())
    }
}

/// The parent directory of an absolute path: everything before the last `/`.
pub open spec fn parent_of(p: Seq<char>) -> Seq<char> {
    let i = after_last_slash(p);
    if i > 0 {
        p.subrange(0, i - 1)
    } else {
        Seq::empty()
    }
}

/// The filesystem after ensuring a directory exists at `d`: untouched when
/// something already stands there.
pub open spec fn spec_ensure_dir(
    fs: Seq<(Seq<char>, SpecFsNode)>,
    d: Seq<char>,
) -> Seq<(Seq<char>, SpecFsNode)> {
    if fs_get(fs, d) is Some {
        fs
    } else {
        fs_set(fs, d, SpecFsNode::Dir)
    }
}

/// The node an activation entry leaves at its target: a symbolic link to the
/// source, or in direct mode a byte copy of the source file.
pub open spec fn activation_node(src_abs: Seq<char>, src: SpecFsNode, direct: bool) -> Option<
    SpecFsNode,
> {
    if direct {
        match src {
            SpecFsNode::Regular { data } => Some(SpecFsNode::Regular { data }),
            _ => None,
        }
    } else {
        Some(SpecFsNode::Symlink { target: src_abs })
    }
}

/// The filesystem after activating the entries of one package, in order.
/// An entry whose source is missing, or whose direct-mode source is not a
/// regular file, is skipped; otherwise the target's parent directory is
/// ensured and the target is replaced.
pub open spec fn spec_activate_fs(
    fs: Seq<(Seq<char>, SpecFsNode)>,
    entries: Seq<SpecSymlinkEntry>,
    root: Seq<char>,
    env: SpecEnv,
    direct: bool,
) -> Seq<(Seq<char>, SpecFsNode)>
    decreases entries.len(),
{
    if entries.len() == 0 {
        fs
    } else {
        let e = entries[0];
        let src_abs = spec_src_abs(root, e.source);
        let tgt = spec_expand(e.target, env);
        let fs1 = match fs_get(fs, src_abs) {
            None => fs,
            Some(src) => match activation_node(src_abs, src, direct) {
                None => fs,
                Some(node) => fs_set(spec_ensure_dir(fs, parent_of(tgt)), tgt, node),
            },
        };
        spec_activate_fs(fs1, entries.skip(1), root, env, direct)
    }
}

/// The activation targets recorded while activating, in order: one per entry
/// whose source exists and can be linked.
pub open spec fn spec_activate_installed(
    fs: Seq<(Seq<char>, SpecFsNode)>,
    entries: Seq<SpecSymlinkEntry>,
    root: Seq<char>,
    env: SpecEnv,
    direct: bool,
) -> Seq<Seq<char>>
    decreases entries.len(),
{
    if entries.len() == 0 {
        Seq::empty()
    } else {
        let e = entries[0];
        let src_abs = spec_src_abs(root, e.source);
        let tgt = spec_expand(e.target, env);
        let (fs1, here) = match fs_get(fs, src_abs) {
            None => (fs, Seq::<Seq<char>>::empty()),
            Some(src) => match activation_node(src_abs, src, direct) {
                None => (fs, Seq::<Seq<char>>::empty()),
                Some(node) => (fs_set(spec_ensure_dir(fs, parent_of(tgt)), tgt, node), seq![tgt]),
            },
        };
        here + spec_activate_installed(fs1, entries.skip(1), root, env, direct)
    }
}

/// Every entry's raw target expands to an absolute path.
pub open spec fn all_targets_absolute(entries: Seq<SpecSymlinkEntry>, env: SpecEnv) -> bool {
    forall|i: int|
        0 <= i < entries.len() ==> {
            let t = spec_expand((#[trigger] entries[i]).target, env);
            t.len() > 0 && t[0] == '/'
        }
}

impl World {
    /// The index right after the last `/` of `p`, executably.
    pub fn after_last_slash_pub(p: &Vec<char>) -> (r: usize)
        ensures
            r as int == after_last_slash(p@),
            r <= p@.len(),
    {
        let mut i: usize = p.len();
        proof {
            assert(p@.subrange(0, p@.len() as int) =~= p@);
        }
        while i > 0
            invariant
                i <= p@.len(),
                after_last_slash(p@) == after_last_slash(p@.subrange(0, i as int)),
            decreases i,
        {
            proof {
                assert(p@.subrange(0, i as int).last() == p@[i - 1]);
                assert(p@.subrange(0, i as int).drop_last() =~= p@.subrange(0, i as int - 1));
            }
            if p[i - 1] == '/' {
                proof {
                    assert(after_last_slash(p@.subrange(0, i as int)) == i as int);
                }
                return i;
            }
            i = i - 1;
        }
        proof {
            assert(p@.subrange(0, 0) =~= Seq::<char>::empty());
        }
        0
    }

    /// The parent directory of an absolute path.
    fn parent_of_exec(p: &String) -> (r: String)
        ensures
            r@ == parent_of(p@),
    {
        let chars = crate::strutil::str_to_chars(p.as_str());
        proof {
            assert(chars@.subrange(0, chars@.len() as int) =~= chars@);
        }
        let i = Self::after_last_slash_pub(&chars);
        if i > 0 {
            let par = crate::strutil::chars_slice(&chars, 0, i - 1);
            crate::strutil::chars_to_string(&par)
        } else {
            let empty: Vec<char> = Vec::new();
            proof {
                assert(empty@ =~= Seq::<char>::empty());
            }
            crate::strutil::chars_to_string(&empty)
        }
    }

    /// Ensures a directory node at `d` without clobbering anything present.
    fn ensure_dir(&mut self, d: &String)
        ensures
            final(self).fs@ == spec_ensure_dir(old(self).fs@, d@),
            final(self).catalog == old(self).catalog,
            final(self).root == old(self).root,
            final(self).env == old(self).env,
    {
        if !self.fs.contains_path(d) {
            self.fs.set(d.clone(), FsNode::Dir);
        }
    }

    /// The absolute source path of an activation entry.
    fn src_abs(root: &String, source: &String) -> (r: String)
        ensures
            r@ == spec_src_abs(root@, source@),
    {
        let mut out = crate::strutil::str_to_chars(root.as_str());
        out.push('/');
        let s = crate::strutil::str_to_chars(source.as_str());
        crate::strutil::append_chars(&mut out, &s);
        proof {
            assert(out@ =~= spec_src_abs(root@, source@));
        }
        crate::strutil::chars_to_string(&out)
    }

    /// Activates the entries of the package tree at `pkg_root`: for each
    /// entry whose source file exists, ensures the target's parent directory,
    /// replaces whatever stands at the target, and records the target.
    /// Fails, changing nothing, when some target expands to a relative path.
    pub fn create_symlinks(&mut self, entries: &Vec<SymlinkEntry>, pkg_root: &String, direct: bool) -> (r:
        Result<Vec<String>, UhpmError>)
        ensures
            final(self).catalog == old(self).catalog,
            final(self).root == old(self).root,
            final(self).env == old(self).env,
            match r {
                Ok(files) => all_targets_absolute(
                    entries@.map_values(|e: SymlinkEntry| e@),
                    old(self).env@,
                ) && final(self).fs@ == spec_activate_fs(
                    old(self).fs@,
                    entries@.map_values(|e: SymlinkEntry| e@),
                    pkg_root@,
                    old(self).env@,
                    direct,
                ) && files@.map_values(|s: String| s@) == spec_activate_installed(
                    old(self).fs@,
                    entries@.map_values(|e: SymlinkEntry| e@),
                    pkg_root@,
                    old(self).env@,
                    direct,
                ),
                Err(e) => e is Validation && !all_targets_absolute(
                    entries@.map_values(|e2: SymlinkEntry| e2@),
                    old(self).env@,
                ) && final(self).fs@ == old(self).fs@,
            },
    {
        let ghost gentries = entries@.map_values(|e: SymlinkEntry| e@);
        // Validate every expansion first, so failure leaves no effect.
        let mut k: usize = 0;
        while k < entries.len()
            invariant
                k <= entries@.len(),
                gentries == entries@.map_values(|e: SymlinkEntry| e@),
                gentries.len() == entries@.len(),
                forall|i: int|
                    0 <= i < k ==> {
                        let t = spec_expand((#[trigger] gentries[i]).target, self.env@);
                        t.len() > 0 && t[0] == '/'
                    },
                self == old(self),
            decreases entries.len() - k,
        {
            proof {
                assert(gentries[k as int] == entries@[k as int]@);
            }
            match crate::paths::expand_vars(entries[k].target.as_str(), &self.env) {
                Ok(_) => {},
                Err(_) => {
                    return Err(
                        UhpmError::Validation(
                            String::from_str("an activation target is not absolute"),
                        ),
                    );
                },
            }
            k = k + 1;
        }
        let mut files: Vec<String> = Vec::new();
        let mut i: usize = 0;
        proof {
            assert(files@.map_values(|s: String| s@) =~= Seq::<Seq<char>>::empty());
            assert(gentries.skip(0) =~= gentries);
            assert(Seq::<Seq<char>>::empty() + spec_activate_installed(
                self.fs@,
                gentries,
                pkg_root@,
                self.env@,
                direct,
            ) =~= spec_activate_installed(self.fs@, gentries, pkg_root@, self.env@, direct));
        }
        while i < entries.len()
            invariant
                i <= entries@.len(),
                gentries == entries@.map_values(|e: SymlinkEntry| e@),
                gentries.len() == entries@.len(),
                all_targets_absolute(gentries, self.env@),
                self.env == old(self).env,
                self.root == old(self).root,
                self.catalog == old(self).catalog,
                spec_activate_fs(old(self).fs@, gentries, pkg_root@, self.env@, direct)
                    == spec_activate_fs(
                    self.fs@,
                    gentries.skip(i as int),
                    pkg_root@,
                    self.env@,
                    direct,
                ),
                spec_activate_installed(old(self).fs@, gentries, pkg_root@, self.env@, direct)
                    == files@.map_values(|s: String| s@) + spec_activate_installed(
                    self.fs@,
                    gentries.skip(i as int),
                    pkg_root@,
                    self.env@,
                    direct,
                ),
            decreases entries.len() - i,
        {
            let ghost pre_fs = self.fs@;
            let ghost tail = gentries.skip(i as int);
            proof {
                assert(tail.len() == gentries.len() - i);
                assert(tail[0] == gentries[i as int]);
                assert(gentries[i as int] == entries@[i as int]@);
                assert(tail.skip(1) =~= gentries.skip(i as int + 1));
            }
            let e = &entries[i];
            let sa = Self::src_abs(pkg_root, &e.source);
            let tgt = match crate::paths::expand_vars(e.target.as_str(), &self.env) {
                Ok(t) => t,
                Err(_) => {
                    proof {
                        assert(false);
                    }
                    return Err(UhpmError::Validation(String::new()));
                },
            };
            let ghost files_before = files@;
            let src_node: Option<FsNode> = match self.fs.get(&sa) {
                Some(n) => Some(n.clone()),
                None => None,
            };
            match src_node {
                None => {
                    proof {
                        assert(fs_get(pre_fs, spec_src_abs(pkg_root@, tail[0].source)) is None);
                    }
                },
                Some(node) => {
                    let link: Option<FsNode> = if direct {
                        match node {
                            FsNode::Regular { data } => Some(FsNode::Regular { data }),
                            _ => None,
                        }
                    } else {
                        Some(FsNode::Symlink { target: sa.clone() })
                    };
                    match link {
                        None => {
                            proof {
                                assert(activation_node(
                                    spec_src_abs(pkg_root@, tail[0].source),
                                    fs_get(pre_fs, spec_src_abs(pkg_root@, tail[0].source)).unwrap(),
                                    direct,
                                ) is None);
                            }
                        },
                        Some(ln) => {
                            let parent = Self::parent_of_exec(&tgt);
                            self.ensure_dir(&parent);
                            self.fs.set(tgt.clone(), ln);
                            files.push(tgt);
                            proof {
                                assert(files@.map_values(|s: String| s@) =~= files_before.map_values(
                                    |s: String| s@,
                                ).push(spec_expand(tail[0].target, self.env@)));
                            }
                        },
                    }
                },
            }
            proof {
                assert(spec_activate_fs(pre_fs, tail, pkg_root@, self.env@, direct)
                    == spec_activate_fs(
                    self.fs@,
                    tail.skip(1),
                    pkg_root@,
                    self.env@,
                    direct,
                ));
                let here = spec_activate_installed(pre_fs, tail, pkg_root@, self.env@, direct)
                    .subrange(
                    0,
                    spec_activate_installed(pre_fs, tail, pkg_root@, self.env@, direct).len()
                        - spec_activate_installed(
                        self.fs@,
                        tail.skip(1),
                        pkg_root@,
                        self.env@,
                        direct,
                    ).len(),
                );
                assert(files_before.map_values(|s: String| s@) + spec_activate_installed(
                    pre_fs,
                    tail,
                    pkg_root@,
                    self.env@,
                    direct,
                ) =~= files@.map_values(|s: String| s@) + spec_activate_installed(
                    self.fs@,
                    tail.skip(1),
                    pkg_root@,
                    self.env@,
                    direct,
                ));
            }
            i = i + 1;
        }
        proof {
            assert(gentries.skip(gentries.len() as int) =~= Seq::<SpecSymlinkEntry>::empty());
            assert(spec_activate_installed(
                self.fs@,
                Seq::<SpecSymlinkEntry>::empty(),
                pkg_root@,
                self.env@,
                direct,
            ) =~= Seq::<Seq<char>>::empty());
            assert(files@.map_values(|s: String| s@) + Seq::<Seq<char>>::empty()
                =~= files@.map_values(|s: String| s@));
        }
        Ok(files)
    }
}

} // verus!

verus! {

use vstd::utf8::{decode_utf8, valid_utf8};
use crate::archive::SpecArchiveEntry;
use crate::manifest::{SpecPackage, Package};
use crate::symlist::spec_parse_symlist;

// ---------------------------------------------------------------------------
// Deactivation
// ---------------------------------------------------------------------------

/// The filesystem after deactivating recorded paths with the ownership rule:
/// a path is removed only when it is a symbolic link whose target lies
/// inside the owning package tree; anything else is left alone.
pub open spec fn spec_deactivate_recorded(
    fs: Seq<(Seq<char>, SpecFsNode)>,
    paths: Seq<Seq<char>>,
    pkg_root: Seq<char>,
) -> Seq<(Seq<char>, SpecFsNode)>
    decreases paths.len(),
{
    if paths.len() == 0 {
        fs
    } else {
        let p = paths[0];
        let fs1 = match fs_get(fs, p) {
            Some(SpecFsNode::Symlink { target }) => if starts_with(
                target,
                pkg_root + seq!['/'],
            ) {
                fs_drop(fs, p)
            } else {
                fs
            },
            _ => fs,
        };
        spec_deactivate_recorded(fs1, paths.skip(1), pkg_root)
    }
}

/// The filesystem after deactivating the entries of an activation map: a
/// target is removed only when it is a symbolic link pointing exactly at the
/// entry's source inside the package tree.
pub open spec fn spec_deactivate_entries(
    fs: Seq<(Seq<char>, SpecFsNode)>,
    entries: Seq<SpecSymlinkEntry>,
    pkg_root: Seq<char>,
    env: SpecEnv,
) -> Seq<(Seq<char>, SpecFsNode)>
    decreases entries.len(),
{
    if entries.len() == 0 {
        fs
    } else {
        let e = entries[0];
        let src_abs = spec_src_abs(pkg_root, e.source);
        let tgt = spec_expand(e.target, env);
        let fs1 = match fs_get(fs, tgt) {
            Some(SpecFsNode::Symlink { target }) => if target == src_abs {
                fs_drop(fs, tgt)
            } else {
                fs
            },
            _ => fs,
        };
        spec_deactivate_entries(fs1, entries.skip(1), pkg_root, env)
    }
}

impl World {
    /// Deactivates recorded activation paths: removes only symbolic links
    /// back into the owning package tree, leaving foreign files and foreign
    /// links untouched.
    pub fn deactivate_recorded(&mut self, paths: &Vec<String>, pkg_root: &String)
        ensures
            final(self).catalog == old(self).catalog,
            final(self).root == old(self).root,
            final(self).env == old(self).env,
            final(self).fs@ == spec_deactivate_recorded(
                old(self).fs@,
                paths@.map_values(|s: String| s@),
                pkg_root@,
            ),
    {
        let ghost gpaths = paths@.map_values(|s: String| s@);
        let mut prefix = crate::strutil::str_to_chars(pkg_root.as_str());
        prefix.push('/');
        proof {
            assert(prefix@ =~= pkg_root@ + seq!['/']);
            assert(gpaths.skip(0) =~= gpaths);
        }
        let mut i: usize = 0;
        while i < paths.len()
            invariant
                i <= paths@.len(),
                gpaths == paths@.map_values(|s: String| s@),
                gpaths.len() == paths@.len(),
                prefix@ == pkg_root@ + seq!['/'],
                self.catalog == old(self).catalog,
                self.root == old(self).root,
                self.env == old(self).env,
                spec_deactivate_recorded(old(self).fs@, gpaths, pkg_root@)
                    == spec_deactivate_recorded(self.fs@, gpaths.skip(i as int), pkg_root@),
            decreases paths.len() - i,
        {
            let ghost tail = gpaths.skip(i as int);
            proof {
                assert(tail.len() == gpaths.len() - i);
                assert(tail[0] == gpaths[i as int]);
                assert(gpaths[i as int] == paths@[i as int]@);
                assert(tail.skip(1) =~= gpaths.skip(i as int + 1));
            }
            let p = &paths[i];
            let remove = match self.fs.get(p) {
                Some(FsNode::Symlink { target }) => {
                    let tc = crate::strutil::str_to_chars(target.as_str());
                    crate::strutil::chars_start_with(&tc, &prefix)
                },
                _ => false,
            };
            if remove {
                self.fs.remove(p);
            }
            i = i + 1;
        }
        proof {
            assert(gpaths.skip(gpaths.len() as int) =~= Seq::<Seq<char>>::empty());
        }
    }

    /// Deactivates the entries of an activation map: removes only symbolic
    /// links pointing exactly at the entry's packaged source.
    pub fn deactivate_entries(&mut self, entries: &Vec<SymlinkEntry>, pkg_root: &String) -> (r:
        Result<(), UhpmError>)
        ensures
            final(self).catalog == old(self).catalog,
            final(self).root == old(self).root,
            final(self).env == old(self).env,
            match r {
                Ok(()) => all_targets_absolute(
                    entries@.map_values(|e: SymlinkEntry| e@),
                    old(self).env@,
                ) && final(self).fs@ == spec_deactivate_entries(
                    old(self).fs@,
                    entries@.map_values(|e: SymlinkEntry| e@),
                    pkg_root@,
                    old(self).env@,
                ),
                Err(e) => e is Validation && !all_targets_absolute(
                    entries@.map_values(|e2: SymlinkEntry| e2@),
                    old(self).env@,
                ) && final(self).fs@ == old(self).fs@,
            },
    {
        let ghost gentries = entries@.map_values(|e: SymlinkEntry| e@);
        let mut k: usize = 0;
        while k < entries.len()
            invariant
                k <= entries@.len(),
                gentries == entries@.map_values(|e: SymlinkEntry| e@),
                gentries.len() == entries@.len(),
                forall|i: int|
                    0 <= i < k ==> {
                        let t = spec_expand((#[trigger] gentries[i]).target, self.env@);
                        t.len() > 0 && t[0] == '/'
                    },
                self == old(self),
            decreases entries.len() - k,
        {
            proof {
                assert(gentries[k as int] == entries@[k as int]@);
            }
            match crate::paths::expand_vars(entries[k].target.as_str(), &self.env) {
                Ok(_) => {},
                Err(_) => {
                    return Err(
                        UhpmError::Validation(
                            String::from_str("an activation target is not absolute"),
                        ),
                    );
                },
            }
            k = k + 1;
        }
        let mut i: usize = 0;
        proof {
            assert(gentries.skip(0) =~= gentries);
        }
        while i < entries.len()
            invariant
                i <= entries@.len(),
                gentries == entries@.map_values(|e: SymlinkEntry| e@),
                gentries.len() == entries@.len(),
                all_targets_absolute(gentries, self.env@),
                self.catalog == old(self).catalog,
                self.root == old(self).root,
                self.env == old(self).env,
                spec_deactivate_entries(old(self).fs@, gentries, pkg_root@, self.env@)
                    == spec_deactivate_entries(
                    self.fs@,
                    gentries.skip(i as int),
                    pkg_root@,
                    self.env@,
                ),
            decreases entries.len() - i,
        {
            let ghost tail = gentries.skip(i as int);
            proof {
                assert(tail.len() == gentries.len() - i);
                assert(tail[0] == gentries[i as int]);
                assert(gentries[i as int] == entries@[i as int]@);
                assert(tail.skip(1) =~= gentries.skip(i as int + 1));
            }
            let e = &entries[i];
            let sa = Self::src_abs(pkg_root, &e.source);
            let tgt = match crate::paths::expand_vars(e.target.as_str(), &self.env) {
                Ok(t) => t,
                Err(_) => {
                    proof {
                        assert(false);
                    }
                    return Err(UhpmError::Validation(String::new()));
                },
            };
            let remove = match self.fs.get(&tgt) {
                Some(FsNode::Symlink { target }) => *target == sa,
                _ => false,
            };
            if remove {
                self.fs.remove(&tgt);
            }
            i = i + 1;
        }
        proof {
            assert(gentries.skip(gentries.len() as int) =~= Seq::<SpecSymlinkEntry>::empty());
        }
        Ok(())
    }
}

} // verus!

verus! {

use crate::catalog::{
    dep_rows_of, deps_drop_name, file_rows_of, files_drop_key, pkg_row_of, pkgs_drop_key,
    set_current_rows,
};
use crate::fsmodel::fs_drop_tree;

// ---------------------------------------------------------------------------
// Install
// ---------------------------------------------------------------------------

pub open spec fn manifest_name() -> Seq<char> {
    seq!['u', 'h', 'p', '.', 'm', 'a', 'n', 'i', 'f', 'e', 's', 't']
}

pub open spec fn symlist_name() -> Seq<char> {
    seq!['s', 'y', 'm', 'l', 'i', 's', 't']
}

/// The bytes of the first archive entry at `path`.
pub open spec fn entry_data(es: Seq<SpecArchiveEntry>, path: Seq<char>) -> Option<Seq<u8>>
    decreases es.len(),
{
    if es.len() == 0 {
        None
    } else if es[0].path == path && !es[0].is_dir {
        Some(es[0].data)
    } else {
        entry_data(es.skip(1), path)
    }
}

/// The manifest carried by the archive, when present and well formed.
pub open spec fn spec_manifest_of(es: Seq<SpecArchiveEntry>) -> Option<SpecPackage> {
    match entry_data(es, manifest_name()) {
        None => None,
        Some(d) => if valid_utf8(d) {
            crate::manifest::spec_parse_package(decode_utf8(d))
        } else {
            None
        },
    }
}

/// The activation map carried by the archive: an absent map means no
/// entries; a malformed one fails.
pub open spec fn spec_symlist_of(es: Seq<SpecArchiveEntry>) -> Option<Seq<SpecSymlinkEntry>> {
    match entry_data(es, symlist_name()) {
        None => Some(Seq::empty()),
        Some(d) => if valid_utf8(d) {
            spec_parse_symlist(decode_utf8(d))
        } else {
            None
        },
    }
}

/// A valid package name: nonempty, without path separators.
pub open spec fn valid_name(s: Seq<char>) -> bool {
    s.len() > 0 && forall|i: int| 0 <= i < s.len() ==> s[i] != '/'
}

/// Dependency names are pairwise distinct.
pub open spec fn distinct_dep_names(p: SpecPackage) -> bool {
    forall|i: int, j: int|
        0 <= i < j < p.dependencies.len() ==> (#[trigger] p.dependencies[i]).name
            != (#[trigger] p.dependencies[j]).name
}

/// The paths with later duplicates dropped: each path keeps its first
/// occurrence.
pub open spec fn dedup_paths(s: Seq<Seq<char>>) -> Seq<Seq<char>>
    decreases s.len(),
{
    if s.len() == 0 {
        Seq::empty()
    } else {
        let rest = dedup_paths(s.drop_last());
        if rest.contains(s.last()) {
            rest
        } else {
            rest.push(s.last())
        }
    }
}

/// Deduplicated paths are pairwise distinct and drawn from the original.
pub proof fn lemma_dedup_paths(s: Seq<Seq<char>>)
    ensures
        forall|i: int, j: int|
            0 <= i < j < dedup_paths(s).len() ==> #[trigger] dedup_paths(s)[i]
                != #[trigger] dedup_paths(s)[j],
        forall|i: int|
            0 <= i < dedup_paths(s).len() ==> s.contains(#[trigger] dedup_paths(s)[i]),
    decreases s.len(),
{
    if s.len() > 0 {
        lemma_dedup_paths(s.drop_last());
        let d = dedup_paths(s);
        let db = dedup_paths(s.drop_last());
        assert forall|i: int| 0 <= i < d.len() implies s.contains(d[i]) by {
            if i < db.len() {
                assert(s.drop_last().contains(db[i]));
                let k = choose|k: int|
                    0 <= k < s.drop_last().len() && s.drop_last()[k] == db[i];
                assert(s[k] == d[i]);
            } else {
                assert(d[i] == s.last());
                assert(s[s.len() - 1] == s.last());
            }
        }
        assert forall|i: int, j: int| 0 <= i < j < d.len() implies d[i] != d[j] by {
            if j == d.len() - 1 && !db.contains(s.last()) {
                assert(d[i] == db[i]);
                if d[i] == s.last() {
                    assert(db.contains(s.last()));
                }
            }
        }
    }
}

/// Whether a string vector holds `s`.
fn contains_string(v: &Vec<String>, s: &String) -> (r: bool)
    ensures
        r == v@.map_values(|x: String| x@).contains(s@),
{
    let ghost g = v@.map_values(|x: String| x@);
    let mut i: usize = 0;
    while i < v.len()
        invariant
            i <= v@.len(),
            g == v@.map_values(|x: String| x@),
            g.len() == v@.len(),
            forall|j: int| 0 <= j < i ==> g[j] != s@,
        decreases v.len() - i,
    {
        proof {
            assert(g[i as int] == v@[i as int]@);
        }
        if v[i] == *s {
            proof {
                assert(g[i as int] == s@);
            }
            return true;
        }
        i = i + 1;
    }
    proof {
        if g.contains(s@) {
            let k = choose|k: int| 0 <= k < g.len() && g[k] == s@;
        }
    }
    false
}

/// Drops later duplicates, keeping first occurrences.
fn dedup_strings(v: Vec<String>) -> (r: Vec<String>)
    ensures
        r@.map_values(|x: String| x@) == dedup_paths(v@.map_values(|x: String| x@)),
{
    let ghost g = v@.map_values(|x: String| x@);
    let mut out: Vec<String> = Vec::new();
    let mut i: usize = 0;
    proof {
        assert(g.subrange(0, 0) =~= Seq::<Seq<char>>::empty());
        assert(out@.map_values(|x: String| x@) =~= dedup_paths(g.subrange(0, 0)));
    }
    while i < v.len()
        invariant
            i <= v@.len(),
            g == v@.map_values(|x: String| x@),
            g.len() == v@.len(),
            out@.map_values(|x: String| x@) == dedup_paths(g.subrange(0, i as int)),
        decreases v.len() - i,
    {
        proof {
            assert(g[i as int] == v@[i as int]@);
        }
        let ghost before = out@;
        if !contains_string(&out, &v[i]) {
            out.push(v[i].clone());
            proof {
                assert(out@.map_values(|x: String| x@) =~= before.map_values(
                    |x: String| x@,
                ).push(g[i as int]));
            }
        }
        proof {
            let pre = g.subrange(0, i as int);
            let ext = g.subrange(0, i as int + 1);
            assert(ext.drop_last() =~= pre);
            assert(ext.last() == g[i as int]);
            assert(out@.map_values(|x: String| x@) =~= dedup_paths(ext));
        }
        i = i + 1;
    }
    proof {
        assert(g.subrange(0, g.len() as int) =~= g);
    }
    out
}

/// Looks up the bytes of the first archive entry at `path`.
fn find_entry_data(entries: &Vec<crate::archive::ArchiveEntry>, path: &String) -> (r: Option<
    Vec<u8>,
>)
    ensures
        match r {
            Some(d) => entry_data(entries@.map_values(|e: crate::archive::ArchiveEntry| e@), path@)
                == Some(d@),
            None => entry_data(
                entries@.map_values(|e: crate::archive::ArchiveEntry| e@),
                path@,
            ) is None,
        },
{
    let ghost g = entries@.map_values(|e: crate::archive::ArchiveEntry| e@);
    let mut i: usize = 0;
    proof {
        assert(g.skip(0) =~= g);
    }
    while i < entries.len()
        invariant
            i <= entries@.len(),
            g == entries@.map_values(|e: crate::archive::ArchiveEntry| e@),
            g.len() == entries@.len(),
            entry_data(g, path@) == entry_data(g.skip(i as int), path@),
        decreases entries.len() - i,
    {
        let ghost tail = g.skip(i as int);
        proof {
            assert(tail.len() == g.len() - i);
            assert(tail[0] == g[i as int]);
            assert(g[i as int] == entries@[i as int]@);
            assert(tail.skip(1) =~= g.skip(i as int + 1));
        }
        let e = &entries[i];
        if e.path == *path && !e.is_dir {
            let d = e.data.clone();
            proof {
                assert(d@ =~= e.data@);
            }
            return Some(d);
        }
        i = i + 1;
    }
    proof {
        assert(g.skip(g.len() as int) =~= Seq::<SpecArchiveEntry>::empty());
    }
    None
}

/// Checks that a package name is nonempty and free of path separators.
fn check_name(name: &String) -> (r: bool)
    ensures
        r == valid_name(name@),
{
    let v = crate::strutil::str_to_chars(name.as_str());
    if v.len() == 0 {
        return false;
    }
    let mut i: usize = 0;
    while i < v.len()
        invariant
            i <= v@.len(),
            v@ == name@,
            name@.len() > 0,
            forall|j: int| 0 <= j < i ==> name@[j] != '/',
        decreases v.len() - i,
    {
        if v[i] == '/' {
            return false;
        }
        i = i + 1;
    }
    true
}

/// Checks that dependency names are pairwise distinct.
pub fn check_distinct_deps(pkg: &Package) -> (r: bool)
    ensures
        r == distinct_dep_names(pkg@),
{
    let mut i: usize = 0;
    while i < pkg.dependencies.len()
        invariant
            i <= pkg.dependencies@.len(),
            pkg@.dependencies.len() == pkg.dependencies@.len(),
            forall|a: int, b: int|
                0 <= a < b < i ==> (#[trigger] pkg@.dependencies[a]).name
                    != (#[trigger] pkg@.dependencies[b]).name,
        decreases pkg.dependencies.len() - i,
    {
        let mut j: usize = 0;
        while j < i
            invariant
                j <= i < pkg.dependencies@.len(),
                pkg@.dependencies.len() == pkg.dependencies@.len(),
                forall|a: int, b: int|
                    0 <= a < b < i ==> (#[trigger] pkg@.dependencies[a]).name
                        != (#[trigger] pkg@.dependencies[b]).name,
                forall|a: int|
                    0 <= a < j ==> (#[trigger] pkg@.dependencies[a]).name
                        != pkg@.dependencies[i as int].name,
            decreases i - j,
        {
            proof {
                assert(pkg@.dependencies[j as int] == pkg.dependencies@[j as int]@);
                assert(pkg@.dependencies[i as int] == pkg.dependencies@[i as int]@);
            }
            if pkg.dependencies[j].name == pkg.dependencies[i].name {
                return false;
            }
            j = j + 1;
        }
        i = i + 1;
    }
    true
}

/// The filesystem after writing the archive entries under `dir`, in order.
pub open spec fn spec_write_tree(
    fs: Seq<(Seq<char>, SpecFsNode)>,
    es: Seq<SpecArchiveEntry>,
    dir: Seq<char>,
) -> Seq<(Seq<char>, SpecFsNode)>
    decreases es.len(),
{
    if es.len() == 0 {
        fs
    } else {
        let p = dir + seq!['/'] + es[0].path;
        let node = if es[0].is_dir {
            SpecFsNode::Dir
        } else {
            SpecFsNode::Regular { data: es[0].data }
        };
        spec_write_tree(fs_set(fs, p, node), es.skip(1), dir)
    }
}

/// The catalog after recording and electing one manifest.
pub open spec fn spec_install_catalog(
    c: crate::catalog::SpecCatalog,
    p: SpecPackage,
    files: Seq<Seq<char>>,
) -> crate::catalog::SpecCatalog {
    crate::catalog::SpecCatalog {
        packages: set_current_rows(
            pkgs_drop_key(c.packages, p.name, p.version).push(pkg_row_of(p)),
            p.name,
            p.version,
        ),
        files: files_drop_key(c.files, p.name, p.version) + file_rows_of(p, files),
        deps: deps_drop_name(c.deps, p.name) + dep_rows_of(p),
    }
}

/// An archive the coordinator accepts against a catalog: its manifest
/// parses, and either the exact pair is already recorded (success without
/// work) or the archive is installable.
pub open spec fn install_accepted(
    c: crate::catalog::SpecCatalog,
    es: Seq<SpecArchiveEntry>,
    env: SpecEnv,
) -> bool {
    spec_manifest_of(es) is Some && {
        let p = spec_manifest_of(es).unwrap();
        has_pkg(c, p.name, p.version) || installable(es, env)
    }
}

/// An archive the coordinator can install: the manifest and the activation
/// map parse, the name is valid, dependency names are distinct, and every
/// activation target expands to an absolute path.
pub open spec fn installable(es: Seq<SpecArchiveEntry>, env: SpecEnv) -> bool {
    &&& spec_manifest_of(es) is Some
    &&& spec_symlist_of(es) is Some
    &&& valid_name(spec_manifest_of(es).unwrap().name)
    &&& distinct_dep_names(spec_manifest_of(es).unwrap())
    &&& all_targets_absolute(spec_symlist_of(es).unwrap(), env)
}

/// The filesystem after a fresh install of an archive: the old tree of the
/// `(name, version)` replaced by the archive's entries, then the activation
/// map applied.
pub open spec fn spec_install_fs(
    fs: Seq<(Seq<char>, SpecFsNode)>,
    es: Seq<SpecArchiveEntry>,
    root: Seq<char>,
    env: SpecEnv,
    direct: bool,
) -> Seq<(Seq<char>, SpecFsNode)> {
    let p = spec_manifest_of(es).unwrap();
    let sl = spec_symlist_of(es).unwrap();
    let dir = crate::paths::spec_pkg_dir(root, p.name, p.version);
    let fs1 = fs_set(fs_drop_tree(fs, dir), dir, SpecFsNode::Dir);
    let fs2 = spec_write_tree(fs1, es, dir);
    spec_activate_fs(fs2, sl, dir, env, direct)
}

/// The activation paths recorded by a fresh install.
pub open spec fn spec_install_files(
    fs: Seq<(Seq<char>, SpecFsNode)>,
    es: Seq<SpecArchiveEntry>,
    root: Seq<char>,
    env: SpecEnv,
    direct: bool,
) -> Seq<Seq<char>> {
    let p = spec_manifest_of(es).unwrap();
    let sl = spec_symlist_of(es).unwrap();
    let dir = crate::paths::spec_pkg_dir(root, p.name, p.version);
    let fs1 = fs_set(fs_drop_tree(fs, dir), dir, SpecFsNode::Dir);
    let fs2 = spec_write_tree(fs1, es, dir);
    dedup_paths(spec_activate_installed(fs2, sl, dir, env, direct))
}

impl World {
    /// Installs an unpacked archive: parses and validates the manifest and
    /// activation map, returns at once when the exact `(name, version)` is
    /// already recorded, and otherwise writes the package tree, activates
    /// it, records it, and elects it current. A failure changes nothing.
    pub fn install_entries(&mut self, entries: &Vec<crate::archive::ArchiveEntry>, direct: bool)
        -> (r: Result<(), UhpmError>)
        requires
            world_inv(*old(self)),
        ensures
            world_inv(*final(self)),
            final(self).root == old(self).root,
            final(self).env == old(self).env,
            ({
                let ge = entries@.map_values(|e: crate::archive::ArchiveEntry| e@);
                match r {
                    Ok(()) => spec_manifest_of(ge) is Some && {
                        let p = spec_manifest_of(ge).unwrap();
                        if has_pkg(old(self).catalog@, p.name, p.version) {
                            final(self).catalog == old(self).catalog && final(self).fs@ == old(self).fs@
                        } else {
                            installable(ge, old(self).env@) && final(self).catalog@
                                == spec_install_catalog(
                                old(self).catalog@,
                                p,
                                spec_install_files(
                                    old(self).fs@,
                                    ge,
                                    old(self).root@,
                                    old(self).env@,
                                    direct,
                                ),
                            ) && final(self).fs@ == spec_install_fs(
                                old(self).fs@,
                                ge,
                                old(self).root@,
                                old(self).env@,
                                direct,
                            )
                        }
                    },
                    Err(e) => !install_accepted(old(self).catalog@, ge, old(self).env@) && final(self).catalog == old(self).catalog && final(self).fs@ == old(self).fs@ && (e is Parse
                        || e is Validation),
                }
            }),
    {
        let ghost ge = entries@.map_values(|e: crate::archive::ArchiveEntry| e@);
        // Parse the manifest.
        let mname = String::from_str("uhp.manifest");
        proof {
            reveal_strlit("uhp.manifest");
            assert(mname@ =~= manifest_name());
        }
        let mbytes = match find_entry_data(entries, &mname) {
            Some(d) => d,
            None => {
                return Err(UhpmError::Parse(String::from_str("the archive has no manifest")));
            },
        };
        let mtext = match crate::strutil::bytes_to_string(&mbytes) {
            Some(t) => t,
            None => {
                return Err(UhpmError::Parse(String::from_str("the manifest is not UTF-8")));
            },
        };
        let pkg = match crate::manifest::parse_package(&crate::strutil::str_to_chars(
            mtext.as_str(),
        )) {
            Some(p) => p,
            None => {
                return Err(UhpmError::Parse(String::from_str("the manifest is malformed")));
            },
        };
        proof {
            assert(spec_manifest_of(ge) == Some(pkg@));
        }
        // Idempotence: the exact pair is already recorded, before any other
        // validation.
        if self.catalog.contains_version(&pkg.name, &pkg.version) {
            return Ok(());
        }
        // Parse the activation map.
        let sname = String::from_str("symlist");
        proof {
            reveal_strlit("symlist");
            assert(sname@ =~= symlist_name());
        }
        let sl: Vec<SymlinkEntry> = match find_entry_data(entries, &sname) {
            None => Vec::new(),
            Some(d) => {
                let stext = match crate::strutil::bytes_to_string(&d) {
                    Some(t) => t,
                    None => {
                        return Err(
                            UhpmError::Parse(String::from_str("the activation map is not UTF-8")),
                        );
                    },
                };
                match crate::symlist::parse_symlist(stext.as_str()) {
                    Ok(es) => es,
                    Err(_) => {
                        return Err(
                            UhpmError::Parse(String::from_str("the activation map is malformed")),
                        );
                    },
                }
            },
        };
        proof {
            if entry_data(ge, symlist_name()) is None {
                assert(sl@.map_values(|e: SymlinkEntry| e@) =~= Seq::<SpecSymlinkEntry>::empty());
            }
            assert(spec_symlist_of(ge) == Some(sl@.map_values(|e: SymlinkEntry| e@)));
        }
        // Validate.
        if !check_name(&pkg.name) {
            return Err(UhpmError::Validation(String::from_str("the package name is invalid")));
        }
        if !check_distinct_deps(&pkg) {
            return Err(
                UhpmError::Validation(String::from_str("duplicate dependency names")),
            );
        }
        let mut k: usize = 0;
        let ghost gsl = sl@.map_values(|e: SymlinkEntry| e@);
        while k < sl.len()
            invariant
                k <= sl@.len(),
                gsl == sl@.map_values(|e: SymlinkEntry| e@),
                gsl.len() == sl@.len(),
                ge == entries@.map_values(|e: crate::archive::ArchiveEntry| e@),
                world_inv(*old(self)),
                spec_symlist_of(ge) == Some(gsl),
                spec_manifest_of(ge) == Some(pkg@),
                !has_pkg(old(self).catalog@, pkg@.name, pkg@.version),
                valid_name(pkg@.name),
                distinct_dep_names(pkg@),
                forall|i: int|
                    0 <= i < k ==> {
                        let t = spec_expand((#[trigger] gsl[i]).target, self.env@);
                        t.len() > 0 && t[0] == '/'
                    },
                self == old(self),
            decreases sl.len() - k,
        {
            proof {
                assert(gsl[k as int] == sl@[k as int]@);
            }
            match crate::paths::expand_vars(sl[k].target.as_str(), &self.env) {
                Ok(_) => {},
                Err(_) => {
                    return Err(
                        UhpmError::Validation(
                            String::from_str("an activation target is not absolute"),
                        ),
                    );
                },
            }
            k = k + 1;
        }
        // Replace the package tree with the archive's entries.
        let dir = crate::paths::get_pkg_path(&self.root, &pkg.name, &pkg.version);
        self.fs.remove_tree(&dir);
        self.fs.set(dir.clone(), FsNode::Dir);
        let mut i: usize = 0;
        let ghost fs_base = self.fs@;
        proof {
            assert(ge.skip(0) =~= ge);
        }
        while i < entries.len()
            invariant
                i <= entries@.len(),
                ge == entries@.map_values(|e: crate::archive::ArchiveEntry| e@),
                ge.len() == entries@.len(),
                self.catalog == old(self).catalog,
                self.root == old(self).root,
                self.env == old(self).env,
                spec_write_tree(fs_base, ge, dir@) == spec_write_tree(
                    self.fs@,
                    ge.skip(i as int),
                    dir@,
                ),
            decreases entries.len() - i,
        {
            let ghost tail = ge.skip(i as int);
            proof {
                assert(tail.len() == ge.len() - i);
                assert(tail[0] == ge[i as int]);
                assert(ge[i as int] == entries@[i as int]@);
                assert(tail.skip(1) =~= ge.skip(i as int + 1));
            }
            let e = &entries[i];
            let mut p = crate::strutil::str_to_chars(dir.as_str());
            p.push('/');
            let ep = crate::strutil::str_to_chars(e.path.as_str());
            crate::strutil::append_chars(&mut p, &ep);
            proof {
                assert(p@ =~= dir@ + seq!['/'] + tail[0].path);
            }
            let full = crate::strutil::chars_to_string(&p);
            if e.is_dir {
                self.fs.set(full, FsNode::Dir);
            } else {
                let data = e.data.clone();
                proof {
                    assert(data@ =~= e.data@);
                }
                self.fs.set(full, FsNode::Regular { data });
            }
            i = i + 1;
        }
        proof {
            assert(ge.skip(ge.len() as int) =~= Seq::<SpecArchiveEntry>::empty());
        }
        // Activate and record.
        let files = match self.create_symlinks(&sl, &dir, direct) {
            Ok(f) => f,
            Err(_) => {
                proof {
                    assert(false);
                }
                return Err(UhpmError::Validation(String::new()));
            },
        };
        let files = dedup_strings(files);
        proof {
            lemma_dedup_paths(
                spec_activate_installed(
                    spec_write_tree(fs_base, ge, dir@),
                    gsl,
                    dir@,
                    self.env@,
                    direct,
                ),
            );
            assert(forall|a: int, b: int|
                0 <= a < b < files@.len() ==> (#[trigger] files@[a])@ != (#[trigger] files@[b])@)
                by {
                assert(forall|a: int|
                    0 <= a < files@.len() ==> files@.map_values(|x: String| x@)[a] == (
                    #[trigger] files@[a])@);
            }
        }
        self.catalog.add_package_full(&pkg, &files);
        match self.catalog.set_current_version(&pkg.name, &pkg.version) {
            Ok(()) => {},
            Err(_) => {
                proof {
                    let rows = self.catalog@.packages;
                    assert(rows[rows.len() - 1] == pkg_row_of(pkg@));
                    assert((#[trigger] rows[rows.len() - 1]).name == pkg@.name
                        && rows[rows.len() - 1].version == pkg@.version);
                    assert(has_pkg(self.catalog@, pkg@.name, pkg@.version));
                    assert(false);
                }
                return Err(UhpmError::Catalog(String::new()));
            },
        }
        Ok(())
    }
}

} // verus!

verus! {

use crate::catalog::{files_paths_key, SpecCatalog, SpecPackageRow};
use crate::version::{vlt, SpecVersion, Version};

// ---------------------------------------------------------------------------
// Switch
// ---------------------------------------------------------------------------

/// The current row of `name`, unique under the catalog invariant.
pub open spec fn current_row(c: SpecCatalog, name: Seq<char>) -> Option<SpecPackageRow> {
    if exists|i: int|
        0 <= i < c.packages.len() && (#[trigger] c.packages[i]).name == name
            && c.packages[i].current {
        Some(
            c.packages[
                choose|i: int|
                    0 <= i < c.packages.len() && (#[trigger] c.packages[i]).name == name
                        && c.packages[i].current
            ],
        )
    } else {
        None
    }
}

/// Under the invariant, every current row of `name` is the current row.
pub proof fn lemma_current_unique(c: SpecCatalog, name: Seq<char>, i: int)
    requires
        cat_inv(c),
        0 <= i < c.packages.len(),
        c.packages[i].name == name,
        c.packages[i].current,
    ensures
        current_row(c, name) == Some(c.packages[i]),
{
    let k = choose|k: int|
        0 <= k < c.packages.len() && (#[trigger] c.packages[k]).name == name
            && c.packages[k].current;
    if k != i {
        if k < i {
            assert(!(c.packages[k].name == c.packages[i].name && c.packages[k].current
                && c.packages[i].current));
        } else {
            assert(!(c.packages[i].name == c.packages[k].name && c.packages[i].current
                && c.packages[k].current));
        }
    }
}

/// The activation map stored in the package tree at `dir`: an absent or
/// non-file map means no entries; a malformed one fails.
pub open spec fn spec_fs_symlist(fs: Seq<(Seq<char>, SpecFsNode)>, dir: Seq<char>) -> Option<
    Seq<SpecSymlinkEntry>,
> {
    match fs_get(fs, dir + seq!['/'] + symlist_name()) {
        Some(SpecFsNode::Regular { data }) => if valid_utf8(data) {
            spec_parse_symlist(decode_utf8(data))
        } else {
            None
        },
        _ => Some(Seq::empty()),
    }
}

/// The current version's activation map is readable: none is current, or the
/// map in its tree parses.
pub open spec fn cur_map_readable(
    fs: Seq<(Seq<char>, SpecFsNode)>,
    c: SpecCatalog,
    root: Seq<char>,
    name: Seq<char>,
) -> bool {
    match current_row(c, name) {
        None => true,
        Some(row) => spec_fs_symlist(fs, crate::paths::spec_pkg_dir(root, name, row.version))
            is Some,
    }
}

/// Every target of the current version's activation map expands to an
/// absolute path (vacuous when none is current or the map is unreadable).
pub open spec fn cur_map_absolute(
    fs: Seq<(Seq<char>, SpecFsNode)>,
    c: SpecCatalog,
    root: Seq<char>,
    name: Seq<char>,
    env: SpecEnv,
) -> bool {
    match current_row(c, name) {
        None => true,
        Some(row) => {
            match spec_fs_symlist(fs, crate::paths::spec_pkg_dir(root, name, row.version)) {
                Some(es) => all_targets_absolute(es, env),
                None => true,
            }
        },
    }
}

/// The filesystem after deactivating whatever version of `name` is current:
/// untouched when none is, or when its activation map is unreadable.
pub open spec fn spec_switch_mid(
    fs: Seq<(Seq<char>, SpecFsNode)>,
    c: SpecCatalog,
    root: Seq<char>,
    name: Seq<char>,
    env: SpecEnv,
) -> Seq<(Seq<char>, SpecFsNode)> {
    match current_row(c, name) {
        None => fs,
        Some(row) => {
            let dir = crate::paths::spec_pkg_dir(root, name, row.version);
            match spec_fs_symlist(fs, dir) {
                Some(es) => spec_deactivate_entries(fs, es, dir, env),
                None => fs,
            }
        },
    }
}

impl World {
    /// Reads the activation map of the package tree at `dir` from the model.
    fn read_fs_symlist(&self, dir: &String) -> (r: Result<Vec<SymlinkEntry>, UhpmError>)
        ensures
            match r {
                Ok(es) => spec_fs_symlist(self.fs@, dir@) == Some(
                    es@.map_values(|e: SymlinkEntry| e@),
                ),
                Err(e) => spec_fs_symlist(self.fs@, dir@) is None && e is Parse,
            },
    {
        let mut p = crate::strutil::str_to_chars(dir.as_str());
        p.push('/');
        let sn = crate::strutil::str_to_chars("symlist");
        proof {
            reveal_strlit("symlist");
            assert(sn@ =~= symlist_name());
        }
        crate::strutil::append_chars(&mut p, &sn);
        proof {
            assert(p@ =~= dir@ + seq!['/'] + symlist_name());
        }
        let path = crate::strutil::chars_to_string(&p);
        let data: Option<Vec<u8>> = match self.fs.get(&path) {
            Some(FsNode::Regular { data }) => {
                let d = data.clone();
                proof {
                    assert(d@ =~= data@);
                }
                Some(d)
            },
            _ => None,
        };
        match data {
            None => {
                let empty: Vec<SymlinkEntry> = Vec::new();
                proof {
                    assert(empty@.map_values(|e: SymlinkEntry| e@)
                        =~= Seq::<SpecSymlinkEntry>::empty());
                }
                Ok(empty)
            },
            Some(d) => {
                let text = match crate::strutil::bytes_to_string(&d) {
                    Some(t) => t,
                    None => {
                        return Err(
                            UhpmError::Parse(String::from_str("the activation map is not UTF-8")),
                        );
                    },
                };
                match crate::symlist::parse_symlist(text.as_str()) {
                    Ok(es) => Ok(es),
                    Err(_) => Err(
                        UhpmError::Parse(String::from_str("the activation map is malformed")),
                    ),
                }
            },
        }
    }

    /// Switches the current version of `name`: deactivates the current
    /// version's links, requires the target tree to be unpacked, activates
    /// it, and elects it current.
    pub fn switch_version(&mut self, name: &String, version: &Version, direct: bool) -> (r: Result<
        (),
        UhpmError,
    >)
        requires
            world_inv(*old(self)),
        ensures
            world_inv(*final(self)),
            final(self).root == old(self).root,
            final(self).env == old(self).env,
            ({
                let mid = spec_switch_mid(
                    old(self).fs@,
                    old(self).catalog@,
                    old(self).root@,
                    name@,
                    old(self).env@,
                );
                let new_dir = crate::paths::spec_pkg_dir(old(self).root@, name@, version@);
                let readable = cur_map_readable(
                    old(self).fs@,
                    old(self).catalog@,
                    old(self).root@,
                    name@,
                );
                let absolute = cur_map_absolute(
                    old(self).fs@,
                    old(self).catalog@,
                    old(self).root@,
                    name@,
                    old(self).env@,
                );
                let newsl = spec_fs_symlist(mid, new_dir);
                match r {
                    Ok(()) => readable && absolute && has_pkg(old(self).catalog@, name@, version@)
                        && final(self).catalog@.packages == set_current_rows(
                        old(self).catalog@.packages,
                        name@,
                        version@,
                    ) && final(self).catalog@.files == old(self).catalog@.files && final(self).catalog@.deps == old(self).catalog@.deps && fs_get(mid, new_dir) is Some
                        && newsl is Some && all_targets_absolute(newsl.unwrap(), old(self).env@)
                        && final(self).fs@ == spec_activate_fs(
                        mid,
                        newsl.unwrap(),
                        new_dir,
                        old(self).env@,
                        direct,
                    ),
                    Err(e) => {
                        &&& final(self).catalog@ == old(self).catalog@
                        &&& !(readable && absolute && fs_get(mid, new_dir) is Some
                            && newsl is Some && all_targets_absolute(
                            newsl.unwrap(),
                            old(self).env@,
                        ) && has_pkg(old(self).catalog@, name@, version@))
                        &&& (e is Parse || e is Validation || e is MissingPackageDir
                            || e is NotFound)
                        &&& !readable ==> (e is Parse && final(self).fs@ == old(self).fs@)
                        &&& (readable && !absolute) ==> (e is Validation && final(self).fs@ == old(
                            self,
                        ).fs@)
                        &&& (readable && absolute && fs_get(mid, new_dir) is None) ==> (
                        e is MissingPackageDir && final(self).fs@ == mid)
                        &&& (readable && absolute && fs_get(mid, new_dir) is Some
                            && newsl is None) ==> (e is Parse && final(self).fs@ == mid)
                        &&& (readable && absolute && fs_get(mid, new_dir) is Some && newsl is Some
                            && !all_targets_absolute(newsl.unwrap(), old(self).env@)) ==> (
                        e is Validation && final(self).fs@ == mid)
                        &&& (readable && absolute && fs_get(mid, new_dir) is Some && newsl is Some
                            && all_targets_absolute(newsl.unwrap(), old(self).env@) && !has_pkg(
                            old(self).catalog@,
                            name@,
                            version@,
                        )) ==> (e is NotFound && final(self).fs@ == spec_activate_fs(
                            mid,
                            newsl.unwrap(),
                            new_dir,
                            old(self).env@,
                            direct,
                        ))
                    },
                }
            }),
    {
        let cur = self.catalog.get_current_package(name);
        match cur {
            Some(cur_pkg) => {
                proof {
                    let w = choose|i: int|
                        0 <= i < old(self).catalog@.packages.len() && (#[trigger] old(self).catalog@.packages[i]).name == name@ && old(self).catalog@.packages[i].current && old(self).catalog@.packages[i].version
                            == cur_pkg@.version && old(self).catalog@.packages[i].author
                            == cur_pkg@.author && old(self).catalog@.packages[i].src == cur_pkg@.src
                            && old(self).catalog@.packages[i].checksum == cur_pkg@.checksum;
                    lemma_current_unique(old(self).catalog@, name@, w);
                }
                let cur_dir = crate::paths::get_pkg_path(&self.root, name, &cur_pkg.version);
                let entries = match self.read_fs_symlist(&cur_dir) {
                    Ok(es) => es,
                    Err(e) => {
                        return Err(e);
                    },
                };
                match self.deactivate_entries(&entries, &cur_dir) {
                    Ok(()) => {},
                    Err(e) => {
                        return Err(e);
                    },
                }
            },
            None => {
                proof {
                    if current_row(old(self).catalog@, name@) is Some {
                        let k = choose|i: int|
                            0 <= i < old(self).catalog@.packages.len() && (#[trigger] old(self).catalog@.packages[i]).name == name@ && old(self).catalog@.packages[i].current;
                        assert(false);
                    }
                }
            },
        }
        let ghost mid = self.fs@;
        let new_dir = crate::paths::get_pkg_path(&self.root, name, version);
        if !self.fs.contains_path(&new_dir) {
            return Err(
                UhpmError::MissingPackageDir(String::from_str("the target tree is not unpacked")),
            );
        }
        let new_entries = match self.read_fs_symlist(&new_dir) {
            Ok(es) => es,
            Err(e) => {
                return Err(e);
            },
        };
        match self.create_symlinks(&new_entries, &new_dir, direct) {
            Ok(_) => {},
            Err(e) => {
                return Err(e);
            },
        }
        let ghost gmid = spec_switch_mid(
            old(self).fs@,
            old(self).catalog@,
            old(self).root@,
            name@,
            old(self).env@,
        );
        proof {
            assert(mid == gmid);
            assert(fs_get(gmid, new_dir@) is Some);
            assert(spec_fs_symlist(gmid, new_dir@) is Some);
            assert(self.fs@ == spec_activate_fs(
                gmid,
                spec_fs_symlist(gmid, new_dir@).unwrap(),
                new_dir@,
                old(self).env@,
                direct,
            ));
        }
        match self.catalog.set_current_version(name, version) {
            Ok(()) => {
                proof {
                    assert(has_pkg(old(self).catalog@, name@, version@));
                    assert(self.catalog@.packages == set_current_rows(
                        old(self).catalog@.packages,
                        name@,
                        version@,
                    ));
                    assert(self.catalog@.files == old(self).catalog@.files);
                    assert(self.catalog@.deps == old(self).catalog@.deps);
                    assert(world_inv(*self));
                    assert(self.root == old(self).root);
                    assert(self.env == old(self).env);
                }
                Ok(())
            },
            Err(e) => {
                proof {
                    assert(self.catalog@ == old(self).catalog@);
                    assert(!has_pkg(old(self).catalog@, name@, version@));
                    assert(e is NotFound);
                }
                Err(e)
            },
        }
    }
}

} // verus!

verus! {

// ---------------------------------------------------------------------------
// Remove
// ---------------------------------------------------------------------------

/// The filesystem after re-activating the remaining version `v` of `name`
/// during a remove: skipped when its tree is gone, its activation map is
/// unreadable, or some target expands to a relative path.
pub open spec fn spec_reactivate(
    fs: Seq<(Seq<char>, SpecFsNode)>,
    root: Seq<char>,
    name: Seq<char>,
    v: SpecVersion,
    env: SpecEnv,
    direct: bool,
) -> Seq<(Seq<char>, SpecFsNode)> {
    let dir = crate::paths::spec_pkg_dir(root, name, v);
    if fs_get(fs, dir) is Some {
        match spec_fs_symlist(fs, dir) {
            Some(es) => if all_targets_absolute(es, env) {
                spec_activate_fs(fs, es, dir, env, direct)
            } else {
                fs
            },
            None => fs,
        }
    } else {
        fs
    }
}

impl World {
    /// Removes one version: deletes its package tree, deactivates its
    /// recorded activation paths under the ownership rule, and deletes its
    /// catalog rows.
    pub fn remove_by_version(&mut self, name: &String, version: &Version) -> (r: Result<
        (),
        UhpmError,
    >)
        requires
            world_inv(*old(self)),
        ensures
            world_inv(*final(self)),
            final(self).root == old(self).root,
            final(self).env == old(self).env,
            r is Ok,
            ({
                let dir = crate::paths::spec_pkg_dir(old(self).root@, name@, version@);
                final(self).catalog@.packages == pkgs_drop_key(
                    old(self).catalog@.packages,
                    name@,
                    version@,
                ) && final(self).catalog@.files == files_drop_key(
                    old(self).catalog@.files,
                    name@,
                    version@,
                ) && final(self).catalog@.deps == deps_drop_name(old(self).catalog@.deps, name@)
                    && final(self).fs@ == spec_deactivate_recorded(
                    fs_drop_tree(old(self).fs@, dir),
                    files_paths_key(old(self).catalog@.files, name@, version@),
                    dir,
                )
            }),
    {
        let dir = crate::paths::get_pkg_path(&self.root, name, version);
        self.fs.remove_tree(&dir);
        let files = self.catalog.get_installed_files(name, version);
        self.deactivate_recorded(&files, &dir);
        self.catalog.remove_package_version(name, version);
        Ok(())
    }

    /// Removes a package by name: removes its current version, then, when
    /// other versions of the name remain, elects the greatest remaining
    /// version current and re-activates it. Removing an uninstalled name
    /// succeeds without effect.
    pub fn remove(&mut self, name: &String, direct: bool) -> (r: Result<(), UhpmError>)
        requires
            world_inv(*old(self)),
        ensures
            world_inv(*final(self)),
            final(self).root == old(self).root,
            final(self).env == old(self).env,
            r is Ok,
            current_row(old(self).catalog@, name@) is None ==> final(self).catalog == old(
                self,
            ).catalog && final(self).fs@ == old(self).fs@,
            ({
                // Removing the current version deletes its rows and its
                // tree, deactivates its recorded links under the ownership
                // rule, and, when other versions of the name remain, elects
                // the greatest remaining version current and re-activates it.
                match current_row(old(self).catalog@, name@) {
                    None => true,
                    Some(row) => {
                        let dir = crate::paths::spec_pkg_dir(old(self).root@, name@, row.version);
                        let remaining = pkgs_drop_key(
                            old(self).catalog@.packages,
                            name@,
                            row.version,
                        );
                        let fs1 = spec_deactivate_recorded(
                            fs_drop_tree(old(self).fs@, dir),
                            files_paths_key(old(self).catalog@.files, name@, row.version),
                            dir,
                        );
                        &&& final(self).catalog@.files == files_drop_key(
                            old(self).catalog@.files,
                            name@,
                            row.version,
                        )
                        &&& final(self).catalog@.deps == deps_drop_name(
                            old(self).catalog@.deps,
                            name@,
                        )
                        &&& if exists|i: int|
                            0 <= i < remaining.len() && (#[trigger] remaining[i]).name == name@ {
                            exists|maxv: SpecVersion|
                                {
                                    &&& (exists|i: int|
                                        0 <= i < remaining.len() && (#[trigger] remaining[i]).name
                                            == name@ && remaining[i].version == maxv)
                                    &&& (forall|i: int|
                                        0 <= i < remaining.len() && (#[trigger] remaining[i]).name
                                            == name@ ==> !vlt(maxv, remaining[i].version))
                                    &&& final(self).catalog@.packages == set_current_rows(
                                        remaining,
                                        name@,
                                        maxv,
                                    )
                                    &&& final(self).fs@ == spec_reactivate(
                                        fs1,
                                        old(self).root@,
                                        name@,
                                        maxv,
                                        old(self).env@,
                                        direct,
                                    )
                                }
                        } else {
                            final(self).catalog@.packages == remaining && final(self).fs@ == fs1
                        }
                    },
                }
            }),
    {
        let cur = match self.catalog.get_package_version(name) {
            Some(v) => v,
            None => {
                proof {
                    if current_row(old(self).catalog@, name@) is Some {
                        let k = choose|i: int|
                            0 <= i < old(self).catalog@.packages.len() && (#[trigger] old(
                                self,
                            ).catalog@.packages[i]).name == name@ && old(
                                self,
                            ).catalog@.packages[i].current;
                        assert(false);
                    }
                }
                return Ok(());
            },
        };
        proof {
            let w = choose|i: int|
                0 <= i < old(self).catalog@.packages.len() && (#[trigger] old(
                    self,
                ).catalog@.packages[i]).name == name@ && old(self).catalog@.packages[i].current
                    && old(self).catalog@.packages[i].version == cur@;
            lemma_current_unique(old(self).catalog@, name@, w);
        }
        match self.remove_by_version(name, &cur) {
            Ok(()) => {},
            Err(e) => {
                return Err(e);
            },
        }
        let last = match self.catalog.get_latest_package_version(name) {
            Some(p) => p,
            None => {
                return Ok(());
            },
        };
        // Elect the greatest remaining version current; its row is present.
        match self.catalog.set_current_version(name, &last.version) {
            Ok(()) => {},
            Err(_) => {
                proof {
                    let k = choose|i: int|
                        0 <= i < self.catalog@.packages.len() && (#[trigger] self.catalog@.packages[i]).name
                            == name@ && self.catalog@.packages[i].version == last@.version
                            && self.catalog@.packages[i].author == last@.author
                            && self.catalog@.packages[i].src == last@.src
                            && self.catalog@.packages[i].checksum == last@.checksum;
                    assert(has_pkg(self.catalog@, name@, last@.version));
                    assert(false);
                }
                return Err(UhpmError::Catalog(String::new()));
            },
        }
        // Re-activate it, best effort: a missing tree or unreadable map is
        // logged by the caller and skipped here.
        let dir = crate::paths::get_pkg_path(&self.root, name, &last.version);
        if self.fs.contains_path(&dir) {
            match self.read_fs_symlist(&dir) {
                Ok(entries) => {
                    match self.create_symlinks(&entries, &dir, direct) {
                        Ok(_) => {},
                        Err(_) => {},
                    }
                },
                Err(_) => {},
            }
        }
        Ok(())
    }
}

// ---------------------------------------------------------------------------
// Update
// ---------------------------------------------------------------------------

/// The repository rows offering a strictly newer version of `name` than
/// `installed`: rows with the name, a version in the grammar, and a greater
/// precedence.
pub open spec fn offers_newer(
    rows: Seq<(Seq<char>, Seq<char>, Seq<char>)>,
    name: Seq<char>,
    installed: SpecVersion,
) -> bool {
    exists|i: int|
        0 <= i < rows.len() && (#[trigger] rows[i]).0 == name && {
            match crate::version::spec_parse_version(rows[i].1) {
                Some(v) => vlt(installed, v),
                None => false,
            }
        }
}

/// Picks the download URL of the greatest repository version of `name`
/// strictly newer than the installed one; reports that no newer version
/// exists otherwise. Rows whose version text is not in the grammar are
/// ignored.
pub fn check_for_update(
    name: &String,
    installed: &Version,
    index: &Vec<(String, String, String)>,
) -> (r: Result<String, UhpmError>)
    ensures
        ({
            let rows = index@.map_values(|t: (String, String, String)| (t.0@, t.1@, t.2@));
            match r {
                Ok(url) => offers_newer(rows, name@, installed@) && exists|i: int|
                    0 <= i < rows.len() && (#[trigger] rows[i]).0 == name@ && rows[i].2 == url@ && {
                        match crate::version::spec_parse_version(rows[i].1) {
                            Some(v) => vlt(installed@, v) && (forall|j: int|
                                0 <= j < rows.len() && (#[trigger] rows[j]).0 == name@ ==> {
                                    match crate::version::spec_parse_version(rows[j].1) {
                                        Some(w) => !vlt(v, w),
                                        None => true,
                                    }
                                }),
                            None => false,
                        }
                    },
                Err(e) => e is NoNewVersion && !offers_newer(rows, name@, installed@),
            }
        }),
{
    let ghost rows = index@.map_values(|t: (String, String, String)| (t.0@, t.1@, t.2@));
    let mut best: usize = 0;
    let mut best_ver: Option<Version> = None;
    let mut i: usize = 0;
    while i < index.len()
        invariant
            i <= index@.len(),
            rows == index@.map_values(|t: (String, String, String)| (t.0@, t.1@, t.2@)),
            rows.len() == index@.len(),
            match best_ver {
                Some(bv) => best < i && rows[best as int].0 == name@
                    && crate::version::spec_parse_version(rows[best as int].1) == Some(bv@) && vlt(
                    installed@,
                    bv@,
                ) && (forall|j: int|
                    0 <= j < i && (#[trigger] rows[j]).0 == name@ ==> {
                        match crate::version::spec_parse_version(rows[j].1) {
                            Some(w) => !vlt(bv@, w),
                            None => true,
                        }
                    }),
                None => forall|j: int|
                    0 <= j < i ==> !((#[trigger] rows[j]).0 == name@ && {
                        match crate::version::spec_parse_version(rows[j].1) {
                            Some(w) => vlt(installed@, w),
                            None => false,
                        }
                    }),
            },
        decreases index.len() - i,
    {
        proof {
            assert(rows[i as int] == (index@[i as int].0@, index@[i as int].1@,
            index@[i as int].2@));
        }
        let row = &index[i];
        if row.0 == *name {
            match crate::version::parse_version_str(row.1.as_str()) {
                Some(v) => {
                    let newer_than_installed = installed.lt(&v);
                    let improves = match &best_ver {
                        Some(bv) => bv.lt(&v),
                        None => true,
                    };
                    if newer_than_installed && improves {
                        proof {
                            crate::version::lemma_vlt_irrefl(v@);
                            if best_ver is Some {
                                let bv = best_ver.unwrap();
                                assert forall|j: int|
                                    0 <= j < i && (#[trigger] rows[j]).0 == name@ implies {
                                    match crate::version::spec_parse_version(rows[j].1) {
                                        Some(w) => !vlt(v@, w),
                                        None => true,
                                    }
                                } by {
                                    match crate::version::spec_parse_version(rows[j].1) {
                                        Some(w) => {
                                            if vlt(v@, w) {
                                                crate::version::lemma_vlt_trans(bv@, v@, w);
                                            }
                                        },
                                        None => {},
                                    }
                                }
                            } else {
                                assert forall|j: int|
                                    0 <= j < i && (#[trigger] rows[j]).0 == name@ implies {
                                    match crate::version::spec_parse_version(rows[j].1) {
                                        Some(w) => !vlt(v@, w),
                                        None => true,
                                    }
                                } by {
                                    match crate::version::spec_parse_version(rows[j].1) {
                                        Some(w) => {
                                            if vlt(v@, w) {
                                                crate::version::lemma_vlt_trans(installed@, v@, w);
                                                assert(vlt(installed@, w));
                                                assert(false);
                                            }
                                        },
                                        None => {},
                                    }
                                }
                            }
                        }
                        best = i;
                        best_ver = Some(v);
                    } else {
                        proof {
                            if best_ver is Some {
                                let bv = best_ver.unwrap();
                                if vlt(bv@, v@) {
                                    crate::version::lemma_vlt_trans(installed@, bv@, v@);
                                    assert(false);
                                }
                            }
                        }
                    }
                },
                None => {},
            }
        }
        i = i + 1;
    }
    match best_ver {
        Some(_) => Ok(index[best].2.clone()),
        None => Err(
            UhpmError::NoNewVersion(name.clone()),
        ),
    }
}

} // verus!

verus! {

// ---------------------------------------------------------------------------
// Activation links are owned
// ---------------------------------------------------------------------------

/// The node at `p` is a symbolic link into the package tree at `root`.
pub open spec fn owned_link(n: Option<SpecFsNode>, root: Seq<char>) -> bool {
    match n {
        Some(SpecFsNode::Symlink { target }) => starts_with(target, root + seq!['/']),
        _ => false,
    }
}

/// Activation in link mode never disturbs an owned link that is already in
/// place: it only writes further owned links, and directory nodes at paths
/// that hold nothing.
proof fn lemma_activate_preserves_owned(
    fs: Seq<(Seq<char>, SpecFsNode)>,
    entries: Seq<SpecSymlinkEntry>,
    root: Seq<char>,
    env: SpecEnv,
    p: Seq<char>,
)
    requires
        owned_link(fs_get(fs, p), root),
    ensures
        owned_link(fs_get(spec_activate_fs(fs, entries, root, env, false), p), root),
    decreases entries.len(),
{
    if entries.len() > 0 {
        let e = entries[0];
        let src_abs = spec_src_abs(root, e.source);
        let tgt = spec_expand(e.target, env);
        match fs_get(fs, src_abs) {
            None => {
                lemma_activate_preserves_owned(fs, entries.skip(1), root, env, p);
            },
            Some(src) => {
                let node = SpecFsNode::Symlink { target: src_abs };
                let ensured = spec_ensure_dir(fs, parent_of(tgt));
                let fs1 = fs_set(ensured, tgt, node);
                crate::fsmodel::lemma_fs_get_set(ensured, tgt, node, p);
                if p == tgt {
                    assert(src_abs =~= (root + seq!['/']) + e.source);
                    assert((root + seq!['/']) + e.source =~= root + seq!['/'] + e.source);
                    assert(src_abs.subrange(0, (root + seq!['/']).len() as int) =~= root
                        + seq!['/']);
                    assert(starts_with(src_abs, root + seq!['/']));
                } else {
                    if fs_get(fs, parent_of(tgt)) is None {
                        crate::fsmodel::lemma_fs_get_set(fs, parent_of(tgt), SpecFsNode::Dir, p);
                        // A directory lands only where nothing stood, never
                        // on an owned link.
                        assert(p != parent_of(tgt));
                        assert(fs_get(ensured, p) == fs_get(fs, p));
                    }
                }
                assert(owned_link(fs_get(fs1, p), root));
                lemma_activate_preserves_owned(fs1, entries.skip(1), root, env, p);
            },
        }
    }
}

/// Every path recorded while activating a package in link mode ends, when
/// activation finishes, as a symbolic link into the owning package tree: no
/// link of a package ever references another package's tree.
pub proof fn lemma_activation_links_owned(
    fs: Seq<(Seq<char>, SpecFsNode)>,
    entries: Seq<SpecSymlinkEntry>,
    root: Seq<char>,
    env: SpecEnv,
    k: int,
)
    requires
        0 <= k < spec_activate_installed(fs, entries, root, env, false).len(),
    ensures
        owned_link(
            fs_get(
                spec_activate_fs(fs, entries, root, env, false),
                spec_activate_installed(fs, entries, root, env, false)[k],
            ),
            root,
        ),
    decreases entries.len(),
{
    if entries.len() > 0 {
        let e = entries[0];
        let src_abs = spec_src_abs(root, e.source);
        let tgt = spec_expand(e.target, env);
        match fs_get(fs, src_abs) {
            None => {
                let tail = spec_activate_installed(fs, entries.skip(1), root, env, false);
                assert(spec_activate_installed(fs, entries, root, env, false)
                    =~= Seq::<Seq<char>>::empty() + tail);
                assert(spec_activate_installed(fs, entries, root, env, false)[k] == tail[k]);
                lemma_activation_links_owned(fs, entries.skip(1), root, env, k);
            },
            Some(src) => {
                let node = SpecFsNode::Symlink { target: src_abs };
                let ensured = spec_ensure_dir(fs, parent_of(tgt));
                let fs1 = fs_set(ensured, tgt, node);
                let installed = spec_activate_installed(fs, entries, root, env, false);
                let tail = spec_activate_installed(fs1, entries.skip(1), root, env, false);
                assert(installed =~= seq![tgt] + tail);
                if k == 0 {
                    assert(installed[0] == tgt);
                    crate::fsmodel::lemma_fs_get_set(ensured, tgt, node, tgt);
                    assert(src_abs =~= (root + seq!['/']) + e.source);
                    assert(src_abs.subrange(0, (root + seq!['/']).len() as int) =~= root
                        + seq!['/']);
                    assert(starts_with(src_abs, root + seq!['/']));
                    assert(owned_link(fs_get(fs1, tgt), root));
                    lemma_activate_preserves_owned(fs1, entries.skip(1), root, env, tgt);
                } else {
                    assert(installed[k] == tail[k - 1]);
                    lemma_activation_links_owned(fs1, entries.skip(1), root, env, k - 1);
                }
            },
        }
    }
}

} // verus!

verus! {

/// The names among the installed pairs for which the index offers a
/// strictly newer version, in order.
pub open spec fn spec_names_with_updates(
    installed: Seq<(Seq<char>, SpecVersion)>,
    rows: Seq<(Seq<char>, Seq<char>, Seq<char>)>,
) -> Seq<Seq<char>>
    decreases installed.len(),
{
    if installed.len() == 0 {
        Seq::empty()
    } else {
        let rest = spec_names_with_updates(installed.skip(1), rows);
        if offers_newer(rows, installed[0].0, installed[0].1) {
            seq![installed[0].0] + rest
        } else {
            rest
        }
    }
}

/// `m` is the greatest version the index offers for `name`, among the rows
/// whose version text lies in the grammar.
pub open spec fn is_max_offer(
    rows: Seq<(Seq<char>, Seq<char>, Seq<char>)>,
    name: Seq<char>,
    m: SpecVersion,
) -> bool {
    &&& exists|j: int|
        0 <= j < rows.len() && (#[trigger] rows[j]).0 == name
            && crate::version::spec_parse_version(rows[j].1) == Some(m)
    &&& forall|j: int|
        0 <= j < rows.len() && (#[trigger] rows[j]).0 == name ==> {
            match crate::version::spec_parse_version(rows[j].1) {
                Some(w) => !vlt(m, w),
                None => true,
            }
        }
}

/// One row of the update listing is sound: its name and installed version
/// come from the installed pairs, its newest column renders the greatest
/// offered version, which is strictly newer than the installed one, and its
/// URL belongs to a row offering a greatest strictly-newer version.
pub open spec fn update_row_ok(
    t: (Seq<char>, Seq<char>, Seq<char>, Seq<char>),
    installed: Seq<(Seq<char>, SpecVersion)>,
    rows: Seq<(Seq<char>, Seq<char>, Seq<char>)>,
) -> bool {
    exists|ii: int|
        0 <= ii < installed.len() && (#[trigger] installed[ii]).0 == t.0 && t.1
            == crate::version::spec_render_version(installed[ii].1) && (exists|m: SpecVersion|
            is_max_offer(rows, t.0, m) && vlt(installed[ii].1, m) && t.2
                == crate::version::spec_render_version(m)) && (exists|j: int|
            0 <= j < rows.len() && (#[trigger] rows[j]).0 == t.0 && rows[j].2 == t.3 && {
                match crate::version::spec_parse_version(rows[j].1) {
                    Some(v) => vlt(installed[ii].1, v) && (forall|k: int|
                        0 <= k < rows.len() && (#[trigger] rows[k]).0 == t.0 ==> {
                            match crate::version::spec_parse_version(rows[k].1) {
                                Some(w) => !vlt(v, w),
                                None => true,
                            }
                        }),
                    None => false,
                }
            })
}

/// Checks every installed package against the index: returns, in catalog
/// order, one `(name, installed, newest, url)` row per package the index
/// can upgrade, the versions rendered as text. The newest column is the
/// greatest offered version, strictly newer than the installed one.
pub fn check_all_updates(
    installed: &Vec<(String, Version)>,
    index: &Vec<(String, String, String)>,
) -> (r: Vec<(String, String, String, String)>)
    ensures
        ({
            let gi = installed@.map_values(|p: (String, Version)| (p.0@, p.1@));
            let rows = index@.map_values(|t: (String, String, String)| (t.0@, t.1@, t.2@));
            &&& r@.map_values(|t: (String, String, String, String)| t.0@)
                == spec_names_with_updates(gi, rows)
            &&& forall|k: int|
                0 <= k < r@.len() ==> update_row_ok(
                    ((#[trigger] r@[k]).0@, r@[k].1@, r@[k].2@, r@[k].3@),
                    gi,
                    rows,
                )
        }),
{
    let ghost gi = installed@.map_values(|p: (String, Version)| (p.0@, p.1@));
    let ghost rows = index@.map_values(|t: (String, String, String)| (t.0@, t.1@, t.2@));
    let mut out: Vec<(String, String, String, String)> = Vec::new();
    let mut i: usize = 0;
    proof {
        assert(gi.skip(0) =~= gi);
        assert(out@.map_values(|t: (String, String, String, String)| t.0@)
            =~= Seq::<Seq<char>>::empty());
    }
    while i < installed.len()
        invariant
            i <= installed@.len(),
            gi == installed@.map_values(|p: (String, Version)| (p.0@, p.1@)),
            gi.len() == installed@.len(),
            rows == index@.map_values(|t: (String, String, String)| (t.0@, t.1@, t.2@)),
            spec_names_with_updates(gi, rows) == out@.map_values(
                |t: (String, String, String, String)| t.0@,
            ) + spec_names_with_updates(gi.skip(i as int), rows),
            forall|k: int|
                0 <= k < out@.len() ==> update_row_ok(
                    ((#[trigger] out@[k]).0@, out@[k].1@, out@[k].2@, out@[k].3@),
                    gi,
                    rows,
                ),
        decreases installed.len() - i,
    {
        let ghost tail = gi.skip(i as int);
        proof {
            assert(tail.len() == gi.len() - i);
            assert(tail[0] == gi[i as int]);
            assert(gi[i as int] == (installed@[i as int].0@, installed@[i as int].1@));
            assert(tail.skip(1) =~= gi.skip(i as int + 1));
        }
        let ghost out_before = out@;
        let pair = &installed[i];
        match check_for_update(&pair.0, &pair.1, index) {
            Ok(url) => {
                let (maxv, newest) = match crate::repo::latest_package(index, &pair.0) {
                    Some(p) => {
                        let t = crate::version::version_to_string(&p.0);
                        (p.0, t)
                    },
                    None => {
                        proof {
                            let w = choose|w: int|
                                0 <= w < rows.len() && (#[trigger] rows[w]).0 == pair.0@ && {
                                    match crate::version::spec_parse_version(rows[w].1) {
                                        Some(v) => vlt(pair.1@, v),
                                        None => false,
                                    }
                                };
                            assert(false);
                        }
                        (crate::version::Version::new(0, 0, 0), String::new())
                    },
                };
                proof {
                    // The newest offered version is strictly newer than the
                    // installed one: the update URL's version is strictly
                    // newer and no offered version exceeds the maximum.
                    let vu = choose|vu: SpecVersion|
                        (exists|j: int|
                            0 <= j < rows.len() && (#[trigger] rows[j]).0 == pair.0@ && rows[j].2
                                == url@ && crate::version::spec_parse_version(rows[j].1) == Some(
                                vu,
                            )) && vlt(pair.1@, vu) && (forall|j: int|
                            0 <= j < rows.len() && (#[trigger] rows[j]).0 == pair.0@ ==> {
                                match crate::version::spec_parse_version(rows[j].1) {
                                    Some(w) => !vlt(vu, w),
                                    None => true,
                                }
                            });
                    let m = maxv@;
                    crate::version::lemma_vlt_connected(vu, m);
                    if vlt(vu, m) {
                        crate::version::lemma_vlt_trans(pair.1@, vu, m);
                    } else if !crate::version::prec_eq(vu, m) {
                        assert(vlt(m, vu));
                        assert(false);
                    } else {
                        crate::version::lemma_vlt_prec_congr(vu, m, pair.1@);
                    }
                    assert(vlt(pair.1@, m));
                    assert(is_max_offer(rows, pair.0@, m));
                }
                out.push(
                    (
                        pair.0.clone(),
                        crate::version::version_to_string(&pair.1),
                        newest,
                        url,
                    ),
                );
                proof {
                    assert(update_row_ok(
                        (out@[out@.len() - 1].0@, out@[out@.len() - 1].1@,
                        out@[out@.len() - 1].2@, out@[out@.len() - 1].3@),
                        gi,
                        rows,
                    )) by {
                        assert(gi[i as int].0 == pair.0@ && gi[i as int].1 == pair.1@);
                    }
                    assert(out@.map_values(|t: (String, String, String, String)| t.0@)
                        =~= out_before.map_values(
                        |t: (String, String, String, String)| t.0@,
                    ).push(tail[0].0));
                    assert(out_before.map_values(|t: (String, String, String, String)| t.0@) + (
                    seq![tail[0].0] + spec_names_with_updates(tail.skip(1), rows))
                        =~= out@.map_values(|t: (String, String, String, String)| t.0@)
                        + spec_names_with_updates(tail.skip(1), rows));
                }
            },
            Err(_) => {},
        }
        i = i + 1;
    }
    proof {
        assert(gi.skip(gi.len() as int) =~= Seq::<(Seq<char>, SpecVersion)>::empty());
        assert(out@.map_values(|t: (String, String, String, String)| t.0@)
            + Seq::<Seq<char>>::empty() =~= out@.map_values(
            |t: (String, String, String, String)| t.0@,
        ));
    }
    out
}

} // verus!

verus! {

// ---------------------------------------------------------------------------
// Deactivation undoes activation
// ---------------------------------------------------------------------------

/// The expanded targets of a map are pairwise distinct.
pub open spec fn distinct_targets(entries: Seq<SpecSymlinkEntry>, env: SpecEnv) -> bool {
    forall|i: int, j: int|
        0 <= i < j < entries.len() ==> spec_expand((#[trigger] entries[i]).target, env)
            != spec_expand((#[trigger] entries[j]).target, env)
}

/// No packaged source path collides with an expanded target.
pub open spec fn sources_outside_targets(
    entries: Seq<SpecSymlinkEntry>,
    root: Seq<char>,
    env: SpecEnv,
) -> bool {
    forall|i: int, j: int|
        0 <= i < entries.len() && 0 <= j < entries.len() ==> spec_src_abs(
            root,
            (#[trigger] entries[i]).source,
        ) != spec_expand((#[trigger] entries[j]).target, env)
}

/// Activation, in either mode, leaves every present path outside the target
/// set exactly as it was.
proof fn lemma_act_preserves_nontargets(
    fs: Seq<(Seq<char>, SpecFsNode)>,
    entries: Seq<SpecSymlinkEntry>,
    root: Seq<char>,
    env: SpecEnv,
    direct: bool,
    p: Seq<char>,
)
    requires
        fs_get(fs, p) is Some,
        forall|i: int|
            0 <= i < entries.len() ==> spec_expand((#[trigger] entries[i]).target, env) != p,
    ensures
        fs_get(spec_activate_fs(fs, entries, root, env, direct), p) == fs_get(fs, p),
    decreases entries.len(),
{
    if entries.len() > 0 {
        let e = entries[0];
        let src_abs = spec_src_abs(root, e.source);
        let tgt = spec_expand(e.target, env);
        assert(forall|i: int|
            0 <= i < entries.skip(1).len() ==> spec_expand(
                (#[trigger] entries.skip(1)[i]).target,
                env,
            ) != p);
        match fs_get(fs, src_abs) {
            None => {
                lemma_act_preserves_nontargets(fs, entries.skip(1), root, env, direct, p);
            },
            Some(src) => {
                match activation_node(src_abs, src, direct) {
                    None => {
                        lemma_act_preserves_nontargets(fs, entries.skip(1), root, env, direct, p);
                    },
                    Some(node) => {
                        let ensured = spec_ensure_dir(fs, parent_of(tgt));
                        let fs1 = fs_set(ensured, tgt, node);
                        if fs_get(fs, parent_of(tgt)) is None {
                            crate::fsmodel::lemma_fs_get_set(
                                fs,
                                parent_of(tgt),
                                SpecFsNode::Dir,
                                p,
                            );
                            assert(p != parent_of(tgt));
                        }
                        crate::fsmodel::lemma_fs_get_set(ensured, tgt, node, p);
                        assert(fs_get(fs1, p) == fs_get(fs, p));
                        lemma_act_preserves_nontargets(fs1, entries.skip(1), root, env, direct, p);
                    },
                }
            },
        }
    }
}

/// With distinct targets and sources outside the target set, activation in
/// link mode leaves each entry's target holding exactly its entry's link.
proof fn lemma_act_sets_target(
    fs: Seq<(Seq<char>, SpecFsNode)>,
    entries: Seq<SpecSymlinkEntry>,
    root: Seq<char>,
    env: SpecEnv,
    i: int,
)
    requires
        0 <= i < entries.len(),
        distinct_targets(entries, env),
        sources_outside_targets(entries, root, env),
        forall|j: int|
            0 <= j < entries.len() ==> fs_get(
                fs,
                spec_src_abs(root, (#[trigger] entries[j]).source),
            ) is Some,
    ensures
        fs_get(
            spec_activate_fs(fs, entries, root, env, false),
            spec_expand(entries[i].target, env),
        ) == Some(
            SpecFsNode::Symlink { target: spec_src_abs(root, entries[i].source) },
        ),
    decreases entries.len(),
{
    let e = entries[0];
    let src_abs = spec_src_abs(root, e.source);
    let tgt = spec_expand(e.target, env);
    assert(fs_get(fs, src_abs) is Some);
    let node = SpecFsNode::Symlink { target: src_abs };
    let ensured = spec_ensure_dir(fs, parent_of(tgt));
    let fs1 = fs_set(ensured, tgt, node);
    // Facts about the one step.
    assert forall|q: Seq<char>| fs_get(fs, q) is Some implies fs_get(fs1, q) == if q == tgt {
        Some(node)
    } else {
        fs_get(fs, q)
    } by {
        if fs_get(fs, parent_of(tgt)) is None {
            crate::fsmodel::lemma_fs_get_set(fs, parent_of(tgt), SpecFsNode::Dir, q);
            assert(q != parent_of(tgt));
        }
        crate::fsmodel::lemma_fs_get_set(ensured, tgt, node, q);
    }
    if i == 0 {
        crate::fsmodel::lemma_fs_get_set(ensured, tgt, node, tgt);
        assert(fs_get(fs1, tgt) == Some(node));
        assert(forall|j: int|
            0 <= j < entries.skip(1).len() ==> spec_expand(
                (#[trigger] entries.skip(1)[j]).target,
                env,
            ) != tgt);
        lemma_act_preserves_nontargets(fs1, entries.skip(1), root, env, false, tgt);
    } else {
        assert(entries.skip(1)[i - 1] == entries[i]);
        assert(distinct_targets(entries.skip(1), env)) by {
            assert(forall|a: int, b: int|
                0 <= a < b < entries.skip(1).len() ==> (#[trigger] entries.skip(1)[a],
                #[trigger] entries.skip(1)[b]) == (entries[a + 1], entries[b + 1]));
        }
        assert(sources_outside_targets(entries.skip(1), root, env)) by {
            assert(forall|a: int|
                0 <= a < entries.skip(1).len() ==> #[trigger] entries.skip(1)[a] == entries[a
                    + 1]);
        }
        assert forall|j: int| 0 <= j < entries.skip(1).len() implies fs_get(
            fs1,
            spec_src_abs(root, (#[trigger] entries.skip(1)[j]).source),
        ) is Some by {
            assert(entries.skip(1)[j] == entries[j + 1]);
            let sj = spec_src_abs(root, entries[j + 1].source);
            assert(fs_get(fs, sj) is Some);
            assert(sj != tgt);
        }
        lemma_act_sets_target(fs1, entries.skip(1), root, env, i - 1);
    }
}

/// Deactivation never writes: a path afterwards holds what it held, or
/// nothing.
proof fn lemma_deact_monotone(
    fs: Seq<(Seq<char>, SpecFsNode)>,
    entries: Seq<SpecSymlinkEntry>,
    root: Seq<char>,
    env: SpecEnv,
    p: Seq<char>,
)
    ensures
        fs_get(spec_deactivate_entries(fs, entries, root, env), p) == fs_get(fs, p) || fs_get(
            spec_deactivate_entries(fs, entries, root, env),
            p,
        ) is None,
    decreases entries.len(),
{
    if entries.len() > 0 {
        let e = entries[0];
        let tgt = spec_expand(e.target, env);
        let fs1 = match fs_get(fs, tgt) {
            Some(SpecFsNode::Symlink { target }) => if target == spec_src_abs(root, e.source) {
                fs_drop(fs, tgt)
            } else {
                fs
            },
            _ => fs,
        };
        crate::fsmodel::lemma_fs_get_drop(fs, tgt, p);
        lemma_deact_monotone(fs1, entries.skip(1), root, env, p);
    }
}

/// With each target holding its own entry's link, deactivation clears every
/// target.
proof fn lemma_deact_clears(
    fs: Seq<(Seq<char>, SpecFsNode)>,
    entries: Seq<SpecSymlinkEntry>,
    root: Seq<char>,
    env: SpecEnv,
    i: int,
)
    requires
        0 <= i < entries.len(),
        distinct_targets(entries, env),
        forall|j: int|
            0 <= j < entries.len() ==> fs_get(
                fs,
                spec_expand((#[trigger] entries[j]).target, env),
            ) == Some(
                SpecFsNode::Symlink { target: spec_src_abs(root, entries[j].source) },
            ),
    ensures
        fs_get(
            spec_deactivate_entries(fs, entries, root, env),
            spec_expand(entries[i].target, env),
        ) is None,
    decreases entries.len(),
{
    let e = entries[0];
    let tgt = spec_expand(e.target, env);
    assert(fs_get(fs, tgt) == Some(
        SpecFsNode::Symlink { target: spec_src_abs(root, e.source) },
    ));
    let fs1 = fs_drop(fs, tgt);
    if i == 0 {
        crate::fsmodel::lemma_fs_get_drop(fs, tgt, tgt);
        lemma_deact_monotone(fs1, entries.skip(1), root, env, tgt);
    } else {
        assert(entries.skip(1)[i - 1] == entries[i]);
        assert(distinct_targets(entries.skip(1), env)) by {
            assert(forall|a: int|
                0 <= a < entries.skip(1).len() ==> #[trigger] entries.skip(1)[a] == entries[a
                    + 1]);
        }
        assert forall|j: int| 0 <= j < entries.skip(1).len() implies fs_get(
            fs1,
            spec_expand((#[trigger] entries.skip(1)[j]).target, env),
        ) == Some(
            SpecFsNode::Symlink {
                target: spec_src_abs(root, entries.skip(1)[j].source),
            },
        ) by {
            assert(entries.skip(1)[j] == entries[j + 1]);
            let tj = spec_expand(entries[j + 1].target, env);
            assert(tj != tgt);
            crate::fsmodel::lemma_fs_get_drop(fs, tgt, tj);
        }
        lemma_deact_clears(fs1, entries.skip(1), root, env, i - 1);
    }
}

/// Deactivating a package's activation map right after activating it clears
/// every activation target: switching away removes exactly the links the
/// switch to the package created.
pub proof fn lemma_deactivate_undoes_activate(
    fs: Seq<(Seq<char>, SpecFsNode)>,
    entries: Seq<SpecSymlinkEntry>,
    root: Seq<char>,
    env: SpecEnv,
    i: int,
)
    requires
        0 <= i < entries.len(),
        distinct_targets(entries, env),
        sources_outside_targets(entries, root, env),
        forall|j: int|
            0 <= j < entries.len() ==> fs_get(
                fs,
                spec_src_abs(root, (#[trigger] entries[j]).source),
            ) is Some,
    ensures
        fs_get(
            spec_deactivate_entries(
                spec_activate_fs(fs, entries, root, env, false),
                entries,
                root,
                env,
            ),
            spec_expand(entries[i].target, env),
        ) is None,
{
    let acted = spec_activate_fs(fs, entries, root, env, false);
    assert forall|j: int| 0 <= j < entries.len() implies fs_get(
        acted,
        spec_expand((#[trigger] entries[j]).target, env),
    ) == Some(
        SpecFsNode::Symlink { target: spec_src_abs(root, entries[j].source) },
    ) by {
        lemma_act_sets_target(fs, entries, root, env, j);
    }
    lemma_deact_clears(acted, entries, root, env, i);
}

} // verus!

verus! {

/// Deactivation leaves every path outside its target set exactly as it was.
proof fn lemma_deact_preserves_nontargets(
    fs: Seq<(Seq<char>, SpecFsNode)>,
    entries: Seq<SpecSymlinkEntry>,
    root: Seq<char>,
    env: SpecEnv,
    p: Seq<char>,
)
    requires
        forall|i: int|
            0 <= i < entries.len() ==> spec_expand((#[trigger] entries[i]).target, env) != p,
    ensures
        fs_get(spec_deactivate_entries(fs, entries, root, env), p) == fs_get(fs, p),
    decreases entries.len(),
{
    if entries.len() > 0 {
        let e = entries[0];
        let tgt = spec_expand(e.target, env);
        let fs1 = match fs_get(fs, tgt) {
            Some(SpecFsNode::Symlink { target }) => if target == spec_src_abs(root, e.source) {
                fs_drop(fs, tgt)
            } else {
                fs
            },
            _ => fs,
        };
        crate::fsmodel::lemma_fs_get_drop(fs, tgt, p);
        assert(fs_get(fs1, p) == fs_get(fs, p));
        assert(forall|i: int|
            0 <= i < entries.skip(1).len() ==> spec_expand(
                (#[trigger] entries.skip(1)[i]).target,
                env,
            ) != p);
        lemma_deact_preserves_nontargets(fs1, entries.skip(1), root, env, p);
    }
}

/// Activation writes nothing at an empty path that is neither a target nor
/// the parent of a target.
proof fn lemma_act_preserves_none(
    fs: Seq<(Seq<char>, SpecFsNode)>,
    entries: Seq<SpecSymlinkEntry>,
    root: Seq<char>,
    env: SpecEnv,
    p: Seq<char>,
)
    requires
        fs_get(fs, p) is None,
        forall|i: int|
            0 <= i < entries.len() ==> spec_expand((#[trigger] entries[i]).target, env) != p,
        forall|i: int|
            0 <= i < entries.len() ==> parent_of(
                spec_expand((#[trigger] entries[i]).target, env),
            ) != p,
    ensures
        fs_get(spec_activate_fs(fs, entries, root, env, false), p) is None,
    decreases entries.len(),
{
    if entries.len() > 0 {
        let e = entries[0];
        let src_abs = spec_src_abs(root, e.source);
        let tgt = spec_expand(e.target, env);
        let fs1 = match fs_get(fs, src_abs) {
            None => fs,
            Some(_) => {
                let node = SpecFsNode::Symlink { target: src_abs };
                let ensured = spec_ensure_dir(fs, parent_of(tgt));
                if fs_get(fs, parent_of(tgt)) is None {
                    crate::fsmodel::lemma_fs_get_set(fs, parent_of(tgt), SpecFsNode::Dir, p);
                }
                crate::fsmodel::lemma_fs_get_set(ensured, tgt, node, p);
                fs_set(ensured, tgt, node)
            },
        };
        assert(fs_get(fs1, p) is None);
        assert(forall|i: int|
            0 <= i < entries.skip(1).len() ==> #[trigger] entries.skip(1)[i] == entries[i + 1]);
        lemma_act_preserves_none(fs1, entries.skip(1), root, env, p);
    }
}

/// Switching away and back restores the activation set. With the departing
/// version's links in place, the incoming version's sources present, and the
/// two maps' targets clean of collisions with sources and parents, switching
/// to the other version and back leaves every target of the first map as it
/// was and every unshared target of the second map empty.
pub proof fn lemma_switch_round_trip(
    fs0: Seq<(Seq<char>, SpecFsNode)>,
    a: Seq<SpecSymlinkEntry>,
    b: Seq<SpecSymlinkEntry>,
    root_a: Seq<char>,
    root_b: Seq<char>,
    env: SpecEnv,
)
    requires
        distinct_targets(a, env),
        distinct_targets(b, env),
        sources_outside_targets(a, root_a, env),
        sources_outside_targets(b, root_b, env),
        // Neither package's sources collide with the other's targets.
        forall|i: int, j: int|
            0 <= i < a.len() && 0 <= j < b.len() ==> spec_src_abs(root_a, (#[trigger] a[i]).source)
                != spec_expand((#[trigger] b[j]).target, env),
        forall|i: int, j: int|
            0 <= i < b.len() && 0 <= j < a.len() ==> spec_src_abs(root_b, (#[trigger] b[i]).source)
                != spec_expand((#[trigger] a[j]).target, env),
        // No target is the parent of a target of the returning map.
        forall|i: int, j: int|
            0 <= i < a.len() && 0 <= j < b.len() ==> parent_of(
                spec_expand((#[trigger] a[i]).target, env),
            ) != spec_expand((#[trigger] b[j]).target, env),
        // The departing version's links are in place and both packages'
        // sources exist.
        forall|i: int|
            0 <= i < a.len() ==> fs_get(fs0, spec_expand((#[trigger] a[i]).target, env)) == Some(
                SpecFsNode::Symlink { target: spec_src_abs(root_a, a[i].source) },
            ),
        forall|i: int|
            0 <= i < a.len() ==> fs_get(fs0, spec_src_abs(root_a, (#[trigger] a[i]).source))
                is Some,
        forall|i: int|
            0 <= i < b.len() ==> fs_get(fs0, spec_src_abs(root_b, (#[trigger] b[i]).source))
                is Some,
        // Targets of the other map that the departing map does not share are
        // empty before the switch.
        forall|j: int|
            0 <= j < b.len() && (forall|i: int|
                0 <= i < a.len() ==> spec_expand((#[trigger] a[i]).target, env) != spec_expand(
                    b[j].target,
                    env,
                )) ==> fs_get(fs0, spec_expand((#[trigger] b[j]).target, env)) is None,
    ensures
        ({
            let fs1 = spec_deactivate_entries(fs0, a, root_a, env);
            let fs2 = spec_activate_fs(fs1, b, root_b, env, false);
            let fs3 = spec_deactivate_entries(fs2, b, root_b, env);
            let fs4 = spec_activate_fs(fs3, a, root_a, env, false);
            &&& forall|i: int|
                0 <= i < a.len() ==> fs_get(fs4, spec_expand((#[trigger] a[i]).target, env))
                    == fs_get(fs0, spec_expand(a[i].target, env))
            &&& forall|j: int|
                0 <= j < b.len() && (forall|i: int|
                    0 <= i < a.len() ==> spec_expand((#[trigger] a[i]).target, env) != spec_expand(
                        b[j].target,
                        env,
                    )) ==> fs_get(fs4, spec_expand((#[trigger] b[j]).target, env)) is None
        }),
{
    let fs1 = spec_deactivate_entries(fs0, a, root_a, env);
    let fs2 = spec_activate_fs(fs1, b, root_b, env, false);
    let fs3 = spec_deactivate_entries(fs2, b, root_b, env);
    let fs4 = spec_activate_fs(fs3, a, root_a, env, false);
    // The incoming sources survive the first deactivation.
    assert forall|i: int| 0 <= i < b.len() implies fs_get(
        fs1,
        spec_src_abs(root_b, (#[trigger] b[i]).source),
    ) is Some by {
        lemma_deact_preserves_nontargets(fs0, a, root_a, env, spec_src_abs(root_b, b[i].source));
    }
    // Activating the incoming map leaves each of its targets holding its own
    // link.
    assert forall|j: int| 0 <= j < b.len() implies fs_get(
        fs2,
        spec_expand((#[trigger] b[j]).target, env),
    ) == Some(
        SpecFsNode::Symlink { target: spec_src_abs(root_b, b[j].source) },
    ) by {
        lemma_act_sets_target(fs1, b, root_b, env, j);
    }
    // Deactivating it clears all of its targets.
    assert forall|j: int| 0 <= j < b.len() implies fs_get(
        fs3,
        spec_expand((#[trigger] b[j]).target, env),
    ) is None by {
        lemma_deact_clears(fs2, b, root_b, env, j);
    }
    // The departing sources survive all three stages.
    assert forall|i: int| 0 <= i < a.len() implies fs_get(
        fs3,
        spec_src_abs(root_a, (#[trigger] a[i]).source),
    ) is Some by {
        let s = spec_src_abs(root_a, a[i].source);
        lemma_deact_preserves_nontargets(fs0, a, root_a, env, s);
        assert(fs_get(fs1, s) is Some);
        lemma_act_preserves_nontargets(fs1, b, root_b, env, false, s);
        assert(fs_get(fs2, s) == fs_get(fs1, s));
        lemma_deact_preserves_nontargets(fs2, b, root_b, env, s);
    }
    // Re-activating the departing map restores each of its links.
    assert forall|i: int| 0 <= i < a.len() implies fs_get(
        fs4,
        spec_expand((#[trigger] a[i]).target, env),
    ) == fs_get(fs0, spec_expand(a[i].target, env)) by {
        lemma_act_sets_target(fs3, a, root_a, env, i);
    }
    // An unshared target of the incoming map ends empty.
    assert forall|j: int|
        0 <= j < b.len() && (forall|i: int|
            0 <= i < a.len() ==> spec_expand((#[trigger] a[i]).target, env) != spec_expand(
                b[j].target,
                env,
            )) implies fs_get(fs4, spec_expand((#[trigger] b[j]).target, env)) is None by {
        let t = spec_expand(b[j].target, env);
        lemma_act_preserves_none(fs3, a, root_a, env, t);
    }
}

} // verus!

verus! {

use crate::catalog::{SpecDepRow, SpecFileRow};

/// Dropping a package key twice is dropping it once.
proof fn lemma_pkgs_drop_key_idem(rows: Seq<SpecPackageRow>, name: Seq<char>, v: SpecVersion)
    ensures
        pkgs_drop_key(pkgs_drop_key(rows, name, v), name, v) == pkgs_drop_key(rows, name, v),
    decreases rows.len(),
{
    if rows.len() > 0 {
        lemma_pkgs_drop_key_idem(rows.drop_last(), name, v);
        let d = pkgs_drop_key(rows, name, v);
        if !(rows.last().name == name && rows.last().version == v) {
            let db = pkgs_drop_key(rows.drop_last(), name, v);
            assert(d == db.push(rows.last()));
            assert(d.drop_last() =~= db);
            assert(d.last() == rows.last());
        }
    }
}

/// Dropping a file key twice is dropping it once.
proof fn lemma_files_drop_key_idem(rows: Seq<SpecFileRow>, name: Seq<char>, v: SpecVersion)
    ensures
        files_drop_key(files_drop_key(rows, name, v), name, v) == files_drop_key(rows, name, v),
    decreases rows.len(),
{
    if rows.len() > 0 {
        lemma_files_drop_key_idem(rows.drop_last(), name, v);
        let d = files_drop_key(rows, name, v);
        if !(rows.last().name == name && rows.last().version == v) {
            let db = files_drop_key(rows.drop_last(), name, v);
            assert(d == db.push(rows.last()));
            assert(d.drop_last() =~= db);
            assert(d.last() == rows.last());
        }
    }
}

/// Dropping a dependency owner twice is dropping it once.
proof fn lemma_deps_drop_name_idem(rows: Seq<SpecDepRow>, name: Seq<char>)
    ensures
        deps_drop_name(deps_drop_name(rows, name), name) == deps_drop_name(rows, name),
    decreases rows.len(),
{
    if rows.len() > 0 {
        lemma_deps_drop_name_idem(rows.drop_last(), name);
        let d = deps_drop_name(rows, name);
        if rows.last().package != name {
            let db = deps_drop_name(rows.drop_last(), name);
            assert(d == db.push(rows.last()));
            assert(d.drop_last() =~= db);
            assert(d.last() == rows.last());
        }
    }
}

/// Removing a version and installing the same manifest again leaves the
/// catalog exactly as installing it over the original catalog would: the
/// remove-then-install round trip restores the catalog.
pub proof fn lemma_remove_then_install_catalog(
    c: SpecCatalog,
    p: SpecPackage,
    files: Seq<Seq<char>>,
)
    ensures
        spec_install_catalog(
            SpecCatalog {
                packages: pkgs_drop_key(c.packages, p.name, p.version),
                files: files_drop_key(c.files, p.name, p.version),
                deps: deps_drop_name(c.deps, p.name),
            },
            p,
            files,
        ) == spec_install_catalog(c, p, files),
{
    lemma_pkgs_drop_key_idem(c.packages, p.name, p.version);
    lemma_files_drop_key_idem(c.files, p.name, p.version);
    lemma_deps_drop_name_idem(c.deps, p.name);
}

} // verus!

verus! {

/// Every target whose entry names a packaged regular file ends, after a
/// direct-mode activation, as a regular file holding exactly that source's
/// bytes: the byte-copy half of the activation-ownership invariant.
pub proof fn lemma_activation_copies_owned(
    fs: Seq<(Seq<char>, SpecFsNode)>,
    entries: Seq<SpecSymlinkEntry>,
    root: Seq<char>,
    env: SpecEnv,
    i: int,
)
    requires
        0 <= i < entries.len(),
        distinct_targets(entries, env),
        sources_outside_targets(entries, root, env),
        fs_get(fs, spec_src_abs(root, entries[i].source)) matches Some(
            SpecFsNode::Regular { data: _ },
        ),
    ensures
        fs_get(
            spec_activate_fs(fs, entries, root, env, true),
            spec_expand(entries[i].target, env),
        ) == Some(
            SpecFsNode::Regular {
                data: fs_get(fs, spec_src_abs(root, entries[i].source)).unwrap()->Regular_data,
            },
        ),
    decreases entries.len(),
{
    let e = entries[0];
    let src_abs = spec_src_abs(root, e.source);
    let tgt = spec_expand(e.target, env);
    let fs1 = match fs_get(fs, src_abs) {
        None => fs,
        Some(src) => match activation_node(src_abs, src, true) {
            None => fs,
            Some(node) => fs_set(spec_ensure_dir(fs, parent_of(tgt)), tgt, node),
        },
    };
    // The one step touches only the head's target and, when empty, its
    // parent: every other present path is untouched.
    assert forall|q: Seq<char>| fs_get(fs, q) is Some && q != tgt implies fs_get(fs1, q)
        == fs_get(fs, q) by {
        match fs_get(fs, src_abs) {
            None => {},
            Some(src) => {
                match activation_node(src_abs, src, true) {
                    None => {},
                    Some(node) => {
                        let ensured = spec_ensure_dir(fs, parent_of(tgt));
                        if fs_get(fs, parent_of(tgt)) is None {
                            crate::fsmodel::lemma_fs_get_set(
                                fs,
                                parent_of(tgt),
                                SpecFsNode::Dir,
                                q,
                            );
                            assert(q != parent_of(tgt));
                        }
                        crate::fsmodel::lemma_fs_get_set(ensured, tgt, node, q);
                    },
                }
            },
        }
    }
    if i == 0 {
        let data = fs_get(fs, src_abs).unwrap()->Regular_data;
        let node = SpecFsNode::Regular { data };
        let ensured = spec_ensure_dir(fs, parent_of(tgt));
        assert(activation_node(src_abs, fs_get(fs, src_abs).unwrap(), true) == Some(node));
        crate::fsmodel::lemma_fs_get_set(ensured, tgt, node, tgt);
        assert(fs_get(fs1, tgt) == Some(node));
        assert(forall|j: int|
            0 <= j < entries.skip(1).len() ==> spec_expand(
                (#[trigger] entries.skip(1)[j]).target,
                env,
            ) != tgt);
        lemma_act_preserves_nontargets(fs1, entries.skip(1), root, env, true, tgt);
    } else {
        assert(entries.skip(1)[i - 1] == entries[i]);
        assert(distinct_targets(entries.skip(1), env)) by {
            assert(forall|a: int|
                0 <= a < entries.skip(1).len() ==> #[trigger] entries.skip(1)[a] == entries[a
                    + 1]);
        }
        assert(sources_outside_targets(entries.skip(1), root, env)) by {
            assert(forall|a: int|
                0 <= a < entries.skip(1).len() ==> #[trigger] entries.skip(1)[a] == entries[a
                    + 1]);
        }
        let si = spec_src_abs(root, entries[i].source);
        assert(si != tgt);
        assert(fs_get(fs1, si) == fs_get(fs, si));
        lemma_activation_copies_owned(fs1, entries.skip(1), root, env, i - 1);
    }
}

} // verus!

verus! {

/// A path is none of the expanded targets of a map.
pub open spec fn not_a_target(p: Seq<char>, entries: Seq<SpecSymlinkEntry>, env: SpecEnv) -> bool {
    forall|i: int| 0 <= i < entries.len() ==> spec_expand((#[trigger] entries[i]).target, env) != p
}

/// Switching away to another version and back, through the exact transitions
/// the switch contract names, returns the activation set to its pre-switch
/// content: each departing target holds its original link again and each
/// unshared incoming target is empty again. The cleanliness hypotheses are
/// those of the underlying round trip, plus stability of the two trees'
/// activation-map files.
pub proof fn lemma_switch_calls_round_trip(
    fs0: Seq<(Seq<char>, SpecFsNode)>,
    c0: SpecCatalog,
    root: Seq<char>,
    name: Seq<char>,
    va: SpecVersion,
    vb: SpecVersion,
    a: Seq<SpecSymlinkEntry>,
    b: Seq<SpecSymlinkEntry>,
    env: SpecEnv,
)
    requires
        cat_inv(c0),
        // Version `va` is current; `vb` is installed.
        match current_row(c0, name) {
            Some(row) => row.version == va,
            None => false,
        },
        has_pkg(c0, name, vb),
        // The two trees' activation maps parse to the given entry lists.
        spec_fs_symlist(fs0, crate::paths::spec_pkg_dir(root, name, va)) == Some(a),
        spec_fs_symlist(fs0, crate::paths::spec_pkg_dir(root, name, vb)) == Some(b),
        fs_get(
            fs0,
            crate::paths::spec_pkg_dir(root, name, va) + seq!['/'] + symlist_name(),
        ) is Some,
        fs_get(
            fs0,
            crate::paths::spec_pkg_dir(root, name, vb) + seq!['/'] + symlist_name(),
        ) is Some,
        // The activation-map files are not activation targets.
        not_a_target(
            crate::paths::spec_pkg_dir(root, name, va) + seq!['/'] + symlist_name(),
            a,
            env,
        ),
        not_a_target(
            crate::paths::spec_pkg_dir(root, name, va) + seq!['/'] + symlist_name(),
            b,
            env,
        ),
        not_a_target(
            crate::paths::spec_pkg_dir(root, name, vb) + seq!['/'] + symlist_name(),
            a,
            env,
        ),
        not_a_target(
            crate::paths::spec_pkg_dir(root, name, vb) + seq!['/'] + symlist_name(),
            b,
            env,
        ),
        // The round trip's cleanliness hypotheses.
        distinct_targets(a, env),
        distinct_targets(b, env),
        sources_outside_targets(a, crate::paths::spec_pkg_dir(root, name, va), env),
        sources_outside_targets(b, crate::paths::spec_pkg_dir(root, name, vb), env),
        forall|i: int, j: int|
            0 <= i < a.len() && 0 <= j < b.len() ==> spec_src_abs(
                crate::paths::spec_pkg_dir(root, name, va),
                (#[trigger] a[i]).source,
            ) != spec_expand((#[trigger] b[j]).target, env),
        forall|i: int, j: int|
            0 <= i < b.len() && 0 <= j < a.len() ==> spec_src_abs(
                crate::paths::spec_pkg_dir(root, name, vb),
                (#[trigger] b[i]).source,
            ) != spec_expand((#[trigger] a[j]).target, env),
        forall|i: int, j: int|
            0 <= i < a.len() && 0 <= j < b.len() ==> parent_of(
                spec_expand((#[trigger] a[i]).target, env),
            ) != spec_expand((#[trigger] b[j]).target, env),
        forall|i: int|
            0 <= i < a.len() ==> fs_get(fs0, spec_expand((#[trigger] a[i]).target, env)) == Some(
                SpecFsNode::Symlink {
                    target: spec_src_abs(
                        crate::paths::spec_pkg_dir(root, name, va),
                        a[i].source,
                    ),
                },
            ),
        forall|i: int|
            0 <= i < a.len() ==> fs_get(
                fs0,
                spec_src_abs(crate::paths::spec_pkg_dir(root, name, va), (#[trigger] a[i]).source),
            ) is Some,
        forall|i: int|
            0 <= i < b.len() ==> fs_get(
                fs0,
                spec_src_abs(crate::paths::spec_pkg_dir(root, name, vb), (#[trigger] b[i]).source),
            ) is Some,
        forall|j: int|
            0 <= j < b.len() && (forall|i: int|
                0 <= i < a.len() ==> spec_expand((#[trigger] a[i]).target, env) != spec_expand(
                    b[j].target,
                    env,
                )) ==> fs_get(fs0, spec_expand((#[trigger] b[j]).target, env)) is None,
    ensures
        ({
            // The first switch: deactivate `va`'s map, activate `vb`'s tree,
            // elect `vb`; the second: the same back to `va`.
            let dir_a = crate::paths::spec_pkg_dir(root, name, va);
            let dir_b = crate::paths::spec_pkg_dir(root, name, vb);
            let mid1 = spec_switch_mid(fs0, c0, root, name, env);
            let fs1 = spec_activate_fs(
                mid1,
                spec_fs_symlist(mid1, dir_b).unwrap(),
                dir_b,
                env,
                false,
            );
            let c1 = SpecCatalog {
                packages: set_current_rows(c0.packages, name, vb),
                files: c0.files,
                deps: c0.deps,
            };
            let mid2 = spec_switch_mid(fs1, c1, root, name, env);
            let fs2 = spec_activate_fs(
                mid2,
                spec_fs_symlist(mid2, dir_a).unwrap(),
                dir_a,
                env,
                false,
            );
            &&& spec_fs_symlist(mid1, dir_b) == Some(b)
            &&& spec_fs_symlist(mid2, dir_a) == Some(a)
            &&& forall|i: int|
                0 <= i < a.len() ==> fs_get(fs2, spec_expand((#[trigger] a[i]).target, env))
                    == fs_get(fs0, spec_expand(a[i].target, env))
            &&& forall|j: int|
                0 <= j < b.len() && (forall|i: int|
                    0 <= i < a.len() ==> spec_expand((#[trigger] a[i]).target, env) != spec_expand(
                        b[j].target,
                        env,
                    )) ==> fs_get(fs2, spec_expand((#[trigger] b[j]).target, env)) is None
        }),
{
    let dir_a = crate::paths::spec_pkg_dir(root, name, va);
    let dir_b = crate::paths::spec_pkg_dir(root, name, vb);
    let map_a = dir_a + seq!['/'] + symlist_name();
    let map_b = dir_b + seq!['/'] + symlist_name();
    // Stage 1: the first deactivation reads `a` and leaves both map files
    // untouched.
    let mid1 = spec_switch_mid(fs0, c0, root, name, env);
    assert(mid1 == spec_deactivate_entries(fs0, a, dir_a, env));
    lemma_deact_preserves_nontargets(fs0, a, dir_a, env, map_b);
    assert(fs_get(mid1, map_b) == fs_get(fs0, map_b));
    assert(spec_fs_symlist(mid1, dir_b) == Some(b));
    lemma_deact_preserves_nontargets(fs0, a, dir_a, env, map_a);
    assert(fs_get(mid1, map_a) == fs_get(fs0, map_a));
    // Stage 2: activating `vb`'s tree leaves both map files untouched.
    let fs1 = spec_activate_fs(mid1, b, dir_b, env, false);
    lemma_act_preserves_nontargets(mid1, b, dir_b, env, false, map_a);
    assert(fs_get(fs1, map_a) == fs_get(fs0, map_a));
    lemma_act_preserves_nontargets(mid1, b, dir_b, env, false, map_b);
    assert(fs_get(fs1, map_b) == fs_get(fs0, map_b));
    // Electing `vb` leaves exactly one current row of the name: the `vb` row.
    let c1 = SpecCatalog {
        packages: set_current_rows(c0.packages, name, vb),
        files: c0.files,
        deps: c0.deps,
    };
    crate::catalog::lemma_set_current_inv(c0, name, vb, c1);
    let w = choose|w: int|
        0 <= w < c0.packages.len() && (#[trigger] c0.packages[w]).name == name
            && c0.packages[w].version == vb;
    assert(c1.packages[w].name == name && c1.packages[w].current && c1.packages[w].version == vb);
    lemma_current_unique(c1, name, w);
    assert(current_row(c1, name) == Some(c1.packages[w]));
    // Stage 3: the second deactivation reads `b` from `vb`'s tree.
    let mid2 = spec_switch_mid(fs1, c1, root, name, env);
    assert(spec_fs_symlist(fs1, dir_b) == Some(b));
    assert(mid2 == spec_deactivate_entries(fs1, b, dir_b, env));
    lemma_deact_preserves_nontargets(fs1, b, dir_b, env, map_a);
    assert(fs_get(mid2, map_a) == fs_get(fs0, map_a));
    assert(spec_fs_symlist(mid2, dir_a) == Some(a));
    // The composed transitions are exactly the round trip.
    lemma_switch_round_trip(fs0, a, b, dir_a, dir_b, env);
}

} // verus!
