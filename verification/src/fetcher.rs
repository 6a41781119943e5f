//! Fetch planning and sequential installation of fetched archives.
//!
//! Downloads themselves happen outside the library; here live the decisions:
//! how a URL maps to a local path or a staging filename, and the sequential
//! install of the fetched archives that keeps the catalog invariant.

use vstd::prelude::*;

use crate::archive::{gunzip_of, untar_of};
use crate::engine::{installable, World, world_inv};
use crate::paths::has_dotdot;
use crate::strutil::{chars_slice, chars_to_string, starts_with, str_to_chars};
use crate::UhpmError;

verus! {

/// Where one URL's bytes come from or go to.
#[derive(Debug)]
pub enum FetchPlan {
    /// A local file used in place: the sanitized path.
    Local(String),
    /// A remote download: the staging filename derived from the URL's last
    /// segment.
    Remote(String),
}

/// Mathematical value of a fetch plan.
pub enum SpecFetchPlan {
    Local(Seq<char>),
    Remote(Seq<char>),
}

impl View for FetchPlan {
    type V = SpecFetchPlan;

    open spec fn view(&self) -> SpecFetchPlan {
        match self {
            FetchPlan::Local(p) => SpecFetchPlan::Local(p@),
            FetchPlan::Remote(f) => SpecFetchPlan::Remote(f@),
        }
    }
}

pub open spec fn file_scheme() -> Seq<char> {
    seq!['f', 'i', 'l', 'e', ':', '/', '/']
}

pub open spec fn http_scheme() -> Seq<char> {
    seq!['h', 't', 't', 'p', ':', '/', '/']
}

pub open spec fn https_scheme() -> Seq<char> {
    seq!['h', 't', 't', 'p', 's', ':', '/', '/']
}

/// The last `/`-separated segment of a URL.
pub open spec fn last_segment(s: Seq<char>) -> Seq<char> {
    s.subrange(crate::engine::after_last_slash(s), s.len() as int)
}

/// The fetch decision for one URL: `file://` and bare paths are used in
/// place, `http(s)://` URLs stage under the name of their last segment; a
/// path or filename with a parent-directory component is refused.
pub open spec fn spec_plan_fetch(url: Seq<char>) -> Option<SpecFetchPlan> {
    if starts_with(url, file_scheme()) {
        let p = url.skip(file_scheme().len() as int);
        if has_dotdot(p) {
            None
        } else {
            Some(SpecFetchPlan::Local(p))
        }
    } else if starts_with(url, http_scheme()) || starts_with(url, https_scheme()) {
        let f = last_segment(url);
        if f.len() == 0 || has_dotdot(f) {
            None
        } else {
            Some(SpecFetchPlan::Remote(f))
        }
    } else {
        if has_dotdot(url) {
            None
        } else {
            Some(SpecFetchPlan::Local(url))
        }
    }
}

/// Plans the fetch of one URL; refuses paths that climb out of their root.
pub fn plan_fetch(url: &str) -> (r: Result<FetchPlan, UhpmError>)
    ensures
        match r {
            Ok(p) => spec_plan_fetch(url@) == Some(p@),
            Err(e) => spec_plan_fetch(url@) is None && e is UnsafePath,
        },
{
    let v = str_to_chars(url);
    let filep = str_to_chars("file://");
    let httpp = str_to_chars("http://");
    let httpsp = str_to_chars("https://");
    proof {
        reveal_strlit("file://");
        reveal_strlit("http://");
        reveal_strlit("https://");
        assert(filep@ =~= file_scheme());
        assert(httpp@ =~= http_scheme());
        assert(httpsp@ =~= https_scheme());
    }
    if crate::strutil::chars_start_with(&v, &filep) {
        let p = chars_slice(&v, 7, v.len());
        proof {
            assert(p@ =~= url@.skip(file_scheme().len() as int));
        }
        if crate::paths::has_dotdot_exec(&p) {
            return Err(
                UhpmError::UnsafePath(String::from_str("the path climbs out of its root")),
            );
        }
        Ok(FetchPlan::Local(chars_to_string(&p)))
    } else if crate::strutil::chars_start_with(&v, &httpp) || crate::strutil::chars_start_with(
        &v,
        &httpsp,
    ) {
        let i = crate::engine::World::after_last_slash_pub(&v);
        let f = chars_slice(&v, i, v.len());
        proof {
            assert(f@ =~= last_segment(url@));
        }
        if f.len() == 0 || crate::paths::has_dotdot_exec(&f) {
            return Err(
                UhpmError::UnsafePath(String::from_str("no usable filename in the URL")),
            );
        }
        Ok(FetchPlan::Remote(chars_to_string(&f)))
    } else {
        if crate::paths::has_dotdot_exec(&v) {
            return Err(
                UhpmError::UnsafePath(String::from_str("the path climbs out of its root")),
            );
        }
        proof {
            assert(v@ =~= url@);
        }
        Ok(FetchPlan::Local(chars_to_string(&v)))
    }
}

/// The archive entries a tuple list denotes.
pub open spec fn entries_of_tuples(ts: Seq<(Seq<char>, Seq<u8>, bool)>) -> Seq<
    crate::archive::SpecArchiveEntry,
> {
    ts.map_values(
        |t: (Seq<char>, Seq<u8>, bool)| crate::archive::SpecArchiveEntry {
            path: t.0,
            data: t.1,
            is_dir: t.2,
        },
    )
}

/// The entries a decodable archive carries.
pub open spec fn archive_entries(bytes: Seq<u8>) -> Seq<crate::archive::SpecArchiveEntry> {
    entries_of_tuples(untar_of(gunzip_of(bytes).unwrap()).unwrap())
}

/// An archive the coordinator can take end to end: it decompresses, lists,
/// escapes nothing, and carries an installable manifest and activation map.
pub open spec fn archive_ok(bytes: Seq<u8>, env: crate::paths::SpecEnv) -> bool {
    &&& crate::archive::archive_decodes(bytes)
    &&& installable(archive_entries(bytes), env)
}

/// An archive the coordinator can take end to end is accepted against every
/// catalog: success is owed for it no matter what is already installed.
pub proof fn lemma_archive_ok_accepted(
    c: crate::catalog::SpecCatalog,
    bytes: Seq<u8>,
    env: crate::paths::SpecEnv,
)
    requires
        archive_ok(bytes, env),
    ensures
        crate::archive::archive_decodes(bytes),
        crate::engine::install_accepted(c, archive_entries(bytes), env),
{
}

/// One archive's transition of the catalog and the filesystem: unchanged
/// when the exact pair is already recorded, a fresh install otherwise.
pub open spec fn spec_install_world(
    c: crate::catalog::SpecCatalog,
    fs: Seq<(Seq<char>, crate::fsmodel::SpecFsNode)>,
    es: Seq<crate::archive::SpecArchiveEntry>,
    root: Seq<char>,
    env: crate::paths::SpecEnv,
    direct: bool,
) -> (crate::catalog::SpecCatalog, Seq<(Seq<char>, crate::fsmodel::SpecFsNode)>) {
    let p = crate::engine::spec_manifest_of(es).unwrap();
    if crate::catalog::has_pkg(c, p.name, p.version) {
        (c, fs)
    } else {
        (
            crate::engine::spec_install_catalog(
                c,
                p,
                crate::engine::spec_install_files(fs, es, root, env, direct),
            ),
            crate::engine::spec_install_fs(fs, es, root, env, direct),
        )
    }
}

/// The state after installing fetched archives in order, or nothing when
/// some archive cannot be taken from where the previous ones leave off.
pub open spec fn spec_install_all(
    c: crate::catalog::SpecCatalog,
    fs: Seq<(Seq<char>, crate::fsmodel::SpecFsNode)>,
    archives: Seq<Seq<u8>>,
    root: Seq<char>,
    env: crate::paths::SpecEnv,
    direct: bool,
) -> Option<(crate::catalog::SpecCatalog, Seq<(Seq<char>, crate::fsmodel::SpecFsNode)>)>
    decreases archives.len(),
{
    if archives.len() == 0 {
        Some((c, fs))
    } else if crate::archive::archive_decodes(archives[0]) && crate::engine::install_accepted(
        c,
        archive_entries(archives[0]),
        env,
    ) {
        let next = spec_install_world(c, fs, archive_entries(archives[0]), root, env, direct);
        spec_install_all(next.0, next.1, archives.skip(1), root, env, direct)
    } else {
        None
    }
}

impl World {
    /// Unpacks one archive and installs it: succeeds exactly when the bytes
    /// decode to a safe archive the coordinator accepts, and then performs
    /// the install transition; a failure changes nothing.
    pub fn install_archive(&mut self, bytes: &Vec<u8>, direct: bool) -> (r: Result<(), UhpmError>)
        requires
            world_inv(*old(self)),
        ensures
            world_inv(*final(self)),
            final(self).root == old(self).root,
            final(self).env == old(self).env,
            r is Ok <==> crate::archive::archive_decodes(bytes@) && crate::engine::install_accepted(
                old(self).catalog@,
                archive_entries(bytes@),
                old(self).env@,
            ),
            r is Ok ==> (final(self).catalog@, final(self).fs@) == spec_install_world(
                old(self).catalog@,
                old(self).fs@,
                archive_entries(bytes@),
                old(self).root@,
                old(self).env@,
                direct,
            ),
            r is Err ==> final(self).catalog@ == old(self).catalog@ && final(self).fs@ == old(
                self,
            ).fs@,
    {
        let entries = match crate::archive::unpack_archive(bytes) {
            Ok(es) => es,
            Err(e) => {
                return Err(e);
            },
        };
        proof {
            assert(archive_entries(bytes@) =~= entries@.map_values(
                |e: crate::archive::ArchiveEntry| e@,
            ));
        }
        self.install_entries(&entries, direct)
    }

    /// Installs fetched archives one after the other, stopping at the first
    /// failure: fetches may land in any order, installs stay sequential.
    /// Succeeds exactly when every archive can be taken in turn, and then
    /// leaves the fold of the per-archive install transitions.
    pub fn install_fetched_packages(&mut self, archives: &Vec<Vec<u8>>, direct: bool) -> (r: Result<
        (),
        UhpmError,
    >)
        requires
            world_inv(*old(self)),
        ensures
            world_inv(*final(self)),
            final(self).root == old(self).root,
            final(self).env == old(self).env,
            ({
                let ga = archives@.map_values(|a: Vec<u8>| a@);
                match r {
                    Ok(()) => spec_install_all(
                        old(self).catalog@,
                        old(self).fs@,
                        ga,
                        old(self).root@,
                        old(self).env@,
                        direct,
                    ) == Some((final(self).catalog@, final(self).fs@)),
                    Err(_) => spec_install_all(
                        old(self).catalog@,
                        old(self).fs@,
                        ga,
                        old(self).root@,
                        old(self).env@,
                        direct,
                    ) is None,
                }
            }),
    {
        let ghost ga = archives@.map_values(|a: Vec<u8>| a@);
        let mut i: usize = 0;
        proof {
            assert(ga.skip(0) =~= ga);
        }
        while i < archives.len()
            invariant
                i <= archives@.len(),
                ga == archives@.map_values(|a: Vec<u8>| a@),
                ga.len() == archives@.len(),
                world_inv(*self),
                self.root == old(self).root,
                self.env == old(self).env,
                spec_install_all(
                    old(self).catalog@,
                    old(self).fs@,
                    ga,
                    old(self).root@,
                    old(self).env@,
                    direct,
                ) == spec_install_all(
                    self.catalog@,
                    self.fs@,
                    ga.skip(i as int),
                    self.root@,
                    self.env@,
                    direct,
                ),
            decreases archives.len() - i,
        {
            let ghost tail = ga.skip(i as int);
            proof {
                assert(tail.len() == ga.len() - i);
                assert(tail[0] == ga[i as int]);
                assert(ga[i as int] == archives@[i as int]@);
                assert(tail.skip(1) =~= ga.skip(i as int + 1));
            }
            match self.install_archive(&archives[i], direct) {
                Ok(()) => {},
                Err(e) => {
                    return Err(e);
                },
            }
            i = i + 1;
        }
        proof {
            assert(ga.skip(ga.len() as int) =~= Seq::<Seq<u8>>::empty());
        }
        Ok(())
    }
}

} // verus!
