//! The catalog: the relational record of installed state.
//!
//! Three tables: package rows keyed by `(name, version)` with an at-most-one
//! `current` flag per name, installed-file rows keyed by
//! `(name, version, path)` with a foreign key into the package table, and
//! dependency rows keyed by `(package, dependency-name)`. Every operation
//! preserves the catalog invariant.

use vstd::prelude::*;

use crate::manifest::{Package, Source, SpecSource};
use crate::version::{vlt, SpecVersion, Version};

verus! {

/// One row of the package table.
#[derive(Debug)]
pub struct PackageRow {
    pub name: String,
    pub version: Version,
    pub author: String,
    pub src: Source,
    pub checksum: String,
    pub current: bool,
}

pub struct SpecPackageRow {
    pub name: Seq<char>,
    pub version: SpecVersion,
    pub author: Seq<char>,
    pub src: SpecSource,
    pub checksum: Seq<char>,
    pub current: bool,
}

impl View for PackageRow {
    type V = SpecPackageRow;

    open spec fn view(&self) -> SpecPackageRow {
        SpecPackageRow {
            name: self.name@,
            version: self.version@,
            author: self.author@,
            src: self.src@,
            checksum: self.checksum@,
            current: self.current,
        }
    }
}

impl Clone for PackageRow {
    fn clone(&self) -> (r: Self)
        ensures
            r@ == self@,
    {
        PackageRow {
            name: self.name.clone(),
            version: self.version.clone(),
            author: self.author.clone(),
            src: self.src.clone(),
            checksum: self.checksum.clone(),
            current: self.current,
        }
    }
}

/// One row of the installed-files table.
#[derive(Debug)]
pub struct FileRow {
    pub name: String,
    pub version: Version,
    pub path: String,
}

pub struct SpecFileRow {
    pub name: Seq<char>,
    pub version: SpecVersion,
    pub path: Seq<char>,
}

impl View for FileRow {
    type V = SpecFileRow;

    open spec fn view(&self) -> SpecFileRow {
        SpecFileRow { name: self.name@, version: self.version@, path: self.path@ }
    }
}

impl Clone for FileRow {
    fn clone(&self) -> (r: Self)
        ensures
            r@ == self@,
    {
        FileRow { name: self.name.clone(), version: self.version.clone(), path: self.path.clone() }
    }
}

/// One row of the dependencies table.
#[derive(Debug)]
pub struct DepRow {
    pub package: String,
    pub dep_name: String,
    pub dep_version: Version,
}

pub struct SpecDepRow {
    pub package: Seq<char>,
    pub dep_name: Seq<char>,
    pub dep_version: SpecVersion,
}

impl View for DepRow {
    type V = SpecDepRow;

    open spec fn view(&self) -> SpecDepRow {
        SpecDepRow {
            package: self.package@,
            dep_name: self.dep_name@,
            dep_version: self.dep_version@,
        }
    }
}

impl Clone for DepRow {
    fn clone(&self) -> (r: Self)
        ensures
            r@ == self@,
    {
        DepRow {
            package: self.package.clone(),
            dep_name: self.dep_name.clone(),
            dep_version: self.dep_version.clone(),
        }
    }
}

/// The catalog's three tables.
#[derive(Debug)]
pub struct Catalog {
    pub packages: Vec<PackageRow>,
    pub files: Vec<FileRow>,
    pub deps: Vec<DepRow>,
}

pub struct SpecCatalog {
    pub packages: Seq<SpecPackageRow>,
    pub files: Seq<SpecFileRow>,
    pub deps: Seq<SpecDepRow>,
}

impl View for Catalog {
    type V = SpecCatalog;

    open spec fn view(&self) -> SpecCatalog {
        SpecCatalog {
            packages: self.packages@.map_values(|r: PackageRow| r@),
            files: self.files@.map_values(|r: FileRow| r@),
            deps: self.deps@.map_values(|r: DepRow| r@),
        }
    }
}

/// Some package row carries `(name, version)`.
pub open spec fn has_pkg(c: SpecCatalog, name: Seq<char>, version: SpecVersion) -> bool {
    exists|i: int|
        0 <= i < c.packages.len() && (#[trigger] c.packages[i]).name == name && c.packages[i].version
            == version
}

/// Some package row carries `name`.
pub open spec fn has_name(c: SpecCatalog, name: Seq<char>) -> bool {
    exists|i: int| 0 <= i < c.packages.len() && (#[trigger] c.packages[i]).name == name
}

/// The catalog invariant: unique primary keys in all three tables, at most
/// one current version per name, and every installed-file row owned by an
/// existing package row.
pub open spec fn cat_inv(c: SpecCatalog) -> bool {
    &&& forall|i: int, j: int|
        0 <= i < j < c.packages.len() ==> !((#[trigger] c.packages[i]).name
            == (#[trigger] c.packages[j]).name && c.packages[i].version == c.packages[j].version)
    &&& forall|i: int, j: int|
        0 <= i < j < c.packages.len() ==> !((#[trigger] c.packages[i]).name
            == (#[trigger] c.packages[j]).name && c.packages[i].current && c.packages[j].current)
    &&& forall|i: int, j: int|
        0 <= i < j < c.files.len() ==> !((#[trigger] c.files[i]).name
            == (#[trigger] c.files[j]).name && c.files[i].version == c.files[j].version
            && c.files[i].path == c.files[j].path)
    &&& forall|i: int|
        0 <= i < c.files.len() ==> has_pkg(c, (#[trigger] c.files[i]).name, c.files[i].version)
    &&& forall|i: int, j: int|
        0 <= i < j < c.deps.len() ==> !((#[trigger] c.deps[i]).package
            == (#[trigger] c.deps[j]).package && c.deps[i].dep_name == c.deps[j].dep_name)
}

} // verus!

verus! {

use vstd::pervasive::VecAdditionalExecFns;
use crate::UhpmError;

// ---------------------------------------------------------------------------
// Table operations, as spec functions
// ---------------------------------------------------------------------------

/// The package rows with the `(name, version)` key removed, order kept.
pub open spec fn pkgs_drop_key(
    rows: Seq<SpecPackageRow>,
    name: Seq<char>,
    version: SpecVersion,
) -> Seq<SpecPackageRow>
    decreases rows.len(),
{
    if rows.len() == 0 {
        Seq::empty()
    } else {
        let rest = pkgs_drop_key(rows.drop_last(), name, version);
        if rows.last().name == name && rows.last().version == version {
            rest
        } else {
            rest.push(rows.last())
        }
    }
}

/// The package rows with every row of `name` removed, order kept.
pub open spec fn pkgs_drop_name(rows: Seq<SpecPackageRow>, name: Seq<char>) -> Seq<
    SpecPackageRow,
>
    decreases rows.len(),
{
    if rows.len() == 0 {
        Seq::empty()
    } else {
        let rest = pkgs_drop_name(rows.drop_last(), name);
        if rows.last().name == name {
            rest
        } else {
            rest.push(rows.last())
        }
    }
}

/// The file rows with the `(name, version)` key removed, order kept.
pub open spec fn files_drop_key(
    rows: Seq<SpecFileRow>,
    name: Seq<char>,
    version: SpecVersion,
) -> Seq<SpecFileRow>
    decreases rows.len(),
{
    if rows.len() == 0 {
        Seq::empty()
    } else {
        let rest = files_drop_key(rows.drop_last(), name, version);
        if rows.last().name == name && rows.last().version == version {
            rest
        } else {
            rest.push(rows.last())
        }
    }
}

/// The file rows with every row of `name` removed, order kept.
pub open spec fn files_drop_name(rows: Seq<SpecFileRow>, name: Seq<char>) -> Seq<SpecFileRow>
    decreases rows.len(),
{
    if rows.len() == 0 {
        Seq::empty()
    } else {
        let rest = files_drop_name(rows.drop_last(), name);
        if rows.last().name == name {
            rest
        } else {
            rest.push(rows.last())
        }
    }
}

/// The dependency rows with every row owned by `name` removed, order kept.
pub open spec fn deps_drop_name(rows: Seq<SpecDepRow>, name: Seq<char>) -> Seq<SpecDepRow>
    decreases rows.len(),
{
    if rows.len() == 0 {
        Seq::empty()
    } else {
        let rest = deps_drop_name(rows.drop_last(), name);
        if rows.last().package == name {
            rest
        } else {
            rest.push(rows.last())
        }
    }
}

// ---------------------------------------------------------------------------
// What the dropped tables contain
// ---------------------------------------------------------------------------

/// Rows surviving `pkgs_drop_key` are rows of the original, in order, and
/// exactly those whose key differs.
pub proof fn lemma_pkgs_drop_key(rows: Seq<SpecPackageRow>, name: Seq<char>, v: SpecVersion)
    ensures
        forall|i: int|
            0 <= i < pkgs_drop_key(rows, name, v).len() ==> !((#[trigger] pkgs_drop_key(
                rows,
                name,
                v,
            )[i]).name == name && pkgs_drop_key(rows, name, v)[i].version == v),
        forall|i: int, j: int|
            0 <= i < j < pkgs_drop_key(rows, name, v).len() ==> exists|k1: int, k2: int|
                0 <= k1 < k2 < rows.len() && rows[k1] == #[trigger] pkgs_drop_key(rows, name, v)[i]
                    && rows[k2] == #[trigger] pkgs_drop_key(rows, name, v)[j],
        forall|i: int|
            0 <= i < pkgs_drop_key(rows, name, v).len() ==> rows.contains(
                #[trigger] pkgs_drop_key(rows, name, v)[i],
            ),
        forall|k: int|
            0 <= k < rows.len() && !((#[trigger] rows[k]).name == name && rows[k].version == v)
                ==> pkgs_drop_key(rows, name, v).contains(rows[k]),
    decreases rows.len(),
{
    if rows.len() > 0 {
        lemma_pkgs_drop_key(rows.drop_last(), name, v);
        let f = pkgs_drop_key(rows, name, v);
        let fb = pkgs_drop_key(rows.drop_last(), name, v);
        assert forall|i: int| 0 <= i < f.len() implies rows.contains(f[i]) by {
            if i < fb.len() {
                assert(rows.drop_last().contains(fb[i]));
                let k = choose|k: int|
                    0 <= k < rows.drop_last().len() && rows.drop_last()[k] == fb[i];
                assert(rows[k] == f[i]);
            } else {
                assert(f[i] == rows.last());
                assert(rows[rows.len() - 1] == rows.last());
            }
        }
        assert forall|i: int, j: int| 0 <= i < j < f.len() implies exists|k1: int, k2: int|
            0 <= k1 < k2 < rows.len() && rows[k1] == #[trigger] f[i] && rows[k2]
                == #[trigger] f[j] by {
            if j < fb.len() {
                let (k1, k2) = choose|k1: int, k2: int|
                    0 <= k1 < k2 < rows.drop_last().len() && rows.drop_last()[k1] == fb[i]
                        && rows.drop_last()[k2] == fb[j];
                assert(rows[k1] == f[i] && rows[k2] == f[j]);
            } else {
                assert(f[j] == rows.last());
                assert(rows.drop_last().contains(fb[i]));
                let k1 = choose|k: int|
                    0 <= k < rows.drop_last().len() && rows.drop_last()[k] == fb[i];
                assert(rows[k1] == f[i]);
                assert(rows[rows.len() - 1] == f[j]);
            }
        }
        assert forall|k: int|
            0 <= k < rows.len() && !((#[trigger] rows[k]).name == name && rows[k].version == v)
             implies f.contains(rows[k]) by {
            if k < rows.len() - 1 {
                assert(rows.drop_last()[k] == rows[k]);
                assert(fb.contains(rows[k]));
                let m = choose|m: int| 0 <= m < fb.len() && fb[m] == rows[k];
                assert(f[m] == rows[k]);
            } else {
                assert(rows[k] == rows.last());
                assert(f[f.len() - 1] == rows.last());
            }
        }
    }
}

} // verus!
verus! {

/// Rows surviving `pkgs_drop_name` are rows of the original, in order, and
/// exactly those the predicate keeps.
pub proof fn lemma_pkgs_drop_name(rows: Seq<SpecPackageRow>, name: Seq<char>)
    ensures
        forall|i: int|
            0 <= i < pkgs_drop_name(rows, name).len() ==> !((#[trigger] pkgs_drop_name(rows, name)[i]).name == name),
        forall|i: int, j: int|
            0 <= i < j < pkgs_drop_name(rows, name).len() ==> exists|k1: int, k2: int|
                0 <= k1 < k2 < rows.len() && rows[k1] == #[trigger] pkgs_drop_name(rows, name)[i]
                    && rows[k2] == #[trigger] pkgs_drop_name(rows, name)[j],
        forall|i: int|
            0 <= i < pkgs_drop_name(rows, name).len() ==> rows.contains(
                #[trigger] pkgs_drop_name(rows, name)[i],
            ),
        forall|k: int|
            0 <= k < rows.len() && !((#[trigger] rows[k]).name == name)
                ==> pkgs_drop_name(rows, name).contains(rows[k]),
    decreases rows.len(),
{
    if rows.len() > 0 {
        lemma_pkgs_drop_name(rows.drop_last(), name);
        let f = pkgs_drop_name(rows, name);
        let fb = pkgs_drop_name(rows.drop_last(), name);
        assert forall|i: int| 0 <= i < f.len() implies rows.contains(f[i]) by {
            if i < fb.len() {
                assert(rows.drop_last().contains(fb[i]));
                let k = choose|k: int|
                    0 <= k < rows.drop_last().len() && rows.drop_last()[k] == fb[i];
                assert(rows[k] == f[i]);
            } else {
                assert(f[i] == rows.last());
                assert(rows[rows.len() - 1] == rows.last());
            }
        }
        assert forall|i: int, j: int| 0 <= i < j < f.len() implies exists|k1: int, k2: int|
            0 <= k1 < k2 < rows.len() && rows[k1] == #[trigger] f[i] && rows[k2]
                == #[trigger] f[j] by {
            if j < fb.len() {
                let (k1, k2) = choose|k1: int, k2: int|
                    0 <= k1 < k2 < rows.drop_last().len() && rows.drop_last()[k1] == fb[i]
                        && rows.drop_last()[k2] == fb[j];
                assert(rows[k1] == f[i] && rows[k2] == f[j]);
            } else {
                assert(f[j] == rows.last());
                assert(rows.drop_last().contains(fb[i]));
                let k1 = choose|k: int|
                    0 <= k < rows.drop_last().len() && rows.drop_last()[k] == fb[i];
                assert(rows[k1] == f[i]);
                assert(rows[rows.len() - 1] == f[j]);
            }
        }
        assert forall|k: int|
            0 <= k < rows.len() && !((#[trigger] rows[k]).name == name)
             implies f.contains(rows[k]) by {
            if k < rows.len() - 1 {
                assert(rows.drop_last()[k] == rows[k]);
                assert(fb.contains(rows[k]));
                let m = choose|m: int| 0 <= m < fb.len() && fb[m] == rows[k];
                assert(f[m] == rows[k]);
            } else {
                assert(rows[k] == rows.last());
                assert(f[f.len() - 1] == rows.last());
            }
        }
    }
}

/// Rows surviving `files_drop_key` are rows of the original, in order, and
/// exactly those the predicate keeps.
pub proof fn lemma_files_drop_key(rows: Seq<SpecFileRow>, name: Seq<char>, v: SpecVersion)
    ensures
        forall|i: int|
            0 <= i < files_drop_key(rows, name, v).len() ==> !((#[trigger] files_drop_key(rows, name, v)[i]).name == name && files_drop_key(rows, name, v)[i].version == v),
        forall|i: int, j: int|
            0 <= i < j < files_drop_key(rows, name, v).len() ==> exists|k1: int, k2: int|
                0 <= k1 < k2 < rows.len() && rows[k1] == #[trigger] files_drop_key(rows, name, v)[i]
                    && rows[k2] == #[trigger] files_drop_key(rows, name, v)[j],
        forall|i: int|
            0 <= i < files_drop_key(rows, name, v).len() ==> rows.contains(
                #[trigger] files_drop_key(rows, name, v)[i],
            ),
        forall|k: int|
            0 <= k < rows.len() && !((#[trigger] rows[k]).name == name && rows[k].version == v)
                ==> files_drop_key(rows, name, v).contains(rows[k]),
    decreases rows.len(),
{
    if rows.len() > 0 {
        lemma_files_drop_key(rows.drop_last(), name, v);
        let f = files_drop_key(rows, name, v);
        let fb = files_drop_key(rows.drop_last(), name, v);
        assert forall|i: int| 0 <= i < f.len() implies rows.contains(f[i]) by {
            if i < fb.len() {
                assert(rows.drop_last().contains(fb[i]));
                let k = choose|k: int|
                    0 <= k < rows.drop_last().len() && rows.drop_last()[k] == fb[i];
                assert(rows[k] == f[i]);
            } else {
                assert(f[i] == rows.last());
                assert(rows[rows.len() - 1] == rows.last());
            }
        }
        assert forall|i: int, j: int| 0 <= i < j < f.len() implies exists|k1: int, k2: int|
            0 <= k1 < k2 < rows.len() && rows[k1] == #[trigger] f[i] && rows[k2]
                == #[trigger] f[j] by {
            if j < fb.len() {
                let (k1, k2) = choose|k1: int, k2: int|
                    0 <= k1 < k2 < rows.drop_last().len() && rows.drop_last()[k1] == fb[i]
                        && rows.drop_last()[k2] == fb[j];
                assert(rows[k1] == f[i] && rows[k2] == f[j]);
            } else {
                assert(f[j] == rows.last());
                assert(rows.drop_last().contains(fb[i]));
                let k1 = choose|k: int|
                    0 <= k < rows.drop_last().len() && rows.drop_last()[k] == fb[i];
                assert(rows[k1] == f[i]);
                assert(rows[rows.len() - 1] == f[j]);
            }
        }
        assert forall|k: int|
            0 <= k < rows.len() && !((#[trigger] rows[k]).name == name && rows[k].version == v)
             implies f.contains(rows[k]) by {
            if k < rows.len() - 1 {
                assert(rows.drop_last()[k] == rows[k]);
                assert(fb.contains(rows[k]));
                let m = choose|m: int| 0 <= m < fb.len() && fb[m] == rows[k];
                assert(f[m] == rows[k]);
            } else {
                assert(rows[k] == rows.last());
                assert(f[f.len() - 1] == rows.last());
            }
        }
    }
}

/// Rows surviving `files_drop_name` are rows of the original, in order, and
/// exactly those the predicate keeps.
pub proof fn lemma_files_drop_name(rows: Seq<SpecFileRow>, name: Seq<char>)
    ensures
        forall|i: int|
            0 <= i < files_drop_name(rows, name).len() ==> !((#[trigger] files_drop_name(rows, name)[i]).name == name),
        forall|i: int, j: int|
            0 <= i < j < files_drop_name(rows, name).len() ==> exists|k1: int, k2: int|
                0 <= k1 < k2 < rows.len() && rows[k1] == #[trigger] files_drop_name(rows, name)[i]
                    && rows[k2] == #[trigger] files_drop_name(rows, name)[j],
        forall|i: int|
            0 <= i < files_drop_name(rows, name).len() ==> rows.contains(
                #[trigger] files_drop_name(rows, name)[i],
            ),
        forall|k: int|
            0 <= k < rows.len() && !((#[trigger] rows[k]).name == name)
                ==> files_drop_name(rows, name).contains(rows[k]),
    decreases rows.len(),
{
    if rows.len() > 0 {
        lemma_files_drop_name(rows.drop_last(), name);
        let f = files_drop_name(rows, name);
        let fb = files_drop_name(rows.drop_last(), name);
        assert forall|i: int| 0 <= i < f.len() implies rows.contains(f[i]) by {
            if i < fb.len() {
                assert(rows.drop_last().contains(fb[i]));
                let k = choose|k: int|
                    0 <= k < rows.drop_last().len() && rows.drop_last()[k] == fb[i];
                assert(rows[k] == f[i]);
            } else {
                assert(f[i] == rows.last());
                assert(rows[rows.len() - 1] == rows.last());
            }
        }
        assert forall|i: int, j: int| 0 <= i < j < f.len() implies exists|k1: int, k2: int|
            0 <= k1 < k2 < rows.len() && rows[k1] == #[trigger] f[i] && rows[k2]
                == #[trigger] f[j] by {
            if j < fb.len() {
                let (k1, k2) = choose|k1: int, k2: int|
                    0 <= k1 < k2 < rows.drop_last().len() && rows.drop_last()[k1] == fb[i]
                        && rows.drop_last()[k2] == fb[j];
                assert(rows[k1] == f[i] && rows[k2] == f[j]);
            } else {
                assert(f[j] == rows.last());
                assert(rows.drop_last().contains(fb[i]));
                let k1 = choose|k: int|
                    0 <= k < rows.drop_last().len() && rows.drop_last()[k] == fb[i];
                assert(rows[k1] == f[i]);
                assert(rows[rows.len() - 1] == f[j]);
            }
        }
        assert forall|k: int|
            0 <= k < rows.len() && !((#[trigger] rows[k]).name == name)
             implies f.contains(rows[k]) by {
            if k < rows.len() - 1 {
                assert(rows.drop_last()[k] == rows[k]);
                assert(fb.contains(rows[k]));
                let m = choose|m: int| 0 <= m < fb.len() && fb[m] == rows[k];
                assert(f[m] == rows[k]);
            } else {
                assert(rows[k] == rows.last());
                assert(f[f.len() - 1] == rows.last());
            }
        }
    }
}

/// Rows surviving `deps_drop_name` are rows of the original, in order, and
/// exactly those the predicate keeps.
pub proof fn lemma_deps_drop_name(rows: Seq<SpecDepRow>, name: Seq<char>)
    ensures
        forall|i: int|
            0 <= i < deps_drop_name(rows, name).len() ==> !((#[trigger] deps_drop_name(rows, name)[i]).package == name),
        forall|i: int, j: int|
            0 <= i < j < deps_drop_name(rows, name).len() ==> exists|k1: int, k2: int|
                0 <= k1 < k2 < rows.len() && rows[k1] == #[trigger] deps_drop_name(rows, name)[i]
                    && rows[k2] == #[trigger] deps_drop_name(rows, name)[j],
        forall|i: int|
            0 <= i < deps_drop_name(rows, name).len() ==> rows.contains(
                #[trigger] deps_drop_name(rows, name)[i],
            ),
        forall|k: int|
            0 <= k < rows.len() && !((#[trigger] rows[k]).package == name)
                ==> deps_drop_name(rows, name).contains(rows[k]),
    decreases rows.len(),
{
    if rows.len() > 0 {
        lemma_deps_drop_name(rows.drop_last(), name);
        let f = deps_drop_name(rows, name);
        let fb = deps_drop_name(rows.drop_last(), name);
        assert forall|i: int| 0 <= i < f.len() implies rows.contains(f[i]) by {
            if i < fb.len() {
                assert(rows.drop_last().contains(fb[i]));
                let k = choose|k: int|
                    0 <= k < rows.drop_last().len() && rows.drop_last()[k] == fb[i];
                assert(rows[k] == f[i]);
            } else {
                assert(f[i] == rows.last());
                assert(rows[rows.len() - 1] == rows.last());
            }
        }
        assert forall|i: int, j: int| 0 <= i < j < f.len() implies exists|k1: int, k2: int|
            0 <= k1 < k2 < rows.len() && rows[k1] == #[trigger] f[i] && rows[k2]
                == #[trigger] f[j] by {
            if j < fb.len() {
                let (k1, k2) = choose|k1: int, k2: int|
                    0 <= k1 < k2 < rows.drop_last().len() && rows.drop_last()[k1] == fb[i]
                        && rows.drop_last()[k2] == fb[j];
                assert(rows[k1] == f[i] && rows[k2] == f[j]);
            } else {
                assert(f[j] == rows.last());
                assert(rows.drop_last().contains(fb[i]));
                let k1 = choose|k: int|
                    0 <= k < rows.drop_last().len() && rows.drop_last()[k] == fb[i];
                assert(rows[k1] == f[i]);
                assert(rows[rows.len() - 1] == f[j]);
            }
        }
        assert forall|k: int|
            0 <= k < rows.len() && !((#[trigger] rows[k]).package == name)
             implies f.contains(rows[k]) by {
            if k < rows.len() - 1 {
                assert(rows.drop_last()[k] == rows[k]);
                assert(fb.contains(rows[k]));
                let m = choose|m: int| 0 <= m < fb.len() && fb[m] == rows[k];
                assert(f[m] == rows[k]);
            } else {
                assert(rows[k] == rows.last());
                assert(f[f.len() - 1] == rows.last());
            }
        }
    }
}

} // verus!
verus! {

/// Keeps the rows that `pkgs_drop_key` keeps.
fn pkgs_remove_key(rows: &mut Vec<PackageRow>, name: &String, version: &Version)
    ensures
        final(rows)@.map_values(|r: PackageRow| r@) == pkgs_drop_key(old(rows)@.map_values(
            |r: PackageRow| r@,
        ), name@, version@),
{
    let ghost g = rows@.map_values(|r: PackageRow| r@);
    let mut kept: Vec<PackageRow> = Vec::new();
    let mut i: usize = 0;
    proof {
        assert(g.subrange(0, 0) =~= Seq::<SpecPackageRow>::empty());
        assert(kept@.map_values(|r: PackageRow| r@) =~= pkgs_drop_key(g.subrange(0, 0), name@, version@));
    }
    while i < rows.len()
        invariant
            i <= rows@.len(),
            g == rows@.map_values(|r: PackageRow| r@),
            g.len() == rows@.len(),
            kept@.map_values(|r: PackageRow| r@) == pkgs_drop_key(g.subrange(0, i as int), name@, version@),
        decreases rows.len() - i,
    {
        proof {
            assert(g[i as int] == rows@[i as int]@);
        }
        let ghost kept_before = kept@;
        let row = &rows[i];
        if !(row.name == *name && row.version.eq(version)) {
            kept.push(row.clone());
            proof {
                assert(kept@.map_values(|r: PackageRow| r@) =~= kept_before.map_values(
                    |r: PackageRow| r@,
                ).push(g[i as int]));
            }
        }
        proof {
            let pre = g.subrange(0, i as int);
            let ext = g.subrange(0, i as int + 1);
            assert(ext.drop_last() =~= pre);
            assert(ext.last() == g[i as int]);
            assert(kept@.map_values(|r: PackageRow| r@) =~= pkgs_drop_key(ext, name@, version@));
        }
        i = i + 1;
    }
    proof {
        assert(g.subrange(0, g.len() as int) =~= g);
    }
    *rows = kept;
}

/// Keeps the rows that `pkgs_drop_name` keeps.
fn pkgs_remove_name(rows: &mut Vec<PackageRow>, name: &String)
    ensures
        final(rows)@.map_values(|r: PackageRow| r@) == pkgs_drop_name(old(rows)@.map_values(
            |r: PackageRow| r@,
        ), name@),
{
    let ghost g = rows@.map_values(|r: PackageRow| r@);
    let mut kept: Vec<PackageRow> = Vec::new();
    let mut i: usize = 0;
    proof {
        assert(g.subrange(0, 0) =~= Seq::<SpecPackageRow>::empty());
        assert(kept@.map_values(|r: PackageRow| r@) =~= pkgs_drop_name(g.subrange(0, 0), name@));
    }
    while i < rows.len()
        invariant
            i <= rows@.len(),
            g == rows@.map_values(|r: PackageRow| r@),
            g.len() == rows@.len(),
            kept@.map_values(|r: PackageRow| r@) == pkgs_drop_name(g.subrange(0, i as int), name@),
        decreases rows.len() - i,
    {
        proof {
            assert(g[i as int] == rows@[i as int]@);
        }
        let ghost kept_before = kept@;
        let row = &rows[i];
        if !(row.name == *name) {
            kept.push(row.clone());
            proof {
                assert(kept@.map_values(|r: PackageRow| r@) =~= kept_before.map_values(
                    |r: PackageRow| r@,
                ).push(g[i as int]));
            }
        }
        proof {
            let pre = g.subrange(0, i as int);
            let ext = g.subrange(0, i as int + 1);
            assert(ext.drop_last() =~= pre);
            assert(ext.last() == g[i as int]);
            assert(kept@.map_values(|r: PackageRow| r@) =~= pkgs_drop_name(ext, name@));
        }
        i = i + 1;
    }
    proof {
        assert(g.subrange(0, g.len() as int) =~= g);
    }
    *rows = kept;
}

/// Keeps the rows that `files_drop_key` keeps.
fn files_remove_key(rows: &mut Vec<FileRow>, name: &String, version: &Version)
    ensures
        final(rows)@.map_values(|r: FileRow| r@) == files_drop_key(old(rows)@.map_values(
            |r: FileRow| r@,
        ), name@, version@),
{
    let ghost g = rows@.map_values(|r: FileRow| r@);
    let mut kept: Vec<FileRow> = Vec::new();
    let mut i: usize = 0;
    proof {
        assert(g.subrange(0, 0) =~= Seq::<SpecFileRow>::empty());
        assert(kept@.map_values(|r: FileRow| r@) =~= files_drop_key(g.subrange(0, 0), name@, version@));
    }
    while i < rows.len()
        invariant
            i <= rows@.len(),
            g == rows@.map_values(|r: FileRow| r@),
            g.len() == rows@.len(),
            kept@.map_values(|r: FileRow| r@) == files_drop_key(g.subrange(0, i as int), name@, version@),
        decreases rows.len() - i,
    {
        proof {
            assert(g[i as int] == rows@[i as int]@);
        }
        let ghost kept_before = kept@;
        let row = &rows[i];
        if !(row.name == *name && row.version.eq(version)) {
            kept.push(row.clone());
            proof {
                assert(kept@.map_values(|r: FileRow| r@) =~= kept_before.map_values(
                    |r: FileRow| r@,
                ).push(g[i as int]));
            }
        }
        proof {
            let pre = g.subrange(0, i as int);
            let ext = g.subrange(0, i as int + 1);
            assert(ext.drop_last() =~= pre);
            assert(ext.last() == g[i as int]);
            assert(kept@.map_values(|r: FileRow| r@) =~= files_drop_key(ext, name@, version@));
        }
        i = i + 1;
    }
    proof {
        assert(g.subrange(0, g.len() as int) =~= g);
    }
    *rows = kept;
}

/// Keeps the rows that `files_drop_name` keeps.
fn files_remove_name(rows: &mut Vec<FileRow>, name: &String)
    ensures
        final(rows)@.map_values(|r: FileRow| r@) == files_drop_name(old(rows)@.map_values(
            |r: FileRow| r@,
        ), name@),
{
    let ghost g = rows@.map_values(|r: FileRow| r@);
    let mut kept: Vec<FileRow> = Vec::new();
    let mut i: usize = 0;
    proof {
        assert(g.subrange(0, 0) =~= Seq::<SpecFileRow>::empty());
        assert(kept@.map_values(|r: FileRow| r@) =~= files_drop_name(g.subrange(0, 0), name@));
    }
    while i < rows.len()
        invariant
            i <= rows@.len(),
            g == rows@.map_values(|r: FileRow| r@),
            g.len() == rows@.len(),
            kept@.map_values(|r: FileRow| r@) == files_drop_name(g.subrange(0, i as int), name@),
        decreases rows.len() - i,
    {
        proof {
            assert(g[i as int] == rows@[i as int]@);
        }
        let ghost kept_before = kept@;
        let row = &rows[i];
        if !(row.name == *name) {
            kept.push(row.clone());
            proof {
                assert(kept@.map_values(|r: FileRow| r@) =~= kept_before.map_values(
                    |r: FileRow| r@,
                ).push(g[i as int]));
            }
        }
        proof {
            let pre = g.subrange(0, i as int);
            let ext = g.subrange(0, i as int + 1);
            assert(ext.drop_last() =~= pre);
            assert(ext.last() == g[i as int]);
            assert(kept@.map_values(|r: FileRow| r@) =~= files_drop_name(ext, name@));
        }
        i = i + 1;
    }
    proof {
        assert(g.subrange(0, g.len() as int) =~= g);
    }
    *rows = kept;
}

/// Keeps the rows that `deps_drop_name` keeps.
fn deps_remove_name(rows: &mut Vec<DepRow>, name: &String)
    ensures
        final(rows)@.map_values(|r: DepRow| r@) == deps_drop_name(old(rows)@.map_values(
            |r: DepRow| r@,
        ), name@),
{
    let ghost g = rows@.map_values(|r: DepRow| r@);
    let mut kept: Vec<DepRow> = Vec::new();
    let mut i: usize = 0;
    proof {
        assert(g.subrange(0, 0) =~= Seq::<SpecDepRow>::empty());
        assert(kept@.map_values(|r: DepRow| r@) =~= deps_drop_name(g.subrange(0, 0), name@));
    }
    while i < rows.len()
        invariant
            i <= rows@.len(),
            g == rows@.map_values(|r: DepRow| r@),
            g.len() == rows@.len(),
            kept@.map_values(|r: DepRow| r@) == deps_drop_name(g.subrange(0, i as int), name@),
        decreases rows.len() - i,
    {
        proof {
            assert(g[i as int] == rows@[i as int]@);
        }
        let ghost kept_before = kept@;
        let row = &rows[i];
        if !(row.package == *name) {
            kept.push(row.clone());
            proof {
                assert(kept@.map_values(|r: DepRow| r@) =~= kept_before.map_values(
                    |r: DepRow| r@,
                ).push(g[i as int]));
            }
        }
        proof {
            let pre = g.subrange(0, i as int);
            let ext = g.subrange(0, i as int + 1);
            assert(ext.drop_last() =~= pre);
            assert(ext.last() == g[i as int]);
            assert(kept@.map_values(|r: DepRow| r@) =~= deps_drop_name(ext, name@));
        }
        i = i + 1;
    }
    proof {
        assert(g.subrange(0, g.len() as int) =~= g);
    }
    *rows = kept;
}

} // verus!

verus! {

// ---------------------------------------------------------------------------
// Row construction
// ---------------------------------------------------------------------------

/// The package row a manifest upserts; `current` starts false.
pub open spec fn pkg_row_of(p: crate::manifest::SpecPackage) -> SpecPackageRow {
    SpecPackageRow {
        name: p.name,
        version: p.version,
        author: p.author,
        src: p.src,
        checksum: p.checksum,
        current: false,
    }
}

/// The file rows recorded for a manifest and its activation paths.
pub open spec fn file_rows_of(p: crate::manifest::SpecPackage, paths: Seq<Seq<char>>) -> Seq<
    SpecFileRow,
> {
    paths.map_values(|path: Seq<char>| SpecFileRow { name: p.name, version: p.version, path })
}

/// The dependency rows recorded for a manifest.
pub open spec fn dep_rows_of(p: crate::manifest::SpecPackage) -> Seq<SpecDepRow> {
    p.dependencies.map_values(
        |d: crate::manifest::SpecDependency| SpecDepRow {
            package: p.name,
            dep_name: d.name,
            dep_version: d.version,
        },
    )
}

/// The package rows after electing `(name, version)` current: the flag is
/// recomputed for every row of `name` and untouched elsewhere.
pub open spec fn set_current_rows(
    rows: Seq<SpecPackageRow>,
    name: Seq<char>,
    version: SpecVersion,
) -> Seq<SpecPackageRow> {
    rows.map_values(
        |r: SpecPackageRow| SpecPackageRow {
            current: if r.name == name {
                r.version == version
            } else {
                r.current
            },
            ..r
        },
    )
}

impl Catalog {
    /// An empty catalog.
    pub fn new() -> (r: Catalog)
        ensures
            r@.packages.len() == 0,
            r@.files.len() == 0,
            r@.deps.len() == 0,
            cat_inv(r@),
    {
        let r = Catalog { packages: Vec::new(), files: Vec::new(), deps: Vec::new() };
        proof {
            assert(r@.packages =~= Seq::<SpecPackageRow>::empty());
            assert(r@.files =~= Seq::<SpecFileRow>::empty());
            assert(r@.deps =~= Seq::<SpecDepRow>::empty());
        }
        r
    }

    /// Upserts the package row for a manifest, with `current` false. Files
    /// and dependencies are untouched.
    pub fn add_package(&mut self, pkg: &Package)
        requires
            cat_inv(old(self)@),
        ensures
            cat_inv(final(self)@),
            final(self)@.packages == pkgs_drop_key(old(self)@.packages, pkg@.name, pkg@.version)
                .push(pkg_row_of(pkg@)),
            final(self)@.files == old(self)@.files,
            final(self)@.deps == old(self)@.deps,
    {
        let ghost oldp = self@.packages;
        pkgs_remove_key(&mut self.packages, &pkg.name, &pkg.version);
        let row = PackageRow {
            name: pkg.name.clone(),
            version: pkg.version.clone(),
            author: pkg.author.clone(),
            src: pkg.src.clone(),
            checksum: pkg.checksum.clone(),
            current: false,
        };
        proof {
            assert(row@ == pkg_row_of(pkg@));
        }
        let ghost dropped = self@.packages;
        self.packages.push(row);
        proof {
            assert(self@.packages =~= dropped.push(pkg_row_of(pkg@)));
            assert(dropped == pkgs_drop_key(oldp, pkg@.name, pkg@.version));
            lemma_pkgs_drop_key(oldp, pkg@.name, pkg@.version);
            let newp = self@.packages;
            // Unique keys and unique current flags.
            assert forall|i: int, j: int| 0 <= i < j < newp.len() implies !((
            #[trigger] newp[i]).name == (#[trigger] newp[j]).name && newp[i].version
                == newp[j].version) && !(newp[i].name == newp[j].name && newp[i].current
                && newp[j].current) by {
                if j < dropped.len() {
                    let (k1, k2) = choose|k1: int, k2: int|
                        0 <= k1 < k2 < oldp.len() && oldp[k1] == dropped[i] && oldp[k2]
                            == dropped[j];
                } else {
                    assert(newp[j] == pkg_row_of(pkg@));
                    assert(!(dropped[i].name == pkg@.name && dropped[i].version == pkg@.version));
                }
            }
            // Unchanged tables keep their uniqueness.
            assert(final(self)@.deps == old(self)@.deps);
            assert forall|i: int, j: int| 0 <= i < j < final(self)@.files.len() implies !((
            #[trigger] final(self)@.files[i]).name == (#[trigger] final(self)@.files[j]).name
                && final(self)@.files[i].version == final(self)@.files[j].version
                && final(self)@.files[i].path == final(self)@.files[j].path) by {
                assert(final(self)@.files[i] == old(self)@.files[i]);
                assert(final(self)@.files[j] == old(self)@.files[j]);
            }
            assert forall|i: int, j: int| 0 <= i < j < final(self)@.deps.len() implies !((
            #[trigger] final(self)@.deps[i]).package == (#[trigger] final(self)@.deps[j]).package
                && final(self)@.deps[i].dep_name == final(self)@.deps[j].dep_name) by {
                assert(final(self)@.deps[i] == old(self)@.deps[i]);
                assert(final(self)@.deps[j] == old(self)@.deps[j]);
            }
            // Installed files stay owned.
            assert(final(self)@.files == old(self)@.files);
            assert forall|i: int| 0 <= i < final(self)@.files.len() implies has_pkg(
                final(self)@,
                (#[trigger] final(self)@.files[i]).name,
                final(self)@.files[i].version,
            ) by {
                let f = old(self)@.files[i];
                assert(final(self)@.files[i] == f);
                assert(has_pkg(old(self)@, f.name, f.version));
                let k = choose|k: int|
                    0 <= k < oldp.len() && (#[trigger] oldp[k]).name == f.name && oldp[k].version
                        == f.version;
                if oldp[k].name == pkg@.name && oldp[k].version == pkg@.version {
                    assert(newp[newp.len() - 1].name == f.name);
                } else {
                    assert(dropped.contains(oldp[k]));
                    let m = choose|m: int| 0 <= m < dropped.len() && dropped[m] == oldp[k];
                    assert(newp[m].name == f.name && newp[m].version == f.version);
                }
            }
        }
    }

    /// Records a manifest in full: upserts the package row, replaces the
    /// dependency set of the name, and replaces the installed-files set of
    /// the `(name, version)`.
    pub fn add_package_full(&mut self, pkg: &Package, installed_files: &Vec<String>)
        requires
            cat_inv(old(self)@),
            forall|i: int, j: int|
                0 <= i < j < pkg@.dependencies.len() ==> (#[trigger] pkg@.dependencies[i]).name
                    != (#[trigger] pkg@.dependencies[j]).name,
            forall|i: int, j: int|
                0 <= i < j < installed_files@.len() ==> (#[trigger] installed_files@[i])@
                    != (#[trigger] installed_files@[j])@,
        ensures
            cat_inv(final(self)@),
            final(self)@.packages == pkgs_drop_key(old(self)@.packages, pkg@.name, pkg@.version)
                .push(pkg_row_of(pkg@)),
            final(self)@.deps == deps_drop_name(old(self)@.deps, pkg@.name) + dep_rows_of(pkg@),
            final(self)@.files == files_drop_key(old(self)@.files, pkg@.name, pkg@.version)
                + file_rows_of(pkg@, installed_files@.map_values(|s: String| s@)),
    {
        let ghost oldc = self@;
        self.add_package(pkg);
        deps_remove_name(&mut self.deps, &pkg.name);
        let ghost deps_base = self@.deps;
        let mut i: usize = 0;
        while i < pkg.dependencies.len()
            invariant
                i <= pkg.dependencies@.len(),
                pkg@.dependencies.len() == pkg.dependencies@.len(),
                self@.deps == deps_base + dep_rows_of(pkg@).subrange(0, i as int),
                self@.packages == pkgs_drop_key(oldc.packages, pkg@.name, pkg@.version).push(
                    pkg_row_of(pkg@),
                ),
                self@.files == oldc.files,
            decreases pkg.dependencies.len() - i,
        {
            let d = &pkg.dependencies[i];
            let row = DepRow {
                package: pkg.name.clone(),
                dep_name: d.name.clone(),
                dep_version: d.version.clone(),
            };
            proof {
                assert(pkg@.dependencies[i as int] == pkg.dependencies@[i as int]@);
                assert(row@ == dep_rows_of(pkg@)[i as int]);
            }
            let ghost before = self@.deps;
            self.deps.push(row);
            proof {
                assert(self@.deps =~= before.push(dep_rows_of(pkg@)[i as int]));
                assert(deps_base + dep_rows_of(pkg@).subrange(0, i as int + 1) =~= (deps_base
                    + dep_rows_of(pkg@).subrange(0, i as int)).push(dep_rows_of(pkg@)[i as int]));
            }
            i = i + 1;
        }
        proof {
            assert(dep_rows_of(pkg@).subrange(0, dep_rows_of(pkg@).len() as int) =~= dep_rows_of(
                pkg@,
            ));
            assert(self@.deps == deps_base + dep_rows_of(pkg@));
        }
        files_remove_key(&mut self.files, &pkg.name, &pkg.version);
        let ghost files_base = self@.files;
        let ghost gpaths = installed_files@.map_values(|s: String| s@);
        let mut k: usize = 0;
        while k < installed_files.len()
            invariant
                k <= installed_files@.len(),
                gpaths == installed_files@.map_values(|s: String| s@),
                gpaths.len() == installed_files@.len(),
                self@.files == files_base + file_rows_of(pkg@, gpaths).subrange(0, k as int),
                self@.packages == pkgs_drop_key(oldc.packages, pkg@.name, pkg@.version).push(
                    pkg_row_of(pkg@),
                ),
                self@.deps == deps_drop_name(oldc.deps, pkg@.name) + dep_rows_of(pkg@),
                files_base == files_drop_key(oldc.files, pkg@.name, pkg@.version),
            decreases installed_files.len() - k,
        {
            let row = FileRow {
                name: pkg.name.clone(),
                version: pkg.version.clone(),
                path: installed_files[k].clone(),
            };
            proof {
                assert(gpaths[k as int] == installed_files@[k as int]@);
                assert(row@ == file_rows_of(pkg@, gpaths)[k as int]);
            }
            let ghost before = self@.files;
            self.files.push(row);
            proof {
                assert(self@.files =~= before.push(file_rows_of(pkg@, gpaths)[k as int]));
                assert(files_base + file_rows_of(pkg@, gpaths).subrange(0, k as int + 1)
                    =~= (files_base + file_rows_of(pkg@, gpaths).subrange(0, k as int)).push(
                    file_rows_of(pkg@, gpaths)[k as int],
                ));
            }
            k = k + 1;
        }
        proof {
            assert(file_rows_of(pkg@, gpaths).subrange(0, file_rows_of(pkg@, gpaths).len() as int)
                =~= file_rows_of(pkg@, gpaths));
            assert(self@.files == files_base + file_rows_of(pkg@, gpaths));
            lemma_add_full_inv(oldc, pkg@, gpaths, final(self)@);
        }
    }
}

/// The catalog invariant survives a full record of a manifest.
proof fn lemma_add_full_inv(
    oldc: SpecCatalog,
    p: crate::manifest::SpecPackage,
    paths: Seq<Seq<char>>,
    newc: SpecCatalog,
)
    requires
        cat_inv(oldc),
        forall|i: int, j: int|
            0 <= i < j < p.dependencies.len() ==> (#[trigger] p.dependencies[i]).name
                != (#[trigger] p.dependencies[j]).name,
        forall|i: int, j: int| 0 <= i < j < paths.len() ==> paths[i] != paths[j],
        newc.packages == pkgs_drop_key(oldc.packages, p.name, p.version).push(pkg_row_of(p)),
        newc.deps == deps_drop_name(oldc.deps, p.name) + dep_rows_of(p),
        newc.files == files_drop_key(oldc.files, p.name, p.version) + file_rows_of(p, paths),
    ensures
        cat_inv(newc),
{
    lemma_pkgs_drop_key(oldc.packages, p.name, p.version);
    lemma_deps_drop_name(oldc.deps, p.name);
    lemma_files_drop_key(oldc.files, p.name, p.version);
    let droppedp = pkgs_drop_key(oldc.packages, p.name, p.version);
    let droppedd = deps_drop_name(oldc.deps, p.name);
    let droppedf = files_drop_key(oldc.files, p.name, p.version);
    let newd = dep_rows_of(p);
    let newf = file_rows_of(p, paths);
    // Unique package keys, unique current flags.
    assert forall|i: int, j: int| 0 <= i < j < newc.packages.len() implies !((
    #[trigger] newc.packages[i]).name == (#[trigger] newc.packages[j]).name
        && newc.packages[i].version == newc.packages[j].version) && !(newc.packages[i].name
        == newc.packages[j].name && newc.packages[i].current && newc.packages[j].current) by {
        if j < droppedp.len() {
            let (k1, k2) = choose|k1: int, k2: int|
                0 <= k1 < k2 < oldc.packages.len() && oldc.packages[k1] == droppedp[i]
                    && oldc.packages[k2] == droppedp[j];
        } else {
            assert(newc.packages[j] == pkg_row_of(p));
            assert(!(droppedp[i].name == p.name && droppedp[i].version == p.version));
        }
    }
    // Unique dependency keys.
    assert forall|i: int, j: int| 0 <= i < j < newc.deps.len() implies !((
    #[trigger] newc.deps[i]).package == (#[trigger] newc.deps[j]).package
        && newc.deps[i].dep_name == newc.deps[j].dep_name) by {
        if j < droppedd.len() {
            let (k1, k2) = choose|k1: int, k2: int|
                0 <= k1 < k2 < oldc.deps.len() && oldc.deps[k1] == droppedd[i] && oldc.deps[k2]
                    == droppedd[j];
        } else if i < droppedd.len() {
            assert(droppedd[i].package != p.name);
            assert(newc.deps[j] == newd[j - droppedd.len()]);
            assert(newc.deps[j].package == p.name);
        } else {
            assert(newc.deps[i] == newd[i - droppedd.len()]);
            assert(newc.deps[j] == newd[j - droppedd.len()]);
            assert(newc.deps[i].dep_name == p.dependencies[i - droppedd.len()].name);
            assert(newc.deps[j].dep_name == p.dependencies[j - droppedd.len()].name);
        }
    }
    // Unique file keys.
    assert forall|i: int, j: int| 0 <= i < j < newc.files.len() implies !((
    #[trigger] newc.files[i]).name == (#[trigger] newc.files[j]).name && newc.files[i].version
        == newc.files[j].version && newc.files[i].path == newc.files[j].path) by {
        if j < droppedf.len() {
            let (k1, k2) = choose|k1: int, k2: int|
                0 <= k1 < k2 < oldc.files.len() && oldc.files[k1] == droppedf[i] && oldc.files[k2]
                    == droppedf[j];
        } else if i < droppedf.len() {
            assert(!(droppedf[i].name == p.name && droppedf[i].version == p.version));
            assert(newc.files[j] == newf[j - droppedf.len()]);
        } else {
            assert(newc.files[i] == newf[i - droppedf.len()]);
            assert(newc.files[j] == newf[j - droppedf.len()]);
            assert(newc.files[i].path == paths[i - droppedf.len()]);
            assert(newc.files[j].path == paths[j - droppedf.len()]);
        }
    }
    // Installed files stay owned.
    assert forall|i: int| 0 <= i < newc.files.len() implies has_pkg(
        newc,
        (#[trigger] newc.files[i]).name,
        newc.files[i].version,
    ) by {
        let f = newc.files[i];
        assert(newc.packages[newc.packages.len() - 1] == pkg_row_of(p));
        if i < droppedf.len() {
            assert(oldc.files.contains(droppedf[i]));
            let k = choose|k: int| 0 <= k < oldc.files.len() && oldc.files[k] == droppedf[i];
            assert(has_pkg(oldc, f.name, f.version));
            let w = choose|w: int|
                0 <= w < oldc.packages.len() && (#[trigger] oldc.packages[w]).name == f.name
                    && oldc.packages[w].version == f.version;
            if oldc.packages[w].name == p.name && oldc.packages[w].version == p.version {
                assert(newc.packages[newc.packages.len() - 1].name == f.name);
            } else {
                assert(droppedp.contains(oldc.packages[w]));
                let m = choose|m: int| 0 <= m < droppedp.len() && droppedp[m] == oldc.packages[w];
                assert(newc.packages[m].name == f.name && newc.packages[m].version == f.version);
            }
        } else {
            assert(f == newf[i - droppedf.len()]);
            assert(f.name == p.name && f.version == p.version);
            assert(newc.packages[newc.packages.len() - 1].name == f.name);
        }
    }
}

} // verus!

verus! {

impl Catalog {
    /// Whether a row with `(name, version)` exists.
    pub fn contains_version(&self, name: &String, version: &Version) -> (r: bool)
        ensures
            r == has_pkg(self@, name@, version@),
    {
        let mut i: usize = 0;
        while i < self.packages.len()
            invariant
                i <= self.packages@.len(),
                forall|j: int|
                    0 <= j < i ==> !((#[trigger] self@.packages[j]).name == name@
                        && self@.packages[j].version == version@),
            decreases self.packages.len() - i,
        {
            proof {
                assert(self@.packages[i as int] == self.packages@[i as int]@);
            }
            let row = &self.packages[i];
            if row.name == *name && row.version.eq(version) {
                return true;
            }
            i = i + 1;
        }
        false
    }

    /// Whether any row of `name` exists.
    pub fn contains_name(&self, name: &String) -> (r: bool)
        ensures
            r == has_name(self@, name@),
    {
        let mut i: usize = 0;
        while i < self.packages.len()
            invariant
                i <= self.packages@.len(),
                forall|j: int| 0 <= j < i ==> (#[trigger] self@.packages[j]).name != name@,
            decreases self.packages.len() - i,
        {
            proof {
                assert(self@.packages[i as int] == self.packages@[i as int]@);
            }
            if self.packages[i].name == *name {
                return true;
            }
            i = i + 1;
        }
        false
    }

    /// Elects `(name, version)` current for its name: the flag is cleared on
    /// every other version of the name and set on the given one. Fails, and
    /// changes nothing, when the row is absent.
    pub fn set_current_version(&mut self, name: &String, version: &Version) -> (r: Result<
        (),
        UhpmError,
    >)
        requires
            cat_inv(old(self)@),
        ensures
            cat_inv(final(self)@),
            r is Ok <==> has_pkg(old(self)@, name@, version@),
            r is Err ==> final(self)@ == old(self)@,
            match r {
                Err(e) => e is NotFound,
                Ok(_) => true,
            },
            r is Ok ==> final(self)@.packages == set_current_rows(
                old(self)@.packages,
                name@,
                version@,
            ),
            final(self)@.files == old(self)@.files,
            final(self)@.deps == old(self)@.deps,
    {
        if !self.contains_version(name, version) {
            return Err(UhpmError::NotFound(name.clone()));
        }
        let ghost g = self@.packages;
        let ghost target = set_current_rows(old(self)@.packages, name@, version@);
        proof {
            assert(target.len() == g.len());
        }
        let mut i: usize = 0;
        while i < self.packages.len()
            invariant
                i <= self.packages@.len(),
                self.packages@.len() == g.len(),
                target == set_current_rows(g, name@, version@),
                target.len() == g.len(),
                forall|j: int| 0 <= j < i ==> self@.packages[j] == target[j],
                forall|j: int| i <= j < g.len() ==> self@.packages[j] == g[j],
                self@.files == old(self)@.files,
                self@.deps == old(self)@.deps,
            decreases self.packages.len() - i,
        {
            proof {
                assert(self@.packages[i as int] == self.packages@[i as int]@);
            }
            let mut row = self.packages[i].clone();
            if row.name == *name {
                row.current = row.version.eq(version);
            }
            proof {
                assert(row@ == target[i as int]);
            }
            let ghost before = self@.packages;
            self.packages.set(i, row);
            proof {
                assert(self@.packages =~= before.update(i as int, target[i as int]));
            }
            i = i + 1;
        }
        proof {
            assert(final(self)@.packages =~= target);
            lemma_set_current_inv(old(self)@, name@, version@, final(self)@);
        }
        Ok(())
    }

    /// Deletes every row scoped to `(name, version)`: the package row, its
    /// installed files, and the dependency set of the name.
    pub fn remove_package_version(&mut self, name: &String, version: &Version)
        requires
            cat_inv(old(self)@),
        ensures
            cat_inv(final(self)@),
            final(self)@.packages == pkgs_drop_key(old(self)@.packages, name@, version@),
            final(self)@.files == files_drop_key(old(self)@.files, name@, version@),
            final(self)@.deps == deps_drop_name(old(self)@.deps, name@),
    {
        pkgs_remove_key(&mut self.packages, name, version);
        files_remove_key(&mut self.files, name, version);
        deps_remove_name(&mut self.deps, name);
        proof {
            lemma_remove_version_inv(old(self)@, name@, version@, final(self)@);
        }
    }

    /// Deletes every row of `name` across all three tables.
    pub fn remove_package(&mut self, name: &String)
        requires
            cat_inv(old(self)@),
        ensures
            cat_inv(final(self)@),
            final(self)@.packages == pkgs_drop_name(old(self)@.packages, name@),
            final(self)@.files == files_drop_name(old(self)@.files, name@),
            final(self)@.deps == deps_drop_name(old(self)@.deps, name@),
    {
        pkgs_remove_name(&mut self.packages, name);
        files_remove_name(&mut self.files, name);
        deps_remove_name(&mut self.deps, name);
        proof {
            lemma_remove_name_inv(old(self)@, name@, final(self)@);
        }
    }
}

/// Re-electing a present version preserves the invariant.
pub proof fn lemma_set_current_inv(
    oldc: SpecCatalog,
    name: Seq<char>,
    version: SpecVersion,
    newc: SpecCatalog,
)
    requires
        cat_inv(oldc),
        newc.packages == set_current_rows(oldc.packages, name, version),
        newc.files == oldc.files,
        newc.deps == oldc.deps,
    ensures
        cat_inv(newc),
{
    let newp = newc.packages;
    assert(newp.len() == oldc.packages.len());
    assert forall|i: int, j: int| 0 <= i < j < newp.len() implies !((#[trigger] newp[i]).name
        == (#[trigger] newp[j]).name && newp[i].version == newp[j].version) && !(newp[i].name
        == newp[j].name && newp[i].current && newp[j].current) by {
        let a = oldc.packages[i];
        let b = oldc.packages[j];
        assert(newp[i].name == a.name && newp[i].version == a.version);
        assert(newp[j].name == b.name && newp[j].version == b.version);
        if a.name == b.name {
            assert(!(a.version == b.version));
            if a.name == name {
                assert(!(newp[i].current && newp[j].current));
            } else {
                assert(newp[i].current == a.current && newp[j].current == b.current);
            }
        }
    }
    assert forall|i: int| 0 <= i < newc.files.len() implies has_pkg(
        newc,
        (#[trigger] newc.files[i]).name,
        newc.files[i].version,
    ) by {
        let f = oldc.files[i];
        assert(newc.files[i] == f);
        assert(has_pkg(oldc, f.name, f.version));
        let w = choose|w: int|
            0 <= w < oldc.packages.len() && (#[trigger] oldc.packages[w]).name == f.name
                && oldc.packages[w].version == f.version;
        assert(newp[w].name == f.name && newp[w].version == f.version);
    }
    assert forall|i: int, j: int| 0 <= i < j < newc.files.len() implies !((
    #[trigger] newc.files[i]).name == (#[trigger] newc.files[j]).name && newc.files[i].version
        == newc.files[j].version && newc.files[i].path == newc.files[j].path) by {
        assert(newc.files[i] == oldc.files[i]);
        assert(newc.files[j] == oldc.files[j]);
    }
    assert forall|i: int, j: int| 0 <= i < j < newc.deps.len() implies !((
    #[trigger] newc.deps[i]).package == (#[trigger] newc.deps[j]).package
        && newc.deps[i].dep_name == newc.deps[j].dep_name) by {
        assert(newc.deps[i] == oldc.deps[i]);
        assert(newc.deps[j] == oldc.deps[j]);
    }
}

/// Removing one version preserves the invariant.
proof fn lemma_remove_version_inv(
    oldc: SpecCatalog,
    name: Seq<char>,
    version: SpecVersion,
    newc: SpecCatalog,
)
    requires
        cat_inv(oldc),
        newc.packages == pkgs_drop_key(oldc.packages, name, version),
        newc.files == files_drop_key(oldc.files, name, version),
        newc.deps == deps_drop_name(oldc.deps, name),
    ensures
        cat_inv(newc),
{
    lemma_pkgs_drop_key(oldc.packages, name, version);
    lemma_files_drop_key(oldc.files, name, version);
    lemma_deps_drop_name(oldc.deps, name);
    assert forall|i: int, j: int| 0 <= i < j < newc.packages.len() implies !((
    #[trigger] newc.packages[i]).name == (#[trigger] newc.packages[j]).name
        && newc.packages[i].version == newc.packages[j].version) && !(newc.packages[i].name
        == newc.packages[j].name && newc.packages[i].current && newc.packages[j].current) by {
        let (k1, k2) = choose|k1: int, k2: int|
            0 <= k1 < k2 < oldc.packages.len() && oldc.packages[k1] == newc.packages[i]
                && oldc.packages[k2] == newc.packages[j];
    }
    assert forall|i: int, j: int| 0 <= i < j < newc.files.len() implies !((
    #[trigger] newc.files[i]).name == (#[trigger] newc.files[j]).name && newc.files[i].version
        == newc.files[j].version && newc.files[i].path == newc.files[j].path) by {
        let (k1, k2) = choose|k1: int, k2: int|
            0 <= k1 < k2 < oldc.files.len() && oldc.files[k1] == newc.files[i] && oldc.files[k2]
                == newc.files[j];
    }
    assert forall|i: int, j: int| 0 <= i < j < newc.deps.len() implies !((
    #[trigger] newc.deps[i]).package == (#[trigger] newc.deps[j]).package
        && newc.deps[i].dep_name == newc.deps[j].dep_name) by {
        let (k1, k2) = choose|k1: int, k2: int|
            0 <= k1 < k2 < oldc.deps.len() && oldc.deps[k1] == newc.deps[i] && oldc.deps[k2]
                == newc.deps[j];
    }
    assert forall|i: int| 0 <= i < newc.files.len() implies has_pkg(
        newc,
        (#[trigger] newc.files[i]).name,
        newc.files[i].version,
    ) by {
        let f = newc.files[i];
        assert(!(f.name == name && f.version == version));
        assert(oldc.files.contains(f));
        let k = choose|k: int| 0 <= k < oldc.files.len() && oldc.files[k] == f;
        assert(has_pkg(oldc, f.name, f.version));
        let w = choose|w: int|
            0 <= w < oldc.packages.len() && (#[trigger] oldc.packages[w]).name == f.name
                && oldc.packages[w].version == f.version;
        assert(!(oldc.packages[w].name == name && oldc.packages[w].version == version));
        assert(newc.packages.contains(oldc.packages[w]));
        let m = choose|m: int| 0 <= m < newc.packages.len() && newc.packages[m] == oldc.packages[w];
        assert(newc.packages[m].name == f.name && newc.packages[m].version == f.version);
    }
}

/// Removing a whole name preserves the invariant.
proof fn lemma_remove_name_inv(oldc: SpecCatalog, name: Seq<char>, newc: SpecCatalog)
    requires
        cat_inv(oldc),
        newc.packages == pkgs_drop_name(oldc.packages, name),
        newc.files == files_drop_name(oldc.files, name),
        newc.deps == deps_drop_name(oldc.deps, name),
    ensures
        cat_inv(newc),
{
    lemma_pkgs_drop_name(oldc.packages, name);
    lemma_files_drop_name(oldc.files, name);
    lemma_deps_drop_name(oldc.deps, name);
    assert forall|i: int, j: int| 0 <= i < j < newc.packages.len() implies !((
    #[trigger] newc.packages[i]).name == (#[trigger] newc.packages[j]).name
        && newc.packages[i].version == newc.packages[j].version) && !(newc.packages[i].name
        == newc.packages[j].name && newc.packages[i].current && newc.packages[j].current) by {
        let (k1, k2) = choose|k1: int, k2: int|
            0 <= k1 < k2 < oldc.packages.len() && oldc.packages[k1] == newc.packages[i]
                && oldc.packages[k2] == newc.packages[j];
    }
    assert forall|i: int, j: int| 0 <= i < j < newc.files.len() implies !((
    #[trigger] newc.files[i]).name == (#[trigger] newc.files[j]).name && newc.files[i].version
        == newc.files[j].version && newc.files[i].path == newc.files[j].path) by {
        let (k1, k2) = choose|k1: int, k2: int|
            0 <= k1 < k2 < oldc.files.len() && oldc.files[k1] == newc.files[i] && oldc.files[k2]
                == newc.files[j];
    }
    assert forall|i: int, j: int| 0 <= i < j < newc.deps.len() implies !((
    #[trigger] newc.deps[i]).package == (#[trigger] newc.deps[j]).package
        && newc.deps[i].dep_name == newc.deps[j].dep_name) by {
        let (k1, k2) = choose|k1: int, k2: int|
            0 <= k1 < k2 < oldc.deps.len() && oldc.deps[k1] == newc.deps[i] && oldc.deps[k2]
                == newc.deps[j];
    }
    assert forall|i: int| 0 <= i < newc.files.len() implies has_pkg(
        newc,
        (#[trigger] newc.files[i]).name,
        newc.files[i].version,
    ) by {
        let f = newc.files[i];
        assert(f.name != name);
        assert(oldc.files.contains(f));
        let k = choose|k: int| 0 <= k < oldc.files.len() && oldc.files[k] == f;
        assert(has_pkg(oldc, f.name, f.version));
        let w = choose|w: int|
            0 <= w < oldc.packages.len() && (#[trigger] oldc.packages[w]).name == f.name
                && oldc.packages[w].version == f.version;
        assert(oldc.packages[w].name != name);
        assert(newc.packages.contains(oldc.packages[w]));
        let m = choose|m: int| 0 <= m < newc.packages.len() && newc.packages[m] == oldc.packages[w];
        assert(newc.packages[m].name == f.name && newc.packages[m].version == f.version);
    }
}

} // verus!

verus! {

use crate::manifest::SpecDependency;
use crate::manifest::Dependency;

// ---------------------------------------------------------------------------
// Selections, as spec functions
// ---------------------------------------------------------------------------

/// The paths recorded for `(name, version)`, in table order.
pub open spec fn files_paths_key(
    rows: Seq<SpecFileRow>,
    name: Seq<char>,
    version: SpecVersion,
) -> Seq<Seq<char>>
    decreases rows.len(),
{
    if rows.len() == 0 {
        Seq::empty()
    } else {
        let rest = files_paths_key(rows.drop_last(), name, version);
        if rows.last().name == name && rows.last().version == version {
            rest.push(rows.last().path)
        } else {
            rest
        }
    }
}

/// The paths recorded for any version of `name`, in table order.
pub open spec fn files_paths_name(rows: Seq<SpecFileRow>, name: Seq<char>) -> Seq<Seq<char>>
    decreases rows.len(),
{
    if rows.len() == 0 {
        Seq::empty()
    } else {
        let rest = files_paths_name(rows.drop_last(), name);
        if rows.last().name == name {
            rest.push(rows.last().path)
        } else {
            rest
        }
    }
}

/// The dependency set recorded for `name`, in table order.
pub open spec fn deps_select(rows: Seq<SpecDepRow>, name: Seq<char>) -> Seq<SpecDependency>
    decreases rows.len(),
{
    if rows.len() == 0 {
        Seq::empty()
    } else {
        let rest = deps_select(rows.drop_last(), name);
        if rows.last().package == name {
            rest.push(SpecDependency { name: rows.last().dep_name, version: rows.last().dep_version })
        } else {
            rest
        }
    }
}

impl Catalog {
    /// The paths recorded for `(name, version)`.
    pub fn get_installed_files(&self, name: &String, version: &Version) -> (r: Vec<String>)
        ensures
            r@.map_values(|s: String| s@) == files_paths_key(self@.files, name@, version@),
    {
        let ghost g = self@.files;
        let mut out: Vec<String> = Vec::new();
        let mut i: usize = 0;
        proof {
            assert(g.subrange(0, 0) =~= Seq::<SpecFileRow>::empty());
            assert(out@.map_values(|s: String| s@) =~= files_paths_key(
                g.subrange(0, 0),
                name@,
                version@,
            ));
        }
        while i < self.files.len()
            invariant
                i <= self.files@.len(),
                g == self@.files,
                g.len() == self.files@.len(),
                out@.map_values(|s: String| s@) == files_paths_key(
                    g.subrange(0, i as int),
                    name@,
                    version@,
                ),
            decreases self.files.len() - i,
        {
            proof {
                assert(g[i as int] == self.files@[i as int]@);
            }
            let ghost before = out@;
            let row = &self.files[i];
            if row.name == *name && row.version.eq(version) {
                out.push(row.path.clone());
                proof {
                    assert(out@.map_values(|s: String| s@) =~= before.map_values(
                        |s: String| s@,
                    ).push(g[i as int].path));
                }
            }
            proof {
                let pre = g.subrange(0, i as int);
                let ext = g.subrange(0, i as int + 1);
                assert(ext.drop_last() =~= pre);
                assert(ext.last() == g[i as int]);
                assert(out@.map_values(|s: String| s@) =~= files_paths_key(ext, name@, version@));
            }
            i = i + 1;
        }
        proof {
            assert(g.subrange(0, g.len() as int) =~= g);
        }
        out
    }

    /// The paths recorded for any version of `name`.
    pub fn get_all_installed_files(&self, name: &String) -> (r: Vec<String>)
        ensures
            r@.map_values(|s: String| s@) == files_paths_name(self@.files, name@),
    {
        let ghost g = self@.files;
        let mut out: Vec<String> = Vec::new();
        let mut i: usize = 0;
        proof {
            assert(g.subrange(0, 0) =~= Seq::<SpecFileRow>::empty());
            assert(out@.map_values(|s: String| s@) =~= files_paths_name(g.subrange(0, 0), name@));
        }
        while i < self.files.len()
            invariant
                i <= self.files@.len(),
                g == self@.files,
                g.len() == self.files@.len(),
                out@.map_values(|s: String| s@) == files_paths_name(
                    g.subrange(0, i as int),
                    name@,
                ),
            decreases self.files.len() - i,
        {
            proof {
                assert(g[i as int] == self.files@[i as int]@);
            }
            let ghost before = out@;
            let row = &self.files[i];
            if row.name == *name {
                out.push(row.path.clone());
                proof {
                    assert(out@.map_values(|s: String| s@) =~= before.map_values(
                        |s: String| s@,
                    ).push(g[i as int].path));
                }
            }
            proof {
                let pre = g.subrange(0, i as int);
                let ext = g.subrange(0, i as int + 1);
                assert(ext.drop_last() =~= pre);
                assert(ext.last() == g[i as int]);
                assert(out@.map_values(|s: String| s@) =~= files_paths_name(ext, name@));
            }
            i = i + 1;
        }
        proof {
            assert(g.subrange(0, g.len() as int) =~= g);
        }
        out
    }

    /// The dependency set recorded for `name`, as library dependencies.
    fn select_deps(&self, name: &String) -> (r: Vec<Dependency>)
        ensures
            r@.map_values(|d: Dependency| d@) == deps_select(self@.deps, name@),
    {
        let ghost g = self@.deps;
        let mut out: Vec<Dependency> = Vec::new();
        let mut i: usize = 0;
        proof {
            assert(g.subrange(0, 0) =~= Seq::<SpecDepRow>::empty());
            assert(out@.map_values(|d: Dependency| d@) =~= deps_select(g.subrange(0, 0), name@));
        }
        while i < self.deps.len()
            invariant
                i <= self.deps@.len(),
                g == self@.deps,
                g.len() == self.deps@.len(),
                out@.map_values(|d: Dependency| d@) == deps_select(g.subrange(0, i as int), name@),
            decreases self.deps.len() - i,
        {
            proof {
                assert(g[i as int] == self.deps@[i as int]@);
            }
            let ghost before = out@;
            let row = &self.deps[i];
            if row.package == *name {
                out.push(Dependency { name: row.dep_name.clone(), version: row.dep_version.clone() });
                proof {
                    assert(out@.map_values(|d: Dependency| d@) =~= before.map_values(
                        |d: Dependency| d@,
                    ).push(
                        SpecDependency {
                            name: g[i as int].dep_name,
                            version: g[i as int].dep_version,
                        },
                    ));
                }
            }
            proof {
                let pre = g.subrange(0, i as int);
                let ext = g.subrange(0, i as int + 1);
                assert(ext.drop_last() =~= pre);
                assert(ext.last() == g[i as int]);
                assert(out@.map_values(|d: Dependency| d@) =~= deps_select(ext, name@));
            }
            i = i + 1;
        }
        proof {
            assert(g.subrange(0, g.len() as int) =~= g);
        }
        out
    }

    /// The version of `name` whose `current` flag is set, if any.
    pub fn get_package_version(&self, name: &String) -> (r: Option<Version>)
        ensures
            match r {
                Some(v) => exists|i: int|
                    0 <= i < self@.packages.len() && (#[trigger] self@.packages[i]).name == name@
                        && self@.packages[i].current && self@.packages[i].version == v@,
                None => forall|i: int|
                    0 <= i < self@.packages.len() ==> !((#[trigger] self@.packages[i]).name
                        == name@ && self@.packages[i].current),
            },
    {
        let mut i: usize = 0;
        while i < self.packages.len()
            invariant
                i <= self.packages@.len(),
                forall|j: int|
                    0 <= j < i ==> !((#[trigger] self@.packages[j]).name == name@
                        && self@.packages[j].current),
            decreases self.packages.len() - i,
        {
            proof {
                assert(self@.packages[i as int] == self.packages@[i as int]@);
            }
            let row = &self.packages[i];
            if row.name == *name && row.current {
                return Some(row.version.clone());
            }
            i = i + 1;
        }
        None
    }

    /// All packages, as `(name, rendered version, current)` triples in table
    /// order.
    pub fn list_packages(&self) -> (r: Vec<(String, String, bool)>)
        ensures
            r@.len() == self@.packages.len(),
            forall|i: int|
                0 <= i < r@.len() ==> (#[trigger] r@[i]).0@ == self@.packages[i].name && r@[i].1@
                    == crate::version::spec_render_version(self@.packages[i].version) && r@[i].2
                    == self@.packages[i].current,
    {
        let mut out: Vec<(String, String, bool)> = Vec::new();
        let mut i: usize = 0;
        while i < self.packages.len()
            invariant
                i <= self.packages@.len(),
                out@.len() == i,
                forall|j: int|
                    0 <= j < i ==> (#[trigger] out@[j]).0@ == self@.packages[j].name && out@[j].1@
                        == crate::version::spec_render_version(self@.packages[j].version)
                        && out@[j].2 == self@.packages[j].current,
            decreases self.packages.len() - i,
        {
            proof {
                assert(self@.packages[i as int] == self.packages@[i as int]@);
            }
            let row = &self.packages[i];
            let ver = crate::version::version_to_string(&row.version);
            out.push((row.name.clone(), ver, row.current));
            i = i + 1;
        }
        out
    }

    /// The greatest installed version of `name` in semantic-version order, if
    /// any version is installed.
    pub fn is_installed(&self, name: &String) -> (r: Option<Version>)
        ensures
            match r {
                Some(v) => has_name(self@, name@) && (exists|i: int|
                    0 <= i < self@.packages.len() && (#[trigger] self@.packages[i]).name == name@
                        && self@.packages[i].version == v@) && (forall|i: int|
                    0 <= i < self@.packages.len() && (#[trigger] self@.packages[i]).name == name@
                        ==> !vlt(v@, self@.packages[i].version)),
                None => !has_name(self@, name@),
            },
    {
        let mut found = false;
        let mut best: usize = 0;
        let mut i: usize = 0;
        while i < self.packages.len()
            invariant
                i <= self.packages@.len(),
                found ==> best < i && (#[trigger] self@.packages[best as int]).name == name@
                    && (forall|j: int|
                    0 <= j < i && (#[trigger] self@.packages[j]).name == name@ ==> !vlt(
                        self@.packages[best as int].version,
                        self@.packages[j].version,
                    )),
                !found ==> forall|j: int|
                    0 <= j < i ==> (#[trigger] self@.packages[j]).name != name@,
            decreases self.packages.len() - i,
        {
            proof {
                assert(self@.packages[i as int] == self.packages@[i as int]@);
            }
            let row = &self.packages[i];
            if row.name == *name {
                if !found || self.packages[best].version.lt(&row.version) {
                    proof {
                        crate::version::lemma_vlt_irrefl(self@.packages[i as int].version);
                        if found {
                            assert forall|j: int|
                                0 <= j < i && (#[trigger] self@.packages[j]).name == name@ implies
                                !vlt(
                                self@.packages[i as int].version,
                                self@.packages[j].version,
                            ) by {
                                if vlt(self@.packages[i as int].version, self@.packages[j].version) {
                                    crate::version::lemma_vlt_trans(
                                        self@.packages[best as int].version,
                                        self@.packages[i as int].version,
                                        self@.packages[j].version,
                                    );
                                }
                            }
                        }
                    }
                    best = i;
                    found = true;
                }
            }
            i = i + 1;
        }
        if found {
            Some(self.packages[best].version.clone())
        } else {
            None
        }
    }

    /// The package record of the greatest installed version of `name`, in
    /// semantic-version order, without its dependency set.
    pub fn get_latest_package_version(&self, name: &String) -> (r: Option<Package>)
        ensures
            match r {
                Some(p) => p@.name == name@ && p@.dependencies.len() == 0 && (exists|i: int|
                    0 <= i < self@.packages.len() && (#[trigger] self@.packages[i]).name == name@
                        && self@.packages[i].version == p@.version && self@.packages[i].author
                        == p@.author && self@.packages[i].src == p@.src
                        && self@.packages[i].checksum == p@.checksum) && (forall|i: int|
                    0 <= i < self@.packages.len() && (#[trigger] self@.packages[i]).name == name@
                        ==> !vlt(p@.version, self@.packages[i].version)),
                None => !has_name(self@, name@),
            },
    {
        let mut found = false;
        let mut best: usize = 0;
        let mut i: usize = 0;
        while i < self.packages.len()
            invariant
                i <= self.packages@.len(),
                found ==> best < i && (#[trigger] self@.packages[best as int]).name == name@
                    && (forall|j: int|
                    0 <= j < i && (#[trigger] self@.packages[j]).name == name@ ==> !vlt(
                        self@.packages[best as int].version,
                        self@.packages[j].version,
                    )),
                !found ==> forall|j: int|
                    0 <= j < i ==> (#[trigger] self@.packages[j]).name != name@,
            decreases self.packages.len() - i,
        {
            proof {
                assert(self@.packages[i as int] == self.packages@[i as int]@);
            }
            let row = &self.packages[i];
            if row.name == *name {
                if !found || self.packages[best].version.lt(&row.version) {
                    proof {
                        crate::version::lemma_vlt_irrefl(self@.packages[i as int].version);
                        if found {
                            assert forall|j: int|
                                0 <= j < i && (#[trigger] self@.packages[j]).name == name@ implies
                                !vlt(
                                self@.packages[i as int].version,
                                self@.packages[j].version,
                            ) by {
                                if vlt(self@.packages[i as int].version, self@.packages[j].version) {
                                    crate::version::lemma_vlt_trans(
                                        self@.packages[best as int].version,
                                        self@.packages[i as int].version,
                                        self@.packages[j].version,
                                    );
                                }
                            }
                        }
                    }
                    best = i;
                    found = true;
                }
            }
            i = i + 1;
        }
        if found {
            let row = &self.packages[best];
            let p = Package {
                name: row.name.clone(),
                author: row.author.clone(),
                version: row.version.clone(),
                src: row.src.clone(),
                checksum: row.checksum.clone(),
                dependencies: Vec::new(),
            };
            proof {
                assert(p@.dependencies =~= Seq::<SpecDependency>::empty());
            }
            Some(p)
        } else {
            None
        }
    }

    /// The full record of the current version of `name`, dependency set
    /// included.
    pub fn get_current_package(&self, name: &String) -> (r: Option<Package>)
        ensures
            match r {
                Some(p) => p@.name == name@ && p@.dependencies == deps_select(self@.deps, name@)
                    && (exists|i: int|
                    0 <= i < self@.packages.len() && (#[trigger] self@.packages[i]).name == name@
                        && self@.packages[i].current && self@.packages[i].version == p@.version
                        && self@.packages[i].author == p@.author && self@.packages[i].src == p@.src
                        && self@.packages[i].checksum == p@.checksum),
                None => forall|i: int|
                    0 <= i < self@.packages.len() ==> !((#[trigger] self@.packages[i]).name
                        == name@ && self@.packages[i].current),
            },
    {
        let mut i: usize = 0;
        while i < self.packages.len()
            invariant
                i <= self.packages@.len(),
                forall|j: int|
                    0 <= j < i ==> !((#[trigger] self@.packages[j]).name == name@
                        && self@.packages[j].current),
            decreases self.packages.len() - i,
        {
            proof {
                assert(self@.packages[i as int] == self.packages@[i as int]@);
            }
            let row = &self.packages[i];
            if row.name == *name && row.current {
                let deps = self.select_deps(name);
                let p = Package {
                    name: row.name.clone(),
                    author: row.author.clone(),
                    version: row.version.clone(),
                    src: row.src.clone(),
                    checksum: row.checksum.clone(),
                    dependencies: deps,
                };
                return Some(p);
            }
            i = i + 1;
        }
        None
    }

    /// The full record of `(name, version)`, dependency set included.
    pub fn get_package_by_version(&self, name: &String, version: &Version) -> (r: Option<Package>)
        ensures
            match r {
                Some(p) => p@.name == name@ && p@.version == version@ && p@.dependencies
                    == deps_select(self@.deps, name@) && (exists|i: int|
                    0 <= i < self@.packages.len() && (#[trigger] self@.packages[i]).name == name@
                        && self@.packages[i].version == version@ && self@.packages[i].author
                        == p@.author && self@.packages[i].src == p@.src
                        && self@.packages[i].checksum == p@.checksum),
                None => !has_pkg(self@, name@, version@),
            },
    {
        let mut i: usize = 0;
        while i < self.packages.len()
            invariant
                i <= self.packages@.len(),
                forall|j: int|
                    0 <= j < i ==> !((#[trigger] self@.packages[j]).name == name@
                        && self@.packages[j].version == version@),
            decreases self.packages.len() - i,
        {
            proof {
                assert(self@.packages[i as int] == self.packages@[i as int]@);
            }
            let row = &self.packages[i];
            if row.name == *name && row.version.eq(version) {
                let deps = self.select_deps(name);
                let p = Package {
                    name: row.name.clone(),
                    author: row.author.clone(),
                    version: row.version.clone(),
                    src: row.src.clone(),
                    checksum: row.checksum.clone(),
                    dependencies: deps,
                };
                return Some(p);
            }
            i = i + 1;
        }
        None
    }
}

} // verus!

verus! {

impl Catalog {
    /// Checks the catalog invariant executably, for rows loaded from an
    /// external store that may have been modified outside the library.
    pub fn check_invariant(&self) -> (r: bool)
        ensures
            r == cat_inv(self@),
    {
        // Unique package keys, at most one current per name.
        let mut i: usize = 0;
        while i < self.packages.len()
            invariant
                i <= self.packages@.len(),
                forall|a: int, b: int|
                    0 <= a < b < self@.packages.len() && b < i ==> !((#[trigger] self@.packages[a]).name
                        == (#[trigger] self@.packages[b]).name && self@.packages[a].version
                        == self@.packages[b].version) && !(self@.packages[a].name == self@.packages[b].name
                        && self@.packages[a].current && self@.packages[b].current),
            decreases self.packages.len() - i,
        {
            let mut j: usize = 0;
            while j < i
                invariant
                    j <= i < self.packages@.len(),
                    forall|a: int, b: int|
                        0 <= a < b < self@.packages.len() && b < i ==> !((
                        #[trigger] self@.packages[a]).name == (#[trigger] self@.packages[b]).name
                            && self@.packages[a].version == self@.packages[b].version) && !(
                        self@.packages[a].name == self@.packages[b].name && self@.packages[a].current
                            && self@.packages[b].current),
                    forall|a: int|
                        0 <= a < j ==> !((#[trigger] self@.packages[a]).name
                            == self@.packages[i as int].name && self@.packages[a].version
                            == self@.packages[i as int].version) && !(self@.packages[a].name
                            == self@.packages[i as int].name && self@.packages[a].current
                            && self@.packages[i as int].current),
                decreases i - j,
            {
                proof {
                    assert(self@.packages[j as int] == self.packages@[j as int]@);
                    assert(self@.packages[i as int] == self.packages@[i as int]@);
                }
                let a = &self.packages[j];
                let b = &self.packages[i];
                if a.name == b.name {
                    if a.version.eq(&b.version) {
                        proof {
                            assert(self@.packages[j as int].name == self@.packages[i as int].name
                                && self@.packages[j as int].version == self@.packages[i as int].version);
                            assert(!cat_inv(self@));
                        }
                        return false;
                    }
                    if a.current && b.current {
                        proof {
                            assert(self@.packages[j as int].name == self@.packages[i as int].name
                                && self@.packages[j as int].current && self@.packages[i as int].current);
                            assert(!cat_inv(self@));
                        }
                        return false;
                    }
                }
                j = j + 1;
            }
            i = i + 1;
        }
        // Unique file keys, and every file row owned by a package row.
        let mut i: usize = 0;
        while i < self.files.len()
            invariant
                i <= self.files@.len(),
                forall|a: int, b: int|
                    0 <= a < b < self@.files.len() && b < i ==> !((#[trigger] self@.files[a]).name
                        == (#[trigger] self@.files[b]).name && self@.files[a].version
                        == self@.files[b].version && self@.files[a].path == self@.files[b].path),
                forall|a: int|
                    0 <= a < i ==> has_pkg(self@, (#[trigger] self@.files[a]).name, self@.files[a].version),
                forall|a: int, b: int|
                    0 <= a < b < self@.packages.len() ==> !((#[trigger] self@.packages[a]).name
                        == (#[trigger] self@.packages[b]).name && self@.packages[a].version
                        == self@.packages[b].version) && !(self@.packages[a].name == self@.packages[b].name
                        && self@.packages[a].current && self@.packages[b].current),
            decreases self.files.len() - i,
        {
            proof {
                assert(self@.files[i as int] == self.files@[i as int]@);
            }
            if !self.contains_version(&self.files[i].name, &self.files[i].version) {
                proof {
                    assert(!has_pkg(self@, self@.files[i as int].name, self@.files[i as int].version));
                    assert(!cat_inv(self@));
                }
                return false;
            }
            let mut j: usize = 0;
            while j < i
                invariant
                    j <= i < self.files@.len(),
                    forall|a: int, b: int|
                        0 <= a < b < self@.files.len() && b < i ==> !((#[trigger] self@.files[a]).name
                            == (#[trigger] self@.files[b]).name && self@.files[a].version
                            == self@.files[b].version && self@.files[a].path == self@.files[b].path),
                    forall|a: int|
                        0 <= a < j ==> !((#[trigger] self@.files[a]).name == self@.files[i as int].name
                            && self@.files[a].version == self@.files[i as int].version
                            && self@.files[a].path == self@.files[i as int].path),
                decreases i - j,
            {
                proof {
                    assert(self@.files[j as int] == self.files@[j as int]@);
                    assert(self@.files[i as int] == self.files@[i as int]@);
                }
                let a = &self.files[j];
                let b = &self.files[i];
                if a.name == b.name && a.version.eq(&b.version) && a.path == b.path {
                    proof {
                        assert(self@.files[j as int].name == self@.files[i as int].name
                            && self@.files[j as int].version == self@.files[i as int].version
                            && self@.files[j as int].path == self@.files[i as int].path);
                        assert(!cat_inv(self@));
                    }
                    return false;
                }
                j = j + 1;
            }
            i = i + 1;
        }
        // Unique dependency keys.
        let mut i: usize = 0;
        while i < self.deps.len()
            invariant
                i <= self.deps@.len(),
                forall|a: int, b: int|
                    0 <= a < b < self@.deps.len() && b < i ==> !((#[trigger] self@.deps[a]).package
                        == (#[trigger] self@.deps[b]).package && self@.deps[a].dep_name
                        == self@.deps[b].dep_name),
                forall|a: int, b: int|
                    0 <= a < b < self@.packages.len() ==> !((#[trigger] self@.packages[a]).name
                        == (#[trigger] self@.packages[b]).name && self@.packages[a].version
                        == self@.packages[b].version) && !(self@.packages[a].name == self@.packages[b].name
                        && self@.packages[a].current && self@.packages[b].current),
                forall|a: int, b: int|
                    0 <= a < b < self@.files.len() ==> !((#[trigger] self@.files[a]).name
                        == (#[trigger] self@.files[b]).name && self@.files[a].version
                        == self@.files[b].version && self@.files[a].path == self@.files[b].path),
                forall|a: int|
                    0 <= a < self@.files.len() ==> has_pkg(
                        self@,
                        (#[trigger] self@.files[a]).name,
                        self@.files[a].version,
                    ),
            decreases self.deps.len() - i,
        {
            let mut j: usize = 0;
            while j < i
                invariant
                    j <= i < self.deps@.len(),
                    forall|a: int, b: int|
                        0 <= a < b < self@.deps.len() && b < i ==> !((#[trigger] self@.deps[a]).package
                            == (#[trigger] self@.deps[b]).package && self@.deps[a].dep_name
                            == self@.deps[b].dep_name),
                    forall|a: int|
                        0 <= a < j ==> !((#[trigger] self@.deps[a]).package
                            == self@.deps[i as int].package && self@.deps[a].dep_name
                            == self@.deps[i as int].dep_name),
                decreases i - j,
            {
                proof {
                    assert(self@.deps[j as int] == self.deps@[j as int]@);
                    assert(self@.deps[i as int] == self.deps@[i as int]@);
                }
                let a = &self.deps[j];
                let b = &self.deps[i];
                if a.package == b.package && a.dep_name == b.dep_name {
                    proof {
                        assert(self@.deps[j as int].package == self@.deps[i as int].package
                            && self@.deps[j as int].dep_name == self@.deps[i as int].dep_name);
                        assert(!cat_inv(self@));
                    }
                    return false;
                }
                j = j + 1;
            }
            i = i + 1;
        }
        true
    }
}

} // verus!
