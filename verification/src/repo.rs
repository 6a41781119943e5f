//! Repository indexes: the `(name, version, url)` tables a repository
//! publishes, and the repository-list configuration.
//!
//! The repository list is a line-oriented file of `name endpoint` pairs with
//! `#` comments, in the activation-map grammar. Index rows come in as plain
//! triples; reading the index store itself happens outside the library.

use vstd::prelude::*;

use crate::version::{vlt, Version};
use crate::UhpmError;

verus! {

/// What a repository table lists.
#[derive(Debug, Clone)]
pub enum RepoTypes {
    Binary,
    Source,
    Other,
}

/// One row of a repository index.
#[derive(Debug)]
pub struct RepoInfo {
    pub name: String,
    pub version: String,
    pub type_: RepoTypes,
}

impl RepoInfo {
    pub fn new(name: String, version: String, type_: RepoTypes) -> (r: RepoInfo)
        ensures
            r.name@ == name@,
            r.version@ == version@,
    {
        RepoInfo { name, version, type_ }
    }
}

/// A repository's self-description.
#[derive(Debug)]
pub struct RepositoryInfo {
    pub name: String,
    pub arch: String,
    pub description: String,
    pub package_count: usize,
    pub source_count: usize,
}

/// The URL of the first index row carrying `(name, version)`, the version
/// compared as text.
pub open spec fn spec_lookup_url(
    rows: Seq<(Seq<char>, Seq<char>, Seq<char>)>,
    name: Seq<char>,
    version: Seq<char>,
) -> Option<Seq<char>>
    decreases rows.len(),
{
    if rows.len() == 0 {
        None
    } else if rows[0].0 == name && rows[0].1 == version {
        Some(rows[0].2)
    } else {
        spec_lookup_url(rows.skip(1), name, version)
    }
}

/// Resolves `(name, version)` to a download URL in an index.
pub fn get_package_url(
    index: &Vec<(String, String, String)>,
    name: &String,
    version: &String,
) -> (r: Result<String, UhpmError>)
    ensures
        ({
            let rows = index@.map_values(|t: (String, String, String)| (t.0@, t.1@, t.2@));
            match r {
                Ok(url) => spec_lookup_url(rows, name@, version@) == Some(url@),
                Err(e) => spec_lookup_url(rows, name@, version@) is None && e is NotFound,
            }
        }),
{
    let ghost rows = index@.map_values(|t: (String, String, String)| (t.0@, t.1@, t.2@));
    let mut i: usize = 0;
    proof {
        assert(rows.skip(0) =~= rows);
    }
    while i < index.len()
        invariant
            i <= index@.len(),
            rows == index@.map_values(|t: (String, String, String)| (t.0@, t.1@, t.2@)),
            rows.len() == index@.len(),
            spec_lookup_url(rows, name@, version@) == spec_lookup_url(
                rows.skip(i as int),
                name@,
                version@,
            ),
        decreases index.len() - i,
    {
        let ghost tail = rows.skip(i as int);
        proof {
            assert(tail.len() == rows.len() - i);
            assert(tail[0] == rows[i as int]);
            assert(rows[i as int] == (index@[i as int].0@, index@[i as int].1@,
            index@[i as int].2@));
            assert(tail.skip(1) =~= rows.skip(i as int + 1));
        }
        let row = &index[i];
        if row.0 == *name && row.1 == *version {
            return Ok(row.2.clone());
        }
        i = i + 1;
    }
    proof {
        assert(rows.skip(rows.len() as int) =~= Seq::<(Seq<char>, Seq<char>, Seq<char>)>::empty());
    }
    Err(UhpmError::NotFound(name.clone()))
}

/// The greatest version of `name` offered by an index, with its URL. Rows
/// whose version text is not in the grammar are ignored.
pub fn latest_package(index: &Vec<(String, String, String)>, name: &String) -> (r: Option<
    (Version, String),
>)
    ensures
        ({
            let rows = index@.map_values(|t: (String, String, String)| (t.0@, t.1@, t.2@));
            match r {
                Some(p) => (exists|i: int|
                    0 <= i < rows.len() && (#[trigger] rows[i]).0 == name@
                        && crate::version::spec_parse_version(rows[i].1) == Some(p.0@)
                        && rows[i].2 == p.1@) && (forall|j: int|
                    0 <= j < rows.len() && (#[trigger] rows[j]).0 == name@ ==> {
                        match crate::version::spec_parse_version(rows[j].1) {
                            Some(w) => !vlt(p.0@, w),
                            None => true,
                        }
                    }),
                None => forall|j: int|
                    0 <= j < rows.len() ==> !((#[trigger] rows[j]).0 == name@
                        && crate::version::spec_parse_version(rows[j].1) is Some),
            }
        }),
{
    let ghost rows = index@.map_values(|t: (String, String, String)| (t.0@, t.1@, t.2@));
    let mut best: usize = 0;
    let mut best_ver: Option<Version> = None;
    let mut i: usize = 0;
    while i < index.len()
        invariant
            i <= index@.len(),
            rows == index@.map_values(|t: (String, String, String)| (t.0@, t.1@, t.2@)),
            rows.len() == index@.len(),
            match best_ver {
                Some(bv) => best < i && rows[best as int].0 == name@
                    && crate::version::spec_parse_version(rows[best as int].1) == Some(bv@) && (
                forall|j: int|
                    0 <= j < i && (#[trigger] rows[j]).0 == name@ ==> {
                        match crate::version::spec_parse_version(rows[j].1) {
                            Some(w) => !vlt(bv@, w),
                            None => true,
                        }
                    }),
                None => forall|j: int|
                    0 <= j < i ==> !((#[trigger] rows[j]).0 == name@
                        && crate::version::spec_parse_version(rows[j].1) is Some),
            },
        decreases index.len() - i,
    {
        proof {
            assert(rows[i as int] == (index@[i as int].0@, index@[i as int].1@,
            index@[i as int].2@));
        }
        let row = &index[i];
        if row.0 == *name {
            match crate::version::parse_version_str(row.1.as_str()) {
                Some(v) => {
                    let improves = match &best_ver {
                        Some(bv) => bv.lt(&v),
                        None => true,
                    };
                    if improves {
                        proof {
                            crate::version::lemma_vlt_irrefl(v@);
                            if best_ver is Some {
                                let bv = best_ver.unwrap();
                                assert forall|j: int|
                                    0 <= j < i && (#[trigger] rows[j]).0 == name@ implies {
                                    match crate::version::spec_parse_version(rows[j].1) {
                                        Some(w) => !vlt(v@, w),
                                        None => true,
                                    }
                                } by {
                                    match crate::version::spec_parse_version(rows[j].1) {
                                        Some(w) => {
                                            if vlt(v@, w) {
                                                crate::version::lemma_vlt_trans(bv@, v@, w);
                                            }
                                        },
                                        None => {},
                                    }
                                }
                            }
                        }
                        best = i;
                        best_ver = Some(v);
                    } else {
                        proof {
                            let bv = best_ver.unwrap();
                            crate::version::lemma_vlt_connected(bv@, v@);
                        }
                    }
                },
                None => {},
            }
        }
        i = i + 1;
    }
    match best_ver {
        Some(v) => Some((v, index[best].2.clone())),
        None => None,
    }
}

/// Parses the repository list: one `name endpoint` pair per line, with `#`
/// comments and blank lines skipped.
pub fn parse_repos(text: &str) -> (r: Result<Vec<(String, String)>, UhpmError>)
    ensures
        match r {
            Ok(repos) => crate::symlist::spec_parse_symlist(text@) is Some
                && repos@.map_values(|p: (String, String)| (p.0@, p.1@))
                == crate::symlist::spec_parse_symlist(text@).unwrap().map_values(
                |e: crate::symlist::SpecSymlinkEntry| (e.source, e.target),
            ),
            Err(e) => crate::symlist::spec_parse_symlist(text@) is None && e is Parse,
        },
{
    let entries = match crate::symlist::parse_symlist(text) {
        Ok(es) => es,
        Err(_) => {
            return Err(UhpmError::Parse(String::from_str("malformed repository list")));
        },
    };
    let mut out: Vec<(String, String)> = Vec::new();
    let mut i: usize = 0;
    while i < entries.len()
        invariant
            i <= entries@.len(),
            out@.len() == i,
            forall|j: int|
                0 <= j < i ==> (#[trigger] out@[j]).0@ == entries@[j]@.source && out@[j].1@
                    == entries@[j]@.target,
        decreases entries.len() - i,
    {
        let e = &entries[i];
        out.push((e.source.clone(), e.target.clone()));
        i = i + 1;
    }
    proof {
        assert(out@.map_values(|p: (String, String)| (p.0@, p.1@))
            =~= entries@.map_values(|e: crate::symlist::SymlinkEntry| e@).map_values(
            |e: crate::symlist::SpecSymlinkEntry| (e.source, e.target),
        ));
    }
    Ok(out)
}

} // verus!

verus! {

use crate::paths::{find_sub, find_sub_exec, lemma_find_sub};

/// Whether `pat` occurs somewhere in `s`.
pub open spec fn contains_sub(s: Seq<char>, pat: Seq<char>) -> bool {
    pat.len() == 0 || find_sub(s, pat) < s.len()
}

/// The index rows whose package name contains the query, in order.
pub open spec fn rows_matching(
    rows: Seq<(Seq<char>, Seq<char>, Seq<char>)>,
    query: Seq<char>,
) -> Seq<(Seq<char>, Seq<char>, Seq<char>)>
    decreases rows.len(),
{
    if rows.len() == 0 {
        Seq::empty()
    } else {
        let rest = rows_matching(rows.drop_last(), query);
        if contains_sub(rows.last().0, query) {
            rest.push(rows.last())
        } else {
            rest
        }
    }
}

/// Searches an index for the rows whose package name contains the query.
pub fn search_packages(index: &Vec<(String, String, String)>, query: &String) -> (r: Vec<
    (String, String, String),
>)
    ensures
        r@.map_values(|t: (String, String, String)| (t.0@, t.1@, t.2@)) == rows_matching(
            index@.map_values(|t: (String, String, String)| (t.0@, t.1@, t.2@)),
            query@,
        ),
{
    let ghost rows = index@.map_values(|t: (String, String, String)| (t.0@, t.1@, t.2@));
    let q = crate::strutil::str_to_chars(query.as_str());
    let mut out: Vec<(String, String, String)> = Vec::new();
    let mut i: usize = 0;
    proof {
        assert(rows.subrange(0, 0) =~= Seq::<(Seq<char>, Seq<char>, Seq<char>)>::empty());
        assert(out@.map_values(|t: (String, String, String)| (t.0@, t.1@, t.2@)) =~= rows_matching(
            rows.subrange(0, 0),
            query@,
        ));
    }
    while i < index.len()
        invariant
            i <= index@.len(),
            rows == index@.map_values(|t: (String, String, String)| (t.0@, t.1@, t.2@)),
            rows.len() == index@.len(),
            q@ == query@,
            out@.map_values(|t: (String, String, String)| (t.0@, t.1@, t.2@)) == rows_matching(
                rows.subrange(0, i as int),
                query@,
            ),
        decreases index.len() - i,
    {
        proof {
            assert(rows[i as int] == (index@[i as int].0@, index@[i as int].1@,
            index@[i as int].2@));
        }
        let ghost out_before = out@;
        let row = &index[i];
        let name_chars = crate::strutil::str_to_chars(row.0.as_str());
        let hit = if q.len() == 0 {
            true
        } else {
            proof {
                lemma_find_sub(name_chars@, q@);
            }
            find_sub_exec(&name_chars, &q) < name_chars.len()
        };
        proof {
            assert(hit == contains_sub(rows[i as int].0, query@));
        }
        if hit {
            out.push((row.0.clone(), row.1.clone(), row.2.clone()));
            proof {
                assert(out@.map_values(|t: (String, String, String)| (t.0@, t.1@, t.2@))
                    =~= out_before.map_values(|t: (String, String, String)| (t.0@, t.1@, t.2@))
                    .push(rows[i as int]));
            }
        }
        proof {
            let pre = rows.subrange(0, i as int);
            let ext = rows.subrange(0, i as int + 1);
            assert(ext.drop_last() =~= pre);
            assert(ext.last() == rows[i as int]);
            assert(out@.map_values(|t: (String, String, String)| (t.0@, t.1@, t.2@))
                =~= rows_matching(ext, query@));
        }
        i = i + 1;
    }
    proof {
        assert(rows.subrange(0, rows.len() as int) =~= rows);
    }
    out
}

} // verus!

verus! {

/// Resolves `(name, version)` to a source-build-script URL in a repository's
/// sources table, which lists `(name, version, url)` rows like the binaries
/// table.
pub fn get_source_url(
    sources: &Vec<(String, String, String)>,
    name: &String,
    version: &String,
) -> (r: Result<String, UhpmError>)
    ensures
        ({
            let rows = sources@.map_values(|t: (String, String, String)| (t.0@, t.1@, t.2@));
            match r {
                Ok(url) => spec_lookup_url(rows, name@, version@) == Some(url@),
                Err(e) => spec_lookup_url(rows, name@, version@) is None && e is NotFound,
            }
        }),
{
    get_package_url(sources, name, version)
}

} // verus!
