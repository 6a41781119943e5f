//! Package manifests and their textual codec.
//!
//! A manifest records a package's name, version, author, source descriptor,
//! checksum and declared dependencies. The wire form is line-oriented text:
//! one `key=value` line per scalar field in fixed order (`name`, `version`,
//! `author`, `src`, `checksum`), then one `dep=<version> <name>` line per
//! dependency. Values are escaped so that any string round-trips: `\` is
//! written `\\` and a newline is written `\n`. The `src` value carries a
//! `url:`, `path:` or `raw:` tag. The codec round-trips:
//! parsing a serialized manifest returns the manifest itself.

use vstd::prelude::*;

use crate::version::{SpecVersion, Version};

verus! {

/// The source of a package: a download URL, a local path, or opaque text.
#[derive(Debug)]
pub enum Source {
    Url(String),
    LocalPath(String),
    Raw(String),
}

/// Mathematical value of a source descriptor.
pub enum SpecSource {
    Url(Seq<char>),
    LocalPath(Seq<char>),
    Raw(Seq<char>),
}

impl View for Source {
    type V = SpecSource;

    open spec fn view(&self) -> SpecSource {
        match self {
            Source::Url(s) => SpecSource::Url(s@),
            Source::LocalPath(s) => SpecSource::LocalPath(s@),
            Source::Raw(s) => SpecSource::Raw(s@),
        }
    }
}

/// The text carried by a source descriptor, whatever its tag.
pub open spec fn spec_source_text(s: SpecSource) -> Seq<char> {
    match s {
        SpecSource::Url(t) => t,
        SpecSource::LocalPath(t) => t,
        SpecSource::Raw(t) => t,
    }
}

impl Source {
    /// The text carried by this source descriptor.
    pub fn as_str(&self) -> (r: &str)
        ensures
            r@ == spec_source_text(self@),
    {
        match self {
            Source::Url(s) => s.as_str(),
            Source::Raw(s) => s.as_str(),
            Source::LocalPath(p) => p.as_str(),
        }
    }
}

impl Clone for Source {
    fn clone(&self) -> (r: Self)
        ensures
            r@ == self@,
    {
        match self {
            Source::Url(s) => Source::Url(s.clone()),
            Source::LocalPath(s) => Source::LocalPath(s.clone()),
            Source::Raw(s) => Source::Raw(s.clone()),
        }
    }
}

/// A declared dependency: a package name and a version.
#[derive(Debug)]
pub struct Dependency {
    pub name: String,
    pub version: Version,
}

/// Mathematical value of a dependency.
pub struct SpecDependency {
    pub name: Seq<char>,
    pub version: SpecVersion,
}

impl View for Dependency {
    type V = SpecDependency;

    open spec fn view(&self) -> SpecDependency {
        SpecDependency { name: self.name@, version: self.version@ }
    }
}

impl Clone for Dependency {
    fn clone(&self) -> (r: Self)
        ensures
            r@ == self@,
    {
        Dependency { name: self.name.clone(), version: self.version.clone() }
    }
}

/// A package manifest.
#[derive(Debug)]
pub struct Package {
    pub name: String,
    pub author: String,
    pub version: Version,
    pub src: Source,
    pub checksum: String,
    pub dependencies: Vec<Dependency>,
}

/// Mathematical value of a manifest.
pub struct SpecPackage {
    pub name: Seq<char>,
    pub author: Seq<char>,
    pub version: SpecVersion,
    pub src: SpecSource,
    pub checksum: Seq<char>,
    pub dependencies: Seq<SpecDependency>,
}

impl View for Package {
    type V = SpecPackage;

    open spec fn view(&self) -> SpecPackage {
        SpecPackage {
            name: self.name@,
            author: self.author@,
            version: self.version@,
            src: self.src@,
            checksum: self.checksum@,
            dependencies: self.dependencies@.map_values(|d: Dependency| d@),
        }
    }
}

impl Clone for Package {
    fn clone(&self) -> (r: Self)
        ensures
            r@ == self@,
    {
        let deps = self.dependencies.clone();
        proof {
            assert(forall|i: int|
                0 <= i < self.dependencies@.len() ==> deps@[i]@ == self.dependencies@[i]@);
            assert(deps@.map_values(|d: Dependency| d@) =~= self.dependencies@.map_values(
                |d: Dependency| d@,
            ));
        }
        Package {
            name: self.name.clone(),
            author: self.author.clone(),
            version: self.version.clone(),
            src: self.src.clone(),
            checksum: self.checksum.clone(),
            dependencies: deps,
        }
    }
}

impl Package {
    /// A manifest from its fields; dependencies come as `(name, version)`
    /// pairs.
    pub fn new(
        name: String,
        version: Version,
        author: String,
        src: Source,
        checksum: String,
        dependencies: Vec<(String, Version)>,
    ) -> (r: Package)
        ensures
            r@.name == name@,
            r@.version == version@,
            r@.author == author@,
            r@.src == src@,
            r@.checksum == checksum@,
            r@.dependencies.len() == dependencies@.len(),
            forall|i: int|
                0 <= i < dependencies@.len() ==> #[trigger] r@.dependencies[i].name
                    == dependencies@[i].0@ && r@.dependencies[i].version == dependencies@[i].1@,
    {
        let mut deps: Vec<Dependency> = Vec::new();
        let mut i: usize = 0;
        let ghost gd = dependencies@;
        while i < dependencies.len()
            invariant
                i <= gd.len(),
                gd == dependencies@,
                deps@.len() == i,
                forall|j: int|
                    0 <= j < i ==> #[trigger] deps@[j].name@ == gd[j].0@ && deps@[j].version@
                        == gd[j].1@,
            decreases dependencies.len() - i,
        {
            let n = dependencies[i].0.clone();
            let v = dependencies[i].1.clone();
            deps.push(Dependency { name: n, version: v });
            i = i + 1;
        }
        Package { name, version, author, src, checksum, dependencies: deps }
    }

    pub fn name(&self) -> (r: &str)
        ensures
            r@ == self@.name,
    {
        self.name.as_str()
    }

    pub fn author(&self) -> (r: &str)
        ensures
            r@ == self@.author,
    {
        self.author.as_str()
    }

    pub fn version(&self) -> (r: &Version)
        ensures
            r@ == self@.version,
    {
        &self.version
    }

    pub fn src(&self) -> (r: &Source)
        ensures
            r@ == self@.src,
    {
        &self.src
    }

    pub fn checksum(&self) -> (r: &str)
        ensures
            r@ == self@.checksum,
    {
        self.checksum.as_str()
    }

    /// The declared dependencies, as `(name, version)` pairs.
    pub fn dependencies(&self) -> (r: Vec<(String, Version)>)
        ensures
            r@.len() == self@.dependencies.len(),
            forall|i: int|
                0 <= i < r@.len() ==> #[trigger] r@[i].0@ == self@.dependencies[i].name
                    && r@[i].1@ == self@.dependencies[i].version,
    {
        let mut out: Vec<(String, Version)> = Vec::new();
        let mut i: usize = 0;
        while i < self.dependencies.len()
            invariant
                i <= self.dependencies@.len(),
                out@.len() == i,
                forall|j: int|
                    0 <= j < i ==> #[trigger] out@[j].0@ == self@.dependencies[j].name
                        && out@[j].1@ == self@.dependencies[j].version,
            decreases self.dependencies.len() - i,
        {
            let d = &self.dependencies[i];
            out.push((d.name.clone(), d.version.clone()));
            i = i + 1;
        }
        out
    }
}

} // verus!

verus! {

use crate::version::{
    spec_parse_version, spec_render_version, wf_version, first_idx, lemma_first_idx,
    lemma_first_idx_concat, lemma_first_idx_absent, lemma_version_roundtrip, is_ident_char,
    is_valid_build, render_pre, dec_of, is_canon_num, all_digits, lemma_dec_of_val,
};
use crate::strutil::starts_with;

// ---------------------------------------------------------------------------
// Value escaping
// ---------------------------------------------------------------------------

/// Escape of one character: backslash and newline get two-character forms.
pub open spec fn esc_char(c: char) -> Seq<char> {
    if c == '\\' {
        seq!['\\', '\\']
    } else if c == '\n' {
        seq!['\\', 'n']
    } else {
        seq![c]
    }
}

/// Escape of a value: the concatenation of its characters' escapes.
pub open spec fn esc(s: Seq<char>) -> Seq<char>
    decreases s.len(),
{
    if s.len() == 0 {
        Seq::empty()
    } else {
        esc_char(s[0]) + esc(s.skip(1))
    }
}

/// Inverse of [`esc`]: fails on a dangling or unknown escape.
pub open spec fn unesc(s: Seq<char>) -> Option<Seq<char>>
    decreases s.len(),
{
    if s.len() == 0 {
        Some(Seq::empty())
    } else if s[0] == '\\' {
        if s.len() >= 2 {
            if s[1] == '\\' {
                match unesc(s.skip(2)) {
                    Some(r) => Some(seq!['\\'] + r),
                    None => None,
                }
            } else if s[1] == 'n' {
                match unesc(s.skip(2)) {
                    Some(r) => Some(seq!['\n'] + r),
                    None => None,
                }
            } else {
                None
            }
        } else {
            None
        }
    } else {
        match unesc(s.skip(1)) {
            Some(r) => Some(seq![s[0]] + r),
            None => None,
        }
    }
}

/// Escaped text never contains a newline.
pub proof fn lemma_esc_no_nl(s: Seq<char>)
    ensures
        forall|j: int| 0 <= j < esc(s).len() ==> #[trigger] esc(s)[j] != '\n',
    decreases s.len(),
{
    if s.len() > 0 {
        lemma_esc_no_nl(s.skip(1));
        assert(forall|j: int|
            0 <= j < esc(s).len() ==> esc(s)[j] == if j < esc_char(s[0]).len() {
                esc_char(s[0])[j]
            } else {
                esc(s.skip(1))[j - esc_char(s[0]).len()]
            });
    }
}

/// Unescaping an escaped value gives the value back.
pub proof fn lemma_unesc_esc(s: Seq<char>)
    ensures
        unesc(esc(s)) == Some(s),
    decreases s.len(),
{
    if s.len() == 0 {
        assert(esc(s) =~= Seq::<char>::empty());
    } else {
        lemma_unesc_esc(s.skip(1));
        let e = esc(s);
        let c = s[0];
        assert(e == esc_char(c) + esc(s.skip(1)));
        if c == '\\' || c == '\n' {
            assert(e.len() >= 2);
            assert(e[0] == '\\');
            assert(e[1] == if c == '\\' { '\\' } else { 'n' });
            assert(e.skip(2) =~= esc(s.skip(1)));
            assert(seq![c] + s.skip(1) =~= s);
        } else {
            assert(e[0] == c);
            assert(e[0] != '\\');
            assert(e.skip(1) =~= esc(s.skip(1)));
            assert(seq![c] + s.skip(1) =~= s);
        }
    }
}

// ---------------------------------------------------------------------------
// Lines
// ---------------------------------------------------------------------------

/// The newline-terminated lines of `s`; fails if the final line lacks its
/// terminator.
pub open spec fn split_lines(s: Seq<char>) -> Option<Seq<Seq<char>>>
    decreases s.len(),
{
    if s.len() == 0 {
        Some(Seq::empty())
    } else {
        let i = first_idx(s, '\n');
        if 0 <= i < s.len() {
            match split_lines(s.skip(i + 1)) {
                Some(r) => Some(seq![s.subrange(0, i)] + r),
                None => None,
            }
        } else {
            None
        }
    }
}

/// Splitting text that starts with the newline-free line `a` peels `a` off.
pub proof fn lemma_split_lines_step(a: Seq<char>, b: Seq<char>)
    requires
        forall|j: int| 0 <= j < a.len() ==> a[j] != '\n',
    ensures
        split_lines(a + seq!['\n'] + b) == match split_lines(b) {
            Some(r) => Some(seq![a] + r),
            None => None::<Seq<Seq<char>>>,
        },
{
    let s = a + seq!['\n'] + b;
    lemma_first_idx_concat(a, b, '\n');
    assert(s.len() > 0);
    assert(first_idx(s, '\n') == a.len());
    assert(s.subrange(0, a.len() as int) =~= a);
    assert(s.skip(a.len() as int + 1) =~= b);
}

} // verus!

verus! {

// ---------------------------------------------------------------------------
// The manifest wire form
// ---------------------------------------------------------------------------

pub open spec fn key_name() -> Seq<char> {
    seq!['n', 'a', 'm', 'e', '=']
}

pub open spec fn key_version() -> Seq<char> {
    seq!['v', 'e', 'r', 's', 'i', 'o', 'n', '=']
}

pub open spec fn key_author() -> Seq<char> {
    seq!['a', 'u', 't', 'h', 'o', 'r', '=']
}

pub open spec fn key_src() -> Seq<char> {
    seq!['s', 'r', 'c', '=']
}

pub open spec fn key_checksum() -> Seq<char> {
    seq!['c', 'h', 'e', 'c', 'k', 's', 'u', 'm', '=']
}

pub open spec fn key_dep() -> Seq<char> {
    seq!['d', 'e', 'p', '=']
}

pub open spec fn key_of_update_source() -> Seq<char> {
    seq!['u', 'p', 'd', 'a', 't', 'e', '_', 's', 'o', 'u', 'r', 'c', 'e', '=']
}

pub open spec fn src_tag(s: SpecSource) -> Seq<char> {
    match s {
        SpecSource::Url(_) => seq!['u', 'r', 'l'],
        SpecSource::LocalPath(_) => seq!['p', 'a', 't', 'h'],
        SpecSource::Raw(_) => seq!['r', 'a', 'w'],
    }
}

pub open spec fn dep_line(d: SpecDependency) -> Seq<char> {
    key_dep() + spec_render_version(d.version) + seq![' '] + esc(d.name) + seq!['\n']
}

pub open spec fn dep_lines(ds: Seq<SpecDependency>) -> Seq<char>
    decreases ds.len(),
{
    if ds.len() == 0 {
        Seq::empty()
    } else {
        dep_line(ds[0]) + dep_lines(ds.skip(1))
    }
}

/// The serialized manifest: the five scalar lines in fixed order, then one
/// line per dependency.
pub open spec fn spec_serialize_package(p: SpecPackage) -> Seq<char> {
    (key_name() + esc(p.name)) + seq!['\n'] + ((key_version() + spec_render_version(p.version))
        + seq!['\n'] + ((key_author() + esc(p.author)) + seq!['\n'] + ((key_src() + (src_tag(
        p.src,
    ) + seq![':'] + esc(spec_source_text(p.src)))) + seq!['\n'] + ((key_checksum() + esc(
        p.checksum,
    )) + seq!['\n'] + dep_lines(p.dependencies)))))
}

/// The value of a `key=value` line, when the line carries that key.
pub open spec fn field_of(line: Seq<char>, key: Seq<char>) -> Option<Seq<char>> {
    if starts_with(line, key) {
        Some(line.skip(key.len() as int))
    } else {
        None
    }
}

/// The source descriptor of a `tag:value` field.
pub open spec fn parse_src(v: Seq<char>) -> Option<SpecSource> {
    let i = first_idx(v, ':');
    if i < v.len() {
        let tag = v.subrange(0, i);
        match unesc(v.skip(i + 1)) {
            None => None,
            Some(t) => if tag == seq!['u', 'r', 'l'] {
                Some(SpecSource::Url(t))
            } else if tag == seq!['p', 'a', 't', 'h'] {
                Some(SpecSource::LocalPath(t))
            } else if tag == seq!['r', 'a', 'w'] {
                Some(SpecSource::Raw(t))
            } else {
                None
            },
        }
    } else {
        None
    }
}

/// One dependency line: the version up to the first space, the escaped name
/// after it.
pub open spec fn parse_dep(line: Seq<char>) -> Option<SpecDependency> {
    match field_of(line, key_dep()) {
        None => None,
        Some(v) => {
            let i = first_idx(v, ' ');
            if i < v.len() {
                match (spec_parse_version(v.subrange(0, i)), unesc(v.skip(i + 1))) {
                    (Some(ver), Some(n)) => Some(SpecDependency { name: n, version: ver }),
                    _ => None,
                }
            } else {
                None
            }
        },
    }
}

pub open spec fn parse_deps(lines: Seq<Seq<char>>) -> Option<Seq<SpecDependency>>
    decreases lines.len(),
{
    if lines.len() == 0 {
        Some(Seq::empty())
    } else {
        match parse_dep(lines[0]) {
            None => None,
            Some(d) => match parse_deps(lines.skip(1)) {
                Some(r) => Some(seq![d] + r),
                None => None,
            },
        }
    }
}

/// Parse of a serialized manifest: exactly the inverse of
/// [`spec_serialize_package`] on well-formed manifests.
pub open spec fn spec_parse_package(s: Seq<char>) -> Option<SpecPackage> {
    match split_lines(s) {
        None => None,
        Some(ls) => if ls.len() < 5 {
            None
        } else {
            match (
                field_of(ls[0], key_name()),
                field_of(ls[1], key_version()),
                field_of(ls[2], key_author()),
                field_of(ls[3], key_src()),
                field_of(ls[4], key_checksum()),
            ) {
                (Some(nv), Some(vv), Some(av), Some(sv), Some(cv)) => {
                    match (
                        unesc(nv),
                        spec_parse_version(vv),
                        unesc(av),
                        parse_src(sv),
                        unesc(cv),
                        parse_deps(ls.skip(5)),
                    ) {
                        (Some(n), Some(ver), Some(a), Some(src), Some(c), Some(ds)) => Some(
                            SpecPackage {
                                name: n,
                                author: a,
                                version: ver,
                                src,
                                checksum: c,
                                dependencies: ds,
                            },
                        ),
                        _ => None,
                    }
                },
                _ => None,
            }
        },
    }
}

/// A manifest the wire form can carry: its versions lie in the version
/// grammar. Field strings are arbitrary; escaping covers them.
pub open spec fn wf_package(p: SpecPackage) -> bool {
    &&& wf_version(p.version)
    &&& forall|i: int| 0 <= i < p.dependencies.len() ==> wf_version(#[trigger] p.dependencies[i].version)
}

} // verus!

verus! {

// ---------------------------------------------------------------------------
// The codec round-trips
// ---------------------------------------------------------------------------

/// Every character of a rendered well-formed version is an identifier
/// character, a dot, or a plus.
pub proof fn lemma_render_version_chars(v: crate::version::SpecVersion)
    requires
        wf_version(v),
    ensures
        forall|j: int|
            0 <= j < spec_render_version(v).len() ==> (is_ident_char(
                #[trigger] spec_render_version(v)[j],
            ) || spec_render_version(v)[j] == '.' || spec_render_version(v)[j] == '+'),
{
    crate::version::lemma_core_parses(v.major, v.minor, v.patch);
    let core = dec_of(v.major) + seq!['.'] + dec_of(v.minor) + seq!['.'] + dec_of(v.patch);
    let prepart = if v.pre.len() > 0 {
        seq!['-'] + render_pre(v.pre)
    } else {
        Seq::<char>::empty()
    };
    let buildpart = if v.build.len() > 0 {
        seq!['+'] + v.build
    } else {
        Seq::<char>::empty()
    };
    if v.pre.len() > 0 {
        crate::version::lemma_parse_render_pre(v.pre);
    }
    let s = spec_render_version(v);
    assert(s =~= core + prepart + buildpart);
    assert(forall|j: int| 0 <= j < core.len() ==> (is_ident_char(core[j]) || core[j] == '.'))
        by {
        assert(forall|j: int| 0 <= j < core.len() ==> (crate::version::is_digit(core[j]) || core[j]
            == '.'));
    }
    assert(forall|j: int|
        0 <= j < prepart.len() ==> (is_ident_char(#[trigger] prepart[j]) || prepart[j] == '.'));
    assert(forall|j: int|
        0 <= j < buildpart.len() ==> (is_ident_char(#[trigger] buildpart[j]) || buildpart[j] == '.'
            || buildpart[j] == '+'));
    assert(forall|j: int|
        0 <= j < s.len() ==> s[j] == if j < core.len() {
            core[j]
        } else if j < core.len() + prepart.len() {
            prepart[j - core.len()]
        } else {
            buildpart[j - core.len() - prepart.len()]
        });
}

/// A `key=value` line hands back exactly its value.
pub proof fn lemma_field_of(key: Seq<char>, val: Seq<char>)
    ensures
        field_of(key + val, key) == Some(val),
{
    let line = key + val;
    assert(line.subrange(0, key.len() as int) =~= key);
    assert(starts_with(line, key));
    assert(line.skip(key.len() as int) =~= val);
}

/// Dependency lines split back into lines and parse back to the
/// dependencies.
proof fn lemma_dep_lines_roundtrip(ds: Seq<SpecDependency>)
    requires
        forall|i: int| 0 <= i < ds.len() ==> wf_version(#[trigger] ds[i].version),
    ensures
        match split_lines(dep_lines(ds)) {
            Some(dls) => parse_deps(dls) == Some(ds),
            None => false,
        },
    decreases ds.len(),
{
    if ds.len() == 0 {
        assert(dep_lines(ds) =~= Seq::<char>::empty());
        assert(split_lines(Seq::<char>::empty()) == Some(Seq::<Seq<char>>::empty()));
        assert(parse_deps(Seq::<Seq<char>>::empty()) == Some(Seq::<SpecDependency>::empty()));
        assert(ds =~= Seq::<SpecDependency>::empty());
    } else {
        let d = ds[0];
        lemma_dep_lines_roundtrip(ds.skip(1));
        lemma_version_roundtrip(d.version);
        lemma_render_version_chars(d.version);
        lemma_unesc_esc(d.name);
        lemma_esc_no_nl(d.name);
        let content = key_dep() + spec_render_version(d.version) + seq![' '] + esc(d.name);
        assert(forall|j: int| 0 <= j < content.len() ==> content[j] != '\n') by {
            let kv = key_dep();
            let rv = spec_render_version(d.version);
            let en = esc(d.name);
            assert(forall|j: int|
                0 <= j < content.len() ==> content[j] == if j < kv.len() {
                    kv[j]
                } else if j < kv.len() + rv.len() {
                    rv[j - kv.len()]
                } else if j == kv.len() + rv.len() {
                    ' '
                } else {
                    en[j - kv.len() - rv.len() - 1]
                });
        }
        assert(dep_lines(ds) =~= content + seq!['\n'] + dep_lines(ds.skip(1)));
        lemma_split_lines_step(content, dep_lines(ds.skip(1)));
        let dls_rest = split_lines(dep_lines(ds.skip(1)));
        assert(dls_rest is Some);
        let dls = seq![content] + dls_rest.unwrap();
        assert(split_lines(dep_lines(ds)) == Some(dls));
        // The one line parses back to `d`.
        let v = spec_render_version(d.version) + seq![' '] + esc(d.name);
        assert(content =~= key_dep() + v);
        lemma_field_of(key_dep(), v);
        assert(forall|j: int|
            0 <= j < spec_render_version(d.version).len() ==> #[trigger] spec_render_version(
                d.version,
            )[j] != ' ');
        lemma_first_idx_concat(spec_render_version(d.version), esc(d.name), ' ');
        assert(v =~= spec_render_version(d.version) + seq![' '] + esc(d.name));
        let i = first_idx(v, ' ');
        assert(i == spec_render_version(d.version).len());
        assert(v.subrange(0, i) =~= spec_render_version(d.version));
        assert(v.skip(i + 1) =~= esc(d.name));
        assert(parse_dep(content) == Some(d));
        assert(dls[0] == content);
        assert(dls.skip(1) =~= dls_rest.unwrap());
        assert(parse_deps(dls) == Some(seq![d] + ds.skip(1)));
        assert(seq![d] + ds.skip(1) =~= ds);
    }
}

/// The contents of the five scalar lines, in order.
pub open spec fn src_val(s: SpecSource) -> Seq<char> {
    src_tag(s) + seq![':'] + esc(spec_source_text(s))
}

pub open spec fn scalar_contents(p: SpecPackage) -> Seq<Seq<char>> {
    seq![
        key_name() + esc(p.name),
        key_version() + spec_render_version(p.version),
        key_author() + esc(p.author),
        key_src() + src_val(p.src),
        key_checksum() + esc(p.checksum),
    ]
}

/// Each scalar line's content is newline-free.
proof fn lemma_scalar_no_nl(p: SpecPackage)
    requires
        wf_package(p),
    ensures
        forall|k: int, j: int|
            0 <= k < 5 && 0 <= j < scalar_contents(p)[k].len() ==> #[trigger] scalar_contents(
                p,
            )[k][j] != '\n',
{
    lemma_render_version_chars(p.version);
    lemma_esc_no_nl(p.name);
    lemma_esc_no_nl(p.author);
    lemma_esc_no_nl(p.checksum);
    lemma_esc_no_nl(spec_source_text(p.src));
    let c = scalar_contents(p);
    assert(forall|j: int| 0 <= j < c[0].len() ==> #[trigger] c[0][j] != '\n') by {
        lemma_concat_no_nl(key_name(), esc(p.name));
    }
    assert(forall|j: int| 0 <= j < c[1].len() ==> #[trigger] c[1][j] != '\n') by {
        lemma_concat_no_nl(key_version(), spec_render_version(p.version));
    }
    assert(forall|j: int| 0 <= j < c[2].len() ==> #[trigger] c[2][j] != '\n') by {
        lemma_concat_no_nl(key_author(), esc(p.author));
    }
    assert(forall|j: int| 0 <= j < c[3].len() ==> #[trigger] c[3][j] != '\n') by {
        lemma_concat_no_nl(src_tag(p.src) + seq![':'], esc(spec_source_text(p.src)));
        assert(src_val(p.src) =~= (src_tag(p.src) + seq![':']) + esc(spec_source_text(p.src)));
        lemma_concat_no_nl(key_src(), src_val(p.src));
    }
    assert(forall|j: int| 0 <= j < c[4].len() ==> #[trigger] c[4][j] != '\n') by {
        lemma_concat_no_nl(key_checksum(), esc(p.checksum));
    }
}

/// A serialized manifest splits into the five scalar lines followed by the
/// dependency lines.
#[verifier::rlimit(100)]
proof fn lemma_serialize_split(p: SpecPackage)
    requires
        wf_package(p),
    ensures
        split_lines(dep_lines(p.dependencies)) is Some,
        split_lines(spec_serialize_package(p)) == Some(
            scalar_contents(p) + split_lines(dep_lines(p.dependencies)).unwrap(),
        ),
{
    lemma_scalar_no_nl(p);
    lemma_dep_lines_roundtrip(p.dependencies);
    let c = scalar_contents(p);
    let rest = dep_lines(p.dependencies);
    let s5 = c[4] + seq!['\n'] + rest;
    let s4 = c[3] + seq!['\n'] + s5;
    let s3 = c[2] + seq!['\n'] + s4;
    let s2 = c[1] + seq!['\n'] + s3;
    let s1 = c[0] + seq!['\n'] + s2;
    assert(c[3] =~= key_src() + (src_tag(p.src) + seq![':'] + esc(spec_source_text(p.src))));
    assert(spec_serialize_package(p) == s1);
    lemma_split_lines_step(c[4], rest);
    lemma_split_lines_step(c[3], s5);
    lemma_split_lines_step(c[2], s4);
    lemma_split_lines_step(c[1], s3);
    lemma_split_lines_step(c[0], s2);
    let dls = split_lines(rest).unwrap();
    assert(split_lines(s1) == Some(
        seq![c[0]] + (seq![c[1]] + (seq![c[2]] + (seq![c[3]] + (seq![c[4]] + dls)))),
    ));
    assert(seq![c[0]] + (seq![c[1]] + (seq![c[2]] + (seq![c[3]] + (seq![c[4]] + dls)))) =~= c
        + dls);
}

/// The source field parses back to the source descriptor.
proof fn lemma_src_roundtrip(src: SpecSource)
    ensures
        parse_src(src_val(src)) == Some(src),
{
    lemma_unesc_esc(spec_source_text(src));
    let sv = src_val(src);
    assert(forall|j: int| 0 <= j < src_tag(src).len() ==> #[trigger] src_tag(src)[j] != ':');
    lemma_first_idx_concat(src_tag(src), esc(spec_source_text(src)), ':');
    assert(sv =~= src_tag(src) + seq![':'] + esc(spec_source_text(src)));
    let ci = first_idx(sv, ':');
    assert(ci == src_tag(src).len());
    assert(sv.subrange(0, ci) =~= src_tag(src));
    assert(sv.skip(ci + 1) =~= esc(spec_source_text(src)));
    match src {
        SpecSource::Url(t) => {
            assert(parse_src(sv) == Some(SpecSource::Url(t)));
        },
        SpecSource::LocalPath(t) => {
            assert(src_tag(src) != seq!['u', 'r', 'l']) by {
                assert(src_tag(src).len() == 4);
            }
            assert(parse_src(sv) == Some(SpecSource::LocalPath(t)));
        },
        SpecSource::Raw(t) => {
            assert(src_tag(src) != seq!['u', 'r', 'l']) by {
                assert(src_tag(src)[0] == 'r');
            }
            assert(src_tag(src) != seq!['p', 'a', 't', 'h']) by {
                assert(src_tag(src).len() == 3);
                assert(seq!['p', 'a', 't', 'h'].len() == 4);
            }
            assert(parse_src(sv) == Some(SpecSource::Raw(t)));
        },
    }
}

/// Parsing a serialized well-formed manifest returns the manifest: the codec
/// round-trips.
#[verifier::rlimit(60)]
pub proof fn lemma_manifest_roundtrip(p: SpecPackage)
    requires
        wf_package(p),
    ensures
        spec_parse_package(spec_serialize_package(p)) == Some(p),
{
    lemma_version_roundtrip(p.version);
    lemma_unesc_esc(p.name);
    lemma_unesc_esc(p.author);
    lemma_unesc_esc(p.checksum);
    lemma_serialize_split(p);
    lemma_src_roundtrip(p.src);
    lemma_dep_lines_roundtrip(p.dependencies);
    let c = scalar_contents(p);
    let dls = split_lines(dep_lines(p.dependencies)).unwrap();
    let ls = c + dls;
    assert(split_lines(spec_serialize_package(p)) == Some(ls));
    assert(ls.len() >= 5);
    assert(ls[0] == c[0] && ls[1] == c[1] && ls[2] == c[2] && ls[3] == c[3] && ls[4] == c[4]);
    assert(ls.skip(5) =~= dls);
    lemma_field_of(key_name(), esc(p.name));
    lemma_field_of(key_version(), spec_render_version(p.version));
    lemma_field_of(key_author(), esc(p.author));
    lemma_field_of(key_src(), src_val(p.src));
    lemma_field_of(key_checksum(), esc(p.checksum));
    match spec_parse_package(spec_serialize_package(p)) {
        Some(q) => {
            assert(q.name =~= p.name);
            assert(q.author =~= p.author);
            assert(q.checksum =~= p.checksum);
            assert(q.dependencies =~= p.dependencies);
            assert(q == p);
        },
        None => {
            assert(false);
        },
    }
}

/// Concatenations of newline-free parts are newline-free.
proof fn lemma_concat_no_nl(a: Seq<char>, b: Seq<char>)
    requires
        forall|j: int| 0 <= j < a.len() ==> a[j] != '\n',
        forall|j: int| 0 <= j < b.len() ==> b[j] != '\n',
    ensures
        forall|j: int| 0 <= j < (a + b).len() ==> #[trigger] (a + b)[j] != '\n',
{
    assert(forall|j: int|
        0 <= j < (a + b).len() ==> (a + b)[j] == if j < a.len() {
            a[j]
        } else {
            b[j - a.len()]
        });
}

} // verus!

verus! {

use crate::strutil::{str_to_chars, chars_to_string, chars_slice, chars_start_with, chars_eq,
    append_chars};
use crate::version::{parse_version, render_version};
use crate::UhpmError;

// ---------------------------------------------------------------------------
// Executable codec
// ---------------------------------------------------------------------------

/// Escaping distributes over concatenation.
proof fn lemma_esc_concat(a: Seq<char>, b: Seq<char>)
    ensures
        esc(a + b) == esc(a) + esc(b),
    decreases a.len(),
{
    if a.len() == 0 {
        assert(a + b =~= b);
        assert(esc(a) =~= Seq::<char>::empty());
        assert(esc(a) + esc(b) =~= esc(b));
    } else {
        lemma_esc_concat(a.skip(1), b);
        assert((a + b).skip(1) =~= a.skip(1) + b);
        assert((a + b)[0] == a[0]);
        assert(esc(a + b) == esc_char(a[0]) + (esc(a.skip(1)) + esc(b)));
        assert(esc_char(a[0]) + (esc(a.skip(1)) + esc(b)) =~= (esc_char(a[0]) + esc(a.skip(1)))
            + esc(b));
    }
}

/// Dependency lines distribute over concatenation.
proof fn lemma_dep_lines_concat(a: Seq<SpecDependency>, b: Seq<SpecDependency>)
    ensures
        dep_lines(a + b) == dep_lines(a) + dep_lines(b),
    decreases a.len(),
{
    if a.len() == 0 {
        assert(a + b =~= b);
        assert(dep_lines(a) =~= Seq::<char>::empty());
        assert(dep_lines(a) + dep_lines(b) =~= dep_lines(b));
    } else {
        lemma_dep_lines_concat(a.skip(1), b);
        assert((a + b).skip(1) =~= a.skip(1) + b);
        assert((a + b)[0] == a[0]);
        assert(dep_lines(a + b) == dep_line(a[0]) + (dep_lines(a.skip(1)) + dep_lines(b)));
        assert(dep_line(a[0]) + (dep_lines(a.skip(1)) + dep_lines(b)) =~= (dep_line(a[0])
            + dep_lines(a.skip(1))) + dep_lines(b));
    }
}

/// Appends the escape of `src` to `out`.
pub(crate) fn esc_into(src: &Vec<char>, out: &mut Vec<char>)
    ensures
        final(out)@ == old(out)@ + esc(src@),
{
    let mut i: usize = 0;
    proof {
        assert(src@.subrange(0, 0) =~= Seq::<char>::empty());
        assert(esc(Seq::<char>::empty()) =~= Seq::<char>::empty());
        assert(out@ =~= old(out)@ + esc(src@.subrange(0, 0)));
    }
    while i < src.len()
        invariant
            i <= src.len(),
            out@ == old(out)@ + esc(src@.subrange(0, i as int)),
        decreases src.len() - i,
    {
        let c = src[i];
        if c == '\\' {
            out.push('\\');
            out.push('\\');
        } else if c == '\n' {
            out.push('\\');
            out.push('n');
        } else {
            out.push(c);
        }
        proof {
            let pre = src@.subrange(0, i as int);
            let ext = src@.subrange(0, i as int + 1);
            assert(ext =~= pre + seq![src@[i as int]]);
            lemma_esc_concat(pre, seq![src@[i as int]]);
            assert(seq![src@[i as int]].skip(1) =~= Seq::<char>::empty());
            assert(esc(Seq::<char>::empty()) == Seq::<char>::empty());
            assert(esc(seq![src@[i as int]]) =~= esc_char(src@[i as int]) + esc(
                Seq::<char>::empty(),
            ));
            assert(esc(seq![src@[i as int]]) =~= esc_char(src@[i as int]));
            assert(out@ =~= old(out)@ + esc(ext));
        }
        i = i + 1;
    }
    proof {
        assert(src@.subrange(0, src@.len() as int) =~= src@);
    }
}

/// Appends the unescape of `v` from `from` on; reports a malformed escape.
fn unesc_into(v: &Vec<char>, from: usize, out: &mut Vec<char>) -> (ok: bool)
    requires
        from <= v@.len(),
    ensures
        match unesc(v@.skip(from as int)) {
            Some(r) => ok && final(out)@ == old(out)@ + r,
            None => !ok,
        },
    decreases v@.len() - from,
{
    let ghost s = v@.skip(from as int);
    proof {
        assert(s.len() == v@.len() - from);
    }
    if from == v.len() {
        proof {
            assert(out@ =~= old(out)@ + Seq::<char>::empty());
        }
        return true;
    }
    proof {
        assert(s[0] == v@[from as int]);
    }
    let c = v[from];
    if c == '\\' {
        if from + 1 == v.len() {
            proof {
                assert(s.len() == 1);
            }
            return false;
        }
        proof {
            assert(s.len() >= 2);
            assert(s[1] == v@[from as int + 1]);
            assert(s.skip(2) =~= v@.skip(from as int + 2));
        }
        let c2 = v[from + 1];
        if c2 == '\\' {
            out.push('\\');
            let ok = unesc_into(v, from + 2, out);
            proof {
                if unesc(s.skip(2)) is Some {
                    assert(old(out)@ + (seq!['\\'] + unesc(s.skip(2)).unwrap()) =~= (old(out)@
                        + seq!['\\']) + unesc(s.skip(2)).unwrap());
                }
            }
            ok
        } else if c2 == 'n' {
            out.push('\n');
            let ok = unesc_into(v, from + 2, out);
            proof {
                if unesc(s.skip(2)) is Some {
                    assert(old(out)@ + (seq!['\n'] + unesc(s.skip(2)).unwrap()) =~= (old(out)@
                        + seq!['\n']) + unesc(s.skip(2)).unwrap());
                }
            }
            ok
        } else {
            false
        }
    } else {
        proof {
            assert(s.skip(1) =~= v@.skip(from as int + 1));
        }
        out.push(c);
        let ok = unesc_into(v, from + 1, out);
        proof {
            if unesc(s.skip(1)) is Some {
                assert(old(out)@ + (seq![s[0]] + unesc(s.skip(1)).unwrap()) =~= (old(out)@
                    + seq![s[0]]) + unesc(s.skip(1)).unwrap());
            }
        }
        ok
    }
}

fn push_key_name(out: &mut Vec<char>)
    ensures
        final(out)@ == old(out)@ + key_name(),
{
    out.push('n');
    out.push('a');
    out.push('m');
    out.push('e');
    out.push('=');
    proof {
        assert(out@ =~= old(out)@ + key_name());
    }
}

fn push_key_version(out: &mut Vec<char>)
    ensures
        final(out)@ == old(out)@ + key_version(),
{
    out.push('v');
    out.push('e');
    out.push('r');
    out.push('s');
    out.push('i');
    out.push('o');
    out.push('n');
    out.push('=');
    proof {
        assert(out@ =~= old(out)@ + key_version());
    }
}

fn push_key_author(out: &mut Vec<char>)
    ensures
        final(out)@ == old(out)@ + key_author(),
{
    out.push('a');
    out.push('u');
    out.push('t');
    out.push('h');
    out.push('o');
    out.push('r');
    out.push('=');
    proof {
        assert(out@ =~= old(out)@ + key_author());
    }
}

fn push_key_src(out: &mut Vec<char>)
    ensures
        final(out)@ == old(out)@ + key_src(),
{
    out.push('s');
    out.push('r');
    out.push('c');
    out.push('=');
    proof {
        assert(out@ =~= old(out)@ + key_src());
    }
}

fn push_key_checksum(out: &mut Vec<char>)
    ensures
        final(out)@ == old(out)@ + key_checksum(),
{
    out.push('c');
    out.push('h');
    out.push('e');
    out.push('c');
    out.push('k');
    out.push('s');
    out.push('u');
    out.push('m');
    out.push('=');
    proof {
        assert(out@ =~= old(out)@ + key_checksum());
    }
}

fn push_key_dep(out: &mut Vec<char>)
    ensures
        final(out)@ == old(out)@ + key_dep(),
{
    out.push('d');
    out.push('e');
    out.push('p');
    out.push('=');
    proof {
        assert(out@ =~= old(out)@ + key_dep());
    }
}

fn push_src_val(src: &Source, out: &mut Vec<char>)
    ensures
        final(out)@ == old(out)@ + src_val(src@),
{
    match src {
        Source::Url(s) => {
            out.push('u');
            out.push('r');
            out.push('l');
        },
        Source::LocalPath(s) => {
            out.push('p');
            out.push('a');
            out.push('t');
            out.push('h');
        },
        Source::Raw(s) => {
            out.push('r');
            out.push('a');
            out.push('w');
        },
    }
    proof {
        assert(out@ =~= old(out)@ + src_tag(src@));
    }
    out.push(':');
    let text = str_to_chars(src.as_str());
    esc_into(&text, out);
    proof {
        assert(old(out)@ + src_tag(src@) + seq![':'] + esc(spec_source_text(src@)) =~= old(out)@
            + src_val(src@));
    }
}

/// Serializes a manifest to its wire text.
pub fn serialize_package(p: &Package) -> (r: Vec<char>)
    ensures
        r@ == spec_serialize_package(p@),
{
    let mut out: Vec<char> = Vec::new();
    push_key_name(&mut out);
    let name_chars = str_to_chars(p.name.as_str());
    esc_into(&name_chars, &mut out);
    out.push('\n');
    push_key_version(&mut out);
    let ver_chars = render_version(&p.version);
    append_chars(&mut out, &ver_chars);
    out.push('\n');
    push_key_author(&mut out);
    let author_chars = str_to_chars(p.author.as_str());
    esc_into(&author_chars, &mut out);
    out.push('\n');
    push_key_src(&mut out);
    push_src_val(&p.src, &mut out);
    out.push('\n');
    push_key_checksum(&mut out);
    let sum_chars = str_to_chars(p.checksum.as_str());
    esc_into(&sum_chars, &mut out);
    out.push('\n');
    let ghost base = out@;
    let ghost gdeps = p@.dependencies;
    proof {
        assert(gdeps.subrange(0, 0) =~= Seq::<SpecDependency>::empty());
        assert(dep_lines(Seq::<SpecDependency>::empty()) =~= Seq::<char>::empty());
        assert(out@ =~= base + dep_lines(gdeps.subrange(0, 0)));
    }
    let mut i: usize = 0;
    while i < p.dependencies.len()
        invariant
            i <= p.dependencies@.len(),
            gdeps == p@.dependencies,
            gdeps.len() == p.dependencies@.len(),
            out@ == base + dep_lines(gdeps.subrange(0, i as int)),
        decreases p.dependencies.len() - i,
    {
        let ghost before = out@;
        let d = &p.dependencies[i];
        push_key_dep(&mut out);
        let dv = render_version(&d.version);
        append_chars(&mut out, &dv);
        out.push(' ');
        let dn = str_to_chars(d.name.as_str());
        esc_into(&dn, &mut out);
        out.push('\n');
        proof {
            assert(gdeps[i as int] == p.dependencies@[i as int]@);
            assert(out@ =~= before + dep_line(gdeps[i as int]));
            let pre = gdeps.subrange(0, i as int);
            let ext = gdeps.subrange(0, i as int + 1);
            assert(ext =~= pre + seq![gdeps[i as int]]);
            lemma_dep_lines_concat(pre, seq![gdeps[i as int]]);
            assert(seq![gdeps[i as int]].skip(1) =~= Seq::<SpecDependency>::empty());
            assert(dep_lines(Seq::<SpecDependency>::empty()) == Seq::<char>::empty());
            assert(dep_lines(seq![gdeps[i as int]]) =~= dep_line(gdeps[i as int]) + dep_lines(
                Seq::<SpecDependency>::empty(),
            ));
            assert(dep_lines(seq![gdeps[i as int]]) =~= dep_line(gdeps[i as int]));
            assert(out@ =~= base + dep_lines(ext));
        }
        i = i + 1;
    }
    proof {
        assert(gdeps.subrange(0, gdeps.len() as int) =~= gdeps);
        assert(out@ =~= spec_serialize_package(p@));
    }
    out
}

/// Serializes a manifest to a `String`.
pub fn serialize_package_string(p: &Package) -> (r: String)
    ensures
        r@ == spec_serialize_package(p@),
{
    let chars = serialize_package(p);
    chars_to_string(&chars)
}

} // verus!

verus! {

use crate::version::find_first;

/// The views of a vector of lines.
pub open spec fn lines_views(ls: Seq<Vec<char>>) -> Seq<Seq<char>> {
    ls.map_values(|l: Vec<char>| l@)
}

/// Splits text into newline-terminated lines, from `from` on.
fn split_lines_exec(v: &Vec<char>, from: usize) -> (r: Option<Vec<Vec<char>>>)
    requires
        from <= v@.len(),
    ensures
        match r {
            Some(ls) => split_lines(v@.skip(from as int)) == Some(lines_views(ls@)),
            None => split_lines(v@.skip(from as int)) is None,
        },
    decreases v@.len() - from,
{
    let ghost s = v@.skip(from as int);
    proof {
        assert(s.len() == v@.len() - from);
    }
    if from == v.len() {
        let empty: Vec<Vec<char>> = Vec::new();
        proof {
            assert(lines_views(empty@) =~= Seq::<Seq<char>>::empty());
        }
        return Some(empty);
    }
    let mut i: usize = from;
    while i < v.len() && v[i] != '\n'
        invariant
            from <= i <= v@.len(),
            forall|j: int| from <= j < i ==> v@[j] != '\n',
        decreases v.len() - i,
    {
        i = i + 1;
    }
    proof {
        assert(forall|j: int| 0 <= j < i - from ==> s[j] != '\n');
        if i < v@.len() {
            assert(s[i - from as int] == '\n');
            lemma_first_idx(s, '\n');
            if first_idx(s, '\n') < i - from {
                assert(s[first_idx(s, '\n')] == '\n');
                assert(false);
            }
            if first_idx(s, '\n') > i - from {
                assert(false);
            }
            assert(first_idx(s, '\n') == i - from);
        } else {
            lemma_first_idx_absent(s, '\n');
            assert(first_idx(s, '\n') == s.len());
        }
    }
    if i == v.len() {
        return None;
    }
    let head = chars_slice(v, from, i);
    proof {
        assert(head@ =~= s.subrange(0, i - from as int));
        assert(v@.skip(i as int + 1) =~= s.skip(i - from as int + 1));
    }
    match split_lines_exec(v, i + 1) {
        None => None,
        Some(mut rest) => {
            let ghost grest = rest@;
            rest.insert(0, head);
            proof {
                assert(rest@ =~= seq![head] + grest);
                assert(lines_views(rest@) =~= seq![head@] + lines_views(grest));
            }
            Some(rest)
        },
    }
}

fn key_name_exec() -> (r: Vec<char>)
    ensures
        r@ == key_name(),
{
    let mut v: Vec<char> = Vec::new();
    push_key_name(&mut v);
    proof {
        assert(v@ =~= key_name());
    }
    v
}

fn key_version_exec() -> (r: Vec<char>)
    ensures
        r@ == key_version(),
{
    let mut v: Vec<char> = Vec::new();
    push_key_version(&mut v);
    proof {
        assert(v@ =~= key_version());
    }
    v
}

fn key_author_exec() -> (r: Vec<char>)
    ensures
        r@ == key_author(),
{
    let mut v: Vec<char> = Vec::new();
    push_key_author(&mut v);
    proof {
        assert(v@ =~= key_author());
    }
    v
}

fn key_src_exec() -> (r: Vec<char>)
    ensures
        r@ == key_src(),
{
    let mut v: Vec<char> = Vec::new();
    push_key_src(&mut v);
    proof {
        assert(v@ =~= key_src());
    }
    v
}

fn key_checksum_exec() -> (r: Vec<char>)
    ensures
        r@ == key_checksum(),
{
    let mut v: Vec<char> = Vec::new();
    push_key_checksum(&mut v);
    proof {
        assert(v@ =~= key_checksum());
    }
    v
}

fn key_dep_exec() -> (r: Vec<char>)
    ensures
        r@ == key_dep(),
{
    let mut v: Vec<char> = Vec::new();
    push_key_dep(&mut v);
    proof {
        assert(v@ =~= key_dep());
    }
    v
}

/// The value part of a `key=value` line.
fn field_exec(line: &Vec<char>, key: &Vec<char>) -> (r: Option<Vec<char>>)
    ensures
        match r {
            Some(val) => field_of(line@, key@) == Some(val@),
            None => field_of(line@, key@) is None,
        },
{
    if chars_start_with(line, key) {
        let val = chars_slice(line, key.len(), line.len());
        proof {
            assert(val@ =~= line@.skip(key@.len() as int));
        }
        Some(val)
    } else {
        None
    }
}

/// Unescapes a whole value vector.
pub(crate) fn unesc_all(v: &Vec<char>) -> (r: Option<String>)
    ensures
        match r {
            Some(t) => unesc(v@) == Some(t@),
            None => unesc(v@) is None,
        },
{
    let mut out: Vec<char> = Vec::new();
    let ok = unesc_into(v, 0, &mut out);
    proof {
        assert(v@.skip(0) =~= v@);
    }
    if ok {
        proof {
            assert(out@ =~= Seq::<char>::empty() + unesc(v@).unwrap());
        }
        Some(chars_to_string(&out))
    } else {
        None
    }
}

/// The source descriptor of a `tag:value` field.
fn parse_src_exec(v: &Vec<char>) -> (r: Option<Source>)
    ensures
        match r {
            Some(src) => parse_src(v@) == Some(src@),
            None => parse_src(v@) is None,
        },
{
    proof {
        lemma_first_idx(v@, ':');
    }
    let i = find_first(v, ':');
    if i == v.len() {
        return None;
    }
    let tag = chars_slice(v, 0, i);
    let rest = chars_slice(v, i + 1, v.len());
    proof {
        assert(tag@ == v@.subrange(0, i as int));
        assert(rest@ =~= v@.skip(i as int + 1));
    }
    let text = match unesc_all(&rest) {
        Some(t) => t,
        None => {
            return None;
        },
    };
    let mut url_tag: Vec<char> = Vec::new();
    url_tag.push('u');
    url_tag.push('r');
    url_tag.push('l');
    let mut path_tag: Vec<char> = Vec::new();
    path_tag.push('p');
    path_tag.push('a');
    path_tag.push('t');
    path_tag.push('h');
    let mut raw_tag: Vec<char> = Vec::new();
    raw_tag.push('r');
    raw_tag.push('a');
    raw_tag.push('w');
    proof {
        assert(url_tag@ =~= seq!['u', 'r', 'l']);
        assert(path_tag@ =~= seq!['p', 'a', 't', 'h']);
        assert(raw_tag@ =~= seq!['r', 'a', 'w']);
    }
    if chars_eq(&tag, &url_tag) {
        Some(Source::Url(text))
    } else if chars_eq(&tag, &path_tag) {
        Some(Source::LocalPath(text))
    } else if chars_eq(&tag, &raw_tag) {
        Some(Source::Raw(text))
    } else {
        None
    }
}

/// One dependency line.
fn parse_dep_exec(line: &Vec<char>) -> (r: Option<Dependency>)
    ensures
        match r {
            Some(d) => parse_dep(line@) == Some(d@),
            None => parse_dep(line@) is None,
        },
{
    let kd = key_dep_exec();
    let v = match field_exec(line, &kd) {
        Some(v) => v,
        None => {
            return None;
        },
    };
    proof {
        lemma_first_idx(v@, ' ');
    }
    let i = find_first(&v, ' ');
    if i == v.len() {
        return None;
    }
    let ver_txt = chars_slice(&v, 0, i);
    let name_txt = chars_slice(&v, i + 1, v.len());
    proof {
        assert(ver_txt@ == v@.subrange(0, i as int));
        assert(name_txt@ =~= v@.skip(i as int + 1));
    }
    let ver = match parse_version(&ver_txt) {
        Some(ver) => ver,
        None => {
            return None;
        },
    };
    match unesc_all(&name_txt) {
        Some(n) => Some(Dependency { name: n, version: ver }),
        None => None,
    }
}

/// The dependency lines, from `from` on.
fn parse_deps_exec(ls: &Vec<Vec<char>>, from: usize) -> (r: Option<Vec<Dependency>>)
    requires
        from <= ls@.len(),
    ensures
        match r {
            Some(ds) => parse_deps(lines_views(ls@).skip(from as int)) == Some(
                ds@.map_values(|d: Dependency| d@),
            ),
            None => parse_deps(lines_views(ls@).skip(from as int)) is None,
        },
    decreases ls@.len() - from,
{
    let ghost tail = lines_views(ls@).skip(from as int);
    proof {
        assert(tail.len() == ls@.len() - from);
    }
    if from == ls.len() {
        let empty: Vec<Dependency> = Vec::new();
        proof {
            assert(empty@.map_values(|d: Dependency| d@) =~= Seq::<SpecDependency>::empty());
        }
        return Some(empty);
    }
    proof {
        assert(tail[0] == ls@[from as int]@);
        assert(tail.skip(1) =~= lines_views(ls@).skip(from as int + 1));
    }
    let d = match parse_dep_exec(&ls[from]) {
        Some(d) => d,
        None => {
            return None;
        },
    };
    match parse_deps_exec(ls, from + 1) {
        None => None,
        Some(mut rest) => {
            let ghost grest = rest@;
            rest.insert(0, d);
            proof {
                assert(rest@ =~= seq![d] + grest);
                assert(rest@.map_values(|x: Dependency| x@) =~= seq![d@] + grest.map_values(
                    |x: Dependency| x@,
                ));
            }
            Some(rest)
        },
    }
}

/// Parses manifest text. Returns the manifest exactly when the text lies in
/// the wire grammar.
pub fn parse_package(v: &Vec<char>) -> (r: Option<Package>)
    ensures
        match r {
            Some(p) => spec_parse_package(v@) == Some(p@),
            None => spec_parse_package(v@) is None,
        },
{
    let ls = match split_lines_exec(v, 0) {
        Some(ls) => ls,
        None => {
            proof {
                assert(v@.skip(0) =~= v@);
            }
            return None;
        },
    };
    proof {
        assert(v@.skip(0) =~= v@);
    }
    let ghost gls = lines_views(ls@);
    if ls.len() < 5 {
        return None;
    }
    let kn = key_name_exec();
    let kv = key_version_exec();
    let ka = key_author_exec();
    let ks = key_src_exec();
    let kc = key_checksum_exec();
    proof {
        assert(gls[0] == ls@[0]@);
        assert(gls[1] == ls@[1]@);
        assert(gls[2] == ls@[2]@);
        assert(gls[3] == ls@[3]@);
        assert(gls[4] == ls@[4]@);
    }
    let nv = match field_exec(&ls[0], &kn) {
        Some(x) => x,
        None => {
            return None;
        },
    };
    let vv = match field_exec(&ls[1], &kv) {
        Some(x) => x,
        None => {
            return None;
        },
    };
    let av = match field_exec(&ls[2], &ka) {
        Some(x) => x,
        None => {
            return None;
        },
    };
    let sv = match field_exec(&ls[3], &ks) {
        Some(x) => x,
        None => {
            return None;
        },
    };
    let cv = match field_exec(&ls[4], &kc) {
        Some(x) => x,
        None => {
            return None;
        },
    };
    let name = match unesc_all(&nv) {
        Some(x) => x,
        None => {
            return None;
        },
    };
    let version = match parse_version(&vv) {
        Some(x) => x,
        None => {
            return None;
        },
    };
    let author = match unesc_all(&av) {
        Some(x) => x,
        None => {
            return None;
        },
    };
    let src = match parse_src_exec(&sv) {
        Some(x) => x,
        None => {
            return None;
        },
    };
    let checksum = match unesc_all(&cv) {
        Some(x) => x,
        None => {
            return None;
        },
    };
    let deps = match parse_deps_exec(&ls, 5) {
        Some(x) => x,
        None => {
            return None;
        },
    };
    let p = Package { name, author, version, src, checksum, dependencies: deps };
    proof {
        assert(p@.dependencies =~= deps@.map_values(|d: Dependency| d@));
        assert(spec_parse_package(v@) == Some(p@));
    }
    Some(p)
}

/// Parses manifest text handed as a string; the error carries the taxon of a
/// malformed manifest.
pub fn meta_parser(text: &str) -> (r: Result<Package, UhpmError>)
    ensures
        match r {
            Ok(p) => spec_parse_package(text@) == Some(p@),
            Err(e) => spec_parse_package(text@) is None && e is Parse,
        },
{
    let chars = str_to_chars(text);
    match parse_package(&chars) {
        Some(p) => Ok(p),
        None => Err(UhpmError::Parse(String::from_str("malformed manifest"))),
    }
}

} // verus!
