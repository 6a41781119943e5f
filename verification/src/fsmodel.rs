//! A model of the filesystem slice the package manager owns.
//!
//! The model is a table of absolute paths and the node found at each:
//! a directory, a regular file with its bytes, or a symbolic link with its
//! literal target. Lookups see the most recent write. The coordinator runs
//! over this model; the process around the library mirrors each step onto
//! the real filesystem.

use vstd::prelude::*;

verus! {

/// What stands at a path.
#[derive(Debug)]
pub enum FsNode {
    Dir,
    Regular { data: Vec<u8> },
    Symlink { target: String },
}

pub enum SpecFsNode {
    Dir,
    Regular { data: Seq<u8> },
    Symlink { target: Seq<char> },
}

impl View for FsNode {
    type V = SpecFsNode;

    open spec fn view(&self) -> SpecFsNode {
        match self {
            FsNode::Dir => SpecFsNode::Dir,
            FsNode::Regular { data } => SpecFsNode::Regular { data: data@ },
            FsNode::Symlink { target } => SpecFsNode::Symlink { target: target@ },
        }
    }
}

impl Clone for FsNode {
    fn clone(&self) -> (r: Self)
        ensures
            r@ == self@,
    {
        match self {
            FsNode::Dir => FsNode::Dir,
            FsNode::Regular { data } => {
                let d = data.clone();
                proof {
                    assert(d@ =~= data@);
                }
                FsNode::Regular { data: d }
            },
            FsNode::Symlink { target } => FsNode::Symlink { target: target.clone() },
        }
    }
}

/// The filesystem model: path-node pairs, later writes shadowing earlier
/// ones.
#[derive(Debug)]
pub struct FsState {
    pub entries: Vec<(String, FsNode)>,
}

impl View for FsState {
    type V = Seq<(Seq<char>, SpecFsNode)>;

    open spec fn view(&self) -> Seq<(Seq<char>, SpecFsNode)> {
        self.entries@.map_values(|e: (String, FsNode)| (e.0@, e.1@))
    }
}

/// The node at `path`: the most recent write wins.
pub open spec fn fs_get(fs: Seq<(Seq<char>, SpecFsNode)>, path: Seq<char>) -> Option<SpecFsNode>
    decreases fs.len(),
{
    if fs.len() == 0 {
        None
    } else if fs.last().0 == path {
        Some(fs.last().1)
    } else {
        fs_get(fs.drop_last(), path)
    }
}

/// The table with every entry at `path` removed.
pub open spec fn fs_drop(fs: Seq<(Seq<char>, SpecFsNode)>, path: Seq<char>) -> Seq<
    (Seq<char>, SpecFsNode),
>
    decreases fs.len(),
{
    if fs.len() == 0 {
        Seq::empty()
    } else {
        let rest = fs_drop(fs.drop_last(), path);
        if fs.last().0 == path {
            rest
        } else {
            rest.push(fs.last())
        }
    }
}

/// The table after writing `node` at `path`.
pub open spec fn fs_set(
    fs: Seq<(Seq<char>, SpecFsNode)>,
    path: Seq<char>,
    node: SpecFsNode,
) -> Seq<(Seq<char>, SpecFsNode)> {
    fs_drop(fs, path).push((path, node))
}

/// Whether `p` lies strictly inside the directory `dir`.
pub open spec fn under_dir(p: Seq<char>, dir: Seq<char>) -> bool {
    crate::strutil::starts_with(p, dir + seq!['/'])
}

/// The table with the directory `dir` and everything under it removed.
pub open spec fn fs_drop_tree(fs: Seq<(Seq<char>, SpecFsNode)>, dir: Seq<char>) -> Seq<
    (Seq<char>, SpecFsNode),
>
    decreases fs.len(),
{
    if fs.len() == 0 {
        Seq::empty()
    } else {
        let rest = fs_drop_tree(fs.drop_last(), dir);
        if fs.last().0 == dir || under_dir(fs.last().0, dir) {
            rest
        } else {
            rest.push(fs.last())
        }
    }
}

/// What a lookup sees after a drop of one path.
pub proof fn lemma_fs_get_drop(fs: Seq<(Seq<char>, SpecFsNode)>, path: Seq<char>, q: Seq<char>)
    ensures
        fs_get(fs_drop(fs, path), q) == if q == path {
            None::<SpecFsNode>
        } else {
            fs_get(fs, q)
        },
    decreases fs.len(),
{
    if fs.len() > 0 {
        lemma_fs_get_drop(fs.drop_last(), path, q);
        let rest = fs_drop(fs.drop_last(), path);
        if fs.last().0 != path {
            assert(rest.push(fs.last()).drop_last() =~= rest);
        }
    }
}

/// What a lookup sees after a write.
pub proof fn lemma_fs_get_set(
    fs: Seq<(Seq<char>, SpecFsNode)>,
    path: Seq<char>,
    node: SpecFsNode,
    q: Seq<char>,
)
    ensures
        fs_get(fs_set(fs, path, node), q) == if q == path {
            Some(node)
        } else {
            fs_get(fs, q)
        },
{
    let d = fs_drop(fs, path);
    assert(d.push((path, node)).drop_last() =~= d);
    lemma_fs_get_drop(fs, path, q);
}

/// What a lookup sees after a tree removal.
pub proof fn lemma_fs_get_drop_tree(fs: Seq<(Seq<char>, SpecFsNode)>, dir: Seq<char>, q: Seq<char>)
    ensures
        fs_get(fs_drop_tree(fs, dir), q) == if q == dir || under_dir(q, dir) {
            None::<SpecFsNode>
        } else {
            fs_get(fs, q)
        },
    decreases fs.len(),
{
    if fs.len() > 0 {
        lemma_fs_get_drop_tree(fs.drop_last(), dir, q);
        let rest = fs_drop_tree(fs.drop_last(), dir);
        if !(fs.last().0 == dir || under_dir(fs.last().0, dir)) {
            assert(rest.push(fs.last()).drop_last() =~= rest);
        }
    }
}

impl FsState {
    /// An empty filesystem model.
    pub fn new() -> (r: FsState)
        ensures
            r@.len() == 0,
    {
        let r = FsState { entries: Vec::new() };
        proof {
            assert(r@ =~= Seq::<(Seq<char>, SpecFsNode)>::empty());
        }
        r
    }

    /// The node at `path`, if any.
    pub fn get(&self, path: &String) -> (r: Option<&FsNode>)
        ensures
            match r {
                Some(n) => fs_get(self@, path@) == Some(n@),
                None => fs_get(self@, path@) is None,
            },
    {
        let ghost g = self@;
        let mut i: usize = self.entries.len();
        proof {
            assert(g.subrange(0, g.len() as int) =~= g);
        }
        while i > 0
            invariant
                i <= self.entries@.len(),
                g == self@,
                g.len() == self.entries@.len(),
                fs_get(g, path@) == fs_get(g.subrange(0, i as int), path@),
            decreases i,
        {
            proof {
                assert(g[i - 1] == (self.entries@[i - 1].0@, self.entries@[i - 1].1@));
                assert(g.subrange(0, i as int).last() == g[i - 1]);
                assert(g.subrange(0, i as int).drop_last() =~= g.subrange(0, i as int - 1));
            }
            let e = &self.entries[i - 1];
            if e.0 == *path {
                return Some(&e.1);
            }
            i = i - 1;
        }
        proof {
            assert(g.subrange(0, 0) =~= Seq::<(Seq<char>, SpecFsNode)>::empty());
        }
        None
    }

    /// Whether anything stands at `path`.
    pub fn contains_path(&self, path: &String) -> (r: bool)
        ensures
            r == (fs_get(self@, path@) is Some),
    {
        match self.get(path) {
            Some(_) => true,
            None => false,
        }
    }

    /// Removes every entry at `path`.
    pub fn remove(&mut self, path: &String)
        ensures
            final(self)@ == fs_drop(old(self)@, path@),
    {
        let ghost g = self@;
        let mut kept: Vec<(String, FsNode)> = Vec::new();
        let mut i: usize = 0;
        proof {
            assert(g.subrange(0, 0) =~= Seq::<(Seq<char>, SpecFsNode)>::empty());
            assert(kept@.map_values(|e: (String, FsNode)| (e.0@, e.1@)) =~= fs_drop(
                g.subrange(0, 0),
                path@,
            ));
        }
        while i < self.entries.len()
            invariant
                i <= self.entries@.len(),
                g == self@,
                g.len() == self.entries@.len(),
                kept@.map_values(|e: (String, FsNode)| (e.0@, e.1@)) == fs_drop(
                    g.subrange(0, i as int),
                    path@,
                ),
            decreases self.entries.len() - i,
        {
            proof {
                assert(g[i as int] == (self.entries@[i as int].0@, self.entries@[i as int].1@));
            }
            let ghost kept_before = kept@;
            let e = &self.entries[i];
            if !(e.0 == *path) {
                let n = e.1.clone();
                let p = e.0.clone();
                kept.push((p, n));
                proof {
                    assert(kept@.map_values(|e: (String, FsNode)| (e.0@, e.1@))
                        =~= kept_before.map_values(|e: (String, FsNode)| (e.0@, e.1@)).push(
                        g[i as int],
                    ));
                }
            }
            proof {
                let pre = g.subrange(0, i as int);
                let ext = g.subrange(0, i as int + 1);
                assert(ext.drop_last() =~= pre);
                assert(ext.last() == g[i as int]);
                assert(kept@.map_values(|e: (String, FsNode)| (e.0@, e.1@)) =~= fs_drop(
                    ext,
                    path@,
                ));
            }
            i = i + 1;
        }
        proof {
            assert(g.subrange(0, g.len() as int) =~= g);
        }
        self.entries = kept;
    }

    /// Writes `node` at `path`, shadowing anything there.
    pub fn set(&mut self, path: String, node: FsNode)
        ensures
            final(self)@ == fs_set(old(self)@, path@, node@),
    {
        self.remove(&path);
        let ghost before = self@;
        let ghost gp = path@;
        let ghost gn = node@;
        self.entries.push((path, node));
        proof {
            assert(self@ =~= before.push((gp, gn)));
        }
    }

    /// Removes the directory `dir` and everything under it.
    pub fn remove_tree(&mut self, dir: &String)
        ensures
            final(self)@ == fs_drop_tree(old(self)@, dir@),
    {
        let ghost g = self@;
        let mut kept: Vec<(String, FsNode)> = Vec::new();
        let mut i: usize = 0;
        let mut prefix = crate::strutil::str_to_chars(dir.as_str());
        prefix.push('/');
        proof {
            assert(prefix@ =~= dir@ + seq!['/']);
            assert(g.subrange(0, 0) =~= Seq::<(Seq<char>, SpecFsNode)>::empty());
            assert(kept@.map_values(|e: (String, FsNode)| (e.0@, e.1@)) =~= fs_drop_tree(
                g.subrange(0, 0),
                dir@,
            ));
        }
        while i < self.entries.len()
            invariant
                i <= self.entries@.len(),
                g == self@,
                g.len() == self.entries@.len(),
                prefix@ == dir@ + seq!['/'],
                kept@.map_values(|e: (String, FsNode)| (e.0@, e.1@)) == fs_drop_tree(
                    g.subrange(0, i as int),
                    dir@,
                ),
            decreases self.entries.len() - i,
        {
            proof {
                assert(g[i as int] == (self.entries@[i as int].0@, self.entries@[i as int].1@));
            }
            let ghost kept_before = kept@;
            let e = &self.entries[i];
            let pchars = crate::strutil::str_to_chars(e.0.as_str());
            let inside = crate::strutil::chars_start_with(&pchars, &prefix);
            if !(e.0 == *dir || inside) {
                let n = e.1.clone();
                let p = e.0.clone();
                kept.push((p, n));
                proof {
                    assert(kept@.map_values(|e: (String, FsNode)| (e.0@, e.1@))
                        =~= kept_before.map_values(|e: (String, FsNode)| (e.0@, e.1@)).push(
                        g[i as int],
                    ));
                }
            }
            proof {
                let pre = g.subrange(0, i as int);
                let ext = g.subrange(0, i as int + 1);
                assert(ext.drop_last() =~= pre);
                assert(ext.last() == g[i as int]);
                assert(kept@.map_values(|e: (String, FsNode)| (e.0@, e.1@)) =~= fs_drop_tree(
                    ext,
                    dir@,
                ));
            }
            i = i + 1;
        }
        proof {
            assert(g.subrange(0, g.len() as int) =~= g);
        }
        self.entries = kept;
    }
}

} // verus!
