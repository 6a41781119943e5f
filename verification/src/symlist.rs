//! The activation map: the per-package list of `source target` pairs.
//!
//! The file is line-oriented. A line whose trimmed text is empty or starts
//! with `#` is skipped. Otherwise the first whitespace run splits the line
//! into the source path, relative to the package tree, and the raw target,
//! which may carry expander tokens. Both fields must be nonempty.

use vstd::prelude::*;

use crate::strutil::{chars_slice, chars_to_string, is_ws, str_to_chars};
use crate::version::{first_idx, lemma_first_idx};

verus! {

/// Activation-map errors.
#[derive(Debug)]
pub enum SymlistError {
    Io(String),
    Parse(String),
}

/// One activation pair.
#[derive(Debug)]
pub struct SymlinkEntry {
    pub source: String,
    pub target: String,
}

pub struct SpecSymlinkEntry {
    pub source: Seq<char>,
    pub target: Seq<char>,
}

impl View for SymlinkEntry {
    type V = SpecSymlinkEntry;

    open spec fn view(&self) -> SpecSymlinkEntry {
        SpecSymlinkEntry { source: self.source@, target: self.target@ }
    }
}

impl Clone for SymlinkEntry {
    fn clone(&self) -> (r: Self)
        ensures
            r@ == self@,
    {
        SymlinkEntry { source: self.source.clone(), target: self.target.clone() }
    }
}

// ---------------------------------------------------------------------------
// The line grammar
// ---------------------------------------------------------------------------

pub open spec fn trim_start(s: Seq<char>) -> Seq<char>
    decreases s.len(),
{
    if s.len() > 0 && is_ws(s[0]) {
        trim_start(s.skip(1))
    } else {
        s
    }
}

pub open spec fn trim_end(s: Seq<char>) -> Seq<char>
    decreases s.len(),
{
    if s.len() > 0 && is_ws(s.last()) {
        trim_end(s.drop_last())
    } else {
        s
    }
}

pub open spec fn trim(s: Seq<char>) -> Seq<char> {
    trim_end(trim_start(s))
}

/// Index of the first whitespace character, or the length if none.
pub open spec fn first_ws(s: Seq<char>) -> int
    decreases s.len(),
{
    if s.len() == 0 {
        0
    } else if is_ws(s[0]) {
        0
    } else {
        1 + first_ws(s.skip(1))
    }
}

pub proof fn lemma_first_ws(s: Seq<char>)
    ensures
        0 <= first_ws(s) <= s.len(),
        first_ws(s) < s.len() ==> is_ws(s[first_ws(s)]),
        forall|j: int| 0 <= j < first_ws(s) ==> !is_ws(s[j]),
    decreases s.len(),
{
    if s.len() > 0 && !is_ws(s[0]) {
        lemma_first_ws(s.skip(1));
        assert(forall|j: int| 1 <= j < s.len() ==> s[j] == s.skip(1)[j - 1]);
    }
}

/// What one line means.
pub enum LineKind {
    /// Empty or comment: skipped.
    Ignored,
    /// Malformed: a field is missing or empty.
    Bad,
    /// An activation pair.
    Entry(Seq<char>, Seq<char>),
}

/// The meaning of one line of the activation map.
pub open spec fn spec_parse_line(line: Seq<char>) -> LineKind {
    let t = trim(line);
    if t.len() == 0 || t[0] == '#' {
        LineKind::Ignored
    } else {
        let i = first_ws(t);
        if i >= t.len() {
            LineKind::Bad
        } else {
            let source = t.subrange(0, i);
            let target = trim(t.skip(i));
            if source.len() == 0 || target.len() == 0 {
                LineKind::Bad
            } else {
                LineKind::Entry(source, target)
            }
        }
    }
}

/// The lines of a text, in the way `str::lines` cuts them: pieces between
/// newlines, a trailing newline ending the last line.
pub open spec fn lines_of(s: Seq<char>) -> Seq<Seq<char>>
    decreases s.len(),
{
    if s.len() == 0 {
        Seq::empty()
    } else {
        let i = first_idx(s, '\n');
        if 0 <= i < s.len() {
            seq![s.subrange(0, i)] + lines_of(s.skip(i + 1))
        } else {
            seq![s]
        }
    }
}

/// The entries of the activation map, in file order; `None` when some line
/// is malformed.
pub open spec fn spec_parse_symlist_lines(ls: Seq<Seq<char>>) -> Option<
    Seq<SpecSymlinkEntry>,
>
    decreases ls.len(),
{
    if ls.len() == 0 {
        Some(Seq::empty())
    } else {
        match spec_parse_line(ls[0]) {
            LineKind::Bad => None,
            LineKind::Ignored => spec_parse_symlist_lines(ls.skip(1)),
            LineKind::Entry(source, target) => match spec_parse_symlist_lines(ls.skip(1)) {
                Some(rest) => Some(seq![SpecSymlinkEntry { source, target }] + rest),
                None => None,
            },
        }
    }
}

pub open spec fn spec_parse_symlist(text: Seq<char>) -> Option<Seq<SpecSymlinkEntry>> {
    spec_parse_symlist_lines(lines_of(text))
}

// ---------------------------------------------------------------------------
// Executable parsing
// ---------------------------------------------------------------------------

fn is_ws_exec(c: char) -> (r: bool)
    ensures
        r == is_ws(c),
{
    c == ' ' || c == '\t' || c == '\r'
}

/// Trims leading and trailing whitespace.
fn trim_exec(v: &Vec<char>) -> (r: Vec<char>)
    ensures
        r@ == trim(v@),
{
    let mut a: usize = 0;
    proof {
        assert(v@.skip(0) =~= v@);
    }
    while a < v.len() && is_ws_exec(v[a])
        invariant
            a <= v@.len(),
            trim_start(v@) == trim_start(v@.skip(a as int)),
        decreases v.len() - a,
    {
        proof {
            assert(v@.skip(a as int)[0] == v@[a as int]);
            assert(v@.skip(a as int).skip(1) =~= v@.skip(a as int + 1));
        }
        a = a + 1;
    }
    proof {
        if a < v@.len() {
            assert(v@.skip(a as int)[0] == v@[a as int]);
        } else {
            assert(v@.skip(a as int).len() == 0);
        }
        assert(trim_start(v@) == v@.skip(a as int));
    }
    let mut b: usize = v.len();
    proof {
        assert(v@.skip(a as int).subrange(0, v@.len() - a) =~= v@.skip(a as int));
    }
    while b > a && is_ws_exec(v[b - 1])
        invariant
            a <= b <= v@.len(),
            trim_start(v@) == v@.skip(a as int),
            trim_end(v@.skip(a as int)) == trim_end(v@.skip(a as int).subrange(0, b - a)),
        decreases b,
    {
        proof {
            let cur = v@.skip(a as int).subrange(0, b - a);
            assert(cur.last() == v@[b - 1]);
            assert(cur.drop_last() =~= v@.skip(a as int).subrange(0, b - 1 - a));
        }
        b = b - 1;
    }
    proof {
        let cur = v@.skip(a as int).subrange(0, b - a);
        if b > a {
            assert(cur.last() == v@[b - 1]);
            assert(!is_ws(cur.last()));
        } else {
            assert(cur.len() == 0);
        }
        assert(trim_end(cur) == cur);
    }
    let r = chars_slice(v, a, b);
    proof {
        assert(r@ =~= v@.skip(a as int).subrange(0, b - a));
        assert(r@ == trim(v@));
    }
    r
}

/// Index of the first whitespace character.
fn first_ws_exec(v: &Vec<char>) -> (r: usize)
    ensures
        r as int == first_ws(v@),
{
    proof {
        lemma_first_ws(v@);
    }
    let mut i: usize = 0;
    while i < v.len()
        invariant
            i <= v@.len(),
            forall|j: int| 0 <= j < i ==> !is_ws(v@[j]),
        decreases v.len() - i,
    {
        if is_ws_exec(v[i]) {
            proof {
                lemma_first_ws(v@);
                if first_ws(v@) < i as int {
                    assert(is_ws(v@[first_ws(v@)]));
                    assert(false);
                }
                if first_ws(v@) > i as int {
                    assert(false);
                }
            }
            return i;
        }
        i = i + 1;
    }
    proof {
        lemma_first_ws(v@);
        if first_ws(v@) < v@.len() {
            assert(is_ws(v@[first_ws(v@)]));
            assert(false);
        }
    }
    i
}

/// Parses one line of the activation map. Skipped and malformed lines both
/// come back as parse errors, as the line itself carries no entry.
pub fn parse_symlist_line(line: &str) -> (r: Result<SymlinkEntry, SymlistError>)
    ensures
        match r {
            Ok(e) => spec_parse_line(line@) == LineKind::Entry(e.source@, e.target@),
            Err(err) => !(spec_parse_line(line@) is Entry) && err is Parse,
        },
{
    let chars = str_to_chars(line);
    let t = trim_exec(&chars);
    if t.len() == 0 || t[0] == '#' {
        return Err(SymlistError::Parse(String::from_str("empty or comment line")));
    }
    proof {
        lemma_first_ws(t@);
    }
    let i = first_ws_exec(&t);
    if i >= t.len() {
        return Err(
            SymlistError::Parse(String::from_str("expected two fields: source and target")),
        );
    }
    let source = chars_slice(&t, 0, i);
    let rest = chars_slice(&t, i, t.len());
    proof {
        assert(rest@ =~= t@.skip(i as int));
    }
    let target = trim_exec(&rest);
    if source.len() == 0 || target.len() == 0 {
        return Err(SymlistError::Parse(String::from_str("a field is empty")));
    }
    Ok(SymlinkEntry { source: chars_to_string(&source), target: chars_to_string(&target) })
}

/// Parses a whole activation map, in file order, skipping comments and
/// blank lines. A malformed map is reported with the 1-based number of its
/// first malformed line.
pub fn parse_symlist(text: &str) -> (r: Result<Vec<SymlinkEntry>, SymlistError>)
    ensures
        match r {
            Ok(es) => spec_parse_symlist(text@) == Some(
                es@.map_values(|e: SymlinkEntry| e@),
            ),
            Err(err) => spec_parse_symlist(text@) is None && (err matches SymlistError::Parse(m)
                && m@ == symlist_err_msg((first_bad_idx(lines_of(text@)) + 1) as u64)),
        },
{
    let chars = str_to_chars(text);
    proof {
        assert(chars@.skip(0) =~= chars@);
    }
    match parse_symlist_chars(&chars, 0) {
        Ok(es) => Ok(es),
        Err(_) => {
            proof {
                lemma_first_bad(lines_of(chars@));
                lemma_lines_count(chars@);
            }
            let k = match find_bad_line(&chars, 0) {
                Some(k) => k,
                None => {
                    proof {
                        assert(false);
                    }
                    0
                },
            };
            let total = chars.len();
            proof {
                assert(k as int == first_bad_idx(lines_of(chars@)));
                assert((k as int) < lines_of(chars@).len());
                assert(lines_of(chars@).len() <= chars@.len());
                assert((k as int) < total as int);
            }
            let n = (k + 1) as u64;
            let mut msg = str_to_chars("malformed activation-map line ");
            proof {
                reveal_strlit("malformed activation-map line ");
                assert(msg@ =~= symlist_err_prefix());
            }
            crate::version::push_dec(n, &mut msg);
            proof {
                assert(msg@ =~= symlist_err_msg(n));
            }
            Err(SymlistError::Parse(chars_to_string(&msg)))
        },
    }
}

/// Parses the activation-map lines from `from` on.
fn parse_symlist_chars(v: &Vec<char>, from: usize) -> (r: Result<Vec<SymlinkEntry>, SymlistError>)
    requires
        from <= v@.len(),
    ensures
        match r {
            Ok(es) => spec_parse_symlist_lines(lines_of(v@.skip(from as int))) == Some(
                es@.map_values(|e: SymlinkEntry| e@),
            ),
            Err(err) => spec_parse_symlist_lines(lines_of(v@.skip(from as int))) is None
                && err is Parse,
        },
    decreases v@.len() - from,
{
    let ghost s = v@.skip(from as int);
    proof {
        assert(s.len() == v@.len() - from);
        lemma_first_idx(s, '\n');
    }
    if from == v.len() {
        let empty: Vec<SymlinkEntry> = Vec::new();
        proof {
            assert(lines_of(s) =~= Seq::<Seq<char>>::empty());
            assert(empty@.map_values(|e: SymlinkEntry| e@) =~= Seq::<SpecSymlinkEntry>::empty());
        }
        return Ok(empty);
    }
    let mut i: usize = from;
    while i < v.len() && v[i] != '\n'
        invariant
            from <= i <= v@.len(),
            forall|j: int| from <= j < i ==> v@[j] != '\n',
        decreases v.len() - i,
    {
        i = i + 1;
    }
    proof {
        assert(forall|j: int| 0 <= j < i - from ==> s[j] != '\n');
        if i < v@.len() {
            assert(s[i - from as int] == '\n');
            if first_idx(s, '\n') < i - from {
                assert(s[first_idx(s, '\n')] == '\n');
                assert(false);
            }
            if first_idx(s, '\n') > i - from {
                assert(false);
            }
        } else {
            crate::version::lemma_first_idx_absent(s, '\n');
        }
    }
    let line_chars = chars_slice(v, from, i);
    let line = chars_to_string(&line_chars);
    let ghost glines = lines_of(s);
    proof {
        if i < v@.len() {
            assert(glines == seq![s.subrange(0, i - from as int)] + lines_of(
                s.skip(i - from as int + 1),
            ));
            assert(line@ == s.subrange(0, i - from as int));
            assert(glines[0] == line@);
            assert(glines.skip(1) =~= lines_of(s.skip(i - from as int + 1)));
            assert(v@.skip(i as int + 1) =~= s.skip(i - from as int + 1));
        } else {
            assert(glines == seq![s]);
            assert(line@ =~= s);
            assert(glines[0] == line@);
            assert(glines.skip(1) =~= Seq::<Seq<char>>::empty());
        }
    }
    let head = parse_symlist_line(line.as_str());
    let rest = if i < v.len() {
        parse_symlist_chars(v, i + 1)
    } else {
        let empty: Vec<SymlinkEntry> = Vec::new();
        proof {
            assert(spec_parse_symlist_lines(Seq::<Seq<char>>::empty()) == Some(
                Seq::<SpecSymlinkEntry>::empty(),
            ));
            assert(empty@.map_values(|e: SymlinkEntry| e@) =~= Seq::<SpecSymlinkEntry>::empty());
        }
        Ok(empty)
    };
    match (head, rest) {
        (Ok(e), Ok(mut es)) => {
            let ghost ges = es@;
            es.insert(0, e);
            proof {
                assert(es@ =~= seq![e] + ges);
                assert(es@.map_values(|x: SymlinkEntry| x@) =~= seq![e@] + ges.map_values(
                    |x: SymlinkEntry| x@,
                ));
            }
            Ok(es)
        },
        (Err(_), Ok(es)) => {
            // A skipped line contributes nothing; a malformed one fails.
            if is_ignored_line(&line) {
                Ok(es)
            } else {
                Err(SymlistError::Parse(String::from_str("malformed activation-map line")))
            }
        },
        (_, Err(err)) => {
            if is_ignored_line(&line) {
                Err(err)
            } else {
                match parse_symlist_line(line.as_str()) {
                    Ok(_) => Err(err),
                    Err(_) => Err(
                        SymlistError::Parse(String::from_str("malformed activation-map line")),
                    ),
                }
            }
        },
    }
}

/// Whether the line is skipped: empty or a comment after trimming.
fn is_ignored_line(line: &String) -> (r: bool)
    ensures
        r == (spec_parse_line(line@) is Ignored),
{
    let chars = str_to_chars(line.as_str());
    let t = trim_exec(&chars);
    t.len() == 0 || t[0] == '#'
}

} // verus!

verus! {

// ---------------------------------------------------------------------------
// The position of the first malformed line
// ---------------------------------------------------------------------------

/// Index of the first malformed line, or the line count when none is.
pub open spec fn first_bad_idx(ls: Seq<Seq<char>>) -> int
    decreases ls.len(),
{
    if ls.len() == 0 {
        0
    } else if spec_parse_line(ls[0]) is Bad {
        0
    } else {
        1 + first_bad_idx(ls.skip(1))
    }
}

/// The map fails to parse exactly when some line is malformed, and then the
/// first such line exists.
pub proof fn lemma_first_bad(ls: Seq<Seq<char>>)
    ensures
        0 <= first_bad_idx(ls) <= ls.len(),
        spec_parse_symlist_lines(ls) is None <==> first_bad_idx(ls) < ls.len(),
        first_bad_idx(ls) < ls.len() ==> spec_parse_line(ls[first_bad_idx(ls)]) is Bad,
    decreases ls.len(),
{
    if ls.len() > 0 && !(spec_parse_line(ls[0]) is Bad) {
        lemma_first_bad(ls.skip(1));
    }
}

/// A text never has more lines than characters.
pub proof fn lemma_lines_count(s: Seq<char>)
    ensures
        lines_of(s).len() <= s.len(),
    decreases s.len(),
{
    if s.len() > 0 {
        lemma_first_idx(s, '\n');
        let i = first_idx(s, '\n');
        if 0 <= i < s.len() {
            lemma_lines_count(s.skip(i + 1));
        }
    }
}

/// Whether one line is malformed: neither skipped nor an entry.
fn line_is_bad(line: &String) -> (r: bool)
    ensures
        r == (spec_parse_line(line@) is Bad),
{
    match parse_symlist_line(line.as_str()) {
        Ok(_) => false,
        Err(_) => !is_ignored_line(line),
    }
}

/// The index of the first malformed line among the lines from `from` on.
fn find_bad_line(v: &Vec<char>, from: usize) -> (r: Option<usize>)
    requires
        from <= v@.len(),
    ensures
        ({
            let ls = lines_of(v@.skip(from as int));
            match r {
                Some(k) => first_bad_idx(ls) == k as int && (k as int) < ls.len(),
                None => first_bad_idx(ls) == ls.len(),
            }
        }),
    decreases v@.len() - from,
{
    let ghost s = v@.skip(from as int);
    proof {
        assert(s.len() == v@.len() - from);
        lemma_first_idx(s, '\n');
        lemma_lines_count(s);
    }
    if from == v.len() {
        proof {
            assert(lines_of(s) =~= Seq::<Seq<char>>::empty());
        }
        return None;
    }
    let mut i: usize = from;
    while i < v.len() && v[i] != '\n'
        invariant
            from <= i <= v@.len(),
            forall|j: int| from <= j < i ==> v@[j] != '\n',
        decreases v.len() - i,
    {
        i = i + 1;
    }
    proof {
        assert(forall|j: int| 0 <= j < i - from ==> s[j] != '\n');
        if i < v@.len() {
            assert(s[i - from as int] == '\n');
            if first_idx(s, '\n') < i - from {
                assert(s[first_idx(s, '\n')] == '\n');
                assert(false);
            }
            if first_idx(s, '\n') > i - from {
                assert(false);
            }
        } else {
            crate::version::lemma_first_idx_absent(s, '\n');
        }
    }
    let line_chars = chars_slice(v, from, i);
    let line = chars_to_string(&line_chars);
    let ghost glines = lines_of(s);
    proof {
        if i < v@.len() {
            assert(glines == seq![s.subrange(0, i - from as int)] + lines_of(
                s.skip(i - from as int + 1),
            ));
            assert(glines[0] == line@);
            assert(glines.skip(1) =~= lines_of(s.skip(i - from as int + 1)));
            assert(v@.skip(i as int + 1) =~= s.skip(i - from as int + 1));
        } else {
            assert(glines == seq![s]);
            assert(line@ =~= s);
            assert(glines[0] == line@);
            assert(glines.skip(1) =~= Seq::<Seq<char>>::empty());
        }
    }
    if line_is_bad(&line) {
        return Some(0);
    }
    if i == v.len() {
        proof {
            assert(first_bad_idx(glines) == 1 + first_bad_idx(glines.skip(1)));
            assert(first_bad_idx(Seq::<Seq<char>>::empty()) == 0);
        }
        return None;
    }
    proof {
        lemma_lines_count(v@.skip(i as int + 1));
    }
    match find_bad_line(v, i + 1) {
        Some(k) => {
            proof {
                assert(lines_of(v@.skip(i as int + 1)).len() <= v@.len() - i - 1);
            }
            Some(k + 1)
        },
        None => None,
    }
}

/// The text of the error naming a malformed line.
pub open spec fn symlist_err_prefix() -> Seq<char> {
    seq![
        'm', 'a', 'l', 'f', 'o', 'r', 'm', 'e', 'd', ' ', 'a', 'c', 't', 'i', 'v', 'a', 't',
        'i', 'o', 'n', '-', 'm', 'a', 'p', ' ', 'l', 'i', 'n', 'e', ' ',
    ]
}

/// The error message for the malformed line numbered `n`, 1-based.
pub open spec fn symlist_err_msg(n: u64) -> Seq<char> {
    symlist_err_prefix() + crate::version::dec_of(n)
}

} // verus!
