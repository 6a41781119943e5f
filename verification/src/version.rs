//! Semantic versions: `MAJOR.MINOR.PATCH` with optional pre-release and
//! build metadata, ordered by semantic-versioning precedence rules.

use vstd::prelude::*;

verus! {

/// One dot-separated pre-release identifier: purely numeric identifiers
/// compare numerically, the rest compare lexically.
#[derive(Debug)]
pub enum PreIdent {
    Num(u64),
    Alpha(Vec<char>),
}

/// Mathematical value of a pre-release identifier.
pub enum SpecPreIdent {
    Num(u64),
    Alpha(Seq<char>),
}

impl View for PreIdent {
    type V = SpecPreIdent;

    open spec fn view(&self) -> SpecPreIdent {
        match self {
            PreIdent::Num(n) => SpecPreIdent::Num(*n),
            PreIdent::Alpha(s) => SpecPreIdent::Alpha(s@),
        }
    }
}

/// A semantic version. `build` holds the raw text after `+`, which takes no
/// part in precedence.
#[derive(Debug)]
pub struct Version {
    pub major: u64,
    pub minor: u64,
    pub patch: u64,
    pub pre: Vec<PreIdent>,
    pub build: Vec<char>,
}

/// Mathematical value of a version.
pub struct SpecVersion {
    pub major: u64,
    pub minor: u64,
    pub patch: u64,
    pub pre: Seq<SpecPreIdent>,
    pub build: Seq<char>,
}

impl View for Version {
    type V = SpecVersion;

    open spec fn view(&self) -> SpecVersion {
        SpecVersion {
            major: self.major,
            minor: self.minor,
            patch: self.patch,
            pre: self.pre@.map_values(|p: PreIdent| p@),
            build: self.build@,
        }
    }
}

impl Clone for PreIdent {
    fn clone(&self) -> (r: Self)
        ensures
            r@ == self@,
    {
        match self {
            PreIdent::Num(n) => PreIdent::Num(*n),
            PreIdent::Alpha(s) => {
                let c = s.clone();
                proof {
                    assert(c@ =~= s@);
                }
                PreIdent::Alpha(c)
            },
        }
    }
}

impl Clone for Version {
    fn clone(&self) -> (r: Self)
        ensures
            r@ == self@,
    {
        let pre = self.pre.clone();
        let build = self.build.clone();
        proof {
            assert(build@ =~= self.build@);
            assert(forall|i: int| 0 <= i < self.pre@.len() ==> pre@[i]@ == self.pre@[i]@);
            assert(pre@.map_values(|p: PreIdent| p@) =~= self.pre@.map_values(|p: PreIdent| p@));
        }
        Version { major: self.major, minor: self.minor, patch: self.patch, pre, build }
    }
}

// ---------------------------------------------------------------------------
// Character classes of the version grammar
// ---------------------------------------------------------------------------

pub open spec fn is_digit(c: char) -> bool {
    '0' <= c && c <= '9'
}

pub open spec fn digit_val(c: char) -> nat {
    ((c as int) - ('0' as int)) as nat
}

pub open spec fn is_ident_char(c: char) -> bool {
    is_digit(c) || ('a' <= c && c <= 'z') || ('A' <= c && c <= 'Z') || c == '-'
}

pub open spec fn all_digits(s: Seq<char>) -> bool {
    forall|i: int| 0 <= i < s.len() ==> is_digit(s[i])
}

pub open spec fn all_ident_chars(s: Seq<char>) -> bool {
    forall|i: int| 0 <= i < s.len() ==> is_ident_char(s[i])
}

// ---------------------------------------------------------------------------
// Decimal numerals
// ---------------------------------------------------------------------------

/// Value of a digit string, most significant digit first.
pub open spec fn dec_val(s: Seq<char>) -> nat
    decreases s.len(),
{
    if s.len() == 0 {
        0
    } else {
        dec_val(s.drop_last()) * 10 + digit_val(s.last())
    }
}

/// The canonical decimal numeral of `n`: nonempty digits, no leading zero.
pub open spec fn dec_of(n: u64) -> Seq<char>
    decreases n,
{
    let d = digit_char_of((n % 10) as nat);
    if n < 10 {
        seq![d]
    } else {
        dec_of(n / 10).push(d)
    }
}

pub open spec fn digit_char_of(d: nat) -> char {
    if d == 0 { '0' }
    else if d == 1 { '1' }
    else if d == 2 { '2' }
    else if d == 3 { '3' }
    else if d == 4 { '4' }
    else if d == 5 { '5' }
    else if d == 6 { '6' }
    else if d == 7 { '7' }
    else if d == 8 { '8' }
    else if d == 9 { '9' }
    else { '0' }
}

/// A digit string that is the canonical numeral of its value.
pub open spec fn is_canon_num(s: Seq<char>) -> bool {
    s.len() > 0 && all_digits(s) && (s.len() == 1 || s[0] != '0')
}

proof fn lemma_digit_char_val(d: nat)
    requires
        d < 10,
    ensures
        is_digit(digit_char_of(d)),
        digit_val(digit_char_of(d)) == d,
{
}

/// The canonical numeral of `n` evaluates back to `n`, consists of digits,
/// and carries no leading zero.
pub proof fn lemma_dec_of_val(n: u64)
    ensures
        dec_val(dec_of(n)) == n,
        is_canon_num(dec_of(n)),
    decreases n,
{
    lemma_digit_char_val((n % 10) as nat);
    if n < 10 {
        let s = dec_of(n);
        assert(s =~= seq![digit_char_of((n % 10) as nat)]);
        assert(s.drop_last() =~= Seq::<char>::empty());
        assert(dec_val(Seq::<char>::empty()) == 0);
        assert(dec_val(s) == 0 * 10 + digit_val(s.last()));
        assert(n % 10 == n);
        assert(is_digit(s[0]));
        assert(all_digits(s));
    } else {
        lemma_dec_of_val(n / 10);
        let s = dec_of(n);
        assert(s == dec_of(n / 10).push(digit_char_of((n % 10) as nat)));
        assert(s.drop_last() =~= dec_of(n / 10));
        assert(s.last() == digit_char_of((n % 10) as nat));
        assert(dec_val(s) == dec_val(dec_of(n / 10)) * 10 + (n % 10) as nat);
        assert(dec_val(s) == (n / 10) * 10 + n % 10);
        assert((n / 10) * 10 + n % 10 == n) by (nonlinear_arith);
        assert(forall|i: int|
            0 <= i < s.len() ==> s[i] == if i < s.len() - 1 {
                dec_of(n / 10)[i]
            } else {
                digit_char_of((n % 10) as nat)
            });
        assert(all_digits(s));
        assert(s[0] == dec_of(n / 10)[0]);
        if n / 10 < 10 {
            assert(dec_of(n / 10) =~= seq![digit_char_of(((n / 10) % 10) as nat)]);
            assert(n / 10 >= 1);
            assert((n / 10) % 10 == n / 10);
            lemma_digit_char_val((n / 10) as nat);
            assert(s[0] != '0');
        } else {
            let t = dec_of(n / 10);
            if t.len() == 1 {
                assert(t.drop_last() =~= Seq::<char>::empty());
                assert(dec_val(t.drop_last()) == 0);
                assert(dec_val(t) == dec_val(t.drop_last()) * 10 + digit_val(t.last()));
                assert(is_digit(t[0]));
                assert(digit_val(t[0]) <= 9);
                assert(false);
            }
            assert(s[0] != '0');
        }
        assert(s.len() > 1);
    }
}

/// Prefix values only grow: the value of a longer prefix of a digit string
/// is at least the value of a shorter one.
proof fn lemma_dec_val_prefix_mono(s: Seq<char>, i: int, j: int)
    requires
        0 <= i <= j <= s.len(),
    ensures
        dec_val(s.subrange(0, i)) <= dec_val(s.subrange(0, j)),
    decreases j - i,
{
    if i < j {
        lemma_dec_val_prefix_mono(s, i, j - 1);
        let a = s.subrange(0, j - 1);
        let b = s.subrange(0, j);
        assert(b.drop_last() =~= a);
        assert(dec_val(b) == dec_val(a) * 10 + digit_val(b.last()));
    }
}

// ---------------------------------------------------------------------------
// Splitting on separators
// ---------------------------------------------------------------------------

/// Index of the first occurrence of `c` in `s`, or `s.len()` if absent.
pub open spec fn first_idx(s: Seq<char>, c: char) -> int
    decreases s.len(),
{
    if s.len() == 0 {
        0
    } else if s[0] == c {
        0
    } else {
        1 + first_idx(s.skip(1), c)
    }
}

pub proof fn lemma_first_idx(s: Seq<char>, c: char)
    ensures
        0 <= first_idx(s, c) <= s.len(),
        first_idx(s, c) < s.len() ==> s[first_idx(s, c)] == c,
        forall|j: int| 0 <= j < first_idx(s, c) ==> s[j] != c,
    decreases s.len(),
{
    if s.len() > 0 && s[0] != c {
        lemma_first_idx(s.skip(1), c);
        assert(forall|j: int| 1 <= j < s.len() ==> s[j] == s.skip(1)[j - 1]);
    }
}

/// Where `c` does not occur in `a`, the first occurrence in `a + [c] + b`
/// is exactly at `a.len()`.
pub proof fn lemma_first_idx_concat(a: Seq<char>, b: Seq<char>, c: char)
    requires
        forall|j: int| 0 <= j < a.len() ==> a[j] != c,
    ensures
        first_idx(a + seq![c] + b, c) == a.len(),
    decreases a.len(),
{
    let s = a + seq![c] + b;
    if a.len() == 0 {
        assert(s[0] == c);
    } else {
        assert(s[0] == a[0]);
        lemma_first_idx_concat(a.skip(1), b, c);
        assert(s.skip(1) =~= a.skip(1) + seq![c] + b);
    }
}

/// Where `c` does not occur in `s` at all, the first occurrence is `s.len()`.
pub proof fn lemma_first_idx_absent(s: Seq<char>, c: char)
    requires
        forall|j: int| 0 <= j < s.len() ==> s[j] != c,
    ensures
        first_idx(s, c) == s.len(),
    decreases s.len(),
{
    if s.len() > 0 {
        lemma_first_idx_absent(s.skip(1), c);
    }
}

/// The dot-separated components of `s`, in order. A string without dots is
/// one component; each dot ends a component.
pub open spec fn split_dots(s: Seq<char>) -> Seq<Seq<char>>
    decreases s.len(),
{
    let i = first_idx(s, '.');
    if 0 <= i < s.len() {
        seq![s.subrange(0, i)] + split_dots(s.skip(i + 1))
    } else {
        seq![s]
    }
}

/// Splitting a string that starts with the dot-free component `a` peels `a`
/// off the front.
pub proof fn lemma_split_dots_step(a: Seq<char>, b: Seq<char>)
    requires
        forall|j: int| 0 <= j < a.len() ==> a[j] != '.',
    ensures
        split_dots(a + seq!['.'] + b) == seq![a] + split_dots(b),
{
    let s = a + seq!['.'] + b;
    lemma_first_idx_concat(a, b, '.');
    assert(first_idx(s, '.') == a.len());
    assert(a.len() < s.len());
    assert(s.subrange(0, a.len() as int) =~= a);
    assert(s.skip(a.len() as int + 1) =~= b);
}

/// A string without dots splits into just itself.
pub proof fn lemma_split_dots_single(s: Seq<char>)
    requires
        forall|j: int| 0 <= j < s.len() ==> s[j] != '.',
    ensures
        split_dots(s) == seq![s],
{
    lemma_first_idx_absent(s, '.');
}

// ---------------------------------------------------------------------------
// The version grammar
// ---------------------------------------------------------------------------

/// A well-formed numeral component: nonempty digits, no leading zero, and a
/// value that fits in a `u64`.
pub open spec fn parse_num(s: Seq<char>) -> Option<u64> {
    if s.len() > 0 && all_digits(s) && (s.len() == 1 || s[0] != '0') && dec_val(s) <= u64::MAX {
        Some(dec_val(s) as u64)
    } else {
        None
    }
}

/// One pre-release identifier: purely numeric (canonical, in range) or
/// alphanumeric-and-hyphen with at least one non-digit.
pub open spec fn parse_pre_ident(s: Seq<char>) -> Option<SpecPreIdent> {
    if s.len() == 0 {
        None
    } else if all_digits(s) {
        if (s.len() == 1 || s[0] != '0') && dec_val(s) <= u64::MAX {
            Some(SpecPreIdent::Num(dec_val(s) as u64))
        } else {
            None
        }
    } else if all_ident_chars(s) {
        Some(SpecPreIdent::Alpha(s))
    } else {
        None
    }
}

pub open spec fn parse_pre_list(parts: Seq<Seq<char>>) -> Option<Seq<SpecPreIdent>>
    decreases parts.len(),
{
    if parts.len() == 0 {
        Some(Seq::empty())
    } else {
        match parse_pre_ident(parts[0]) {
            Some(id) => match parse_pre_list(parts.skip(1)) {
                Some(rest) => Some(seq![id] + rest),
                None => None,
            },
            None => None,
        }
    }
}

pub open spec fn spec_parse_pre(s: Seq<char>) -> Option<Seq<SpecPreIdent>> {
    parse_pre_list(split_dots(s))
}

/// Build metadata: nonempty dot-separated components of identifier
/// characters, stated character-wise.
pub open spec fn is_valid_build(s: Seq<char>) -> bool {
    &&& s.len() > 0
    &&& s[0] != '.'
    &&& s[s.len() - 1] != '.'
    &&& forall|i: int| 0 <= i < s.len() ==> (is_ident_char(s[i]) || s[i] == '.')
    &&& forall|i: int| 0 <= i < s.len() - 1 ==> !(#[trigger] s[i] == '.' && s[i + 1] == '.')
}

pub open spec fn spec_parse_core(s: Seq<char>) -> Option<(u64, u64, u64)> {
    let parts = split_dots(s);
    if parts.len() == 3 {
        match (parse_num(parts[0]), parse_num(parts[1]), parse_num(parts[2])) {
            (Some(ma), Some(mi), Some(pa)) => Some((ma, mi, pa)),
            _ => None,
        }
    } else {
        None
    }
}

/// The whole grammar: `CORE[-PRE][+BUILD]`. The build part starts at the
/// first `+`; the pre-release part starts at the first `-` before it.
pub open spec fn spec_parse_version(s: Seq<char>) -> Option<SpecVersion> {
    let p = first_idx(s, '+');
    let main = s.subrange(0, p);
    let build = if p < s.len() { s.skip(p + 1) } else { Seq::<char>::empty() };
    let d = first_idx(main, '-');
    let core = main.subrange(0, d);
    let pre_txt = if d < main.len() { main.skip(d + 1) } else { Seq::<char>::empty() };
    if p < s.len() && !is_valid_build(build) {
        None
    } else {
        match spec_parse_core(core) {
            None => None,
            Some((ma, mi, pa)) => {
                if d < main.len() {
                    match spec_parse_pre(pre_txt) {
                        None => None,
                        Some(ids) => Some(
                            SpecVersion { major: ma, minor: mi, patch: pa, pre: ids, build },
                        ),
                    }
                } else {
                    Some(SpecVersion { major: ma, minor: mi, patch: pa, pre: Seq::empty(), build })
                }
            },
        }
    }
}

// ---------------------------------------------------------------------------
// Rendering
// ---------------------------------------------------------------------------

pub open spec fn wf_pre_ident(p: SpecPreIdent) -> bool {
    match p {
        SpecPreIdent::Num(_) => true,
        SpecPreIdent::Alpha(s) => s.len() > 0 && all_ident_chars(s) && !all_digits(s),
    }
}

/// A version the grammar can express: well-formed pre-release identifiers and
/// well-formed build text (when present).
pub open spec fn wf_version(v: SpecVersion) -> bool {
    &&& forall|i: int| 0 <= i < v.pre.len() ==> wf_pre_ident(#[trigger] v.pre[i])
    &&& (v.build.len() == 0 || is_valid_build(v.build))
}

pub open spec fn render_pre_ident(p: SpecPreIdent) -> Seq<char> {
    match p {
        SpecPreIdent::Num(n) => dec_of(n),
        SpecPreIdent::Alpha(s) => s,
    }
}

pub open spec fn render_pre(ids: Seq<SpecPreIdent>) -> Seq<char>
    decreases ids.len(),
{
    if ids.len() == 0 {
        Seq::empty()
    } else if ids.len() == 1 {
        render_pre_ident(ids[0])
    } else {
        render_pre_ident(ids[0]) + seq!['.'] + render_pre(ids.skip(1))
    }
}

proof fn lemma_render_pre_ident_ok(p: SpecPreIdent)
    requires
        wf_pre_ident(p),
    ensures
        parse_pre_ident(render_pre_ident(p)) == Some(p),
        forall|j: int|
            0 <= j < render_pre_ident(p).len() ==> is_ident_char(#[trigger] render_pre_ident(p)[j]),
{
    match p {
        SpecPreIdent::Num(n) => {
            lemma_dec_of_val(n);
            assert(dec_val(dec_of(n)) == n);
        },
        SpecPreIdent::Alpha(_) => {},
    }
}

/// Rendering well-formed pre-release identifiers and parsing the text back
/// returns the same identifiers.
pub proof fn lemma_parse_render_pre(ids: Seq<SpecPreIdent>)
    requires
        ids.len() > 0,
        forall|i: int| 0 <= i < ids.len() ==> wf_pre_ident(#[trigger] ids[i]),
    ensures
        spec_parse_pre(render_pre(ids)) == Some(ids),
        forall|j: int|
            0 <= j < render_pre(ids).len() ==> (is_ident_char(#[trigger] render_pre(ids)[j])
                || render_pre(ids)[j] == '.'),
    decreases ids.len(),
{
    let x = render_pre_ident(ids[0]);
    lemma_render_pre_ident_ok(ids[0]);
    assert(forall|j: int| 0 <= j < x.len() ==> x[j] != '.');
    if ids.len() == 1 {
        lemma_split_dots_single(x);
        let parts = split_dots(x);
        assert(parts == seq![x]);
        assert(parts[0] == x);
        assert(parts.skip(1) =~= Seq::<Seq<char>>::empty());
        assert(parse_pre_list(parts.skip(1)) == Some(Seq::<SpecPreIdent>::empty()));
        assert(seq![ids[0]] + Seq::<SpecPreIdent>::empty() =~= ids);
    } else {
        let rest = render_pre(ids.skip(1));
        assert(forall|i: int| 0 <= i < ids.skip(1).len() ==> wf_pre_ident(#[trigger] ids.skip(1)[i]));
        lemma_parse_render_pre(ids.skip(1));
        let s = render_pre(ids);
        assert(s == x + seq!['.'] + rest);
        lemma_split_dots_step(x, rest);
        let parts = split_dots(s);
        assert(parts == seq![x] + split_dots(rest));
        assert(parts.len() >= 1);
        assert(parts[0] == x);
        assert(parts.skip(1) =~= split_dots(rest));
        assert(parse_pre_list(split_dots(rest)) == Some(ids.skip(1)));
        assert(parse_pre_list(parts) == Some(seq![ids[0]] + ids.skip(1)));
        assert(seq![ids[0]] + ids.skip(1) =~= ids);
        assert(forall|j: int|
            0 <= j < s.len() ==> (is_ident_char(#[trigger] s[j]) || s[j] == '.')) by {
            assert(forall|j: int|
                0 <= j < s.len() ==> s[j] == if j < x.len() {
                    x[j]
                } else if j == x.len() {
                    '.'
                } else {
                    rest[j - x.len() - 1]
                });
        }
    }
}

/// The canonical text of a version.
pub open spec fn spec_render_version(v: SpecVersion) -> Seq<char> {
    dec_of(v.major) + seq!['.'] + dec_of(v.minor) + seq!['.'] + dec_of(v.patch) + (if v.pre.len()
        > 0 {
        seq!['-'] + render_pre(v.pre)
    } else {
        Seq::<char>::empty()
    }) + (if v.build.len() > 0 {
        seq!['+'] + v.build
    } else {
        Seq::<char>::empty()
    })
}

pub proof fn lemma_core_parses(ma: u64, mi: u64, pa: u64)
    ensures
        spec_parse_core(dec_of(ma) + seq!['.'] + dec_of(mi) + seq!['.'] + dec_of(pa)) == Some(
            (ma, mi, pa),
        ),
        forall|j: int|
            0 <= j < (dec_of(ma) + seq!['.'] + dec_of(mi) + seq!['.'] + dec_of(pa)).len()
                ==> (is_digit(#[trigger] (dec_of(ma) + seq!['.'] + dec_of(mi) + seq!['.'] + dec_of(
                pa))[j]) || (dec_of(ma) + seq!['.'] + dec_of(mi) + seq!['.'] + dec_of(pa))[j]
                == '.'),
{
    lemma_dec_of_val(ma);
    lemma_dec_of_val(mi);
    lemma_dec_of_val(pa);
    let a = dec_of(ma);
    let b = dec_of(mi);
    let c = dec_of(pa);
    let s = a + seq!['.'] + b + seq!['.'] + c;
    let tail = b + seq!['.'] + c;
    assert(s =~= a + seq!['.'] + tail);
    lemma_split_dots_step(a, tail);
    lemma_split_dots_step(b, c);
    lemma_split_dots_single(c);
    let parts = split_dots(s);
    assert(parts == seq![a] + (seq![b] + seq![c]));
    assert(parts =~= seq![a, b, c]);
    assert(parts.len() == 3);
    assert(parse_num(a) == Some(ma));
    assert(parse_num(b) == Some(mi));
    assert(parse_num(c) == Some(pa));
    assert(forall|j: int|
        0 <= j < s.len() ==> s[j] == if j < a.len() {
            a[j]
        } else if j == a.len() {
            '.'
        } else if j < a.len() + 1 + b.len() {
            b[j - a.len() - 1]
        } else if j == a.len() + 1 + b.len() {
            '.'
        } else {
            c[j - a.len() - b.len() - 2]
        });
}

/// Rendering a well-formed version and parsing the text back returns the
/// same version: the codec round-trips.
pub proof fn lemma_version_roundtrip(v: SpecVersion)
    requires
        wf_version(v),
    ensures
        spec_parse_version(spec_render_version(v)) == Some(v),
{
    lemma_core_parses(v.major, v.minor, v.patch);
    let core = dec_of(v.major) + seq!['.'] + dec_of(v.minor) + seq!['.'] + dec_of(v.patch);
    let main = if v.pre.len() > 0 {
        core + seq!['-'] + render_pre(v.pre)
    } else {
        core
    };
    let s = spec_render_version(v);
    if v.pre.len() > 0 {
        lemma_parse_render_pre(v.pre);
    }
    // No '+' occurs before the build separator.
    assert(forall|j: int| 0 <= j < core.len() ==> core[j] != '+' && core[j] != '-');
    assert(forall|j: int| 0 <= j < main.len() ==> main[j] != '+');
    if v.build.len() > 0 {
        assert(s =~= main + seq!['+'] + v.build);
        lemma_first_idx_concat(main, v.build, '+');
        assert(first_idx(s, '+') == main.len());
        assert(s.subrange(0, main.len() as int) =~= main);
        assert(s.skip(main.len() as int + 1) =~= v.build);
    } else {
        assert(s =~= main);
        lemma_first_idx_absent(s, '+');
        assert(s.subrange(0, s.len() as int) =~= main);
    }
    let p = first_idx(s, '+');
    assert(s.subrange(0, p) =~= main);
    // The first '-' inside `main` separates the core from the pre-release.
    if v.pre.len() > 0 {
        assert(main =~= core + seq!['-'] + render_pre(v.pre));
        lemma_first_idx_concat(core, render_pre(v.pre), '-');
        assert(first_idx(main, '-') == core.len());
        assert(main.subrange(0, core.len() as int) =~= core);
        assert(main.skip(core.len() as int + 1) =~= render_pre(v.pre));
        assert(spec_parse_pre(render_pre(v.pre)) == Some(v.pre));
    } else {
        lemma_first_idx_absent(main, '-');
        assert(main.subrange(0, main.len() as int) =~= core);
    }
    match spec_parse_version(s) {
        Some(w) => {
            assert(w.major == v.major && w.minor == v.minor && w.patch == v.patch);
            assert(w.pre =~= v.pre);
            assert(w.build =~= v.build);
            assert(w == v);
        },
        None => {
            assert(false);
        },
    }
}

// ---------------------------------------------------------------------------
// Precedence
// ---------------------------------------------------------------------------

/// Lexical order on identifier text, by unicode scalar value.
pub open spec fn chars_lt(s: Seq<char>, t: Seq<char>) -> bool
    decreases s.len(),
{
    if t.len() == 0 {
        false
    } else if s.len() == 0 {
        true
    } else if s[0] == t[0] {
        chars_lt(s.skip(1), t.skip(1))
    } else {
        s[0] < t[0]
    }
}

/// Order between two pre-release identifiers: numeric identifiers compare
/// numerically and rank below alphanumeric ones.
pub open spec fn ident_lt(x: SpecPreIdent, y: SpecPreIdent) -> bool {
    match (x, y) {
        (SpecPreIdent::Num(n), SpecPreIdent::Num(m)) => n < m,
        (SpecPreIdent::Num(_), SpecPreIdent::Alpha(_)) => true,
        (SpecPreIdent::Alpha(_), SpecPreIdent::Num(_)) => false,
        (SpecPreIdent::Alpha(s), SpecPreIdent::Alpha(t)) => chars_lt(s, t),
    }
}

/// Order between pre-release identifier lists: identifier by identifier, a
/// strict prefix ranking below the longer list.
pub open spec fn pre_lt(a: Seq<SpecPreIdent>, b: Seq<SpecPreIdent>) -> bool
    decreases a.len(),
{
    if b.len() == 0 {
        false
    } else if a.len() == 0 {
        true
    } else if a[0] == b[0] {
        pre_lt(a.skip(1), b.skip(1))
    } else {
        ident_lt(a[0], b[0])
    }
}

/// Semantic-version precedence: the numeric triple, then absence of a
/// pre-release outranking presence, then the pre-release lists. Build
/// metadata takes no part.
pub open spec fn vlt(a: SpecVersion, b: SpecVersion) -> bool {
    if a.major != b.major {
        a.major < b.major
    } else if a.minor != b.minor {
        a.minor < b.minor
    } else if a.patch != b.patch {
        a.patch < b.patch
    } else if a.pre.len() > 0 && b.pre.len() == 0 {
        true
    } else if a.pre.len() == 0 {
        false
    } else {
        pre_lt(a.pre, b.pre)
    }
}

// ---------------------------------------------------------------------------
// Executable parsing
// ---------------------------------------------------------------------------

proof fn lemma_split_dots_len(s: Seq<char>)
    ensures
        split_dots(s).len() >= 1,
{
}

/// Index of the first occurrence of `c`, or the length if absent.
pub fn find_first(v: &Vec<char>, c: char) -> (r: usize)
    ensures
        r as int == first_idx(v@, c),
{
    let mut i: usize = 0;
    while i < v.len()
        invariant
            i <= v.len(),
            forall|j: int| 0 <= j < i ==> v@[j] != c,
        decreases v.len() - i,
    {
        if v[i] == c {
            proof {
                lemma_first_idx(v@, c);
                if first_idx(v@, c) < i as int {
                    assert(v@[first_idx(v@, c)] == c);
                    assert(false);
                }
                if first_idx(v@, c) > i as int {
                    assert(v@[i as int] != c);
                    assert(false);
                }
            }
            return i;
        }
        i = i + 1;
    }
    proof {
        lemma_first_idx_absent(v@, c);
    }
    i
}

fn is_ident_char_exec(c: char) -> (r: bool)
    ensures
        r == is_ident_char(c),
{
    (c >= '0' && c <= '9') || (c >= 'a' && c <= 'z') || (c >= 'A' && c <= 'Z') || c == '-'
}

/// Whether `v` is well-formed build metadata text.
fn check_build(v: &Vec<char>) -> (r: bool)
    ensures
        r == is_valid_build(v@),
{
    if v.len() == 0 {
        return false;
    }
    if v[0] == '.' || v[v.len() - 1] == '.' {
        return false;
    }
    let mut i: usize = 0;
    while i < v.len()
        invariant
            i <= v.len(),
            v@.len() > 0,
            v@[0] != '.',
            v@[v@.len() - 1] != '.',
            forall|j: int| 0 <= j < i ==> (is_ident_char(v@[j]) || v@[j] == '.'),
            forall|j: int| 0 <= j < i - 1 ==> !(#[trigger] v@[j] == '.' && v@[j + 1] == '.'),
        decreases v.len() - i,
    {
        if !is_ident_char_exec(v[i]) && v[i] != '.' {
            return false;
        }
        if i > 0 && v[i] == '.' && v[i - 1] == '.' {
            return false;
        }
        i = i + 1;
    }
    true
}

/// A canonical decimal numeral, as a `u64`.
fn parse_num_exec(v: &Vec<char>) -> (r: Option<u64>)
    ensures
        r == parse_num(v@),
{
    if v.len() == 0 {
        return None;
    }
    let mut i: usize = 0;
    while i < v.len()
        invariant
            i <= v.len(),
            forall|j: int| 0 <= j < i ==> is_digit(v@[j]),
        decreases v.len() - i,
    {
        if v[i] < '0' || v[i] > '9' {
            return None;
        }
        i = i + 1;
    }
    if v.len() > 1 && v[0] == '0' {
        return None;
    }
    let mut acc: u64 = 0;
    let mut k: usize = 0;
    proof {
        assert(v@.subrange(0, 0) =~= Seq::<char>::empty());
    }
    while k < v.len()
        invariant
            k <= v.len(),
            all_digits(v@),
            acc as nat == dec_val(v@.subrange(0, k as int)),
        decreases v.len() - k,
    {
        let c = v[k];
        let d = (c as u32 - '0' as u32) as u64;
        proof {
            assert(is_digit(c));
            assert(d as nat == digit_val(c));
            assert(v@.subrange(0, k as int + 1).drop_last() =~= v@.subrange(0, k as int));
            assert(v@.subrange(0, k as int + 1).last() == v@[k as int]);
        }
        let step = match acc.checked_mul(10) {
            Some(m) => m.checked_add(d),
            None => None,
        };
        match step {
            Some(next) => {
                acc = next;
            },
            None => {
                proof {
                    assert(dec_val(v@.subrange(0, k as int + 1)) > u64::MAX);
                    lemma_dec_val_prefix_mono(v@, k as int + 1, v@.len() as int);
                    assert(v@.subrange(0, v@.len() as int) =~= v@);
                    assert(dec_val(v@) > u64::MAX);
                }
                return None;
            },
        }
        k = k + 1;
    }
    proof {
        assert(v@.subrange(0, v@.len() as int) =~= v@);
    }
    Some(acc)
}

/// One pre-release identifier.
fn parse_pre_ident_exec(v: Vec<char>) -> (r: Option<PreIdent>)
    ensures
        match r {
            Some(id) => parse_pre_ident(v@) == Some(id@),
            None => parse_pre_ident(v@) is None,
        },
{
    if v.len() == 0 {
        return None;
    }
    let mut all_dig = true;
    let mut all_id = true;
    let mut i: usize = 0;
    while i < v.len()
        invariant
            i <= v.len(),
            all_dig == (forall|j: int| 0 <= j < i ==> is_digit(v@[j])),
            all_id == (forall|j: int| 0 <= j < i ==> is_ident_char(v@[j])),
        decreases v.len() - i,
    {
        let c = v[i];
        if c < '0' || c > '9' {
            all_dig = false;
        }
        if !is_ident_char_exec(c) {
            all_id = false;
        }
        i = i + 1;
    }
    if all_dig {
        match parse_num_exec(&v) {
            Some(n) => Some(PreIdent::Num(n)),
            None => None,
        }
    } else if all_id {
        Some(PreIdent::Alpha(v))
    } else {
        None
    }
}

/// The ghost identifier list of a parsed vector.
pub open spec fn pre_views(ids: Seq<PreIdent>) -> Seq<SpecPreIdent> {
    ids.map_values(|p: PreIdent| p@)
}

/// A dot-separated pre-release identifier list.
fn parse_pre_exec(v: &Vec<char>) -> (r: Option<Vec<PreIdent>>)
    ensures
        match r {
            Some(ids) => spec_parse_pre(v@) == Some(pre_views(ids@)),
            None => spec_parse_pre(v@) is None,
        },
    decreases v@.len(),
{
    let i = find_first(v, '.');
    proof {
        lemma_first_idx(v@, '.');
    }
    if i == v.len() {
        let whole = crate::strutil::chars_slice(v, 0, v.len());
        proof {
            assert(whole@ =~= v@);
        }
        match parse_pre_ident_exec(whole) {
            Some(id) => {
                let mut ids: Vec<PreIdent> = Vec::new();
                ids.push(id);
                proof {
                    let parts = seq![v@];
                    assert(split_dots(v@) == parts);
                    assert(parts.skip(1) =~= Seq::<Seq<char>>::empty());
                    assert(parse_pre_list(Seq::<Seq<char>>::empty()) == Some(
                        Seq::<SpecPreIdent>::empty(),
                    ));
                    assert(parse_pre_ident(parts[0]) == Some(id@));
                    assert(parse_pre_list(parts) == Some(
                        seq![id@] + Seq::<SpecPreIdent>::empty(),
                    ));
                    assert(pre_views(ids@) =~= seq![id@] + Seq::<SpecPreIdent>::empty());
                    assert(spec_parse_pre(v@) == Some(pre_views(ids@)));
                }
                Some(ids)
            },
            None => {
                proof {
                    assert(split_dots(v@) == seq![v@]);
                }
                None
            },
        }
    } else {
        let head = crate::strutil::chars_slice(v, 0, i);
        let tail = crate::strutil::chars_slice(v, i + 1, v.len());
        proof {
            assert(split_dots(v@) == seq![v@.subrange(0, i as int)] + split_dots(
                v@.skip(i as int + 1)));
            assert(head@ == v@.subrange(0, i as int));
            assert(tail@ =~= v@.skip(i as int + 1));
            assert((seq![v@.subrange(0, i as int)] + split_dots(v@.skip(i as int + 1)))[0]
                == head@);
            assert((seq![v@.subrange(0, i as int)] + split_dots(v@.skip(i as int + 1))).skip(1)
                =~= split_dots(tail@));
        }
        match parse_pre_ident_exec(head) {
            None => None,
            Some(id) => {
                match parse_pre_exec(&tail) {
                    None => None,
                    Some(mut rest) => {
                        let ghost grest = rest@;
                        rest.insert(0, id);
                        proof {
                            assert(rest@ =~= seq![id] + grest);
                            assert(pre_views(rest@) =~= seq![id@] + pre_views(grest));
                            let parts = seq![v@.subrange(0, i as int)] + split_dots(
                                v@.skip(i as int + 1),
                            );
                            assert(split_dots(v@) == parts);
                            assert(parse_pre_ident(parts[0]) == Some(id@));
                            assert(parse_pre_list(parts.skip(1)) == Some(pre_views(grest)));
                            assert(parse_pre_list(parts) == Some(seq![id@] + pre_views(grest)));
                            assert(spec_parse_pre(v@) == Some(pre_views(rest@)));
                        }
                        Some(rest)
                    },
                }
            },
        }
    }
}

/// The `MAJOR.MINOR.PATCH` triple.
fn parse_core_exec(v: &Vec<char>) -> (r: Option<(u64, u64, u64)>)
    ensures
        r == spec_parse_core(v@),
{
    proof {
        lemma_first_idx(v@, '.');
    }
    let d1 = find_first(v, '.');
    if d1 == v.len() {
        proof {
            assert(split_dots(v@) == seq![v@]);
        }
        return None;
    }
    let p1 = crate::strutil::chars_slice(v, 0, d1);
    let rest = crate::strutil::chars_slice(v, d1 + 1, v.len());
    proof {
        assert(rest@ =~= v@.skip(d1 as int + 1));
        assert(split_dots(v@) == seq![p1@] + split_dots(rest@));
        lemma_first_idx(rest@, '.');
    }
    let d2 = find_first(&rest, '.');
    if d2 == rest.len() {
        proof {
            assert(split_dots(rest@) == seq![rest@]);
            assert(split_dots(v@).len() == 2);
        }
        return None;
    }
    let p2 = crate::strutil::chars_slice(&rest, 0, d2);
    let rest2 = crate::strutil::chars_slice(&rest, d2 + 1, rest.len());
    proof {
        assert(rest2@ =~= rest@.skip(d2 as int + 1));
        assert(split_dots(rest@) == seq![p2@] + split_dots(rest2@));
        lemma_first_idx(rest2@, '.');
    }
    let d3 = find_first(&rest2, '.');
    if d3 < rest2.len() {
        proof {
            assert(split_dots(rest2@) == seq![rest2@.subrange(0, d3 as int)] + split_dots(
                rest2@.skip(d3 as int + 1)));
            lemma_split_dots_len(rest2@.skip(d3 as int + 1));
            assert(split_dots(v@).len() >= 4);
        }
        return None;
    }
    proof {
        assert(split_dots(rest2@) == seq![rest2@]);
        assert(split_dots(v@) =~= seq![p1@, p2@, rest2@]);
        assert(split_dots(v@)[0] == p1@);
        assert(split_dots(v@)[1] == p2@);
        assert(split_dots(v@)[2] == rest2@);
    }
    let ma = match parse_num_exec(&p1) {
        Some(n) => n,
        None => {
            return None;
        },
    };
    let mi = match parse_num_exec(&p2) {
        Some(n) => n,
        None => {
            return None;
        },
    };
    let pa = match parse_num_exec(&rest2) {
        Some(n) => n,
        None => {
            return None;
        },
    };
    Some((ma, mi, pa))
}

/// Every version the grammar accepts is well-formed.
proof fn lemma_parse_pre_list_wf(parts: Seq<Seq<char>>)
    ensures
        match parse_pre_list(parts) {
            Some(ids) => forall|i: int| 0 <= i < ids.len() ==> wf_pre_ident(#[trigger] ids[i]),
            None => true,
        },
    decreases parts.len(),
{
    if parts.len() > 0 {
        lemma_parse_pre_list_wf(parts.skip(1));
    }
}

pub proof fn lemma_parse_version_wf(s: Seq<char>)
    ensures
        match spec_parse_version(s) {
            Some(w) => wf_version(w),
            None => true,
        },
{
    let p = first_idx(s, '+');
    let main = s.subrange(0, p);
    let d = first_idx(main, '-');
    if d < main.len() {
        lemma_parse_pre_list_wf(split_dots(main.skip(d + 1)));
    }
}

/// Parses version text. Returns the version exactly when the text lies in
/// the grammar; the version is then well-formed.
pub fn parse_version(v: &Vec<char>) -> (r: Option<Version>)
    ensures
        match r {
            Some(ver) => spec_parse_version(v@) == Some(ver@) && wf_version(ver@),
            None => spec_parse_version(v@) is None,
        },
{
    proof {
        lemma_first_idx(v@, '+');
        lemma_parse_version_wf(v@);
    }
    let p = find_first(v, '+');
    let main = crate::strutil::chars_slice(v, 0, p);
    let build: Vec<char> = if p < v.len() {
        crate::strutil::chars_slice(v, p + 1, v.len())
    } else {
        Vec::new()
    };
    proof {
        if p < v@.len() {
            assert(build@ =~= v@.skip(p as int + 1));
        } else {
            assert(build@ =~= Seq::<char>::empty());
        }
    }
    if p < v.len() && !check_build(&build) {
        return None;
    }
    proof {
        lemma_first_idx(main@, '-');
    }
    let d = find_first(&main, '-');
    let core = crate::strutil::chars_slice(&main, 0, d);
    let triple = match parse_core_exec(&core) {
        Some(t) => t,
        None => {
            return None;
        },
    };
    if d < main.len() {
        let pre_txt = crate::strutil::chars_slice(&main, d + 1, main.len());
        proof {
            assert(pre_txt@ =~= main@.skip(d as int + 1));
        }
        match parse_pre_exec(&pre_txt) {
            Some(ids) => {
                let ver = Version {
                    major: triple.0,
                    minor: triple.1,
                    patch: triple.2,
                    pre: ids,
                    build,
                };
                Some(ver)
            },
            None => None,
        }
    } else {
        let ver = Version {
            major: triple.0,
            minor: triple.1,
            patch: triple.2,
            pre: Vec::new(),
            build,
        };
        proof {
            assert(ver@.pre =~= Seq::<SpecPreIdent>::empty());
        }
        Some(ver)
    }
}

/// Parses version text given as a string slice.
pub fn parse_version_str(s: &str) -> (r: Option<Version>)
    ensures
        match r {
            Some(ver) => spec_parse_version(s@) == Some(ver@) && wf_version(ver@),
            None => spec_parse_version(s@) is None,
        },
{
    let chars = crate::strutil::str_to_chars(s);
    parse_version(&chars)
}

// ---------------------------------------------------------------------------
// Executable rendering
// ---------------------------------------------------------------------------

fn digit_to_char(d: u64) -> (c: char)
    requires
        d < 10,
    ensures
        c == digit_char_of(d as nat),
{
    if d == 0 { '0' }
    else if d == 1 { '1' }
    else if d == 2 { '2' }
    else if d == 3 { '3' }
    else if d == 4 { '4' }
    else if d == 5 { '5' }
    else if d == 6 { '6' }
    else if d == 7 { '7' }
    else if d == 8 { '8' }
    else { '9' }
}

/// Appends the canonical decimal numeral of `n`.
pub(crate) fn push_dec(n: u64, out: &mut Vec<char>)
    ensures
        final(out)@ == old(out)@ + dec_of(n),
    decreases n,
{
    if n >= 10 {
        push_dec(n / 10, out);
    }
    out.push(digit_to_char(n % 10));
    proof {
        if n < 10 {
            assert(old(out)@ + dec_of(n) =~= old(out)@.push(digit_char_of((n % 10) as nat)));
        } else {
            assert(old(out)@ + dec_of(n) =~= (old(out)@ + dec_of(n / 10)).push(
                digit_char_of((n % 10) as nat)));
        }
    }
}

fn push_all(src: &Vec<char>, out: &mut Vec<char>)
    ensures
        final(out)@ == old(out)@ + src@,
{
    let mut i: usize = 0;
    while i < src.len()
        invariant
            i <= src.len(),
            out@ == old(out)@ + src@.subrange(0, i as int),
        decreases src.len() - i,
    {
        out.push(src[i]);
        i = i + 1;
        proof {
            assert(out@ =~= old(out)@ + src@.subrange(0, i as int));
        }
    }
    proof {
        assert(old(out)@ + src@.subrange(0, src@.len() as int) =~= old(out)@ + src@);
    }
}

/// Appends the pre-release identifiers from `from` on, dot-separated.
fn push_pre(ids: &Vec<PreIdent>, from: usize, out: &mut Vec<char>)
    requires
        from < ids@.len(),
    ensures
        final(out)@ == old(out)@ + render_pre(pre_views(ids@).skip(from as int)),
    decreases ids@.len() - from,
{
    let ghost gids = pre_views(ids@).skip(from as int);
    proof {
        assert(gids.len() == ids@.len() - from);
        assert(gids[0] == pre_views(ids@)[from as int]);
    }
    match &ids[from] {
        PreIdent::Num(n) => {
            push_dec(*n, out);
        },
        PreIdent::Alpha(s) => {
            push_all(s, out);
        },
    }
    if from < ids.len() - 1 {
        out.push('.');
        push_pre(ids, from + 1, out);
        proof {
            assert(pre_views(ids@).skip(from as int + 1) =~= gids.skip(1));
            assert(old(out)@ + render_pre(gids) =~= (old(out)@ + render_pre_ident(gids[0])
                + seq!['.']) + render_pre(gids.skip(1)));
        }
    } else {
        proof {
            assert(gids.len() == 1);
            assert(old(out)@ + render_pre(gids) =~= old(out)@ + render_pre_ident(gids[0]));
        }
    }
}

/// The canonical text of a version.
pub fn render_version(v: &Version) -> (r: Vec<char>)
    ensures
        r@ == spec_render_version(v@),
{
    let mut out: Vec<char> = Vec::new();
    push_dec(v.major, &mut out);
    out.push('.');
    push_dec(v.minor, &mut out);
    out.push('.');
    push_dec(v.patch, &mut out);
    let ghost core = dec_of(v@.major) + seq!['.'] + dec_of(v@.minor) + seq!['.'] + dec_of(
        v@.patch,
    );
    proof {
        assert(out@ =~= core);
    }
    if v.pre.len() > 0 {
        out.push('-');
        push_pre(&v.pre, 0, &mut out);
        proof {
            assert(pre_views(v.pre@).skip(0) =~= v@.pre);
        }
    }
    let ghost with_pre = core + (if v@.pre.len() > 0 {
        seq!['-'] + render_pre(v@.pre)
    } else {
        Seq::<char>::empty()
    });
    proof {
        assert(out@ =~= with_pre);
    }
    if v.build.len() > 0 {
        out.push('+');
        push_all(&v.build, &mut out);
    }
    proof {
        assert(out@ =~= spec_render_version(v@));
    }
    out
}

/// The canonical text of a version, as a `String`.
pub fn version_to_string(v: &Version) -> (r: String)
    ensures
        r@ == spec_render_version(v@),
{
    let chars = render_version(v);
    crate::strutil::chars_to_string(&chars)
}

/// Executable lexical order on identifier text.
fn chars_lt_exec(s: &Vec<char>, t: &Vec<char>) -> (r: bool)
    ensures
        r == chars_lt(s@, t@),
    decreases s@.len(),
{
    let mut i: usize = 0;
    proof {
        assert(s@.skip(0) =~= s@);
        assert(t@.skip(0) =~= t@);
    }
    loop
        invariant
            i <= s.len(),
            i <= t.len(),
            chars_lt(s@, t@) == chars_lt(s@.skip(i as int), t@.skip(i as int)),
        decreases s.len() - i,
    {
        proof {
            assert(s@.skip(i as int).len() == s@.len() - i);
            assert(t@.skip(i as int).len() == t@.len() - i);
        }
        if i == t.len() {
            return false;
        }
        if i == s.len() {
            return true;
        }
        proof {
            assert(s@.skip(i as int)[0] == s@[i as int]);
            assert(t@.skip(i as int)[0] == t@[i as int]);
            assert(s@.skip(i as int).skip(1) =~= s@.skip(i as int + 1));
            assert(t@.skip(i as int).skip(1) =~= t@.skip(i as int + 1));
        }
        if s[i] != t[i] {
            return s[i] < t[i];
        }
        i = i + 1;
    }
}

/// Executable order between pre-release identifiers.
fn ident_lt_exec(x: &PreIdent, y: &PreIdent) -> (r: bool)
    ensures
        r == ident_lt(x@, y@),
{
    match (x, y) {
        (PreIdent::Num(n), PreIdent::Num(m)) => *n < *m,
        (PreIdent::Num(_), PreIdent::Alpha(_)) => true,
        (PreIdent::Alpha(_), PreIdent::Num(_)) => false,
        (PreIdent::Alpha(s), PreIdent::Alpha(t)) => chars_lt_exec(s, t),
    }
}

/// Executable equality of pre-release identifiers.
fn ident_eq_exec(x: &PreIdent, y: &PreIdent) -> (r: bool)
    ensures
        r == (x@ == y@),
{
    match (x, y) {
        (PreIdent::Num(n), PreIdent::Num(m)) => *n == *m,
        (PreIdent::Alpha(s), PreIdent::Alpha(t)) => crate::strutil::chars_eq(s, t),
        _ => false,
    }
}

impl Version {
    /// A version from its numeric triple, without pre-release or build text.
    pub fn new(major: u64, minor: u64, patch: u64) -> (r: Version)
        ensures
            r@.major == major,
            r@.minor == minor,
            r@.patch == patch,
            r@.pre.len() == 0,
            r@.build.len() == 0,
            wf_version(r@),
    {
        let r = Version { major, minor, patch, pre: Vec::new(), build: Vec::new() };
        proof {
            assert(r@.pre =~= Seq::<SpecPreIdent>::empty());
        }
        r
    }

    /// Whether `self` precedes `other` in semantic-version order.
    pub fn lt(&self, other: &Version) -> (r: bool)
        ensures
            r == vlt(self@, other@),
    {
        if self.major != other.major {
            return self.major < other.major;
        }
        if self.minor != other.minor {
            return self.minor < other.minor;
        }
        if self.patch != other.patch {
            return self.patch < other.patch;
        }
        if self.pre.len() > 0 && other.pre.len() == 0 {
            return true;
        }
        if self.pre.len() == 0 {
            return false;
        }
        let a = &self.pre;
        let b = &other.pre;
        let ghost ga = self@.pre;
        let ghost gb = other@.pre;
        let mut i: usize = 0;
        proof {
            assert(ga.len() == a@.len());
            assert(gb.len() == b@.len());
            assert(ga.skip(0) =~= ga);
            assert(gb.skip(0) =~= gb);
            assert(vlt(self@, other@) == pre_lt(ga, gb));
        }
        loop
            invariant
                i <= a.len(),
                i <= b.len(),
                ga == a@.map_values(|p: PreIdent| p@),
                gb == b@.map_values(|p: PreIdent| p@),
                ga.len() == a@.len(),
                gb.len() == b@.len(),
                vlt(self@, other@) == pre_lt(ga, gb),
                pre_lt(ga, gb) == pre_lt(ga.skip(i as int), gb.skip(i as int)),
            decreases a.len() - i,
        {
            proof {
                assert(ga.skip(i as int).len() == a@.len() - i);
                assert(gb.skip(i as int).len() == b@.len() - i);
            }
            if i == b.len() {
                return false;
            }
            if i == a.len() {
                return true;
            }
            proof {
                assert(ga.skip(i as int)[0] == ga[i as int]);
                assert(gb.skip(i as int)[0] == gb[i as int]);
                assert(ga[i as int] == a@[i as int]@);
                assert(gb[i as int] == b@[i as int]@);
                assert(ga.skip(i as int).skip(1) =~= ga.skip(i as int + 1));
                assert(gb.skip(i as int).skip(1) =~= gb.skip(i as int + 1));
            }
            if !ident_eq_exec(&a[i], &b[i]) {
                return ident_lt_exec(&a[i], &b[i]);
            }
            i = i + 1;
        }
    }

    /// Whether `self` and `other` are the same version, build text included.
    pub fn eq(&self, other: &Version) -> (r: bool)
        ensures
            r == (self@ == other@),
    {
        if self.major != other.major || self.minor != other.minor || self.patch != other.patch {
            return false;
        }
        if !crate::strutil::chars_eq(&self.build, &other.build) {
            return false;
        }
        if self.pre.len() != other.pre.len() {
            proof {
                assert(self@.pre.len() != other@.pre.len());
            }
            return false;
        }
        let ghost ga = self@.pre;
        let ghost gb = other@.pre;
        let mut i: usize = 0;
        proof {
            assert(ga.len() == self.pre@.len());
            assert(gb.len() == other.pre@.len());
        }
        while i < self.pre.len()
            invariant
                i <= self.pre.len(),
                self.pre.len() == other.pre.len(),
                ga == self@.pre,
                gb == other@.pre,
                ga.len() == self.pre@.len(),
                gb.len() == other.pre@.len(),
                self@.major == other@.major,
                self@.minor == other@.minor,
                self@.patch == other@.patch,
                self@.build == other@.build,
                forall|j: int| 0 <= j < i ==> ga[j] == gb[j],
            decreases self.pre.len() - i,
        {
            proof {
                assert(ga[i as int] == self.pre@[i as int]@);
                assert(gb[i as int] == other.pre@[i as int]@);
            }
            if !ident_eq_exec(&self.pre[i], &other.pre[i]) {
                return false;
            }
            i = i + 1;
        }
        proof {
            assert(ga =~= gb);
        }
        true
    }
}

} // verus!

verus! {

// ---------------------------------------------------------------------------
// Precedence is a strict order
// ---------------------------------------------------------------------------

/// Two versions of equal precedence: the numeric triple and the pre-release
/// lists agree; build metadata may differ.
pub open spec fn prec_eq(a: SpecVersion, b: SpecVersion) -> bool {
    a.major == b.major && a.minor == b.minor && a.patch == b.patch && a.pre == b.pre
}

proof fn lemma_chars_lt_irrefl(a: Seq<char>)
    ensures
        !chars_lt(a, a),
    decreases a.len(),
{
    if a.len() > 0 {
        lemma_chars_lt_irrefl(a.skip(1));
    }
}

proof fn lemma_chars_lt_trans(a: Seq<char>, b: Seq<char>, c: Seq<char>)
    requires
        chars_lt(a, b),
        chars_lt(b, c),
    ensures
        chars_lt(a, c),
    decreases a.len() + b.len() + c.len(),
{
    if a.len() > 0 && b.len() > 0 && c.len() > 0 {
        if a[0] == b[0] && b[0] == c[0] {
            lemma_chars_lt_trans(a.skip(1), b.skip(1), c.skip(1));
        }
    }
}

proof fn lemma_chars_lt_connected(a: Seq<char>, b: Seq<char>)
    ensures
        chars_lt(a, b) || chars_lt(b, a) || a == b,
    decreases a.len(),
{
    if a.len() > 0 && b.len() > 0 && a[0] == b[0] {
        lemma_chars_lt_connected(a.skip(1), b.skip(1));
        if a.skip(1) == b.skip(1) {
            assert(a =~= seq![a[0]] + a.skip(1));
            assert(b =~= seq![b[0]] + b.skip(1));
        }
    }
}

proof fn lemma_ident_lt_irrefl(x: SpecPreIdent)
    ensures
        !ident_lt(x, x),
{
    match x {
        SpecPreIdent::Num(_) => {},
        SpecPreIdent::Alpha(s) => {
            lemma_chars_lt_irrefl(s);
        },
    }
}

proof fn lemma_ident_lt_trans(x: SpecPreIdent, y: SpecPreIdent, z: SpecPreIdent)
    requires
        ident_lt(x, y),
        ident_lt(y, z),
    ensures
        ident_lt(x, z),
{
    match (x, y, z) {
        (SpecPreIdent::Alpha(s), SpecPreIdent::Alpha(t), SpecPreIdent::Alpha(u)) => {
            lemma_chars_lt_trans(s, t, u);
        },
        _ => {},
    }
}

proof fn lemma_ident_lt_connected(x: SpecPreIdent, y: SpecPreIdent)
    ensures
        ident_lt(x, y) || ident_lt(y, x) || x == y,
{
    match (x, y) {
        (SpecPreIdent::Alpha(s), SpecPreIdent::Alpha(t)) => {
            lemma_chars_lt_connected(s, t);
        },
        _ => {},
    }
}

proof fn lemma_pre_lt_irrefl(a: Seq<SpecPreIdent>)
    ensures
        !pre_lt(a, a),
    decreases a.len(),
{
    if a.len() > 0 {
        lemma_pre_lt_irrefl(a.skip(1));
    }
}

proof fn lemma_pre_lt_trans(a: Seq<SpecPreIdent>, b: Seq<SpecPreIdent>, c: Seq<SpecPreIdent>)
    requires
        pre_lt(a, b),
        pre_lt(b, c),
    ensures
        pre_lt(a, c),
    decreases a.len() + b.len() + c.len(),
{
    if a.len() > 0 && b.len() > 0 && c.len() > 0 {
        if a[0] == b[0] && b[0] == c[0] {
            lemma_pre_lt_trans(a.skip(1), b.skip(1), c.skip(1));
        } else if a[0] == b[0] {
            assert(ident_lt(b[0], c[0]));
        } else if b[0] == c[0] {
            assert(ident_lt(a[0], b[0]));
        } else {
            lemma_ident_lt_trans(a[0], b[0], c[0]);
            if a[0] == c[0] {
                lemma_ident_lt_irrefl(a[0]);
            }
        }
    }
}

proof fn lemma_pre_lt_asym(a: Seq<SpecPreIdent>, b: Seq<SpecPreIdent>)
    requires
        pre_lt(a, b),
    ensures
        !pre_lt(b, a),
    decreases a.len(),
{
    if pre_lt(b, a) {
        lemma_pre_lt_trans(a, b, a);
        lemma_pre_lt_irrefl(a);
    }
}

proof fn lemma_pre_lt_connected(a: Seq<SpecPreIdent>, b: Seq<SpecPreIdent>)
    ensures
        pre_lt(a, b) || pre_lt(b, a) || a == b,
    decreases a.len(),
{
    if a.len() > 0 && b.len() > 0 {
        lemma_ident_lt_connected(a[0], b[0]);
        if a[0] == b[0] {
            lemma_pre_lt_connected(a.skip(1), b.skip(1));
            if a.skip(1) == b.skip(1) {
                assert(a =~= seq![a[0]] + a.skip(1));
                assert(b =~= seq![b[0]] + b.skip(1));
            }
        }
    }
}

/// Precedence never holds of a version against itself.
pub proof fn lemma_vlt_irrefl(a: SpecVersion)
    ensures
        !vlt(a, a),
{
    lemma_pre_lt_irrefl(a.pre);
}

/// Precedence is transitive.
pub proof fn lemma_vlt_trans(a: SpecVersion, b: SpecVersion, c: SpecVersion)
    requires
        vlt(a, b),
        vlt(b, c),
    ensures
        vlt(a, c),
{
    if a.major == b.major && b.major == c.major && a.minor == b.minor && b.minor == c.minor
        && a.patch == b.patch && b.patch == c.patch {
        if a.pre.len() > 0 && b.pre.len() > 0 && c.pre.len() > 0 {
            lemma_pre_lt_trans(a.pre, b.pre, c.pre);
        }
    }
}

/// Precedence holds in at most one direction.
pub proof fn lemma_vlt_asym(a: SpecVersion, b: SpecVersion)
    requires
        vlt(a, b),
    ensures
        !vlt(b, a),
{
    if vlt(b, a) {
        lemma_vlt_trans(a, b, a);
        lemma_vlt_irrefl(a);
    }
}

/// Any two versions compare, up to equal precedence.
pub proof fn lemma_vlt_connected(a: SpecVersion, b: SpecVersion)
    ensures
        vlt(a, b) || vlt(b, a) || prec_eq(a, b),
{
    if a.major == b.major && a.minor == b.minor && a.patch == b.patch {
        lemma_pre_lt_connected(a.pre, b.pre);
    }
}

/// Precedence sees only the precedence fields: versions of equal precedence
/// compare alike against everything.
pub proof fn lemma_vlt_prec_congr(a: SpecVersion, b: SpecVersion, x: SpecVersion)
    requires
        prec_eq(a, b),
    ensures
        vlt(x, a) == vlt(x, b),
        vlt(a, x) == vlt(b, x),
{
}

} // verus!
