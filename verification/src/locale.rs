//! Localized messages: a key-to-template table and ordered formatting.
//!
//! A message template carries `{}` holes filled left to right from a list of
//! arguments; missing arguments leave their holes' text out, surplus
//! arguments are ignored, exactly as the table's consumers expect.

use vstd::prelude::*;

use crate::paths::{find_sub, lemma_find_sub};
use crate::strutil::{append_chars, chars_slice, chars_to_string, str_to_chars};

verus! {

/// The localization table: a language tag and key-template pairs.
#[derive(Debug)]
pub struct Locale {
    pub lang: String,
    pub messages: Vec<(String, String)>,
}

/// The template of `key`: the first matching pair wins; an absent key falls
/// back to the key itself.
pub open spec fn spec_msg(pairs: Seq<(Seq<char>, Seq<char>)>, key: Seq<char>) -> Seq<char>
    decreases pairs.len(),
{
    if pairs.len() == 0 {
        key
    } else if pairs[0].0 == key {
        pairs[0].1
    } else {
        spec_msg(pairs.skip(1), key)
    }
}

impl Locale {
    /// A table from its parts.
    pub fn new(lang: String, messages: Vec<(String, String)>) -> (r: Locale)
        ensures
            r.lang@ == lang@,
            r.messages@ == messages@,
    {
        Locale { lang, messages }
    }

    /// The template of `key`, or the key itself when the table lacks it.
    pub fn msg(&self, key: &str) -> (r: String)
        ensures
            r@ == spec_msg(
                self.messages@.map_values(|p: (String, String)| (p.0@, p.1@)),
                key@,
            ),
    {
        let key_s = key.to_owned();
        let ghost pairs = self.messages@.map_values(|p: (String, String)| (p.0@, p.1@));
        let mut i: usize = 0;
        proof {
            assert(pairs.skip(0) =~= pairs);
        }
        while i < self.messages.len()
            invariant
                i <= self.messages@.len(),
                pairs == self.messages@.map_values(|p: (String, String)| (p.0@, p.1@)),
                pairs.len() == self.messages@.len(),
                key_s@ == key@,
                spec_msg(pairs, key@) == spec_msg(pairs.skip(i as int), key@),
            decreases self.messages.len() - i,
        {
            let ghost tail = pairs.skip(i as int);
            proof {
                assert(tail.len() == pairs.len() - i);
                assert(tail[0] == pairs[i as int]);
                assert(pairs[i as int] == (self.messages@[i as int].0@,
                self.messages@[i as int].1@));
                assert(tail.skip(1) =~= pairs.skip(i as int + 1));
            }
            let pair = &self.messages[i];
            if pair.0 == key_s {
                return pair.1.clone();
            }
            i = i + 1;
        }
        proof {
            assert(pairs.skip(pairs.len() as int) =~= Seq::<(Seq<char>, Seq<char>)>::empty());
        }
        key.to_owned()
    }
}

/// The hole token of a template.
pub open spec fn hole() -> Seq<char> {
    seq!['{', '}']
}

/// The template with its `{}` holes filled left to right from `args`:
/// missing arguments leave nothing, surplus arguments are dropped.
pub open spec fn spec_format_ordered(t: Seq<char>, args: Seq<Seq<char>>) -> Seq<char>
    decreases t.len(),
{
    let i = find_sub(t, hole());
    if 0 <= i && i < t.len() && i + 2 <= t.len() {
        let filled = if args.len() > 0 {
            args[0]
        } else {
            Seq::<char>::empty()
        };
        let rest = if args.len() > 0 {
            args.skip(1)
        } else {
            args
        };
        t.subrange(0, i) + filled + spec_format_ordered(t.skip(i + 2), rest)
    } else {
        t
    }
}

/// Fills the `{}` holes of a template from ordered arguments.
pub fn format_ordered(template: &str, args: &Vec<String>) -> (r: String)
    ensures
        r@ == spec_format_ordered(template@, args@.map_values(|s: String| s@)),
{
    let t = str_to_chars(template);
    proof {
        assert(args@.map_values(|s: String| s@).skip(0) =~= args@.map_values(|s: String| s@));
    }
    let out = format_chars(&t, args, 0);
    chars_to_string(&out)
}

/// Fills holes from argument `from` on.
fn format_chars(t: &Vec<char>, args: &Vec<String>, from: usize) -> (r: Vec<char>)
    requires
        from <= args@.len(),
    ensures
        r@ == spec_format_ordered(t@, args@.map_values(|s: String| s@).skip(from as int)),
    decreases t@.len(),
{
    let ghost gargs = args@.map_values(|s: String| s@).skip(from as int);
    let mut pat: Vec<char> = Vec::new();
    pat.push('{');
    pat.push('}');
    proof {
        assert(pat@ =~= hole());
        lemma_find_sub(t@, hole());
        assert(gargs.len() == args@.len() - from);
    }
    let i = crate::paths::find_sub_exec(t, &pat);
    if i == t.len() {
        let r = chars_slice(t, 0, t.len());
        proof {
            assert(r@ =~= t@);
        }
        return r;
    }
    let mut out = chars_slice(t, 0, i);
    let tail = chars_slice(t, i + 2, t.len());
    proof {
        assert(tail@ =~= t@.skip(i as int + 2));
    }
    if from < args.len() {
        proof {
            assert(gargs[0] == args@[from as int]@);
            assert(gargs.skip(1) =~= args@.map_values(|s: String| s@).skip(from as int + 1));
        }
        let a = str_to_chars(args[from].as_str());
        append_chars(&mut out, &a);
        let rest = format_chars(&tail, args, from + 1);
        append_chars(&mut out, &rest);
        proof {
            assert(out@ =~= t@.subrange(0, i as int) + gargs[0] + spec_format_ordered(
                t@.skip(i as int + 2),
                gargs.skip(1),
            ));
        }
    } else {
        proof {
            assert(gargs.len() == 0);
        }
        let rest = format_chars(&tail, args, from);
        append_chars(&mut out, &rest);
        proof {
            assert(out@ =~= t@.subrange(0, i as int) + Seq::<char>::empty() + spec_format_ordered(
                t@.skip(i as int + 2),
                gargs,
            ));
        }
    }
    out
}

/// Relies on std's `Debug` formatting: the debug text of a value.
#[verifier::external_body]
pub fn fmt_debug<T: core::fmt::Debug>(val: T) -> String {
    format!("{:?}", val)
}

/// Relies on sys-locale's `get_locale`: the system language tag, which
/// depends on the environment.
#[verifier::external_body]
pub fn system_language() -> Option<String> {
    sys_locale::get_locale()
}

} // verus!
