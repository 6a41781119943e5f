//! The configuration record at the store root.
//!
//! One field: the update source. The wire form is one `update_source=value`
//! line with the manifest codec's escaping, so any value round-trips.

use vstd::prelude::*;

use crate::manifest::{esc, esc_into, field_of, key_of_update_source, unesc, unesc_all};
use crate::strutil::{chars_slice, chars_to_string, str_to_chars};

verus! {

/// Configuration errors.
#[derive(Debug)]
pub enum ConfigError {
    Io(String),
    Parse(String),
    NotFound(String),
}

/// The configuration record.
#[derive(Debug)]
pub struct Config {
    pub update_source: String,
}

/// The serialized configuration: one escaped `update_source` line.
pub open spec fn spec_save_config(update_source: Seq<char>) -> Seq<char> {
    key_of_update_source() + esc(update_source) + seq!['\n']
}

/// The parse of a configuration text: the inverse of [`spec_save_config`].
pub open spec fn spec_load_config(s: Seq<char>) -> Option<Seq<char>> {
    if s.len() > 0 && s.last() == '\n' {
        match field_of(s.drop_last(), key_of_update_source()) {
            Some(v) => unesc(v),
            None => None,
        }
    } else {
        None
    }
}

impl Config {
    /// A configuration with an empty update source.
    pub fn new() -> (r: Config)
        ensures
            r.update_source@.len() == 0,
    {
        Config { update_source: String::new() }
    }

    /// Parses a configuration text.
    pub fn load(text: &str) -> (r: Result<Config, ConfigError>)
        ensures
            match r {
                Ok(c) => spec_load_config(text@) == Some(c.update_source@),
                Err(e) => spec_load_config(text@) is None && e is Parse,
            },
    {
        let v = str_to_chars(text);
        if v.len() == 0 || v[v.len() - 1] != '\n' {
            proof {
                if v@.len() > 0 {
                    assert(v@.last() == v@[v@.len() - 1]);
                }
            }
            return Err(ConfigError::Parse(String::from_str("missing final newline")));
        }
        let line = chars_slice(&v, 0, v.len() - 1);
        proof {
            assert(line@ =~= text@.drop_last());
        }
        let key = key_of_update_source_exec();
        if !crate::strutil::chars_start_with(&line, &key) {
            return Err(ConfigError::Parse(String::from_str("missing update_source field")));
        }
        let val = chars_slice(&line, key.len(), line.len());
        proof {
            assert(val@ =~= line@.skip(key_of_update_source().len() as int));
        }
        match unesc_all(&val) {
            Some(s) => Ok(Config { update_source: s }),
            None => Err(ConfigError::Parse(String::from_str("malformed escape"))),
        }
    }

    /// Serializes the configuration.
    pub fn save(&self) -> (r: String)
        ensures
            r@ == spec_save_config(self.update_source@),
    {
        let mut out = key_of_update_source_exec();
        let val = str_to_chars(self.update_source.as_str());
        esc_into(&val, &mut out);
        out.push('\n');
        proof {
            assert(out@ =~= spec_save_config(self.update_source@));
        }
        chars_to_string(&out)
    }

    /// The configuration to use given what the store holds: the stored one,
    /// or a fresh default where none exists yet.
    pub fn ensure_default(existing: Option<Config>) -> (r: Config)
        ensures
            match existing {
                Some(c) => r.update_source@ == c.update_source@,
                None => r.update_source@.len() == 0,
            },
    {
        match existing {
            Some(c) => c,
            None => Config::new(),
        }
    }
}

fn key_of_update_source_exec() -> (r: Vec<char>)
    ensures
        r@ == key_of_update_source(),
{
    let v = str_to_chars("update_source=");
    proof {
        reveal_strlit("update_source=");
        assert(v@ =~= key_of_update_source());
    }
    v
}

/// Loading a saved configuration gives the configuration back.
pub proof fn lemma_config_roundtrip(update_source: Seq<char>)
    ensures
        spec_load_config(spec_save_config(update_source)) == Some(update_source),
{
    crate::manifest::lemma_unesc_esc(update_source);
    crate::manifest::lemma_esc_no_nl(update_source);
    let s = spec_save_config(update_source);
    assert(s.last() == '\n');
    assert(s.drop_last() =~= key_of_update_source() + esc(update_source));
    crate::manifest::lemma_field_of(key_of_update_source(), esc(update_source));
}

} // verus!
