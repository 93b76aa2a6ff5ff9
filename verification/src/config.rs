//! Per-request tuning: block size, parallelism and read chunk size, each
//! with a default that a request's override field may replace.

use vstd::prelude::*;
use vstd::slice::slice_subrange;
use crate::text::{
    find_byte, first_index, is_header_text, is_text, parse_number, parse_usize, split_at_first,
    split_once,
};

verus! {

pub const DEFAULT_BLOCK_SIZE: usize = 1048576;

pub const MIN_BLOCK_SIZE: usize = 1048576;

pub const MAX_BLOCK_SIZE: usize = 52428800;

pub const DEFAULT_PARALLELISM: usize = 5;

pub const MIN_PARALLELISM: usize = 1;

pub const MAX_PARALLELISM: usize = 10;

pub const DEFAULT_READ_CHUNK_SIZE: usize = 65536;

pub const MIN_READ_CHUNK_SIZE: usize = 1024;

pub const MAX_READ_CHUNK_SIZE: usize = 1048576;

/// The tuning of one request.
#[derive(Clone, Copy, Debug, PartialEq, Eq, Structural)]
pub struct Config {
    /// Bytes fetched per origin request.
    pub block_size: usize,
    /// Most origin fetches outstanding at once.
    pub parallelism: usize,
    /// Most bytes moved in one step when a fragment is trimmed or copied.
    pub read_chunk_size: usize,
}

/// The configuration that holds without overrides.
pub open spec fn default_config() -> Config {
    Config {
        block_size: DEFAULT_BLOCK_SIZE,
        parallelism: DEFAULT_PARALLELISM,
        read_chunk_size: DEFAULT_READ_CHUNK_SIZE,
    }
}

/// `v`, where a text is a number inside `[low, high]`.
pub open spec fn setting_value(text: Seq<u8>, low: usize, high: usize) -> Option<usize> {
    match parse_number(text) {
        Some(v) => if low <= v && v <= high {
            Some(v)
        } else {
            None
        },
        None => None,
    }
}

/// One override applied: `b=`, `p=` and `r=` set block size, parallelism and
/// read chunk size where the value is a number inside the option's bounds;
/// anything else changes nothing.
pub open spec fn apply_setting(c: Config, part: Seq<u8>) -> Config {
    match split_once(part, 61) {
        Some((key, value)) => if key == seq![98u8] {
            match setting_value(value, MIN_BLOCK_SIZE, MAX_BLOCK_SIZE) {
                Some(v) => Config { block_size: v, ..c },
                None => c,
            }
        } else if key == seq![112u8] {
            match setting_value(value, MIN_PARALLELISM, MAX_PARALLELISM) {
                Some(v) => Config { parallelism: v, ..c },
                None => c,
            }
        } else if key == seq![114u8] {
            match setting_value(value, MIN_READ_CHUNK_SIZE, MAX_READ_CHUNK_SIZE) {
                Some(v) => Config { read_chunk_size: v, ..c },
                None => c,
            }
        } else {
            c
        },
        None => c,
    }
}

/// The overrides of a comma-separated field applied from left to right.
pub open spec fn apply_settings(c: Config, field: Seq<u8>) -> Config
    decreases field.len(),
{
    let i = first_index(field, 44);
    if 0 <= i < field.len() {
        apply_settings(
            apply_setting(c, field.subrange(0, i)),
            field.subrange(i + 1, field.len() as int),
        )
    } else {
        apply_setting(c, field)
    }
}

/// The configuration that an override field gives: the defaults where there
/// is no field or it is not text.
pub open spec fn config_of(field: Option<Seq<u8>>) -> Config {
    match field {
        Some(f) => if is_text(f) {
            apply_settings(default_config(), f)
        } else {
            default_config()
        },
        None => default_config(),
    }
}

/// Every override keeps each option inside its bounds.
pub proof fn lemma_apply_setting_wf(c: Config, part: Seq<u8>)
    requires
        c.wf(),
    ensures
        apply_setting(c, part).wf(),
{
}

/// Every override field keeps each option inside its bounds.
pub proof fn lemma_apply_settings_wf(c: Config, field: Seq<u8>)
    requires
        c.wf(),
    ensures
        apply_settings(c, field).wf(),
    decreases field.len(),
{
    let i = first_index(field, 44);
    lemma_apply_setting_wf(c, field);
    if 0 <= i < field.len() {
        lemma_apply_setting_wf(c, field.subrange(0, i));
        lemma_apply_settings_wf(
            apply_setting(c, field.subrange(0, i)),
            field.subrange(i + 1, field.len() as int),
        );
    }
}

fn is_key(key: &[u8], name: u8) -> (r: bool)
    ensures
        r == (key@ == seq![name]),
{
    let r = key.len() == 1 && key[0] == name;
    proof {
        if r {
            assert(key@ =~= seq![name]);
        } else if key.len() == 1 {
            assert(seq![name][0] == name);
        }
    }
    r
}

fn read_setting(text: &[u8], low: usize, high: usize) -> (r: Option<usize>)
    ensures
        r == setting_value(text@, low, high),
{
    match parse_usize(text) {
        Some(v) => if low <= v && v <= high {
            Some(v)
        } else {
            None
        },
        None => None,
    }
}

impl Config {
    /// Each option lies inside its bounds.
    pub open spec fn wf(&self) -> bool {
        &&& MIN_BLOCK_SIZE <= self.block_size <= MAX_BLOCK_SIZE
        &&& MIN_PARALLELISM <= self.parallelism <= MAX_PARALLELISM
        &&& MIN_READ_CHUNK_SIZE <= self.read_chunk_size <= MAX_READ_CHUNK_SIZE
    }

    /// The configuration of a request, from its override field if it has one.
    pub fn new(field: Option<&[u8]>) -> (r: Config)
        ensures
            r == config_of(
                match field {
                    Some(f) => Some(f@),
                    None => None,
                },
            ),
            r.wf(),
    {
        let mut c = Config {
            block_size: DEFAULT_BLOCK_SIZE,
            parallelism: DEFAULT_PARALLELISM,
            read_chunk_size: DEFAULT_READ_CHUNK_SIZE,
        };
        let f: &[u8] = match field {
            Some(f) => f,
            None => {
                return c;
            },
        };
        if !is_header_text(f) {
            return c;
        }
        let mut rest: &[u8] = f;
        let mut more: bool = true;
        while more
            invariant
                c.wf(),
                more ==> apply_settings(c, rest@) == apply_settings(default_config(), f@),
                !more ==> c == apply_settings(default_config(), f@),
            decreases
                (if more { rest@.len() + 1 } else { 0 }),
        {
            let n: usize = rest.len();
            match find_byte(rest, 44) {
                Some(i) => {
                    proof {
                        lemma_apply_setting_wf(c, rest@.subrange(0, i as int));
                    }
                    c = c.with_setting(slice_subrange(rest, 0, i));
                    rest = slice_subrange(rest, i + 1, n);
                },
                None => {
                    proof {
                        lemma_apply_setting_wf(c, rest@);
                    }
                    c = c.with_setting(rest);
                    more = false;
                },
            }
        }
        c
    }

    /// This configuration with one `key=value` override applied.
    pub fn with_setting(self, part: &[u8]) -> (r: Config)
        ensures
            r == apply_setting(self, part@),
    {
        let mut c = self;
        match split_at_first(part, 61) {
            Some((key, value)) => {
                if is_key(key, 98) {
                    match read_setting(value, MIN_BLOCK_SIZE, MAX_BLOCK_SIZE) {
                        Some(v) => {
                            c.block_size = v;
                        },
                        None => {},
                    }
                } else if is_key(key, 112) {
                    match read_setting(value, MIN_PARALLELISM, MAX_PARALLELISM) {
                        Some(v) => {
                            c.parallelism = v;
                        },
                        None => {},
                    }
                } else if is_key(key, 114) {
                    match read_setting(value, MIN_READ_CHUNK_SIZE, MAX_READ_CHUNK_SIZE) {
                        Some(v) => {
                            c.read_chunk_size = v;
                        },
                        None => {},
                    }
                }
            },
            None => {},
        }
        c
    }
}

} // verus!
