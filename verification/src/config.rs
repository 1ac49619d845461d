use vstd::prelude::*;

use crate::text::push_char;

verus! {

/// The two tunable bounds of the navigation helper. Absent values fall
/// back to the defaults; the caller loads them from its configuration
/// file, or uses `Default` when there is none.
#[derive(Debug, PartialEq, Eq)]
pub struct CdxConfig {
    pub search_size: Option<usize>,
    pub max_size: Option<usize>,
}

impl CdxConfig {
    /// How many most-recent entries resolution and listing may see
    /// (default 30).
    pub open spec fn spec_search_size(&self) -> usize {
        match self.search_size {
            Some(v) => v,
            None => 30,
        }
    }

    /// The history retention ceiling (default 1024).
    pub open spec fn spec_max_size(&self) -> usize {
        match self.max_size {
            Some(v) => v,
            None => 1024,
        }
    }

    pub fn search_size(&self) -> (r: usize)
        ensures
            r == self.spec_search_size(),
    {
        match self.search_size {
            Some(v) => v,
            None => 30,
        }
    }

    pub fn max_size(&self) -> (r: usize)
        ensures
            r == self.spec_max_size(),
    {
        match self.max_size {
            Some(v) => v,
            None => 1024,
        }
    }
}

impl Default for CdxConfig {
    fn default() -> (r: CdxConfig)
        ensures
            r == (CdxConfig { search_size: Some(30usize), max_size: Some(1024usize) }),
    {
        CdxConfig { search_size: Some(30), max_size: Some(1024) }
    }
}

/// The whole configuration surface the helper reads.
#[derive(Debug, PartialEq, Eq)]
pub struct Config {
    pub cdx_config: CdxConfig,
}

impl Default for Config {
    fn default() -> (r: Config)
        ensures
            r == (Config {
                cdx_config: CdxConfig { search_size: Some(30usize), max_size: Some(1024usize) },
            }),
    {
        Config { cdx_config: CdxConfig { search_size: Some(30), max_size: Some(1024) } }
    }
}

/// The path of the file `name` inside the base directory `base`. The
/// base directory itself (the `$SHX_HOME` override or `~/.shx`) is the
/// caller's environment to supply.
pub fn path_for(base: &str, name: &str) -> (r: String)
    ensures
        r@ == base@ + seq!['/'] + name@,
{
    let mut s = String::from_str(base);
    push_char(&mut s, '/');
    s.append(name);
    proof {
        assert(s@ =~= base@ + seq!['/'] + name@);
    }
    s
}

} // verus!
