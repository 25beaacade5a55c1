//! User configuration: defaults and saved presets.
//!
//! Loading the file from disk is the caller's business; this module holds
//! the configuration's shape and the preset lookup.

use vstd::prelude::*;

use crate::chars::str_eq;

verus! {

/// A saved preset: groups to search and optional overrides.
#[derive(Debug, Clone)]
pub struct Preset {
    pub groups: Vec<String>,
    pub patterns: Vec<String>,
    pub exclude: Vec<String>,
    pub time_range: Option<String>,
    pub limit: Option<i32>,
    pub description: Option<String>,
}

/// The configuration file's contents.  Presets are kept in file order,
/// with at most one per name.
#[derive(Debug, Clone)]
pub struct Config {
    pub default_profile: Option<String>,
    pub default_region: Option<String>,
    pub default_groups: Vec<String>,
    pub default_time_range: Option<String>,
    pub default_limit: Option<i32>,
    pub presets: Vec<(String, Preset)>,
}

/// First preset stored under `name`, if any.
pub open spec fn spec_preset_index(s: Seq<(String, Preset)>, name: Seq<char>) -> Option<int>
    decreases s.len(),
{
    if s.len() == 0 {
        None
    } else if s[0].0@ == name {
        Some(0)
    } else {
        match spec_preset_index(s.drop_first(), name) {
            Some(i) => Some(i + 1),
            None => None,
        }
    }
}

proof fn lemma_preset_index(s: Seq<(String, Preset)>, name: Seq<char>)
    ensures
        match spec_preset_index(s, name) {
            Some(i) => 0 <= i < s.len() && s[i].0@ == name && forall|j: int|
                0 <= j < i ==> s[j].0@ != name,
            None => forall|j: int| 0 <= j < s.len() ==> s[j].0@ != name,
        },
    decreases s.len(),
{
    if s.len() > 0 && s[0].0@ != name {
        let t = s.drop_first();
        lemma_preset_index(t, name);
        match spec_preset_index(t, name) {
            Some(i) => {
                assert(s[i + 1] == t[i]);
                assert forall|j: int| 0 <= j < i + 1 implies s[j].0@ != name by {
                    if j > 0 {
                        assert(t[j - 1].0@ != name);
                        assert(s[j] == t[j - 1]);
                    }
                }
            },
            None => {
                assert forall|j: int| 0 <= j < s.len() implies s[j].0@ != name by {
                    if j > 0 {
                        assert(t[j - 1].0@ != name);
                        assert(s[j] == t[j - 1]);
                    }
                }
            },
        }
    }
}

proof fn lemma_preset_index_is(s: Seq<(String, Preset)>, name: Seq<char>, i: int)
    requires
        0 <= i < s.len(),
        s[i].0@ == name,
        forall|j: int| 0 <= j < i ==> s[j].0@ != name,
    ensures
        spec_preset_index(s, name) == Some(i),
{
    lemma_preset_index(s, name);
    match spec_preset_index(s, name) {
        Some(k) => {
            if k < i {
                assert(s[k].0@ != name);
            } else if k > i {
                assert(s[i].0@ != name);
            }
        },
        None => {
            assert(s[i].0@ != name);
        },
    }
}

impl Config {
    /// A configuration with nothing set.
    pub fn empty() -> (r: Config)
        ensures
            r.default_profile is None,
            r.default_region is None,
            r.default_groups@.len() == 0,
            r.default_time_range is None,
            r.default_limit is None,
            r.presets@.len() == 0,
    {
        Config {
            default_profile: None,
            default_region: None,
            default_groups: Vec::new(),
            default_time_range: None,
            default_limit: None,
            presets: Vec::new(),
        }
    }

    /// Look a preset up by name.
    pub fn get_preset(&self, name: &str) -> (r: Option<&Preset>)
        ensures
            match r {
                Some(p) => spec_preset_index(self.presets@, name@) matches Some(i) && *p
                    == self.presets@[i].1,
                None => spec_preset_index(self.presets@, name@) is None,
            },
    {
        let mut i: usize = 0;
        while i < self.presets.len()
            invariant
                i <= self.presets@.len(),
                forall|j: int| 0 <= j < i ==> self.presets@[j].0@ != name@,
            decreases self.presets@.len() - i,
        {
            if str_eq(self.presets[i].0.as_str(), name) {
                proof {
                    lemma_preset_index_is(self.presets@, name@, i as int);
                }
                return Some(&self.presets[i].1);
            }
            i = i + 1;
        }
        proof {
            lemma_preset_index(self.presets@, name@);
            if let Some(k) = spec_preset_index(self.presets@, name@) {
                assert(self.presets@[k].0@ != name@);
            }
        }
        None
    }

    /// All saved presets with their names, in file order.
    pub fn list_presets(&self) -> (r: &Vec<(String, Preset)>)
        ensures
            r == &self.presets,
    {
        &self.presets
    }

    /// A commented sample configuration file.
    pub fn create_sample() -> (r: String)
        ensures
            r@ == "# Log Hound Configuration\n# Place this file at ~/.log-hound.toml\n\n# Default AWS profile (optional)\n# default_profile = \"production\"\n\n# Default AWS region (optional)\n# default_region = \"ap-northeast-1\"\n\n# Default log groups when no -g is specified\ndefault_groups = []\n\n# Default time range\ndefault_time_range = \"1h\"\n\n# Default result limit\ndefault_limit = 100\n\n# Presets for quick access\n# Use with: log-hound search -p <preset_name> \"ERROR\"\n\n[presets.prod]\ndescription = \"Production environment\"\ngroups = [\"app/production\", \"api/production\"]\ntime_range = \"1h\"\nlimit = 200\n\n[presets.staging]\ndescription = \"Staging environment\"\ngroups = [\"app/staging\", \"api/staging\"]\nexclude = [\"health-check\", \"ping\"]\n\n[presets.all-regions]\ndescription = \"Search across all regions\"\ngroups = [\n    \"us-east-1:app/prod\",\n    \"ap-northeast-1:app/prod\",\n    \"eu-west-1:app/prod\"\n]\n"@,
    {
        "# Log Hound Configuration\n# Place this file at ~/.log-hound.toml\n\n# Default AWS profile (optional)\n# default_profile = \"production\"\n\n# Default AWS region (optional)\n# default_region = \"ap-northeast-1\"\n\n# Default log groups when no -g is specified\ndefault_groups = []\n\n# Default time range\ndefault_time_range = \"1h\"\n\n# Default result limit\ndefault_limit = 100\n\n# Presets for quick access\n# Use with: log-hound search -p <preset_name> \"ERROR\"\n\n[presets.prod]\ndescription = \"Production environment\"\ngroups = [\"app/production\", \"api/production\"]\ntime_range = \"1h\"\nlimit = 200\n\n[presets.staging]\ndescription = \"Staging environment\"\ngroups = [\"app/staging\", \"api/staging\"]\nexclude = [\"health-check\", \"ping\"]\n\n[presets.all-regions]\ndescription = \"Search across all regions\"\ngroups = [\n    \"us-east-1:app/prod\",\n    \"ap-northeast-1:app/prod\",\n    \"eu-west-1:app/prod\"\n]\n".to_owned()
    }
}

} // verus!
