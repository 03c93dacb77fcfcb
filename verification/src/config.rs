//! Gameplay constants, gathered in one place and overridable by header pragmas.

use vstd::prelude::*;
use crate::text::str_is;

verus! {

/// Runtime configuration. Defaults are the normative constants of the language.
#[derive(Debug, Clone, Copy, PartialEq, Eq)]
pub struct Config {
    /// AP budget per turn. Default 6.
    pub max_pa: i64,
    /// MP budget per turn. Default 3.
    pub max_pm: i64,
    /// Ban threshold. Default 80.
    pub seuil_ban: u32,
    /// Suspicion penalty on a collision in the window. Default 7.
    pub penalite: u32,
    /// Suspicion decay when an action does not collide. Default 3.
    pub decay: u32,
    /// Size of the sliding window of observable actions. Default 8.
    pub fenetre: usize,
    /// Width of a delay bucket, in ms. Default 25.
    pub bucket_ms: u64,
    /// AP cost of an assignment. Default 1.
    pub assign_pa: i64,
    /// AP cost of an `up`. Default 1.
    pub up_pa: i64,
    /// RNG seed; `None` draws one from the system.
    pub seed: Option<u64>,
    /// Seed of the patch drift that renumbers unpinned tags. Default 0.
    pub patch_seed: u64,
}

/// The normative defaults.
pub open spec fn default_config() -> Config {
    Config {
        max_pa: 6,
        max_pm: 3,
        seuil_ban: 80,
        penalite: 7,
        decay: 3,
        fenetre: 8,
        bucket_ms: 25,
        assign_pa: 1,
        up_pa: 1,
        seed: None,
        patch_seed: 0,
    }
}

/// The configuration after a pragma `#key value`; `None` when the key is unknown.
pub open spec fn config_after(c: Config, key: Seq<char>, value: i64) -> Option<Config> {
    if key == "max_pa"@ {
        Some(Config { max_pa: value, ..c })
    } else if key == "max_pm"@ {
        Some(Config { max_pm: value, ..c })
    } else if key == "seuil_ban"@ {
        Some(Config { seuil_ban: value as u32, ..c })
    } else if key == "penalite"@ {
        Some(Config { penalite: value as u32, ..c })
    } else if key == "decay"@ {
        Some(Config { decay: value as u32, ..c })
    } else if key == "fenetre"@ {
        Some(Config { fenetre: value as usize, ..c })
    } else if key == "bucket_ms"@ {
        Some(Config { bucket_ms: value as u64, ..c })
    } else if key == "seed"@ {
        Some(Config { seed: Some(value as u64), ..c })
    } else {
        None
    }
}

impl Default for Config {
    fn default() -> (c: Config)
        ensures
            c == default_config(),
    {
        Config {
            max_pa: 6,
            max_pm: 3,
            seuil_ban: 80,
            penalite: 7,
            decay: 3,
            fenetre: 8,
            bucket_ms: 25,
            assign_pa: 1,
            up_pa: 1,
            seed: None,
            patch_seed: 0,
        }
    }
}

impl Config {
    /// Applies a pragma override `#key value`. Returns `false`, leaving the configuration
    /// unchanged, when the key is unknown.
    pub fn apply(&mut self, key: &str, value: i64) -> (known: bool)
        ensures
            known == config_after(*old(self), key@, value).is_some(),
            known ==> *final(self) == config_after(*old(self), key@, value).unwrap(),
            !known ==> *final(self) == *old(self),
    {
        if str_is(key, "max_pa") {
            self.max_pa = value;
        } else if str_is(key, "max_pm") {
            self.max_pm = value;
        } else if str_is(key, "seuil_ban") {
            self.seuil_ban = value as u32;
        } else if str_is(key, "penalite") {
            self.penalite = value as u32;
        } else if str_is(key, "decay") {
            self.decay = value as u32;
        } else if str_is(key, "fenetre") {
            self.fenetre = value as usize;
        } else if str_is(key, "bucket_ms") {
            self.bucket_ms = value as u64;
        } else if str_is(key, "seed") {
            self.seed = Some(value as u64);
        } else {
            return false;
        }
        true
    }
}

} // verus!
