//! Settings and the in-memory configuration: the one document that holds the
//! global settings and the alias registry.
//!
//! Persistence discipline: the in-memory state is mutated by `add` / `remove`
//! and must be written back to durable storage (see `crate::document`)
//! immediately after every successful mutation, before success is reported to
//! the user; the in-memory and on-disk states must never diverge once a
//! command has reported success. Concurrent external writers of the document
//! are not guarded against: two simultaneous invocations race with
//! last-write-wins semantics over the whole document.

use vstd::prelude::*;
use vstd::string::*;

use crate::aliases::{
    lemma_add_preserves_unique, registry_wf, spec_contains, spec_remove, Alias, Aliases, AliasView,
};
use crate::error::ShadowError;

verus! {

/// Mathematical model of the global settings.
pub ghost struct SettingsView {
    pub bin_path: Seq<char>,
    pub always_use_raw: bool,
}

/// Process-wide configuration: the default directory interception symlinks
/// are created in, and the global default for raw-mode behaviour (advisory;
/// the per-invocation raw flag always takes precedence).
#[derive(Debug)]
pub struct Settings {
    bin_path: String,
    always_use_raw: bool,
}

impl View for Settings {
    type V = SettingsView;

    closed spec fn view(&self) -> SettingsView {
        SettingsView { bin_path: self.bin_path@, always_use_raw: self.always_use_raw }
    }
}

impl Settings {
    /// Builds settings from the default symlink directory and the raw-mode
    /// default.
    pub fn new(bin_path: String, always_use_raw: bool) -> (r: Settings)
        ensures
            r@.bin_path == bin_path@,
            r@.always_use_raw == always_use_raw,
    {
        Settings { bin_path, always_use_raw }
    }

    /// The default directory interception symlinks are created in.
    pub fn bin_path(&self) -> (r: &str)
        ensures
            r@ == self@.bin_path,
    {
        self.bin_path.as_str()
    }

    /// The global default for raw-mode behaviour.
    pub fn always_use_raw(&self) -> (r: bool)
        ensures
            r == self@.always_use_raw,
    {
        self.always_use_raw
    }

    /// An exact copy of these settings.
    pub fn duplicate(&self) -> (r: Settings)
        ensures
            r@ == self@,
    {
        Settings { bin_path: self.bin_path.clone(), always_use_raw: self.always_use_raw }
    }
}

/// Mathematical model of the whole configuration document.
pub ghost struct ConfigView {
    pub settings: SettingsView,
    pub aliases: Seq<AliasView>,
}

/// The in-memory configuration: global settings plus the alias registry,
/// loaded and persisted together as one document.
#[derive(Debug)]
pub struct Config {
    settings: Settings,
    aliases: Aliases,
}

impl View for Config {
    type V = ConfigView;

    closed spec fn view(&self) -> ConfigView {
        ConfigView { settings: self.settings@, aliases: self.aliases@ }
    }
}

impl Config {
    /// A fresh configuration: the given settings and an empty registry.
    pub fn new(settings: Settings) -> (r: Config)
        ensures
            r@.settings == settings@,
            r@.aliases == Seq::<AliasView>::empty(),
    {
        Config { settings, aliases: Aliases::empty() }
    }

    /// Builds a configuration from settings and an existing registry.
    pub fn from_parts(settings: Settings, aliases: Aliases) -> (r: Config)
        ensures
            r@.settings == settings@,
            r@.aliases == aliases@,
    {
        Config { settings, aliases }
    }

    /// The global settings.
    pub fn settings(&self) -> (r: &Settings)
        ensures
            r@ == self@.settings,
    {
        &self.settings
    }

    /// The alias registry.
    pub fn aliases(&self) -> (r: &Aliases)
        ensures
            r@ == self@.aliases,
    {
        &self.aliases
    }

    /// Registers an alias: fails with `DuplicateCommand` when its name is
    /// already taken, otherwise appends it to the registry. The caller must
    /// persist the document before reporting success.
    pub fn add(&mut self, alias: Alias) -> (r: Result<(), ShadowError>)
        ensures
            spec_contains(old(self)@.aliases, alias@.name) ==> (r matches Err(e) && e matches
                ShadowError::DuplicateCommand(n) && n@ == alias@.name && final(self)@ == old(
                self,
            )@),
            !spec_contains(old(self)@.aliases, alias@.name) ==> (r is Ok && final(self)@.aliases
                == old(self)@.aliases.push(alias@) && final(self)@.settings == old(
                self,
            )@.settings),
            registry_wf(old(self)@.aliases) && alias@.name.len() > 0 && r is Ok ==> registry_wf(
                final(self)@.aliases,
            ),
    {
        if self.aliases.contains(alias.name()) {
            return Err(ShadowError::DuplicateCommand(alias.name().to_owned()));
        }
        proof {
            if registry_wf(self@.aliases) && alias@.name.len() > 0 {
                lemma_add_preserves_unique(self@.aliases, alias@);
                assert forall|i: int|
                    0 <= i < self@.aliases.push(alias@).len() implies #[trigger] self@.aliases.push(
                    alias@,
                )[i].name.len() > 0 by {
                    if i < self@.aliases.len() {
                        assert(self@.aliases.push(alias@)[i] == self@.aliases[i]);
                    } else {
                        assert(self@.aliases.push(alias@)[i] == alias@);
                    }
                }
            }
        }
        self.aliases.insert(alias);
        Ok(())
    }

    /// Unregisters the alias named `name`: fails with `AliasNotFound` when
    /// absent, otherwise removes the one matching entry. The caller must
    /// persist the document before reporting success.
    pub fn remove(&mut self, name: &str) -> (r: Result<(), ShadowError>)
        ensures
            !spec_contains(old(self)@.aliases, name@) ==> (r matches Err(e) && e matches
                ShadowError::AliasNotFound(n) && n@ == name@ && final(self)@ == old(self)@),
            spec_contains(old(self)@.aliases, name@) ==> (r is Ok && final(self)@.aliases
                == spec_remove(old(self)@.aliases, name@) && final(self)@.settings == old(
                self,
            )@.settings),
    {
        let found = self.aliases.remove(name);
        if found {
            Ok(())
        } else {
            proof {
                crate::aliases::lemma_remove_absent(old(self)@.aliases, name@);
            }
            Err(ShadowError::AliasNotFound(name.to_owned()))
        }
    }
}

} // verus!
