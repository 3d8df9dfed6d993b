//! The administrative commands: the decision logic of add, remove and list.
//!
//! Only the decisions live here. Performing filesystem effects (creating or
//! removing the symlink, persisting the document) and printing is the thin
//! outer layer's concern; it runs them in the order the contracts describe.

use vstd::prelude::*;
use vstd::string::*;

use crate::aliases::{sorted_by_name, Alias, AliasView};
use crate::config::{Config, Settings};
use crate::error::ShadowError;
use crate::text::{all_space, lemma_split_ws_empty, spec_split_ws, split_ws, str_eq, views_of};

verus! {

/// Request to register a new alias: shadow `name`, executing `command`
/// instead, with an optional description and an optional symlink-directory
/// override.
#[derive(Debug)]
pub struct Add {
    pub name: String,
    pub command: String,
    pub description: Option<String>,
    pub bin_path: Option<String>,
}

/// The bin-path override of an add request, normalized: an override equal to
/// the global default is dropped.
pub open spec fn spec_normalized_bin_path(req: Option<Seq<char>>, default: Seq<char>) -> Option<
    Seq<char>,
> {
    match req {
        Some(p) => if p == default {
            None
        } else {
            Some(p)
        },
        None => None,
    }
}

impl Add {
    /// Decision part of the add command: validates the request and builds the
    /// alias to register.
    ///
    /// An empty alias name is refused (the registry invariant demands
    /// non-empty names), and so is an empty or whitespace-only replacement
    /// command, before anything is persisted or linked. Whether the original
    /// command actually resolves on the system is deliberately not probed:
    /// shadowing a command that is not installed yet is allowed.
    pub fn to_alias(&self, settings: &Settings) -> (r: Result<Alias, ShadowError>)
        ensures
            self.name@.len() == 0 ==> (r matches Err(e) && e matches ShadowError::ConfigError(m)
                && m@ == "alias name must not be empty"@),
            self.name@.len() > 0 && all_space(self.command@) ==> (r matches Err(e)
                && e matches ShadowError::InvalidReplacement(c) && c@ == self.command@),
            self.name@.len() > 0 && !all_space(self.command@) ==> (r matches Ok(a)
                && a@.name == self.name@ && a@.command == self.command@ && a@.description == (
            match self.description {
                Some(ref d) => Some(d@),
                None => None::<Seq<char>>,
            }) && a@.bin_path == spec_normalized_bin_path(
                match self.bin_path {
                    Some(ref p) => Some(p@),
                    None => None::<Seq<char>>,
                },
                settings@.bin_path,
            )),
    {
        if self.name.as_str().unicode_len() == 0 {
            return Err(
                ShadowError::ConfigError(String::from_str("alias name must not be empty")),
            );
        }
        let words: Vec<String> = split_ws(self.command.as_str());
        proof {
            lemma_split_ws_empty(self.command@);
        }
        if words.len() == 0 {
            return Err(ShadowError::InvalidReplacement(self.command.clone()));
        }
        let bin_path: Option<String> = match &self.bin_path {
            Some(p) => {
                if str_eq(p.as_str(), settings.bin_path()) {
                    None
                } else {
                    Some(p.clone())
                }
            },
            None => None,
        };
        let description: Option<String> = match &self.description {
            Some(d) => Some(d.clone()),
            None => None,
        };
        Ok(Alias::new(self.name.clone(), self.command.clone(), description, bin_path))
    }
}

/// Request to unregister the alias named `name`; `bin_path` optionally names
/// the directory its symlink was created in.
#[derive(Debug)]
pub struct Remove {
    pub name: String,
    pub bin_path: Option<String>,
}

/// Request to list the configured aliases.
#[derive(Debug)]
pub struct List;

/// The line the listing prints for one alias.
pub open spec fn line_of_alias(a: AliasView) -> Seq<char> {
    a.name + " -> "@ + a.command + (match a.description {
        Some(d) => " ("@ + d + ")"@,
        None => Seq::<char>::empty(),
    }) + (match a.bin_path {
        Some(p) => " [in "@ + p + "]"@,
        None => Seq::<char>::empty(),
    })
}

/// Renders one alias as its listing line.
fn render_alias(alias: &Alias) -> (r: String)
    ensures
        r@ == line_of_alias(alias@),
{
    let mut line: String = String::from_str(alias.name()).concat(" -> ").concat(alias.command());
    match alias.description() {
        Some(d) => {
            line = line.concat(" (").concat(d).concat(")");
        },
        None => {},
    }
    match alias.bin_path() {
        Some(p) => {
            line = line.concat(" [in ").concat(p.as_str()).concat("]");
        },
        None => {},
    }
    proof {
        assert(line@ =~= line_of_alias(alias@));
    }
    line
}

impl List {
    /// Decision part of the list command: the exact lines to print, one per
    /// alias, sorted by name at presentation time independently of storage
    /// order — or the single placeholder line when no alias is configured.
    /// The listing always succeeds.
    pub fn render(&self, config: &Config) -> (lines: Vec<String>)
        ensures
            config@.aliases.len() == 0 ==> views_of(lines@) == seq!["No aliases configured"@],
            config@.aliases.len() > 0 ==> exists|s: Seq<AliasView>|
                s.to_multiset() == config@.aliases.to_multiset() && sorted_by_name(s) && views_of(
                    lines@,
                ) == s.map_values(|a: AliasView| line_of_alias(a)),
    {
        broadcast use vstd::seq_lib::group_to_multiset_ensures;

        let mut lines: Vec<String> = Vec::new();
        if config.aliases().is_empty() {
            lines.push(String::from_str("No aliases configured"));
            proof {
                assert(views_of(lines@) =~= seq!["No aliases configured"@]);
            }
            return lines;
        }
        let sorted: Vec<Alias> = config.aliases().sorted();
        let ghost witness = sorted@.map_values(|a: Alias| a@);
        let n: usize = sorted.len();
        let mut i: usize = 0;
        while i < n
            invariant
                0 <= i <= n,
                n == sorted@.len(),
                witness == sorted@.map_values(|a: Alias| a@),
                views_of(lines@) =~= witness.take(i as int).map_values(
                    |a: AliasView| line_of_alias(a),
                ),
            decreases n - i,
        {
            lines.push(render_alias(&sorted[i]));
            proof {
                assert(witness.take(i as int + 1) =~= witness.take(i as int).push(
                    witness[i as int],
                ));
                assert(witness.take(i as int + 1).map_values(|a: AliasView| line_of_alias(a))
                    =~= witness.take(i as int).map_values(|a: AliasView| line_of_alias(a)).push(
                    line_of_alias(witness[i as int]),
                ));
                assert(views_of(lines@) =~= witness.take(i as int + 1).map_values(
                    |a: AliasView| line_of_alias(a),
                ));
            }
            i = i + 1;
        }
        proof {
            assert(witness.take(n as int) =~= witness);
            if config@.aliases.len() > 0 {
                assert(witness.to_multiset() == config@.aliases.to_multiset() && sorted_by_name(
                    witness,
                ) && views_of(lines@) == witness.map_values(|a: AliasView| line_of_alias(a)));
            }
        }
        lines
    }
}

} // verus!
