//! The alias entity and the registry of configured aliases.
//!
//! The registry is an ordered collection: iteration order is insertion order.
//! Uniqueness of the `original` name is a registry-level invariant kept by the
//! add operation (see `Config::add`), not by the data type itself.

use vstd::prelude::*;
use vstd::string::*;

use crate::config::Settings;
use crate::error::ShadowError;
use crate::text::{all_space, lemma_split_ws_empty, lex_le, spec_split_ws, split_ws, views_of};
use vstd::multiset::Multiset;

verus! {

/// Mathematical model of one alias: the intercepted name, the replacement
/// command line, an optional description, and an optional override of the
/// symlink directory.
pub ghost struct AliasView {
    pub name: Seq<char>,
    pub command: Seq<char>,
    pub description: Option<Seq<char>>,
    pub bin_path: Option<Seq<char>>,
}

/// One shadowed command: invocations of `name` are redirected to the
/// replacement command line `command`.
#[derive(Debug)]
pub struct Alias {
    name: String,
    command: String,
    description: Option<String>,
    bin_path: Option<String>,
}

impl View for Alias {
    type V = AliasView;

    closed spec fn view(&self) -> AliasView {
        AliasView {
            name: self.name@,
            command: self.command@,
            description: match self.description {
                Some(ref d) => Some(d@),
                None => None,
            },
            bin_path: match self.bin_path {
                Some(ref p) => Some(p@),
                None => None,
            },
        }
    }
}

impl Alias {
    /// Builds an alias from its four fields.
    pub fn new(name: String, command: String, description: Option<String>, bin_path: Option<
        String,
    >) -> (r: Alias)
        ensures
            r@.name == name@,
            r@.command == command@,
            r@.description == (match description {
                Some(d) => Some(d@),
                None => None::<Seq<char>>,
            }),
            r@.bin_path == (match bin_path {
                Some(p) => Some(p@),
                None => None::<Seq<char>>,
            }),
    {
        Alias { name, command, description, bin_path }
    }

    /// The command name being intercepted; the unique key in the registry.
    pub fn name(&self) -> (r: &str)
        ensures
            r@ == self@.name,
    {
        self.name.as_str()
    }

    /// The replacement command line executed instead of the original.
    pub fn command(&self) -> (r: &str)
        ensures
            r@ == self@.command,
    {
        self.command.as_str()
    }

    /// The optional human-readable description.
    pub fn description(&self) -> (r: Option<&str>)
        ensures
            r is Some <==> self@.description is Some,
            r matches Some(d) ==> self@.description matches Some(dv) && d@ == dv,
    {
        match &self.description {
            Some(d) => Some(d.as_str()),
            None => None,
        }
    }

    /// The optional per-alias override of the symlink directory.
    pub fn bin_path(&self) -> (r: &Option<String>)
        ensures
            *r is Some <==> self@.bin_path is Some,
            *r matches Some(p) ==> self@.bin_path matches Some(pv) && p@ == pv,
    {
        &self.bin_path
    }

    /// An exact copy of this alias.
    pub fn duplicate(&self) -> (r: Alias)
        ensures
            r@ == self@,
    {
        Alias {
            name: self.name.clone(),
            command: self.command.clone(),
            description: match &self.description {
                Some(d) => Some(d.clone()),
                None => None,
            },
            bin_path: match &self.bin_path {
                Some(p) => Some(p.clone()),
                None => None,
            },
        }
    }

    /// The directory the interception symlink lives in: the per-alias
    /// override when set, else the global default from the settings.
    pub fn effective_bin_path<'a>(&'a self, settings: &'a Settings) -> (r: &'a str)
        ensures
            r@ == spec_effective_bin_path(self@, settings@),
    {
        match &self.bin_path {
            Some(p) => p.as_str(),
            None => settings.bin_path(),
        }
    }

    /// The full path of the interception symlink inside `bin_dir`.
    pub fn link_path(&self, bin_dir: &str) -> (r: String)
        ensures
            r@ == bin_dir@ + "/"@ + self@.name,
    {
        String::from_str(bin_dir).concat("/").concat(self.name.as_str())
    }
}

/// The effective symlink directory of an alias under given settings.
pub open spec fn spec_effective_bin_path(a: AliasView, s: crate::config::SettingsView) -> Seq<
    char,
> {
    match a.bin_path {
        Some(p) => p,
        None => s.bin_path,
    }
}

/// The ordered registry of aliases. Insertion order is kept; uniqueness of
/// names is maintained by `Config::add`.
#[derive(Debug)]
pub struct Aliases {
    entries: Vec<Alias>,
}

impl View for Aliases {
    type V = Seq<AliasView>;

    closed spec fn view(&self) -> Seq<AliasView> {
        self.entries@.map_values(|a: Alias| a@)
    }
}

/// The first alias named `name`, searching in insertion order.
pub open spec fn spec_find(s: Seq<AliasView>, name: Seq<char>) -> Option<AliasView>
    decreases s.len(),
{
    if s.len() == 0 {
        None
    } else if s[0].name == name {
        Some(s[0])
    } else {
        spec_find(s.skip(1), name)
    }
}

/// Whether some alias in `s` is named `name`.
pub open spec fn spec_contains(s: Seq<AliasView>, name: Seq<char>) -> bool {
    exists|i: int| 0 <= i < s.len() && s[i].name == name
}

/// `s` with the first alias named `name` removed (unchanged when absent).
pub open spec fn spec_remove(s: Seq<AliasView>, name: Seq<char>) -> Seq<AliasView>
    decreases s.len(),
{
    if s.len() == 0 {
        s
    } else if s[0].name == name {
        s.skip(1)
    } else {
        seq![s[0]] + spec_remove(s.skip(1), name)
    }
}

/// No two aliases share a name: the registry-level invariant.
pub open spec fn names_unique(s: Seq<AliasView>) -> bool {
    forall|i: int, j: int| 0 <= i < j < s.len() ==> s[i].name != s[j].name
}

/// The registry invariant: names are unique and non-empty. The add operation
/// establishes it, and loading a document enforces it.
pub open spec fn registry_wf(s: Seq<AliasView>) -> bool {
    names_unique(s) && (forall|i: int| 0 <= i < s.len() ==> #[trigger] s[i].name.len() > 0)
}

/// How many aliases in `s` are named `name`.
pub open spec fn count_named(s: Seq<AliasView>, name: Seq<char>) -> nat {
    s.filter(|a: AliasView| a.name == name).len()
}

/// `spec_find` succeeds exactly on contained names, and returns the entry at
/// the first matching index.
pub proof fn lemma_find_characterization(s: Seq<AliasView>, name: Seq<char>)
    ensures
        spec_find(s, name) is Some <==> spec_contains(s, name),
        spec_find(s, name) matches Some(a) ==> exists|i: int|
            0 <= i < s.len() && s[i] == a && s[i].name == name,
    decreases s.len(),
{
    if s.len() != 0 && s[0].name != name {
        lemma_find_characterization(s.skip(1), name);
        if spec_contains(s, name) {
            let i = choose|i: int| 0 <= i < s.len() && s[i].name == name;
            assert(s.skip(1)[i - 1] == s[i]);
        }
        if spec_contains(s.skip(1), name) {
            let i = choose|i: int| 0 <= i < s.skip(1).len() && s.skip(1)[i].name == name;
            assert(s[i + 1] == s.skip(1)[i]);
        }
        let fa = spec_find(s.skip(1), name);
        if fa is Some {
            let a = fa.unwrap();
            let i = choose|i: int|
                0 <= i < s.skip(1).len() && s.skip(1)[i] == a && s.skip(1)[i].name == name;
            assert(s[i + 1] == s.skip(1)[i]);
        }
    }
}

/// If the first `m` entries are not named `name` and entry `m` is, then
/// `spec_find` returns entry `m`.
proof fn lemma_find_at_index(s: Seq<AliasView>, name: Seq<char>, m: int)
    requires
        0 <= m < s.len(),
        forall|k: int| 0 <= k < m ==> s[k].name != name,
        s[m].name == name,
    ensures
        spec_find(s, name) == Some(s[m]),
    decreases m,
{
    if m > 0 {
        lemma_find_at_index(s.skip(1), name, m - 1);
        assert forall|k: int| 0 <= k < m - 1 implies s.skip(1)[k].name != name by {
            assert(s.skip(1)[k] == s[k + 1]);
        }
        assert(s.skip(1)[m - 1] == s[m]);
    }
}

/// If no entry is named `name`, `spec_find` fails.
proof fn lemma_find_none(s: Seq<AliasView>, name: Seq<char>)
    requires
        forall|k: int| 0 <= k < s.len() ==> s[k].name != name,
    ensures
        spec_find(s, name) is None,
    decreases s.len(),
{
    if s.len() != 0 {
        assert forall|k: int| 0 <= k < s.skip(1).len() implies s.skip(1)[k].name != name by {
            assert(s.skip(1)[k] == s[k + 1]);
        }
        lemma_find_none(s.skip(1), name);
    }
}

impl Aliases {
    /// The empty registry.
    pub fn empty() -> (r: Aliases)
        ensures
            r@ == Seq::<AliasView>::empty(),
    {
        let r = Aliases { entries: Vec::new() };
        proof {
            assert(r@ =~= Seq::<AliasView>::empty());
        }
        r
    }

    /// Looks up the alias registered under `original`, or reports
    /// `AliasNotFound`.
    pub fn find(&self, original: &str) -> (r: Result<&Alias, ShadowError>)
        ensures
            spec_contains(self@, original@) ==> (r matches Ok(a) && Some(a@) == spec_find(
                self@,
                original@,
            )),
            !spec_contains(self@, original@) ==> (r matches Err(e) && e matches
                ShadowError::AliasNotFound(n) && n@ == original@),
    {
        let n: usize = self.entries.len();
        let mut i: usize = 0;
        while i < n
            invariant
                0 <= i <= n,
                n == self.entries.len(),
                forall|k: int| 0 <= k < i ==> self@[k].name != original@,
            decreases n - i,
        {
            if crate::text::str_eq(self.entries[i].name(), original) {
                proof {
                    lemma_find_at_index(self@, original@, i as int);
                }
                return Ok(&self.entries[i]);
            }
            i = i + 1;
        }
        proof {
            lemma_find_none(self@, original@);
            lemma_find_characterization(self@, original@);
        }
        Err(ShadowError::AliasNotFound(original.to_owned()))
    }

    /// Whether an alias is registered under `original`.
    pub fn contains(&self, original: &str) -> (r: bool)
        ensures
            r == spec_contains(self@, original@),
    {
        match self.find(original) {
            Ok(_) => true,
            Err(_) => false,
        }
    }

    /// Whether the registry holds no alias at all.
    pub fn is_empty(&self) -> (r: bool)
        ensures
            r == (self@.len() == 0),
    {
        self.entries.len() == 0
    }

    /// The aliases, in insertion order.
    pub fn values(&self) -> (r: &Vec<Alias>)
        ensures
            r@.map_values(|a: Alias| a@) == self@,
    {
        &self.entries
    }

    /// Mutable access to the aliases, in insertion order.
    pub fn values_mut(&mut self) -> (r: &mut Vec<Alias>)
        ensures
            old(self)@ == r@.map_values(|a: Alias| a@),
            final(self)@ == final(r)@.map_values(|a: Alias| a@),
    {
        &mut self.entries
    }

    /// Appends an alias. Uniqueness of names is the caller's concern; see
    /// `Config::add`.
    pub fn insert(&mut self, alias: Alias)
        ensures
            final(self)@ == old(self)@.push(alias@),
    {
        let ghost before = self@;
        self.entries.push(alias);
        proof {
            assert(self@ =~= before.push(alias@));
        }
    }

    /// Removes the first alias named `original`; reports whether one existed.
    pub fn remove(&mut self, original: &str) -> (found: bool)
        ensures
            found == spec_contains(old(self)@, original@),
            final(self)@ == spec_remove(old(self)@, original@),
    {
        let n: usize = self.entries.len();
        let mut i: usize = 0;
        while i < n
            invariant
                0 <= i <= n,
                n == self.entries.len(),
                self@ == old(self)@,
                forall|k: int| 0 <= k < i ==> self@[k].name != original@,
            decreases n - i,
        {
            if crate::text::str_eq(self.entries[i].name(), original) {
                let ghost before = self@;
                let ghost m = i as int;
                self.entries.remove(i);
                proof {
                    assert(self@ =~= before.remove(m));
                    lemma_remove_at_index(before, original@, m);
                }
                return true;
            }
            i = i + 1;
        }
        proof {
            lemma_remove_absent(self@, original@);
        }
        false
    }
}

/// If the first `m` entries are not named `name` and entry `m` is, removing
/// `name` removes exactly entry `m`.
proof fn lemma_remove_at_index(s: Seq<AliasView>, name: Seq<char>, m: int)
    requires
        0 <= m < s.len(),
        forall|k: int| 0 <= k < m ==> s[k].name != name,
        s[m].name == name,
    ensures
        spec_remove(s, name) == s.remove(m),
        spec_contains(s, name),
    decreases m,
{
    if m == 0 {
        assert(s.remove(0) =~= s.skip(1));
    } else {
        lemma_remove_at_index(s.skip(1), name, m - 1);
        assert forall|k: int| 0 <= k < m - 1 implies s.skip(1)[k].name != name by {
            assert(s.skip(1)[k] == s[k + 1]);
        }
        assert(s.skip(1)[m - 1] == s[m]);
        assert(seq![s[0]] + s.skip(1).remove(m - 1) =~= s.remove(m));
    }
}

/// How `spec_find` behaves on an extended registry.
proof fn lemma_find_push(s: Seq<AliasView>, a: AliasView, name: Seq<char>)
    ensures
        spec_find(s.push(a), name) == (if spec_find(s, name) is Some {
            spec_find(s, name)
        } else if a.name == name {
            Some(a)
        } else {
            None
        }),
    decreases s.len(),
{
    reveal_with_fuel(spec_find, 3);
    if s.len() == 0 {
        assert(s.push(a)[0] == a);
        assert(s.push(a).skip(1) =~= Seq::<AliasView>::empty());
    } else {
        assert(s.push(a)[0] == s[0]);
        assert(s.push(a).skip(1) =~= s.skip(1).push(a));
        lemma_find_push(s.skip(1), a, name);
    }
}

/// Law: registering a fresh alias and then looking its name up returns an
/// alias whose fields match exactly what was added.
pub proof fn lemma_add_then_find(s: Seq<AliasView>, a: AliasView)
    requires
        !spec_contains(s, a.name),
    ensures
        spec_find(s.push(a), a.name) == Some(a),
{
    lemma_find_characterization(s, a.name);
    lemma_find_push(s, a, a.name);
}

/// No alias of `s` is counted for an absent name.
proof fn lemma_count_absent(s: Seq<AliasView>, name: Seq<char>)
    requires
        forall|k: int| 0 <= k < s.len() ==> s[k].name != name,
    ensures
        count_named(s, name) == 0,
    decreases s.len(),
{
    reveal_with_fuel(Seq::filter, 2);
    if s.len() != 0 {
        assert forall|k: int| 0 <= k < s.drop_last().len() implies s.drop_last()[k].name != name by {
            assert(s.drop_last()[k] == s[k]);
        }
        lemma_count_absent(s.drop_last(), name);
        assert(s.filter(|x: AliasView| x.name == name) == s.drop_last().filter(
            |x: AliasView| x.name == name,
        ));
    }
}

/// Law: adding is not idempotent. After registering a fresh alias its name is
/// taken, so a second add of the same name is refused (see `Config::add`),
/// and the registry holds exactly one entry under that name.
pub proof fn lemma_add_not_idempotent(s: Seq<AliasView>, a: AliasView)
    requires
        !spec_contains(s, a.name),
    ensures
        spec_contains(s.push(a), a.name),
        count_named(s.push(a), a.name) == 1,
{
    assert(s.push(a)[s.len() as int] == a);
    lemma_count_absent(s, a.name);
    reveal_with_fuel(Seq::filter, 2);
    assert(s.push(a).drop_last() =~= s);
    assert(s.push(a).last() == a);
    assert(s.push(a).filter(|x: AliasView| x.name == a.name) == s.filter(
        |x: AliasView| x.name == a.name,
    ).push(a));
}

/// Adding a fresh name keeps the registry's names unique.
pub proof fn lemma_add_preserves_unique(s: Seq<AliasView>, a: AliasView)
    requires
        names_unique(s),
        !spec_contains(s, a.name),
    ensures
        names_unique(s.push(a)),
{
    assert forall|i: int, j: int| 0 <= i < j < s.push(a).len() implies s.push(a)[i].name != s.push(
        a,
    )[j].name by {
        if j < s.len() {
            assert(s.push(a)[i] == s[i] && s.push(a)[j] == s[j]);
        } else {
            assert(s.push(a)[j] == a);
            assert(s.push(a)[i] == s[i]);
        }
    }
}

/// Law: after removing a name from a registry with unique names, looking that
/// name up fails (the engine then reports `AliasNotFound`).
pub proof fn lemma_remove_then_find(s: Seq<AliasView>, name: Seq<char>)
    requires
        names_unique(s),
    ensures
        spec_find(spec_remove(s, name), name) is None,
    decreases s.len(),
{
    if s.len() == 0 {
    } else if s[0].name == name {
        assert forall|k: int| 0 <= k < s.skip(1).len() implies s.skip(1)[k].name != name by {
            assert(s.skip(1)[k] == s[k + 1]);
        }
        lemma_find_none(s.skip(1), name);
    } else {
        assert forall|i: int, j: int|
            0 <= i < j < s.skip(1).len() implies s.skip(1)[i].name != s.skip(1)[j].name by {
            assert(s.skip(1)[i] == s[i + 1] && s.skip(1)[j] == s[j + 1]);
        }
        lemma_remove_then_find(s.skip(1), name);
        let rec = spec_remove(s.skip(1), name);
        let whole = seq![s[0]] + rec;
        assert(whole[0] == s[0]);
        assert(whole.skip(1) =~= rec);
    }
}

/// Removing an absent name changes nothing.
pub proof fn lemma_remove_absent(s: Seq<AliasView>, name: Seq<char>)
    requires
        forall|k: int| 0 <= k < s.len() ==> s[k].name != name,
    ensures
        spec_remove(s, name) == s,
        !spec_contains(s, name),
    decreases s.len(),
{
    if s.len() != 0 {
        assert forall|k: int| 0 <= k < s.skip(1).len() implies s.skip(1)[k].name != name by {
            assert(s.skip(1)[k] == s[k + 1]);
        }
        lemma_remove_absent(s.skip(1), name);
        assert(seq![s[0]] + s.skip(1) =~= s);
    }
}

/// The aliases stand in non-descending name order.
pub open spec fn sorted_by_name(s: Seq<AliasView>) -> bool {
    forall|i: int, j: int| 0 <= i < j < s.len() ==> lex_le(s[i].name, s[j].name)
}

impl Aliases {
    /// The aliases ordered by name: the deterministic presentation order of
    /// the listing, independent of storage order.
    pub fn sorted(&self) -> (r: Vec<Alias>)
        ensures
            r@.map_values(|a: Alias| a@).to_multiset() == self@.to_multiset(),
            sorted_by_name(r@.map_values(|a: Alias| a@)),
    {
        broadcast use vstd::seq_lib::group_to_multiset_ensures;

        let n: usize = self.entries.len();
        let mut out: Vec<Alias> = Vec::new();
        let mut idx: usize = 0;
        proof {
            assert(out@.map_values(|a: Alias| a@) =~= Seq::<AliasView>::empty());
            assert(self@.take(0) =~= Seq::<AliasView>::empty());
            assert(Seq::<AliasView>::empty().to_multiset() =~= Multiset::<AliasView>::empty());
        }
        while idx < n
            invariant
                0 <= idx <= n,
                n == self.entries.len(),
                out@.map_values(|a: Alias| a@).to_multiset() == self@.take(
                    idx as int,
                ).to_multiset(),
                sorted_by_name(out@.map_values(|a: Alias| a@)),
            decreases n - idx,
        {
            broadcast use vstd::seq_lib::group_to_multiset_ensures;

            let a: Alias = self.entries[idx].duplicate();
            let ghost olds = out@.map_values(|x: Alias| x@);
            let m: usize = out.len();
            let mut j: usize = 0;
            loop
                invariant_except_break
                    0 <= j <= m,
                    m == out@.len(),
                    out@.map_values(|x: Alias| x@) == olds,
                    forall|k: int| 0 <= k < j ==> lex_le(olds[k].name, a@.name),
                ensures
                    0 <= j <= m,
                    out@.map_values(|x: Alias| x@) == olds,
                    forall|k: int| 0 <= k < j ==> lex_le(olds[k].name, a@.name),
                    j < m ==> lex_le(a@.name, olds[j as int].name),
                decreases m - j,
            {
                if j == m {
                    break;
                }
                if crate::text::str_le(out[j].name(), a.name()) {
                    j = j + 1;
                } else {
                    proof {
                        crate::text::lemma_lex_le_total(a@.name, olds[j as int].name);
                    }
                    break;
                }
            }
            let ghost oldms = olds.to_multiset();
            out.insert(j, a);
            proof {
                let news = out@.map_values(|x: Alias| x@);
                assert(news =~= olds.insert(j as int, a@));
                assert(news[j as int] == a@);
                // The new sequence is still sorted by name.
                assert forall|i2: int, j2: int|
                    0 <= i2 < j2 < news.len() implies lex_le(news[i2].name, news[j2].name) by {
                    if j2 < j {
                        assert(news[i2] == olds[i2] && news[j2] == olds[j2]);
                    } else if i2 > j {
                        assert(news[i2] == olds[i2 - 1] && news[j2] == olds[j2 - 1]);
                    } else if i2 == j && j2 > j {
                        assert(news[j2] == olds[j2 - 1]);
                        if j2 - 1 == j {
                            assert(lex_le(a@.name, olds[j as int].name));
                        } else {
                            crate::text::lemma_lex_le_trans(
                                a@.name,
                                olds[j as int].name,
                                olds[j2 - 1].name,
                            );
                        }
                    } else if i2 < j && j2 == j {
                        assert(news[i2] == olds[i2]);
                    } else {
                        // i2 < j < j2: both sides are old entries around the
                        // insertion point
                        assert(news[i2] == olds[i2] && news[j2] == olds[j2 - 1]);
                        if i2 == j2 - 1 {
                            crate::text::lemma_lex_le_refl(olds[i2].name);
                        }
                    }
                }
                // The new sequence holds the old entries plus the new one.
                assert(news.remove(j as int) =~= olds);
                assert(news.to_multiset().remove(a@) =~= oldms);
                assert(news.contains(a@));
                assert(news.to_multiset() =~= oldms.insert(a@));
                assert(self@.take(idx as int + 1) =~= self@.take(idx as int).push(self@[idx as int]));
                assert(self@[idx as int] == a@);
            }
            idx = idx + 1;
        }
        proof {
            assert(self@.take(n as int) =~= self@);
        }
        out
    }
}

/// Mathematical model of a planned child-process invocation.
pub ghost struct InvocationView {
    pub program: Seq<char>,
    pub args: Seq<Seq<char>>,
}

/// A fully composed child-process invocation: the program to spawn and its
/// argument list, in order. Planning an invocation is pure; actually spawning
/// it is the caller's concern.
#[derive(Debug)]
pub struct Invocation {
    program: String,
    args: Vec<String>,
}

impl View for Invocation {
    type V = InvocationView;

    closed spec fn view(&self) -> InvocationView {
        InvocationView { program: self.program@, args: views_of(self.args@) }
    }
}

impl Invocation {
    /// The program to spawn.
    pub fn program(&self) -> (r: &str)
        ensures
            r@ == self@.program,
    {
        self.program.as_str()
    }

    /// The arguments to hand to the program, in order.
    pub fn args(&self) -> (r: &Vec<String>)
        ensures
            views_of(r@) == self@.args,
    {
        &self.args
    }
}

impl Alias {
    /// Plans what to execute for an invocation of this alias with the given
    /// (already raw-stripped) arguments.
    ///
    /// In raw mode the original command name itself is executed with the
    /// arguments passed through unmodified: the escape hatch that bypasses
    /// the shadow. Otherwise the replacement command line is split on
    /// whitespace into a program and its leading arguments, and the leading
    /// arguments are concatenated with the given ones, leading-args-first. An
    /// empty or whitespace-only replacement is rejected as
    /// `InvalidReplacement`.
    pub fn invocation(&self, args: &Vec<String>, raw: bool) -> (r: Result<
        Invocation,
        ShadowError,
    >)
        ensures
            raw ==> (r matches Ok(inv) && inv@.program == self@.name && inv@.args == views_of(
                args@,
            )),
            !raw && all_space(self@.command) ==> (r matches Err(e) && e matches
                ShadowError::InvalidReplacement(c) && c@ == self@.command),
            !raw && !all_space(self@.command) ==> (r matches Ok(inv) && inv@.program
                == spec_split_ws(self@.command)[0] && inv@.args == spec_split_ws(
                self@.command,
            ).skip(1) + views_of(args@)),
    {
        if raw {
            return Ok(
                Invocation {
                    program: self.name.clone(),
                    args: crate::text::clone_strings(args),
                },
            );
        }
        let parts: Vec<String> = split_ws(self.command.as_str());
        proof {
            lemma_split_ws_empty(self@.command);
        }
        if parts.len() == 0 {
            return Err(ShadowError::InvalidReplacement(self.command.clone()));
        }
        let program: String = parts[0].clone();
        let mut out: Vec<String> = Vec::new();
        let np: usize = parts.len();
        let mut i: usize = 1;
        while i < np
            invariant
                1 <= i <= np,
                np == parts@.len(),
                out@ =~= parts@.subrange(1, i as int),
            decreases np - i,
        {
            out.push(parts[i].clone());
            i = i + 1;
        }
        let na: usize = args.len();
        let mut j: usize = 0;
        while j < na
            invariant
                0 <= j <= na,
                na == args@.len(),
                np == parts@.len(),
                out@ =~= parts@.subrange(1, np as int) + args@.take(j as int),
            decreases na - j,
        {
            out.push(args[j].clone());
            j = j + 1;
        }
        proof {
            assert(out@ =~= parts@.subrange(1, np as int) + args@);
            assert(views_of(out@) =~= views_of(parts@).skip(1) + views_of(args@));
            assert(views_of(parts@)[0] == parts@[0]@);
        }
        Ok(Invocation { program, args: out })
    }
}

} // verus!
