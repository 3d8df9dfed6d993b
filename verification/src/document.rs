//! The persisted configuration document: a small line-oriented text format
//! holding the settings and the alias registry, with a verified encoder and
//! decoder and a proved round trip.
//!
//! Reading is tolerant, as the document interface demands: unknown lines
//! (comments, foreign keys, foreign tables) are skipped, absent settings
//! take their documented defaults, and the fields of an alias entry may come
//! in any order. A line that names a known key with an ill-formed value is a
//! configuration error, as is an alias entry without a name or replacement,
//! and so is a registry that breaks the invariant (duplicate or empty
//! names). Values are escaped, so every string round-trips.

use vstd::prelude::*;
use vstd::string::*;

use crate::aliases::{registry_wf, AliasView};
use crate::config::{Config, ConfigView, Settings, SettingsView};
use crate::error::ShadowError;
use crate::text::views_of;

verus! {

/// The newline character terminating every line of the document.
pub open spec fn nl() -> Seq<char> {
    seq!['\n']
}

/// A sequence free of newline characters: such a value survives the line
/// orientation of the document unchanged.
pub open spec fn no_newline(s: Seq<char>) -> bool {
    forall|i: int| 0 <= i < s.len() ==> s[i] != '\n'
}

/// The header line opening the settings table.
pub open spec fn h_settings() -> Seq<char> {
    "[settings]"@
}

/// The header line opening one alias entry.
pub open spec fn h_alias() -> Seq<char> {
    "[[aliases]]"@
}

/// Key of the line holding a symlink directory, up to the opening quote.
pub open spec fn k_bin() -> Seq<char> {
    "bin_path = "@
}

/// Key of the raw-mode default line.
pub open spec fn k_raw() -> Seq<char> {
    "always_use_raw = "@
}

/// Key of the line holding an alias's intercepted name.
pub open spec fn k_original() -> Seq<char> {
    "original = "@
}

/// Key of the line holding an alias's replacement command line.
pub open spec fn k_replacement() -> Seq<char> {
    "replacement = "@
}

/// Key of the line holding an alias's description.
pub open spec fn k_description() -> Seq<char> {
    "description = "@
}

/// Prefix of a symlink-directory line, opening quote included.
pub open spec fn p_bin_path() -> Seq<char> {
    "bin_path = \""@
}

/// Prefix of an intercepted-name line, opening quote included.
pub open spec fn p_original() -> Seq<char> {
    "original = \""@
}

/// Prefix of a replacement line, opening quote included.
pub open spec fn p_replacement() -> Seq<char> {
    "replacement = \""@
}

/// Prefix of a description line, opening quote included.
pub open spec fn p_description() -> Seq<char> {
    "description = \""@
}

/// The settings line for a raw-mode default of true.
pub open spec fn l_raw_true() -> Seq<char> {
    "always_use_raw = true"@
}

/// The settings line for a raw-mode default of false.
pub open spec fn l_raw_false() -> Seq<char> {
    "always_use_raw = false"@
}

/// A quoted key-value line: prefix (with its opening quote), payload,
/// closing quote.
pub open spec fn kv(p: Seq<char>, v: Seq<char>) -> Seq<char> {
    p + v + seq!['"']
}

/// The characters of `t` before its first newline.
pub open spec fn line_of(t: Seq<char>) -> Seq<char>
    decreases t.len(),
{
    if t.len() == 0 {
        Seq::<char>::empty()
    } else if t[0] == '\n' {
        Seq::<char>::empty()
    } else {
        seq![t[0]] + line_of(t.skip(1))
    }
}

/// The characters of `t` after its first newline (empty when there is none).
pub open spec fn rest_after(t: Seq<char>) -> Seq<char>
    decreases t.len(),
{
    if t.len() == 0 {
        Seq::<char>::empty()
    } else if t[0] == '\n' {
        t.skip(1)
    } else {
        rest_after(t.skip(1))
    }
}

proof fn lemma_rest_after_shorter(t: Seq<char>)
    ensures
        rest_after(t).len() <= t.len(),
        t.len() > 0 ==> rest_after(t).len() < t.len(),
    decreases t.len(),
{
    if t.len() > 0 && t[0] != '\n' {
        lemma_rest_after_shorter(t.skip(1));
    }
}

/// The lines of `t`, splitting on newlines; a trailing newline closes the
/// last line, and a final unterminated line still counts.
pub open spec fn spec_lines(t: Seq<char>) -> Seq<Seq<char>>
    decreases t.len(),
    when t.len() >= 0
    via spec_lines_decreases
{
    if t.len() == 0 {
        Seq::<Seq<char>>::empty()
    } else {
        seq![line_of(t)] + spec_lines(rest_after(t))
    }
}

#[via_fn]
proof fn spec_lines_decreases(t: Seq<char>) {
    lemma_rest_after_shorter(t);
}

/// Joins lines into a text, terminating every line with a newline.
pub open spec fn join(ls: Seq<Seq<char>>) -> Seq<char>
    decreases ls.len(),
{
    if ls.len() == 0 {
        Seq::<char>::empty()
    } else {
        ls[0] + nl() + join(ls.skip(1))
    }
}

/// `join` distributes over concatenation of line lists.
proof fn lemma_join_concat(a: Seq<Seq<char>>, b: Seq<Seq<char>>)
    ensures
        join(a + b) == join(a) + join(b),
    decreases a.len(),
{
    if a.len() == 0 {
        assert(a + b =~= b);
        assert(join(a) + join(b) =~= join(b));
    } else {
        assert((a + b)[0] == a[0]);
        assert((a + b).skip(1) =~= a.skip(1) + b);
        lemma_join_concat(a.skip(1), b);
        assert(a[0] + nl() + (join(a.skip(1)) + join(b)) =~= (a[0] + nl() + join(a.skip(1)))
            + join(b));
    }
}

/// Splitting the text a newline-free line opens recovers that line.
proof fn lemma_line_of_concat(l: Seq<char>, r: Seq<char>)
    requires
        no_newline(l),
    ensures
        line_of(l + nl() + r) == l,
        rest_after(l + nl() + r) == r,
    decreases l.len(),
{
    let t = l + nl() + r;
    if l.len() == 0 {
        assert(t[0] == '\n');
        assert(t.skip(1) =~= r);
    } else {
        assert(t[0] == l[0]);
        assert(t[0] != '\n');
        assert forall|i: int| 0 <= i < l.skip(1).len() implies l.skip(1)[i] != '\n' by {
            assert(l.skip(1)[i] == l[i + 1]);
        }
        assert(t.skip(1) =~= l.skip(1) + nl() + r);
        lemma_line_of_concat(l.skip(1), r);
        assert(seq![t[0]] + l.skip(1) =~= l);
    }
}

/// Splitting the join of newline-free lines recovers the lines.
proof fn lemma_lines_join(ls: Seq<Seq<char>>)
    requires
        forall|i: int| 0 <= i < ls.len() ==> no_newline(#[trigger] ls[i]),
    ensures
        spec_lines(join(ls)) == ls,
    decreases ls.len(),
{
    if ls.len() == 0 {
    } else {
        assert(no_newline(ls[0]));
        lemma_line_of_concat(ls[0], join(ls.skip(1)));
        assert(join(ls).len() > 0) by {
            assert(join(ls).len() == ls[0].len() + 1 + join(ls.skip(1)).len());
        }
        assert forall|i: int| 0 <= i < ls.skip(1).len() implies no_newline(
            #[trigger] ls.skip(1)[i],
        ) by {
            assert(ls.skip(1)[i] == ls[i + 1]);
        }
        lemma_lines_join(ls.skip(1));
        assert(seq![line_of(join(ls))] + spec_lines(rest_after(join(ls))) =~= ls);
    }
}

proof fn lemma_literal_shapes()
    ensures
        no_newline(h_settings()),
        no_newline(h_alias()),
        no_newline(p_bin_path()),
        no_newline(p_original()),
        no_newline(p_replacement()),
        no_newline(p_description()),
        no_newline(l_raw_true()),
        no_newline(l_raw_false()),
        h_settings().len() == 10,
        h_alias().len() == 11,
        k_bin().len() == 11,
        k_raw().len() == 17,
        k_original().len() == 11,
        k_replacement().len() == 14,
        k_description().len() == 14,
        l_raw_true().len() == 21,
        l_raw_false().len() == 22,
        p_bin_path() == k_bin() + seq!['"'],
        p_original() == k_original() + seq!['"'],
        p_replacement() == k_replacement() + seq!['"'],
        p_description() == k_description() + seq!['"'],
        h_alias()[0] == '[',
        k_bin()[0] == 'b',
        k_raw()[0] == 'a',
        k_original()[0] == 'o',
        k_replacement()[0] == 'r',
        k_description()[0] == 'd',
        l_raw_true()[0] == 'a',
        l_raw_true() != l_raw_false(),
        l_raw_true().subrange(0, 17) == k_raw(),
        l_raw_false().subrange(0, 17) == k_raw(),
{
    reveal_strlit("[settings]");
    reveal_strlit("[[aliases]]");
    reveal_strlit("bin_path = ");
    reveal_strlit("always_use_raw = ");
    reveal_strlit("original = ");
    reveal_strlit("replacement = ");
    reveal_strlit("description = ");
    reveal_strlit("bin_path = \"");
    reveal_strlit("original = \"");
    reveal_strlit("replacement = \"");
    reveal_strlit("description = \"");
    reveal_strlit("always_use_raw = true");
    reveal_strlit("always_use_raw = false");
    assert(l_raw_true().len() != l_raw_false().len());
    assert(p_bin_path() =~= k_bin() + seq!['"']);
    assert(p_original() =~= k_original() + seq!['"']);
    assert(p_replacement() =~= k_replacement() + seq!['"']);
    assert(p_description() =~= k_description() + seq!['"']);
    assert(l_raw_true().subrange(0, 17) =~= k_raw());
    assert(l_raw_false().subrange(0, 17) =~= k_raw());
}

/// The escaping of a value for one document line: a newline becomes a
/// backslash-n pair and a backslash doubles, so no value can break the line
/// orientation.
pub open spec fn esc(v: Seq<char>) -> Seq<char>
    decreases v.len(),
{
    if v.len() == 0 {
        Seq::<char>::empty()
    } else if v[0] == '\n' {
        seq!['\\', 'n'] + esc(v.skip(1))
    } else if v[0] == '\\' {
        seq!['\\', '\\'] + esc(v.skip(1))
    } else {
        seq![v[0]] + esc(v.skip(1))
    }
}

/// The inverse reading of an escaped payload; `None` on a dangling or
/// unknown escape.
pub open spec fn unesc(s: Seq<char>) -> Option<Seq<char>>
    decreases s.len(),
{
    if s.len() == 0 {
        Some(Seq::<char>::empty())
    } else if s[0] == '\\' {
        if s.len() >= 2 && s[1] == 'n' {
            match unesc(s.skip(2)) {
                Some(u) => Some(seq!['\n'] + u),
                None => None,
            }
        } else if s.len() >= 2 && s[1] == '\\' {
            match unesc(s.skip(2)) {
                Some(u) => Some(seq!['\\'] + u),
                None => None,
            }
        } else {
            None
        }
    } else {
        match unesc(s.skip(1)) {
            Some(u) => Some(seq![s[0]] + u),
            None => None,
        }
    }
}

/// Unescaping undoes escaping, for every value.
pub proof fn lemma_unesc_esc(v: Seq<char>)
    ensures
        unesc(esc(v)) == Some(v),
    decreases v.len(),
{
    if v.len() != 0 {
        lemma_unesc_esc(v.skip(1));
        if v[0] == '\n' {
            assert(esc(v)[0] == '\\' && esc(v)[1] == 'n');
            assert(esc(v).skip(2) =~= esc(v.skip(1)));
            assert(seq!['\n'] + v.skip(1) =~= v);
        } else if v[0] == '\\' {
            assert(esc(v)[0] == '\\' && esc(v)[1] == '\\');
            assert(esc(v).skip(2) =~= esc(v.skip(1)));
            assert(seq!['\\'] + v.skip(1) =~= v);
        } else {
            assert(esc(v)[0] == v[0]);
            assert(esc(v).skip(1) =~= esc(v.skip(1)));
            assert(seq![v[0]] + v.skip(1) =~= v);
        }
    }
}

/// An escaped value holds no newline.
proof fn lemma_esc_no_newline(v: Seq<char>)
    ensures
        no_newline(esc(v)),
    decreases v.len(),
{
    if v.len() != 0 {
        lemma_esc_no_newline(v.skip(1));
        let head: Seq<char> = if v[0] == '\n' {
            seq!['\\', 'n']
        } else if v[0] == '\\' {
            seq!['\\', '\\']
        } else {
            seq![v[0]]
        };
        assert(esc(v) == head + esc(v.skip(1)));
        assert forall|i: int| 0 <= i < esc(v).len() implies esc(v)[i] != '\n' by {
            if i < head.len() {
                assert(esc(v)[i] == head[i]);
            } else {
                assert(esc(v)[i] == esc(v.skip(1))[i - head.len()]);
            }
        }
    }
}

/// Whether a line starts with the given key.
pub open spec fn spec_is_key(l: Seq<char>, k: Seq<char>) -> bool {
    l.len() >= k.len() && l.subrange(0, k.len() as int) == k
}

/// Reading a quoted key-value line: defined when the line is the key, an
/// opening quote, a payload that unescapes, and a closing quote.
pub open spec fn spec_read_kv(l: Seq<char>, k: Seq<char>) -> Option<Seq<char>> {
    if l.len() >= k.len() + 2 && l.subrange(0, k.len() as int) == k && l[k.len() as int] == '"'
        && l[l.len() - 1] == '"' {
        unesc(l.subrange(k.len() as int + 1, l.len() - 1))
    } else {
        None
    }
}

/// Whether the line holds a ` = ` assignment somewhere: the syntactic shape
/// of a key line, known or unknown.
pub open spec fn has_assign(l: Seq<char>) -> bool {
    exists|i: int|
        0 <= i && i + 2 < l.len() && #[trigger] l[i] == ' ' && l[i + 1] == '=' && l[i + 2] == ' '
}

/// Lines that tolerant reading skips: blank lines, comments, foreign
/// headers, and assignments to unknown keys.
pub open spec fn skippable(l: Seq<char>) -> bool {
    l.len() == 0 || l[0] == '[' || l[0] == '#' || has_assign(l)
}

/// A line whose first character differs from the key's does not carry it.
proof fn lemma_not_key(l: Seq<char>, k: Seq<char>)
    requires
        k.len() > 0,
        l.len() == 0 || l[0] != k[0],
    ensures
        !spec_is_key(l, k),
{
    if l.len() >= k.len() {
        assert(l.subrange(0, k.len() as int)[0] == l[0]);
    }
}

/// What the fold has seen of the settings region, and where it stopped.
pub ghost struct SettingsAcc {
    pub bin_path: Option<Seq<char>>,
    pub always_use_raw: Option<bool>,
    pub next: int,
}

/// Reads the settings region: every line up to the first alias header. Known
/// keys assign (the last assignment wins), unknown lines are skipped, and a
/// known key with an ill-formed value is an error.
pub open spec fn spec_settings(
    ls: Seq<Seq<char>>,
    i: int,
    bin_path: Option<Seq<char>>,
    always_use_raw: Option<bool>,
) -> Option<SettingsAcc>
    decreases ls.len() - i,
    when 0 <= i <= ls.len()
{
    if i >= ls.len() || ls[i] == h_alias() {
        Some(SettingsAcc { bin_path, always_use_raw, next: i })
    } else if ls[i] == h_settings() {
        spec_settings(ls, i + 1, bin_path, always_use_raw)
    } else if spec_is_key(ls[i], k_bin()) {
        match spec_read_kv(ls[i], k_bin()) {
            Some(v) => spec_settings(ls, i + 1, Some(v), always_use_raw),
            None => None,
        }
    } else if spec_is_key(ls[i], k_raw()) {
        if ls[i] == l_raw_true() {
            spec_settings(ls, i + 1, bin_path, Some(true))
        } else if ls[i] == l_raw_false() {
            spec_settings(ls, i + 1, bin_path, Some(false))
        } else {
            None
        }
    } else if skippable(ls[i]) {
        spec_settings(ls, i + 1, bin_path, always_use_raw)
    } else {
        None
    }
}

/// What the fold has seen of one alias entry, and where it stopped.
pub ghost struct BlockAcc {
    pub name: Option<Seq<char>>,
    pub command: Option<Seq<char>>,
    pub description: Option<Seq<char>>,
    pub bin_path: Option<Seq<char>>,
    pub next: int,
}

/// Reads the lines of one alias entry, up to the next alias header or the
/// end: known fields in any order, unknown lines skipped.
pub open spec fn spec_block(
    ls: Seq<Seq<char>>,
    i: int,
    name: Option<Seq<char>>,
    command: Option<Seq<char>>,
    description: Option<Seq<char>>,
    bin_path: Option<Seq<char>>,
) -> Option<BlockAcc>
    decreases ls.len() - i,
    when 0 <= i <= ls.len()
{
    if i >= ls.len() || ls[i] == h_alias() {
        Some(BlockAcc { name, command, description, bin_path, next: i })
    } else if spec_is_key(ls[i], k_original()) {
        match spec_read_kv(ls[i], k_original()) {
            Some(v) => spec_block(ls, i + 1, Some(v), command, description, bin_path),
            None => None,
        }
    } else if spec_is_key(ls[i], k_replacement()) {
        match spec_read_kv(ls[i], k_replacement()) {
            Some(v) => spec_block(ls, i + 1, name, Some(v), description, bin_path),
            None => None,
        }
    } else if spec_is_key(ls[i], k_description()) {
        match spec_read_kv(ls[i], k_description()) {
            Some(v) => spec_block(ls, i + 1, name, command, Some(v), bin_path),
            None => None,
        }
    } else if spec_is_key(ls[i], k_bin()) {
        match spec_read_kv(ls[i], k_bin()) {
            Some(v) => spec_block(ls, i + 1, name, command, description, Some(v)),
            None => None,
        }
    } else if skippable(ls[i]) {
        spec_block(ls, i + 1, name, command, description, bin_path)
    } else {
        None
    }
}

/// A completed block fold stops at or after where it started.
proof fn lemma_block_next(
    ls: Seq<Seq<char>>,
    i: int,
    name: Option<Seq<char>>,
    command: Option<Seq<char>>,
    description: Option<Seq<char>>,
    bin_path: Option<Seq<char>>,
)
    requires
        0 <= i <= ls.len(),
    ensures
        spec_block(ls, i, name, command, description, bin_path) matches Some(acc) ==> i <= acc.next
            <= ls.len(),
    decreases ls.len() - i,
{
    if i < ls.len() && ls[i] != h_alias() {
        if spec_is_key(ls[i], k_original()) {
            if spec_read_kv(ls[i], k_original()) is Some {
                lemma_block_next(ls, i + 1, spec_read_kv(ls[i], k_original()), command, description, bin_path);
            }
        } else if spec_is_key(ls[i], k_replacement()) {
            if spec_read_kv(ls[i], k_replacement()) is Some {
                lemma_block_next(ls, i + 1, name, spec_read_kv(ls[i], k_replacement()), description, bin_path);
            }
        } else if spec_is_key(ls[i], k_description()) {
            if spec_read_kv(ls[i], k_description()) is Some {
                lemma_block_next(ls, i + 1, name, command, spec_read_kv(ls[i], k_description()), bin_path);
            }
        } else if spec_is_key(ls[i], k_bin()) {
            if spec_read_kv(ls[i], k_bin()) is Some {
                lemma_block_next(ls, i + 1, name, command, description, spec_read_kv(ls[i], k_bin()));
            }
        } else if skippable(ls[i]) {
            lemma_block_next(ls, i + 1, name, command, description, bin_path);
        }
    }
}

/// A completed settings fold stops at or after where it started.
proof fn lemma_settings_next(
    ls: Seq<Seq<char>>,
    i: int,
    bin_path: Option<Seq<char>>,
    always_use_raw: Option<bool>,
)
    requires
        0 <= i <= ls.len(),
    ensures
        spec_settings(ls, i, bin_path, always_use_raw) matches Some(acc) ==> i <= acc.next
            <= ls.len(),
    decreases ls.len() - i,
{
    if i < ls.len() && ls[i] != h_alias() {
        if ls[i] == h_settings() {
            lemma_settings_next(ls, i + 1, bin_path, always_use_raw);
        } else if spec_is_key(ls[i], k_bin()) {
            if spec_read_kv(ls[i], k_bin()) is Some {
                lemma_settings_next(ls, i + 1, spec_read_kv(ls[i], k_bin()), always_use_raw);
            }
        } else if spec_is_key(ls[i], k_raw()) {
            if ls[i] == l_raw_true() {
                lemma_settings_next(ls, i + 1, bin_path, Some(true));
            } else if ls[i] == l_raw_false() {
                lemma_settings_next(ls, i + 1, bin_path, Some(false));
            }
        } else if skippable(ls[i]) {
            lemma_settings_next(ls, i + 1, bin_path, always_use_raw);
        }
    }
}

/// The registry encoded in the lines from position `i` on: one alias per
/// header, each needing at least a name and a replacement.
pub open spec fn spec_aliases(ls: Seq<Seq<char>>, i: int) -> Option<Seq<AliasView>>
    decreases ls.len() - i,
    when 0 <= i <= ls.len()
    via spec_aliases_decreases
{
    if i >= ls.len() {
        Some(Seq::<AliasView>::empty())
    } else if ls[i] == h_alias() {
        match spec_block(ls, i + 1, None, None, None, None) {
            None => None,
            Some(acc) => if acc.name is Some && acc.command is Some {
                match spec_aliases(ls, acc.next) {
                    None => None,
                    Some(rest) => Some(
                        seq![
                            AliasView {
                                name: acc.name.unwrap(),
                                command: acc.command.unwrap(),
                                description: acc.description,
                                bin_path: acc.bin_path,
                            },
                        ] + rest,
                    ),
                }
            } else {
                None
            },
        }
    } else {
        None
    }
}

#[via_fn]
proof fn spec_aliases_decreases(ls: Seq<Seq<char>>, i: int) {
    if i < ls.len() && ls[i] == h_alias() {
        lemma_block_next(ls, i + 1, None, None, None, None);
    }
}

/// The configuration encoded in a list of document lines: the settings
/// region, then the alias entries, whose names must obey the registry
/// invariant. Absent settings take the given default directory and a raw
/// default of false.
pub open spec fn spec_parse(ls: Seq<Seq<char>>, default_bin: Seq<char>) -> Option<ConfigView> {
    match spec_settings(ls, 0, None, None) {
        None => None,
        Some(acc) => match spec_aliases(ls, acc.next) {
            None => None,
            Some(aliases) => if registry_wf(aliases) {
                Some(
                    ConfigView {
                        settings: SettingsView {
                            bin_path: match acc.bin_path {
                                Some(b) => b,
                                None => default_bin,
                            },
                            always_use_raw: match acc.always_use_raw {
                                Some(r) => r,
                                None => false,
                            },
                        },
                        aliases,
                    },
                )
            } else {
                None
            },
        },
    }
}

/// The configuration encoded in a document text, with the default symlink
/// directory to fall back on.
pub open spec fn spec_decode(t: Seq<char>, default_bin: Seq<char>) -> Option<ConfigView> {
    spec_parse(spec_lines(t), default_bin)
}

/// The document lines of one alias entry.
pub open spec fn alias_lines(a: AliasView) -> Seq<Seq<char>> {
    seq![h_alias(), kv(p_original(), esc(a.name)), kv(p_replacement(), esc(a.command))] + (
    match a.description {
        Some(d) => seq![kv(p_description(), esc(d))],
        None => Seq::<Seq<char>>::empty(),
    }) + (match a.bin_path {
        Some(p) => seq![kv(p_bin_path(), esc(p))],
        None => Seq::<Seq<char>>::empty(),
    })
}

/// The document lines of a whole registry, in order.
pub open spec fn aliases_lines(s: Seq<AliasView>) -> Seq<Seq<char>>
    decreases s.len(),
{
    if s.len() == 0 {
        Seq::<Seq<char>>::empty()
    } else {
        alias_lines(s[0]) + aliases_lines(s.skip(1))
    }
}

/// The settings line recording the raw-mode default.
pub open spec fn raw_line(always_use_raw: bool) -> Seq<char> {
    if always_use_raw {
        l_raw_true()
    } else {
        l_raw_false()
    }
}

/// All lines of the document of a configuration.
pub open spec fn doc_lines(c: ConfigView) -> Seq<Seq<char>> {
    seq![
        h_settings(),
        kv(p_bin_path(), esc(c.settings.bin_path)),
        raw_line(c.settings.always_use_raw),
    ] + aliases_lines(c.aliases)
}

/// The full document text of a configuration.
pub open spec fn spec_encode(c: ConfigView) -> Seq<char> {
    join(doc_lines(c))
}

/// The shape facts of one canonical key-value line: it is no header, it
/// carries its own key, and reading it recovers the value it was written
/// from.
proof fn lemma_kv_line_shape(p: Seq<char>, k: Seq<char>, v: Seq<char>)
    requires
        p == k + seq!['"'],
        10 <= k.len(),
    ensures
        kv(p, esc(v)) != h_alias(),
        kv(p, esc(v)) != h_settings(),
        spec_is_key(kv(p, esc(v)), k),
        spec_read_kv(kv(p, esc(v)), k) == Some(v),
        kv(p, esc(v))[0] == k[0],
        no_newline(p) ==> no_newline(kv(p, esc(v))),
    decreases 0int,
{
    lemma_literal_shapes();
    lemma_unesc_esc(v);
    lemma_esc_no_newline(v);
    let l = kv(p, esc(v));
    assert(l.len() == k.len() + esc(v).len() + 2);
    assert(l.len() >= 12);
    assert(l.subrange(0, k.len() as int) =~= k);
    assert(l[k.len() as int] == '"');
    assert(l[l.len() - 1] == '"');
    assert(l.subrange(k.len() as int + 1, l.len() - 1) =~= esc(v));
    assert(l[0] == k[0]);
    if no_newline(p) {
        assert forall|i: int| 0 <= i < l.len() implies l[i] != '\n' by {
            if i < p.len() {
                assert(l[i] == p[i]);
            } else if i < p.len() + esc(v).len() {
                assert(l[i] == esc(v)[i - p.len()]);
            } else {
                assert(l[i] == '"');
            }
        }
    }
}

/// Every line of an alias entry is newline-free.
proof fn lemma_alias_lines_no_newline(a: AliasView)
    ensures
        forall|i: int| 0 <= i < alias_lines(a).len() ==> no_newline(#[trigger] alias_lines(a)[i]),
{
    lemma_literal_shapes();
    lemma_kv_line_shape(p_original(), k_original(), a.name);
    lemma_kv_line_shape(p_replacement(), k_replacement(), a.command);
    if a.description is Some {
        lemma_kv_line_shape(p_description(), k_description(), a.description.unwrap());
    }
    if a.bin_path is Some {
        lemma_kv_line_shape(p_bin_path(), k_bin(), a.bin_path.unwrap());
    }
}

/// Every line of a registry's entries is newline-free.
proof fn lemma_aliases_lines_no_newline(s: Seq<AliasView>)
    ensures
        forall|i: int|
            0 <= i < aliases_lines(s).len() ==> no_newline(#[trigger] aliases_lines(s)[i]),
    decreases s.len(),
{
    if s.len() != 0 {
        lemma_alias_lines_no_newline(s[0]);
        lemma_aliases_lines_no_newline(s.skip(1));
        let whole = aliases_lines(s);
        let head = alias_lines(s[0]);
        let tail = aliases_lines(s.skip(1));
        assert forall|i: int| 0 <= i < whole.len() implies no_newline(#[trigger] whole[i]) by {
            if i < head.len() {
                assert(whole[i] == head[i]);
            } else {
                assert(whole[i] == tail[i - head.len()]);
            }
        }
    }
}

/// Reading the settings region of a canonical document yields its settings,
/// stopping right before the alias entries.
proof fn lemma_settings_canonical(ls: Seq<Seq<char>>, c: ConfigView)
    requires
        ls == doc_lines(c),
    ensures
        spec_settings(ls, 0, None, None) == Some(
            SettingsAcc {
                bin_path: Some(c.settings.bin_path),
                always_use_raw: Some(c.settings.always_use_raw),
                next: 3,
            },
        ),
{
    lemma_literal_shapes();
    lemma_kv_line_shape(p_bin_path(), k_bin(), c.settings.bin_path);
    let bin_line = kv(p_bin_path(), esc(c.settings.bin_path));
    let rl = raw_line(c.settings.always_use_raw);
    assert(ls.len() == 3 + aliases_lines(c.aliases).len());
    assert(ls[0] == h_settings());
    assert(ls[1] == bin_line);
    assert(ls[2] == rl);
    assert(ls[0] != h_alias());
    assert(spec_settings(ls, 0, None, None) == spec_settings(ls, 1, None, None));
    assert(ls[1] != h_alias() && ls[1] != h_settings());
    assert(spec_settings(ls, 1, None, None) == spec_settings(
        ls,
        2,
        Some(c.settings.bin_path),
        None,
    ));
    assert(rl != h_alias() && rl != h_settings());
    lemma_not_key(rl, k_bin());
    assert(spec_is_key(rl, k_raw()));
    assert(spec_settings(ls, 2, Some(c.settings.bin_path), None) == spec_settings(
        ls,
        3,
        Some(c.settings.bin_path),
        Some(c.settings.always_use_raw),
    ));
    if ls.len() > 3 {
        assert(c.aliases.len() > 0) by {
            if c.aliases.len() == 0 {
                assert(aliases_lines(c.aliases).len() == 0);
            }
        }
        assert(ls[3] == aliases_lines(c.aliases)[0]);
        assert(aliases_lines(c.aliases)[0] == alias_lines(c.aliases[0])[0]);
        assert(ls[3] == h_alias());
    }
}

/// Reading the entries of a canonical document from the first header on
/// recovers the registry.
proof fn lemma_aliases_canonical(ls: Seq<Seq<char>>, i: int, s: Seq<AliasView>)
    requires
        0 <= i <= ls.len(),
        ls.skip(i) == aliases_lines(s),
    ensures
        spec_aliases(ls, i) == Some(s),
    decreases s.len(),
{
    lemma_literal_shapes();
    if s.len() == 0 {
        assert(ls.skip(i).len() == 0);
        assert(i == ls.len());
        assert(Seq::<AliasView>::empty() =~= s);
    } else {
        let a = s[0];
        let head = alias_lines(a);
        let tail = aliases_lines(s.skip(1));
        assert(aliases_lines(s) == head + tail);
        let nd: int = if a.description is Some {
            1int
        } else {
            0int
        };
        let nb: int = if a.bin_path is Some {
            1int
        } else {
            0int
        };
        assert(head.len() == 3 + nd + nb);
        assert(ls.len() == i + head.len() + tail.len());
        assert(ls[i] == ls.skip(i)[0]);
        assert(ls[i + 1] == ls.skip(i)[1]);
        assert(ls[i + 2] == ls.skip(i)[2]);
        lemma_kv_line_shape(p_original(), k_original(), a.name);
        lemma_kv_line_shape(p_replacement(), k_replacement(), a.command);
        let l1 = kv(p_original(), esc(a.name));
        let l2 = kv(p_replacement(), esc(a.command));
        assert(ls[i] == head[0] && head[0] == h_alias());
        assert(ls[i + 1] == head[1] && head[1] == l1);
        assert(ls[i + 2] == head[2] && head[2] == l2);
        // the name line
        assert(spec_block(ls, i + 1, None, None, None, None) == spec_block(
            ls,
            i + 2,
            Some(a.name),
            None,
            None,
            None,
        ));
        // the replacement line
        lemma_not_key(l2, k_original());
        assert(spec_block(ls, i + 2, Some(a.name), None, None, None) == spec_block(
            ls,
            i + 3,
            Some(a.name),
            Some(a.command),
            None,
            None,
        ));
        // the optional description line
        if a.description is Some {
            let d = a.description.unwrap();
            lemma_kv_line_shape(p_description(), k_description(), d);
            let l3 = kv(p_description(), esc(d));
            assert(ls[i + 3] == ls.skip(i)[3]);
            assert(ls[i + 3] == head[3] && head[3] == l3);
            lemma_not_key(l3, k_original());
            lemma_not_key(l3, k_replacement());
            assert(spec_block(ls, i + 3, Some(a.name), Some(a.command), None, None)
                == spec_block(ls, i + 4, Some(a.name), Some(a.command), a.description, None));
        }
        let j4 = i + 3 + nd;
        // the optional bin-path line
        if a.bin_path is Some {
            let p = a.bin_path.unwrap();
            lemma_kv_line_shape(p_bin_path(), k_bin(), p);
            let l4 = kv(p_bin_path(), esc(p));
            assert(ls[j4] == ls.skip(i)[3 + nd]);
            assert(ls[j4] == head[3 + nd] && head[3 + nd] == l4);
            lemma_not_key(l4, k_original());
            lemma_not_key(l4, k_replacement());
            lemma_not_key(l4, k_description());
            assert(spec_block(ls, j4, Some(a.name), Some(a.command), a.description, None)
                == spec_block(
                ls,
                j4 + 1,
                Some(a.name),
                Some(a.command),
                a.description,
                a.bin_path,
            ));
        }
        let j5 = i + head.len();
        // the fold stops at the next header or the end
        if j5 < ls.len() {
            assert(tail.len() > 0);
            assert(s.skip(1).len() > 0) by {
                if s.skip(1).len() == 0 {
                    assert(aliases_lines(s.skip(1)).len() == 0);
                }
            }
            assert(ls[j5] == ls.skip(i)[head.len() as int]);
            assert(ls[j5] == aliases_lines(s)[head.len() as int]);
            assert(aliases_lines(s)[head.len() as int] == tail[0]);
            assert(tail[0] == alias_lines(s.skip(1)[0])[0]);
            assert(ls[j5] == h_alias());
        }
        assert(spec_block(ls, j5, Some(a.name), Some(a.command), a.description, a.bin_path)
            == Some(
            BlockAcc {
                name: Some(a.name),
                command: Some(a.command),
                description: a.description,
                bin_path: a.bin_path,
                next: j5,
            },
        ));
        assert(spec_block(ls, i + 1, None, None, None, None) == Some(
            BlockAcc {
                name: Some(a.name),
                command: Some(a.command),
                description: a.description,
                bin_path: a.bin_path,
                next: j5,
            },
        ));
        assert(ls.skip(j5) =~= tail) by {
            assert forall|j: int| 0 <= j < tail.len() implies ls.skip(j5)[j] == tail[j] by {
                assert(ls.skip(j5)[j] == ls[j5 + j]);
                assert(ls.skip(i)[head.len() + j] == ls[i + (head.len() + j)]);
                assert(aliases_lines(s)[head.len() + j] == tail[j]);
            }
        }
        lemma_aliases_canonical(ls, j5, s.skip(1));
        assert(seq![
            AliasView {
                name: a.name,
                command: a.command,
                description: a.description,
                bin_path: a.bin_path,
            },
        ] + s.skip(1) =~= s);
    }
}

/// Law: the document round trip. Encoding a configuration whose registry
/// obeys its invariant (unique, non-empty names) and decoding the result,
/// under any default directory, reproduces an equivalent configuration:
/// settings, every alias field, and the registry order are preserved.
pub proof fn lemma_document_round_trip(c: ConfigView, default_bin: Seq<char>)
    requires
        registry_wf(c.aliases),
    ensures
        spec_decode(spec_encode(c), default_bin) == Some(c),
{
    lemma_literal_shapes();
    lemma_kv_line_shape(p_bin_path(), k_bin(), c.settings.bin_path);
    lemma_aliases_lines_no_newline(c.aliases);
    let ls = doc_lines(c);
    let fixed = seq![
        h_settings(),
        kv(p_bin_path(), esc(c.settings.bin_path)),
        raw_line(c.settings.always_use_raw),
    ];
    let tail = aliases_lines(c.aliases);
    assert forall|i: int| 0 <= i < ls.len() implies no_newline(#[trigger] ls[i]) by {
        if i < 3 {
            assert(ls[i] == fixed[i]);
        } else {
            assert(ls[i] == tail[i - 3]);
        }
    }
    lemma_lines_join(ls);
    assert(spec_lines(spec_encode(c)) == ls);
    lemma_settings_canonical(ls, c);
    assert(ls.skip(3) =~= tail);
    lemma_aliases_canonical(ls, 3, c.aliases);
}


/// Escaping distributes over a run free of special characters.
proof fn lemma_esc_run(r: Seq<char>, t: Seq<char>)
    requires
        forall|i: int| 0 <= i < r.len() ==> r[i] != '\n' && r[i] != '\\',
    ensures
        esc(r + t) == r + esc(t),
    decreases r.len(),
{
    if r.len() == 0 {
        assert(r + t =~= t);
        assert(r + esc(t) =~= esc(t));
    } else {
        assert((r + t)[0] == r[0]);
        assert((r + t).skip(1) =~= r.skip(1) + t);
        assert forall|i: int| 0 <= i < r.skip(1).len() implies r.skip(1)[i] != '\n' && r.skip(1)[i]
            != '\\' by {
            assert(r.skip(1)[i] == r[i + 1]);
        }
        lemma_esc_run(r.skip(1), t);
        assert(seq![r[0]] + (r.skip(1) + esc(t)) =~= r + esc(t));
    }
}

/// Unescaping consumes a run free of backslashes unchanged.
proof fn lemma_unesc_run(r: Seq<char>, t: Seq<char>)
    requires
        forall|i: int| 0 <= i < r.len() ==> r[i] != '\\',
    ensures
        unesc(r + t) == (match unesc(t) {
            Some(u) => Some(r + u),
            None => None::<Seq<char>>,
        }),
    decreases r.len(),
{
    if r.len() == 0 {
        assert(r + t =~= t);
        if unesc(t) is Some {
            assert(r + unesc(t).unwrap() =~= unesc(t).unwrap());
        }
    } else {
        assert((r + t)[0] == r[0]);
        assert((r + t).skip(1) =~= r.skip(1) + t);
        assert forall|i: int| 0 <= i < r.skip(1).len() implies r.skip(1)[i] != '\\' by {
            assert(r.skip(1)[i] == r[i + 1]);
        }
        lemma_unesc_run(r.skip(1), t);
        if unesc(t) is Some {
            assert(seq![r[0]] + (r.skip(1) + unesc(t).unwrap()) =~= r + unesc(t).unwrap());
        }
    }
}

/// Appends the escaping of a value to the document being built.
fn escape_into(out: &mut String, v: &str)
    ensures
        final(out)@ == old(out)@ + esc(v@),
{
    let n: usize = v.unicode_len();
    let mut i: usize = 0;
    proof {
        assert(v@.skip(0) =~= v@);
    }
    loop
        invariant_except_break
            0 <= i <= n,
            n == v@.len(),
            out@ + esc(v@.skip(i as int)) == old(out)@ + esc(v@),
        ensures
            out@ == old(out)@ + esc(v@),
        decreases n - i,
    {
        if i == n {
            proof {
                assert(v@.skip(n as int) =~= Seq::<char>::empty());
                assert(out@ + Seq::<char>::empty() =~= out@);
            }
            break;
        }
        let mut j: usize = i;
        loop
            invariant_except_break
                i <= j <= n,
                n == v@.len(),
                forall|k: int| i <= k < j ==> v@[k] != '\n' && v@[k] != '\\',
            ensures
                i <= j <= n,
                n == v@.len(),
                forall|k: int| i <= k < j ==> v@[k] != '\n' && v@[k] != '\\',
                j == n || v@[j as int] == '\n' || v@[j as int] == '\\',
            decreases n - j,
        {
            if j == n {
                break;
            }
            let c: char = v.get_char(j);
            if c == '\n' || c == '\\' {
                break;
            }
            j = j + 1;
        }
        if j > i {
            let ghost before = out@;
            out.append(v.substring_char(i, j));
            proof {
                let rr = v@.subrange(i as int, j as int);
                assert forall|k: int| 0 <= k < rr.len() implies rr[k] != '\n' && rr[k] != '\\' by {
                    assert(rr[k] == v@[i + k]);
                }
                assert(v@.skip(i as int) =~= rr + v@.skip(j as int));
                lemma_esc_run(rr, v@.skip(j as int));
                assert(out@ + esc(v@.skip(j as int)) =~= before + (rr + esc(v@.skip(j as int))));
                assert(before + (rr + esc(v@.skip(j as int))) =~= before + esc(v@.skip(i as int)));
            }
            i = j;
        } else {
            let ghost before = out@;
            let c: char = v.get_char(i);
            proof {
                assert(v@.skip(i as int)[0] == v@[i as int]);
                assert(v@.skip(i as int).skip(1) =~= v@.skip(i as int + 1));
            }
            if c == '\n' {
                out.append("\\n");
                proof {
                    reveal_strlit("\\n");
                    assert("\\n"@ =~= seq!['\\', 'n']);
                    assert(esc(v@.skip(i as int)) == seq!['\\', 'n'] + esc(v@.skip(i as int + 1)));
                    assert(out@ + esc(v@.skip(i as int + 1)) =~= before + esc(v@.skip(i as int)));
                }
            } else {
                out.append("\\\\");
                proof {
                    reveal_strlit("\\\\");
                    assert("\\\\"@ =~= seq!['\\', '\\']);
                    assert(esc(v@.skip(i as int)) == seq!['\\', '\\'] + esc(v@.skip(i as int + 1)));
                    assert(out@ + esc(v@.skip(i as int + 1)) =~= before + esc(v@.skip(i as int)));
                }
            }
            i = i + 1;
        }
    }
}

/// Undoes `escape_into`: reads an escaped payload back, or reports a
/// dangling or unknown escape.
fn unescape(s: &str) -> (r: Option<String>)
    ensures
        r is Some <==> unesc(s@) is Some,
        r matches Some(v) ==> unesc(s@) == Some(v@),
{
    let n: usize = s.unicode_len();
    let mut out: String = String::new();
    let mut i: usize = 0;
    proof {
        assert(s@.skip(0) =~= s@);
    }
    loop
        invariant_except_break
            0 <= i <= n,
            n == s@.len(),
            unesc(s@.skip(i as int)) is None ==> unesc(s@) is None,
            unesc(s@.skip(i as int)) matches Some(u) ==> unesc(s@) == Some(out@ + u),
        ensures
            unesc(s@) == Some(out@),
        decreases n - i,
    {
        if i == n {
            proof {
                assert(s@.skip(n as int) =~= Seq::<char>::empty());
                assert(out@ + Seq::<char>::empty() =~= out@);
            }
            break;
        }
        let mut j: usize = i;
        loop
            invariant_except_break
                i <= j <= n,
                n == s@.len(),
                forall|k: int| i <= k < j ==> s@[k] != '\\',
            ensures
                i <= j <= n,
                n == s@.len(),
                forall|k: int| i <= k < j ==> s@[k] != '\\',
                j == n || s@[j as int] == '\\',
            decreases n - j,
        {
            if j == n {
                break;
            }
            if s.get_char(j) == '\\' {
                break;
            }
            j = j + 1;
        }
        if j > i {
            let ghost before = out@;
            out.append(s.substring_char(i, j));
            proof {
                let rr = s@.subrange(i as int, j as int);
                assert forall|k: int| 0 <= k < rr.len() implies rr[k] != '\\' by {
                    assert(rr[k] == s@[i + k]);
                }
                assert(s@.skip(i as int) =~= rr + s@.skip(j as int));
                lemma_unesc_run(rr, s@.skip(j as int));
                if unesc(s@.skip(j as int)) is Some {
                    let u = unesc(s@.skip(j as int)).unwrap();
                    assert(before + (rr + u) =~= out@ + u);
                }
            }
            i = j;
        } else {
            proof {
                assert(s@.skip(i as int)[0] == s@[i as int]);
            }
            if i + 1 >= n {
                proof {
                    assert(s@.skip(i as int).len() == 1);
                    assert(unesc(s@.skip(i as int)) is None);
                }
                return None;
            }
            let c2: char = s.get_char(i + 1);
            let ghost before = out@;
            proof {
                assert(s@.skip(i as int)[1] == s@[i as int + 1]);
                assert(s@.skip(i as int).skip(2) =~= s@.skip(i as int + 2));
            }
            if c2 == 'n' {
                out.append("\n");
                proof {
                    reveal_strlit("\n");
                    assert("\n"@ =~= seq!['\n']);
                    if unesc(s@.skip(i as int + 2)) is Some {
                        let u = unesc(s@.skip(i as int + 2)).unwrap();
                        assert(unesc(s@.skip(i as int)) == Some(seq!['\n'] + u));
                        assert(before + (seq!['\n'] + u) =~= out@ + u);
                    }
                }
            } else if c2 == '\\' {
                out.append("\\");
                proof {
                    reveal_strlit("\\");
                    assert("\\"@ =~= seq!['\\']);
                    if unesc(s@.skip(i as int + 2)) is Some {
                        let u = unesc(s@.skip(i as int + 2)).unwrap();
                        assert(unesc(s@.skip(i as int)) == Some(seq!['\\'] + u));
                        assert(before + (seq!['\\'] + u) =~= out@ + u);
                    }
                }
            } else {
                proof {
                    assert(unesc(s@.skip(i as int)) is None);
                }
                return None;
            }
            i = i + 2;
        }
    }
    Some(out)
}

proof fn lemma_join_one(x: Seq<char>)
    ensures
        join(seq![x]) == x + nl(),
{
    assert(seq![x].skip(1) =~= Seq::<Seq<char>>::empty());
    assert(x + nl() + join(seq![x].skip(1)) =~= x + nl());
}

proof fn lemma_join_three(a: Seq<char>, b: Seq<char>, c: Seq<char>)
    ensures
        join(seq![a, b, c]) == a + nl() + b + nl() + c + nl(),
{
    reveal_with_fuel(join, 4);
    let ls = seq![a, b, c];
    assert(ls.skip(1) =~= seq![b, c]);
    assert(seq![b, c].skip(1) =~= seq![c]);
    lemma_join_one(c);
    assert(join(seq![b, c]) == b + nl() + join(seq![c]));
    assert(join(ls) == a + nl() + join(seq![b, c]));
    assert(a + nl() + (b + nl() + (c + nl())) =~= a + nl() + b + nl() + c + nl());
}

/// `aliases_lines` distributes over concatenation of registries.
proof fn lemma_aliases_lines_concat(a: Seq<AliasView>, b: Seq<AliasView>)
    ensures
        aliases_lines(a + b) == aliases_lines(a) + aliases_lines(b),
    decreases a.len(),
{
    if a.len() == 0 {
        assert(a + b =~= b);
        assert(aliases_lines(a) + aliases_lines(b) =~= aliases_lines(b));
    } else {
        assert((a + b)[0] == a[0]);
        assert((a + b).skip(1) =~= a.skip(1) + b);
        lemma_aliases_lines_concat(a.skip(1), b);
        assert(alias_lines(a[0]) + (aliases_lines(a.skip(1)) + aliases_lines(b)) =~= (alias_lines(
            a[0],
        ) + aliases_lines(a.skip(1))) + aliases_lines(b));
    }
}

proof fn lemma_aliases_lines_snoc(s: Seq<AliasView>, x: AliasView)
    ensures
        aliases_lines(s.push(x)) == aliases_lines(s) + alias_lines(x),
{
    assert(s.push(x) =~= s + seq![x]);
    lemma_aliases_lines_concat(s, seq![x]);
    assert(seq![x].skip(1) =~= Seq::<AliasView>::empty());
    assert(alias_lines(x) + aliases_lines(seq![x].skip(1)) =~= alias_lines(x));
}

/// Appends one quoted key-value line, its value escaped, to the document
/// being built.
fn append_kv_line(out: &mut String, prefix: &str, value: &str)
    ensures
        final(out)@ == old(out)@ + kv(prefix@, esc(value@)) + nl(),
{
    out.append(prefix);
    escape_into(out, value);
    out.append("\"\n");
    proof {
        reveal_strlit("\"\n");
        assert("\"\n"@ =~= seq!['"'] + nl());
        assert(out@ =~= old(out)@ + kv(prefix@, esc(value@)) + nl());
    }
}

impl Config {
    /// Serializes the whole configuration as the document text. Decoding the
    /// result recovers this configuration whenever the registry obeys its
    /// invariant (see `lemma_document_round_trip`).
    pub fn to_document(&self) -> (r: String)
        ensures
            r@ == spec_encode(self@),
    {
        let mut out: String = String::new();
        out.append("[settings]\n");
        proof {
            reveal_strlit("[settings]\n");
            reveal_strlit("[settings]");
            assert(out@ =~= h_settings() + nl());
        }
        append_kv_line(&mut out, "bin_path = \"", self.settings().bin_path());
        let raw: bool = self.settings().always_use_raw();
        if raw {
            out.append("always_use_raw = true\n");
        } else {
            out.append("always_use_raw = false\n");
        }
        let ghost fixed = seq![
            h_settings(),
            kv(p_bin_path(), esc(self@.settings.bin_path)),
            raw_line(self@.settings.always_use_raw),
        ];
        proof {
            reveal_strlit("always_use_raw = true\n");
            reveal_strlit("always_use_raw = true");
            reveal_strlit("always_use_raw = false\n");
            reveal_strlit("always_use_raw = false");
            if raw {
                assert("always_use_raw = true\n"@ =~= l_raw_true() + nl());
            } else {
                assert("always_use_raw = false\n"@ =~= l_raw_false() + nl());
            }
            lemma_join_three(fixed[0], fixed[1], fixed[2]);
            assert(out@ =~= join(fixed));
            assert(self@.aliases.take(0) =~= Seq::<AliasView>::empty());
            assert(fixed + aliases_lines(self@.aliases.take(0)) =~= fixed);
        }
        let entries: &Vec<crate::aliases::Alias> = self.aliases().values();
        let n: usize = entries.len();
        let mut i: usize = 0;
        while i < n
            invariant
                0 <= i <= n,
                n == self@.aliases.len(),
                entries@.map_values(|a: crate::aliases::Alias| a@) == self@.aliases,
                out@ == join(fixed + aliases_lines(self@.aliases.take(i as int))),
            decreases n - i,
        {
            let ghost before = out@;
            let ghost av = self@.aliases[i as int];
            let alias: &crate::aliases::Alias = &entries[i];
            out.append("[[aliases]]\n");
            append_kv_line(&mut out, "original = \"", alias.name());
            append_kv_line(&mut out, "replacement = \"", alias.command());
            let ghost base = seq![
                h_alias(),
                kv(p_original(), esc(av.name)),
                kv(p_replacement(), esc(av.command)),
            ];
            proof {
                reveal_strlit("[[aliases]]\n");
                reveal_strlit("[[aliases]]");
                assert("[[aliases]]\n"@ =~= h_alias() + nl());
                lemma_join_three(base[0], base[1], base[2]);
                assert(out@ =~= before + join(base));
            }
            let ghost mid = out@;
            match alias.description() {
                Some(d) => {
                    append_kv_line(&mut out, "description = \"", d);
                    proof {
                        lemma_join_one(kv(p_description(), esc(av.description.unwrap())));
                    }
                },
                None => {},
            }
            let ghost mid2 = out@;
            proof {
                let dpart: Seq<Seq<char>> = match av.description {
                    Some(d) => seq![kv(p_description(), esc(d))],
                    None => Seq::<Seq<char>>::empty(),
                };
                assert(mid2 =~= mid + join(dpart));
            }
            match alias.bin_path() {
                Some(p) => {
                    append_kv_line(&mut out, "bin_path = \"", p.as_str());
                    proof {
                        lemma_join_one(kv(p_bin_path(), esc(av.bin_path.unwrap())));
                    }
                },
                None => {},
            }
            proof {
                let dpart: Seq<Seq<char>> = match av.description {
                    Some(d) => seq![kv(p_description(), esc(d))],
                    None => Seq::<Seq<char>>::empty(),
                };
                let bpart: Seq<Seq<char>> = match av.bin_path {
                    Some(p) => seq![kv(p_bin_path(), esc(p))],
                    None => Seq::<Seq<char>>::empty(),
                };
                assert(out@ =~= mid2 + join(bpart));
                lemma_join_concat(base, dpart);
                lemma_join_concat(base + dpart, bpart);
                assert(alias_lines(av) == (base + dpart) + bpart);
                assert(out@ =~= before + join(alias_lines(av)));
                lemma_aliases_lines_snoc(self@.aliases.take(i as int), av);
                assert(self@.aliases.take(i as int + 1) =~= self@.aliases.take(i as int).push(av));
                lemma_join_concat(
                    fixed + aliases_lines(self@.aliases.take(i as int)),
                    alias_lines(av),
                );
                assert((fixed + aliases_lines(self@.aliases.take(i as int))) + alias_lines(av)
                    =~= fixed + aliases_lines(self@.aliases.take(i as int + 1)));
            }
            i = i + 1;
        }
        proof {
            assert(self@.aliases.take(n as int) =~= self@.aliases);
        }
        out
    }
}

/// Index characterization of `line_of` and `rest_after`: the first newline
/// position decides both.
proof fn lemma_line_at(t: Seq<char>, m: int)
    requires
        0 <= m <= t.len(),
        forall|k: int| 0 <= k < m ==> t[k] != '\n',
        m == t.len() || t[m] == '\n',
    ensures
        line_of(t) == t.take(m),
        rest_after(t) == (if m == t.len() {
            Seq::<char>::empty()
        } else {
            t.skip(m + 1)
        }),
    decreases m,
{
    if m == 0 {
        assert(t.take(0) =~= Seq::<char>::empty());
    } else {
        assert(t[0] != '\n');
        assert forall|k: int| 0 <= k < m - 1 implies t.skip(1)[k] != '\n' by {
            assert(t.skip(1)[k] == t[k + 1]);
        }
        if m < t.len() {
            assert(t.skip(1)[m - 1] == t[m]);
        }
        lemma_line_at(t.skip(1), m - 1);
        assert(seq![t[0]] + t.skip(1).take(m - 1) =~= t.take(m));
        if m < t.len() {
            assert(t.skip(1).skip(m) =~= t.skip(m + 1));
        }
    }
}

/// Splits a document text into its lines.
fn split_lines(s: &str) -> (r: Vec<String>)
    ensures
        views_of(r@) == spec_lines(s@),
{
    let n: usize = s.unicode_len();
    let mut out: Vec<String> = Vec::new();
    let mut i: usize = 0;
    proof {
        assert(s@.skip(0) =~= s@);
        assert(views_of(out@) =~= Seq::<Seq<char>>::empty());
    }
    while i < n
        invariant
            0 <= i <= n,
            n == s@.len(),
            spec_lines(s@) == views_of(out@) + spec_lines(s@.skip(i as int)),
        decreases n - i,
    {
        let mut j: usize = i;
        loop
            invariant_except_break
                i <= j <= n,
                n == s@.len(),
                forall|k: int| i <= k < j ==> s@[k] != '\n',
            ensures
                i <= j <= n,
                n == s@.len(),
                forall|k: int| i <= k < j ==> s@[k] != '\n',
                j == n || s@[j as int] == '\n',
            decreases n - j,
        {
            if j == n {
                break;
            }
            if s.get_char(j) == '\n' {
                break;
            }
            j = j + 1;
        }
        let line: String = s.substring_char(i, j).to_owned();
        let ghost t = s@.skip(i as int);
        let ghost before = views_of(out@);
        out.push(line);
        proof {
            assert forall|k: int| 0 <= k < j - i implies t[k] != '\n' by {
                assert(t[k] == s@[i + k]);
            }
            if (j as int) - (i as int) < t.len() {
                assert(t[(j as int) - (i as int)] == s@[j as int]);
            }
            lemma_line_at(t, (j as int) - (i as int));
            assert(line_of(t) =~= s@.subrange(i as int, j as int));
            assert(views_of(out@) =~= before.push(line@));
            assert(spec_lines(t) == seq![line_of(t)] + spec_lines(rest_after(t)));
            if j == n {
                assert(rest_after(t) =~= s@.skip(n as int));
            } else {
                assert(rest_after(t) =~= s@.skip(j as int + 1));
            }
            assert(before + (seq![line@] + spec_lines(rest_after(t))) =~= before.push(line@)
                + spec_lines(rest_after(t)));
        }
        if j == n {
            i = n;
        } else {
            i = j + 1;
        }
    }
    proof {
        assert(s@.skip(n as int) =~= Seq::<char>::empty());
        assert(views_of(out@) + spec_lines(s@.skip(n as int)) =~= views_of(out@));
    }
    out
}

/// What one line holds for a given key.
enum KeyRead {
    /// The line does not start with the key.
    NotKey,
    /// The line names the key but its value is ill-formed.
    Bad,
    /// The key's value, unescaped.
    Val(String),
}

/// Reads one quoted key-value line for the given key (the key text without
/// the opening quote).
fn read_quoted(l: &str, key: &str) -> (r: KeyRead)
    ensures
        (r is NotKey) == !spec_is_key(l@, key@),
        r matches KeyRead::Val(v) ==> spec_read_kv(l@, key@) == Some(v@),
        r is Bad ==> spec_is_key(l@, key@) && spec_read_kv(l@, key@) is None,
        spec_is_key(l@, key@) && spec_read_kv(l@, key@) is Some ==> r is Val,
{
    let ll: usize = l.unicode_len();
    let kl: usize = key.unicode_len();
    if !crate::text::str_starts_with(l, key) {
        return KeyRead::NotKey;
    }
    if ll - kl < 2 {
        return KeyRead::Bad;
    }
    if l.get_char(kl) != '"' {
        return KeyRead::Bad;
    }
    if l.get_char(ll - 1) != '"' {
        return KeyRead::Bad;
    }
    match unescape(l.substring_char(kl + 1, ll - 1)) {
        Some(v) => KeyRead::Val(v),
        None => KeyRead::Bad,
    }
}

/// Decides `has_assign` on one line.
fn has_assign_line(l: &str) -> (r: bool)
    ensures
        r == has_assign(l@),
{
    let n: usize = l.unicode_len();
    let mut i: usize = 0;
    while n - i > 2
        invariant
            0 <= i <= n,
            n == l@.len(),
            forall|k: int|
                0 <= k < i ==> !(#[trigger] l@[k] == ' ' && l@[k + 1] == '=' && l@[k + 2] == ' '),
        decreases n - i,
    {
        if l.get_char(i) == ' ' && l.get_char(i + 1) == '=' && l.get_char(i + 2) == ' ' {
            return true;
        }
        i = i + 1;
    }
    proof {
        if has_assign(l@) {
            let k = choose|k: int|
                0 <= k && k + 2 < l@.len() && #[trigger] l@[k] == ' ' && l@[k + 1] == '=' && l@[k
                    + 2] == ' ';
            assert(k < i);
        }
    }
    false
}

/// Decides `skippable` on one line.
fn skippable_line(l: &str) -> (r: bool)
    ensures
        r == skippable(l@),
{
    if l.unicode_len() == 0 {
        return true;
    }
    let c: char = l.get_char(0);
    if c == '[' || c == '#' {
        return true;
    }
    has_assign_line(l)
}

/// The view of an optional owned string.
pub open spec fn opt_view(o: Option<String>) -> Option<Seq<char>> {
    match o {
        Some(b) => Some(b@),
        None => None,
    }
}

/// The error a document that does not fit the format is reported as.
fn malformed() -> (r: ShadowError)
    ensures
        r matches ShadowError::ConfigError(_),
{
    ShadowError::ConfigError(String::from_str("malformed configuration document"))
}


/// Parses a document text back into a configuration, tolerantly: unknown
/// lines are skipped, absent settings take `default_bin_path` and a raw
/// default of false, and alias fields may come in any order. A known key
/// with an ill-formed value, an alias entry without a name or replacement,
/// and a registry with duplicate or empty names are a `ConfigError`.
pub fn from_document(text: &str, default_bin_path: &str) -> (r: Result<Config, ShadowError>)
    ensures
        spec_decode(text@, default_bin_path@) matches Some(c) ==> (r matches Ok(cfg) && cfg@ == c),
        spec_decode(text@, default_bin_path@) is None ==> (r matches Err(e) && e matches
            ShadowError::ConfigError(_)),
        r matches Ok(cfg) ==> registry_wf(cfg@.aliases),
{
    let lines: Vec<String> = split_lines(text);
    let ghost ls = spec_lines(text@);
    let n: usize = lines.len();
    proof {
        assert(views_of(lines@).len() == lines@.len());
    }
    let mut bin: Option<String> = None;
    let mut raw: Option<bool> = None;
    let mut i: usize = 0;
    loop
        invariant_except_break
            0 <= i <= n,
            n == ls.len(),
            ls == spec_lines(text@),
            ls == views_of(lines@),
            n == lines@.len(),
            spec_settings(ls, 0, None, None) == spec_settings(ls, i as int, opt_view(bin), raw),
        ensures
            0 <= i <= n,
            n == ls.len(),
            ls == spec_lines(text@),
            ls == views_of(lines@),
            n == lines@.len(),
            spec_settings(ls, 0, None, None) == Some(
                SettingsAcc { bin_path: opt_view(bin), always_use_raw: raw, next: i as int },
            ),
        decreases n - i,
    {
        if i == n {
            break;
        }
        let l: &str = lines[i].as_str();
        proof {
            assert(ls[i as int] == lines@[i as int]@);
        }
        if crate::text::str_eq(l, "[[aliases]]") {
            break;
        }
        if crate::text::str_eq(l, "[settings]") {
            i = i + 1;
        } else {
            match read_quoted(l, "bin_path = ") {
                KeyRead::Val(v) => {
                    bin = Some(v);
                    i = i + 1;
                },
                KeyRead::Bad => {
                    proof {
                        assert(spec_settings(ls, i as int, opt_view(bin), raw) is None);
                        assert(spec_parse(ls, default_bin_path@) is None);
                    }
                    return Err(malformed());
                },
                KeyRead::NotKey => {
                    if crate::text::str_starts_with(l, "always_use_raw = ") {
                        if crate::text::str_eq(l, "always_use_raw = true") {
                            raw = Some(true);
                            i = i + 1;
                        } else if crate::text::str_eq(l, "always_use_raw = false") {
                            raw = Some(false);
                            i = i + 1;
                        } else {
                            proof {
                                assert(spec_settings(ls, i as int, opt_view(bin), raw) is None);
                                assert(spec_parse(ls, default_bin_path@) is None);
                            }
                            return Err(malformed());
                        }
                    } else if skippable_line(l) {
                        i = i + 1;
                    } else {
                        proof {
                            assert(spec_settings(ls, i as int, opt_view(bin), raw) is None);
                            assert(spec_parse(ls, default_bin_path@) is None);
                        }
                        return Err(malformed());
                    }
                },
            }
        }
    }
    let ghost g_acc = SettingsAcc { bin_path: opt_view(bin), always_use_raw: raw, next: i as int };
    let ghost g_raw = raw;
    let ghost start = i as int;
    let bin_s: String = match bin {
        Some(b) => b,
        None => default_bin_path.to_owned(),
    };
    let always: bool = match raw {
        Some(b) => b,
        None => false,
    };
    let settings: Settings = Settings::new(bin_s, always);
    proof {
        assert(settings@.bin_path == (match g_acc.bin_path {
            Some(b) => b,
            None => default_bin_path@,
        }));
        assert(settings@.always_use_raw == (match g_acc.always_use_raw {
            Some(b) => b,
            None => false,
        }));
    }
    let mut aliases: crate::aliases::Aliases = crate::aliases::Aliases::empty();
    loop
        invariant_except_break
            0 <= start <= i <= n,
            n == ls.len(),
            ls == spec_lines(text@),
            ls == views_of(lines@),
            n == lines@.len(),
            spec_settings(ls, 0, None, None) == Some(g_acc),
            g_acc.next == start,
            spec_aliases(ls, i as int) is None ==> spec_aliases(ls, start) is None,
            spec_aliases(ls, i as int) matches Some(rest) ==> spec_aliases(ls, start) == Some(
                aliases@ + rest,
            ),
            registry_wf(aliases@),
        ensures
            spec_aliases(ls, start) == Some(aliases@),
            registry_wf(aliases@),
            spec_settings(ls, 0, None, None) == Some(g_acc),
            g_acc.next == start,
            ls == spec_lines(text@),
        decreases n - i,
    {
        if i == n {
            proof {
                assert(spec_aliases(ls, n as int) == Some(Seq::<AliasView>::empty()));
                assert(aliases@ + Seq::<AliasView>::empty() =~= aliases@);
            }
            break;
        }
        proof {
            assert(ls[i as int] == lines@[i as int]@);
        }
        if !crate::text::str_eq(lines[i].as_str(), "[[aliases]]") {
            proof {
                assert(spec_aliases(ls, i as int) is None);
                assert(spec_parse(ls, default_bin_path@) is None);
            }
            return Err(malformed());
        }
        let ghost hdr = i as int;
        let mut name: Option<String> = None;
        let mut command: Option<String> = None;
        let mut desc: Option<String> = None;
        let mut binp: Option<String> = None;
        let mut j: usize = i + 1;
        loop
            invariant_except_break
                hdr == i as int,
                0 <= start <= i < n,
                i < j <= n,
                n == ls.len(),
                ls == spec_lines(text@),
                ls == views_of(lines@),
                n == lines@.len(),
                spec_settings(ls, 0, None, None) == Some(g_acc),
                g_acc.next == start,
                ls[i as int] == h_alias(),
                spec_aliases(ls, i as int) is None ==> spec_aliases(ls, start) is None,
                spec_aliases(ls, i as int) matches Some(rest) ==> spec_aliases(ls, start) == Some(
                    aliases@ + rest,
                ),
                registry_wf(aliases@),
                spec_block(ls, i as int + 1, None, None, None, None) == spec_block(
                    ls,
                    j as int,
                    opt_view(name),
                    opt_view(command),
                    opt_view(desc),
                    opt_view(binp),
                ),
            ensures
                hdr == i as int,
                0 <= start <= i < n,
                i < j <= n,
                n == ls.len(),
                ls == spec_lines(text@),
                ls == views_of(lines@),
                n == lines@.len(),
                spec_settings(ls, 0, None, None) == Some(g_acc),
                g_acc.next == start,
                ls[i as int] == h_alias(),
                spec_aliases(ls, i as int) is None ==> spec_aliases(ls, start) is None,
                spec_aliases(ls, i as int) matches Some(rest) ==> spec_aliases(ls, start) == Some(
                    aliases@ + rest,
                ),
                registry_wf(aliases@),
                spec_block(ls, i as int + 1, None, None, None, None) == Some(
                    BlockAcc {
                        name: opt_view(name),
                        command: opt_view(command),
                        description: opt_view(desc),
                        bin_path: opt_view(binp),
                        next: j as int,
                    },
                ),
            decreases n - j,
        {
            if j == n {
                break;
            }
            let l: &str = lines[j].as_str();
            proof {
                assert(ls[j as int] == lines@[j as int]@);
            }
            if crate::text::str_eq(l, "[[aliases]]") {
                break;
            }
            match read_quoted(l, "original = ") {
                KeyRead::Val(v) => {
                    name = Some(v);
                },
                KeyRead::Bad => {
                    proof {
                        assert(spec_block(
                            ls,
                            j as int,
                            opt_view(name),
                            opt_view(command),
                            opt_view(desc),
                            opt_view(binp),
                        ) is None);
                        assert(spec_aliases(ls, i as int) is None);
                        assert(spec_parse(ls, default_bin_path@) is None);
                    }
                    return Err(malformed());
                },
                KeyRead::NotKey => {
                    match read_quoted(l, "replacement = ") {
                        KeyRead::Val(v) => {
                            command = Some(v);
                        },
                        KeyRead::Bad => {
                            proof {
                                assert(spec_block(
                                    ls,
                                    j as int,
                                    opt_view(name),
                                    opt_view(command),
                                    opt_view(desc),
                                    opt_view(binp),
                                ) is None);
                                assert(spec_aliases(ls, i as int) is None);
                                assert(spec_parse(ls, default_bin_path@) is None);
                            }
                            return Err(malformed());
                        },
                        KeyRead::NotKey => {
                            match read_quoted(l, "description = ") {
                                KeyRead::Val(v) => {
                                    desc = Some(v);
                                },
                                KeyRead::Bad => {
                                    proof {
                                        assert(spec_block(
                                            ls,
                                            j as int,
                                            opt_view(name),
                                            opt_view(command),
                                            opt_view(desc),
                                            opt_view(binp),
                                        ) is None);
                                        assert(spec_aliases(ls, i as int) is None);
                                        assert(spec_parse(ls, default_bin_path@) is None);
                                    }
                                    return Err(malformed());
                                },
                                KeyRead::NotKey => {
                                    match read_quoted(l, "bin_path = ") {
                                        KeyRead::Val(v) => {
                                            binp = Some(v);
                                        },
                                        KeyRead::Bad => {
                                            proof {
                                                assert(spec_block(
                                                    ls,
                                                    j as int,
                                                    opt_view(name),
                                                    opt_view(command),
                                                    opt_view(desc),
                                                    opt_view(binp),
                                                ) is None);
                                                assert(spec_aliases(ls, i as int) is None);
                                                assert(spec_parse(ls, default_bin_path@) is None);
                                            }
                                            return Err(malformed());
                                        },
                                        KeyRead::NotKey => {
                                            if !skippable_line(l) {
                                                proof {
                                                    assert(spec_block(
                                                        ls,
                                                        j as int,
                                                        opt_view(name),
                                                        opt_view(command),
                                                        opt_view(desc),
                                                        opt_view(binp),
                                                    ) is None);
                                                    assert(spec_aliases(ls, i as int) is None);
                                                    assert(spec_parse(
                                                        ls,
                                                        default_bin_path@,
                                                    ) is None);
                                                }
                                                return Err(malformed());
                                            }
                                        },
                                    }
                                },
                            }
                        },
                    }
                },
            }
            j = j + 1;
        }
        let (nm, cmd): (String, String) = match (name, command) {
            (Some(nm), Some(cmd)) => (nm, cmd),
            _ => {
                proof {
                    assert(spec_aliases(ls, i as int) is None);
                    assert(spec_parse(ls, default_bin_path@) is None);
                }
                return Err(malformed());
            },
        };
        let ghost av = AliasView {
            name: nm@,
            command: cmd@,
            description: opt_view(desc),
            bin_path: opt_view(binp),
        };
        proof {
            if spec_aliases(ls, j as int) is Some {
                let rest = spec_aliases(ls, j as int).unwrap();
                assert(spec_aliases(ls, i as int) == Some(seq![av] + rest));
            }
        }
        if nm.as_str().unicode_len() == 0 {
            proof {
                if spec_aliases(ls, j as int) is Some {
                    let rest = spec_aliases(ls, j as int).unwrap();
                    let whole = aliases@ + (seq![av] + rest);
                    assert(whole[aliases@.len() as int] == av);
                    assert(whole[aliases@.len() as int].name.len() == 0);
                    assert(!registry_wf(whole));
                    assert(spec_parse(ls, default_bin_path@) is None);
                } else {
                    assert(spec_aliases(ls, i as int) is None);
                    assert(spec_parse(ls, default_bin_path@) is None);
                }
            }
            return Err(malformed());
        }
        if aliases.contains(nm.as_str()) {
            proof {
                if spec_aliases(ls, j as int) is Some {
                    let rest = spec_aliases(ls, j as int).unwrap();
                    let whole = aliases@ + (seq![av] + rest);
                    let k = choose|k: int|
                        0 <= k < aliases@.len() && aliases@[k].name == nm@;
                    assert(whole[k] == aliases@[k]);
                    assert(whole[aliases@.len() as int] == av);
                    assert(!crate::aliases::names_unique(whole));
                    assert(spec_parse(ls, default_bin_path@) is None);
                } else {
                    assert(spec_aliases(ls, i as int) is None);
                    assert(spec_parse(ls, default_bin_path@) is None);
                }
            }
            return Err(malformed());
        }
        let ghost before = aliases@;
        aliases.insert(crate::aliases::Alias::new(nm, cmd, desc, binp));
        proof {
            assert(aliases@ == before.push(av));
            crate::aliases::lemma_add_preserves_unique(before, av);
            assert forall|k: int|
                0 <= k < aliases@.len() implies #[trigger] aliases@[k].name.len() > 0 by {
                if k < before.len() {
                    assert(aliases@[k] == before[k]);
                } else {
                    assert(aliases@[k] == av);
                }
            }
            if spec_aliases(ls, j as int) is Some {
                let rest = spec_aliases(ls, j as int).unwrap();
                assert(before + (seq![av] + rest) =~= aliases@ + rest);
            }
        }
        i = j;
    }
    let config: Config = Config::from_parts(settings, aliases);
    proof {
        assert(spec_parse(ls, default_bin_path@) == Some(config@));
    }
    Ok(config)
}

} // verus!
