//! Verified text helpers: character-wise string equality, prefix tests,
//! lexicographic ordering (used to sort the alias listing), and splitting a
//! replacement command line on whitespace.

use vstd::prelude::*;
use vstd::string::*;

verus! {

/// The whitespace characters a replacement command line is split on: the
/// Unicode White_Space set, as `char::is_whitespace` defines it.
pub open spec fn is_space(c: char) -> bool {
    let u = c as u32;
    u == 0x09 || u == 0x0A || u == 0x0B || u == 0x0C || u == 0x0D || u == 0x20 || u == 0x85 || u
        == 0xA0 || u == 0x1680 || (0x2000 <= u && u <= 0x200A) || u == 0x2028 || u == 0x2029 || u
        == 0x202F || u == 0x205F || u == 0x3000
}

/// Decides `is_space` on one character.
pub fn space_char(c: char) -> (r: bool)
    ensures
        r == is_space(c),
{
    let u: u32 = c as u32;
    u == 0x09 || u == 0x0A || u == 0x0B || u == 0x0C || u == 0x0D || u == 0x20 || u == 0x85 || u
        == 0xA0 || u == 0x1680 || (0x2000 <= u && u <= 0x200A) || u == 0x2028 || u == 0x2029 || u
        == 0x202F || u == 0x205F || u == 0x3000
}

/// Lexicographic "less or equal" on character sequences, ordering characters
/// by their scalar value. This is the order the alias listing is sorted by.
pub open spec fn lex_le(a: Seq<char>, b: Seq<char>) -> bool
    decreases a.len(),
{
    if a.len() == 0 {
        true
    } else if b.len() == 0 {
        false
    } else if (a[0] as u32) < (b[0] as u32) {
        true
    } else if (b[0] as u32) < (a[0] as u32) {
        false
    } else {
        lex_le(a.skip(1), b.skip(1))
    }
}

/// `lex_le` is total: any two sequences are comparable.
pub proof fn lemma_lex_le_total(a: Seq<char>, b: Seq<char>)
    ensures
        lex_le(a, b) || lex_le(b, a),
    decreases a.len(),
{
    if a.len() != 0 && b.len() != 0 && (a[0] as u32) == (b[0] as u32) {
        lemma_lex_le_total(a.skip(1), b.skip(1));
    }
}

/// `lex_le` is transitive.
pub proof fn lemma_lex_le_trans(a: Seq<char>, b: Seq<char>, c: Seq<char>)
    requires
        lex_le(a, b),
        lex_le(b, c),
    ensures
        lex_le(a, c),
    decreases a.len(),
{
    if a.len() != 0 && b.len() != 0 && c.len() != 0 && (a[0] as u32) == (b[0] as u32) && (
    b[0] as u32) == (c[0] as u32) {
        lemma_lex_le_trans(a.skip(1), b.skip(1), c.skip(1));
    }
}

/// `lex_le` is reflexive.
pub proof fn lemma_lex_le_refl(a: Seq<char>)
    ensures
        lex_le(a, a),
{
    lemma_lex_le_total(a, a);
}

/// How `filter` behaves on an extended sequence.
pub proof fn lemma_filter_push<A>(s: Seq<A>, pred: spec_fn(A) -> bool, x: A)
    ensures
        s.push(x).filter(pred) == (if pred(x) {
            s.filter(pred).push(x)
        } else {
            s.filter(pred)
        }),
{
    reveal_with_fuel(Seq::filter, 2);
    assert(s.push(x).drop_last() =~= s);
    assert(s.push(x).last() == x);
}

/// If the first `k` characters of `a` and `b` agree, comparing the remainders
/// decides the comparison of the whole sequences.
proof fn lemma_lex_le_common_prefix(a: Seq<char>, b: Seq<char>, k: int)
    requires
        0 <= k <= a.len(),
        k <= b.len(),
        forall|i: int| 0 <= i < k ==> a[i] == b[i],
    ensures
        lex_le(a, b) == lex_le(a.skip(k), b.skip(k)),
    decreases k,
{
    if k > 0 {
        assert(a.len() > 0 && b.len() > 0 && a[0] == b[0]);
        assert forall|i: int| 0 <= i < k - 1 implies a.skip(1)[i] == b.skip(1)[i] by {
            assert(a[i + 1] == b[i + 1]);
        }
        lemma_lex_le_common_prefix(a.skip(1), b.skip(1), k - 1);
        assert(a.skip(1).skip(k - 1) =~= a.skip(k));
        assert(b.skip(1).skip(k - 1) =~= b.skip(k));
    } else {
        assert(a.skip(0) =~= a);
        assert(b.skip(0) =~= b);
    }
}

/// Character-wise equality of two string slices.
pub fn str_eq(a: &str, b: &str) -> (r: bool)
    ensures
        r == (a@ == b@),
{
    let na: usize = a.unicode_len();
    let nb: usize = b.unicode_len();
    if na != nb {
        return false;
    }
    let mut i: usize = 0;
    while i < na
        invariant
            0 <= i <= na,
            na == a@.len(),
            na == b@.len(),
            forall|j: int| 0 <= j < i ==> a@[j] == b@[j],
        decreases na - i,
    {
        if a.get_char(i) != b.get_char(i) {
            return false;
        }
        i = i + 1;
    }
    proof {
        assert(a@ =~= b@);
    }
    true
}

/// Whether `p` is a prefix of `s`.
pub fn str_starts_with(s: &str, p: &str) -> (r: bool)
    ensures
        r == (p@.len() <= s@.len() && s@.subrange(0, p@.len() as int) == p@),
{
    let ns: usize = s.unicode_len();
    let np: usize = p.unicode_len();
    if np > ns {
        return false;
    }
    let mut i: usize = 0;
    while i < np
        invariant
            0 <= i <= np,
            np <= ns,
            ns == s@.len(),
            np == p@.len(),
            forall|j: int| 0 <= j < i ==> s@[j] == p@[j],
        decreases np - i,
    {
        if s.get_char(i) != p.get_char(i) {
            proof {
                assert(s@.subrange(0, p@.len() as int)[i as int] != p@[i as int]);
            }
            return false;
        }
        i = i + 1;
    }
    proof {
        assert(s@.subrange(0, p@.len() as int) =~= p@);
    }
    true
}

/// Decides `lex_le` on two string slices.
pub fn str_le(a: &str, b: &str) -> (r: bool)
    ensures
        r == lex_le(a@, b@),
{
    let na: usize = a.unicode_len();
    let nb: usize = b.unicode_len();
    let mut i: usize = 0;
    loop
        invariant
            0 <= i <= na,
            i <= nb,
            na == a@.len(),
            nb == b@.len(),
            forall|j: int| 0 <= j < i ==> a@[j] == b@[j],
        decreases na - i,
    {
        if i == na {
            proof {
                lemma_lex_le_common_prefix(a@, b@, i as int);
            }
            return true;
        }
        if i == nb {
            proof {
                lemma_lex_le_common_prefix(a@, b@, i as int);
                assert(a@.skip(i as int).len() > 0);
                assert(b@.skip(i as int).len() == 0);
            }
            return false;
        }
        let ca: char = a.get_char(i);
        let cb: char = b.get_char(i);
        proof {
            assert(a@.skip(i as int)[0] == a@[i as int]);
            assert(b@.skip(i as int)[0] == b@[i as int]);
        }
        if (ca as u32) < (cb as u32) {
            proof {
                lemma_lex_le_common_prefix(a@, b@, i as int);
            }
            return true;
        }
        if (cb as u32) < (ca as u32) {
            proof {
                lemma_lex_le_common_prefix(a@, b@, i as int);
            }
            return false;
        }
        proof {
            assert(ca == cb);
        }
        i = i + 1;
    }
}

/// The length of the maximal leading run of non-whitespace characters.
pub open spec fn leading_run(s: Seq<char>) -> nat
    decreases s.len(),
{
    if s.len() == 0 || is_space(s[0]) {
        0
    } else {
        1 + leading_run(s.skip(1))
    }
}

proof fn lemma_leading_run_le_len(s: Seq<char>)
    ensures
        leading_run(s) <= s.len(),
    decreases s.len(),
{
    if s.len() != 0 && !is_space(s[0]) {
        lemma_leading_run_le_len(s.skip(1));
    }
}

/// `leading_run` is exactly the first index holding whitespace (or the length
/// when there is none).
proof fn lemma_leading_run_index(s: Seq<char>, m: int)
    requires
        0 <= m <= s.len(),
        forall|k: int| 0 <= k < m ==> !is_space(s[k]),
        m == s.len() || is_space(s[m]),
    ensures
        leading_run(s) == m,
    decreases m,
{
    if m == 0 {
    } else {
        assert(!is_space(s[0]));
        lemma_leading_run_index(s.skip(1), m - 1);
    }
}

/// Splitting a sequence on whitespace: the maximal non-whitespace runs, in
/// order, with all whitespace dropped.
pub open spec fn spec_split_ws(s: Seq<char>) -> Seq<Seq<char>>
    decreases s.len(),
    when s.len() >= 0
    via spec_split_ws_decreases
{
    if s.len() == 0 {
        Seq::empty()
    } else if is_space(s[0]) {
        spec_split_ws(s.skip(1))
    } else {
        seq![s.take(leading_run(s) as int)] + spec_split_ws(s.skip(leading_run(s) as int))
    }
}

#[via_fn]
proof fn spec_split_ws_decreases(s: Seq<char>) {
    if s.len() != 0 && !is_space(s[0]) {
        lemma_leading_run_le_len(s);
        assert(leading_run(s) >= 1);
    }
}

/// A sequence that is empty or all whitespace: such a replacement command
/// line names no program to run.
pub open spec fn all_space(s: Seq<char>) -> bool {
    forall|i: int| 0 <= i < s.len() ==> is_space(s[i])
}

/// A sequence splits into no words exactly when it is empty or
/// whitespace-only.
pub proof fn lemma_split_ws_empty(s: Seq<char>)
    ensures
        (spec_split_ws(s).len() == 0) <==> all_space(s),
    decreases s.len(),
{
    if s.len() != 0 {
        if is_space(s[0]) {
            lemma_split_ws_empty(s.skip(1));
            if spec_split_ws(s).len() == 0 {
                assert forall|i: int| 0 <= i < s.len() implies is_space(s[i]) by {
                    if i > 0 {
                        assert(s.skip(1)[i - 1] == s[i]);
                    }
                }
            }
            if forall|i: int| 0 <= i < s.len() ==> is_space(s[i]) {
                assert forall|i: int| 0 <= i < s.skip(1).len() implies is_space(s.skip(1)[i]) by {
                    assert(s.skip(1)[i] == s[i + 1]);
                }
            }
        } else {
            assert(!is_space(s[0]));
        }
    }
}

/// Copies a vector of strings, element for element.
pub fn clone_strings(v: &Vec<String>) -> (r: Vec<String>)
    ensures
        r@ == v@,
{
    let n: usize = v.len();
    let mut r: Vec<String> = Vec::new();
    let mut i: usize = 0;
    while i < n
        invariant
            0 <= i <= n,
            n == v@.len(),
            r@ =~= v@.take(i as int),
        decreases n - i,
    {
        r.push(v[i].clone());
        i = i + 1;
    }
    proof {
        assert(r@ =~= v@);
    }
    r
}

/// Views of a vector of owned strings.
pub open spec fn views_of(v: Seq<String>) -> Seq<Seq<char>> {
    v.map_values(|t: String| t@)
}

/// Splits a string on whitespace into its maximal non-whitespace runs.
pub fn split_ws(s: &str) -> (r: Vec<String>)
    ensures
        views_of(r@) == spec_split_ws(s@),
{
    let n: usize = s.unicode_len();
    let mut out: Vec<String> = Vec::new();
    let mut i: usize = 0;
    proof {
        assert(s@.skip(0) =~= s@);
    }
    while i < n
        invariant
            0 <= i <= n,
            n == s@.len(),
            spec_split_ws(s@) == views_of(out@) + spec_split_ws(s@.skip(i as int)),
        decreases n - i,
    {
        let c: char = s.get_char(i);
        if space_char(c) {
            proof {
                assert(s@.skip(i as int)[0] == s@[i as int]);
                assert(s@.skip(i as int).skip(1) =~= s@.skip(i as int + 1));
            }
            i = i + 1;
        } else {
            let start: usize = i;
            let mut j: usize = i + 1;
            proof {
                assert(!is_space(s@[start as int]));
            }
            loop
                invariant_except_break
                    start < j <= n,
                    n == s@.len(),
                    forall|k: int| start <= k < j ==> !is_space(s@[k]),
                ensures
                    start < j <= n,
                    n == s@.len(),
                    forall|k: int| start <= k < j ==> !is_space(s@[k]),
                    j == n || is_space(s@[j as int]),
                decreases n - j,
            {
                if j == n {
                    break;
                }
                let d: char = s.get_char(j);
                if space_char(d) {
                    break;
                }
                j = j + 1;
            }
            let token: String = s.substring_char(start, j).to_owned();
            proof {
                let t = s@.skip(start as int);
                assert forall|k: int| 0 <= k < j - start implies !is_space(t[k]) by {
                    assert(t[k] == s@[start + k]);
                }
                if (j as int) - (start as int) < t.len() {
                    assert(t[(j as int) - (start as int)] == s@[j as int]);
                }
                lemma_leading_run_index(t, (j as int) - (start as int));
                assert(t.take(leading_run(t) as int) =~= s@.subrange(start as int, j as int));
                assert(t.skip(leading_run(t) as int) =~= s@.skip(j as int));
                assert(spec_split_ws(s@.skip(start as int)) == seq![
                    s@.subrange(start as int, j as int),
                ] + spec_split_ws(s@.skip(j as int)));
            }
            let ghost old_out = out@;
            out.push(token);
            proof {
                assert(views_of(out@) =~= views_of(old_out) + seq![token@]);
                assert(views_of(old_out) + (seq![token@] + spec_split_ws(s@.skip(j as int)))
                    =~= (views_of(old_out) + seq![token@]) + spec_split_ws(s@.skip(j as int)));
            }
            i = j;
        }
    }
    proof {
        assert(s@.skip(n as int) =~= Seq::<char>::empty());
        assert(views_of(out@) + spec_split_ws(s@.skip(n as int)) =~= views_of(out@));
    }
    out
}

} // verus!
