//! Finding the packages that a project's R sources load, and choosing which of
//! them a configuration still lacks.
use vstd::prelude::*;
use crate::names::{lemma_name_lt_total, lemma_name_lt_transitive, name_less, name_lt};

verus! {

/// The package names that `library(...)` and `require(...)` calls in `line`
/// load, in order of appearance.
pub uninterp spec fn library_calls_in(line: Seq<char>) -> Seq<Seq<char>>;

/// A character of a package name as the loading pattern captures it: `[A-Za-z0-9_.]`.
pub open spec fn is_name_char(c: char) -> bool {
    ('a' <= c && c <= 'z') || ('A' <= c && c <= 'Z') || ('0' <= c && c <= '9') || c == '_' || c == '.'
}

/// Relies on regex's `Regex::captures_iter`: the first capture group of each
/// match of the package-loading pattern, in order, which depends on the line
/// alone; the group is `[A-Za-z0-9_.]+`, so each name is non-empty and made of
/// those characters.
#[verifier::external_body]
fn library_calls(line: &str) -> (r: Vec<String>)
    ensures
        r@.map_values(|s: String| s@) == library_calls_in(line@),
        forall|i: int| 0 <= i < r@.len() ==> (#[trigger] r@[i])@.len() > 0 && forall|j: int|
            0 <= j < r@[i]@.len() ==> is_name_char(#[trigger] r@[i]@[j]),
{
    let re = regex::Regex::new(r#"(?:library|require)\(\s*["']?([A-Za-z0-9_.]+)["']?\s*\)"#).unwrap();
    re.captures_iter(line).filter_map(|c| c.get(1)).map(|m| m.as_str().to_string()).collect()
}

/// Whether `c` has the Unicode `White_Space` property.
pub uninterp spec fn is_blank(c: char) -> bool;

/// Relies on `char::is_whitespace`: whether the character has the Unicode
/// `White_Space` property, which depends on the character alone.
#[verifier::external_body]
fn whitespace(c: char) -> (r: bool)
    ensures
        r == is_blank(c),
{
    c.is_whitespace()
}

/// The line's first character after leading whitespace is `#`.
pub open spec fn is_comment(line: Seq<char>) -> bool
    decreases line.len(),
{
    if line.len() == 0 {
        false
    } else if is_blank(line[0]) {
        is_comment(line.drop_first())
    } else {
        line[0] == '#'
    }
}

/// The packages loaded by the non-comment lines, in order.
pub open spec fn calls_in_lines(lines: Seq<Seq<char>>) -> Seq<Seq<char>>
    decreases lines.len(),
{
    if lines.len() == 0 {
        Seq::empty()
    } else {
        let last = lines.last();
        calls_in_lines(lines.drop_last()) + if is_comment(last) {
            Seq::empty()
        } else {
            library_calls_in(last)
        }
    }
}

/// Whether `line` is a comment: `#` after any leading whitespace.
pub fn is_comment_line(line: &str) -> (r: bool)
    ensures
        r == is_comment(line@),
{
    let n = line.unicode_len();
    let mut i: usize = 0;
    assert(line@.skip(0) =~= line@);
    while i < n
        invariant
            n == line@.len(),
            0 <= i <= n,
            is_comment(line@) == is_comment(line@.skip(i as int)),
            forall|j: int| 0 <= j < i ==> is_blank(#[trigger] line@[j]),
        decreases n - i,
    {
        let c = line.get_char(i);
        assert(line@.skip(i as int).drop_first() =~= line@.skip(i + 1));
        if !whitespace(c) {
            return c == '#';
        }
        i = i + 1;
    }
    false
}

/// The packages that the lines of a source file load, comment lines skipped.
pub fn packages_in_lines(lines: &Vec<String>) -> (r: Vec<String>)
    ensures
        r@.map_values(|s: String| s@) == calls_in_lines(lines@.map_values(|s: String| s@)),
{
    let ghost all = lines@.map_values(|s: String| s@);
    let mut out: Vec<String> = Vec::new();
    let mut i: usize = 0;
    while i < lines.len()
        invariant
            0 <= i <= lines.len(),
            all == lines@.map_values(|s: String| s@),
            out@.map_values(|s: String| s@) == calls_in_lines(all.take(i as int)),
        decreases lines.len() - i,
    {
        let line = lines[i].as_str();
        let ghost prev = out@.map_values(|s: String| s@);
        assert(all.take(i + 1).drop_last() =~= all.take(i as int));
        assert(all.take(i + 1).last() == line@);
        if !is_comment_line(line) {
            let found = library_calls(line);
            let mut k: usize = 0;
            while k < found.len()
                invariant
                    0 <= k <= found.len(),
                    out@.map_values(|s: String| s@) =~= prev + found@.map_values(|s: String| s@).take(k as int),
                decreases found.len() - k,
            {
                let ghost o = out@.map_values(|s: String| s@);
                let x = found[k].clone();
                out.push(x);
                assert(out@.map_values(|s: String| s@) =~= o.push(found@[k as int]@));
                assert(found@.map_values(|s: String| s@).take(k + 1) =~= found@.map_values(|s: String| s@).take(k as int).push(found@[k as int]@));
                k = k + 1;
            }
            assert(found@.map_values(|s: String| s@).take(k as int) =~= found@.map_values(|s: String| s@));
        } else {
            assert(out@.map_values(|s: String| s@) =~= prev + Seq::<Seq<char>>::empty());
        }
        i = i + 1;
    }
    assert(all.take(lines.len() as int) =~= all);
    out
}

/// A hidden directory entry: a name of more than one character starting with `.`.
pub open spec fn hidden(name: Seq<char>) -> bool {
    name.len() > 1 && name[0] == '.'
}

/// Whether a file or directory name is hidden (`.git`, but not `.` itself).
pub fn is_hidden_name(name: &str) -> (r: bool)
    ensures
        r == hidden(name@),
{
    let n = name.unicode_len();
    n > 1 && name.get_char(0) == '.'
}

/// The packages of `packages` that `existing` does not name, in order;
/// a package named twice in `packages` is kept twice.
pub open spec fn missing_from(existing: Seq<Seq<char>>, packages: Seq<Seq<char>>) -> Seq<Seq<char>> {
    packages.filter(|p: Seq<char>| !existing.contains(p))
}

/// The packages of `packages` that the configuration's dependency names
/// `existing` lack, in the order given.
pub fn packages_to_add(existing: &Vec<String>, packages: &Vec<String>) -> (r: Vec<String>)
    ensures
        r@.map_values(|s: String| s@) == missing_from(
            existing@.map_values(|s: String| s@),
            packages@.map_values(|s: String| s@),
        ),
{
    let ghost ex = existing@.map_values(|s: String| s@);
    let ghost ps = packages@.map_values(|s: String| s@);
    let mut out: Vec<String> = Vec::new();
    let mut i: usize = 0;
    while i < packages.len()
        invariant
            0 <= i <= packages.len(),
            ex == existing@.map_values(|s: String| s@),
            ps == packages@.map_values(|s: String| s@),
            out@.map_values(|s: String| s@) == missing_from(ex, ps.take(i as int)),
        decreases packages.len() - i,
    {
        let mut j: usize = 0;
        let mut present = false;
        while j < existing.len()
            invariant
                0 <= j <= existing.len(),
                0 <= i < packages.len(),
                ex == existing@.map_values(|s: String| s@),
                present == exists|k: int| 0 <= k < j && ex[k] == packages@[i as int]@,
            decreases existing.len() - j,
        {
            if existing[j] == packages[i] {
                assert(ex[j as int] == packages@[i as int]@);
                present = true;
            }
            j = j + 1;
        }
        let ghost before = out@.map_values(|s: String| s@);
        assert(ps.take(i + 1) =~= ps.take(i as int).push(ps[i as int]));
        assert(ps[i as int] == packages@[i as int]@);
        proof {
            ps.take(i as int).lemma_filter_push(ps[i as int], |p: Seq<char>| !ex.contains(p));
        }
        if !present {
            out.push(packages[i].clone());
            assert(out@.map_values(|s: String| s@) =~= before.push(packages@[i as int]@));
        } else {
            assert(ex.contains(ps[i as int]));
        }
        i = i + 1;
    }
    assert(ps.take(packages.len() as int) =~= ps);
    out
}

/// Whether a path component is named `rv`, whose contents are never scanned.
pub fn is_excluded_name(name: &str) -> (r: bool)
    ensures
        r == (name@ == "rv"@),
{
    proof {
        reveal_strlit("rv");
    }
    let n = name.unicode_len();
    if n != 2 {
        return false;
    }
    let r = name.get_char(0) == 'r' && name.get_char(1) == 'v';
    proof {
        if r {
            assert(name@ =~= "rv"@);
        }
    }
    r
}

/// Some name of `s` is `n`.
pub open spec fn has_name(s: Seq<String>, n: Seq<char>) -> bool {
    exists|i: int| 0 <= i < s.len() && (#[trigger] s[i])@ == n
}

/// The names of `v` in strictly increasing order, each once.
pub fn sorted_unique(v: &Vec<String>) -> (r: Vec<String>)
    ensures
        forall|i: int, j: int| 0 <= i < j < r@.len() ==> name_lt(#[trigger] r@[i]@, #[trigger] r@[j]@),
        forall|i: int| 0 <= i < r@.len() ==> has_name(v@, #[trigger] r@[i]@),
        forall|k: int| 0 <= k < v@.len() ==> has_name(r@, #[trigger] v@[k]@),
{
    let mut out: Vec<String> = Vec::new();
    let mut k: usize = 0;
    while k < v.len()
        invariant
            0 <= k <= v.len(),
            forall|i: int, j: int| 0 <= i < j < out@.len() ==> name_lt(#[trigger] out@[i]@, #[trigger] out@[j]@),
            forall|i: int| 0 <= i < out@.len() ==> has_name(v@, #[trigger] out@[i]@),
            forall|kk: int| 0 <= kk < k ==> has_name(out@, #[trigger] v@[kk]@),
        decreases v.len() - k,
    {
        let x = &v[k];
        let mut p: usize = 0;
        while p < out.len() && name_less(&out[p], x)
            invariant
                0 <= p <= out.len(),
                forall|i: int| 0 <= i < p ==> name_lt((#[trigger] out@[i])@, x@),
            decreases out.len() - p,
        {
            p = p + 1;
        }
        if p < out.len() && out[p] == *x {
            assert(has_name(out@, v@[k as int]@));
            k = k + 1;
        } else {
            let ghost old_out = out@;
            proof {
                if p < out.len() {
                    lemma_name_lt_total(out@[p as int]@, x@);
                }
            }
            out.insert(p, x.clone());
            proof {
                assert forall|i: int, j: int| 0 <= i < j < out@.len() implies name_lt(#[trigger] out@[i]@, #[trigger] out@[j]@) by {
                    if j < p {
                        assert(out@[i] == old_out[i] && out@[j] == old_out[j]);
                    } else if j == p {
                        assert(out@[i] == old_out[i]);
                    } else if i == p {
                        assert(out@[j] == old_out[j - 1]);
                        if j - 1 > p {
                            lemma_name_lt_transitive(x@, old_out[p as int]@, old_out[j - 1]@);
                        }
                    } else if i < p {
                        assert(out@[i] == old_out[i] && out@[j] == old_out[j - 1]);
                    } else {
                        assert(out@[i] == old_out[i - 1] && out@[j] == old_out[j - 1]);
                    }
                }
                assert forall|i: int| 0 <= i < out@.len() implies has_name(v@, #[trigger] out@[i]@) by {
                    if i < p {
                        assert(out@[i] == old_out[i]);
                        assert(has_name(v@, old_out[i]@));
                    } else if i == p {
                        assert(out@[i]@ == v@[k as int]@);
                        assert(has_name(v@, out@[i]@));
                    } else {
                        assert(out@[i] == old_out[i - 1]);
                        assert(has_name(v@, old_out[i - 1]@));
                    }
                }
                assert forall|kk: int| 0 <= kk < k + 1 implies has_name(out@, #[trigger] v@[kk]@) by {
                    if kk == k {
                        assert(out@[p as int]@ == v@[kk]@);
                        assert(has_name(out@, v@[kk]@));
                    } else {
                        assert(has_name(old_out, v@[kk]@));
                        let i = choose|i: int| 0 <= i < old_out.len() && (#[trigger] old_out[i])@ == v@[kk]@;
                        if i < p {
                            assert(out@[i] == old_out[i]);
                        } else {
                            assert(out@[i + 1] == old_out[i]);
                        }
                        assert(has_name(out@, v@[kk]@));
                    }
                }
            }
            k = k + 1;
        }
    }
    out
}

} // verus!
