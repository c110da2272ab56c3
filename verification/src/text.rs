//! Verified text primitives for the store: substring matching for the search
//! engine, line splitting for the index, and the name component of a path.

use vstd::prelude::*;
use vstd::string::StrSliceExecFns;

verus! {

/// `needle` occurs as a contiguous substring of `hay`.
pub open spec fn has_substring(hay: Seq<char>, needle: Seq<char>) -> bool {
    exists|k: int|
        0 <= k && k + needle.len() <= hay.len() && #[trigger] hay.subrange(k, k + needle.len())
            == needle
}

/// Compares two string slices character by character.
pub fn str_eq(a: &str, b: &str) -> (r: bool)
    ensures
        r == (a@ == b@),
{
    let n = a.unicode_len();
    let m = b.unicode_len();
    if n != m {
        return false;
    }
    let mut i: usize = 0;
    while i < n
        invariant
            n == a@.len(),
            n == b@.len(),
            i <= n,
            forall|k: int| 0 <= k < i ==> a@[k] == b@[k],
        decreases n - i,
    {
        if a.get_char(i) != b.get_char(i) {
            return false;
        }
        i = i + 1;
    }
    proof {
        assert(a@ =~= b@);
    }
    true
}

/// `needle` matches `hay` at offset `k`.
fn matches_at(hay: &str, needle: &str, k: usize) -> (r: bool)
    requires
        k + needle@.len() <= hay@.len(),
        hay@.len() <= usize::MAX,
    ensures
        r == (hay@.subrange(k as int, k + needle@.len()) == needle@),
{
    let m = needle.unicode_len();
    let mut j: usize = 0;
    while j < m
        invariant
            m == needle@.len(),
            k + m <= hay@.len() <= usize::MAX,
            j <= m,
            forall|t: int| 0 <= t < j ==> hay@[k + t] == needle@[t],
        decreases m - j,
    {
        if hay.get_char(k + j) != needle.get_char(j) {
            proof {
                assert(hay@.subrange(k as int, k + needle@.len())[j as int] != needle@[j as int]);
            }
            return false;
        }
        j = j + 1;
    }
    proof {
        assert(hay@.subrange(k as int, k + needle@.len()) =~= needle@);
    }
    true
}

/// Decides whether `needle` occurs as a contiguous substring of `hay`
/// (case-sensitive, no tokenization).
pub fn contains_substring(hay: &str, needle: &str) -> (r: bool)
    ensures
        r == has_substring(hay@, needle@),
{
    let n = hay.unicode_len();
    let m = needle.unicode_len();
    if m == 0 {
        proof {
            assert(hay@.subrange(0, 0 + needle@.len() as int) =~= needle@);
        }
        return true;
    }
    if m > n {
        proof {
            if has_substring(hay@, needle@) {
                let k = choose|k: int|
                    0 <= k && k + needle@.len() <= hay@.len() && #[trigger] hay@.subrange(
                        k,
                        k + needle@.len(),
                    ) == needle@;
                assert(false);
            }
        }
        return false;
    }
    let mut k: usize = 0;
    while k <= n - m
        invariant
            n == hay@.len(),
            m == needle@.len(),
            1 <= m <= n,
            k <= n - m + 1,
            forall|t: int|
                0 <= t < k ==> #[trigger] hay@.subrange(t, t + needle@.len()) != needle@,
        decreases n - k,
    {
        if matches_at(hay, needle, k) {
            return true;
        }
        k = k + 1;
    }
    false
}

/// The index of the first `'\n'` in `s`, or `-1` if there is none.
pub open spec fn first_newline(s: Seq<char>) -> int
    decreases s.len(),
{
    if s.len() == 0 {
        -1
    } else if s[0] == '\n' {
        0
    } else if first_newline(s.drop_first()) < 0 {
        -1
    } else {
        first_newline(s.drop_first()) + 1
    }
}

/// `first_newline` returns the position of the first `'\n'`, and `-1` exactly
/// when the sequence holds none.
pub proof fn lemma_first_newline(s: Seq<char>)
    ensures
        first_newline(s) < 0 ==> forall|i: int| 0 <= i < s.len() ==> s[i] != '\n',
        first_newline(s) >= 0 ==> first_newline(s) < s.len() && s[first_newline(s)] == '\n'
            && forall|i: int| 0 <= i < first_newline(s) ==> s[i] != '\n',
    decreases s.len(),
{
    if s.len() > 0 && s[0] != '\n' {
        lemma_first_newline(s.drop_first());
        assert(forall|i: int| 1 <= i < s.len() ==> s[i] == s.drop_first()[i - 1]);
    }
}

/// A line with a trailing carriage return stripped, as happens before a
/// `'\n'` terminator.
pub open spec fn strip_cr(line: Seq<char>) -> Seq<char> {
    if line.len() > 0 && line.last() == '\r' {
        line.drop_last()
    } else {
        line
    }
}

/// The lines of `s`: terminators are `'\n'` or `"\r\n"`, are not part of any
/// line, and a final terminator is optional.
pub open spec fn spec_lines(s: Seq<char>) -> Seq<Seq<char>>
    decreases s.len(),
{
    if s.len() == 0 {
        Seq::empty()
    } else {
        let i = first_newline(s);
        if 0 <= i < s.len() {
            seq![strip_cr(s.subrange(0, i))] + spec_lines(s.subrange(i + 1, s.len() as int))
        } else {
            seq![s]
        }
    }
}

/// Splits `s` into its lines, in file order.
pub fn split_lines(s: &str) -> (v: Vec<String>)
    ensures
        v@.map_values(|l: String| l@) == spec_lines(s@),
{
    let n = s.unicode_len();
    let mut out: Vec<String> = Vec::new();
    let mut start: usize = 0;
    let mut i: usize = 0;
    proof {
        assert(s@.subrange(0, n as int) =~= s@);
        assert(out@.map_values(|l: String| l@) + spec_lines(s@) =~= spec_lines(s@));
    }
    while i < n
        invariant
            n == s@.len(),
            start <= i <= n,
            forall|k: int| start <= k < i ==> s@[k] != '\n',
            spec_lines(s@) == out@.map_values(|l: String| l@) + spec_lines(
                s@.subrange(start as int, n as int),
            ),
        decreases n - i,
    {
        if s.get_char(i) == '\n' {
            let ghost rest = s@.subrange(start as int, n as int);
            proof {
                lemma_first_newline(rest);
                assert(forall|k: int| 0 <= k < i - start ==> rest[k] == s@[start + k]);
                assert(rest[i - start] == s@[i as int]);
                assert(first_newline(rest) == i - start);
                assert(rest.subrange(0, i - start) =~= s@.subrange(start as int, i as int));
                assert(rest.subrange(i - start + 1, rest.len() as int) =~= s@.subrange(
                    i + 1,
                    n as int,
                ));
            }
            let line: String = if i > start && s.get_char(i - 1) == '\r' {
                proof {
                    assert(s@.subrange(start as int, i as int).last() == s@[i - 1]);
                    assert(strip_cr(s@.subrange(start as int, i as int)) =~= s@.subrange(
                        start as int,
                        i - 1,
                    ));
                }
                s.substring_char(start, i - 1).to_owned()
            } else {
                proof {
                    assert(strip_cr(s@.subrange(start as int, i as int)) =~= s@.subrange(
                        start as int,
                        i as int,
                    ));
                }
                s.substring_char(start, i).to_owned()
            };
            out.push(line);
            proof {
                assert(out@.map_values(|l: String| l@) =~= out@.drop_last().map_values(
                    |l: String| l@,
                ) + seq![out@.last()@]);
            }
            start = i + 1;
        }
        i = i + 1;
    }
    if start < n {
        let ghost rest = s@.subrange(start as int, n as int);
        proof {
            lemma_first_newline(rest);
            assert(forall|k: int| 0 <= k < rest.len() ==> rest[k] == s@[start + k]);
            assert(first_newline(rest) < 0);
            assert(spec_lines(rest) == seq![rest]);
        }
        let line = s.substring_char(start, n).to_owned();
        out.push(line);
        proof {
            assert(out@.map_values(|l: String| l@) =~= out@.drop_last().map_values(
                |l: String| l@,
            ) + seq![out@.last()@]);
        }
    } else {
        proof {
            assert(s@.subrange(start as int, n as int) =~= Seq::<char>::empty());
        }
    }
    proof {
        assert(out@.map_values(|l: String| l@) =~= spec_lines(s@));
    }
    out
}

/// A path separator: forward slash or backslash.
pub open spec fn is_separator(c: char) -> bool {
    c == '/' || c == '\\'
}

/// The index of the last path separator in `p`, or `-1` if there is none.
pub open spec fn last_separator(p: Seq<char>) -> int
    decreases p.len(),
{
    if p.len() == 0 {
        -1
    } else if is_separator(p.last()) {
        p.len() - 1
    } else {
        last_separator(p.drop_last())
    }
}

/// `p` with every trailing separator dropped: a path written `"a/b/"` names
/// the same entry as `"a/b"`.
pub open spec fn trim_trailing_separators(p: Seq<char>) -> Seq<char>
    decreases p.len(),
{
    if p.len() > 0 && is_separator(p.last()) {
        trim_trailing_separators(p.drop_last())
    } else {
        p
    }
}

/// The name component of a path: everything after the last separator, with
/// trailing separators ignored, so `"a/b"` and `"a/b/"` both name `"b"`.
pub open spec fn spec_name_component(p: Seq<char>) -> Seq<char> {
    let t = trim_trailing_separators(p);
    t.subrange(last_separator(t) + 1, t.len() as int)
}

/// Cutting a path right after its last non-separator character is exactly
/// what `trim_trailing_separators` does.
proof fn lemma_trim_trailing_separators(p: Seq<char>, end: int)
    requires
        0 <= end <= p.len(),
        forall|k: int| end <= k < p.len() ==> is_separator(p[k]),
        end > 0 ==> !is_separator(p[end - 1]),
    ensures
        trim_trailing_separators(p) == p.take(end),
    decreases p.len(),
{
    if p.len() == end {
        assert(p.take(end) =~= p);
    } else {
        assert(is_separator(p.last()));
        assert(forall|k: int| 0 <= k < p.len() - 1 ==> p.drop_last()[k] == p[k]);
        lemma_trim_trailing_separators(p.drop_last(), end);
        assert(p.drop_last().take(end) =~= p.take(end));
    }
}

/// `last_separator` points at a separator and nothing after it is one; it is
/// `-1` exactly when the path holds no separator.
pub proof fn lemma_last_separator(p: Seq<char>)
    ensures
        last_separator(p) >= 0 || last_separator(p) == -1,
        last_separator(p) < 0 ==> forall|i: int| 0 <= i < p.len() ==> !is_separator(p[i]),
        last_separator(p) >= 0 ==> last_separator(p) < p.len() && is_separator(
            p[last_separator(p)],
        ) && forall|i: int| last_separator(p) < i < p.len() ==> !is_separator(p[i]),
    decreases p.len(),
{
    if p.len() > 0 && !is_separator(p.last()) {
        lemma_last_separator(p.drop_last());
        assert(forall|i: int| 0 <= i < p.len() - 1 ==> p[i] == p.drop_last()[i]);
    }
}

/// The character at `k` is a path separator.
fn sep_at(p: &str, k: usize) -> (b: bool)
    requires
        k < p@.len(),
    ensures
        b == is_separator(p@[k as int]),
{
    let c = p.get_char(k);
    c == '/' || c == '\\'
}

/// Extracts the name component of `p`: everything after the last `'/'` or
/// `'\\'`, ignoring trailing separators, or all of `p` if it holds no
/// separator at all.
pub fn name_component(p: &str) -> (r: String)
    ensures
        r@ == spec_name_component(p@),
{
    let n = p.unicode_len();
    let mut end: usize = n;
    while end > 0 && sep_at(p, end - 1)
        invariant
            n == p@.len(),
            end <= n,
            forall|k: int| end <= k < n ==> is_separator(p@[k]),
        decreases end,
    {
        end = end - 1;
    }
    proof {
        lemma_trim_trailing_separators(p@, end as int);
    }
    let ghost t = p@.take(end as int);
    let mut i: usize = end;
    while i > 0
        invariant
            n == p@.len(),
            end <= n,
            t == p@.take(end as int),
            t == trim_trailing_separators(p@),
            i <= end,
            forall|k: int| i <= k < end ==> !is_separator(p@[k]),
        decreases i,
    {
        let c = p.get_char(i - 1);
        if c == '/' || c == '\\' {
            proof {
                lemma_last_separator(t);
                assert(t[i - 1] == p@[i - 1]);
                assert(is_separator(t[i - 1]));
                assert(forall|k: int| i <= k < end ==> t[k] == p@[k]);
                assert(last_separator(t) == i - 1);
                assert(t.subrange(i as int, end as int) =~= p@.subrange(i as int, end as int));
            }
            return p.substring_char(i, end).to_owned();
        }
        i = i - 1;
    }
    proof {
        lemma_last_separator(t);
        assert(forall|k: int| 0 <= k < end ==> t[k] == p@[k]);
        assert(last_separator(t) < 0);
        assert(t.subrange(0, end as int) =~= p@.subrange(0, end as int));
    }
    p.substring_char(0, end).to_owned()
}

} // verus!
