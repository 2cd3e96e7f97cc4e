//! Character-level scanning: whitespace trimming, line splitting and
//! string comparison, each specified over `Seq<char>`.

use vstd::prelude::*;
use vstd::string::StrSliceExecFns;

verus! {

/// The whitespace characters that trimming removes.
pub open spec fn spec_is_ws(c: char) -> bool {
    c == ' ' || c == '\t' || c == '\n' || c == '\r' || c == '\u{b}' || c == '\u{c}'
}

/// Index of the first character that is not whitespace (the length if all are).
pub open spec fn first_non_ws(s: Seq<char>) -> int
    decreases s.len(),
{
    if s.len() == 0 {
        0
    } else if !spec_is_ws(s[0]) {
        0
    } else {
        1 + first_non_ws(s.drop_first())
    }
}

/// One past the index of the last character that is not whitespace (0 if all are).
pub open spec fn past_last_non_ws(s: Seq<char>) -> int
    decreases s.len(),
{
    if s.len() == 0 {
        0
    } else if !spec_is_ws(s.last()) {
        s.len() as int
    } else {
        past_last_non_ws(s.drop_last())
    }
}

/// `s` with leading and trailing whitespace removed.
pub open spec fn spec_trim(s: Seq<char>) -> Seq<char> {
    if first_non_ws(s) == s.len() {
        Seq::empty()
    } else {
        s.subrange(first_non_ws(s), past_last_non_ws(s))
    }
}

pub proof fn lemma_first_non_ws(s: Seq<char>)
    ensures
        0 <= first_non_ws(s) <= s.len(),
        forall|j: int| 0 <= j < first_non_ws(s) ==> spec_is_ws(s[j]),
        first_non_ws(s) < s.len() ==> !spec_is_ws(s[first_non_ws(s)]),
    decreases s.len(),
{
    if s.len() > 0 && spec_is_ws(s[0]) {
        lemma_first_non_ws(s.drop_first());
        assert forall|j: int| 0 <= j < first_non_ws(s) implies spec_is_ws(s[j]) by {
            if j > 0 {
                assert(s[j] == s.drop_first()[j - 1]);
            }
        }
    }
}

pub proof fn lemma_past_last_non_ws(s: Seq<char>)
    ensures
        0 <= past_last_non_ws(s) <= s.len(),
        forall|j: int| past_last_non_ws(s) <= j < s.len() ==> spec_is_ws(s[j]),
        past_last_non_ws(s) > 0 ==> !spec_is_ws(s[past_last_non_ws(s) - 1]),
    decreases s.len(),
{
    if s.len() > 0 && spec_is_ws(s.last()) {
        lemma_past_last_non_ws(s.drop_last());
        assert forall|j: int| past_last_non_ws(s) <= j < s.len() implies spec_is_ws(s[j]) by {
            if j < s.len() - 1 {
                assert(s[j] == s.drop_last()[j]);
            }
        }
    }
}

/// Removes leading and trailing whitespace, as `spec_trim` describes.
pub fn trim_str<'a>(s: &'a str) -> (r: &'a str)
    ensures
        r@ == spec_trim(s@),
{
    proof {
        lemma_first_non_ws(s@);
        lemma_past_last_non_ws(s@);
    }
    let n: usize = s.unicode_len();
    let mut a: usize = 0;
    while a < n && is_ws_char(s.get_char(a))
        invariant
            0 <= a <= n,
            n == s@.len(),
            forall|j: int| 0 <= j < a ==> spec_is_ws(s@[j]),
        decreases n - a,
    {
        a = a + 1;
    }
    proof {
        assert(a as int == first_non_ws(s@)) by {
            if (a as int) < first_non_ws(s@) {
                assert(spec_is_ws(s@[a as int]));
            }
            if first_non_ws(s@) < a as int {
                assert(spec_is_ws(s@[first_non_ws(s@)]));
            }
        }
    }
    if a == n {
        let r = s.substring_char(0, 0);
        proof {
            assert(r@ =~= spec_trim(s@));
        }
        return r;
    }
    let mut b: usize = n;
    while b > a && is_ws_char(s.get_char(b - 1))
        invariant
            a <= b <= n,
            n == s@.len(),
            a < n,
            !spec_is_ws(s@[a as int]),
            forall|j: int| b <= j < n ==> spec_is_ws(s@[j]),
        decreases b,
    {
        b = b - 1;
    }
    proof {
        assert(b > a) by {
            if b == a {
                assert(spec_is_ws(s@[a as int]));
            }
        }
        assert(b as int == past_last_non_ws(s@)) by {
            if (b as int) < past_last_non_ws(s@) {
                assert(spec_is_ws(s@[past_last_non_ws(s@) - 1]));
            }
            if past_last_non_ws(s@) < b as int {
                assert(spec_is_ws(s@[b - 1]));
            }
        }
    }
    s.substring_char(a, b)
}

/// Whether `c` is one of the whitespace characters of `spec_is_ws`.
pub fn is_ws_char(c: char) -> (r: bool)
    ensures
        r == spec_is_ws(c),
{
    c == ' ' || c == '\t' || c == '\n' || c == '\r' || c == '\u{b}' || c == '\u{c}'
}

/// Index of the first line break (the length if there is none).
pub open spec fn first_nl(s: Seq<char>) -> nat
    decreases s.len(),
{
    if s.len() == 0 {
        0
    } else if s[0] == '\n' {
        0
    } else {
        (1 + first_nl(s.drop_first())) as nat
    }
}

pub proof fn lemma_first_nl(s: Seq<char>)
    ensures
        first_nl(s) <= s.len(),
        forall|j: int| 0 <= j < first_nl(s) ==> s[j] != '\n',
        first_nl(s) < s.len() ==> s[first_nl(s) as int] == '\n',
    decreases s.len(),
{
    if s.len() > 0 && s[0] != '\n' {
        lemma_first_nl(s.drop_first());
        assert forall|j: int| 0 <= j < first_nl(s) implies s[j] != '\n' by {
            if j > 0 {
                assert(s[j] == s.drop_first()[j - 1]);
            }
        }
    }
}

/// The source split at line breaks: always one more segment than there are
/// breaks, so an empty source is one empty line.
pub open spec fn spec_lines(s: Seq<char>) -> Seq<Seq<char>>
    decreases s.len(),
{
    let j = first_nl(s) as int;
    if j >= s.len() {
        seq![s]
    } else {
        seq![s.take(j)] + spec_lines(s.skip(j + 1))
    }
}

pub proof fn lemma_spec_lines_len(s: Seq<char>)
    ensures
        spec_lines(s).len() >= 1,
    decreases s.len(),
{
    lemma_first_nl(s);
    if first_nl(s) != s.len() {
        lemma_spec_lines_len(s.skip(first_nl(s) as int + 1));
    }
}

/// Splits the source into its lines, in order.
pub fn split_lines<'a>(s: &'a str) -> (r: Vec<&'a str>)
    ensures
        r@.len() == spec_lines(s@).len(),
        forall|i: int| 0 <= i < r@.len() ==> r@[i]@ == spec_lines(s@)[i],
{
    let n: usize = s.unicode_len();
    let mut out: Vec<&'a str> = Vec::new();
    let mut start: usize = 0;
    let mut i: usize = 0;
    proof {
        assert(s@.skip(0) =~= s@);
        assert(out@.map_values(|t: &str| t@) =~= Seq::<Seq<char>>::empty());
    }
    while i < n
        invariant
            0 <= start <= i <= n,
            n == s@.len(),
            forall|j: int| start <= j < i ==> s@[j] != '\n',
            spec_lines(s@) =~= out@.map_values(|t: &str| t@) + spec_lines(s@.skip(start as int)),
            out@.len() == spec_lines(s@).len() - spec_lines(s@.skip(start as int)).len(),
            forall|k: int| 0 <= k < out@.len() ==> #[trigger] out@[k]@ == spec_lines(s@)[k],
        decreases n - i,
    {
        if s.get_char(i) == '\n' {
            let line = s.substring_char(start, i);
            proof {
                let rest = s@.skip(start as int);
                lemma_first_nl(rest);
                assert(first_nl(rest) == i - start) by {
                    assert(forall|j: int| 0 <= j < i - start ==> rest[j] != '\n');
                    assert(rest[i - start] == '\n');
                    if first_nl(rest) < i - start {
                        assert(rest[first_nl(rest) as int] == '\n');
                    }
                }
                assert(rest.take(i - start) =~= line@);
                assert(rest.skip(i - start + 1) =~= s@.skip(i + 1));
                assert(spec_lines(rest) == seq![line@] + spec_lines(s@.skip(i + 1)));
                lemma_spec_lines_len(s@.skip(i + 1));
                assert((out@ + seq![line]).map_values(|t: &str| t@) =~= out@.map_values(
                    |t: &str| t@,
                ) + seq![line@]);
            }
            out.push(line);
            start = i + 1;
        }
        i = i + 1;
    }
    let line = s.substring_char(start, n);
    proof {
        let rest = s@.skip(start as int);
        lemma_first_nl(rest);
        assert(first_nl(rest) == rest.len()) by {
            if first_nl(rest) < rest.len() {
                assert(rest[first_nl(rest) as int] == '\n');
            }
        }
        assert(rest =~= line@);
        assert(spec_lines(rest) == seq![rest]);
        assert((out@ + seq![line]).map_values(|t: &str| t@) =~= out@.map_values(|t: &str| t@)
            + seq![line@]);
    }
    out.push(line);
    out
}

/// Whether the two strings hold the same characters.
pub fn str_eq(a: &str, b: &str) -> (r: bool)
    ensures
        r == (a@ == b@),
{
    let na: usize = a.unicode_len();
    let nb: usize = b.unicode_len();
    if na != nb {
        proof {
            assert(a@ != b@);
        }
        return false;
    }
    let mut i: usize = 0;
    while i < na
        invariant
            0 <= i <= na,
            na == a@.len(),
            na == b@.len(),
            forall|j: int| 0 <= j < i ==> a@[j] == b@[j],
        decreases na - i,
    {
        if a.get_char(i) != b.get_char(i) {
            proof {
                assert(a@ != b@);
            }
            return false;
        }
        i = i + 1;
    }
    proof {
        assert(a@ =~= b@);
    }
    true
}

} // verus!
