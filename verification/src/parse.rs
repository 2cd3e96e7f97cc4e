//! Per-line syntax: classification of a source line, removal of inline
//! comments, the numeric-or-symbol reading of an address operand, and the
//! `dest`/`comp`/`jump` field split of a compute instruction.

use vstd::prelude::*;
use vstd::string::StrSliceExecFns;
use crate::scan::{spec_trim, trim_str};

verus! {

/// A trimmed line that the passes skip: empty, or opening an end-of-line
/// comment.
pub open spec fn spec_is_ignored(t: Seq<char>) -> bool {
    t.len() == 0 || (t.len() >= 2 && t[0] == '/' && t[1] == '/')
}

/// A trimmed line that declares a label: it opens with `(` and closes with
/// `)`.
pub open spec fn spec_is_label(t: Seq<char>) -> bool {
    t.len() > 0 && t[0] == '(' && t.last() == ')'
}

/// The text strictly between the parentheses of a label declaration.
pub open spec fn spec_label_name(t: Seq<char>) -> Seq<char> {
    t.subrange(1, t.len() - 1)
}

/// Whether the trimmed line is ignored, as `spec_is_ignored` describes.
pub fn is_ignored_line(t: &str) -> (r: bool)
    ensures
        r == spec_is_ignored(t@),
{
    let n: usize = t.unicode_len();
    n == 0 || (n >= 2 && t.get_char(0) == '/' && t.get_char(1) == '/')
}

/// Whether the trimmed line declares a label, as `spec_is_label` describes.
pub fn is_label_line(t: &str) -> (r: bool)
    ensures
        r == spec_is_label(t@),
{
    let n: usize = t.unicode_len();
    n > 0 && t.get_char(0) == '(' && t.get_char(n - 1) == ')'
}

/// Index of the first two-character comment marker (the length if there is
/// none).
pub open spec fn first_marker(s: Seq<char>) -> nat
    decreases s.len(),
{
    if s.len() < 2 {
        s.len()
    } else if s[0] == '/' && s[1] == '/' {
        0
    } else {
        (1 + first_marker(s.drop_first())) as nat
    }
}

pub proof fn lemma_first_marker(s: Seq<char>)
    ensures
        first_marker(s) <= s.len(),
        forall|j: int|
            0 <= j < first_marker(s) && j + 1 < s.len() ==> !(#[trigger] s[j] == '/' && s[j + 1] == '/'),
        first_marker(s) + 1 < s.len() ==> s[first_marker(s) as int] == '/' && s[first_marker(s)
            as int + 1] == '/',
        first_marker(s) < s.len() ==> first_marker(s) + 1 < s.len(),
    decreases s.len(),
{
    if s.len() >= 2 && !(s[0] == '/' && s[1] == '/') {
        lemma_first_marker(s.drop_first());
        assert forall|j: int|
            0 <= j < first_marker(s) && j + 1 < s.len() implies !(#[trigger] s[j] == '/' && s[j + 1]
            == '/') by {
            if j > 0 {
                assert(s[j] == s.drop_first()[j - 1]);
                assert(s[j + 1] == s.drop_first()[j]);
            }
        }
    }
}

/// The payload of a trimmed real-instruction line: the text before any
/// inline comment, trimmed again.
pub open spec fn spec_payload(t: Seq<char>) -> Seq<char> {
    spec_trim(t.take(first_marker(t) as int))
}

/// Finds the first two-character comment marker, as `first_marker` describes.
fn find_marker(t: &str) -> (m: usize)
    ensures
        m == first_marker(t@),
        m <= t@.len(),
{
    proof {
        lemma_first_marker(t@);
    }
    let n: usize = t.unicode_len();
    if n < 2 {
        return n;
    }
    let mut i: usize = 0;
    while i < n - 1
        invariant
            n >= 2,
            0 <= i <= n - 1,
            n == t@.len(),
            forall|j: int|
                0 <= j < i && j + 1 < n ==> !(#[trigger] t@[j] == '/' && t@[j + 1] == '/'),
        decreases n - 1 - i,
    {
        if t.get_char(i) == '/' && t.get_char(i + 1) == '/' {
            proof {
                lemma_first_marker(t@);
                assert(first_marker(t@) == i) by {
                    if first_marker(t@) < i as int {
                        assert(!(t@[first_marker(t@) as int] == '/' && t@[first_marker(t@) as int
                            + 1] == '/'));
                    }
                    if (i as int) < first_marker(t@) {
                        assert(!(t@[i as int] == '/' && t@[i + 1] == '/'));
                    }
                }
            }
            return i;
        }
        i = i + 1;
    }
    proof {
        assert(first_marker(t@) == n) by {
            if first_marker(t@) < n {
                assert(!(t@[first_marker(t@) as int] == '/' && t@[first_marker(t@) as int + 1]
                    == '/'));
            }
        }
    }
    n
}

/// Cuts the trimmed line at its inline comment and trims the remainder, as
/// `spec_payload` describes.
pub fn payload_of<'a>(t: &'a str) -> (r: &'a str)
    ensures
        r@ == spec_payload(t@),
{
    let m = find_marker(t);
    let cut = t.substring_char(0, m);
    proof {
        assert(cut@ =~= t@.take(first_marker(t@) as int));
    }
    trim_str(cut)
}

/// Whether `c` is a decimal digit.
pub open spec fn spec_is_digit(c: char) -> bool {
    48 <= (c as u32) && (c as u32) <= 57
}

/// The decimal value of a digit string (arbitrary when a character is not a
/// digit).
pub open spec fn spec_digits_val(d: Seq<char>) -> int
    decreases d.len(),
{
    if d.len() == 0 {
        0
    } else {
        spec_digits_val(d.drop_last()) * 10 + ((d.last() as u32) - 48)
    }
}

/// The digit part of an address operand: an optional leading plus sign is
/// dropped, as the integer parser of the original tool accepts one.
pub open spec fn spec_digit_part(s: Seq<char>) -> Seq<char> {
    if s.len() > 0 && s[0] == '+' {
        s.drop_first()
    } else {
        s
    }
}

/// How an address operand reads as a 16-bit number: `Some` exactly when,
/// after an optional leading plus sign, it is one or more decimal digits
/// whose value fits.
pub open spec fn spec_parse_u16(s: Seq<char>) -> Option<u16> {
    let d = spec_digit_part(s);
    if d.len() > 0 && (forall|j: int| 0 <= j < d.len() ==> spec_is_digit(#[trigger] d[j]))
        && spec_digits_val(d) <= 0xFFFF {
        Some(spec_digits_val(d) as u16)
    } else {
        None
    }
}

/// A digit string is worth at least any of its prefixes.
proof fn lemma_digits_val_prefix(d: Seq<char>, i: int)
    requires
        0 <= i <= d.len(),
        forall|j: int| 0 <= j < d.len() ==> spec_is_digit(#[trigger] d[j]),
    ensures
        spec_digits_val(d.take(i)) <= spec_digits_val(d),
        spec_digits_val(d) >= 0,
    decreases d.len(),
{
    if d.len() > 0 {
        lemma_digits_val_prefix(d.drop_last(), if i < d.len() { i } else { i - 1 });
        if i < d.len() {
            assert(d.take(i) =~= d.drop_last().take(i));
        } else {
            assert(d.take(i) =~= d);
        }
        assert(spec_is_digit(d.last()));
    } else {
        assert(d.take(i) =~= d);
    }
}

/// Reads the operand as a 16-bit number, as `spec_parse_u16` describes.
pub fn parse_u16(s: &str) -> (r: Option<u16>)
    ensures
        r == spec_parse_u16(s@),
{
    let n: usize = s.unicode_len();
    let start: usize = if n > 0 && s.get_char(0) == '+' {
        1
    } else {
        0
    };
    let ghost d = spec_digit_part(s@);
    proof {
        assert(d =~= s@.subrange(start as int, n as int));
    }
    if start == n {
        return None;
    }
    let mut val: u32 = 0;
    let mut i: usize = start;
    while i < n
        invariant
            start <= i <= n,
            n == s@.len(),
            d == spec_digit_part(s@),
            d == s@.subrange(start as int, n as int),
            d.len() == n - start,
            forall|j: int| 0 <= j < i - start ==> spec_is_digit(#[trigger] d[j]),
            val == spec_digits_val(d.take(i - start)),
            val <= 0xFFFF,
        decreases n - i,
    {
        let c = s.get_char(i);
        let u: u32 = c as u32;
        if u < 48 || u > 57 {
            proof {
                assert(d[i - start] == s@[i as int]);
                assert(!(forall|j: int| 0 <= j < d.len() ==> spec_is_digit(#[trigger] d[j]))) by {
                    assert(0 <= i - start < d.len());
                    assert(!spec_is_digit(d[i - start]));
                }
                assert(spec_parse_u16(s@) is None);
            }
            return None;
        }
        let digit: u32 = u - 48;
        proof {
            assert(d.take(i - start + 1).drop_last() =~= d.take(i - start));
            assert(d.take(i - start + 1).last() == d[i - start]);
            assert(d[i - start] == s@[i as int]);
        }
        val = val * 10 + digit;
        i = i + 1;
        if val > 0xFFFF {
            proof {
                assert(spec_digits_val(d.take(i - start)) > 0xFFFF);
                if (forall|j: int| 0 <= j < d.len() ==> spec_is_digit(#[trigger] d[j])) {
                    lemma_digits_val_prefix(d, i - start);
                    assert(spec_digits_val(d) > 0xFFFF);
                }
                assert(spec_parse_u16(s@) is None);
            }
            return None;
        }
    }
    proof {
        assert(d.take(n - start) =~= d);
    }
    Some(val as u16)
}

/// Whether `c` separates the fields of a compute instruction.
pub open spec fn spec_is_delim(c: char) -> bool {
    c == '=' || c == ';'
}

/// Index of the first field separator (the length if there is none).
pub open spec fn first_delim(s: Seq<char>) -> nat
    decreases s.len(),
{
    if s.len() == 0 {
        0
    } else if spec_is_delim(s[0]) {
        0
    } else {
        (1 + first_delim(s.drop_first())) as nat
    }
}

pub proof fn lemma_first_delim(s: Seq<char>)
    ensures
        first_delim(s) <= s.len(),
        forall|j: int| 0 <= j < first_delim(s) ==> !spec_is_delim(#[trigger] s[j]),
        first_delim(s) < s.len() ==> spec_is_delim(s[first_delim(s) as int]),
    decreases s.len(),
{
    if s.len() > 0 && !spec_is_delim(s[0]) {
        lemma_first_delim(s.drop_first());
        assert forall|j: int| 0 <= j < first_delim(s) implies !spec_is_delim(#[trigger] s[j]) by {
            if j > 0 {
                assert(s[j] == s.drop_first()[j - 1]);
            }
        }
    }
}

/// Index just past the last field separator (0 if there is none).
pub open spec fn past_last_delim(s: Seq<char>) -> nat
    decreases s.len(),
{
    if s.len() == 0 {
        0
    } else if spec_is_delim(s.last()) {
        s.len()
    } else {
        past_last_delim(s.drop_last())
    }
}

pub proof fn lemma_past_last_delim(s: Seq<char>)
    ensures
        past_last_delim(s) <= s.len(),
        forall|j: int| past_last_delim(s) <= j < s.len() ==> !spec_is_delim(#[trigger] s[j]),
        past_last_delim(s) > 0 ==> spec_is_delim(s[past_last_delim(s) - 1]),
    decreases s.len(),
{
    if s.len() > 0 && !spec_is_delim(s.last()) {
        lemma_past_last_delim(s.drop_last());
        assert forall|j: int| past_last_delim(s) <= j < s.len() implies !spec_is_delim(
            #[trigger] s[j],
        ) by {
            if j < s.len() - 1 {
                assert(s[j] == s.drop_last()[j]);
            }
        }
    }
}

/// Whether some character of `s` is `c`.
pub open spec fn spec_has_char(s: Seq<char>, c: char) -> bool {
    exists|i: int| 0 <= i < s.len() && s[i] == c
}

/// The `dest` field: the text before the first separator, present only when
/// the payload holds an `=`.
pub open spec fn spec_dest_text(s: Seq<char>) -> Seq<char> {
    if spec_has_char(s, '=') {
        s.take(first_delim(s) as int)
    } else {
        Seq::empty()
    }
}

/// The `comp` field: the second field of the separator split when the
/// payload holds an `=`, else its first field.
pub open spec fn spec_comp_text(s: Seq<char>) -> Seq<char> {
    if spec_has_char(s, '=') {
        let a = first_delim(s) as int + 1;
        s.subrange(a, a + first_delim(s.skip(a)) as int)
    } else {
        s.take(first_delim(s) as int)
    }
}

/// The `jump` field: the text after the last separator, present only when
/// the payload holds a `;`.
pub open spec fn spec_jump_text(s: Seq<char>) -> Seq<char> {
    if spec_has_char(s, ';') {
        s.skip(past_last_delim(s) as int)
    } else {
        Seq::empty()
    }
}

/// Whether `s` holds the character `c`.
fn find_char(s: &str, c: char) -> (r: bool)
    ensures
        r == spec_has_char(s@, c),
{
    let n: usize = s.unicode_len();
    let mut i: usize = 0;
    while i < n
        invariant
            0 <= i <= n,
            n == s@.len(),
            forall|j: int| 0 <= j < i ==> s@[j] != c,
        decreases n - i,
    {
        if s.get_char(i) == c {
            return true;
        }
        i = i + 1;
    }
    false
}

/// Index of the first field separator at or after `from` (the length if
/// there is none).
fn scan_delim(s: &str, from: usize) -> (r: usize)
    requires
        from <= s@.len(),
    ensures
        r == from + first_delim(s@.skip(from as int)),
        from <= r <= s@.len(),
{
    proof {
        lemma_first_delim(s@.skip(from as int));
    }
    let ghost tail = s@.skip(from as int);
    proof {
        assert(tail =~= s@.subrange(from as int, s@.len() as int));
    }
    let n: usize = s.unicode_len();
    let mut i: usize = from;
    while i < n
        invariant
            from <= i <= n,
            n == s@.len(),
            tail == s@.skip(from as int),
            tail.len() == n - from,
            forall|j: int| 0 <= j < i - from ==> !spec_is_delim(#[trigger] tail[j]),
        decreases n - i,
    {
        let c = s.get_char(i);
        if c == '=' || c == ';' {
            proof {
                lemma_first_delim(tail);
                assert(tail[i - from] == s@[i as int]);
                assert(first_delim(tail) == i - from) by {
                    if first_delim(tail) < i - from {
                        assert(spec_is_delim(tail[first_delim(tail) as int]));
                    }
                }
            }
            return i;
        }
        proof {
            assert(tail[i - from] == s@[i as int]);
        }
        i = i + 1;
    }
    proof {
        assert(first_delim(tail) == n - from) by {
            if first_delim(tail) < n - from {
                assert(spec_is_delim(tail[first_delim(tail) as int]));
            }
        }
    }
    n
}

/// Splits a compute payload into its `dest`, `comp` and `jump` fields, as
/// `spec_dest_text`, `spec_comp_text` and `spec_jump_text` describe.
pub fn split_fields<'a>(s: &'a str) -> (r: (&'a str, &'a str, &'a str))
    ensures
        r.0@ == spec_dest_text(s@),
        r.1@ == spec_comp_text(s@),
        r.2@ == spec_jump_text(s@),
{
    proof {
        lemma_first_delim(s@);
        lemma_past_last_delim(s@);
        assert(s@.skip(0) =~= s@);
    }
    let n: usize = s.unicode_len();
    let has_eq = find_char(s, '=');
    let has_semi = find_char(s, ';');
    let fd = scan_delim(s, 0);
    let dest = if has_eq {
        s.substring_char(0, fd)
    } else {
        s.substring_char(0, 0)
    };
    let comp = if has_eq {
        proof {
            assert(fd < n) by {
                let w = choose|i: int| 0 <= i < s@.len() && s@[i] == '=';
                if fd > w {
                    assert(!spec_is_delim(s@[w]));
                }
            }
        }
        let fd2 = scan_delim(s, fd + 1);
        s.substring_char(fd + 1, fd2)
    } else {
        s.substring_char(0, fd)
    };
    let mut ld: usize = n;
    while ld > 0 && s.get_char(ld - 1) != '=' && s.get_char(ld - 1) != ';'
        invariant
            0 <= ld <= n,
            n == s@.len(),
            forall|j: int| ld <= j < n ==> !spec_is_delim(#[trigger] s@[j]),
        decreases ld,
    {
        ld = ld - 1;
    }
    proof {
        assert(past_last_delim(s@) == ld) by {
            if (ld as int) < past_last_delim(s@) {
                assert(!spec_is_delim(s@[past_last_delim(s@) - 1]));
            }
            if past_last_delim(s@) < ld as int {
                assert(spec_is_delim(s@[ld - 1]));
            }
        }
    }
    let jump = if has_semi {
        s.substring_char(ld, n)
    } else {
        s.substring_char(0, 0)
    };
    proof {
        assert(dest@ =~= spec_dest_text(s@));
        assert(comp@ =~= spec_comp_text(s@));
        assert(jump@ =~= spec_jump_text(s@));
    }
    (dest, comp, jump)
}

} // verus!
