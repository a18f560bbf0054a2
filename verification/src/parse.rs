//! Byte-level parsing primitives shared by the curve parser and the
//! temperature reader: digit values, whitespace trimming, and splitting
//! a text into lines.

use vstd::prelude::*;

verus! {

/// ASCII decimal digit.
pub open spec fn is_ascii_digit(b: u8) -> bool {
    48 <= b && b <= 57
}

/// ASCII whitespace as trimmed around curve fields: space, tab, carriage
/// return, line feed.
pub open spec fn is_ascii_space(b: u8) -> bool {
    b == 32 || b == 9 || b == 13 || b == 10
}

pub open spec fn all_digits(s: Seq<u8>) -> bool {
    forall|i: int| 0 <= i < s.len() ==> is_ascii_digit(#[trigger] s[i])
}

/// Value of a digit string read most-significant first.
pub open spec fn digits_val(s: Seq<u8>) -> int
    decreases s.len(),
{
    if s.len() == 0 {
        0
    } else {
        digits_val(s.drop_last()) * 10 + (s.last() - 48)
    }
}

pub open spec fn pow10(k: nat) -> int
    decreases k,
{
    if k == 0 {
        1
    } else {
        10 * pow10((k - 1) as nat)
    }
}

pub proof fn lemma_digits_val_push(s: Seq<u8>, b: u8)
    ensures
        digits_val(s.push(b)) == digits_val(s) * 10 + (b - 48),
{
    assert(s.push(b).drop_last() =~= s);
    assert(s.push(b).last() == b);
}

pub proof fn lemma_digits_val_nonneg(s: Seq<u8>)
    requires
        all_digits(s),
    ensures
        0 <= digits_val(s),
    decreases s.len(),
{
    if s.len() > 0 {
        assert(all_digits(s.drop_last()));
        lemma_digits_val_nonneg(s.drop_last());
        assert(is_ascii_digit(s[s.len() - 1]));
    }
}

/// Exec mirror of `is_ascii_space`.
pub fn is_space_byte(b: u8) -> (r: bool)
    ensures
        r == is_ascii_space(b),
{
    b == 32 || b == 9 || b == 13 || b == 10
}

/// Exec mirror of `is_ascii_digit`.
pub fn is_digit_byte(b: u8) -> (r: bool)
    ensures
        r == is_ascii_digit(b),
{
    48 <= b && b <= 57
}

/// Copy of the bytes in `[lo, hi)`.
pub fn subvec(v: &Vec<u8>, lo: usize, hi: usize) -> (r: Vec<u8>)
    requires
        lo <= hi <= v.len(),
    ensures
        r@ == v@.subrange(lo as int, hi as int),
{
    let mut r: Vec<u8> = Vec::new();
    let mut i: usize = lo;
    while i < hi
        invariant
            lo <= i <= hi <= v.len(),
            r@ == v@.subrange(lo as int, i as int),
        decreases hi - i,
    {
        r.push(v[i]);
        i = i + 1;
        proof {
            assert(v@.subrange(lo as int, i as int) =~= v@.subrange(lo as int, i - 1).push(
                v@[i - 1],
            ));
        }
    }
    r
}

/// The sequence with leading whitespace removed.
pub open spec fn trim_front(s: Seq<u8>) -> Seq<u8>
    decreases s.len(),
{
    if s.len() > 0 && is_ascii_space(s[0]) {
        trim_front(s.drop_first())
    } else {
        s
    }
}

/// The sequence with trailing whitespace removed.
pub open spec fn trim_back(s: Seq<u8>) -> Seq<u8>
    decreases s.len(),
{
    if s.len() > 0 && is_ascii_space(s.last()) {
        trim_back(s.drop_last())
    } else {
        s
    }
}

/// The sequence with whitespace removed from both ends.
pub open spec fn trimmed(s: Seq<u8>) -> Seq<u8> {
    trim_back(trim_front(s))
}

pub proof fn lemma_trim_front_skip(s: Seq<u8>, lo: int)
    requires
        0 <= lo <= s.len(),
        forall|k: int| 0 <= k < lo ==> is_ascii_space(#[trigger] s[k]),
        lo == s.len() || !is_ascii_space(s[lo]),
    ensures
        trim_front(s) == s.skip(lo),
    decreases lo,
{
    if lo == 0 {
        assert(s.skip(0) =~= s);
    } else {
        assert(is_ascii_space(s[0]));
        let t = s.drop_first();
        assert(forall|k: int| 0 <= k < lo - 1 ==> is_ascii_space(#[trigger] t[k]));
        lemma_trim_front_skip(t, lo - 1);
        assert(t.skip(lo - 1) =~= s.skip(lo));
    }
}

pub proof fn lemma_trim_back_take(s: Seq<u8>, hi: int)
    requires
        0 <= hi <= s.len(),
        forall|k: int| hi <= k < s.len() ==> is_ascii_space(#[trigger] s[k]),
        hi == 0 || !is_ascii_space(s[hi - 1]),
    ensures
        trim_back(s) == s.take(hi),
    decreases s.len(),
{
    if hi == s.len() {
        assert(s.take(hi) =~= s);
    } else {
        assert(is_ascii_space(s.last()));
        let t = s.drop_last();
        lemma_trim_back_take(t, hi);
        assert(t.take(hi) =~= s.take(hi));
    }
}

/// Copy of the bytes with whitespace trimmed from both ends.
pub fn trimmed_copy(v: &Vec<u8>) -> (r: Vec<u8>)
    ensures
        r@ == trimmed(v@),
{
    let n = v.len();
    let mut lo: usize = 0;
    while lo < n && is_space_byte(v[lo])
        invariant
            lo <= n == v.len(),
            forall|k: int| 0 <= k < lo ==> is_ascii_space(#[trigger] v@[k]),
        decreases n - lo,
    {
        lo = lo + 1;
    }
    let mut hi: usize = n;
    while hi > lo && is_space_byte(v[hi - 1])
        invariant
            lo <= hi <= n == v.len(),
            forall|k: int| hi <= k < n ==> is_ascii_space(#[trigger] v@[k]),
        decreases hi,
    {
        hi = hi - 1;
    }
    let r = subvec(v, lo, hi);
    proof {
        lemma_trim_front_skip(v@, lo as int);
        let t = v@.skip(lo as int);
        assert(forall|k: int| hi - lo <= k < t.len() ==> is_ascii_space(#[trigger] t[k]));
        lemma_trim_back_take(t, hi - lo);
        assert(t.take(hi - lo) =~= v@.subrange(lo as int, hi as int));
    }
    r
}

/// Index of the first occurrence of `b`, or the length when absent.
pub open spec fn find_byte(s: Seq<u8>, b: u8) -> int
    decreases s.len(),
{
    if s.len() == 0 {
        0
    } else if s[0] == b {
        0
    } else {
        1 + find_byte(s.drop_first(), b)
    }
}

pub proof fn lemma_find_byte_props(s: Seq<u8>, b: u8)
    ensures
        0 <= find_byte(s, b) <= s.len(),
        find_byte(s, b) < s.len() ==> s[find_byte(s, b)] == b,
        forall|j: int| 0 <= j < find_byte(s, b) ==> #[trigger] s[j] != b,
    decreases s.len(),
{
    if s.len() > 0 && s[0] != b {
        lemma_find_byte_props(s.drop_first(), b);
        assert forall|j: int| 0 <= j < find_byte(s, b) implies #[trigger] s[j] != b by {
            if j > 0 {
                assert(s.drop_first()[j - 1] != b);
            }
        }
    }
}

/// The first occurrence is where the scan said it is.
pub proof fn lemma_find_byte_at(s: Seq<u8>, b: u8, i: int)
    requires
        0 <= i <= s.len(),
        i < s.len() ==> s[i] == b,
        forall|j: int| 0 <= j < i ==> #[trigger] s[j] != b,
    ensures
        i < s.len() ==> find_byte(s, b) == i,
        i == s.len() ==> find_byte(s, b) == s.len(),
    decreases s.len(),
{
    if s.len() > 0 && s[0] != b {
        lemma_find_byte_at(s.drop_first(), b, i - 1);
    }
}

/// A line with one trailing carriage return removed, as happens when a
/// text with `\r\n` endings is split at the line feeds.
pub open spec fn strip_cr(l: Seq<u8>) -> Seq<u8> {
    if l.len() > 0 && l.last() == 13 {
        l.drop_last()
    } else {
        l
    }
}

/// The lines of a text: split at line feeds, one carriage return stripped
/// before each line feed, no final empty line for a trailing line feed.
pub open spec fn split_lines(s: Seq<u8>) -> Seq<Seq<u8>>
    decreases s.len() via split_lines_decreases
{
    if s.len() == 0 {
        Seq::empty()
    } else if find_byte(s, 10) == s.len() {
        seq![s]
    } else {
        seq![strip_cr(s.take(find_byte(s, 10)))].add(split_lines(s.skip(find_byte(s, 10) + 1)))
    }
}

#[via_fn]
proof fn split_lines_decreases(s: Seq<u8>) {
    lemma_find_byte_props(s, 10);
}

/// Splits a text into its lines.
pub fn split_into_lines(content: &Vec<u8>) -> (lines: Vec<Vec<u8>>)
    ensures
        lines@.map_values(|l: Vec<u8>| l@) == split_lines(content@),
{
    let n = content.len();
    let mut lines: Vec<Vec<u8>> = Vec::new();
    let mut pos: usize = 0;
    proof {
        assert(content@.skip(0) =~= content@);
        assert(lines@.map_values(|l: Vec<u8>| l@) =~~= Seq::<Seq<u8>>::empty());
    }
    while pos < n
        invariant
            pos <= n == content.len(),
            split_lines(content@) =~~= lines@.map_values(|l: Vec<u8>| l@).add(
                split_lines(content@.skip(pos as int)),
            ),
        decreases n - pos,
    {
        let ghost rest = content@.skip(pos as int);
        let mut j: usize = pos;
        while j < n && content[j] != 10
            invariant
                pos <= j <= n == content.len(),
                forall|k: int| pos <= k < j ==> #[trigger] content@[k] != 10,
            decreases n - j,
        {
            j = j + 1;
        }
        proof {
            assert(forall|k: int| 0 <= k < j - pos ==> #[trigger] rest[k] != 10);
            if j < n {
                assert(rest[j - pos] == 10);
            }
            lemma_find_byte_at(rest, 10, j - pos);
        }
        let ghost old_lines = lines@;
        if j == n {
            let line = subvec(content, pos, n);
            proof {
                assert(line@ =~= rest);
            }
            lines.push(line);
            pos = n;
        } else {
            let mut line = subvec(content, pos, j);
            proof {
                assert(line@ =~= rest.take(j - pos));
            }
            if line.len() > 0 && line[line.len() - 1] == 13 {
                line.pop();
            }
            proof {
                assert(line@ =~= strip_cr(rest.take(j - pos)));
            }
            lines.push(line);
            proof {
                assert(content@.skip(j + 1) =~= rest.skip(j - pos + 1));
            }
            pos = j + 1;
        }
        proof {
            assert(lines@.map_values(|l: Vec<u8>| l@) =~~= old_lines.map_values(
                |l: Vec<u8>| l@,
            ).push(lines@.last()@));
        }
    }
    proof {
        assert(content@.skip(n as int) =~= Seq::<u8>::empty());
        assert(split_lines(Seq::<u8>::empty()) =~~= Seq::<Seq<u8>>::empty());
    }
    lines
}

} // verus!
