//! Character sequences: UTF-8 byte lengths, suffixes, searches for a
//! character, and the conversions between `String` and `Vec<char>`.
use vstd::prelude::*;

verus! {

/// Number of bytes of `c` in UTF-8 (what `char::len_utf8` returns).
pub open spec fn utf8_width(c: char) -> nat {
    if (c as u32) < 0x80 {
        1
    } else if (c as u32) < 0x800 {
        2
    } else if (c as u32) < 0x10000 {
        3
    } else {
        4
    }
}

/// Number of bytes of `s` in UTF-8 (what `str::len` returns).
pub open spec fn utf8_len(s: Seq<char>) -> nat
    decreases s.len(),
{
    if s.len() == 0 {
        0
    } else {
        utf8_width(s[0]) + utf8_len(s.drop_first())
    }
}

/// True when `byte_pos` is the byte offset of the start of the `k`-th character.
pub open spec fn is_boundary_at(s: Seq<char>, k: int, byte_pos: int) -> bool {
    0 <= k <= s.len() && utf8_len(s.take(k)) == byte_pos
}

/// True when the byte offset `byte_pos` lies on a character boundary of `s`.
pub open spec fn is_char_boundary(s: Seq<char>, byte_pos: int) -> bool {
    exists|k: int| is_boundary_at(s, k, byte_pos)
}

/// The character index whose start lies at byte offset `byte_pos`.
pub open spec fn char_index_at(s: Seq<char>, byte_pos: int) -> int {
    choose|k: int| is_boundary_at(s, k, byte_pos)
}

/// The characters of `s` from index `i` on (all of `s` when `i` is negative,
/// none when `i` is past the end).
pub open spec fn from_index(s: Seq<char>, i: int) -> Seq<char> {
    if i <= 0 {
        s
    } else if i >= s.len() {
        Seq::empty()
    } else {
        s.skip(i)
    }
}

/// `i` clamped into `0..=len`.
pub open spec fn clamp_index(i: int, len: nat) -> nat {
    if i <= 0 {
        0
    } else if i >= len {
        len
    } else {
        i as nat
    }
}

pub proof fn lemma_from_index(s: Seq<char>, i: int)
    ensures
        from_index(s, i) =~= s.skip(clamp_index(i, s.len()) as int),
{
}

/// Index of the first occurrence of `c` in `s`, or `s.len()` when there is none.
pub open spec fn index_of_or_len(s: Seq<char>, c: char) -> nat
    decreases s.len(),
{
    if s.len() == 0 {
        0
    } else if s[0] == c {
        0
    } else {
        1 + index_of_or_len(s.drop_first(), c)
    }
}

/// The characters of `s` before the first `c` (all of `s` when there is none).
pub open spec fn prefix_until(s: Seq<char>, c: char) -> Seq<char> {
    s.take(index_of_or_len(s, c) as int)
}

/// Number of occurrences of `c` in `s`.
pub open spec fn count_char(s: Seq<char>, c: char) -> nat
    decreases s.len(),
{
    if s.len() == 0 {
        0
    } else {
        (if s.last() == c { 1nat } else { 0nat }) + count_char(s.drop_last(), c)
    }
}

pub proof fn lemma_utf8_len_concat(a: Seq<char>, b: Seq<char>)
    ensures
        utf8_len(a + b) == utf8_len(a) + utf8_len(b),
    decreases a.len(),
{
    if a.len() == 0 {
        assert(a + b =~= b);
    } else {
        assert((a + b).drop_first() =~= a.drop_first() + b);
        lemma_utf8_len_concat(a.drop_first(), b);
    }
}

pub proof fn lemma_utf8_len_push(s: Seq<char>, c: char)
    ensures
        utf8_len(s.push(c)) == utf8_len(s) + utf8_width(c),
{
    lemma_utf8_len_concat(s, seq![c]);
    assert(s + seq![c] =~= s.push(c));
    assert(seq![c].drop_first() =~= Seq::<char>::empty());
    assert(utf8_len(Seq::<char>::empty()) == 0);
    assert(utf8_len(seq![c]) == utf8_width(c) + utf8_len(seq![c].drop_first()));
}

/// Byte offsets of character boundaries grow strictly with the character index.
pub proof fn lemma_utf8_prefix_strictly_increasing(s: Seq<char>, i: int, j: int)
    requires
        0 <= i < j <= s.len(),
    ensures
        utf8_len(s.take(i)) < utf8_len(s.take(j)),
{
    assert(s.take(j) =~= s.take(i) + s.subrange(i, j));
    lemma_utf8_len_concat(s.take(i), s.subrange(i, j));
    assert(s.subrange(i, j).drop_first() =~= s.subrange(i + 1, j));
}

pub proof fn lemma_boundary_unique(s: Seq<char>, k1: int, k2: int, p: int)
    requires
        is_boundary_at(s, k1, p),
        is_boundary_at(s, k2, p),
    ensures
        k1 == k2,
{
    if k1 < k2 {
        lemma_utf8_prefix_strictly_increasing(s, k1, k2);
    } else if k2 < k1 {
        lemma_utf8_prefix_strictly_increasing(s, k2, k1);
    }
}

pub proof fn lemma_char_index_at(s: Seq<char>, k: int, p: int)
    requires
        is_boundary_at(s, k, p),
    ensures
        is_char_boundary(s, p),
        char_index_at(s, p) == k,
{
    lemma_boundary_unique(s, k, char_index_at(s, p), p);
}

/// A prefix of ASCII characters has as many bytes as characters.
pub proof fn lemma_utf8_len_ascii(s: Seq<char>)
    requires
        forall|i: int| 0 <= i < s.len() ==> utf8_width(#[trigger] s[i]) == 1,
    ensures
        utf8_len(s) == s.len(),
    decreases s.len(),
{
    if s.len() > 0 {
        assert forall|i: int| 0 <= i < s.drop_first().len() implies utf8_width(
            #[trigger] s.drop_first()[i],
        ) == 1 by {
            assert(s.drop_first()[i] == s[i + 1]);
        }
        lemma_utf8_len_ascii(s.drop_first());
    }
}

/// `utf8_len` is the length of vstd's UTF-8 encoding.
pub proof fn lemma_utf8_len_encode(s: Seq<char>)
    ensures
        utf8_len(s) == vstd::utf8::encode_utf8(s).len(),
    decreases s.len(),
{
    if s.len() > 0 {
        vstd::utf8::char_is_scalar(s[0]);
        lemma_utf8_len_encode(s.drop_first());
    }
}

pub proof fn lemma_index_of_or_len(s: Seq<char>, c: char)
    ensures
        index_of_or_len(s, c) <= s.len(),
        forall|j: int| 0 <= j < index_of_or_len(s, c) ==> s[j] != c,
        index_of_or_len(s, c) < s.len() ==> s[index_of_or_len(s, c) as int] == c,
    decreases s.len(),
{
    if s.len() > 0 && s[0] != c {
        lemma_index_of_or_len(s.drop_first(), c);
        assert forall|j: int| 0 <= j < index_of_or_len(s, c) implies s[j] != c by {
            if j > 0 {
                assert(s[j] == s.drop_first()[j - 1]);
            }
        }
    }
}

/// `k` is the first index of `c` (or the length when `c` does not occur).
pub proof fn lemma_index_of_or_len_unique(s: Seq<char>, c: char, k: int)
    requires
        0 <= k <= s.len(),
        forall|j: int| 0 <= j < k ==> s[j] != c,
        k < s.len() ==> s[k] == c,
    ensures
        index_of_or_len(s, c) == k,
{
    lemma_index_of_or_len(s, c);
    let i = index_of_or_len(s, c) as int;
    if i < k {
        assert(s[i] != c);
    } else if k < i {
        assert(s[k] != c);
    }
}

pub proof fn lemma_count_char_push(s: Seq<char>, x: char, c: char)
    ensures
        count_char(s.push(x), c) == count_char(s, c) + (if x == c { 1nat } else { 0nat }),
{
    assert(s.push(x).drop_last() =~= s);
}

/// Appends `c` to `s` by `String::push`, which std documents as appending the
/// character to the end of the string: the characters of `s` gain `c` last.
#[verifier::external_body]
fn push_char(s: &mut String, c: char)
    ensures
        final(s)@ == old(s)@.push(c),
{
    s.push(c);
}

/// The characters of `s`, in order.
pub fn to_chars(s: &str) -> (v: Vec<char>)
    ensures
        v@ == s@,
{
    let mut v: Vec<char> = Vec::new();
    for c in it: s.chars()
        invariant
            v@ == it.seq().take(it.index() as int),
    {
        v.push(c);
    }
    v
}

/// The string made of the characters of `v`, in order.
pub fn string_of(v: &Vec<char>) -> (s: String)
    ensures
        s@ == v@,
{
    let mut s = String::new();
    let mut i: usize = 0;
    while i < v.len()
        invariant
            i <= v.len(),
            s@ == v@.take(i as int),
        decreases v.len() - i,
    {
        push_char(&mut s, v[i]);
        i += 1;
        assert(s@ =~= v@.take(i as int));
    }
    assert(v@.take(i as int) =~= v@);
    s
}

/// Number of UTF-8 bytes of `s` (its `len()`).
pub fn byte_length(s: &String) -> (n: usize)
    ensures
        n == utf8_len(s@),
{
    proof {
        lemma_utf8_len_encode(s@);
    }
    s.as_str().as_bytes().len()
}

/// Number of UTF-8 bytes of `c`.
pub fn char_width(c: char) -> (w: usize)
    ensures
        w == utf8_width(c),
{
    let u = c as u32;
    if u < 0x80 {
        1
    } else if u < 0x800 {
        2
    } else if u < 0x10000 {
        3
    } else {
        4
    }
}

/// `i` clamped into `0..=len`.
pub fn clamp(i: i64, len: usize) -> (r: usize)
    ensures
        r == clamp_index(i as int, len as nat),
{
    if i <= 0 {
        0
    } else if i as u64 >= len as u64 {
        len
    } else {
        i as usize
    }
}

/// The characters of `s` from index `from` up to, not including, the first
/// `stop` (or to the end).
pub fn take_until(s: &Vec<char>, from: usize, stop: char) -> (r: Vec<char>)
    requires
        from <= s.len(),
    ensures
        r@ == prefix_until(s@.skip(from as int), stop),
{
    let mut r: Vec<char> = Vec::new();
    let mut i = from;
    while i < s.len() && s[i] != stop
        invariant
            from <= i <= s.len(),
            r@ == s@.subrange(from as int, i as int),
            forall|j: int| from <= j < i ==> s@[j] != stop,
        decreases s.len() - i,
    {
        r.push(s[i]);
        i += 1;
        assert(r@ =~= s@.subrange(from as int, i as int));
    }
    proof {
        let t = s@.skip(from as int);
        assert forall|j: int| 0 <= j < i - from implies t[j] != stop by {
            assert(t[j] == s@[from + j]);
        }
        lemma_index_of_or_len_unique(t, stop, i - from);
        assert(r@ =~= t.take(i - from));
    }
    r
}

/// `w` stands in `s` from index `i`.
pub open spec fn occurs_at(s: Seq<char>, w: Seq<char>, i: int) -> bool {
    0 <= i && i + w.len() <= s.len() && s.subrange(i, i + w.len()) == w
}

/// Whether `w` stands in `s` from index `i`.
pub fn matches_at(s: &Vec<char>, w: &Vec<char>, i: usize) -> (r: bool)
    ensures
        r == occurs_at(s@, w@, i as int),
{
    if i > s.len() || w.len() > s.len() - i {
        return false;
    }
    let mut j: usize = 0;
    while j < w.len()
        invariant
            j <= w.len(),
            i + w.len() <= s.len(),
            forall|k: int| 0 <= k < j ==> s@[i + k] == w@[k],
        decreases w.len() - j,
    {
        if s[i + j] != w[j] {
            assert(s@.subrange(i as int, i + w.len())[j as int] != w@[j as int]);
            return false;
        }
        j += 1;
    }
    assert(s@.subrange(i as int, i + w.len()) =~= w@);
    true
}

/// Whether `a` and `b` hold the same characters.
pub fn chars_eq(a: &Vec<char>, b: &Vec<char>) -> (r: bool)
    ensures
        r == (a@ == b@),
{
    if a.len() != b.len() {
        return false;
    }
    let mut i: usize = 0;
    while i < a.len()
        invariant
            a.len() == b.len(),
            i <= a.len(),
            forall|j: int| 0 <= j < i ==> a@[j] == b@[j],
        decreases a.len() - i,
    {
        if a[i] != b[i] {
            return false;
        }
        i += 1;
    }
    assert(a@ =~= b@);
    true
}

} // verus!
