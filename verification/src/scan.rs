//! Reading tags, attributes and object bodies out of a text, char by char.
use vstd::prelude::*;
use crate::text::{
    byte_length, chars_eq, clamp, clamp_index, count_char, from_index, index_of_or_len,
    lemma_count_char_push, lemma_from_index, lemma_index_of_or_len, lemma_utf8_len_ascii,
    matches_at, occurs_at, prefix_until, string_of, take_until, to_chars, utf8_len, utf8_width,
};

verus! {

/// The word that names an include tag.
pub open spec fn include_word() -> Seq<char> {
    seq!['i', 'n', 'c', 'l', 'u', 'd', 'e']
}

/// The word that opens an object definition.
pub open spec fn begin_word() -> Seq<char> {
    seq!['b', 'e', 'g', 'i', 'n']
}

/// The characters that open the tag closing an object definition.
pub open spec fn end_tag_word() -> Seq<char> {
    seq!['<', '/', 'b', 'e', 'g', 'i', 'n']
}

/// The tag closing an object definition opens at index `i`: `</begin`
/// followed by `>`, by a space, or by the end of the text.
pub open spec fn end_tag_at(s: Seq<char>, i: int) -> bool {
    &&& occurs_at(s, end_tag_word(), i)
    &&& (i + 7 == s.len() || s[i + 7] == '>' || s[i + 7] == ' ')
}

/// The attribute that names an object.
pub open spec fn object_word() -> Seq<char> {
    seq!['o', 'b', 'j', 'e', 'c', 't']
}

/// The attribute that lists the parameters of an include.
pub open spec fn params_word() -> Seq<char> {
    seq!['p', 'a', 'r', 'a', 'm', 's']
}

/// The tag name read after position `start`: the characters after index
/// `start` up to, not including, the first space.
pub open spec fn tag_name(s: Seq<char>, start: int) -> Seq<char> {
    prefix_until(from_index(s, start + 1), ' ')
}

/// The whole tag from index `start`: the characters from `start` up to and
/// including the first `>` (or to the end of the text).
pub open spec fn entire_tag(s: Seq<char>, start: int) -> Seq<char> {
    let t = from_index(s, start);
    let k = index_of_or_len(t, '>');
    if k < t.len() {
        t.take(k + 1int)
    } else {
        t
    }
}

pub(crate) fn tag_name_of(s: &Vec<char>, start: i64) -> (r: Vec<char>)
    requires
        start < i64::MAX,
    ensures
        r@ == tag_name(s@, start as int),
{
    let f = clamp(start + 1, s.len());
    proof {
        lemma_from_index(s@, start + 1);
    }
    take_until(s, f, ' ')
}

pub(crate) fn tag_name_at(s: &Vec<char>, i: usize) -> (r: Vec<char>)
    requires
        i < s.len(),
    ensures
        r@ == tag_name(s@, i as int),
{
    proof {
        lemma_from_index(s@, i + 1);
    }
    take_until(s, i + 1, ' ')
}

/// The name of the tag whose `<` stands at `start_index`: the characters after
/// `start_index` up to the first space. It never holds a space.
pub fn get_tag_name(main_data: String, start_index: i32) -> (name: String)
    ensures
        name@ == tag_name(main_data@, start_index as int),
        !name@.contains(' '),
{
    let s = to_chars(main_data.as_str());
    let r = tag_name_of(&s, start_index as i64);
    proof {
        lemma_index_of_or_len(from_index(s@, start_index + 1), ' ');
    }
    string_of(&r)
}

pub(crate) fn entire_tag_from(s: &Vec<char>, f: usize, Ghost(start): Ghost<int>) -> (r: Vec<char>)
    requires
        f == clamp_index(start, s@.len()),
    ensures
        r@ == entire_tag(s@, start),
{
    proof {
        lemma_from_index(s@, start);
    }
    assert(f <= s.len());
    let mut r = take_until(s, f, '>');
    proof {
        lemma_index_of_or_len(s@.skip(f as int), '>');
    }
    let k = f + r.len();
    if k < s.len() {
        r.push('>');
        proof {
            let t = s@.skip(f as int);
            assert(t[r@.len() - 1] == s@[k as int]);
            assert(r@ =~= t.take(index_of_or_len(t, '>') + 1int));
        }
    }
    r
}

/// The tag that starts at `start_pos`, up to and including its `>` (the rest
/// of the text when no `>` follows).
pub fn get_entire_tag(main_data: String, start_pos: i32) -> (tag: String)
    ensures
        tag@ == entire_tag(main_data@, start_pos as int),
{
    let s = to_chars(main_data.as_str());
    let f = clamp(start_pos as i64, s.len());
    let r = entire_tag_from(&s, f, Ghost(start_pos as int));
    string_of(&r)
}

/// Number of UTF-8 bytes of the tag that starts at `start_pos`, as an `i32`.
pub fn get_total_tag_length(main_data: String, start_pos: i32) -> (n: i32)
    ensures
        n == utf8_len(entire_tag(main_data@, start_pos as int)) as i32,
{
    let tag = get_entire_tag(main_data, start_pos);
    let bytes = byte_length(&tag);
    bytes as i32
}

/// One step of the naive matcher used for attributes and substrings: the
/// number of pattern characters matched after reading `c`, `m` of them having
/// been matched before. A mismatch starts over from nothing.
pub open spec fn match_step(m: nat, c: char, p: Seq<char>) -> nat {
    if m < p.len() && c == p[m as int] {
        m + 1
    } else {
        0
    }
}

/// Number of characters of `p` matched once the first `n` characters of `s`
/// have been read.
pub open spec fn matched_after(s: Seq<char>, p: Seq<char>, n: nat) -> nat
    decreases n,
{
    if n == 0 {
        0
    } else {
        match_step(matched_after(s, p, (n - 1) as nat), s[n - 1], p)
    }
}

/// The least `n` with `from <= n <= s.len()` after which all of `p` is matched.
pub open spec fn full_match_from(s: Seq<char>, p: Seq<char>, from: nat) -> Option<nat>
    decreases s.len() + 1 - from,
{
    if from > s.len() {
        None
    } else if matched_after(s, p, from) == p.len() {
        Some(from)
    } else {
        full_match_from(s, p, from + 1)
    }
}

/// The number of characters of `s` read when the matcher first has all of `p`.
pub open spec fn first_full_match(s: Seq<char>, p: Seq<char>) -> Option<nat> {
    full_match_from(s, p, 0)
}

pub proof fn lemma_matched_after_bound(s: Seq<char>, p: Seq<char>, n: nat)
    ensures
        matched_after(s, p, n) <= p.len(),
        matched_after(s, p, n) <= n,
    decreases n,
{
    if n > 0 {
        lemma_matched_after_bound(s, p, (n - 1) as nat);
    }
}

pub proof fn lemma_full_match_from(s: Seq<char>, p: Seq<char>, from: nat)
    ensures
        full_match_from(s, p, from) matches Some(n) ==> from <= n <= s.len() && matched_after(
            s,
            p,
            n,
        ) == p.len(),
        full_match_from(s, p, from) matches Some(n) ==> forall|q: nat|
            from <= q < n ==> #[trigger] matched_after(s, p, q) != p.len(),
        full_match_from(s, p, from) is None ==> forall|q: nat|
            from <= q <= s.len() ==> #[trigger] matched_after(s, p, q) != p.len(),
    decreases s.len() + 1 - from,
{
    if from <= s.len() && matched_after(s, p, from) != p.len() {
        lemma_full_match_from(s, p, from + 1);
    }
}

/// The characters last read are the matched part of the pattern.
pub proof fn lemma_matched_after_window(s: Seq<char>, p: Seq<char>, n: nat)
    requires
        n <= s.len(),
    ensures
        matched_after(s, p, n) <= n,
        s.subrange(n - matched_after(s, p, n), n as int) == p.take(matched_after(s, p, n) as int),
    decreases n,
{
    lemma_matched_after_bound(s, p, n);
    if n > 0 {
        let prev = matched_after(s, p, (n - 1) as nat);
        lemma_matched_after_window(s, p, (n - 1) as nat);
        lemma_matched_after_bound(s, p, (n - 1) as nat);
        if prev < p.len() && s[n - 1] == p[prev as int] {
            assert(s.subrange(n - (prev + 1), n as int) =~= s.subrange(n - 1 - prev, n - 1).push(
                s[n - 1],
            ));
            assert(p.take(prev + 1int) =~= p.take(prev as int).push(p[prev as int]));
        } else {
            assert(s.subrange(n as int, n as int) =~= p.take(0));
        }
    } else {
        assert(s.subrange(0, 0) =~= p.take(0));
    }
}

/// The pattern `name="` searched for an attribute `name`.
pub open spec fn attribute_pattern(name: Seq<char>) -> Seq<char> {
    name + seq!['=', '"']
}

/// The value of attribute `name` read after index `start`: the characters
/// after the first completed match of `name="` up to the next `"`. The
/// matcher compares the count of matched characters against the byte length
/// of the pattern, so a pattern with characters outside ASCII never
/// completes and the value is empty.
pub open spec fn attribute_value(s: Seq<char>, name: Seq<char>, start: int) -> Seq<char> {
    let pat = attribute_pattern(name);
    let t = from_index(s, start + 1);
    if utf8_len(pat) == pat.len() {
        match first_full_match(t, pat) {
            Some(n) => prefix_until(t.skip(n as int), '"'),
            None => Seq::empty(),
        }
    } else {
        Seq::empty()
    }
}

/// The reading of attribute `name` does not fail: with a pattern outside
/// ASCII, its characters are never all matched before the last character.
pub open spec fn attribute_ok(s: Seq<char>, name: Seq<char>, start: int) -> bool {
    let pat = attribute_pattern(name);
    let t = from_index(s, start + 1);
    utf8_len(pat) == pat.len() || match first_full_match(t, pat) {
        Some(n) => n == t.len(),
        None => true,
    }
}

/// Runs the matcher for `p` over the characters of `s` from `from` on, until
/// `p` is all matched or the text ends; returns where it stopped and the
/// number of matched characters.
pub(crate) fn run_matcher(s: &Vec<char>, from: usize, p: &Vec<char>) -> (res: (usize, usize))
    requires
        from <= s.len(),
    ensures
        from <= res.0 <= s.len(),
        res.1 == matched_after(s@.skip(from as int), p@, (res.0 - from) as nat),
        res.1 != p.len() ==> res.0 == s.len(),
        first_full_match(s@.skip(from as int), p@) == if res.1 == p.len() {
            Some((res.0 - from) as nat)
        } else {
            None
        },
{
    let ghost t = s@.skip(from as int);
    let mut i = from;
    let mut m: usize = 0;
    assert(full_match_from(t, p@, 0) == full_match_from(t, p@, 0));
    while i < s.len() && m != p.len()
        invariant
            from <= i <= s.len(),
            t == s@.skip(from as int),
            m == matched_after(t, p@, (i - from) as nat),
            m <= p.len(),
            first_full_match(t, p@) == full_match_from(t, p@, (i - from) as nat),
        decreases s.len() - i,
    {
        proof {
            lemma_matched_after_bound(t, p@, (i - from + 1) as nat);
            assert(t[i - from] == s@[i as int]);
        }
        if m < p.len() && s[i] == p[m] {
            m = m + 1;
        } else {
            m = 0;
        }
        i += 1;
    }
    proof {
        if m != p.len() {
            assert(full_match_from(t, p@, (i - from + 1) as nat) == None::<nat>);
        }
    }
    (i, m)
}

/// The attribute value the matcher for `pat` reads in `s` from index `f`.
pub open spec fn attribute_from(s: Seq<char>, pat: Seq<char>, limit: nat, f: int) -> Seq<char> {
    let t = s.skip(f);
    if limit == pat.len() {
        match first_full_match(t, pat) {
            Some(n) => prefix_until(t.skip(n as int), '"'),
            None => Seq::empty(),
        }
    } else {
        Seq::empty()
    }
}

pub(crate) fn attribute_of(s: &Vec<char>, pat: &Vec<char>, limit: usize, f: usize) -> (r: Vec<
    char,
>)
    requires
        f <= s.len(),
    ensures
        r@ == attribute_from(s@, pat@, limit as nat, f as int),
{
    let (i, m) = run_matcher(s, f, pat);
    if m == pat.len() && limit == pat.len() {
        let r = take_until(s, i, '"');
        proof {
            assert(s@.skip(f as int).skip(i - f) =~= s@.skip(i as int));
        }
        r
    } else {
        Vec::new()
    }
}

/// The value of attribute `attribute_name` (written `attribute_name="value"`)
/// read after index `start_index`.
pub fn get_attribute(some_string: String, attribute_name: String, start_index: i32) -> (value:
    String)
    requires
        attribute_ok(some_string@, attribute_name@, start_index as int),
    ensures
        value@ == attribute_value(some_string@, attribute_name@, start_index as int),
        !value@.contains('"'),
{
    let s = to_chars(some_string.as_str());
    let mut pat = to_chars(attribute_name.as_str());
    pat.push('=');
    pat.push('"');
    assert(pat@ =~= attribute_pattern(attribute_name@));
    let limit = byte_length(&string_of(&pat));
    let f = clamp(start_index as i64 + 1, s.len());
    proof {
        lemma_from_index(s@, start_index + 1);
    }
    let r = attribute_of(&s, &pat, limit, f);
    proof {
        let t = from_index(s@, start_index + 1);
        if let Some(n) = first_full_match(t, pat@) {
            lemma_index_of_or_len(t.skip(n as int), '"');
        }
    }
    string_of(&r)
}

/// The object name of the tag read after `start_index`: its `object` attribute.
pub fn get_replacement_id(main_data: String, start_index: i32) -> (id: String)
    ensures
        id@ == attribute_value(main_data@, object_word(), start_index as int),
{
    let s = to_chars(main_data.as_str());
    let r = object_id_of(&s, start_index as i64);
    string_of(&r)
}

proof fn lemma_ascii_word(w: Seq<char>)
    requires
        forall|i: int| 0 <= i < w.len() ==> (w[i] as u32) < 0x80,
    ensures
        utf8_len(w) == w.len(),
{
    assert forall|i: int| 0 <= i < w.len() implies utf8_width(#[trigger] w[i]) == 1 by {}
    lemma_utf8_len_ascii(w);
}

pub(crate) fn attribute_of_word(s: &Vec<char>, word: Vec<char>, f: usize) -> (r: Vec<char>)
    requires
        f <= s.len(),
        forall|i: int| 0 <= i < word@.len() ==> (word@[i] as u32) < 0x80,
    ensures
        forall|start: int|
            clamp_index(start + 1, s@.len()) == f ==> r@ == #[trigger] attribute_value(
                s@,
                word@,
                start,
            ),
{
    let mut pat = word;
    let ghost w = pat@;
    pat.push('=');
    pat.push('"');
    proof {
        assert(pat@ =~= attribute_pattern(w));
        assert forall|i: int| 0 <= i < pat@.len() implies (pat@[i] as u32) < 0x80 by {
            if i < w.len() {
                assert(pat@[i] == w[i]);
            }
        }
        lemma_ascii_word(pat@);
    }
    let limit = pat.len();
    let r = attribute_of(s, &pat, limit, f);
    proof {
        assert forall|start: int| clamp_index(start + 1, s@.len()) == f implies r@ == #[trigger] attribute_value(s@, w, start) by {
            lemma_from_index(s@, start + 1);
        }
    }
    r
}

pub(crate) fn object_id_of(s: &Vec<char>, start: i64) -> (r: Vec<char>)
    requires
        start < i64::MAX,
    ensures
        r@ == attribute_value(s@, object_word(), start as int),
{
    let w = vec!['o', 'b', 'j', 'e', 'c', 't'];
    assert(w@ =~= object_word());
    let f = clamp(start + 1, s.len());
    let r = attribute_of_word(s, w, f);
    assert(r@ == attribute_value(s@, object_word(), start as int));
    r
}

/// The object name of the include whose `<` stands at `i`: its `object`
/// attribute read after `i + 8`.
pub(crate) fn object_id_after_include(s: &Vec<char>, i: usize) -> (r: Vec<char>)
    requires
        i < s.len(),
    ensures
        r@ == attribute_value(s@, object_word(), i + 8),
{
    let w = vec!['o', 'b', 'j', 'e', 'c', 't'];
    assert(w@ =~= object_word());
    let f = if s.len() - i >= 9 {
        i + 9
    } else {
        s.len()
    };
    let r = attribute_of_word(s, w, f);
    assert(r@ == attribute_value(s@, object_word(), i + 8));
    r
}

/// Where the text holds `sub`, as the naive matcher finds it: the index of the
/// character that follows the first completed match, less the byte length of
/// `sub`; -1 when `sub` is empty, when the match completes only with the last
/// character, or when there is none.
pub open spec fn first_location(s: Seq<char>, sub: Seq<char>) -> int {
    if sub.len() == 0 {
        -1
    } else {
        match first_full_match(s, sub) {
            Some(n) => if n < s.len() && utf8_len(sub) == sub.len() {
                n - sub.len()
            } else {
                -1
            },
            None => -1,
        }
    }
}

/// The search for `sub` does not fail: positions fit an `i32`, and a `sub`
/// outside ASCII is never all matched before the last character.
pub open spec fn location_ok(s: Seq<char>, sub: Seq<char>) -> bool {
    ||| sub.len() == 0
    ||| {
        &&& s.len() <= i32::MAX
        &&& (utf8_len(sub) == sub.len() || match first_full_match(s, sub) {
            Some(n) => n == s.len(),
            None => true,
        })
    }
}

pub(crate) fn location_of(s: &Vec<char>, sub: &Vec<char>, limit: usize) -> (r: i32)
    requires
        s.len() <= i32::MAX,
        limit == utf8_len(sub@),
    ensures
        r == first_location(s@, sub@),
{
    if sub.len() == 0 {
        return -1;
    }
    let (i, m) = run_matcher(s, 0, sub);
    assert(s@.skip(0) =~= s@);
    if m == sub.len() && i < s.len() && limit == sub.len() {
        proof {
            lemma_matched_after_bound(s@, sub@, i as nat);
        }
        (i - m) as i32
    } else {
        -1
    }
}

/// The search stops at the first place where the matcher has read all of
/// `sub`: a found position is where the first completed match starts (the
/// matcher completes no match before it), and -1 for a non-empty ASCII `sub`
/// means the matcher completes none before the last character.
pub proof fn lemma_first_location_is_first(s: Seq<char>, sub: Seq<char>)
    ensures
        first_location(s, sub) >= 0 ==> {
            let pos = first_location(s, sub);
            &&& pos + sub.len() < s.len()
            &&& s.subrange(pos, pos + sub.len()) == sub
            &&& matched_after(s, sub, (pos + sub.len()) as nat) == sub.len()
            &&& forall|q: nat| q < pos + sub.len() ==> #[trigger] matched_after(s, sub, q) != sub.len()
        },
        (sub.len() > 0 && utf8_len(sub) == sub.len() && first_location(s, sub) < 0) ==> forall|q: nat|
            q < s.len() ==> #[trigger] matched_after(s, sub, q) != sub.len(),
{
    lemma_full_match_from(s, sub, 0);
    if let Some(n) = first_full_match(s, sub) {
        lemma_matched_after_bound(s, sub, n);
        if n < s.len() {
            lemma_matched_after_window(s, sub, n);
            assert(sub.take(sub.len() as int) =~= sub);
        }
    }
}

/// The value of an attribute is the whole text between the `"` that ends
/// the first completed match of `name="` and the next `"` (or the end),
/// spaces included; empty when the match never completes.
pub proof fn lemma_attribute_value_is_quoted_text(s: Seq<char>, name: Seq<char>, start: int)
    requires
        utf8_len(attribute_pattern(name)) == attribute_pattern(name).len(),
    ensures
        ({
            let pat = attribute_pattern(name);
            let t = from_index(s, start + 1);
            match first_full_match(t, pat) {
                Some(n) => {
                    let v = attribute_value(s, name, start);
                    let j: int = (n + v.len()) as int;
                    &&& t.subrange(n - pat.len(), n as int) == pat
                    &&& j <= t.len()
                    &&& v == t.subrange(n as int, j)
                    &&& (j == t.len() || t[j] == '"')
                    &&& forall|k: int| n <= k < j ==> t[k] != '"'
                },
                None => attribute_value(s, name, start).len() == 0,
            }
        }),
{
    let pat = attribute_pattern(name);
    let t = from_index(s, start + 1);
    lemma_full_match_from(t, pat, 0);
    if let Some(n) = first_full_match(t, pat) {
        lemma_matched_after_window(t, pat, n);
        assert(matched_after(t, pat, n) == pat.len());
        assert(pat.take(pat.len() as int) =~= pat);
        assert(t.subrange(n - pat.len(), n as int) == pat);
        let u = t.skip(n as int);
        lemma_index_of_or_len(u, '"');
        let j: int = (n + index_of_or_len(u, '"')) as int;
        assert forall|k: int| n <= k < j implies t[k] != '"' by {
            assert(t[k] == u[k - n]);
        }
        assert(attribute_value(s, name, start) =~= t.subrange(n as int, j));
        if j < t.len() {
            assert(t[j] == u[j - n]);
        }
    } else {
        assert(attribute_value(s, name, start) =~= Seq::<char>::empty());
    }
}

/// The position of `substring` in `main_data` (see `first_location`).
pub fn get_first_location_of_string(main_data: String, substring: String) -> (pos: i32)
    requires
        location_ok(main_data@, substring@),
    ensures
        pos == first_location(main_data@, substring@),
        pos >= -1,
        pos >= 0 ==> pos + substring@.len() < main_data@.len() && main_data@.subrange(
            pos as int,
            pos + substring@.len(),
        ) == substring@,
        pos >= 0 ==> forall|q: nat|
            q < pos + substring@.len() ==> #[trigger] matched_after(main_data@, substring@, q)
                != substring@.len(),
{
    let s = to_chars(main_data.as_str());
    let p = to_chars(substring.as_str());
    if p.len() == 0 {
        return -1;
    }
    let limit = byte_length(&substring);
    let r = location_of(&s, &p, limit);
    proof {
        lemma_first_location_is_first(s@, p@);
        lemma_full_match_from(s@, p@, 0);
        if let Some(n) = first_full_match(s@, p@) {
            lemma_matched_after_bound(s@, p@, n);
            lemma_matched_after_window(s@, p@, n);
            assert(p@.take(p@.len() as int) =~= p@);
        }
    }
    r
}

/// State of the delimiter scan: whether a substring is open, the characters
/// gathered since it opened, and the substrings closed so far.
pub type DelimState = (bool, Seq<char>, Seq<Seq<char>>);

/// One character of the delimiter scan. Inside a substring every character
/// but `close` is gathered and `close` ends the substring; outside, `open`
/// starts one and every other character is passed over.
pub open spec fn delims_step(st: DelimState, c: char, open: char, close: char) -> DelimState {
    let inside = st.0;
    let gathered = st.1;
    let found = st.2;
    let after: DelimState = if inside && c != close {
        (inside, gathered.push(c), found)
    } else if inside {
        (false, Seq::empty(), found.push(gathered))
    } else {
        (inside, gathered, found)
    };
    if c == open && !after.0 {
        (true, after.1, after.2)
    } else {
        after
    }
}

/// The delimiter scan once the first `n` characters of `s` have been read.
pub open spec fn delims_state(s: Seq<char>, open: char, close: char, n: nat) -> DelimState
    decreases n,
{
    if n == 0 {
        (false, Seq::empty(), Seq::empty())
    } else {
        delims_step(delims_state(s, open, close, (n - 1) as nat), s[n - 1], open, close)
    }
}

/// The substrings of `s` between an `open` and the next `close`.
pub open spec fn substrings_between(s: Seq<char>, open: char, close: char) -> Seq<Seq<char>> {
    delims_state(s, open, close, s.len()).2
}

/// The views of a vector of strings.
pub open spec fn strings_view(v: Seq<String>) -> Seq<Seq<char>> {
    v.map_values(|x: String| x@)
}

/// No gathered substring holds `close`, none is gathered outside a
/// substring, and there are no more substrings than `close` characters.
pub proof fn lemma_substrings_shape(s: Seq<char>, open: char, close: char, n: nat)
    requires
        n <= s.len(),
    ensures
        delims_state(s, open, close, n).2.len() <= count_char(s.take(n as int), close),
        !delims_state(s, open, close, n).1.contains(close),
        !delims_state(s, open, close, n).0 ==> delims_state(s, open, close, n).1.len() == 0,
        forall|j: int|
            0 <= j < delims_state(s, open, close, n).2.len() ==> !(
            #[trigger] delims_state(s, open, close, n).2[j]).contains(close),
    decreases n,
{
    if n > 0 {
        let m = (n - 1) as nat;
        lemma_substrings_shape(s, open, close, m);
        assert(s.take(n as int) =~= s.take(m as int).push(s[m as int]));
        lemma_count_char_push(s.take(m as int), s[m as int], close);
        let before = delims_state(s, open, close, m);
        let after = delims_state(s, open, close, n);
        assert(after == delims_step(before, s[m as int], open, close));
        if before.0 && s[m as int] != close {
            assert forall|x: int| 0 <= x < after.1.len() implies after.1[x] != close by {
                if x < before.1.len() {
                    assert(after.1[x] == before.1[x]);
                }
            }
        }
        assert forall|j: int| 0 <= j < after.2.len() implies !(#[trigger] after.2[j]).contains(
            close,
        ) by {
            if j < before.2.len() {
                assert(after.2[j] == before.2[j]);
            }
        }
    } else {
        assert(s.take(0) =~= Seq::<char>::empty());
    }
}

/// `item` stands in `s` from index `a`, right after an `open` and right
/// before a `close`.
pub open spec fn enclosed_at(s: Seq<char>, item: Seq<char>, a: int, open: char, close: char) -> bool {
    &&& 1 <= a
    &&& a + item.len() < s.len()
    &&& s[a - 1] == open
    &&& s.subrange(a, a + item.len()) == item
    &&& s[a + item.len()] == close
}

/// `item` stands somewhere in `s` right after an `open` and right before a
/// `close`.
pub open spec fn enclosed_in(s: Seq<char>, item: Seq<char>, open: char, close: char) -> bool {
    exists|a: int| enclosed_at(s, item, a, open, close)
}

proof fn lemma_delims_contiguous(s: Seq<char>, open: char, close: char, n: nat)
    requires
        n <= s.len(),
    ensures
        delims_state(s, open, close, n).0 ==> exists|a: int|
            1 <= a <= n && s[a - 1] == open && #[trigger] s.subrange(a, n as int) == delims_state(
                s,
                open,
                close,
                n,
            ).1,
        forall|k: int|
            0 <= k < delims_state(s, open, close, n).2.len() ==> enclosed_in(
                s,
                #[trigger] delims_state(s, open, close, n).2[k],
                open,
                close,
            ),
    decreases n,
{
    if n > 0 {
        let m = (n - 1) as nat;
        lemma_delims_contiguous(s, open, close, m);
        lemma_substrings_shape(s, open, close, m);
        let before = delims_state(s, open, close, m);
        let after = delims_state(s, open, close, n);
        let c = s[m as int];
        assert(after == delims_step(before, c, open, close));
        assert forall|k: int| 0 <= k < before.2.len() implies after.2[k] == before.2[k] by {}
        if before.0 {
            let a = choose|a: int|
                1 <= a <= m && s[a - 1] == open && #[trigger] s.subrange(a, m as int) == before.1;
            if c != close {
                assert(s.subrange(a, n as int) =~= before.1.push(c));
                assert(after.1 == before.1.push(c));
            } else {
                assert(enclosed_at(s, before.1, a, open, close));
                assert(after.2[before.2.len() as int] == before.1);
                assert forall|k: int| 0 <= k < after.2.len() implies enclosed_in(
                    s,
                    #[trigger] after.2[k],
                    open,
                    close,
                ) by {
                    if k == before.2.len() {
                        assert(enclosed_at(s, after.2[k], a, open, close));
                    } else {
                        assert(after.2[k] == before.2[k]);
                        assert(enclosed_in(s, before.2[k], open, close));
                assert(enclosed_in(s, before.2[k], open, close));
                        let b = choose|b: int| enclosed_at(s, before.2[k], b, open, close);
                        assert(enclosed_at(s, after.2[k], b, open, close));
                    }
                }
                if after.0 {
                    assert(s.subrange(n as int, n as int) =~= after.1);
                }
            }
        } else {
            if after.0 {
                assert(s.subrange(n as int, n as int) =~= after.1);
            }
        }
        if !(before.0 && c == close) {
            assert forall|k: int| 0 <= k < after.2.len() implies enclosed_in(
                s,
                #[trigger] after.2[k],
                open,
                close,
            ) by {
                assert(after.2[k] == before.2[k]);
                assert(enclosed_in(s, before.2[k], open, close));
                let b = choose|b: int| enclosed_at(s, before.2[k], b, open, close);
                assert(enclosed_at(s, after.2[k], b, open, close));
            }
        }
    }
}

/// Each substring is a contiguous piece of the text that stands right after
/// an `open` and right before a `close`: nothing inside the delimiters is
/// dropped or changed.
pub proof fn lemma_substrings_enclosed(s: Seq<char>, open: char, close: char)
    ensures
        forall|k: int|
            0 <= k < substrings_between(s, open, close).len() ==> enclosed_in(
                s,
                #[trigger] substrings_between(s, open, close)[k],
                open,
                close,
            ),
{
    lemma_delims_contiguous(s, open, close, s.len());
    let found = delims_state(s, open, close, s.len()).2;
    assert forall|k: int| 0 <= k < substrings_between(s, open, close).len() implies enclosed_in(
        s,
        #[trigger] substrings_between(s, open, close)[k],
        open,
        close,
    ) by {
        assert(substrings_between(s, open, close)[k] == found[k]);
        assert(enclosed_in(s, found[k], open, close));
        let a = choose|a: int| enclosed_at(s, found[k], a, open, close);
        assert(enclosed_at(s, substrings_between(s, open, close)[k], a, open, close));
    }
}

pub(crate) fn substrings_of(s: &Vec<char>, open: char, close: char) -> (r: Vec<Vec<char>>)
    ensures
        r@.len() == substrings_between(s@, open, close).len(),
        forall|i: int|
            0 <= i < r@.len() ==> #[trigger] r@[i]@ == substrings_between(s@, open, close)[i],
{
    let mut inside = false;
    let mut gathered: Vec<char> = Vec::new();
    let mut found: Vec<Vec<char>> = Vec::new();
    let mut i: usize = 0;
    while i < s.len()
        invariant
            i <= s.len(),
            inside == delims_state(s@, open, close, i as nat).0,
            gathered@ == delims_state(s@, open, close, i as nat).1,
            found@.len() == delims_state(s@, open, close, i as nat).2.len(),
            forall|j: int|
                0 <= j < found@.len() ==> #[trigger] found@[j]@ == delims_state(
                    s@,
                    open,
                    close,
                    i as nat,
                ).2[j],
        decreases s.len() - i,
    {
        let c = s[i];
        let ghost before = delims_state(s@, open, close, i as nat);
        if inside && c != close {
            gathered.push(c);
        } else if inside {
            inside = false;
            found.push(gathered);
            gathered = Vec::new();
        }
        if c == open && !inside {
            inside = true;
        }
        i += 1;
        proof {
            let after = delims_state(s@, open, close, i as nat);
            assert(after == delims_step(before, s@[i - 1], open, close));
            assert(gathered@ =~= after.1);
            assert forall|j: int| 0 <= j < found@.len() implies #[trigger] found@[j]@ == after.2[j] by {
            }
        }
    }
    found
}

/// The substrings of `some_string` enclosed by `start_delim` and `end_delim`,
/// in order: one for each `end_delim` that closes an open substring, holding
/// what was gathered since the `start_delim` that opened it. An `end_delim`
/// with no substring open adds nothing.
pub fn get_substrings_from_delims(some_string: String, start_delim: char, end_delim: char) -> (r:
    Vec<String>)
    ensures
        strings_view(r@) == substrings_between(some_string@, start_delim, end_delim),
        r@.len() <= count_char(some_string@, end_delim),
        forall|i: int| 0 <= i < r@.len() ==> !(#[trigger] r@[i])@.contains(end_delim),
        forall|i: int|
            0 <= i < r@.len() ==> enclosed_in(some_string@, (#[trigger] r@[i])@, start_delim, end_delim),
{
    let s = to_chars(some_string.as_str());
    let parts = substrings_of(&s, start_delim, end_delim);
    let mut r: Vec<String> = Vec::new();
    let mut i: usize = 0;
    while i < parts.len()
        invariant
            i <= parts.len(),
            r@.len() == i,
            forall|j: int| 0 <= j < i ==> #[trigger] r@[j]@ == parts@[j]@,
        decreases parts.len() - i,
    {
        r.push(string_of(&parts[i]));
        i += 1;
    }
    proof {
        assert(strings_view(r@) =~= substrings_between(some_string@, start_delim, end_delim));
        lemma_substrings_shape(s@, start_delim, end_delim, s@.len());
        lemma_substrings_enclosed(s@, start_delim, end_delim);
        assert(s@.take(s@.len() as int) =~= s@);
        assert forall|i: int| 0 <= i < r@.len() implies enclosed_in(
            some_string@,
            (#[trigger] r@[i])@,
            start_delim,
            end_delim,
        ) by {
            assert(r@[i]@ == strings_view(r@)[i]);
        }
        assert forall|i: int| 0 <= i < r@.len() implies !(#[trigger] r@[i])@.contains(end_delim) by {
            assert(r@[i]@ == strings_view(r@)[i]);
        }
    }
    r
}

/// Index of the first closing tag (`</begin>`, `</begin ` or `</begin` at
/// the end of the text) at or after `i`,
/// or the length of `s` when there is none.
pub open spec fn end_tag_from(s: Seq<char>, i: int) -> int
    decreases s.len() - i,
{
    if i < 0 || i >= s.len() {
        s.len() as int
    } else if end_tag_at(s, i) {
        i
    } else {
        end_tag_from(s, i + 1)
    }
}

/// The body of an object read after index `start`: the characters after
/// `start` up to, not including, the first closing tag.
pub open spec fn replacement_data(s: Seq<char>, start: int) -> Seq<char> {
    let f = clamp_index(start + 1, s.len()) as int;
    s.subrange(f, end_tag_from(s, f))
}

pub(crate) fn replacement_data_from(s: &Vec<char>, f: usize) -> (r: Vec<char>)
    requires
        f <= s.len(),
    ensures
        r@ == s@.subrange(f as int, end_tag_from(s@, f as int)),
{
    let closing = vec!['<', '/', 'b', 'e', 'g', 'i', 'n'];
    assert(closing@ =~= end_tag_word());
    let mut r: Vec<char> = Vec::new();
    let mut i = f;
    while i < s.len()
        invariant
            f <= i <= s.len(),
            closing@ == end_tag_word(),
            r@ == s@.subrange(f as int, i as int),
            end_tag_from(s@, f as int) == end_tag_from(s@, i as int),
        ensures
            r@ == s@.subrange(f as int, i as int),
            end_tag_from(s@, f as int) == i,
        decreases s.len() - i,
    {
        if matches_at(s, &closing, i) && (s.len() - i == 7 || s[i + 7] == '>' || s[i + 7]
            == ' ') {
            break;
        }
        r.push(s[i]);
        i += 1;
        assert(r@ =~= s@.subrange(f as int, i as int));
    }
    r
}

/// The body of the object whose opening tag ends at `start_pos` (see
/// `replacement_data`).
pub fn get_replacement_data(file_contents: String, start_pos: i32) -> (data: String)
    ensures
        data@ == replacement_data(file_contents@, start_pos as int),
{
    let s = to_chars(file_contents.as_str());
    let f = clamp(start_pos as i64 + 1, s.len());
    let r = replacement_data_from(&s, f);
    string_of(&r)
}

} // verus!
