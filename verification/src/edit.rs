//! Editing a text at byte positions, and substituting the parameters of an
//! include into an object body.
use vstd::prelude::*;
use crate::scan::{
    attribute_of_word, attribute_value, params_word, substrings_between, substrings_of, tag_name,
};
use crate::text::{
    byte_length, char_index_at, char_width, clamp, clamp_index, is_boundary_at, is_char_boundary,
    lemma_char_index_at, lemma_from_index, lemma_utf8_len_concat, lemma_utf8_len_push,
    lemma_utf8_prefix_strictly_increasing, matches_at, occurs_at, string_of, take_until, to_chars,
    utf8_len, utf8_width,
};

verus! {

/// The text `s` with `sub` inserted at byte position `pos`; unchanged when
/// `pos` is not below the byte length of `s` (taken as an `i32`) or `sub` is
/// empty.
pub open spec fn inserted(s: Seq<char>, sub: Seq<char>, pos: int) -> Seq<char> {
    if pos >= (utf8_len(s) as i32) || sub.len() == 0 {
        s
    } else {
        let k = char_index_at(s, pos);
        s.take(k) + sub + s.skip(k)
    }
}

/// The insertion does not fail: the characters of `sub` go in one by one at
/// consecutive byte positions from `pos`, so `pos` must be a character
/// boundary, every character of `sub` but the last must take one byte, and
/// the positions must fit an `i32`.
pub open spec fn insert_ok(s: Seq<char>, sub: Seq<char>, pos: int) -> bool {
    ||| pos >= (utf8_len(s) as i32)
    ||| sub.len() == 0
    ||| {
        &&& 0 <= pos
        &&& is_char_boundary(s, pos)
        &&& pos + sub.len() <= i32::MAX
        &&& forall|i: int| 0 <= i < sub.len() - 1 ==> utf8_width(#[trigger] sub[i]) == 1
    }
}

/// The text `s` with the characters from byte position `start` removed, one
/// for each position of `start..=end`, as far as there are characters;
/// unchanged when `start` is not below the byte length of `s` (taken as an
/// `i32`), when the range is empty, or when `s` is empty.
pub open spec fn removed(s: Seq<char>, start: int, end: int) -> Seq<char> {
    if start >= (utf8_len(s) as i32) || end < start || s.len() == 0 {
        s
    } else {
        let k = char_index_at(s, start);
        let stop = if k + (end + 1 - start) <= s.len() {
            k + (end + 1 - start)
        } else {
            s.len() as int
        };
        s.take(k) + s.skip(stop)
    }
}

/// The removal does not fail: `end + 1` fits an `i32`, and, when characters
/// are to go, `start` is a character boundary and, unless it is the start
/// of the text, enough characters follow it.
pub open spec fn remove_ok(s: Seq<char>, start: int, end: int) -> bool {
    ||| start >= (utf8_len(s) as i32)
    ||| {
        &&& end < i32::MAX
        &&& (end < start || s.len() == 0 || {
            &&& start >= 0
            &&& is_char_boundary(s, start)
            &&& (char_index_at(s, start) == 0 || end + 1 - start <= s.len() - char_index_at(
                s,
                start,
            ))
        })
    }
}

/// Removing, at the position of an insertion, as many characters as were
/// inserted gives back the text.
pub proof fn lemma_remove_undoes_insert(s: Seq<char>, sub: Seq<char>, pos: int)
    requires
        sub.len() > 0,
        0 <= pos < utf8_len(s),
        utf8_len(s) + utf8_len(sub) <= i32::MAX,
        insert_ok(s, sub, pos),
    ensures
        remove_ok(inserted(s, sub, pos), pos, pos + sub.len() - 1),
        removed(inserted(s, sub, pos), pos, pos + sub.len() - 1) == s,
{
    let k = char_index_at(s, pos);
    let ins = inserted(s, sub, pos);
    assert(utf8_len(s) as i32 == utf8_len(s));
    assert(is_boundary_at(s, k, pos));
    assert(ins == s.take(k) + sub + s.skip(k));
    lemma_utf8_len_concat(s.take(k) + sub, s.skip(k));
    lemma_utf8_len_concat(s.take(k), sub);
    assert(s =~= s.take(k) + s.skip(k));
    lemma_utf8_len_concat(s.take(k), s.skip(k));
    assert(utf8_len(ins) as i32 == utf8_len(ins));
    assert(ins.take(k) =~= s.take(k));
    lemma_char_index_at(ins, k, pos);
    assert(ins.take(k) + ins.skip(k + sub.len()) =~= s);
}

/// Index of the character that starts at byte position `pos`, if any.
pub(crate) fn boundary_index(s: &Vec<char>, pos: usize) -> (r: Option<usize>)
    requires
        pos <= i32::MAX,
    ensures
        r matches Some(k) ==> is_boundary_at(s@, k as int, pos as int),
        r is None ==> !is_char_boundary(s@, pos as int),
{
    let mut i: usize = 0;
    let mut acc: usize = 0;
    assert(s@.take(0) =~= Seq::<char>::empty());
    while i < s.len() && acc < pos
        invariant
            i <= s.len(),
            pos <= i32::MAX,
            acc == utf8_len(s@.take(i as int)),
            forall|j: int| 0 <= j < i ==> utf8_len(#[trigger] s@.take(j)) < pos,
        decreases s.len() - i,
    {
        proof {
            assert(s@.take(i + 1) =~= s@.take(i as int).push(s@[i as int]));
            lemma_utf8_len_push(s@.take(i as int), s@[i as int]);
        }
        acc = acc + char_width(s[i]);
        i += 1;
    }
    if acc == pos {
        Some(i)
    } else {
        proof {
            assert forall|k: int| !is_boundary_at(s@, k, pos as int) by {
                if 0 <= k <= s@.len() {
                    if k < i {
                    } else if k > i {
                        lemma_utf8_prefix_strictly_increasing(s@, i as int, k);
                    }
                }
            }
        }
        None
    }
}

/// `s[..k] + sub + s[k..]`.
pub(crate) fn splice(s: &Vec<char>, k: usize, sub: &Vec<char>, resume: usize) -> (r: Vec<char>)
    requires
        k <= resume <= s.len(),
    ensures
        r@ == s@.take(k as int) + sub@ + s@.skip(resume as int),
{
    let mut r: Vec<char> = Vec::new();
    let mut i: usize = 0;
    while i < k
        invariant
            i <= k <= s.len(),
            r@ == s@.take(i as int),
        decreases k - i,
    {
        r.push(s[i]);
        i += 1;
        assert(r@ =~= s@.take(i as int));
    }
    let mut j: usize = 0;
    while j < sub.len()
        invariant
            j <= sub.len(),
            r@ == s@.take(k as int) + sub@.take(j as int),
        decreases sub.len() - j,
    {
        r.push(sub[j]);
        j += 1;
        assert(r@ =~= s@.take(k as int) + sub@.take(j as int));
    }
    assert(sub@.take(j as int) =~= sub@);
    let mut m = resume;
    while m < s.len()
        invariant
            resume <= m <= s.len(),
            r@ == s@.take(k as int) + sub@ + s@.subrange(resume as int, m as int),
        decreases s.len() - m,
    {
        r.push(s[m]);
        m += 1;
        assert(r@ =~= s@.take(k as int) + sub@ + s@.subrange(resume as int, m as int));
    }
    assert(s@.subrange(resume as int, m as int) =~= s@.skip(resume as int));
    r
}

pub(crate) fn inserted_of(s: &Vec<char>, bytes: usize, sub: &Vec<char>, pos: i32) -> (r: Vec<
    char,
>)
    requires
        bytes == utf8_len(s@),
        insert_ok(s@, sub@, pos as int),
    ensures
        r@ == inserted(s@, sub@, pos as int),
{
    if pos >= bytes as i32 || sub.len() == 0 {
        return s.clone();
    }
    match boundary_index(s, pos as usize) {
        Some(k) => {
            proof {
                lemma_char_index_at(s@, k as int, pos as int);
            }
            splice(s, k, sub, k)
        },
        None => {
            proof {
                assert(false);
            }
            s.clone()
        },
    }
}

/// `some_string` with `substring` inserted at byte position `start_pos`
/// (see `inserted`).
pub fn insert_substring_at_pos(some_string: String, substring: String, start_pos: i32) -> (r:
    String)
    requires
        insert_ok(some_string@, substring@, start_pos as int),
    ensures
        r@ == inserted(some_string@, substring@, start_pos as int),
{
    let s = to_chars(some_string.as_str());
    let sub = to_chars(substring.as_str());
    let bytes = byte_length(&some_string);
    let r = inserted_of(&s, bytes, &sub, start_pos);
    string_of(&r)
}

pub(crate) fn removed_of(s: &Vec<char>, bytes: usize, start: i32, end: i32) -> (r: Vec<char>)
    requires
        bytes == utf8_len(s@),
        remove_ok(s@, start as int, end as int),
    ensures
        r@ == removed(s@, start as int, end as int),
{
    if start >= bytes as i32 || end < start || s.len() == 0 {
        return s.clone();
    }
    match boundary_index(s, start as usize) {
        Some(k) => {
            proof {
                lemma_char_index_at(s@, k as int, start as int);
            }
            let n: u64 = (end as i64 + 1 - start as i64) as u64;
            let stop: usize = if n <= (s.len() - k) as u64 {
                k + n as usize
            } else {
                s.len()
            };
            let empty: Vec<char> = Vec::new();
            let r = splice(s, k, &empty, stop);
            assert(r@ =~= s@.take(k as int) + s@.skip(stop as int));
            r
        },
        None => {
            proof {
                assert(false);
            }
            s.clone()
        },
    }
}

/// `some_string` with the characters from byte position `start_pos` removed,
/// one for each position of `start_pos..=end_pos` (see `removed`).
pub fn remove_substring_at_pos(some_string: String, start_pos: i32, end_pos: i32) -> (r: String)
    requires
        remove_ok(some_string@, start_pos as int, end_pos as int),
    ensures
        r@ == removed(some_string@, start_pos as int, end_pos as int),
{
    let s = to_chars(some_string.as_str());
    let bytes = byte_length(&some_string);
    let r = removed_of(&s, bytes, start_pos, end_pos);
    string_of(&r)
}

/// One parameter of an include: its label and the text that replaces it.
pub struct ParamChild {
    pub param_name: String,
    pub param_content: String,
}

/// The parameters of an include, in order.
pub struct ParamContainer {
    pub children: Vec<ParamChild>,
}

impl View for ParamChild {
    type V = (Seq<char>, Seq<char>);

    open spec fn view(&self) -> (Seq<char>, Seq<char>) {
        (self.param_name@, self.param_content@)
    }
}

impl View for ParamContainer {
    type V = Seq<(Seq<char>, Seq<char>)>;

    open spec fn view(&self) -> Seq<(Seq<char>, Seq<char>)> {
        self.children@.map_values(|c: ParamChild| c@)
    }
}

/// Index of the first occurrence of `w` in `s` at or after `i`.
pub open spec fn first_occurrence_from(s: Seq<char>, w: Seq<char>, i: int) -> Option<int>
    decreases s.len() + 1 - i,
{
    if i < 0 || i + w.len() > s.len() {
        None
    } else if occurs_at(s, w, i) {
        Some(i)
    } else {
        first_occurrence_from(s, w, i + 1)
    }
}

/// `s` with the first occurrence of parameter `name` replaced by `content`;
/// unchanged when `name` is empty or does not occur.
pub open spec fn substitution(s: Seq<char>, name: Seq<char>, content: Seq<char>) -> Seq<char> {
    if name.len() == 0 {
        s
    } else {
        match first_occurrence_from(s, name, 0) {
            Some(i) => s.take(i) + content + s.skip(i + name.len()),
            None => s,
        }
    }
}

/// `s` with its parameters substituted one after the other, in order.
pub open spec fn substituted(s: Seq<char>, params: Seq<(Seq<char>, Seq<char>)>) -> Seq<char>
    decreases params.len(),
{
    if params.len() == 0 {
        s
    } else {
        substitution(substituted(s, params.drop_last()), params.last().0, params.last().1)
    }
}

pub proof fn lemma_first_occurrence_from(s: Seq<char>, w: Seq<char>, i: int)
    requires
        0 <= i,
    ensures
        first_occurrence_from(s, w, i) matches Some(j) ==> i <= j && occurs_at(s, w, j),
        first_occurrence_from(s, w, i) is None ==> forall|j: int|
            i <= j ==> !#[trigger] occurs_at(s, w, j),
    decreases s.len() + 1 - i,
{
    if i + w.len() <= s.len() && !occurs_at(s, w, i) {
        lemma_first_occurrence_from(s, w, i + 1);
    }
}

/// A parameter that occurs is replaced, and then no longer stands where
/// it stood: the text holds its content there.
pub proof fn lemma_substitution_replaces(s: Seq<char>, name: Seq<char>, content: Seq<char>)
    requires
        name.len() > 0,
        first_occurrence_from(s, name, 0) is Some,
    ensures
        ({
            let i = first_occurrence_from(s, name, 0)->0;
            &&& forall|j: int| 0 <= j < i ==> !#[trigger] occurs_at(s, name, j)
            &&& substitution(s, name, content).subrange(i, i + content.len()) == content
            &&& substitution(s, name, content).len() == s.len() - name.len() + content.len()
        }),
{
    lemma_first_occurrence_from(s, name, 0);
    let i = first_occurrence_from(s, name, 0)->0;
    assert forall|j: int| 0 <= j < i implies !#[trigger] occurs_at(s, name, j) by {
        lemma_no_occurrence_before(s, name, 0, j);
    }
    let r = s.take(i) + content + s.skip(i + name.len());
    assert(r.subrange(i, i + content.len()) =~= content);
}

proof fn lemma_no_occurrence_before(s: Seq<char>, w: Seq<char>, i: int, j: int)
    requires
        0 <= i <= j,
        first_occurrence_from(s, w, i) matches Some(k) ==> j < k,
    ensures
        !occurs_at(s, w, j),
    decreases j - i,
{
    if i + w.len() <= s.len() && !occurs_at(s, w, i) && i < j {
        lemma_no_occurrence_before(s, w, i + 1, j);
    } else if i + w.len() > s.len() {
    }
}

/// Index of the first occurrence of `w` in `s`.
pub(crate) fn first_occurrence(s: &Vec<char>, w: &Vec<char>) -> (r: Option<usize>)
    ensures
        r matches Some(i) ==> first_occurrence_from(s@, w@, 0) == Some(i as int),
        r is None ==> first_occurrence_from(s@, w@, 0) is None,
{
    if w.len() == 0 {
        assert(occurs_at(s@, w@, 0)) by {
            assert(s@.subrange(0, 0) =~= w@);
        }
        return Some(0);
    }
    if w.len() > s.len() {
        return None;
    }
    let last = s.len() - w.len();
    let mut i: usize = 0;
    while i <= last
        invariant
            i <= last + 1,
            last == s.len() - w.len(),
            w.len() >= 1,
            first_occurrence_from(s@, w@, 0) == first_occurrence_from(s@, w@, i as int),
        decreases last + 1 - i,
    {
        if matches_at(s, w, i) {
            return Some(i);
        }
        i += 1;
    }
    None
}

pub(crate) fn substitution_of(s: &Vec<char>, name: &Vec<char>, content: &Vec<char>) -> (r: Vec<
    char,
>)
    ensures
        r@ == substitution(s@, name@, content@),
{
    if name.len() == 0 {
        return copy_chars(s);
    }
    match first_occurrence(s, name) {
        Some(i) => {
            proof {
                lemma_first_occurrence_from(s@, name@, 0);
            }
            assert(occurs_at(s@, name@, i as int));
            let len = s.len();
            assert(i + name.len() <= len);
            splice(s, i, content, i + name.len())
        },
        None => copy_chars(s),
    }
}

/// The views of a list of parameters.
pub open spec fn children_view(v: Seq<ParamChild>) -> Seq<(Seq<char>, Seq<char>)> {
    v.map_values(|c: ParamChild| c@)
}

pub(crate) fn substituted_of(s: &Vec<char>, params: &Vec<ParamChild>) -> (r: Vec<char>)
    ensures
        r@ == substituted(s@, children_view(params@)),
{
    let mut result = copy_chars(s);
    let mut i: usize = 0;
    let ghost ps = children_view(params@);
    assert(ps.take(0) =~= Seq::<(Seq<char>, Seq<char>)>::empty());
    while i < params.len()
        invariant
            i <= params.len(),
            ps == children_view(params@),
            result@ == substituted(s@, ps.take(i as int)),
        decreases params.len() - i,
    {
        let child = &params[i];
        let name = to_chars(child.param_name.as_str());
        let content = to_chars(child.param_content.as_str());
        proof {
            assert(ps[i as int] == child@);
            assert(ps.take(i + 1).last() == ps[i as int]);
            assert(ps.take(i + 1).drop_last() =~= ps.take(i as int));
        }
        result = substitution_of(&result, &name, &content);
        i += 1;
    }
    assert(ps.take(i as int) =~= ps);
    result
}

/// `some_string` with its parameters substituted one after the other: each
/// replaces the first occurrence of its label in the text as it stands
/// (see `substituted`).
pub fn insert_parameters(some_string: String, params: ParamContainer) -> (r: String)
    ensures
        r@ == substituted(some_string@, params@),
{
    let s = to_chars(some_string.as_str());
    let r = substituted_of(&s, &params.children);
    string_of(&r)
}

/// The decimal digit for `d < 10`.
pub open spec fn digit(d: nat) -> char {
    ((d + 48) as u8) as char
}

/// The decimal notation of `n`, without leading zeros.
pub open spec fn decimal(n: nat) -> Seq<char>
    decreases n,
{
    if n < 10 {
        seq![digit(n)]
    } else {
        decimal(n / 10).push(digit(n % 10))
    }
}

/// The label of the `k`-th parameter of an include: `@p` and `k` and `@`.
pub open spec fn param_label(k: nat) -> Seq<char> {
    seq!['@', 'p'] + decimal(k) + seq!['@']
}

/// The label of the first parameter of every include, which the tag name
/// replaces.
pub open spec fn tag_word() -> Seq<char> {
    seq!['t', 'a', 'g']
}

/// The parameters of the include whose `<` stands at `start`: first `tag`
/// with the tag name, then `@p1@`, `@p2@`, ... with the substrings between
/// `[` and `]` of its `params` attribute, in order.
pub open spec fn params_at(s: Seq<char>, start: int) -> Seq<(Seq<char>, Seq<char>)> {
    let values = substrings_between(attribute_value(s, params_word(), start), '[', ']');
    seq![(tag_word(), tag_name(s, start))] + Seq::new(
        values.len(),
        |i: int| (param_label((i + 1) as nat), values[i]),
    )
}

fn digit_of(d: u64) -> (c: char)
    requires
        d < 10,
    ensures
        c == digit(d as nat),
{
    let b: u8 = d as u8 + 48;
    b as char
}

/// The decimal notation of `n`.
pub fn decimal_of(n: u64) -> (r: Vec<char>)
    ensures
        r@ == decimal(n as nat),
    decreases n,
{
    if n < 10 {
        vec![digit_of(n)]
    } else {
        let mut r = decimal_of(n / 10);
        r.push(digit_of(n % 10));
        r
    }
}

pub(crate) fn params_of(s: &Vec<char>, f: usize, Ghost(start): Ghost<int>) -> (r: Vec<
    (Vec<char>, Vec<char>),
>)
    requires
        f == clamp_index(start + 1, s@.len()),
    ensures
        r@.len() == params_at(s@, start).len(),
        forall|i: int|
            0 <= i < r@.len() ==> (#[trigger] r@[i].0@, r@[i].1@) == params_at(s@, start)[i],
{
    let mut r: Vec<(Vec<char>, Vec<char>)> = Vec::new();
    let tag = vec!['t', 'a', 'g'];
    proof {
        lemma_from_index(s@, start + 1);
    }
    let name = take_until(s, f, ' ');
    assert(tag@ =~= tag_word());
    r.push((tag, name));
    let word = vec!['p', 'a', 'r', 'a', 'm', 's'];
    assert(word@ =~= params_word());
    let value = attribute_of_word(s, word, f);
    assert(value@ == attribute_value(s@, params_word(), start));
    let values = substrings_of(&value, '[', ']');
    let ghost expected = params_at(s@, start);
    let mut i: usize = 0;
    while i < values.len()
        invariant
            i <= values.len(),
            expected == params_at(s@, start),
            values@.len() == substrings_between(value@, '[', ']').len(),
            forall|j: int|
                0 <= j < values@.len() ==> #[trigger] values@[j]@ == substrings_between(
                    value@,
                    '[',
                    ']',
                )[j],
            value@ == attribute_value(s@, params_word(), start),
            r@.len() == i + 1,
            forall|j: int| 0 <= j <= i ==> (#[trigger] r@[j].0@, r@[j].1@) == expected[j],
        decreases values.len() - i,
    {
        let mut label = vec!['@', 'p'];
        let digits = decimal_of(i as u64 + 1);
        let mut j: usize = 0;
        while j < digits.len()
            invariant
                j <= digits.len(),
                label@ == seq!['@', 'p'] + digits@.take(j as int),
            decreases digits.len() - j,
        {
            label.push(digits[j]);
            j += 1;
            assert(label@ =~= seq!['@', 'p'] + digits@.take(j as int));
        }
        label.push('@');
        proof {
            assert(digits@.take(j as int) =~= digits@);
            assert(label@ =~= param_label((i + 1) as nat));
        }
        let content = copy_chars(&values[i]);
        r.push((label, content));
        i += 1;
    }
    r
}

fn copy_chars(v: &Vec<char>) -> (r: Vec<char>)
    ensures
        r@ == v@,
{
    let mut r: Vec<char> = Vec::new();
    let mut i: usize = 0;
    while i < v.len()
        invariant
            i <= v.len(),
            r@ == v@.take(i as int),
        decreases v.len() - i,
    {
        r.push(v[i]);
        i += 1;
        assert(r@ =~= v@.take(i as int));
    }
    assert(r@ =~= v@);
    r
}

pub(crate) fn params_container_of(s: &Vec<char>, f: usize, Ghost(start): Ghost<int>) -> (params:
    ParamContainer)
    requires
        f == clamp_index(start + 1, s@.len()),
    ensures
        params@ == params_at(s@, start),
{
    let ps = params_of(s, f, Ghost(start));
    let mut children: Vec<ParamChild> = Vec::new();
    let mut i: usize = 0;
    while i < ps.len()
        invariant
            i <= ps.len(),
            children@.len() == i,
            forall|j: int|
                0 <= j < i ==> #[trigger] children@[j]@ == (ps@[j].0@, ps@[j].1@),
        decreases ps.len() - i,
    {
        let child = ParamChild {
            param_name: string_of(&ps[i].0),
            param_content: string_of(&ps[i].1),
        };
        children.push(child);
        i += 1;
    }
    let params = ParamContainer { children };
    assert(params@ =~= params_at(s@, start));
    params
}

/// The parameters of the include whose `<` stands at `start_index` (see
/// `params_at`).
pub fn get_params(main_data: String, start_index: i32) -> (params: ParamContainer)
    ensures
        params@ == params_at(main_data@, start_index as int),
{
    let s = to_chars(main_data.as_str());
    let f = clamp(start_index as i64 + 1, s.len());
    params_container_of(&s, f, Ghost(start_index as int))
}

} // verus!
