//! Object definitions: finding the body of an object in the contents of an
//! `.ohtml` file, and the search through the files a build file lists.
use vstd::prelude::*;
use crate::scan::{
    attribute_of_word, attribute_value, begin_word, object_word, replacement_data,
    replacement_data_from, strings_view, substrings_between, tag_name, tag_name_at,
};
use crate::text::{byte_length, chars_eq, clamp_index, string_of, to_chars, utf8_len};

verus! {

/// Whether an object was found, and its body.
pub struct ValidData {
    pub exists: bool,
    pub data: String,
}

impl View for ValidData {
    type V = (bool, Seq<char>);

    open spec fn view(&self) -> (bool, Seq<char>) {
        (self.exists, self.data@)
    }
}

/// The word returned when no file defines an object.
pub open spec fn error_word() -> Seq<char> {
    seq!['E', 'R', 'R', 'O', 'R']
}

/// A definition of object `id` opens at index `i` of `s`: a `<` whose tag
/// name is `begin` and whose `object` attribute is `id`.
pub open spec fn defines_at(s: Seq<char>, id: Seq<char>, i: int) -> bool {
    &&& s[i] == '<'
    &&& tag_name(s, i) == begin_word()
    &&& attribute_value(s, object_word(), i + 6) == id
}

/// Index of the first definition of `id` at or after `i`.
pub open spec fn definition_from(s: Seq<char>, id: Seq<char>, i: int) -> Option<int>
    decreases s.len() - i,
{
    if i < 0 || i >= s.len() {
        None
    } else if defines_at(s, id, i) {
        Some(i)
    } else {
        definition_from(s, id, i + 1)
    }
}

/// What a file says of object `id`: whether it defines it, and the body of
/// its first definition, read after the index of `<` plus 16 plus the byte
/// length of `id` (the end of `<begin object="id">` for an ASCII `id`).
pub open spec fn lookup(s: Seq<char>, id: Seq<char>) -> (bool, Seq<char>) {
    match definition_from(s, id, 0) {
        Some(i) => (true, replacement_data(s, i + 16 + utf8_len(id))),
        None => (false, Seq::empty()),
    }
}

proof fn lemma_definition_from(s: Seq<char>, id: Seq<char>, k: int)
    requires
        0 <= k,
    ensures
        definition_from(s, id, k) matches Some(i) ==> k <= i < s.len() && defines_at(s, id, i)
            && forall|j: int| k <= j < i ==> !#[trigger] defines_at(s, id, j),
        definition_from(s, id, k) is None ==> forall|j: int|
            k <= j < s.len() ==> !#[trigger] defines_at(s, id, j),
    decreases s.len() - k,
{
    if k < s.len() && !defines_at(s, id, k) {
        lemma_definition_from(s, id, k + 1);
    }
}

/// A file defines object `id` exactly when some `<` opens a tag named
/// `begin` whose `object` attribute is `id` itself (not merely starting
/// with it); the body is read from the first such tag, returned here.
pub proof fn lemma_lookup_exact(s: Seq<char>, id: Seq<char>) -> (first: Option<int>)
    ensures
        lookup(s, id).0 == first is Some,
        first matches Some(i) ==> {
            &&& 0 <= i < s.len()
            &&& s[i] == '<'
            &&& tag_name(s, i) == begin_word()
            &&& attribute_value(s, object_word(), i + 6) == id
            &&& lookup(s, id).1 == replacement_data(s, i + 16 + utf8_len(id))
            &&& forall|j: int|
                0 <= j < i && s[j] == '<' && #[trigger] tag_name(s, j) == begin_word() ==> attribute_value(
                    s,
                    object_word(),
                    j + 6,
                ) != id
        },
        first is None ==> forall|j: int|
            0 <= j < s.len() && s[j] == '<' && #[trigger] tag_name(s, j) == begin_word() ==> attribute_value(
                s,
                object_word(),
                j + 6,
            ) != id,
{
    lemma_definition_from(s, id, 0);
    let first = definition_from(s, id, 0);
    if let Some(i) = first {
        assert forall|j: int|
            0 <= j < i && s[j] == '<' && #[trigger] tag_name(s, j) == begin_word() implies attribute_value(
                s,
                object_word(),
                j + 6,
            ) != id by {
            assert(!defines_at(s, id, j));
        }
    } else {
        assert forall|j: int|
            0 <= j < s.len() && s[j] == '<' && #[trigger] tag_name(s, j) == begin_word() implies attribute_value(
                s,
                object_word(),
                j + 6,
            ) != id by {
            assert(!defines_at(s, id, j));
        }
    }
    first
}

pub(crate) fn lookup_of(s: &Vec<char>, id: &Vec<char>, id_bytes: usize) -> (r: (bool, Vec<char>))
    requires
        id_bytes == utf8_len(id@),
    ensures
        r.0 == lookup(s@, id@).0,
        r.1@ == lookup(s@, id@).1,
{
    let begin = vec!['b', 'e', 'g', 'i', 'n'];
    assert(begin@ =~= begin_word());
    let mut i: usize = 0;
    while i < s.len()
        invariant
            i <= s.len(),
            id_bytes == utf8_len(id@),
            begin@ == begin_word(),
            definition_from(s@, id@, 0) == definition_from(s@, id@, i as int),
        decreases s.len() - i,
    {
        if s[i] == '<' {
            let name = tag_name_at(s, i);
            if chars_eq(&name, &begin) {
                let id_from = if s.len() - i > 7 {
                    i + 7
                } else {
                    s.len()
                };
                let w = vec!['o', 'b', 'j', 'e', 'c', 't'];
                assert(w@ =~= object_word());
                let found = attribute_of_word(s, w, id_from);
                if chars_eq(&found, id) {
                    assert(defines_at(s@, id@, i as int));
                    assert(definition_from(s@, id@, i as int) == Some(i as int));
                    let f = if id_bytes >= s.len() - i {
                        s.len()
                    } else if s.len() - (i + id_bytes) > 17 {
                        i + id_bytes + 17
                    } else {
                        s.len()
                    };
                    assert(f == clamp_index(i + 16 + utf8_len(id@) + 1, s@.len()));
                    let data = replacement_data_from(s, f);
                    return (true, data);
                }
            }
        }
        i += 1;
    }
    (false, Vec::new())
}

/// Whether `file` defines object `replacement_id`, and the body of its first
/// definition (see `lookup`).
pub fn does_replacement_exist(file: String, replacement_id: String) -> (r: ValidData)
    ensures
        r@ == lookup(file@, replacement_id@),
{
    let s = to_chars(file.as_str());
    let id = to_chars(replacement_id.as_str());
    let id_bytes = byte_length(&replacement_id);
    let (exists, data) = lookup_of(&s, &id, id_bytes);
    ValidData { exists, data: string_of(&data) }
}

/// What a search for an object asks of its caller next.
pub enum SearchAction {
    /// Read the file at this path and feed its contents.
    ReadFile(String),
    /// The search is over: the body of the object, or `ERROR`.
    Finished(String),
}

/// The abstract value of a `SearchAction`.
pub enum SearchStep {
    ReadFile(Seq<char>),
    Finished(Seq<char>),
}

impl View for SearchAction {
    type V = SearchStep;

    open spec fn view(&self) -> SearchStep {
        match self {
            SearchAction::ReadFile(p) => SearchStep::ReadFile(p@),
            SearchAction::Finished(d) => SearchStep::Finished(d@),
        }
    }
}

/// A search for the body of an object through the `.ohtml` files that a
/// build file lists between `[` and `]`: the files are read in that order,
/// and the first one that defines the object gives its body.
pub struct ObjectSearch {
    id: Vec<char>,
    id_bytes: usize,
    files: Vec<String>,
    next: usize,
}

/// The abstract state of a search: the object's name, the listed files, and
/// the index of the file whose contents are awaited.
pub type SearchView = (Seq<char>, Seq<Seq<char>>, nat);

impl View for ObjectSearch {
    type V = SearchView;

    closed spec fn view(&self) -> SearchView {
        (self.id@, strings_view(self.files@), self.next as nat)
    }
}

impl ObjectSearch {
    /// The internal invariant of a search.
    pub closed spec fn wf(&self) -> bool {
        &&& self.id_bytes == utf8_len(self.id@)
        &&& self.next <= self.files@.len()
    }
}

/// How a search starts: with the first listed file, or with `ERROR` when the
/// build file lists none.
pub open spec fn search_start(files: Seq<Seq<char>>) -> SearchStep {
    if files.len() == 0 {
        SearchStep::Finished(error_word())
    } else {
        SearchStep::ReadFile(files[0])
    }
}

/// One step of a search: the awaited file's contents decide whether the
/// search ends with the object's body, moves on to the next listed file, or
/// ends with `ERROR` after the last one.
pub open spec fn search_feed(st: SearchView, contents: Seq<char>) -> (SearchView, SearchStep) {
    let found = lookup(contents, st.0);
    if found.0 {
        (st, SearchStep::Finished(found.1))
    } else if st.2 + 1 < st.1.len() {
        ((st.0, st.1, st.2 + 1), SearchStep::ReadFile(st.1[st.2 + 1int]))
    } else {
        (st, SearchStep::Finished(error_word()))
    }
}

/// The body of `id` given by the first of `contents` that defines it.
pub open spec fn first_body(contents: Seq<Seq<char>>, id: Seq<char>) -> Option<Seq<char>>
    decreases contents.len(),
{
    if contents.len() == 0 {
        None
    } else if lookup(contents[0], id).0 {
        Some(lookup(contents[0], id).1)
    } else {
        first_body(contents.drop_first(), id)
    }
}

/// Where a search from state `st` stands once `contents` are fed to it in
/// order, as long as it asks for them.
pub open spec fn run_search(st: SearchView, contents: Seq<Seq<char>>) -> SearchStep
    decreases contents.len(),
{
    if contents.len() == 0 {
        SearchStep::ReadFile(st.1[st.2 as int])
    } else {
        let (next, step) = search_feed(st, contents[0]);
        match step {
            SearchStep::Finished(d) => SearchStep::Finished(d),
            SearchStep::ReadFile(_) => run_search(next, contents.drop_first()),
        }
    }
}

/// The first file that defines the object wins: fed the contents of the
/// listed files in order, a search ends with the body from the first of them
/// that defines the object; while none has, it asks for the next listed
/// file, and once every listed file has been read without one it ends with
/// `ERROR`.
pub proof fn lemma_first_definition_wins(
    id: Seq<char>,
    files: Seq<Seq<char>>,
    k: nat,
    contents: Seq<Seq<char>>,
)
    requires
        k < files.len(),
        k + contents.len() <= files.len(),
    ensures
        run_search((id, files, k), contents) == match first_body(contents, id) {
            Some(body) => SearchStep::Finished(body),
            None => if k + contents.len() == files.len() {
                SearchStep::Finished(error_word())
            } else {
                SearchStep::ReadFile(files[k + contents.len() as int])
            },
        },
    decreases contents.len(),
{
    if contents.len() > 0 && !lookup(contents[0], id).0 {
        if k + 1 < files.len() {
            lemma_first_definition_wins(id, files, k + 1, contents.drop_first());
            assert(k + 1 + contents.drop_first().len() == k + contents.len());
        } else {
            assert(contents.drop_first().len() == 0);
            assert(first_body(contents.drop_first(), id) is None);
        }
    }
}

/// Starts a search for object `replacement_id` through the files listed in
/// `build_file_contents`.
pub fn start_search(replacement_id: String, build_file_contents: String) -> (r: (
    ObjectSearch,
    SearchAction,
))
    ensures
        r.0.wf(),
        r.0@ == (replacement_id@, substrings_between(build_file_contents@, '[', ']'), 0nat),
        r.1@ == search_start(substrings_between(build_file_contents@, '[', ']')),
        r.1@ is ReadFile ==> r.0@.2 < r.0@.1.len(),
{
    let id = to_chars(replacement_id.as_str());
    let id_bytes = byte_length(&replacement_id);
    let files = crate::scan::get_substrings_from_delims(build_file_contents, '[', ']');
    let action = if files.len() == 0 {
        let e = vec!['E', 'R', 'R', 'O', 'R'];
        assert(e@ =~= error_word());
        SearchAction::Finished(string_of(&e))
    } else {
        SearchAction::ReadFile(files[0].clone())
    };
    (ObjectSearch { id, id_bytes, files, next: 0 }, action)
}

impl ObjectSearch {
    /// Feeds the contents of the awaited file (see `search_feed`).
    pub fn feed(&mut self, file_contents: String) -> (action: SearchAction)
        requires
            old(self).wf(),
            old(self)@.2 < old(self)@.1.len(),
        ensures
            final(self).wf(),
            (final(self)@, action@) == search_feed(old(self)@, file_contents@),
            action@ is ReadFile ==> final(self)@.2 < final(self)@.1.len(),
    {
        let s = to_chars(file_contents.as_str());
        let (exists, data) = lookup_of(&s, &self.id, self.id_bytes);
        let count = self.files.len();
        assert(old(self)@.1.len() == count);
        if exists {
            SearchAction::Finished(string_of(&data))
        } else if self.next + 1 < count {
            self.next = self.next + 1;
            SearchAction::ReadFile(self.files[self.next].clone())
        } else {
            let e = vec!['E', 'R', 'R', 'O', 'R'];
            assert(e@ =~= error_word());
            SearchAction::Finished(string_of(&e))
        }
    }
}

} // verus!
