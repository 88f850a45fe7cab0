//! Replacing the include tags of a page by the objects they name. Resolving
//! an object reads files, so the replacement runs as a machine: it asks for
//! the text of an object, and its caller answers with it.
use vstd::prelude::*;
use crate::edit::{splice, params_at, params_container_of, substituted, substituted_of};
use crate::objects::error_word;
use crate::scan::{
    attribute_value, entire_tag, entire_tag_from, include_word, object_id_after_include,
    object_word, tag_name, tag_name_at,
};
use crate::text::{chars_eq, string_of, to_chars, utf8_len};

verus! {

/// An include tag opens at index `i` of `t`: a `<` whose tag name is `include`.
pub open spec fn include_at(t: Seq<char>, i: int) -> bool {
    &&& 0 <= i < t.len()
    &&& t[i] == '<'
    &&& tag_name(t, i) == include_word()
}

/// Index of the first include tag at or after `i`.
pub open spec fn include_from(t: Seq<char>, i: int) -> Option<int>
    decreases t.len() - i,
{
    if i < 0 || i >= t.len() {
        None
    } else if include_at(t, i) {
        Some(i)
    } else {
        include_from(t, i + 1)
    }
}

/// The object named by the include at `i`: its `object` attribute.
pub open spec fn object_name_at(t: Seq<char>, i: int) -> Seq<char> {
    attribute_value(t, object_word(), i + 8)
}

/// The text of the object for the include at `i`, given the object's body:
/// the body with the include's parameters substituted.
pub open spec fn object_text(t: Seq<char>, i: int, data: Seq<char>) -> Seq<char> {
    substituted(data, params_at(t, i))
}

/// `t` with the include tag at `i` (up to and including its `>`) replaced by
/// `text`.
pub open spec fn replaced(t: Seq<char>, i: int, text: Seq<char>) -> Seq<char> {
    t.take(i) + text + t.skip(i + entire_tag(t, i).len())
}

/// The abstract value of an `InlineAction`.
pub enum InlineStep {
    NeedObject(Seq<char>),
    Finished(Seq<char>),
}

/// What the replacement asks of its caller next.
pub enum InlineAction {
    /// Resolve the object of this name and resume with its body.
    NeedObject(String),
    /// The replacement is over: the page with its includes replaced.
    Finished(String),
}

impl View for InlineAction {
    type V = InlineStep;

    open spec fn view(&self) -> InlineStep {
        match self {
            InlineAction::NeedObject(n) => InlineStep::NeedObject(n@),
            InlineAction::Finished(t) => InlineStep::Finished(t@),
        }
    }
}

/// The abstract state of a replacement: the current page, and the index of
/// the include whose object is awaited.
pub type InlineView = (Seq<char>, int);

/// Scanning `t` from index `from`: the first include tag found asks for its
/// object; with none left, the page is finished.
pub open spec fn inline_scan(t: Seq<char>, from: int) -> (InlineView, InlineStep) {
    match include_from(t, from) {
        Some(i) => ((t, i), InlineStep::NeedObject(object_name_at(t, i))),
        None => ((t, from), InlineStep::Finished(t)),
    }
}

/// Resuming with the object `data` for the include at `i`: unless the object
/// text is `ERROR` (no file defines the object), the include tag is replaced
/// by it and the scan starts over on the new page (the page is finished when
/// the replacement changed nothing); with `ERROR`, the include stays and the
/// scan goes on after it.
pub open spec fn inline_resume(st: InlineView, data: Seq<char>) -> (InlineView, InlineStep) {
    let t = st.0;
    let i = st.1;
    let text = object_text(t, i, data);
    if text != error_word() {
        let next = replaced(t, i, text);
        if next == t {
            (st, InlineStep::Finished(t))
        } else {
            inline_scan(next, 0)
        }
    } else {
        inline_scan(t, i + 1)
    }
}

pub proof fn lemma_include_from(t: Seq<char>, i: int)
    requires
        0 <= i,
    ensures
        include_from(t, i) matches Some(j) ==> i <= j && include_at(t, j),
        include_from(t, i) matches Some(j) ==> forall|k: int|
            i <= k < j ==> !#[trigger] include_at(t, k),
        include_from(t, i) is None ==> forall|j: int| i <= j ==> !#[trigger] include_at(t, j),
    decreases t.len() - i,
{
    if i < t.len() && !include_at(t, i) {
        lemma_include_from(t, i + 1);
    }
}

/// The last pass over `t`, from index `from`, leaves `t` as it is, objects
/// being resolved by `resolve`: every include met from there is either
/// passed over (its object text is `ERROR`) or replaced without change.
pub open spec fn settles(t: Seq<char>, resolve: spec_fn(Seq<char>) -> Seq<char>, from: int) -> bool
    decreases t.len() - from,
{
    match include_from(t, from) {
        None => true,
        Some(i) => {
            proof {
                if from >= 0 {
                    lemma_include_from(t, from);
                }
            }
            let text = object_text(t, i, resolve(object_name_at(t, i)));
            if text == error_word() {
                settles(t, resolve, i + 1)
            } else {
                replaced(t, i, text) == t
            }
        },
    }
}

/// Where a replacement stands after at most `fuel` objects, each resolved
/// by `resolve`: the finished page, or nothing when more are needed.
pub open spec fn run_from(
    st: InlineView,
    step: InlineStep,
    resolve: spec_fn(Seq<char>) -> Seq<char>,
    fuel: nat,
) -> Option<Seq<char>>
    decreases fuel,
{
    match step {
        InlineStep::Finished(out) => Some(out),
        InlineStep::NeedObject(name) => if fuel == 0 {
            None
        } else {
            let (next, next_step) = inline_resume(st, resolve(name));
            run_from(next, next_step, resolve, (fuel - 1) as nat)
        },
    }
}

/// The whole replacement of the include tags of `m`, objects being
/// resolved by `resolve`, within `fuel` objects.
pub open spec fn inline_run(m: Seq<char>, resolve: spec_fn(Seq<char>) -> Seq<char>, fuel: nat) -> Option<
    Seq<char>,
> {
    let (st, step) = inline_scan(m, 0);
    run_from(st, step, resolve, fuel)
}

/// What holds of every state a replacement passes through.
spec fn run_invariant(st: InlineView, step: InlineStep, resolve: spec_fn(Seq<char>) -> Seq<char>) -> bool {
    match step {
        InlineStep::Finished(out) => settles(out, resolve, 0),
        InlineStep::NeedObject(name) => {
            &&& include_at(st.0, st.1)
            &&& include_from(st.0, st.1) == Some(st.1)
            &&& name == object_name_at(st.0, st.1)
            &&& settles(st.0, resolve, 0) == settles(st.0, resolve, st.1)
        },
    }
}

proof fn lemma_scan_invariant(t: Seq<char>, from: int, resolve: spec_fn(Seq<char>) -> Seq<char>)
    requires
        0 <= from,
        settles(t, resolve, 0) == settles(t, resolve, from),
    ensures
        run_invariant(inline_scan(t, from).0, inline_scan(t, from).1, resolve),
{
    lemma_include_from(t, from);
    if let Some(i) = include_from(t, from) {
        assert(include_from(t, i) == Some(i));
        assert(settles(t, resolve, from) == settles(t, resolve, i));
    }
}

proof fn lemma_resume_invariant(st: InlineView, name: Seq<char>, resolve: spec_fn(Seq<char>) -> Seq<char>)
    requires
        run_invariant(st, InlineStep::NeedObject(name), resolve),
    ensures
        run_invariant(inline_resume(st, resolve(name)).0, inline_resume(st, resolve(name)).1, resolve),
{
    let t = st.0;
    let i = st.1;
    let text = object_text(t, i, resolve(name));
    if text != error_word() {
        let next = replaced(t, i, text);
        if next != t {
            lemma_scan_invariant(next, 0, resolve);
        }
    } else {
        lemma_scan_invariant(t, i + 1, resolve);
    }
}

proof fn lemma_run_settles(
    st: InlineView,
    step: InlineStep,
    resolve: spec_fn(Seq<char>) -> Seq<char>,
    fuel: nat,
    out: Seq<char>,
)
    requires
        run_invariant(st, step, resolve),
        run_from(st, step, resolve, fuel) == Some(out),
    ensures
        settles(out, resolve, 0),
    decreases fuel,
{
    if let InlineStep::NeedObject(name) = step {
        lemma_resume_invariant(st, name, resolve);
        let (next, next_step) = inline_resume(st, resolve(name));
        lemma_run_settles(next, next_step, resolve, (fuel - 1) as nat, out);
    }
}

proof fn lemma_settled_run(t: Seq<char>, from: int, resolve: spec_fn(Seq<char>) -> Seq<char>, fuel: nat)
    requires
        0 <= from <= t.len(),
        settles(t, resolve, from),
        fuel >= t.len() + 1 - from,
    ensures
        run_from(inline_scan(t, from).0, inline_scan(t, from).1, resolve, fuel) == Some(t),
    decreases t.len() - from,
{
    lemma_include_from(t, from);
    if let Some(i) = include_from(t, from) {
        let name = object_name_at(t, i);
        let st: InlineView = (t, i);
        let text = object_text(t, i, resolve(name));
        assert(inline_scan(t, from) == (st, InlineStep::NeedObject(name)));
        let (next, next_step) = inline_resume(st, resolve(name));
        assert(run_from(st, InlineStep::NeedObject(name), resolve, fuel) == run_from(
            next,
            next_step,
            resolve,
            (fuel - 1) as nat,
        ));
        if text == error_word() {
            assert(settles(t, resolve, i + 1));
            assert((next, next_step) == inline_scan(t, i + 1));
            lemma_settled_run(t, i + 1, resolve, (fuel - 1) as nat);
        } else {
            assert(replaced(t, i, text) == t);
            assert(next_step == InlineStep::Finished(t));
        }
    }
}

/// The text that the include at `i` of `t` stands for, objects being
/// resolved by `resolve`.
pub open spec fn resolved_text(t: Seq<char>, i: int, resolve: spec_fn(Seq<char>) -> Seq<char>) -> Seq<
    char,
> {
    object_text(t, i, resolve(object_name_at(t, i)))
}

proof fn lemma_settles_every_include(
    t: Seq<char>,
    resolve: spec_fn(Seq<char>) -> Seq<char>,
    from: int,
    i: int,
)
    requires
        0 <= from <= i,
        settles(t, resolve, from),
        include_at(t, i),
        resolved_text(t, i, resolve) != error_word(),
    ensures
        exists|j: int|
            from <= j <= i && include_at(t, j) && resolved_text(t, j, resolve) != error_word()
                && #[trigger] replaced(t, j, resolved_text(t, j, resolve)) == t,
    decreases i - from,
{
    lemma_include_from(t, from);
    let k = include_from(t, from)->0;
    assert(include_from(t, from) is Some);
    if resolved_text(t, k, resolve) == error_word() {
        assert(k < i);
        lemma_settles_every_include(t, resolve, k + 1, i);
    } else {
        assert(replaced(t, k, resolved_text(t, k, resolve)) == t);
    }
}

/// A finished page is settled: every include tag left in it either names an
/// object that no file defines (its text is `ERROR`) or comes after an
/// include whose replacement leaves the page as it is. A missing object
/// never stops the later includes of the page from being replaced.
pub proof fn lemma_finished_page_settled(
    m: Seq<char>,
    resolve: spec_fn(Seq<char>) -> Seq<char>,
    fuel: nat,
    out: Seq<char>,
)
    requires
        inline_run(m, resolve, fuel) == Some(out),
    ensures
        forall|i: int|
            #[trigger] include_at(out, i) && resolved_text(out, i, resolve) != error_word() ==> exists|
                j: int,
            |
                0 <= j <= i && include_at(out, j) && resolved_text(out, j, resolve) != error_word()
                    && #[trigger] replaced(out, j, resolved_text(out, j, resolve)) == out,
{
    lemma_scan_invariant(m, 0, resolve);
    lemma_run_settles(inline_scan(m, 0).0, inline_scan(m, 0).1, resolve, fuel, out);
    assert forall|i: int|
        #[trigger] include_at(out, i) && resolved_text(out, i, resolve) != error_word() implies exists|
            j: int,
        |
            0 <= j <= i && include_at(out, j) && resolved_text(out, j, resolve) != error_word()
                && #[trigger] replaced(out, j, resolved_text(out, j, resolve)) == out by {
        lemma_settles_every_include(out, resolve, 0, i);
    }
}

/// Replacing the include tags of a page twice changes nothing the second
/// time: for a fixed way of resolving objects, the replacement of a page
/// that came out of a replacement finishes with that page unchanged.
pub proof fn lemma_inline_idempotent(
    m: Seq<char>,
    resolve: spec_fn(Seq<char>) -> Seq<char>,
    fuel: nat,
    out: Seq<char>,
)
    requires
        inline_run(m, resolve, fuel) == Some(out),
    ensures
        inline_run(out, resolve, out.len() + 1) == Some(out),
{
    lemma_scan_invariant(m, 0, resolve);
    lemma_run_settles(inline_scan(m, 0).0, inline_scan(m, 0).1, resolve, fuel, out);
    lemma_settled_run(out, 0, resolve, out.len() + 1);
}

/// The replacement of the include tags of a page.
pub struct Inliner {
    text: Vec<char>,
    pos: usize,
}

impl View for Inliner {
    type V = InlineView;

    closed spec fn view(&self) -> InlineView {
        (self.text@, self.pos as int)
    }
}

fn scan_text(t: Vec<char>, from: usize) -> (r: (Inliner, InlineAction))
    requires
        from <= t.len(),
    ensures
        (r.0@, r.1@) == inline_scan(t@, from as int),
        r.1@ is NeedObject ==> include_at(r.0@.0, r.0@.1),
{
    proof {
        lemma_include_from(t@, from as int);
    }
    let include_chars = vec!['i', 'n', 'c', 'l', 'u', 'd', 'e'];
    assert(include_chars@ =~= include_word());
    let mut i = from;
    while i < t.len()
        invariant
            from <= i <= t.len(),
            include_chars@ == include_word(),
            include_from(t@, from as int) == include_from(t@, i as int),
        decreases t.len() - i,
    {
        if t[i] == '<' {
            let name = tag_name_at(&t, i);
            if chars_eq(&name, &include_chars) {
                let object = object_id_after_include(&t, i);
                let action = InlineAction::NeedObject(string_of(&object));
                return (Inliner { text: t, pos: i }, action);
            }
        }
        i += 1;
    }
    let out = string_of(&t);
    (Inliner { text: t, pos: from }, InlineAction::Finished(out))
}

/// Starts replacing the include tags of `main_data` (see `inline_scan`). A
/// page without include tags is finished at once, unchanged.
pub fn start_inline(main_data: String) -> (r: (Inliner, InlineAction))
    ensures
        (r.0@, r.1@) == inline_scan(main_data@, 0),
        r.1@ is NeedObject ==> include_at(r.0@.0, r.0@.1),
        r.1@ matches InlineStep::Finished(out) ==> out == main_data@ && forall|i: int|
            !#[trigger] include_at(main_data@, i),
{
    let t = to_chars(main_data.as_str());
    proof {
        lemma_include_from(main_data@, 0);
    }
    scan_text(t, 0)
}

impl Inliner {
    /// Resumes with the body of the awaited object (see `inline_resume`).
    pub fn resume(&mut self, object_data: String) -> (action: InlineAction)
        requires
            include_at(old(self)@.0, old(self)@.1),
        ensures
            (final(self)@, action@) == inline_resume(old(self)@, object_data@),
            action@ is NeedObject ==> include_at(final(self)@.0, final(self)@.1),
    {
        let pos = self.pos;
        let data = to_chars(object_data.as_str());
        let params = params_container_of(&self.text, pos + 1, Ghost(pos as int));
        let text = substituted_of(&data, &params.children);
        let error = vec!['E', 'R', 'R', 'O', 'R'];
        assert(error@ =~= error_word());
        if chars_eq(&text, &error) {
            let t = self.text.clone();
            let (next, action) = scan_text(t, pos + 1);
            *self = next;
            return action;
        }
        let tag = entire_tag_from(&self.text, pos, Ghost(pos as int));
        proof {
            let u = self.text@.skip(pos as int);
            crate::text::lemma_from_index(self.text@, pos as int);
            crate::text::lemma_index_of_or_len(u, '>');
            assert(tag@.len() <= self.text@.len() - pos);
        }
        let len = self.text.len();
        assert(pos + tag.len() <= len);
        let next_text = splice(&self.text, pos, &text, pos + tag.len());
        if chars_eq(&next_text, &self.text) {
            return InlineAction::Finished(string_of(&self.text));
        }
        let (next, action) = scan_text(next_text, 0);
        *self = next;
        action
    }
}

} // verus!
