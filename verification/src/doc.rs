//! A parsed configuration document: the common tree that JSON, JSONC, TOML and
//! YAML files are read into before a host dialect interprets them.
use vstd::prelude::*;
use crate::text::text_eq;

verus! {

/// A parsed configuration document. Object members keep the order the file
/// declares them in.
#[derive(Debug, PartialEq, Eq)]
pub enum Doc {
    Null,
    Bool(bool),
    /// A number, held as the text the parser renders it as (`60000`, `1.5`).
    Number(String),
    String(String),
    Array(Vec<Doc>),
    Object(Vec<(String, Doc)>),
}

/// Which kind of value a `Doc` is.
#[derive(Debug, Clone, Copy, PartialEq, Eq, Structural)]
pub enum DocKind {
    Null,
    Bool,
    Number,
    String,
    Array,
    Object,
}

/// The content of a document: texts in place of strings, sequences in place of vectors.
pub enum DocView {
    Null,
    Bool(bool),
    Number(Seq<char>),
    String(Seq<char>),
    Array(Seq<DocView>),
    Object(Seq<(Seq<char>, DocView)>),
}

/// The content of a document.
pub open spec fn doc_view(d: Doc) -> DocView
    decreases d,
{
    match d {
        Doc::Null => DocView::Null,
        Doc::Bool(b) => DocView::Bool(b),
        Doc::Number(n) => DocView::Number(n@),
        Doc::String(s) => DocView::String(s@),
        Doc::Array(items) => DocView::Array(
            Seq::new(
                items@.len(),
                |i: int|
                    if 0 <= i < items@.len() {
                        doc_view(items@[i])
                    } else {
                        DocView::Null
                    },
            ),
        ),
        Doc::Object(members) => DocView::Object(
            Seq::new(
                members@.len(),
                |i: int|
                    if 0 <= i < members@.len() {
                        (members@[i].0@, doc_view(members@[i].1))
                    } else {
                        (Seq::empty(), DocView::Null)
                    },
            ),
        ),
    }
}

/// The member of `entries` named `key` that comes first, if any.
pub open spec fn member(entries: Seq<(String, Doc)>, key: Seq<char>) -> Option<Doc>
    decreases entries.len(),
{
    if entries.len() == 0 {
        None
    } else if entries[0].0@ == key {
        Some(entries[0].1)
    } else {
        member(entries.drop_first(), key)
    }
}

/// `v[key]` when `v` is an object holding `key`; `None` otherwise.
pub open spec fn spec_get(v: Doc, key: Seq<char>) -> Option<Doc> {
    match v {
        Doc::Object(entries) => member(entries@, key),
        _ => None,
    }
}

/// The value an optional reference points at.
pub open spec fn opt_doc(v: Option<&Doc>) -> Option<Doc> {
    match v {
        Some(x) => Some(*x),
        None => None,
    }
}

/// The text of a string value.
pub open spec fn spec_as_str(v: Doc) -> Option<Seq<char>> {
    match v {
        Doc::String(s) => Some(s@),
        _ => None,
    }
}

/// The text a scalar stands for: a string's own text, a number as written,
/// `true` or `false`; `None` for null, arrays and objects.
pub open spec fn scalar_text(v: Doc) -> Option<Seq<char>> {
    match v {
        Doc::String(s) => Some(s@),
        Doc::Number(n) => Some(n@),
        Doc::Bool(b) => Some(if b { "true"@ } else { "false"@ }),
        _ => None,
    }
}

/// The kind of a value.
pub open spec fn spec_kind(v: Doc) -> DocKind {
    match v {
        Doc::Null => DocKind::Null,
        Doc::Bool(_) => DocKind::Bool,
        Doc::Number(_) => DocKind::Number,
        Doc::String(_) => DocKind::String,
        Doc::Array(_) => DocKind::Array,
        Doc::Object(_) => DocKind::Object,
    }
}

proof fn lemma_member_skip(entries: Seq<(String, Doc)>, key: Seq<char>, i: int)
    requires
        0 <= i < entries.len(),
        entries[i].0@ != key,
    ensures
        member(entries.skip(i), key) == member(entries.skip(i + 1), key),
{
    assert(entries.skip(i).drop_first() =~= entries.skip(i + 1));
}

/// No two members share a key, as in any object a parser produces.
pub open spec fn distinct_keys(entries: Seq<(String, Doc)>) -> bool {
    forall|i: int, j: int|
        0 <= i < j < entries.len() ==> #[trigger] entries[i].0@ != #[trigger] entries[j].0@
}

/// What `member` finds is the earliest member with that key, and it finds nothing
/// only when no member has that key.
pub proof fn lemma_member_is_first(entries: Seq<(String, Doc)>, key: Seq<char>)
    ensures
        member(entries, key) matches Some(v) ==> exists|i: int|
            0 <= i < entries.len() && entries[i].0@ == key && entries[i].1 == v && forall|j: int|
                0 <= j < i ==> #[trigger] entries[j].0@ != key,
        member(entries, key) is None ==> forall|i: int|
            0 <= i < entries.len() ==> #[trigger] entries[i].0@ != key,
    decreases entries.len(),
{
    if entries.len() > 0 {
        let rest = entries.drop_first();
        lemma_member_is_first(rest, key);
        if entries[0].0@ != key {
            if member(rest, key) is Some {
                let v = member(rest, key)->0;
                let i = choose|i: int|
                    0 <= i < rest.len() && rest[i].0@ == key && rest[i].1 == v && forall|j: int|
                        0 <= j < i ==> #[trigger] rest[j].0@ != key;
                assert(entries[i + 1] == rest[i]);
                assert forall|j: int| 0 <= j < i + 1 implies #[trigger] entries[j].0@ != key by {
                    if j > 0 {
                        assert(entries[j] == rest[j - 1]);
                    }
                }
            } else {
                assert forall|i: int| 0 <= i < entries.len() implies #[trigger] entries[i].0@ != key by {
                    if i > 0 {
                        assert(entries[i] == rest[i - 1]);
                    }
                }
            }
        }
    }
}

/// Looking a key up after appending a member: earlier members win.
pub proof fn lemma_member_push(entries: Seq<(String, Doc)>, x: (String, Doc), key: Seq<char>)
    ensures
        member(entries.push(x), key) == (if member(entries, key) is Some {
            member(entries, key)
        } else if x.0@ == key {
            Some(x.1)
        } else {
            None
        }),
    decreases entries.len(),
{
    if entries.len() > 0 {
        assert(entries.push(x)[0] == entries[0]);
        assert(entries.push(x).drop_first() =~= entries.drop_first().push(x));
        lemma_member_push(entries.drop_first(), x, key);
    } else {
        assert(entries.push(x)[0] == x);
        assert(entries.push(x).drop_first() =~= Seq::<(String, Doc)>::empty());
        assert(member(entries.push(x).drop_first(), key) is None);
        assert(member(entries, key) is None);
    }
}

/// A key is found exactly when some member carries it.
pub proof fn lemma_member_exists(entries: Seq<(String, Doc)>, key: Seq<char>)
    ensures
        member(entries, key) is Some <==> exists|i: int| 0 <= i < entries.len() && entries[i].0@ == key,
    decreases entries.len(),
{
    if entries.len() > 0 {
        let rest = entries.drop_first();
        lemma_member_exists(rest, key);
        if exists|i: int| 0 <= i < entries.len() && entries[i].0@ == key {
            let i = choose|i: int| 0 <= i < entries.len() && entries[i].0@ == key;
            if i > 0 {
                assert(rest[i - 1] == entries[i]);
            }
        }
        if exists|i: int| 0 <= i < rest.len() && rest[i].0@ == key {
            let i = choose|i: int| 0 <= i < rest.len() && rest[i].0@ == key;
            assert(entries[i + 1] == rest[i]);
        }
    }
}

/// With distinct keys, each member is what its key finds.
pub proof fn lemma_member_at(entries: Seq<(String, Doc)>, j: int)
    requires
        distinct_keys(entries),
        0 <= j < entries.len(),
    ensures
        member(entries, entries[j].0@) == Some(entries[j].1),
    decreases j,
{
    if j > 0 {
        let rest = entries.drop_first();
        assert(distinct_keys(rest)) by {
            assert forall|a: int, b: int| 0 <= a < b < rest.len() implies #[trigger] rest[a].0@
                != #[trigger] rest[b].0@ by {
                assert(rest[a] == entries[a + 1] && rest[b] == entries[b + 1]);
            }
        }
        assert(entries[0].0@ != entries[j].0@);
        assert(rest[j - 1] == entries[j]);
        lemma_member_at(rest, j - 1);
    }
}

impl Doc {

    /// A copy of this document, holding the same content.
    pub fn duplicate(&self) -> (copy: Doc)
        ensures
            doc_view(copy) == doc_view(*self),
        decreases self,
    {
        match self {
            Doc::Null => Doc::Null,
            Doc::Bool(b) => Doc::Bool(*b),
            Doc::Number(n) => Doc::Number(n.clone()),
            Doc::String(s) => Doc::String(s.clone()),
            Doc::Array(items) => {
                let mut out: Vec<Doc> = Vec::new();
                let mut i: usize = 0;
                while i < items.len()
                    invariant
                        *self == Doc::Array(*items),
                        i <= items@.len(),
                        out@.len() == i,
                        forall|j: int| 0 <= j < i ==> doc_view(#[trigger] out@[j]) == doc_view(items@[j]),
                    decreases items.len() - i,
                {
                    proof {
                        broadcast use vstd::std_specs::vec::axiom_vec_decreases_to_view;
                        assert(decreases_to!(*self => (*self)->Array_0));
                        assert(decreases_to!(*items => items@));
                        assert(decreases_to!(items@ => items@[i as int]));
                    }
                    out.push(items[i].duplicate());
                    i = i + 1;
                }
                let copy = Doc::Array(out);
                assert(doc_view(copy)->Array_0 =~= doc_view(*self)->Array_0);
                copy
            },
            Doc::Object(members) => {
                let mut out: Vec<(String, Doc)> = Vec::new();
                let mut i: usize = 0;
                while i < members.len()
                    invariant
                        *self == Doc::Object(*members),
                        i <= members@.len(),
                        out@.len() == i,
                        forall|j: int| 0 <= j < i ==> (#[trigger] out@[j]).0@ == members@[j].0@,
                        forall|j: int| 0 <= j < i ==> doc_view((#[trigger] out@[j]).1) == doc_view(
                            members@[j].1,
                        ),
                    decreases members.len() - i,
                {
                    proof {
                        broadcast use vstd::std_specs::vec::axiom_vec_decreases_to_view;
                        assert(decreases_to!(*self => (*self)->Object_0));
                        assert(decreases_to!(*members => members@));
                        assert(decreases_to!(members@ => members@[i as int]));
                        assert(decreases_to!(members@[i as int] => members@[i as int].1));
                    }
                    let item = members[i].1.duplicate();
                    out.push((members[i].0.clone(), item));
                    i = i + 1;
                }
                let copy = Doc::Object(out);
                assert(doc_view(copy)->Object_0 =~= doc_view(*self)->Object_0);
                copy
            },
        }
    }
    /// Looks `key` up in an object; `None` for a missing key or a non-object.
    pub fn get(&self, key: &str) -> (r: Option<&Doc>)
        ensures
            match r {
                Some(v) => spec_get(*self, key@) == Some(*v),
                None => spec_get(*self, key@) is None,
            },
            r matches Some(v) ==> (*self matches Doc::Object(es) && exists|i: int|
                0 <= i < es@.len() && es@[i].0@ == key@ && es@[i].1 == *v && forall|j: int|
                    0 <= j < i ==> #[trigger] es@[j].0@ != key@),
            r is None ==> (*self matches Doc::Object(es) ==> forall|i: int|
                0 <= i < es@.len() ==> #[trigger] es@[i].0@ != key@),
    {
        match self {
            Doc::Object(entries) => {
                let mut i: usize = 0;
                assert(entries@.skip(0) =~= entries@);
                while i < entries.len()
                    invariant
                        *self == Doc::Object(*entries),
                        i <= entries@.len(),
                        member(entries@, key@) == member(entries@.skip(i as int), key@),
                    decreases entries.len() - i,
                {
                    if text_eq(entries[i].0.as_str(), key) {
                        assert(entries@.skip(i as int)[0] == entries@[i as int]);
                        proof {
                            lemma_member_is_first(entries@, key@);
                        }
                        return Some(&entries[i].1);
                    }
                    proof {
                        lemma_member_skip(entries@, key@, i as int);
                    }
                    i = i + 1;
                }
                proof {
                    lemma_member_is_first(entries@, key@);
                }
                None
            },
            _ => None,
        }
    }

    /// The text of a string value.
    pub fn as_str(&self) -> (r: Option<&str>)
        ensures
            match r {
                Some(s) => spec_as_str(*self) == Some(s@),
                None => spec_as_str(*self) is None,
            },
    {
        match self {
            Doc::String(s) => Some(s.as_str()),
            _ => None,
        }
    }

    /// The elements of an array value.
    pub fn as_array(&self) -> (r: Option<&Vec<Doc>>)
        ensures
            match r {
                Some(items) => *self == Doc::Array(*items),
                None => !(*self is Array),
            },
    {
        match self {
            Doc::Array(items) => Some(items),
            _ => None,
        }
    }

    /// The members of an object value, in declaration order.
    pub fn as_object(&self) -> (r: Option<&Vec<(String, Doc)>>)
        ensures
            match r {
                Some(entries) => *self == Doc::Object(*entries),
                None => !(*self is Object),
            },
    {
        match self {
            Doc::Object(entries) => Some(entries),
            _ => None,
        }
    }

    /// The kind of this value.
    pub fn kind(&self) -> (k: DocKind)
        ensures
            k == spec_kind(*self),
    {
        match self {
            Doc::Null => DocKind::Null,
            Doc::Bool(_) => DocKind::Bool,
            Doc::Number(_) => DocKind::Number,
            Doc::String(_) => DocKind::String,
            Doc::Array(_) => DocKind::Array,
            Doc::Object(_) => DocKind::Object,
        }
    }

    /// The text a scalar stands for (see `scalar_text`).
    pub fn scalar_text(&self) -> (r: Option<String>)
        ensures
            match r {
                Some(t) => scalar_text(*self) == Some(t@),
                None => scalar_text(*self) is None,
            },
    {
        match self {
            Doc::String(s) => Some(s.clone()),
            Doc::Number(n) => Some(n.clone()),
            Doc::Bool(b) => {
                if *b {
                    Some("true".to_owned())
                } else {
                    Some("false".to_owned())
                }
            },
            _ => None,
        }
    }
}

} // verus!
