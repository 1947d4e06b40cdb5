//! The document that queries run against: a tree of null, boolean, number,
//! string, array and object nodes.

use crate::double::{from_i64, from_u64, nearest, nearest_signed};
use vstd::prelude::*;

verus! {

/// A number of a document: a non-negative integer, a negative integer, or a
/// double given by the 64 bits of its IEEE 754 encoding.
#[derive(Debug, Clone, Copy, PartialEq)]
pub enum Number {
    PosInt(u64),
    NegInt(i64),
    Float(u64),
}

/// The double that a number is read as when it is compared.
pub open spec fn double_of(n: Number) -> u64 {
    match n {
        Number::PosInt(u) => nearest(u as nat),
        Number::NegInt(i) => nearest_signed(i as int),
        Number::Float(bits) => bits,
    }
}

impl Number {
    /// The double nearest to this number, by its bits.
    pub fn as_double(&self) -> (r: u64)
        ensures
            r == double_of(*self),
    {
        match self {
            Number::PosInt(u) => from_u64(*u),
            Number::NegInt(i) => from_i64(*i),
            Number::Float(bits) => *bits,
        }
    }
}

/// A queryable value.
#[derive(Debug, PartialEq)]
pub enum QueryValue {
    Null,
    Bool(bool),
    Number(Number),
    String(String),
    Array(Vec<QueryValue>),
    /// The members of an object; a name is looked up at its first entry.
    Object(Vec<(String, QueryValue)>),
}

/// The mathematical value of a `QueryValue`.
pub enum Tree {
    Null,
    Bool(bool),
    Number(Number),
    Text(Seq<char>),
    Array(Seq<Tree>),
    Object(Seq<(Seq<char>, Tree)>),
}

/// The member called `name` among `entries`: the first one of that name.
pub open spec fn entry_of(entries: Seq<(Seq<char>, Tree)>, name: Seq<char>) -> Option<Tree>
    decreases entries.len(),
{
    if entries.len() == 0 {
        None
    } else if entries[0].0 == name {
        Some(entries[0].1)
    } else {
        entry_of(entries.drop_first(), name)
    }
}

/// Whether no two entries have the same name.
pub open spec fn distinct_names(entries: Seq<(Seq<char>, Tree)>) -> bool {
    forall|i: int, j: int| 0 <= i < j < entries.len() ==> entries[i].0 != entries[j].0
}

/// Among entries with distinct names, a name is looked up at its one entry,
/// wherever that stands: the order of the entries does not matter.
pub proof fn lemma_entry_of_distinct(entries: Seq<(Seq<char>, Tree)>, i: int)
    requires
        distinct_names(entries),
        0 <= i < entries.len(),
    ensures
        entry_of(entries, entries[i].0) == Some(entries[i].1),
    decreases entries.len(),
{
    if i > 0 {
        let rest = entries.drop_first();
        assert(distinct_names(rest)) by {
            assert forall|a: int, b: int| 0 <= a < b < rest.len() implies rest[a].0 != rest[b].0 by {
                assert(rest[a] == entries[a + 1]);
                assert(rest[b] == entries[b + 1]);
            }
        }
        assert(rest[i - 1] == entries[i]);
        lemma_entry_of_distinct(rest, i - 1);
    }
}

/// A name that no entry has is not found.
pub proof fn lemma_entry_of_absent(entries: Seq<(Seq<char>, Tree)>, name: Seq<char>)
    requires
        forall|i: int| 0 <= i < entries.len() ==> entries[i].0 != name,
    ensures
        entry_of(entries, name) is None,
    decreases entries.len(),
{
    if entries.len() > 0 {
        let rest = entries.drop_first();
        assert forall|i: int| 0 <= i < rest.len() implies rest[i].0 != name by {
            assert(rest[i] == entries[i + 1]);
        }
        lemma_entry_of_absent(rest, name);
    }
}

impl Tree {
    /// The member called `name`, where this is an object that has one.
    pub open spec fn member(self, name: Seq<char>) -> Option<Tree> {
        match self {
            Tree::Object(entries) => entry_of(entries, name),
            _ => None,
        }
    }

    /// The element at `index`, where this is an array that has one.
    pub open spec fn item(self, index: int) -> Option<Tree> {
        match self {
            Tree::Array(items) => if 0 <= index < items.len() {
                Some(items[index])
            } else {
                None
            },
            _ => None,
        }
    }
}

impl QueryValue {
    /// The mathematical value of this value.
    pub open spec fn tree(&self) -> Tree
        decreases self,
    {
        match self {
            QueryValue::Null => Tree::Null,
            QueryValue::Bool(b) => Tree::Bool(*b),
            QueryValue::Number(n) => Tree::Number(*n),
            QueryValue::String(s) => Tree::Text(s@),
            QueryValue::Array(items) => Tree::Array(
                Seq::new(
                    items@.len(),
                    |i: int|
                        if 0 <= i < items@.len() {
                            items@[i].tree()
                        } else {
                            Tree::Null
                        },
                ),
            ),
            QueryValue::Object(entries) => Tree::Object(
                Seq::new(
                    entries@.len(),
                    |i: int|
                        if 0 <= i < entries@.len() {
                            (entries@[i].0@, entries@[i].1.tree())
                        } else {
                            (Seq::empty(), Tree::Null)
                        },
                ),
            ),
        }
    }
}

impl View for QueryValue {
    type V = Tree;

    open spec fn view(&self) -> Tree {
        self.tree()
    }
}

/// The value of an array, element by element.
pub proof fn lemma_array_view(v: QueryValue)
    requires
        v is Array,
    ensures
        v@ is Array,
        v@->Array_0.len() == v->Array_0@.len(),
        forall|i: int| 0 <= i < v->Array_0@.len() ==> (#[trigger] v@->Array_0[i]) == v->Array_0@[i]@,
{
}

/// The value of an object, entry by entry.
pub proof fn lemma_object_view(v: QueryValue)
    requires
        v is Object,
    ensures
        v@ is Object,
        v@->Object_0.len() == v->Object_0@.len(),
        forall|i: int|
            0 <= i < v->Object_0@.len() ==> (#[trigger] v@->Object_0[i]) == (
                v->Object_0@[i].0@,
                v->Object_0@[i].1@,
            ),
{
}

/// The mathematical values of a run of values.
pub open spec fn trees(v: Seq<QueryValue>) -> Seq<Tree> {
    Seq::new(v.len(), |i: int| v[i]@)
}

/// An array is worth the values of its elements.
pub proof fn lemma_array_trees(v: QueryValue)
    requires
        v is Array,
    ensures
        v@ == Tree::Array(trees(v->Array_0@)),
{
    lemma_array_view(v);
    assert(v@->Array_0 =~= trees(v->Array_0@));
}

/// The values of a run with one more value at its end.
pub proof fn lemma_trees_push(v: Seq<QueryValue>, x: QueryValue)
    ensures
        trees(v.push(x)) == trees(v).push(x@),
{
    assert(trees(v.push(x)) =~= trees(v).push(x@));
}

/// The values of two runs, one after the other.
pub proof fn lemma_trees_add(v: Seq<QueryValue>, w: Seq<QueryValue>)
    ensures
        trees(v + w) == trees(v) + trees(w),
{
    assert(trees(v + w) =~= trees(v) + trees(w));
}

impl Clone for QueryValue {
    fn clone(&self) -> (r: QueryValue)
        ensures
            r@ == self@,
        decreases self,
    {
        match self {
            QueryValue::Null => QueryValue::Null,
            QueryValue::Bool(b) => QueryValue::Bool(*b),
            QueryValue::Number(n) => QueryValue::Number(*n),
            QueryValue::String(s) => QueryValue::String(s.clone()),
            QueryValue::Array(items) => {
                let mut out: Vec<QueryValue> = Vec::new();
                let mut i: usize = 0;
                while i < items.len()
                    invariant
                        i <= items.len(),
                        out@.len() == i,
                        *self is Array,
                        self->Array_0 == *items,
                        forall|j: int| 0 <= j < i ==> out@[j]@ == items@[j]@,
                    decreases items.len() - i,
                {
                    out.push(items[i].clone());
                    i += 1;
                }
                assert(QueryValue::Array(out)@->Array_0 =~= self@->Array_0);
                QueryValue::Array(out)
            },
            QueryValue::Object(entries) => {
                let mut out: Vec<(String, QueryValue)> = Vec::new();
                let mut i: usize = 0;
                while i < entries.len()
                    invariant
                        i <= entries.len(),
                        out@.len() == i,
                        *self is Object,
                        self->Object_0 == *entries,
                        forall|j: int|
                            0 <= j < i ==> out@[j].1@ == entries@[j].1@ && out@[j].0@
                                == entries@[j].0@,
                    decreases entries.len() - i,
                {
                    out.push((entries[i].0.clone(), entries[i].1.clone()));
                    i += 1;
                }
                assert(QueryValue::Object(out)@->Object_0 =~= self@->Object_0);
                QueryValue::Object(out)
            },
        }
    }
}

/// The number that stands for a signed integer: negative integers are kept
/// as such, all others as non-negative ones.
pub open spec fn signed_number(i: i64) -> Number {
    if i < 0 {
        Number::NegInt(i)
    } else {
        Number::PosInt(i as u64)
    }
}

/// The mathematical values of the members of an object.
pub open spec fn members_view(m: Seq<(String, QueryValue)>) -> Seq<(Seq<char>, Tree)> {
    Seq::new(m.len(), |i: int| (m[i].0@, m[i].1@))
}

/// Appends the member `name: value` to `members`.
pub fn put(members: &mut Vec<(String, QueryValue)>, name: &str, value: QueryValue)
    ensures
        members_view(final(members)@) == members_view(old(members)@).push((name@, value@)),
{
    members.push((name.to_owned(), value));
    assert(members_view(members@) =~= members_view(old(members)@).push((name@, value@)));
}

impl QueryValue {
    /// A string.
    pub fn text(s: &str) -> (r: QueryValue)
        ensures
            r@ == Tree::Text(s@),
    {
        QueryValue::String(s.to_owned())
    }

    /// A non-negative integer.
    pub fn unsigned(n: u64) -> (r: QueryValue)
        ensures
            r@ == Tree::Number(Number::PosInt(n)),
    {
        QueryValue::Number(Number::PosInt(n))
    }

    /// An integer.
    pub fn signed(i: i64) -> (r: QueryValue)
        ensures
            r@ == Tree::Number(signed_number(i)),
    {
        if i < 0 {
            QueryValue::Number(Number::NegInt(i))
        } else {
            QueryValue::Number(Number::PosInt(i as u64))
        }
    }

    /// An array of the given elements.
    pub fn array(items: Vec<QueryValue>) -> (r: QueryValue)
        ensures
            r@ == Tree::Array(trees(items@)),
    {
        let r = QueryValue::Array(items);
        proof {
            lemma_array_trees(r);
        }
        r
    }

    /// An object of the given members.
    pub fn object(members: Vec<(String, QueryValue)>) -> (r: QueryValue)
        ensures
            r@ == Tree::Object(members_view(members@)),
    {
        let r = QueryValue::Object(members);
        assert(r@->Object_0 =~= members_view(members@));
        r
    }

    /// The member called `name`, where this is an object that has one.
    pub fn get(&self, name: &str) -> (r: Option<&QueryValue>)
        ensures
            match r {
                Some(v) => self@.member(name@) == Some(v@),
                None => self@.member(name@) is None,
            },
    {
        match self {
            QueryValue::Object(entries) => {
                let key = name.to_owned();
                let n = entries.len();
                let ghost all = self@->Object_0;
                let mut i: usize = 0;
                proof {
                    lemma_object_view(*self);
                    assert(all.subrange(0, n as int) =~= all);
                }
                while i < n
                    invariant
                        i <= n,
                        n == entries.len(),
                        key@ == name@,
                        *self is Object,
                        self->Object_0 == *entries,
                        all == self@->Object_0,
                        all.len() == n,
                        forall|j: int| 0 <= j < n ==> (#[trigger] all[j]) == (entries@[j].0@, entries@[j].1@),
                        entry_of(all, name@) == entry_of(all.subrange(i as int, n as int), name@),
                    decreases n - i,
                {
                    if entries[i].0 == key {
                        return Some(&entries[i].1);
                    }
                    proof {
                        let w = all.subrange(i as int, n as int);
                        assert(w.drop_first() =~= all.subrange(i + 1, n as int));
                    }
                    i += 1;
                }
                None
            },
            _ => None,
        }
    }

    /// The element at `index`, where this is an array that has one.
    pub fn at(&self, index: usize) -> (r: Option<&QueryValue>)
        ensures
            match r {
                Some(v) => self@.item(index as int) == Some(v@),
                None => self@.item(index as int) is None,
            },
    {
        match self {
            QueryValue::Array(items) => {
                proof {
                    lemma_array_view(*self);
                }
                if index < items.len() {
                    Some(&items[index])
                } else {
                    None
                }
            },
            _ => None,
        }
    }
}

} // verus!
