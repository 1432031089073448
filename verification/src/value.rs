//! Streamed values assembled from parse events: each event writes a scalar,
//! an empty container or a string fragment at its path, creating the
//! containers on the way.

use vstd::prelude::*;
use crate::traverse::{bytes_less, lemma_lex_total, lemma_lex_transitive, lex_less};

verus! {

/// One step of a path: an object key or an array index.
pub enum PathItem {
    Key(Vec<u8>),
    Index(usize),
}

/// An object member.
pub struct Member {
    pub key: Vec<u8>,
    pub value: Value,
}

/// How new object members are placed: in key order, as a sorted map keeps
/// them, or after the existing members, as an insertion-ordered dict does.
#[derive(Clone, Copy, Debug, PartialEq, Eq, Structural)]
pub enum MemberOrder {
    Sorted,
    Inserted,
}

/// A JSON value. Object members keep the order their `MemberOrder` gives.
pub enum Value {
    Null,
    Boolean(bool),
    /// The number's text as it appeared in the input.
    Number(Vec<u8>),
    Text(Vec<u8>),
    Array(Vec<Value>),
    Object(Vec<Member>),
}

/// The mathematical content of a value.
pub enum Json {
    Null,
    Boolean(bool),
    Number(Seq<u8>),
    Text(Seq<u8>),
    Array(Seq<Json>),
    Object(Seq<(Seq<u8>, Json)>),
}

impl Value {
    /// The content of this value.
    pub open spec fn model(&self) -> Json
        decreases self,
    {
        match self {
            Value::Null => Json::Null,
            Value::Boolean(b) => Json::Boolean(*b),
            Value::Number(text) => Json::Number(text@),
            Value::Text(text) => Json::Text(text@),
            Value::Array(items) => Json::Array(
                Seq::new(
                    items@.len(),
                    |i: int|
                        if 0 <= i < items@.len() {
                            items@[i].model()
                        } else {
                            Json::Null
                        },
                ),
            ),
            Value::Object(members) => Json::Object(
                Seq::new(
                    members@.len(),
                    |i: int|
                        if 0 <= i < members@.len() {
                            (members@[i].key@, members@[i].value.model())
                        } else {
                            (Seq::empty(), Json::Null)
                        },
                ),
            ),
        }
    }
}

/// The contents of a sequence of values.
pub open spec fn models(items: Seq<Value>) -> Seq<Json> {
    Seq::new(items.len(), |i: int| items[i].model())
}

/// The contents of a sequence of members.
pub open spec fn member_models(members: Seq<Member>) -> Seq<(Seq<u8>, Json)> {
    Seq::new(members.len(), |i: int| (members[i].key@, members[i].value.model()))
}

/// The content of an optional root.
pub open spec fn root_model(root: Option<Value>) -> Option<Json> {
    match root {
        Some(v) => Some(v.model()),
        None => None,
    }
}

/// Member `index` is the first with this key.
pub open spec fn first_key(members: Seq<(Seq<u8>, Json)>, key: Seq<u8>, index: int) -> bool {
    &&& 0 <= index < members.len()
    &&& members[index].0 == key
    &&& forall|j: int| 0 <= j < index ==> (#[trigger] members[j]).0 != key
}

/// Position of the first member with this key.
pub open spec fn find_key(members: Seq<(Seq<u8>, Json)>, key: Seq<u8>) -> Option<int> {
    if exists|i: int| first_key(members, key, i) {
        Some(choose|i: int| first_key(members, key, i))
    } else {
        None
    }
}

/// Position `p` is the first whose key does not order before `key`.
pub open spec fn first_not_before(members: Seq<(Seq<u8>, Json)>, key: Seq<u8>, p: int) -> bool {
    &&& 0 <= p <= members.len()
    &&& p < members.len() ==> !lex_less(members[p].0, key)
    &&& forall|j: int| 0 <= j < p ==> lex_less((#[trigger] members[j]).0, key)
}

/// Where a new key goes: in key order, before the first member whose key
/// does not order before it; in insertion order, after every member.
pub open spec fn insert_position(members: Seq<(Seq<u8>, Json)>, key: Seq<u8>, order: MemberOrder) -> int {
    match order {
        MemberOrder::Sorted => choose|p: int| first_not_before(members, key, p),
        MemberOrder::Inserted => members.len() as int,
    }
}

/// Set a member's value, adding the member where `order` places it when
/// absent.
pub open spec fn object_put(
    members: Seq<(Seq<u8>, Json)>,
    key: Seq<u8>,
    value: Json,
    order: MemberOrder,
) -> Seq<(Seq<u8>, Json)> {
    match find_key(members, key) {
        Some(i) => members.update(i, (members[i].0, value)),
        None => members.insert(insert_position(members, key, order), (key, value)),
    }
}

/// The child of a value at one path step, if present.
pub open spec fn child(value: Json, item: PathItem) -> Option<Json> {
    match (item, value) {
        (PathItem::Key(k), Json::Object(members)) => match find_key(members, k@) {
            Some(i) => Some(members[i].1),
            None => None,
        },
        (PathItem::Index(i), Json::Array(items)) => if i < items.len() {
            Some(items[i as int])
        } else {
            None
        },
        _ => None,
    }
}

/// The value at a path, if present.
pub open spec fn json_at(value: Json, path: Seq<PathItem>) -> Option<Json>
    decreases path.len(),
{
    if path.len() == 0 {
        Some(value)
    } else {
        match child(value, path[0]) {
            Some(c) => json_at(c, path.skip(1)),
            None => None,
        }
    }
}

/// The empty container a path step needs: an array before an index, else an object.
pub open spec fn container_for(next: Option<PathItem>) -> Json {
    match next {
        Some(PathItem::Index(_)) => Json::Array(Seq::empty()),
        _ => Json::Object(Seq::empty()),
    }
}

/// A value's members, or none when it is not an object.
pub open spec fn members_of(value: Json) -> Seq<(Seq<u8>, Json)> {
    match value {
        Json::Object(members) => members,
        _ => Seq::empty(),
    }
}

/// A value's items, or none when it is not an array.
pub open spec fn items_of(value: Json) -> Seq<Json> {
    match value {
        Json::Array(items) => items,
        _ => Seq::empty(),
    }
}

/// Items extended with `fill` to at least `n`.
pub open spec fn padded(items: Seq<Json>, n: int, fill: Json) -> Seq<Json> {
    if items.len() >= n {
        items
    } else {
        items + Seq::new((n - items.len()) as nat, |i: int| fill)
    }
}

/// Write `value` at a nonempty path inside `current`, turning values on the
/// way into the containers the path needs.
pub open spec fn assign_inside(current: Json, path: Seq<PathItem>, value: Json) -> Json
    decreases path.len(),
{
    if path.len() <= 1 {
        match path[0] {
            PathItem::Key(k) => Json::Object(object_put(members_of(current), k@, value, MemberOrder::Sorted)),
            PathItem::Index(i) => {
                let items = padded(items_of(current), i as int, Json::Null);
                Json::Array(
                    if items.len() == i {
                        items.push(value)
                    } else {
                        items.update(i as int, value)
                    },
                )
            },
        }
    } else {
        match path[0] {
            PathItem::Key(k) => {
                let members = members_of(current);
                let present = match find_key(members, k@) {
                    Some(_) => members,
                    None => object_put(members, k@, container_for(Some(path[1])), MemberOrder::Sorted),
                };
                let inner = present[find_key(present, k@)->0].1;
                Json::Object(object_put(present, k@, assign_inside(inner, path.skip(1), value), MemberOrder::Sorted))
            },
            PathItem::Index(i) => {
                let items = padded(items_of(current), i + 1, container_for(Some(path[1])));
                Json::Array(items.update(i as int, assign_inside(items[i as int], path.skip(1), value)))
            },
        }
    }
}

/// Write `value` at a path from an optional root; an absent root starts as
/// the container the first step needs.
pub open spec fn assign_at(root: Option<Json>, path: Seq<PathItem>, value: Json) -> Json {
    if path.len() == 0 {
        value
    } else {
        let start = match root {
            Some(r) => r,
            None => container_for(Some(path[0])),
        };
        assign_inside(start, path, value)
    }
}

proof fn lemma_first_key_unique(members: Seq<(Seq<u8>, Json)>, key: Seq<u8>, i: int, j: int)
    requires
        first_key(members, key, i),
        first_key(members, key, j),
    ensures
        i == j,
{
    if i < j {
        assert(members[i].0 != key);
    } else if j < i {
        assert(members[j].0 != key);
    }
}

proof fn lemma_first_key_exists(members: Seq<(Seq<u8>, Json)>, key: Seq<u8>, i: int)
    requires
        0 <= i < members.len(),
        members[i].0 == key,
    ensures
        find_key(members, key) is Some,
    decreases i,
{
    if exists|j: int| 0 <= j < i && (#[trigger] members[j]).0 == key {
        let j = choose|j: int| 0 <= j < i && (#[trigger] members[j]).0 == key;
        lemma_first_key_exists(members, key, j);
    } else {
        assert(first_key(members, key, i));
    }
}

/// `find_key` names the first member with the key, and is absent only when
/// no member has it.
proof fn lemma_find_key(members: Seq<(Seq<u8>, Json)>, key: Seq<u8>)
    ensures
        match find_key(members, key) {
            Some(i) => first_key(members, key, i),
            None => forall|j: int| 0 <= j < members.len() ==> (#[trigger] members[j]).0 != key,
        },
{
    if find_key(members, key) is None {
        assert forall|j: int| 0 <= j < members.len() implies (#[trigger] members[j]).0 != key by {
            if members[j].0 == key {
                lemma_first_key_exists(members, key, j);
            }
        }
    }
}

proof fn lemma_insert_position_exists(members: Seq<(Seq<u8>, Json)>, key: Seq<u8>)
    ensures
        exists|p: int| first_not_before(members, key, p),
    decreases members.len(),
{
    let n = members.len() as int;
    if n > 0 {
        let front = members.subrange(0, n - 1);
        lemma_insert_position_exists(front, key);
        let q = choose|p: int| first_not_before(front, key, p);
        assert forall|j: int| 0 <= j < q implies lex_less((#[trigger] members[j]).0, key) by {
            assert(front[j] == members[j]);
        }
        if q < n - 1 {
            assert(front[q] == members[q]);
            assert(first_not_before(members, key, q));
        } else if lex_less(members[n - 1].0, key) {
            assert(first_not_before(members, key, n));
        } else {
            assert(first_not_before(members, key, n - 1));
        }
    } else {
        assert(first_not_before(members, key, 0));
    }
}

/// In key order, `insert_position` is the first position whose key does not
/// order before the new key; in either order it lies within the members.
proof fn lemma_insert_position(members: Seq<(Seq<u8>, Json)>, key: Seq<u8>, order: MemberOrder)
    ensures
        0 <= insert_position(members, key, order) <= members.len(),
        order == MemberOrder::Sorted ==> first_not_before(members, key, insert_position(members, key, order)),
        order == MemberOrder::Sorted ==> forall|p: int|
            first_not_before(members, key, p) ==> p == insert_position(members, key, order),
{
    if order == MemberOrder::Inserted {
        return;
    }
    lemma_insert_position_exists(members, key);
    let q = insert_position(members, key, order);
    assert forall|p: int| first_not_before(members, key, p) implies p == q by {
        if p < q {
            assert(lex_less(members[p].0, key));
        } else if q < p {
            assert(lex_less(members[q].0, key));
        }
    }
}

/// After a member is set, looking its key up finds the new value.
pub proof fn lemma_put_then_find(members: Seq<(Seq<u8>, Json)>, key: Seq<u8>, value: Json, order: MemberOrder)
    ensures
        find_key(object_put(members, key, value, order), key) matches Some(i) && object_put(
            members,
            key,
            value, order,
        )[i].1 == value,
{
    lemma_find_key(members, key);
    let put = object_put(members, key, value, order);
    match find_key(members, key) {
        Some(i) => {
            assert(first_key(put, key, i));
            lemma_find_key(put, key);
            let j = find_key(put, key)->0;
            lemma_first_key_unique(put, key, i, j);
        },
        None => {
            lemma_insert_position(members, key, order);
            let p = insert_position(members, key, order);
            assert(put[p] == (key, value));
            assert forall|j: int| 0 <= j < p implies (#[trigger] put[j]).0 != key by {
                assert(put[j] == members[j]);
            }
            assert(first_key(put, key, p));
            lemma_find_key(put, key);
            let j = find_key(put, key)->0;
            lemma_first_key_unique(put, key, p, j);
        },
    }
}

/// Reading a path back after writing a value there gives the value.
pub proof fn lemma_read_after_write_inside(current: Json, path: Seq<PathItem>, value: Json)
    requires
        path.len() >= 1,
    ensures
        json_at(assign_inside(current, path, value), path) == Some(value),
    decreases path.len(),
{
    let result = assign_inside(current, path, value);
    let rest = path.skip(1);
    if path.len() == 1 {
        assert(rest =~= Seq::<PathItem>::empty());
        match path[0] {
            PathItem::Key(k) => {
                let put = object_put(members_of(current), k@, value, MemberOrder::Sorted);
                lemma_put_then_find(members_of(current), k@, value, MemberOrder::Sorted);
                assert(result == Json::Object(put));
                assert(child(result, path[0]) == Some(value));
            },
            PathItem::Index(i) => {
                let items = padded(items_of(current), i as int, Json::Null);
                assert(items.len() >= i);
                assert(child(result, path[0]) == Some(value));
            },
        }
        assert(json_at(value, rest) == Some(value));
    } else {
        match path[0] {
            PathItem::Key(k) => {
                let members = members_of(current);
                let present = match find_key(members, k@) {
                    Some(_) => members,
                    None => object_put(members, k@, container_for(Some(path[1])), MemberOrder::Sorted),
                };
                lemma_find_key(members, k@);
                if find_key(members, k@) is None {
                    lemma_put_then_find(members, k@, container_for(Some(path[1])), MemberOrder::Sorted);
                }
                assert(find_key(present, k@) is Some);
                let inner = present[find_key(present, k@)->0].1;
                let written = assign_inside(inner, rest, value);
                lemma_put_then_find(present, k@, written, MemberOrder::Sorted);
                assert(result == Json::Object(object_put(present, k@, written, MemberOrder::Sorted)));
                assert(child(result, path[0]) == Some(written));
                lemma_read_after_write_inside(inner, rest, value);
            },
            PathItem::Index(i) => {
                let items = padded(items_of(current), i + 1, container_for(Some(path[1])));
                let written = assign_inside(items[i as int], rest, value);
                assert(items.len() >= i + 1);
                assert(result == Json::Array(items.update(i as int, written)));
                assert(child(result, path[0]) == Some(written));
                lemma_read_after_write_inside(items[i as int], rest, value);
            },
        }
    }
}

/// Reading a path back after an event writes a value there gives the value,
/// whatever the root held before.
pub proof fn lemma_read_after_write(root: Option<Json>, path: Seq<PathItem>, value: Json)
    ensures
        json_at(assign_at(root, path, value), path) == Some(value),
{
    if path.len() > 0 {
        let start = match root {
            Some(r) => r,
            None => container_for(Some(path[0])),
        };
        lemma_read_after_write_inside(start, path, value);
    }
}

/// Whether two byte strings are equal.
pub fn bytes_equal(a: &[u8], b: &[u8]) -> (equal: bool)
    ensures
        equal == (a@ == b@),
{
    if a.len() != b.len() {
        return false;
    }
    let mut i: usize = 0;
    while i < a.len()
        invariant
            a@.len() == b@.len(),
            i <= a@.len(),
            forall|j: int| 0 <= j < i ==> a@[j] == b@[j],
        decreases a@.len() - i,
    {
        if a[i] != b[i] {
            return false;
        }
        i = i + 1;
    }
    assert(a@ =~= b@);
    true
}

proof fn lemma_object_model(value: Value)
    requires
        value is Object,
    ensures
        value.model() == Json::Object(member_models(value->Object_0@)),
{
    assert(value.model()->Object_0 =~= member_models(value->Object_0@));
}

proof fn lemma_array_model(value: Value)
    requires
        value is Array,
    ensures
        value.model() == Json::Array(models(value->Array_0@)),
{
    assert(value.model()->Array_0 =~= models(value->Array_0@));
}

/// Position of the first member with this key.
fn find_member(members: &Vec<Member>, key: &[u8]) -> (found: Option<usize>)
    ensures
        match find_key(member_models(members@), key@) {
            Some(i) => found matches Some(j) && j as int == i,
            None => found is None,
        },
{
    let ghost m = member_models(members@);
    let mut i: usize = 0;
    while i < members.len()
        invariant
            m == member_models(members@),
            i <= members@.len(),
            forall|j: int| 0 <= j < i ==> (#[trigger] m[j]).0 != key@,
        decreases members@.len() - i,
    {
        if bytes_equal(members[i].key.as_slice(), key) {
            proof {
                assert(first_key(m, key@, i as int));
                lemma_find_key(m, key@);
                lemma_first_key_unique(m, key@, i as int, find_key(m, key@)->0);
            }
            return Some(i);
        }
        i = i + 1;
    }
    proof {
        lemma_find_key(m, key@);
        if find_key(m, key@) is Some {
            let j = find_key(m, key@)->0;
            assert(m[j].0 == key@);
        }
    }
    None
}

/// Where a new key goes among the members.
fn key_position(members: &Vec<Member>, key: &[u8], order: MemberOrder) -> (position: usize)
    ensures
        position == insert_position(member_models(members@), key@, order),
{
    let ghost m = member_models(members@);
    if order == MemberOrder::Inserted {
        return members.len();
    }
    let mut p: usize = 0;
    while p < members.len() && bytes_less(members[p].key.as_slice(), key)
        invariant
            m == member_models(members@),
            p <= members@.len(),
            forall|j: int| 0 <= j < p ==> lex_less((#[trigger] m[j]).0, key@),
        decreases members@.len() - p,
    {
        p = p + 1;
    }
    proof {
        assert(first_not_before(m, key@, p as int));
        lemma_insert_position(m, key@, order);
    }
    p
}

/// Set a member's value, adding the member in key order when absent.
fn put_member(members: &mut Vec<Member>, key: &[u8], value: Value, order: MemberOrder)
    ensures
        member_models(final(members)@) == object_put(member_models(old(members)@), key@, value.model(), order),
{
    let ghost m = member_models(members@);
    let ghost v = value.model();
    match find_member(members, key) {
        Some(i) => {
            let previous = members.remove(i);
            members.insert(i, Member { key: previous.key, value });
            proof {
                lemma_find_key(m, key@);
                assert(find_key(m, key@) == Some(i as int));
                assert(member_models(members@) =~= m.update(i as int, (m[i as int].0, v)));
                assert(object_put(m, key@, v, order) == m.update(i as int, (m[i as int].0, v)));
            }
        },
        None => {
            let p = key_position(members, key, order);
            proof {
                lemma_insert_position(m, key@, order);
            }
            members.insert(p, Member { key: vstd::slice::slice_to_vec(key), value });
            proof {
                assert(member_models(members@) =~= m.insert(p as int, (key@, v)));
                assert(object_put(m, key@, v, order) == m.insert(p as int, (key@, v)));
            }
        },
    }
}

/// The empty container that a path step needs before it.
pub fn empty_container(next: &PathItem) -> (container: Value)
    ensures
        container.model() == container_for(Some(*next)),
{
    match next {
        PathItem::Index(_) => {
            let items: Vec<Value> = Vec::new();
            let container = Value::Array(items);
            proof {
                lemma_array_model(container);
                assert(models(items@) =~= Seq::<Json>::empty());
            }
            container
        },
        PathItem::Key(_) => {
            let members: Vec<Member> = Vec::new();
            let container = Value::Object(members);
            proof {
                lemma_object_model(container);
                assert(member_models(members@) =~= Seq::<(Seq<u8>, Json)>::empty());
            }
            container
        },
    }
}

/// Turn a value that is not an object into an empty object.
fn make_object(current: &mut Value)
    ensures
        *final(current) is Object,
        final(current).model() == Json::Object(members_of(old(current).model())),
{
    match current {
        Value::Object(_) => {},
        _ => {
            *current = Value::Object(Vec::new());
        },
    }
    proof {
        lemma_object_model(*current);
        assert(member_models(current->Object_0@) =~= members_of(old(current).model()));
    }
}

/// Turn a value that is not an array into an empty array.
fn make_array(current: &mut Value)
    ensures
        *final(current) is Array,
        final(current).model() == Json::Array(items_of(old(current).model())),
{
    match current {
        Value::Array(_) => {},
        _ => {
            *current = Value::Array(Vec::new());
        },
    }
    proof {
        lemma_array_model(*current);
        assert(models(current->Array_0@) =~= items_of(old(current).model()));
    }
}

proof fn lemma_assign_uses_contents(current: Json, path: Seq<PathItem>, value: Json)
    requires
        path.len() >= 1,
    ensures
        path[0] is Key ==> assign_inside(current, path, value) == assign_inside(
            Json::Object(members_of(current)),
            path,
            value,
        ),
        path[0] is Index ==> assign_inside(current, path, value) == assign_inside(
            Json::Array(items_of(current)),
            path,
            value,
        ),
{
}

proof fn lemma_assign_object_last(members: Seq<(Seq<u8>, Json)>, path: Seq<PathItem>, value: Json)
    requires
        path.len() == 1,
        path[0] is Key,
    ensures
        assign_inside(Json::Object(members), path, value) == Json::Object(
            object_put(members, path[0]->Key_0@, value, MemberOrder::Sorted),
        ),
{
}

proof fn lemma_assign_object_step(
    members: Seq<(Seq<u8>, Json)>,
    path: Seq<PathItem>,
    value: Json,
    present: Seq<(Seq<u8>, Json)>,
    index: int,
    written: Json,
)
    requires
        path.len() > 1,
        path[0] is Key,
        present == (match find_key(members, path[0]->Key_0@) {
            Some(_) => members,
            None => object_put(members, path[0]->Key_0@, container_for(Some(path[1])), MemberOrder::Sorted),
        }),
        find_key(present, path[0]->Key_0@) == Some(index),
        written == assign_inside(present[index].1, path.skip(1), value),
    ensures
        assign_inside(Json::Object(members), path, value) == Json::Object(
            present.update(index, (present[index].0, written)),
        ),
{
}

/// Every index of the path is below `usize::MAX`, so the array it names can
/// hold it.
pub open spec fn indices_bounded(path: Seq<PathItem>) -> bool {
    forall|k: int| 0 <= k < path.len() ==> (#[trigger] path[k] matches PathItem::Index(i) ==> i < usize::MAX)
}

/// Extend items with copies of an empty value until there are at least
/// `index` of them, or `index + 1` when `inclusive`.
fn pad_items(items: &mut Vec<Value>, index: usize, inclusive: bool, fill: &PathItem, null: bool)
    requires
        inclusive ==> index < usize::MAX,
    ensures
        models(final(items)@) == padded(
            models(old(items)@),
            if inclusive {
                index + 1
            } else {
                index as int
            },
            if null {
                Json::Null
            } else {
                container_for(Some(*fill))
            },
        ),
        final(items)@.len() == models(final(items)@).len(),
{
    let ghost start = models(items@);
    let ghost n: int = if inclusive {
        index + 1
    } else {
        index as int
    };
    let ghost filler = if null {
        Json::Null
    } else {
        container_for(Some(*fill))
    };
    while items.len() < index || (inclusive && items.len() == index)
        invariant
            inclusive ==> index < usize::MAX,
            n == (if inclusive {
                index + 1
            } else {
                index as int
            }),
            start.len() <= items@.len(),
            start.len() < n ==> items@.len() <= n,
            start.len() >= n ==> items@.len() == start.len(),
            filler == (if null {
                Json::Null
            } else {
                container_for(Some(*fill))
            }),
            models(items@) == start + Seq::new((items@.len() - start.len()) as nat, |i: int| filler),
        decreases n - items@.len(),
    {
        let element = if null {
            let e = Value::Null;
            proof {
                assert(e.model() == Json::Null);
            }
            e
        } else {
            empty_container(fill)
        };
        let ghost before = models(items@);
        proof {
            assert(element.model() == filler);
        }
        items.push(element);
        proof {
            assert(models(items@) =~= before.push(filler));
            assert(models(items@) =~= start + Seq::new((items@.len() - start.len()) as nat, |i: int| filler));
        }
    }
    proof {
        if start.len() >= n {
            assert(models(items@) =~= start);
        }
    }
}

/// Write `value` at `path[start..]` inside `current`.
fn assign_inside_value(current: &mut Value, path: &[PathItem], start: usize, value: Value)
    requires
        start < path@.len(),
        indices_bounded(path@),
    ensures
        final(current).model() == assign_inside(old(current).model(), path@.skip(start as int), value.model()),
    decreases path@.len() - start, 1nat,
{
    let ghost rest = path@.skip(start as int);
    let ghost before = current.model();
    proof {
        assert(rest[0] == path@[start as int]);
    }
    proof {
        lemma_assign_uses_contents(before, rest, value.model());
    }
    match &path[start] {
        PathItem::Key(_) => {
            make_object(current);
            let ghost made = *current;
            proof {
                lemma_object_model(made);
            }
            match current {
                Value::Object(members) => {
                    assign_in_object(members, path, start, value);
                },
                _ => {},
            }
            proof {
                lemma_object_model(*current);
            }
        },
        PathItem::Index(_) => {
            make_array(current);
            let ghost made = *current;
            proof {
                lemma_array_model(made);
            }
            match current {
                Value::Array(items) => {
                    assign_in_array(items, path, start, value);
                },
                _ => {},
            }
            proof {
                lemma_array_model(*current);
            }
        },
    }
}

/// Write `value` at `path[start..]`, whose first step is a key, inside an
/// object's members.
fn assign_in_object(members: &mut Vec<Member>, path: &[PathItem], start: usize, value: Value)
    requires
        start < path@.len(),
        indices_bounded(path@),
        path@[start as int] is Key,
    ensures
        Json::Object(member_models(final(members)@)) == assign_inside(
            Json::Object(member_models(old(members)@)),
            path@.skip(start as int),
            value.model(),
        ),
    decreases path@.len() - start, 0nat,
{
    let ghost rest = path@.skip(start as int);
    let ghost v = value.model();
    let ghost m0 = member_models(members@);
    let last = start == path.len() - 1;
    proof {
        assert(rest[0] == path@[start as int]);
        if !last {
            assert(rest[1] == path@[start + 1]);
            assert(rest.skip(1) =~= path@.skip(start + 1));
        }
    }
    let key = match &path[start] {
        PathItem::Key(key) => key,
        PathItem::Index(_) => {
            return;
        },
    };
    proof {
        assert(rest[0]->Key_0@ == key@);
    }
    if last {
        put_member(members, key.as_slice(), value, MemberOrder::Sorted);
        proof {
            lemma_assign_object_last(m0, rest, v);
        }
        return;
    }
    let found = find_member(members, key.as_slice());
    let index = match found {
        Some(i) => i,
        None => {
            let container = empty_container(&path[start + 1]);
            proof {
                lemma_put_then_find(m0, key@, container.model(), MemberOrder::Sorted);
            }
            put_member(members, key.as_slice(), container, MemberOrder::Sorted);
            match find_member(members, key.as_slice()) {
                Some(i) => i,
                None => {
                    return;
                },
            }
        },
    };
    let ghost present = member_models(members@);
    proof {
        lemma_find_key(present, key@);
        assert(find_key(present, key@) is Some);
        assert(find_key(present, key@) == Some(index as int));
        assert(present == (match find_key(m0, key@) {
            Some(_) => m0,
            None => object_put(m0, key@, container_for(Some(rest[1])), MemberOrder::Sorted),
        }));
    }
    let ghost key_bytes = present[index as int].0;
    let mut entry = members.remove(index);
    assign_inside_value(&mut entry.value, path, start + 1, value);
    let ghost written = entry.value.model();
    members.insert(index, entry);
    proof {
        assert(member_models(members@) =~= present.update(index as int, (key_bytes, written)));
        lemma_assign_object_step(m0, rest, v, present, index as int, written);
    }
}

/// Write `value` at `path[start..]`, whose first step is an index, inside an
/// array's items.
fn assign_in_array(items: &mut Vec<Value>, path: &[PathItem], start: usize, value: Value)
    requires
        start < path@.len(),
        indices_bounded(path@),
        path@[start as int] is Index,
    ensures
        Json::Array(models(final(items)@)) == assign_inside(
            Json::Array(models(old(items)@)),
            path@.skip(start as int),
            value.model(),
        ),
    decreases path@.len() - start, 0nat,
{
    let ghost rest = path@.skip(start as int);
    let ghost v = value.model();
    let last = start == path.len() - 1;
    proof {
        assert(rest[0] == path@[start as int]);
        if !last {
            assert(rest[1] == path@[start + 1]);
            assert(rest.skip(1) =~= path@.skip(start + 1));
        }
    }
    let i = match &path[start] {
        PathItem::Index(i) => *i,
        PathItem::Key(_) => {
            return;
        },
    };
    proof {
        assert(path@[start as int] matches PathItem::Index(j) ==> j < usize::MAX);
    }
    if last {
        pad_items(items, i, false, &path[start], true);
        let ghost filled = models(items@);
        if items.len() == i {
            items.push(value);
            proof {
                assert(models(items@) =~= filled.push(v));
            }
        } else {
            let _previous = items.remove(i);
            items.insert(i, value);
            proof {
                assert(models(items@) =~= filled.update(i as int, v));
            }
        }
    } else {
        pad_items(items, i, true, &path[start + 1], false);
        let ghost filled = models(items@);
        let mut element = items.remove(i);
        assign_inside_value(&mut element, path, start + 1, value);
        let ghost written = element.model();
        items.insert(i, element);
        proof {
            assert(models(items@) =~= filled.update(i as int, written));
        }
    }
}

/// Write `value` at `path` from an optional root; an absent root starts as
/// the container the first step needs.
pub fn assign_at_path(root: &mut Option<Value>, path: &[PathItem], value: Value)
    requires
        indices_bounded(path@),
    ensures
        *final(root) matches Some(r) && r.model() == assign_at(root_model(*old(root)), path@, value.model()),
{
    if path.len() == 0 {
        *root = Some(value);
        return;
    }
    let ghost initial = root_model(*root);
    if root.is_none() {
        *root = Some(empty_container(&path[0]));
    }
    match root {
        Some(current) => {
            proof {
                assert(path@.skip(0) =~= path@);
            }
            assign_inside_value(current, path, 0, value);
        },
        None => {},
    }
}

/// The value at a path from an optional root.
pub open spec fn value_at(root: Option<Json>, path: Seq<PathItem>) -> Option<Json> {
    match root {
        Some(r) => json_at(r, path),
        None => None,
    }
}

/// The value at `path`, if the root has one there.
pub fn value_at_path<'a>(root: &'a Option<Value>, path: &[PathItem]) -> (found: Option<&'a Value>)
    ensures
        match value_at(root_model(*root), path@) {
            Some(v) => found matches Some(f) && f.model() == v,
            None => found is None,
        },
{
    let mut current = match root {
        Some(r) => r,
        None => {
            return None;
        },
    };
    let ghost whole = current.model();
    let mut k: usize = 0;
    proof {
        assert(path@.skip(0) =~= path@);
    }
    while k < path.len()
        invariant
            k <= path@.len(),
            root matches Some(r) && whole == r.model(),
            json_at(whole, path@) == json_at(current.model(), path@.skip(k as int)),
        decreases path@.len() - k,
    {
        let ghost rest = path@.skip(k as int);
        proof {
            assert(rest[0] == path@[k as int]);
            assert(rest.skip(1) =~= path@.skip(k + 1));
        }
        match (&path[k], current) {
            (PathItem::Key(key), Value::Object(members)) => {
                proof {
                    lemma_object_model(*current);
                }
                match find_member(members, key.as_slice()) {
                    Some(i) => {
                        proof {
                            lemma_find_key(member_models(members@), key@);
                        }
                        current = &members[i].value;
                    },
                    None => {
                        return None;
                    },
                }
            },
            (PathItem::Index(index), Value::Array(items)) => {
                proof {
                    lemma_array_model(*current);
                }
                if *index < items.len() {
                    current = &items[*index];
                } else {
                    return None;
                }
            },
            _ => {
                return None;
            },
        }
        k = k + 1;
    }
    proof {
        assert(path@.skip(path@.len() as int) =~= Seq::<PathItem>::empty());
    }
    Some(current)
}

/// A parse event: a scalar, a string fragment, or the start or end of a
/// container, at a path.
pub enum Event {
    Null { path: Vec<PathItem> },
    Boolean { path: Vec<PathItem>, value: bool },
    Number { path: Vec<PathItem>, text: Vec<u8> },
    Text { path: Vec<PathItem>, fragment: Vec<u8>, is_initial: bool, is_final: bool },
    ArrayBegin { path: Vec<PathItem> },
    ObjectBegin { path: Vec<PathItem> },
    ArrayEnd { path: Vec<PathItem> },
    ObjectEnd { path: Vec<PathItem> },
}

/// The path an event happens at.
pub open spec fn event_path(event: Event) -> Seq<PathItem> {
    match event {
        Event::Null { path } => path@,
        Event::Boolean { path, .. } => path@,
        Event::Number { path, .. } => path@,
        Event::Text { path, .. } => path@,
        Event::ArrayBegin { path } => path@,
        Event::ObjectBegin { path } => path@,
        Event::ArrayEnd { path } => path@,
        Event::ObjectEnd { path } => path@,
    }
}

/// The text a string fragment leaves at its path: appended to the string
/// already there when it continues one, else the fragment alone.
pub open spec fn fragment_text(root: Option<Json>, path: Seq<PathItem>, fragment: Seq<u8>, is_initial: bool) -> Seq<u8> {
    if is_initial {
        fragment
    } else {
        match value_at(root, path) {
            Some(Json::Text(t)) => t + fragment,
            _ => fragment,
        }
    }
}

/// The root after an event: scalars, fragments and new containers are
/// written at the event's path; container ends change nothing.
pub open spec fn applied_root(root: Option<Json>, event: Event) -> Option<Json> {
    match event {
        Event::Null { path } => Some(assign_at(root, path@, Json::Null)),
        Event::Boolean { path, value } => Some(assign_at(root, path@, Json::Boolean(value))),
        Event::Number { path, text } => Some(assign_at(root, path@, Json::Number(text@))),
        Event::Text { path, fragment, is_initial, .. } => Some(
            assign_at(root, path@, Json::Text(fragment_text(root, path@, fragment@, is_initial))),
        ),
        Event::ArrayBegin { path } => Some(assign_at(root, path@, Json::Array(Seq::empty()))),
        Event::ObjectBegin { path } => Some(assign_at(root, path@, Json::Object(Seq::empty()))),
        _ => root,
    }
}

/// What an event reports: the path it wrote and whether a root value is now
/// complete; an end inside the root reports nothing.
pub open spec fn reported(event: Event) -> Option<(Seq<PathItem>, bool)> {
    match event {
        Event::Text { path, is_final, .. } => Some((path@, is_final && path@.len() == 0)),
        Event::ArrayBegin { path } => Some((path@, false)),
        Event::ObjectBegin { path } => Some((path@, false)),
        Event::ArrayEnd { path } => if path@.len() == 0 {
            Some((Seq::empty(), true))
        } else {
            None
        },
        Event::ObjectEnd { path } => if path@.len() == 0 {
            Some((Seq::empty(), true))
        } else {
            None
        },
        _ => Some((event_path(event), event_path(event).len() == 0)),
    }
}

/// Apply a parse event to the streamed root and report the path it wrote.
pub fn apply_event(root: &mut Option<Value>, event: Event) -> (update: Option<(Vec<PathItem>, bool)>)
    requires
        indices_bounded(event_path(event)),
    ensures
        root_model(*final(root)) == applied_root(root_model(*old(root)), event),
        match reported(event) {
            Some((path, is_final)) => update matches Some((p, f)) && p@ == path && f == is_final,
            None => update is None,
        },
{
    match event {
        Event::Null { path } => {
            assign_at_path(root, path.as_slice(), Value::Null);
            let is_final = path.len() == 0;
            Some((path, is_final))
        },
        Event::Boolean { path, value } => {
            assign_at_path(root, path.as_slice(), Value::Boolean(value));
            let is_final = path.len() == 0;
            Some((path, is_final))
        },
        Event::Number { path, text } => {
            assign_at_path(root, path.as_slice(), Value::Number(text));
            let is_final = path.len() == 0;
            Some((path, is_final))
        },
        Event::Text { path, fragment, is_initial, is_final } => {
            let is_final_root = is_final && path.len() == 0;
            let text = if is_initial {
                fragment
            } else {
                let existing = match value_at_path(root, path.as_slice()) {
                    Some(Value::Text(t)) => Some(vstd::slice::slice_to_vec(t.as_slice())),
                    _ => None,
                };
                match existing {
                    Some(mut t) => {
                        crate::decimal::append(&mut t, fragment.as_slice());
                        t
                    },
                    None => fragment,
                }
            };
            assign_at_path(root, path.as_slice(), Value::Text(text));
            Some((path, is_final_root))
        },
        Event::ArrayBegin { path } => {
            let items: Vec<Value> = Vec::new();
            let container = Value::Array(items);
            proof {
                lemma_array_model(container);
                assert(models(items@) =~= Seq::<Json>::empty());
            }
            assign_at_path(root, path.as_slice(), container);
            Some((path, false))
        },
        Event::ObjectBegin { path } => {
            let members: Vec<Member> = Vec::new();
            let container = Value::Object(members);
            proof {
                lemma_object_model(container);
                assert(member_models(members@) =~= Seq::<(Seq<u8>, Json)>::empty());
            }
            assign_at_path(root, path.as_slice(), container);
            Some((path, false))
        },
        Event::ArrayEnd { path } | Event::ObjectEnd { path } => {
            if path.len() == 0 {
                Some((Vec::new(), true))
            } else {
                None
            }
        },
    }
}

/// Members strictly in key order.
pub open spec fn keys_ordered(members: Seq<(Seq<u8>, Json)>) -> bool {
    forall|i: int, j: int| 0 <= i < j < members.len() ==> lex_less(#[trigger] members[i].0, #[trigger] members[j].0)
}

/// Setting a member keeps members in strict key order, as a sorted map does.
pub proof fn lemma_put_keeps_order(members: Seq<(Seq<u8>, Json)>, key: Seq<u8>, value: Json)
    requires
        keys_ordered(members),
    ensures
        keys_ordered(object_put(members, key, value, MemberOrder::Sorted)),
{
    lemma_find_key(members, key);
    let put = object_put(members, key, value, MemberOrder::Sorted);
    match find_key(members, key) {
        Some(i) => {
            assert forall|a: int, b: int| 0 <= a < b < put.len() implies lex_less(
                #[trigger] put[a].0,
                #[trigger] put[b].0,
            ) by {
                assert(put[a].0 == members[a].0 && put[b].0 == members[b].0);
            }
        },
        None => {
            lemma_insert_position(members, key, MemberOrder::Sorted);
            let p = insert_position(members, key, MemberOrder::Sorted);
            if p < members.len() {
                assert(members[p].0 != key);
                lemma_lex_total(members[p].0, key);
            }
            assert forall|a: int, b: int| 0 <= a < b < put.len() implies lex_less(
                #[trigger] put[a].0,
                #[trigger] put[b].0,
            ) by {
                if b < p {
                    assert(put[a] == members[a] && put[b] == members[b]);
                } else if b == p {
                    assert(put[a] == members[a]);
                } else if a < p {
                    assert(put[a] == members[a] && put[b] == members[b - 1]);
                    assert(lex_less(members[a].0, key));
                    assert(lex_less(key, members[p].0));
                    if p < b - 1 {
                        assert(lex_less(members[p].0, members[b - 1].0));
                        lemma_lex_transitive(key, members[p].0, members[b - 1].0);
                    }
                    lemma_lex_transitive(members[a].0, key, members[b - 1].0);
                } else if a == p {
                    assert(put[b] == members[b - 1]);
                    if p < b - 1 {
                        assert(lex_less(members[p].0, members[b - 1].0));
                        lemma_lex_transitive(key, members[p].0, members[b - 1].0);
                    }
                } else {
                    assert(put[a] == members[a - 1] && put[b] == members[b - 1]);
                }
            }
        },
    }
}

/// Setting a member in insertion order keeps every existing member's key in
/// its place, and a new key goes after all of them, as a dict does.
pub proof fn lemma_put_keeps_insertion_order(members: Seq<(Seq<u8>, Json)>, key: Seq<u8>, value: Json)
    ensures
        object_put(members, key, value, MemberOrder::Inserted).len() >= members.len(),
        forall|i: int|
            0 <= i < members.len() ==> (#[trigger] object_put(members, key, value, MemberOrder::Inserted)[i]).0
                == members[i].0,
        find_key(members, key) is None ==> object_put(members, key, value, MemberOrder::Inserted)
            == members.push((key, value)),
{
    let put = object_put(members, key, value, MemberOrder::Inserted);
    if find_key(members, key) is None {
        assert(put =~= members.push((key, value)));
    }
}

/// The value an event writes at its path, for events that write one.
pub open spec fn written_value(root: Option<Json>, event: Event) -> Option<Json> {
    match event {
        Event::Null { .. } => Some(Json::Null),
        Event::Boolean { value, .. } => Some(Json::Boolean(value)),
        Event::Number { text, .. } => Some(Json::Number(text@)),
        Event::Text { path, fragment, is_initial, .. } => Some(
            Json::Text(fragment_text(root, path@, fragment@, is_initial)),
        ),
        Event::ArrayBegin { .. } => Some(Json::Array(Seq::empty())),
        Event::ObjectBegin { .. } => Some(Json::Object(Seq::empty())),
        _ => None,
    }
}

/// After an event that writes a value, the root holds that value at the
/// event's path; a string fragment continues the string already there.
pub proof fn lemma_event_read_back(root: Option<Json>, event: Event)
    requires
        written_value(root, event) is Some,
    ensures
        value_at(applied_root(root, event), event_path(event)) == written_value(root, event),
{
    let path = event_path(event);
    let v = written_value(root, event)->0;
    lemma_read_after_write(root, path, v);
}

/// The value of the first member with this key.
pub open spec fn member_value(members: Seq<(Seq<u8>, Json)>, key: Seq<u8>) -> Option<Json> {
    match find_key(members, key) {
        Some(i) => Some(members[i].1),
        None => None,
    }
}

/// Setting one member leaves the value under every other key as it was.
pub proof fn lemma_put_keeps_other_keys(members: Seq<(Seq<u8>, Json)>, key: Seq<u8>, other: Seq<u8>, value: Json, order: MemberOrder)
    requires
        key != other,
    ensures
        member_value(object_put(members, key, value, order), other) == member_value(members, other),
{
    lemma_find_key(members, key);
    lemma_find_key(members, other);
    let put = object_put(members, key, value, order);
    lemma_find_key(put, other);
    match find_key(members, key) {
        Some(i) => {
            assert forall|j: int| 0 <= j < put.len() implies (#[trigger] put[j]).0 == members[j].0 by {}
            match find_key(members, other) {
                Some(j) => {
                    assert(j != i);
                    assert(first_key(put, other, j));
                    lemma_first_key_unique(put, other, j, find_key(put, other)->0);
                },
                None => {
                    if find_key(put, other) is Some {
                        let j = find_key(put, other)->0;
                        assert(members[j].0 == other);
                    }
                },
            }
        },
        None => {
            lemma_insert_position(members, key, order);
            let p = insert_position(members, key, order);
            match find_key(members, other) {
                Some(j) => {
                    let k = if j < p {
                        j
                    } else {
                        j + 1
                    };
                    assert(put[k] == members[j]);
                    assert forall|q: int| 0 <= q < k implies (#[trigger] put[q]).0 != other by {
                        if q < p {
                            assert(put[q] == members[q]);
                        } else if q > p {
                            assert(put[q] == members[q - 1]);
                        }
                    }
                    assert(first_key(put, other, k));
                    lemma_first_key_unique(put, other, k, find_key(put, other)->0);
                },
                None => {
                    if find_key(put, other) is Some {
                        let q = find_key(put, other)->0;
                        if q < p {
                            assert(put[q] == members[q]);
                        } else if q > p {
                            assert(put[q] == members[q - 1]);
                        }
                    }
                },
            }
        },
    }
}

/// Why a write or read through dict and list values fails: a path step
/// meets a value that is not the container it needs.
#[derive(Clone, Copy, Debug, PartialEq, Eq, Structural)]
pub struct PathTypeError;

/// Write `value` at a nonempty path inside `current`, as Python dicts and
/// lists take it: a key needs a dict and an index a list, else the write
/// fails; missing keys and `None` list items on the way become the container
/// the next step needs; lists are padded with `None`; new keys go last.
pub open spec fn dict_assign_inside(current: Json, path: Seq<PathItem>, value: Json) -> Option<Json>
    decreases path.len(),
{
    if path.len() <= 1 {
        match (path[0], current) {
            (PathItem::Key(k), Json::Object(members)) => Some(
                Json::Object(object_put(members, k@, value, MemberOrder::Inserted)),
            ),
            (PathItem::Index(i), Json::Array(items)) => {
                let items = padded(items, i as int, Json::Null);
                Some(
                    Json::Array(
                        if items.len() == i {
                            items.push(value)
                        } else {
                            items.update(i as int, value)
                        },
                    ),
                )
            },
            _ => None,
        }
    } else {
        match (path[0], current) {
            (PathItem::Key(k), Json::Object(members)) => {
                let present = match find_key(members, k@) {
                    Some(_) => members,
                    None => object_put(members, k@, container_for(Some(path[1])), MemberOrder::Inserted),
                };
                let index = find_key(present, k@)->0;
                match dict_assign_inside(present[index].1, path.skip(1), value) {
                    Some(written) => Some(Json::Object(present.update(index, (present[index].0, written)))),
                    None => None,
                }
            },
            (PathItem::Index(i), Json::Array(items)) => {
                let items = padded(items, i + 1, Json::Null);
                let child = if items[i as int] == Json::Null {
                    container_for(Some(path[1]))
                } else {
                    items[i as int]
                };
                match dict_assign_inside(child, path.skip(1), value) {
                    Some(written) => Some(Json::Array(items.update(i as int, written))),
                    None => None,
                }
            },
            _ => None,
        }
    }
}

/// Write `value` at a path from an optional root of dicts and lists; an
/// absent root starts as the container the first step needs. None when a
/// step meets the wrong kind of value.
pub open spec fn dict_assign_at(root: Option<Json>, path: Seq<PathItem>, value: Json) -> Option<Json> {
    if path.len() == 0 {
        Some(value)
    } else {
        let start = match root {
            Some(r) => r,
            None => container_for(Some(path[0])),
        };
        dict_assign_inside(start, path, value)
    }
}

/// The value at a path through dicts and lists: none where a key or index is
/// missing, an error where a step meets a value that is not its container.
pub open spec fn dict_json_at(value: Json, path: Seq<PathItem>) -> Result<Option<Json>, PathTypeError>
    decreases path.len(),
{
    if path.len() == 0 {
        Ok(Some(value))
    } else {
        match (path[0], value) {
            (PathItem::Key(k), Json::Object(members)) => match find_key(members, k@) {
                Some(i) => dict_json_at(members[i].1, path.skip(1)),
                None => Ok(None),
            },
            (PathItem::Index(i), Json::Array(items)) => if i < items.len() {
                dict_json_at(items[i as int], path.skip(1))
            } else {
                Ok(None)
            },
            _ => Err(PathTypeError),
        }
    }
}

/// The value at a path from an optional root of dicts and lists.
pub open spec fn dict_value_at(root: Option<Json>, path: Seq<PathItem>) -> Result<Option<Json>, PathTypeError> {
    match root {
        Some(r) => dict_json_at(r, path),
        None => Ok(None),
    }
}

/// A fresh container for a path's first step takes every write along it.
pub proof fn lemma_dict_assign_fresh(path: Seq<PathItem>, value: Json)
    requires
        path.len() >= 1,
    ensures
        dict_assign_inside(container_for(Some(path[0])), path, value) is Some,
    decreases path.len(),
{
    let rest = path.skip(1);
    if path.len() > 1 {
        assert(rest[0] == path[1]);
        lemma_dict_assign_fresh(rest, value);
        match path[0] {
            PathItem::Key(k) => {
                let empty = Seq::<(Seq<u8>, Json)>::empty();
                lemma_find_key(empty, k@);
                lemma_put_then_find(empty, k@, container_for(Some(path[1])), MemberOrder::Inserted);
            },
            PathItem::Index(i) => {
                let items = padded(Seq::<Json>::empty(), i + 1, Json::Null);
                assert(items[i as int] == Json::Null);
            },
        }
    }
}

/// Reading a path back after a write through dicts and lists succeeds gives
/// the value written.
pub proof fn lemma_dict_read_after_write_inside(current: Json, path: Seq<PathItem>, value: Json)
    requires
        path.len() >= 1,
        dict_assign_inside(current, path, value) is Some,
    ensures
        dict_json_at(dict_assign_inside(current, path, value)->0, path) == Ok::<Option<Json>, PathTypeError>(
            Some(value),
        ),
    decreases path.len(),
{
    let result = dict_assign_inside(current, path, value)->0;
    let rest = path.skip(1);
    if path.len() == 1 {
        assert(rest =~= Seq::<PathItem>::empty());
        assert(dict_json_at(value, rest) == Ok::<Option<Json>, PathTypeError>(Some(value)));
        match path[0] {
            PathItem::Key(k) => {
                assert(current is Object);
                let put = object_put(members_of(current), k@, value, MemberOrder::Inserted);
                lemma_put_then_find(members_of(current), k@, value, MemberOrder::Inserted);
                assert(result == Json::Object(put));
                let j = find_key(put, k@)->0;
                assert(put[j].1 == value);
            },
            PathItem::Index(i) => {
                assert(current is Array);
                let items = padded(items_of(current), i as int, Json::Null);
                assert(items.len() >= i);
                let out = if items.len() == i {
                    items.push(value)
                } else {
                    items.update(i as int, value)
                };
                assert(result == Json::Array(out));
                assert(out[i as int] == value);
            },
        }
    } else {
        match path[0] {
            PathItem::Key(k) => {
                let members = members_of(current);
                let present = match find_key(members, k@) {
                    Some(_) => members,
                    None => object_put(members, k@, container_for(Some(path[1])), MemberOrder::Inserted),
                };
                lemma_find_key(members, k@);
                if find_key(members, k@) is None {
                    lemma_put_then_find(members, k@, container_for(Some(path[1])), MemberOrder::Inserted);
                }
                assert(current is Object);
                let index = find_key(present, k@)->0;
                let written = dict_assign_inside(present[index].1, rest, value)->0;
                lemma_put_then_find(present, k@, written, MemberOrder::Inserted);
                lemma_find_key(present, k@);
                let updated = present.update(index, (present[index].0, written));
                assert(object_put(present, k@, written, MemberOrder::Inserted) == updated);
                assert(result == Json::Object(updated));
                assert forall|j: int| 0 <= j < index implies (#[trigger] updated[j]).0 != k@ by {
                    assert(updated[j] == present[j]);
                }
                assert(first_key(updated, k@, index));
                lemma_find_key(updated, k@);
                lemma_first_key_unique(updated, k@, index, find_key(updated, k@)->0);
                assert(find_key(updated, k@) == Some(index));
                lemma_dict_read_after_write_inside(present[index].1, rest, value);
            },
            PathItem::Index(i) => {
                let items = padded(items_of(current), i + 1, Json::Null);
                let child = if items[i as int] == Json::Null {
                    container_for(Some(path[1]))
                } else {
                    items[i as int]
                };
                assert(current is Array);
                assert(items.len() >= i + 1);
                let written = dict_assign_inside(child, rest, value)->0;
                assert(result == Json::Array(items.update(i as int, written)));
                lemma_dict_read_after_write_inside(child, rest, value);
            },
        }
    }
}

/// A write through dicts and lists that succeeds is read back: the path then
/// holds the value written, whatever the root held before.
pub proof fn lemma_dict_read_after_write(root: Option<Json>, path: Seq<PathItem>, value: Json)
    requires
        dict_assign_at(root, path, value) is Some,
    ensures
        dict_value_at(dict_assign_at(root, path, value), path) == Ok::<Option<Json>, PathTypeError>(Some(value)),
{
    if path.len() > 0 {
        let start = match root {
            Some(r) => r,
            None => container_for(Some(path[0])),
        };
        lemma_dict_read_after_write_inside(start, path, value);
    }
}

/// Write `value` at `path[start..]` inside `current` as Python dicts and
/// lists take it; false, with `current` unchanged, when a step meets the
/// wrong kind of value.
fn dict_assign_inside_value(current: &mut Value, path: &[PathItem], start: usize, value: Value) -> (written: bool)
    requires
        start < path@.len(),
        indices_bounded(path@),
    ensures
        match dict_assign_inside(old(current).model(), path@.skip(start as int), value.model()) {
            Some(r) => written && final(current).model() == r,
            None => !written && final(current).model() == old(current).model(),
        },
    decreases path@.len() - start, 1nat,
{
    let ghost rest = path@.skip(start as int);
    proof {
        assert(rest[0] == path@[start as int]);
    }
    let ghost before = *current;
    proof {
        if before is Object {
            lemma_object_model(before);
        }
        if before is Array {
            lemma_array_model(before);
        }
    }
    let written = match &path[start] {
        PathItem::Key(_) => match current {
            Value::Object(members) => dict_assign_in_object(members, path, start, value),
            _ => false,
        },
        PathItem::Index(_) => match current {
            Value::Array(items) => dict_assign_in_array(items, path, start, value),
            _ => false,
        },
    };
    proof {
        if *current is Object {
            lemma_object_model(*current);
        }
        if *current is Array {
            lemma_array_model(*current);
        }
    }
    written
}

/// Write `value` at `path[start..]`, whose first step is a key, inside a
/// dict's members; false, with the members unchanged, when a later step
/// meets the wrong kind of value.
fn dict_assign_in_object(members: &mut Vec<Member>, path: &[PathItem], start: usize, value: Value) -> (written: bool)
    requires
        start < path@.len(),
        indices_bounded(path@),
        path@[start as int] is Key,
    ensures
        match dict_assign_inside(
            Json::Object(member_models(old(members)@)),
            path@.skip(start as int),
            value.model(),
        ) {
            Some(r) => written && Json::Object(member_models(final(members)@)) == r,
            None => !written && member_models(final(members)@) == member_models(old(members)@),
        },
    decreases path@.len() - start, 0nat,
{
    let ghost rest = path@.skip(start as int);
    let ghost v = value.model();
    let ghost m0 = member_models(members@);
    let last = start == path.len() - 1;
    proof {
        assert(rest[0] == path@[start as int]);
        if !last {
            assert(rest[1] == path@[start + 1]);
            assert(rest.skip(1) =~= path@.skip(start + 1));
        }
    }
    let key = match &path[start] {
        PathItem::Key(key) => key,
        PathItem::Index(_) => {
            return false;
        },
    };
    proof {
        assert(rest[0]->Key_0@ == key@);
    }
    if last {
        put_member(members, key.as_slice(), value, MemberOrder::Inserted);
        return true;
    }
    let found = find_member(members, key.as_slice());
    let index = match found {
        Some(i) => i,
        None => {
            let container = empty_container(&path[start + 1]);
            proof {
                lemma_put_then_find(m0, key@, container.model(), MemberOrder::Inserted);
            }
            put_member(members, key.as_slice(), container, MemberOrder::Inserted);
            match find_member(members, key.as_slice()) {
                Some(i) => i,
                None => {
                    return false;
                },
            }
        },
    };
    let ghost present = member_models(members@);
    proof {
        lemma_find_key(present, key@);
        assert(find_key(present, key@) == Some(index as int));
        assert(present == (match find_key(m0, key@) {
            Some(_) => m0,
            None => object_put(m0, key@, container_for(Some(rest[1])), MemberOrder::Inserted),
        }));
        if found is None {
            assert(present[index as int].1 == container_for(Some(rest[1])));
            assert(rest.skip(1)[0] == rest[1]);
            lemma_dict_assign_fresh(rest.skip(1), v);
        }
    }
    let ghost key_bytes = present[index as int].0;
    let ghost child = present[index as int].1;
    let mut entry = members.remove(index);
    let written = dict_assign_inside_value(&mut entry.value, path, start + 1, value);
    let ghost after = entry.value.model();
    members.insert(index, entry);
    proof {
        assert(member_models(members@) =~= present.update(index as int, (key_bytes, after)));
        if !written {
            assert(after == child);
            assert(present.update(index as int, (key_bytes, after)) =~= present);
        }
    }
    written
}

/// Write `value` at `path[start..]`, whose first step is an index, inside a
/// list's items; false, with the items unchanged, when a later step meets
/// the wrong kind of value.
fn dict_assign_in_array(items: &mut Vec<Value>, path: &[PathItem], start: usize, value: Value) -> (written: bool)
    requires
        start < path@.len(),
        indices_bounded(path@),
        path@[start as int] is Index,
    ensures
        match dict_assign_inside(Json::Array(models(old(items)@)), path@.skip(start as int), value.model()) {
            Some(r) => written && Json::Array(models(final(items)@)) == r,
            None => !written && models(final(items)@) == models(old(items)@),
        },
    decreases path@.len() - start, 0nat,
{
    let ghost rest = path@.skip(start as int);
    let ghost v = value.model();
    let ghost start_items = models(items@);
    let last = start == path.len() - 1;
    proof {
        assert(rest[0] == path@[start as int]);
        if !last {
            assert(rest[1] == path@[start + 1]);
            assert(rest.skip(1) =~= path@.skip(start + 1));
        }
    }
    let i = match &path[start] {
        PathItem::Index(i) => *i,
        PathItem::Key(_) => {
            return false;
        },
    };
    proof {
        assert(path@[start as int] matches PathItem::Index(j) ==> j < usize::MAX);
    }
    if last {
        pad_items(items, i, false, &path[start], true);
        let ghost filled = models(items@);
        if items.len() == i {
            items.push(value);
            proof {
                assert(models(items@) =~= filled.push(v));
            }
        } else {
            let _previous = items.remove(i);
            items.insert(i, value);
            proof {
                assert(models(items@) =~= filled.update(i as int, v));
            }
        }
        return true;
    }
    let ghost padded_items = padded(start_items, i + 1, Json::Null);
    let existing = i < items.len() && !matches!(items[i], Value::Null);
    if existing {
        proof {
            assert(padded_items =~= start_items);
            assert(items@[i as int].model() != Json::Null);
        }
        let mut element = items.remove(i);
        let written = dict_assign_inside_value(&mut element, path, start + 1, value);
        let ghost after = element.model();
        items.insert(i, element);
        proof {
            assert(models(items@) =~= start_items.update(i as int, after));
            if !written {
                assert(start_items.update(i as int, after) =~= start_items);
            }
        }
        written
    } else {
        pad_items(items, i, true, &path[start + 1], true);
        let ghost filled = models(items@);
        proof {
            assert(filled == padded_items);
            assert(filled[i as int] == Json::Null);
            assert(rest.skip(1)[0] == rest[1]);
            lemma_dict_assign_fresh(rest.skip(1), v);
        }
        let _previous = items.remove(i);
        let mut element = empty_container(&path[start + 1]);
        let written = dict_assign_inside_value(&mut element, path, start + 1, value);
        let ghost after = element.model();
        items.insert(i, element);
        proof {
            assert(models(items@) =~= filled.update(i as int, after));
        }
        written
    }
}

/// Write `value` at `path` from an optional root as Python dicts and lists
/// take it: a key needs a dict and an index a list, missing keys and `None`
/// items on the way become containers, lists are padded with `None`, new keys
/// go last. A step that meets the wrong kind of value is an error and leaves
/// the root as it was.
pub fn dict_assign_at_path(root: &mut Option<Value>, path: &[PathItem], value: Value) -> (result: Result<(), PathTypeError>)
    requires
        indices_bounded(path@),
    ensures
        match dict_assign_at(root_model(*old(root)), path@, value.model()) {
            Some(r) => result is Ok && root_model(*final(root)) == Some(r),
            None => result == Err::<(), PathTypeError>(PathTypeError) && root_model(*final(root)) == root_model(
                *old(root),
            ),
        },
{
    if path.len() == 0 {
        *root = Some(value);
        return Ok(());
    }
    let ghost initial = root_model(*root);
    if root.is_none() {
        *root = Some(empty_container(&path[0]));
        proof {
            lemma_dict_assign_fresh(path@, value.model());
        }
    }
    proof {
        assert(path@.skip(0) =~= path@);
    }
    match root {
        Some(current) => {
            if dict_assign_inside_value(current, path, 0, value) {
                Ok(())
            } else {
                Err(PathTypeError)
            }
        },
        None => Err(PathTypeError),
    }
}

/// The value at `path` through dicts and lists: none where a key or index
/// is missing, an error where a step meets a value that is not its
/// container.
pub fn dict_value_at_path<'a>(root: &'a Option<Value>, path: &[PathItem]) -> (found: Result<Option<&'a Value>, PathTypeError>)
    ensures
        match dict_value_at(root_model(*root), path@) {
            Ok(Some(v)) => found matches Ok(Some(f)) && f.model() == v,
            Ok(None) => found matches Ok(None),
            Err(e) => found == Err::<Option<&Value>, PathTypeError>(e),
        },
{
    let mut current = match root {
        Some(r) => r,
        None => {
            return Ok(None);
        },
    };
    let ghost whole = current.model();
    let mut k: usize = 0;
    proof {
        assert(path@.skip(0) =~= path@);
    }
    while k < path.len()
        invariant
            k <= path@.len(),
            root matches Some(r) && whole == r.model(),
            dict_json_at(whole, path@) == dict_json_at(current.model(), path@.skip(k as int)),
        decreases path@.len() - k,
    {
        let ghost rest = path@.skip(k as int);
        proof {
            assert(rest[0] == path@[k as int]);
            assert(rest.skip(1) =~= path@.skip(k + 1));
        }
        match (&path[k], current) {
            (PathItem::Key(key), Value::Object(members)) => {
                proof {
                    lemma_object_model(*current);
                }
                match find_member(members, key.as_slice()) {
                    Some(i) => {
                        proof {
                            lemma_find_key(member_models(members@), key@);
                        }
                        current = &members[i].value;
                    },
                    None => {
                        return Ok(None);
                    },
                }
            },
            (PathItem::Index(index), Value::Array(items)) => {
                proof {
                    lemma_array_model(*current);
                }
                if *index < items.len() {
                    current = &items[*index];
                } else {
                    return Ok(None);
                }
            },
            (PathItem::Key(_), _) => {
                proof {
                    assert(!(current.model() is Object));
                }
                return Err(PathTypeError);
            },
            (PathItem::Index(_), _) => {
                proof {
                    assert(!(current.model() is Array));
                }
                return Err(PathTypeError);
            },
        }
        k = k + 1;
    }
    proof {
        assert(path@.skip(path@.len() as int) =~= Seq::<PathItem>::empty());
    }
    Ok(Some(current))
}

/// The text a string fragment leaves at its path in dicts and lists: the
/// string there continued, or the fragment alone; reading the path may fail.
pub open spec fn dict_fragment_text(
    root: Option<Json>,
    path: Seq<PathItem>,
    fragment: Seq<u8>,
    is_initial: bool,
) -> Result<Seq<u8>, PathTypeError> {
    if is_initial {
        Ok(fragment)
    } else {
        match dict_value_at(root, path) {
            Err(e) => Err(e),
            Ok(Some(Json::Text(t))) => Ok(t + fragment),
            Ok(_) => Ok(fragment),
        }
    }
}

/// The root after writing `value` at `path` through dicts and lists.
pub open spec fn dict_written(root: Option<Json>, path: Seq<PathItem>, value: Json) -> Result<Option<Json>, PathTypeError> {
    match dict_assign_at(root, path, value) {
        Some(r) => Ok(Some(r)),
        None => Err(PathTypeError),
    }
}

/// The root of dicts and lists after an event, or the error it raises.
pub open spec fn dict_applied_root(root: Option<Json>, event: Event) -> Result<Option<Json>, PathTypeError> {
    match event {
        Event::Null { path } => dict_written(root, path@, Json::Null),
        Event::Boolean { path, value } => dict_written(root, path@, Json::Boolean(value)),
        Event::Number { path, text } => dict_written(root, path@, Json::Number(text@)),
        Event::Text { path, fragment, is_initial, .. } => match dict_fragment_text(
            root,
            path@,
            fragment@,
            is_initial,
        ) {
            Ok(t) => dict_written(root, path@, Json::Text(t)),
            Err(e) => Err(e),
        },
        Event::ArrayBegin { path } => dict_written(root, path@, Json::Array(Seq::empty())),
        Event::ObjectBegin { path } => dict_written(root, path@, Json::Object(Seq::empty())),
        _ => Ok(root),
    }
}

/// Apply a parse event to a streamed root kept as Python dicts and lists,
/// and report the path it wrote. An event whose path meets a value of the
/// wrong kind is an error and leaves the root as it was.
pub fn apply_event_to_dicts(root: &mut Option<Value>, event: Event) -> (update: Result<Option<(Vec<PathItem>, bool)>, PathTypeError>)
    requires
        indices_bounded(event_path(event)),
    ensures
        match dict_applied_root(root_model(*old(root)), event) {
            Ok(r) => root_model(*final(root)) == r && match reported(event) {
                Some((path, is_final)) => update matches Ok(Some((p, f))) && p@ == path && f == is_final,
                None => update matches Ok(None),
            },
            Err(e) => update == Err::<Option<(Vec<PathItem>, bool)>, PathTypeError>(e) && root_model(
                *final(root),
            ) == root_model(*old(root)),
        },
{
    match event {
        Event::Null { path } => {
            dict_assign_at_path(root, path.as_slice(), Value::Null)?;
            let is_final = path.len() == 0;
            Ok(Some((path, is_final)))
        },
        Event::Boolean { path, value } => {
            dict_assign_at_path(root, path.as_slice(), Value::Boolean(value))?;
            let is_final = path.len() == 0;
            Ok(Some((path, is_final)))
        },
        Event::Number { path, text } => {
            dict_assign_at_path(root, path.as_slice(), Value::Number(text))?;
            let is_final = path.len() == 0;
            Ok(Some((path, is_final)))
        },
        Event::Text { path, fragment, is_initial, is_final } => {
            let is_final_root = is_final && path.len() == 0;
            let text = if is_initial {
                fragment
            } else {
                let existing = match dict_value_at_path(root, path.as_slice()) {
                    Err(e) => {
                        return Err(e);
                    },
                    Ok(Some(Value::Text(t))) => Some(vstd::slice::slice_to_vec(t.as_slice())),
                    Ok(_) => None,
                };
                match existing {
                    Some(mut t) => {
                        crate::decimal::append(&mut t, fragment.as_slice());
                        t
                    },
                    None => fragment,
                }
            };
            dict_assign_at_path(root, path.as_slice(), Value::Text(text))?;
            Ok(Some((path, is_final_root)))
        },
        Event::ArrayBegin { path } => {
            let items: Vec<Value> = Vec::new();
            let container = Value::Array(items);
            proof {
                lemma_array_model(container);
                assert(models(items@) =~= Seq::<Json>::empty());
            }
            dict_assign_at_path(root, path.as_slice(), container)?;
            Ok(Some((path, false)))
        },
        Event::ObjectBegin { path } => {
            let members: Vec<Member> = Vec::new();
            let container = Value::Object(members);
            proof {
                lemma_object_model(container);
                assert(member_models(members@) =~= Seq::<(Seq<u8>, Json)>::empty());
            }
            dict_assign_at_path(root, path.as_slice(), container)?;
            Ok(Some((path, false)))
        },
        Event::ArrayEnd { path } | Event::ObjectEnd { path } => {
            if path.len() == 0 {
                Ok(Some((Vec::new(), true)))
            } else {
                Ok(None)
            }
        },
    }
}

/// What a value view shows.
#[derive(Clone, Copy, Debug, PartialEq, Eq, Structural)]
pub enum ViewKind {
    Empty,
    Null,
    Bool,
    Number,
    String,
    Array,
    Object,
}

impl ViewKind {
    /// The kind's name.
    pub fn name(&self) -> (name: &'static str)
        ensures
            name@ == match self {
                ViewKind::Empty => "empty"@,
                ViewKind::Null => "null"@,
                ViewKind::Bool => "bool"@,
                ViewKind::Number => "number"@,
                ViewKind::String => "string"@,
                ViewKind::Array => "array"@,
                ViewKind::Object => "object"@,
            },
    {
        match self {
            ViewKind::Empty => "empty",
            ViewKind::Null => "null",
            ViewKind::Bool => "bool",
            ViewKind::Number => "number",
            ViewKind::String => "string",
            ViewKind::Array => "array",
            ViewKind::Object => "object",
        }
    }
}

/// The kind of the value a view shows, empty when there is none.
pub open spec fn kind_of(value: Option<Json>) -> ViewKind {
    match value {
        None => ViewKind::Empty,
        Some(Json::Null) => ViewKind::Null,
        Some(Json::Boolean(_)) => ViewKind::Bool,
        Some(Json::Number(_)) => ViewKind::Number,
        Some(Json::Text(_)) => ViewKind::String,
        Some(Json::Array(_)) => ViewKind::Array,
        Some(Json::Object(_)) => ViewKind::Object,
    }
}

/// The content of an optional value.
pub open spec fn option_model(value: Option<&Value>) -> Option<Json> {
    match value {
        Some(v) => Some(v.model()),
        None => None,
    }
}

/// The kind of the value a view shows.
pub fn view_kind(value: Option<&Value>) -> (kind: ViewKind)
    ensures
        kind == kind_of(option_model(value)),
{
    match value {
        None => ViewKind::Empty,
        Some(Value::Null) => ViewKind::Null,
        Some(Value::Boolean(_)) => ViewKind::Bool,
        Some(Value::Number(_)) => ViewKind::Number,
        Some(Value::Text(_)) => ViewKind::String,
        Some(Value::Array(_)) => ViewKind::Array,
        Some(Value::Object(_)) => ViewKind::Object,
    }
}

/// Why a value view refused an operation.
#[derive(Clone, Copy, Debug, PartialEq, Eq, Structural)]
pub enum ViewError {
    /// The view shows no value.
    Empty,
    /// The object has no member with the key.
    MissingKey,
    /// The index is not below the array's length.
    IndexOutOfRange,
    /// Only arrays and objects can be indexed.
    NotIndexable,
    /// Only arrays, objects and strings have a length.
    NoLength,
}

/// The length a view reports: items, members, or characters of a string
/// (UTF-8 leading bytes); an empty view has length zero.
pub open spec fn view_length(value: Option<Json>) -> Result<int, ViewError> {
    match value {
        None => Ok(0),
        Some(Json::Array(items)) => Ok(items.len() as int),
        Some(Json::Object(members)) => Ok(members.len() as int),
        Some(Json::Text(t)) => Ok(crate::decode::chars_before(t, t.len() as int) as int),
        Some(_) => Err(ViewError::NoLength),
    }
}

/// The length of the value a view shows.
pub fn view_len(value: Option<&Value>) -> (length: Result<usize, ViewError>)
    ensures
        match view_length(option_model(value)) {
            Ok(n) => length matches Ok(m) && m == n,
            Err(e) => length == Err::<usize, ViewError>(e),
        },
{
    match value {
        None => Ok(0),
        Some(Value::Array(items)) => {
            proof {
                lemma_array_model(*value->0);
            }
            Ok(items.len())
        },
        Some(Value::Object(members)) => {
            proof {
                lemma_object_model(*value->0);
            }
            Ok(members.len())
        },
        Some(Value::Text(text)) => {
            let mut count: usize = 0;
            let mut i: usize = 0;
            while i < text.len()
                invariant
                    i <= text@.len(),
                    count == crate::decode::chars_before(text@, i as int),
                    count <= i,
                decreases text@.len() - i,
            {
                if !(0x80 <= text[i] && text[i] < 0xc0) {
                    count = count + 1;
                }
                i = i + 1;
            }
            Ok(count)
        },
        Some(_) => Err(ViewError::NoLength),
    }
}

/// Whether a view may step into its value: a present key of an object or
/// an index within an array.
pub open spec fn view_step(value: Option<Json>, step: PathItem) -> Result<(), ViewError> {
    match value {
        None => Err(ViewError::Empty),
        Some(Json::Object(members)) => match step {
            PathItem::Key(k) => if find_key(members, k@) is Some {
                Ok(())
            } else {
                Err(ViewError::MissingKey)
            },
            PathItem::Index(_) => Err(ViewError::MissingKey),
        },
        Some(Json::Array(items)) => match step {
            PathItem::Index(i) => if i < items.len() {
                Ok(())
            } else {
                Err(ViewError::IndexOutOfRange)
            },
            PathItem::Key(_) => Err(ViewError::IndexOutOfRange),
        },
        Some(_) => Err(ViewError::NotIndexable),
    }
}

/// Check a step into the value a view shows.
pub fn view_child(value: Option<&Value>, step: &PathItem) -> (result: Result<(), ViewError>)
    ensures
        result == view_step(option_model(value), *step),
{
    match value {
        None => Err(ViewError::Empty),
        Some(Value::Object(members)) => {
            proof {
                lemma_object_model(*value->0);
            }
            match step {
                PathItem::Key(k) => match find_member(members, k.as_slice()) {
                    Some(_) => Ok(()),
                    None => Err(ViewError::MissingKey),
                },
                PathItem::Index(_) => Err(ViewError::MissingKey),
            }
        },
        Some(Value::Array(items)) => {
            proof {
                lemma_array_model(*value->0);
            }
            match step {
                PathItem::Index(i) => if *i < items.len() {
                    Ok(())
                } else {
                    Err(ViewError::IndexOutOfRange)
                },
                PathItem::Key(_) => Err(ViewError::IndexOutOfRange),
            }
        },
        Some(_) => Err(ViewError::NotIndexable),
    }
}

} // verus!
