//! JSON values as the two endpoints answer them, the removal of fields that some
//! clients add on their own, and the comparison by inclusion.

use vstd::prelude::*;

verus! {

/// The field that some clients add to their answers and that the comparison ignores.
pub const IGNORED_FIELD: &'static str = "error";

/// A JSON value. An object lists its members in order, each key once; a number is kept
/// as the text that denotes it.
#[derive(Debug, PartialEq)]
pub enum Json {
    Null,
    Bool(bool),
    Number(String),
    Str(String),
    Array(Vec<Json>),
    Object(Vec<Member>),
}

#[derive(Debug, PartialEq)]
pub struct Member {
    pub key: String,
    pub value: Json,
}

/// The mathematical value of a [`Json`].
pub enum JsonValue {
    Null,
    Bool(bool),
    Number(Seq<char>),
    Str(Seq<char>),
    Array(Seq<JsonValue>),
    Object(Seq<(Seq<char>, JsonValue)>),
}

pub open spec fn items_view(s: Seq<Json>) -> Seq<JsonValue>
    decreases s,
{
    if s.len() == 0 {
        seq![]
    } else {
        items_view(s.drop_last()).push(json_view(s.last()))
    }
}

pub open spec fn members_view(s: Seq<Member>) -> Seq<(Seq<char>, JsonValue)>
    decreases s,
{
    if s.len() == 0 {
        seq![]
    } else {
        members_view(s.drop_last()).push((s.last().key@, json_view(s.last().value)))
    }
}

pub open spec fn json_view(j: Json) -> JsonValue
    decreases j,
{
    match j {
        Json::Null => JsonValue::Null,
        Json::Bool(b) => JsonValue::Bool(b),
        Json::Number(n) => JsonValue::Number(n@),
        Json::Str(s) => JsonValue::Str(s@),
        Json::Array(v) => JsonValue::Array(items_view(v@)),
        Json::Object(m) => JsonValue::Object(members_view(m@)),
    }
}

impl View for Json {
    type V = JsonValue;

    open spec fn view(&self) -> JsonValue {
        json_view(*self)
    }
}

pub open spec fn is_ignored(k: Seq<char>) -> bool {
    k == IGNORED_FIELD@
}

/// `v` with every member named [`IGNORED_FIELD`] removed, from objects at any depth;
/// arrays and scalars stay as they are.
pub open spec fn filtered(v: JsonValue) -> JsonValue
    decreases v,
{
    match v {
        JsonValue::Array(xs) => JsonValue::Array(filtered_items(xs)),
        JsonValue::Object(ms) => JsonValue::Object(filtered_members(ms)),
        _ => v,
    }
}

pub open spec fn filtered_items(xs: Seq<JsonValue>) -> Seq<JsonValue>
    decreases xs,
{
    if xs.len() == 0 {
        seq![]
    } else {
        filtered_items(xs.drop_last()).push(filtered(xs.last()))
    }
}

pub open spec fn filtered_members(ms: Seq<(Seq<char>, JsonValue)>) -> Seq<(Seq<char>, JsonValue)>
    decreases ms,
{
    if ms.len() == 0 {
        seq![]
    } else {
        let rest = filtered_members(ms.drop_last());
        if is_ignored(ms.last().0) {
            rest
        } else {
            rest.push((ms.last().0, filtered(ms.last().1)))
        }
    }
}

/// Removing the ignored fields twice removes no more than doing it once.
pub proof fn lemma_filter_idempotent(v: JsonValue)
    ensures
        filtered(filtered(v)) == filtered(v),
    decreases v,
{
    match v {
        JsonValue::Array(xs) => lemma_filter_items_idempotent(xs),
        JsonValue::Object(ms) => lemma_filter_members_idempotent(ms),
        _ => {},
    }
}

proof fn lemma_filter_items_idempotent(xs: Seq<JsonValue>)
    ensures
        filtered_items(filtered_items(xs)) == filtered_items(xs),
    decreases xs,
{
    if xs.len() > 0 {
        let f = filtered_items(xs.drop_last());
        let y = filtered(xs.last());
        lemma_filter_items_idempotent(xs.drop_last());
        lemma_filter_idempotent(xs.last());
        assert(f.push(y).drop_last() =~= f);
        assert(f.push(y).last() == y);
    }
}

proof fn lemma_filter_members_idempotent(ms: Seq<(Seq<char>, JsonValue)>)
    ensures
        filtered_members(filtered_members(ms)) == filtered_members(ms),
    decreases ms,
{
    if ms.len() > 0 {
        let r = filtered_members(ms.drop_last());
        lemma_filter_members_idempotent(ms.drop_last());
        if !is_ignored(ms.last().0) {
            let y = (ms.last().0, filtered(ms.last().1));
            lemma_filter_idempotent(ms.last().1);
            assert(r.push(y).drop_last() =~= r);
            assert(r.push(y).last() == y);
        }
    }
}

pub(crate) fn copy_string(s: &String) -> (r: String)
    ensures
        r@ == s@,
{
    s.clone()
}

pub(crate) fn filter_ref(v: &Json) -> (r: Json)
    ensures
        r@ == filtered(v@),
    decreases v,
{
    match v {
        Json::Null => Json::Null,
        Json::Bool(b) => Json::Bool(*b),
        Json::Number(n) => Json::Number(copy_string(n)),
        Json::Str(t) => Json::Str(copy_string(t)),
        Json::Array(xs) => {
            let mut out: Vec<Json> = Vec::new();
            let mut i: usize = 0;
            while i < xs.len()
                invariant
                    *v == Json::Array(*xs),
                    i <= xs@.len(),
                    items_view(out@) == filtered_items(items_view(xs@.subrange(0, i as int))),
                decreases xs@.len() - i,
            {
                proof {
                    vstd::std_specs::vec::axiom_vec_index_decreases(*xs, i as int);
                    assert(decreases_to!(*v => v->Array_0));
                }
                let y = filter_ref(&xs[i]);
                proof {
                    let pre = xs@.subrange(0, i as int);
                    let post = xs@.subrange(0, i + 1);
                    assert(post.drop_last() =~= pre);
                    let pv = items_view(pre);
                    assert(items_view(post) == pv.push(json_view(xs@[i as int])));
                    assert(pv.push(json_view(xs@[i as int])).drop_last() =~= pv);
                    assert(out@.push(y).drop_last() =~= out@);
                }
                out.push(y);
                i = i + 1;
            }
            assert(xs@.subrange(0, xs@.len() as int) =~= xs@);
            Json::Array(out)
        },
        Json::Object(ms) => {
            let ignored = IGNORED_FIELD.to_owned();
            let mut out: Vec<Member> = Vec::new();
            let mut i: usize = 0;
            while i < ms.len()
                invariant
                    *v == Json::Object(*ms),
                    ignored@ == IGNORED_FIELD@,
                    i <= ms@.len(),
                    members_view(out@) == filtered_members(members_view(ms@.subrange(0, i as int))),
                decreases ms@.len() - i,
            {
                let m = &ms[i];
                let ghost pre = ms@.subrange(0, i as int);
                let ghost post = ms@.subrange(0, i + 1);
                proof {
                    assert(post.drop_last() =~= pre);
                    let pv = members_view(pre);
                    let y = (m.key@, json_view(m.value));
                    assert(members_view(post) == pv.push(y));
                    assert(pv.push(y).drop_last() =~= pv);
                }
                if m.key != ignored {
                    proof {
                        vstd::std_specs::vec::axiom_vec_index_decreases(*ms, i as int);
                        assert(decreases_to!(*v => v->Object_0));
                    }
                    let y = filter_ref(&m.value);
                    let k = copy_string(&m.key);
                    let nm = Member { key: k, value: y };
                    proof {
                        assert(out@.push(nm).drop_last() =~= out@);
                    }
                    out.push(nm);
                }
                i = i + 1;
            }
            assert(ms@.subrange(0, ms@.len() as int) =~= ms@);
            Json::Object(out)
        },
    }
}

/// Removes every member named [`IGNORED_FIELD`] from the objects of `value`, at any depth.
pub fn filter_ignored_fields(value: Json) -> (r: Json)
    ensures
        r@ == filtered(value@),
{
    filter_ref(&value)
}

proof fn lemma_items_view_index(s: Seq<Json>)
    ensures
        items_view(s).len() == s.len(),
        forall|j: int| 0 <= j < s.len() ==> #[trigger] items_view(s)[j] == json_view(s[j]),
    decreases s.len(),
{
    if s.len() > 0 {
        lemma_items_view_index(s.drop_last());
        assert forall|j: int| 0 <= j < s.len() implies #[trigger] items_view(s)[j] == json_view(s[j]) by {
            if j < s.len() - 1 {
                assert(s.drop_last()[j] == s[j]);
            }
        }
    }
}

proof fn lemma_members_view_index(s: Seq<Member>)
    ensures
        members_view(s).len() == s.len(),
        forall|j: int|
            0 <= j < s.len() ==> #[trigger] members_view(s)[j] == (s[j].key@, json_view(s[j].value)),
    decreases s.len(),
{
    if s.len() > 0 {
        lemma_members_view_index(s.drop_last());
        assert forall|j: int| 0 <= j < s.len() implies #[trigger] members_view(s)[j] == (
            s[j].key@,
            json_view(s[j].value),
        ) by {
            if j < s.len() - 1 {
                assert(s.drop_last()[j] == s[j]);
            }
        }
    }
}

/// A copy of `v`.
pub fn deep_copy(v: &Json) -> (r: Json)
    ensures
        r@ == v@,
    decreases v,
{
    match v {
        Json::Null => Json::Null,
        Json::Bool(b) => Json::Bool(*b),
        Json::Number(n) => Json::Number(copy_string(n)),
        Json::Str(t) => Json::Str(copy_string(t)),
        Json::Array(xs) => {
            let mut out: Vec<Json> = Vec::new();
            let mut i: usize = 0;
            while i < xs.len()
                invariant
                    *v == Json::Array(*xs),
                    i <= xs@.len(),
                    items_view(out@) == items_view(xs@.subrange(0, i as int)),
                decreases xs@.len() - i,
            {
                proof {
                    vstd::std_specs::vec::axiom_vec_index_decreases(*xs, i as int);
                    assert(decreases_to!(*v => v->Array_0));
                }
                let y = deep_copy(&xs[i]);
                proof {
                    let post = xs@.subrange(0, i + 1);
                    assert(post.drop_last() =~= xs@.subrange(0, i as int));
                    assert(out@.push(y).drop_last() =~= out@);
                }
                out.push(y);
                i = i + 1;
            }
            assert(xs@.subrange(0, xs@.len() as int) =~= xs@);
            Json::Array(out)
        },
        Json::Object(ms) => {
            let mut out: Vec<Member> = Vec::new();
            let mut i: usize = 0;
            while i < ms.len()
                invariant
                    *v == Json::Object(*ms),
                    i <= ms@.len(),
                    members_view(out@) == members_view(ms@.subrange(0, i as int)),
                decreases ms@.len() - i,
            {
                proof {
                    vstd::std_specs::vec::axiom_vec_index_decreases(*ms, i as int);
                    assert(decreases_to!(*v => v->Object_0));
                }
                let y = deep_copy(&ms[i].value);
                let k = copy_string(&ms[i].key);
                let nm = Member { key: k, value: y };
                proof {
                    let post = ms@.subrange(0, i + 1);
                    assert(post.drop_last() =~= ms@.subrange(0, i as int));
                    assert(out@.push(nm).drop_last() =~= out@);
                }
                out.push(nm);
                i = i + 1;
            }
            assert(ms@.subrange(0, ms@.len() as int) =~= ms@);
            Json::Object(out)
        },
    }
}

/// One step of the path to a value: a member's key, or an array index.
#[derive(Debug, PartialEq)]
pub enum PathKey {
    Field(String),
    Index(usize),
}

pub enum PathKeyValue {
    Field(Seq<char>),
    Index(nat),
}

impl View for PathKey {
    type V = PathKeyValue;

    open spec fn view(&self) -> PathKeyValue {
        match self {
            PathKey::Field(k) => PathKeyValue::Field(k@),
            PathKey::Index(i) => PathKeyValue::Index(*i as nat),
        }
    }
}

/// A place where the actual value does not include the expected one: at `path`, the
/// actual value is `actual` (`None`: there is none) and the expected one `expected`.
#[derive(Debug, PartialEq)]
pub struct Difference {
    pub path: Vec<PathKey>,
    pub actual: Option<Json>,
    pub expected: Json,
}

pub struct DifferenceValue {
    pub path: Seq<PathKeyValue>,
    pub actual: Option<JsonValue>,
    pub expected: JsonValue,
}

pub open spec fn path_view(p: Seq<PathKey>) -> Seq<PathKeyValue> {
    p.map_values(|k: PathKey| k@)
}

impl View for Difference {
    type V = DifferenceValue;

    open spec fn view(&self) -> DifferenceValue {
        DifferenceValue {
            path: path_view(self.path@),
            actual: match self.actual {
                Some(a) => Some(a@),
                None => None,
            },
            expected: self.expected@,
        }
    }
}

pub open spec fn differences_view(d: Seq<Difference>) -> Seq<DifferenceValue> {
    d.map_values(|x: Difference| x@)
}

/// The value of the last member of `ms` named `k`.
pub open spec fn lookup(ms: Seq<(Seq<char>, JsonValue)>, k: Seq<char>) -> Option<JsonValue>
    decreases ms.len(),
{
    if ms.len() == 0 {
        None
    } else if ms.last().0 == k {
        Some(ms.last().1)
    } else {
        lookup(ms.drop_last(), k)
    }
}

pub open spec fn mismatch(p: Seq<PathKeyValue>, a: JsonValue, e: JsonValue) -> DifferenceValue {
    DifferenceValue { path: p, actual: Some(a), expected: e }
}

/// Where `a` fails to include `e`, the paths under `p`, in the order of `e`. An object
/// includes another when it has each of its members and includes each value; an array
/// when it is at least as long and includes each element; a scalar only when equal. What
/// `a` holds beyond `e` is never a difference.
pub open spec fn differences(a: JsonValue, e: JsonValue, p: Seq<PathKeyValue>) -> Seq<DifferenceValue>
    decreases e,
{
    match a {
        JsonValue::Array(xa) => match e {
            JsonValue::Array(xe) => item_differences(xa, xe, p),
            _ => seq![mismatch(p, a, e)],
        },
        JsonValue::Object(ma) => match e {
            JsonValue::Object(me) => member_differences(ma, me, p),
            _ => seq![mismatch(p, a, e)],
        },
        _ => if a == e {
            seq![]
        } else {
            seq![mismatch(p, a, e)]
        },
    }
}

pub open spec fn item_differences(xa: Seq<JsonValue>, xe: Seq<JsonValue>, p: Seq<PathKeyValue>) -> Seq<DifferenceValue>
    decreases xe,
{
    if xe.len() == 0 {
        seq![]
    } else {
        let i = xe.len() - 1;
        let q = p.push(PathKeyValue::Index(i as nat));
        item_differences(xa, xe.drop_last(), p) + if i < xa.len() {
            differences(xa[i], xe.last(), q)
        } else {
            seq![DifferenceValue { path: q, actual: None, expected: xe.last() }]
        }
    }
}

pub open spec fn member_differences(
    ma: Seq<(Seq<char>, JsonValue)>,
    me: Seq<(Seq<char>, JsonValue)>,
    p: Seq<PathKeyValue>,
) -> Seq<DifferenceValue>
    decreases me,
{
    if me.len() == 0 {
        seq![]
    } else {
        let q = p.push(PathKeyValue::Field(me.last().0));
        member_differences(ma, me.drop_last(), p) + match lookup(ma, me.last().0) {
            Some(y) => differences(y, me.last().1, q),
            None => seq![DifferenceValue { path: q, actual: None, expected: me.last().1 }],
        }
    }
}

/// `a` includes `e`: it has everything that `e` has.
pub open spec fn includes(a: JsonValue, e: JsonValue) -> bool {
    differences(a, e, seq![]).len() == 0
}

fn scalar_equal(a: &Json, e: &Json) -> (r: bool)
    requires
        !(a is Array),
        !(a is Object),
    ensures
        r == (a@ == e@),
{
    match (a, e) {
        (Json::Null, Json::Null) => true,
        (Json::Bool(x), Json::Bool(y)) => *x == *y,
        (Json::Number(x), Json::Number(y)) => *x == *y,
        (Json::Str(x), Json::Str(y)) => *x == *y,
        _ => false,
    }
}

fn copy_key(k: &PathKey) -> (r: PathKey)
    ensures
        r@ == k@,
{
    match k {
        PathKey::Field(f) => PathKey::Field(copy_string(f)),
        PathKey::Index(i) => PathKey::Index(*i),
    }
}

/// The path `p` followed by `k`.
fn child_path(p: &Vec<PathKey>, k: PathKey) -> (r: Vec<PathKey>)
    ensures
        path_view(r@) == path_view(p@).push(k@),
{
    let mut out = copy_path(p);
    let ghost before = out@;
    out.push(k);
    proof {
        assert(path_view(out@) =~= path_view(before).push(k@));
    }
    out
}

fn push_difference(acc: &mut Vec<Difference>, d: Difference)
    ensures
        differences_view(final(acc)@) == differences_view(old(acc)@).push(d@),
{
    acc.push(d);
    proof {
        assert(differences_view(acc@) =~= differences_view(old(acc)@).push(d@));
    }
}

/// The index of the last member of `ms` named `k`.
fn find_member(ms: &Vec<Member>, k: &String) -> (r: Option<usize>)
    ensures
        match lookup(members_view(ms@), k@) {
            None => r is None,
            Some(y) => r matches Some(j) && j < ms@.len() && json_view(ms@[j as int].value) == y,
        },
{
    let mut i: usize = ms.len();
    assert(ms@.subrange(0, ms@.len() as int) =~= ms@);
    while i > 0
        invariant
            i <= ms@.len(),
            lookup(members_view(ms@), k@) == lookup(members_view(ms@.subrange(0, i as int)), k@),
        decreases i,
    {
        let j = i - 1;
        proof {
            let sub = ms@.subrange(0, i as int);
            assert(sub.drop_last() =~= ms@.subrange(0, j as int));
            assert(sub.last() == ms@[j as int]);
            let mv = members_view(sub);
            assert(mv == members_view(sub.drop_last()).push((ms@[j as int].key@, json_view(ms@[j as int].value))));
            assert(mv.drop_last() =~= members_view(ms@.subrange(0, j as int)));
        }
        if ms[j].key == *k {
            return Some(j);
        }
        i = j;
    }
    None
}

fn diff_into(a: &Json, e: &Json, p: &Vec<PathKey>, acc: &mut Vec<Difference>)
    ensures
        differences_view(final(acc)@) == differences_view(old(acc)@) + differences(
            a@,
            e@,
            path_view(p@),
        ),
    decreases e,
{
    let ghost pv = path_view(p@);
    let ghost acc0 = differences_view(acc@);
    match a {
        Json::Array(xa) => match e {
            Json::Array(xe) => {
                proof {
                    lemma_items_view_index(xa@);
                }
                let mut i: usize = 0;
                while i < xe.len()
                    invariant
                        *a == Json::Array(*xa),
                        *e == Json::Array(*xe),
                        pv == path_view(p@),
                        i <= xe@.len(),
                        items_view(xa@).len() == xa@.len(),
                        forall|j: int| 0 <= j < xa@.len() ==> #[trigger] items_view(xa@)[j] == json_view(xa@[j]),
                        differences_view(acc@) == acc0 + item_differences(
                            items_view(xa@),
                            items_view(xe@.subrange(0, i as int)),
                            pv,
                        ),
                    decreases xe@.len() - i,
                {
                    let ghost before = differences_view(acc@);
                    let q = child_path(p, PathKey::Index(i));
                    proof {
                        let sub = xe@.subrange(0, i as int);
                        let post = xe@.subrange(0, i + 1);
                        assert(post.drop_last() =~= sub);
                        lemma_items_view_index(sub);
                        lemma_items_view_index(post);
                        assert(items_view(post).drop_last() =~= items_view(sub));
                        vstd::std_specs::vec::axiom_vec_index_decreases(*xe, i as int);
                        assert(decreases_to!(*e => e->Array_0));
                    }
                    if i < xa.len() {
                        diff_into(&xa[i], &xe[i], &q, acc);
                    } else {
                        let x = deep_copy(&xe[i]);
                        push_difference(acc, Difference { path: q, actual: None, expected: x });
                    }
                    proof {
                        let post = xe@.subrange(0, i + 1);
                        let chunk = differences_view(acc@).subrange(before.len() as int, differences_view(acc@).len() as int);
                        assert(differences_view(acc@) =~= before + chunk);
                        assert(item_differences(items_view(xa@), items_view(post), pv)
                            == item_differences(items_view(xa@), items_view(xe@.subrange(0, i as int)), pv) + chunk);
                        assert(differences_view(acc@) =~= acc0 + item_differences(items_view(xa@), items_view(post), pv));
                    }
                    i = i + 1;
                }
                assert(xe@.subrange(0, xe@.len() as int) =~= xe@);
            },
            _ => {
                let d = Difference { path: copy_path(p), actual: Some(deep_copy(a)), expected: deep_copy(e) };
                push_difference(acc, d);
            },
        },
        Json::Object(ma) => match e {
            Json::Object(me) => {
                let mut i: usize = 0;
                while i < me.len()
                    invariant
                        *a == Json::Object(*ma),
                        *e == Json::Object(*me),
                        pv == path_view(p@),
                        i <= me@.len(),
                        differences_view(acc@) == acc0 + member_differences(
                            members_view(ma@),
                            members_view(me@.subrange(0, i as int)),
                            pv,
                        ),
                    decreases me@.len() - i,
                {
                    let ghost before = differences_view(acc@);
                    let q = child_path(p, PathKey::Field(copy_string(&me[i].key)));
                    proof {
                        let sub = me@.subrange(0, i as int);
                        let post = me@.subrange(0, i + 1);
                        assert(post.drop_last() =~= sub);
                        assert(post.last() == me@[i as int]);
                        let mv = members_view(post);
                        assert(mv == members_view(sub).push((me@[i as int].key@, json_view(me@[i as int].value))));
                        assert(mv.drop_last() =~= members_view(sub));
                        assert(mv.last() == (me@[i as int].key@, json_view(me@[i as int].value)));
                        vstd::std_specs::vec::axiom_vec_index_decreases(*me, i as int);
                        assert(decreases_to!(*e => e->Object_0));
                    }
                    match find_member(ma, &me[i].key) {
                        Some(j) => {
                            diff_into(&ma[j].value, &me[i].value, &q, acc);
                        },
                        None => {
                            let x = deep_copy(&me[i].value);
                            push_difference(acc, Difference { path: q, actual: None, expected: x });
                        },
                    }
                    proof {
                        let post = me@.subrange(0, i + 1);
                        let chunk = differences_view(acc@).subrange(before.len() as int, differences_view(acc@).len() as int);
                        assert(differences_view(acc@) =~= before + chunk);
                        assert(member_differences(members_view(ma@), members_view(post), pv)
                            == member_differences(members_view(ma@), members_view(me@.subrange(0, i as int)), pv) + chunk);
                        assert(differences_view(acc@) =~= acc0 + member_differences(members_view(ma@), members_view(post), pv));
                    }
                    i = i + 1;
                }
                assert(me@.subrange(0, me@.len() as int) =~= me@);
            },
            _ => {
                let d = Difference { path: copy_path(p), actual: Some(deep_copy(a)), expected: deep_copy(e) };
                push_difference(acc, d);
            },
        },
        _ => {
            if !scalar_equal(a, e) {
                let d = Difference { path: copy_path(p), actual: Some(deep_copy(a)), expected: deep_copy(e) };
                push_difference(acc, d);
            } else {
                assert(differences_view(acc@) =~= acc0 + differences(a@, e@, pv));
            }
        },
    }
}

/// A copy of the path `p`.
fn copy_path(p: &Vec<PathKey>) -> (r: Vec<PathKey>)
    ensures
        path_view(r@) == path_view(p@),
{
    let mut out: Vec<PathKey> = Vec::new();
    let mut i: usize = 0;
    while i < p.len()
        invariant
            i <= p@.len(),
            out@.len() == i,
            forall|j: int| 0 <= j < i ==> #[trigger] out@[j]@ == p@[j]@,
        decreases p@.len() - i,
    {
        let c = copy_key(&p[i]);
        out.push(c);
        i = i + 1;
    }
    assert(path_view(out@) =~= path_view(p@));
    out
}

/// Compares the answer of the first endpoint (`rpc1`, the actual value) with that of
/// the second (`rpc2`, the expected one) by inclusion: `None` when `rpc1` has all that
/// `rpc2` has, else every place where it does not.
pub fn verify_missing_or_mismatch(rpc1: Json, rpc2: Json) -> (r: Option<Vec<Difference>>)
    ensures
        r is None <==> includes(rpc1@, rpc2@),
        r matches Some(d) ==> differences_view(d@) == differences(rpc1@, rpc2@, seq![]),
{
    let mut acc: Vec<Difference> = Vec::new();
    let root: Vec<PathKey> = Vec::new();
    proof {
        assert(differences_view(acc@) =~= Seq::<DifferenceValue>::empty());
        assert(path_view(root@) =~= Seq::<PathKeyValue>::empty());
    }
    diff_into(&rpc1, &rpc2, &root, &mut acc);
    proof {
        assert(differences_view(acc@) =~= differences(rpc1@, rpc2@, seq![]));
    }
    if acc.len() == 0 {
        None
    } else {
        Some(acc)
    }
}

/// A member that the expected object lacks changes nothing: the actual object with it
/// differs from the expected one in exactly the places where it differs without it.
pub proof fn lemma_extra_field_tolerated(
    ma: Seq<(Seq<char>, JsonValue)>,
    me: Seq<(Seq<char>, JsonValue)>,
    k: Seq<char>,
    v: JsonValue,
    p: Seq<PathKeyValue>,
)
    requires
        lookup(me, k) is None,
    ensures
        differences(JsonValue::Object(ma.push((k, v))), JsonValue::Object(me), p) == differences(
            JsonValue::Object(ma),
            JsonValue::Object(me),
            p,
        ),
        includes(JsonValue::Object(ma.push((k, v))), JsonValue::Object(me)) == includes(
            JsonValue::Object(ma),
            JsonValue::Object(me),
        ),
{
    lemma_members_extra(ma, me, k, v, p);
    lemma_members_extra(ma, me, k, v, seq![]);
}

proof fn lemma_members_extra(
    ma: Seq<(Seq<char>, JsonValue)>,
    me: Seq<(Seq<char>, JsonValue)>,
    k: Seq<char>,
    v: JsonValue,
    p: Seq<PathKeyValue>,
)
    requires
        lookup(me, k) is None,
    ensures
        member_differences(ma.push((k, v)), me, p) == member_differences(ma, me, p),
    decreases me.len(),
{
    if me.len() > 0 {
        let ma2 = ma.push((k, v));
        assert(ma2.drop_last() =~= ma);
        assert(me.last().0 != k);
        assert(lookup(ma2, me.last().0) == lookup(ma, me.last().0));
        lemma_members_extra(ma, me.drop_last(), k, v, p);
    }
}

/// An actual object that lacks a member of the expected one differs from it.
pub proof fn lemma_missing_field_fails(
    ma: Seq<(Seq<char>, JsonValue)>,
    me: Seq<(Seq<char>, JsonValue)>,
    k: Seq<char>,
    p: Seq<PathKeyValue>,
)
    requires
        lookup(me, k) is Some,
        lookup(ma, k) is None,
    ensures
        differences(JsonValue::Object(ma), JsonValue::Object(me), p).len() > 0,
        !includes(JsonValue::Object(ma), JsonValue::Object(me)),
{
    lemma_members_missing(ma, me, k, p);
    lemma_members_missing(ma, me, k, seq![]);
}

proof fn lemma_members_missing(
    ma: Seq<(Seq<char>, JsonValue)>,
    me: Seq<(Seq<char>, JsonValue)>,
    k: Seq<char>,
    p: Seq<PathKeyValue>,
)
    requires
        lookup(me, k) is Some,
        lookup(ma, k) is None,
    ensures
        member_differences(ma, me, p).len() > 0,
    decreases me.len(),
{
    if me.last().0 != k {
        lemma_members_missing(ma, me.drop_last(), k, p);
    }
}

/// An actual object whose member differs from the expected one's member of the same
/// name differs from the expected object.
pub proof fn lemma_changed_field_fails(
    ma: Seq<(Seq<char>, JsonValue)>,
    me: Seq<(Seq<char>, JsonValue)>,
    k: Seq<char>,
    p: Seq<PathKeyValue>,
)
    requires
        lookup(me, k) is Some,
        lookup(ma, k) is Some,
        differences(
            lookup(ma, k)->Some_0,
            lookup(me, k)->Some_0,
            p.push(PathKeyValue::Field(k)),
        ).len() > 0,
    ensures
        differences(JsonValue::Object(ma), JsonValue::Object(me), p).len() > 0,
    decreases me.len(),
{
    if me.last().0 != k {
        lemma_changed_field_fails(ma, me.drop_last(), k, p);
    }
}

/// At the top, a member whose scalar value differs from the expected one is a difference.
pub proof fn lemma_changed_scalar_fails(
    ma: Seq<(Seq<char>, JsonValue)>,
    me: Seq<(Seq<char>, JsonValue)>,
    k: Seq<char>,
)
    requires
        lookup(me, k) is Some,
        lookup(ma, k) is Some,
        !(lookup(ma, k)->Some_0 is Array),
        !(lookup(ma, k)->Some_0 is Object),
        lookup(ma, k)->Some_0 != lookup(me, k)->Some_0,
    ensures
        !includes(JsonValue::Object(ma), JsonValue::Object(me)),
{
    lemma_changed_field_fails(ma, me, k, seq![]);
}

} // verus!
