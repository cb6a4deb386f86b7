//! The two stable tree rewrites: ordering object members by key and
//! ordering array elements by the value of a named member.

use vstd::prelude::*;

use crate::node::{elems_model, lemma_elems_model, lemma_members_model, members_model, node_model,
    Node, NodeModel};
use crate::sorting::{asymmetric, insert_position, insert_sorted, lemma_insert_sorted_split,
    stable_sort};
use vstd::string::StrSliceExecFns;

verus! {

/// The text a key or value is compared by: one leading and one trailing
/// quote character are stripped when the text is longer than one character
/// and carries both; any other text is compared as it stands.
pub open spec fn unquote_text(s: Seq<char>) -> Seq<char> {
    if s.len() > 1 && s[0] == '"' && s[s.len() - 1] == '"' {
        s.subrange(1, s.len() - 1)
    } else {
        s
    }
}

/// Lexicographic order on character sequences, by code point, the order in
/// which `str` comparison also sorts its UTF-8 bytes.
pub open spec fn lex_lt(a: Seq<char>, b: Seq<char>) -> bool
    decreases a.len(),
{
    if b.len() == 0 {
        false
    } else if a.len() == 0 {
        true
    } else if (a[0] as u32) < (b[0] as u32) {
        true
    } else if (a[0] as u32) > (b[0] as u32) {
        false
    } else {
        lex_lt(a.drop_first(), b.drop_first())
    }
}

pub proof fn lemma_lex_lt_asymmetric(a: Seq<char>, b: Seq<char>)
    ensures
        !(lex_lt(a, b) && lex_lt(b, a)),
    decreases a.len(),
{
    if b.len() > 0 && a.len() > 0 && (a[0] as u32) == (b[0] as u32) {
        lemma_lex_lt_asymmetric(a.drop_first(), b.drop_first());
    }
}

/// The order in which `sort_by_name` places two object members: strictly
/// after means the unquoted key of the second is strictly below the
/// unquoted key of the first.
pub open spec fn member_gt() -> spec_fn((Seq<char>, NodeModel), (Seq<char>, NodeModel)) -> bool {
    |a: (Seq<char>, NodeModel), b: (Seq<char>, NodeModel)| lex_lt(unquote_text(b.0), unquote_text(a.0))
}

pub proof fn lemma_member_gt_asymmetric()
    ensures
        asymmetric(member_gt()),
{
    assert forall|a: (Seq<char>, NodeModel), b: (Seq<char>, NodeModel)|
        #[trigger] member_gt()(a, b) implies !member_gt()(b, a) by {
        lemma_lex_lt_asymmetric(unquote_text(b.0), unquote_text(a.0));
    }
}

/// The sort value of an array element: the text of the value of the first
/// member whose unquoted key equals `key` and whose value is a scalar.
/// Elements that are not objects, or have no such member, have none.
pub open spec fn lookup_value(m: NodeModel, key: Seq<char>) -> Option<Seq<char>> {
    match m {
        NodeModel::Object(ps) => lookup_members(ps, key),
        _ => None,
    }
}

pub open spec fn lookup_members(ps: Seq<(Seq<char>, NodeModel)>, key: Seq<char>) -> Option<
    Seq<char>,
>
    decreases ps.len(),
{
    if ps.len() == 0 {
        None
    } else if unquote_text(ps[0].0) == key && ps[0].1 is Value {
        Some(ps[0].1->Value_0)
    } else {
        lookup_members(ps.drop_first(), key)
    }
}

/// The order in which `sort_by_value` places two array elements: strictly
/// after means both have a sort value and the unquoted value of the second
/// is strictly below that of the first. A pair in which either element has
/// no sort value is never reordered.
pub open spec fn element_gt(key: Seq<char>) -> spec_fn(NodeModel, NodeModel) -> bool {
    |a: NodeModel, b: NodeModel|
        match (lookup_value(a, key), lookup_value(b, key)) {
            (Some(x), Some(y)) => lex_lt(unquote_text(y), unquote_text(x)),
            _ => false,
        }
}

pub proof fn lemma_element_gt_asymmetric(key: Seq<char>)
    ensures
        asymmetric(element_gt(key)),
{
    assert forall|a: NodeModel, b: NodeModel|
        #[trigger] element_gt(key)(a, b) implies !element_gt(key)(b, a) by {
        let x = lookup_value(a, key)->Some_0;
        let y = lookup_value(b, key)->Some_0;
        lemma_lex_lt_asymmetric(unquote_text(y), unquote_text(x));
    }
}

/// What `sort_by_name` does to a tree: every object's members are put in
/// order of their unquoted keys, depth first, by a stable sort; arrays keep
/// their order; scalars are untouched.
pub open spec fn sort_name_model(m: NodeModel) -> NodeModel
    decreases m,
{
    match m {
        NodeModel::Value(t) => NodeModel::Value(t),
        NodeModel::Array(es) => NodeModel::Array(sort_name_elems(es)),
        NodeModel::Object(ps) => NodeModel::Object(
            stable_sort(sort_name_members(ps), member_gt()),
        ),
    }
}

pub open spec fn sort_name_elems(es: Seq<NodeModel>) -> Seq<NodeModel>
    decreases es,
{
    if es.len() == 0 {
        Seq::empty()
    } else {
        sort_name_elems(es.drop_last()).push(sort_name_model(es.last()))
    }
}

pub open spec fn sort_name_members(ps: Seq<(Seq<char>, NodeModel)>) -> Seq<(Seq<char>, NodeModel)>
    decreases ps,
{
    if ps.len() == 0 {
        Seq::empty()
    } else {
        sort_name_members(ps.drop_last()).push(
            (ps.last().0, sort_name_model(ps.last().1)),
        )
    }
}

/// What `sort_by_value` does to a tree: every array's elements are put in
/// order of their sort values under `key`, depth first, by a stable sort;
/// object members keep their order; scalars are untouched.
pub open spec fn sort_value_model(m: NodeModel, key: Seq<char>) -> NodeModel
    decreases m,
{
    match m {
        NodeModel::Value(t) => NodeModel::Value(t),
        NodeModel::Array(es) => NodeModel::Array(
            stable_sort(sort_value_elems(es, key), element_gt(key)),
        ),
        NodeModel::Object(ps) => NodeModel::Object(sort_value_members(ps, key)),
    }
}

pub open spec fn sort_value_elems(es: Seq<NodeModel>, key: Seq<char>) -> Seq<NodeModel>
    decreases es,
{
    if es.len() == 0 {
        Seq::empty()
    } else {
        sort_value_elems(es.drop_last(), key).push(sort_value_model(es.last(), key))
    }
}

pub open spec fn sort_value_members(ps: Seq<(Seq<char>, NodeModel)>, key: Seq<char>) -> Seq<
    (Seq<char>, NodeModel),
>
    decreases ps,
{
    if ps.len() == 0 {
        Seq::empty()
    } else {
        sort_value_members(ps.drop_last(), key).push(
            (ps.last().0, sort_value_model(ps.last().1, key)),
        )
    }
}

/// Relies on nothing outside this crate: character-by-character
/// lexicographic comparison, strictly below.
fn str_lt(a: &str, b: &str) -> (r: bool)
    ensures
        r == lex_lt(a@, b@),
{
    let an = a.unicode_len();
    let bn = b.unicode_len();
    let mut i: usize = 0;
    loop
        invariant
            i <= an,
            i <= bn,
            an == a@.len(),
            bn == b@.len(),
            forall|k: int| 0 <= k < i ==> a@[k] == b@[k],
        decreases an - i,
    {
        proof {
            lemma_lex_lt_common_prefix(a@, b@, i as int);
        }
        if i >= bn {
            return false;
        }
        if i >= an {
            return true;
        }
        let ca = a.get_char(i);
        let cb = b.get_char(i);
        if (ca as u32) < (cb as u32) {
            return true;
        }
        if (ca as u32) > (cb as u32) {
            return false;
        }
        i = i + 1;
    }
}

proof fn lemma_lex_lt_common_prefix(a: Seq<char>, b: Seq<char>, i: int)
    requires
        0 <= i <= a.len(),
        i <= b.len(),
        forall|k: int| 0 <= k < i ==> a[k] == b[k],
    ensures
        lex_lt(a, b) == lex_lt(a.skip(i), b.skip(i)),
    decreases i,
{
    if i > 0 {
        assert(a.len() > 0 && b.len() > 0);
        assert(a[0] == b[0]);
        let a1 = a.drop_first();
        let b1 = b.drop_first();
        assert(forall|k: int| 0 <= k < i - 1 ==> a1[k] == b1[k]) by {
            assert(forall|k: int| 0 <= k < i - 1 ==> #[trigger] a1[k] == a[k + 1]);
            assert(forall|k: int| 0 <= k < i - 1 ==> #[trigger] b1[k] == b[k + 1]);
        }
        lemma_lex_lt_common_prefix(a1, b1, i - 1);
        assert(a1.skip(i - 1) =~= a.skip(i));
        assert(b1.skip(i - 1) =~= b.skip(i));
    } else {
        assert(a.skip(0) =~= a);
        assert(b.skip(0) =~= b);
    }
}

/// Character-by-character equality of two string slices.
fn str_eq(a: &str, b: &str) -> (r: bool)
    ensures
        r == (a@ == b@),
{
    let an = a.unicode_len();
    let bn = b.unicode_len();
    if an != bn {
        return false;
    }
    let mut i: usize = 0;
    loop
        invariant
            i <= an,
            an == a@.len(),
            an == b@.len(),
            forall|k: int| 0 <= k < i ==> a@[k] == b@[k],
        decreases an - i,
    {
        if i >= an {
            proof {
                assert(a@ =~= b@);
            }
            return true;
        }
        if a.get_char(i) != b.get_char(i) {
            return false;
        }
        i = i + 1;
    }
}

/// The comparison form of a stored key or scalar: one leading and one
/// trailing quote stripped when both are present and the text is longer
/// than one character.
pub fn unquote(s: &str) -> (r: &str)
    ensures
        r@ == unquote_text(s@),
{
    let n = s.unicode_len();
    if n > 1 && s.get_char(0) == '"' && s.get_char(n - 1) == '"' {
        s.substring_char(1, n - 1)
    } else {
        s
    }
}

fn member_key_gt(a: &String, b: &String) -> (r: bool)
    ensures
        r == lex_lt(unquote_text(b@), unquote_text(a@)),
{
    str_lt(unquote(b.as_str()), unquote(a.as_str()))
}

/// The sort value that `sort_by_value` compares `node` by: the value text
/// of the first member whose unquoted key equals `key` and whose value is
/// a scalar, if there is one.
#[verifier::loop_isolation(false)]
pub fn find_value(node: &Node, key: &str) -> (r: Option<String>)
    ensures
        match r {
            Some(t) => lookup_value(node@, key@) == Some(t@),
            None => lookup_value(node@, key@) is None,
        },
{
    match node {
        Node::Object(ps) => {
            proof {
                lemma_members_model(ps@);
            }
            let ghost ms = members_model(ps@);
            proof {
                assert(ms.skip(0) =~= ms);
            }
            let n = ps.len();
            let mut i: usize = 0;
            loop
                invariant
                    i <= n,
                    n == ps@.len(),
                    ms == members_model(ps@),
                    ms.len() == n,
                    node@ == NodeModel::Object(ms),
                    lookup_members(ms, key@) == lookup_members(ms.skip(i as int), key@),
                decreases n - i,
            {
                if i >= n {
                    proof {
                        assert(ms.skip(i as int) =~= Seq::<(Seq<char>, NodeModel)>::empty());
                    }
                    return None;
                }
                let p = &ps[i];
                let is_match = str_eq(unquote(p.0.as_str()), key);
                proof {
                    assert(ms[i as int] == (ps@[i as int].0@, node_model(ps@[i as int].1)));
                    assert(ms.skip(i as int)[0] == ms[i as int]);
                    assert(ms.skip(i as int).drop_first() =~= ms.skip(i as int + 1));
                }
                if is_match {
                    match &p.1 {
                        Node::Value(t) => {
                            return Some(t.clone());
                        },
                        Node::Array(_) => {
                            proof {
                                assert(!(node_model(p.1) is Value));
                            }
                        },
                        Node::Object(_) => {
                            proof {
                                assert(!(node_model(p.1) is Value));
                            }
                        },
                    }
                }
                i = i + 1;
            }
        },
        _ => None,
    }
}

fn element_gt_exec(a: &Node, b: &Node, key: &str) -> (r: bool)
    ensures
        r == element_gt(key@)(a@, b@),
{
    let va = find_value(a, key);
    let vb = find_value(b, key);
    match (va, vb) {
        (Some(x), Some(y)) => str_lt(unquote(y.as_str()), unquote(x.as_str())),
        _ => false,
    }
}

/// Stable insertion of one member into an already ordered run of members.
#[verifier::loop_isolation(false)]
fn insert_member_sorted(v: &mut Vec<(String, Node)>, p: (String, Node))
    ensures
        members_model(final(v)@) == insert_sorted(
            members_model(old(v)@),
            (p.0@, node_model(p.1)),
            member_gt(),
        ),
{
    let ghost s = members_model(old(v)@);
    let ghost x = (p.0@, node_model(p.1));
    proof {
        lemma_members_model(old(v)@);
        assert(s.subrange(0, s.len() as int) =~= s);
    }
    let mut j = v.len();
    while j > 0 && member_key_gt(&v[j - 1].0, &p.0)
        invariant
            j <= v@.len(),
            insert_position(s, x, member_gt()) == insert_position(
                s.subrange(0, j as int),
                x,
                member_gt(),
            ),
        decreases j,
    {
        proof {
            let sj = s.subrange(0, j as int);
            assert(sj.last() == s[j - 1]);
            assert(s[j - 1] == (v@[j - 1].0@, node_model(v@[j - 1].1)));
            assert(member_gt()(sj.last(), x));
            assert(sj.drop_last() =~= s.subrange(0, j - 1));
        }
        j = j - 1;
    }
    proof {
        let sj = s.subrange(0, j as int);
        if j == 0 {
            assert(sj =~= Seq::<(Seq<char>, NodeModel)>::empty());
            assert(insert_position(s, x, member_gt()) == 0);
        } else {
            assert(sj.last() == s[j - 1]);
            assert(s[j - 1] == (v@[j - 1].0@, node_model(v@[j - 1].1)));
            assert(!member_gt()(sj.last(), x));
            assert(insert_position(s, x, member_gt()) == j);
        }
    }
    v.insert(j, p);
    proof {
        lemma_insert_sorted_split(s, x, member_gt());
        lemma_members_model(v@);
        old(v)@.insert_ensures(j as int, p);
        let ghost spliced = s.subrange(0, j as int) + seq![x] + s.subrange(
            j as int,
            s.len() as int,
        );
        assert(members_model(v@) =~= spliced) by {
            assert(v@.len() == s.len() + 1);
            assert forall|i: int| 0 <= i < v@.len() implies members_model(v@)[i] == spliced[i] by {
                let ins = old(v)@.insert(j as int, p);
                if i < j {
                    assert(ins[i] == old(v)@[i]);
                    assert(v@[i] == old(v)@[i]);
                } else if i == j {
                    assert(v@[i] == p);
                } else {
                    assert(ins[(i - 1) + 1] == old(v)@[i - 1]);
                    assert(v@[i] == old(v)@[i - 1]);
                }
            }
        }
    }
}

/// Stable insertion of one array element into an already ordered run.
#[verifier::loop_isolation(false)]
fn insert_element_sorted(v: &mut Vec<Node>, x: Node, key: &str)
    ensures
        elems_model(final(v)@) == insert_sorted(
            elems_model(old(v)@),
            node_model(x),
            element_gt(key@),
        ),
{
    let ghost s = elems_model(old(v)@);
    let ghost xm = node_model(x);
    proof {
        lemma_elems_model(old(v)@);
        assert(s.subrange(0, s.len() as int) =~= s);
    }
    let mut j = v.len();
    while j > 0 && element_gt_exec(&v[j - 1], &x, key)
        invariant
            j <= v@.len(),
            insert_position(s, xm, element_gt(key@)) == insert_position(
                s.subrange(0, j as int),
                xm,
                element_gt(key@),
            ),
        decreases j,
    {
        proof {
            let sj = s.subrange(0, j as int);
            assert(sj.last() == s[j - 1]);
            assert(s[j - 1] == node_model(v@[j - 1]));
            assert(element_gt(key@)(sj.last(), xm));
            assert(sj.drop_last() =~= s.subrange(0, j - 1));
        }
        j = j - 1;
    }
    proof {
        let sj = s.subrange(0, j as int);
        if j == 0 {
            assert(sj =~= Seq::<NodeModel>::empty());
            assert(insert_position(s, xm, element_gt(key@)) == 0);
        } else {
            assert(sj.last() == s[j - 1]);
            assert(s[j - 1] == node_model(v@[j - 1]));
            assert(!element_gt(key@)(sj.last(), xm));
            assert(insert_position(s, xm, element_gt(key@)) == j);
        }
    }
    v.insert(j, x);
    proof {
        lemma_insert_sorted_split(s, xm, element_gt(key@));
        lemma_elems_model(v@);
        old(v)@.insert_ensures(j as int, x);
        let ghost spliced = s.subrange(0, j as int) + seq![xm] + s.subrange(
            j as int,
            s.len() as int,
        );
        assert(elems_model(v@) =~= spliced) by {
            assert(v@.len() == s.len() + 1);
            assert forall|i: int| 0 <= i < v@.len() implies elems_model(v@)[i] == spliced[i] by {
                let ins = old(v)@.insert(j as int, x);
                if i < j {
                    assert(ins[i] == old(v)@[i]);
                    assert(v@[i] == old(v)@[i]);
                } else if i == j {
                    assert(v@[i] == x);
                } else {
                    assert(ins[(i - 1) + 1] == old(v)@[i - 1]);
                    assert(v@[i] == old(v)@[i - 1]);
                }
            }
        }
    }
}

#[verifier::loop_isolation(false)]
fn sort_name_node(n: Node) -> (r: Node)
    ensures
        r@ == sort_name_model(n@),
    decreases n,
{
    let ghost n0 = n;
    match n {
        Node::Value(s) => Node::Value(s),
        Node::Array(xs) => {
            let mut xs = xs;
            let ghost xsv = xs;
            let ghost es0 = xs@;
            proof {
                assert(n0 == Node::Array(xsv));
                lemma_elems_model(es0);
                assert(es0.skip(0) =~= es0);
                assert(elems_model(es0.subrange(0, 0)) =~= Seq::<NodeModel>::empty());
            }
            let mut out: Vec<Node> = Vec::new();
            while xs.len() > 0
                invariant
                    out@.len() + xs@.len() == es0.len(),
                    xs@ == es0.skip(out@.len() as int),
                    elems_model(out@) == sort_name_elems(
                        elems_model(es0.subrange(0, out@.len() as int)),
                    ),
                decreases xs@.len(),
            {
                let ghost k = out@.len() as int;
                let x = xs.remove(0);
                proof {
                    assert(x == es0[k]);
                    assert(xs@ =~= es0.skip(k + 1));
                    assert(decreases_to!(n0 => n0->Array_0));
                    assert(n0->Array_0 == xsv);
                    assert(decreases_to!(xsv => xsv@));
                    assert(decreases_to!(xsv@ => xsv@[k]));
                    assert(decreases_to!(n0 => x));
                }
                let y = sort_name_node(x);
                let ghost outpre = out@;
                out.push(y);
                proof {
                    let pre = elems_model(es0.subrange(0, k));
                    let now = elems_model(es0.subrange(0, k + 1));
                    assert(es0.subrange(0, k + 1).drop_last() =~= es0.subrange(0, k));
                    assert(now == pre.push(node_model(es0[k])));
                    assert(now.drop_last() =~= pre);
                    assert(sort_name_elems(now) == sort_name_elems(pre).push(
                        sort_name_model(node_model(es0[k])),
                    ));
                    assert(out@.drop_last() =~= outpre);
                    assert(elems_model(out@) == elems_model(outpre).push(node_model(y)));
                }
            }
            proof {
                assert(es0.subrange(0, es0.len() as int) =~= es0);
            }
            Node::Array(out)
        },
        Node::Object(xs) => {
            let mut xs = xs;
            let ghost xsv = xs;
            let ghost ps0 = xs@;
            proof {
                assert(n0 == Node::Object(xsv));
                lemma_members_model(ps0);
                assert(ps0.skip(0) =~= ps0);
                assert(members_model(ps0.subrange(0, 0)) =~= Seq::<(
                    Seq<char>,
                    NodeModel,
                )>::empty());
            }
            // First pass: canonicalize every member's value, in order.
            let mut mid: Vec<(String, Node)> = Vec::new();
            while xs.len() > 0
                invariant
                    mid@.len() + xs@.len() == ps0.len(),
                    xs@ == ps0.skip(mid@.len() as int),
                    members_model(mid@) == sort_name_members(
                        members_model(ps0.subrange(0, mid@.len() as int)),
                    ),
                decreases xs@.len(),
            {
                let ghost k = mid@.len() as int;
                let p = xs.remove(0);
                proof {
                    assert(p == ps0[k]);
                    assert(xs@ =~= ps0.skip(k + 1));
                    assert(decreases_to!(n0 => n0->Object_0));
                    assert(n0->Object_0 == xsv);
                    assert(decreases_to!(xsv => xsv@));
                    assert(decreases_to!(xsv@ => xsv@[k]));
                    assert(decreases_to!(xsv@[k] => xsv@[k].1));
                    assert(decreases_to!(n0 => p.1));
                }
                let q = (p.0, sort_name_node(p.1));
                let ghost midpre = mid@;
                mid.push(q);
                proof {
                    let pre = members_model(ps0.subrange(0, k));
                    let now = members_model(ps0.subrange(0, k + 1));
                    assert(ps0.subrange(0, k + 1).drop_last() =~= ps0.subrange(0, k));
                    assert(now == pre.push((ps0[k].0@, node_model(ps0[k].1))));
                    assert(now.drop_last() =~= pre);
                    assert(sort_name_members(now) == sort_name_members(pre).push(
                        (ps0[k].0@, sort_name_model(node_model(ps0[k].1))),
                    ));
                    assert(mid@.drop_last() =~= midpre);
                    assert(members_model(mid@) == members_model(midpre).push(
                        (q.0@, node_model(q.1)),
                    ));
                }
            }
            proof {
                assert(ps0.subrange(0, ps0.len() as int) =~= ps0);
            }
            // Second pass: stable sort of the members by unquoted key.
            let ghost mid0 = mid@;
            let mut sorted: Vec<(String, Node)> = Vec::new();
            proof {
                lemma_members_model(mid0);
                assert(mid0.skip(0) =~= mid0);
                assert(members_model(mid0.subrange(0, 0)) =~= Seq::<(
                    Seq<char>,
                    NodeModel,
                )>::empty());
            }
            while mid.len() > 0
                invariant
                    mid@ == mid0.skip((mid0.len() - mid@.len()) as int),
                    mid@.len() <= mid0.len(),
                    members_model(sorted@) == stable_sort(
                        members_model(mid0.subrange(0, (mid0.len() - mid@.len()) as int)),
                        member_gt(),
                    ),
                decreases mid@.len(),
            {
                let ghost k = (mid0.len() - mid@.len()) as int;
                let p = mid.remove(0);
                proof {
                    assert(p == mid0[k]);
                    assert(mid@ =~= mid0.skip(k + 1));
                }
                insert_member_sorted(&mut sorted, p);
                proof {
                    let pre = members_model(mid0.subrange(0, k));
                    let now = members_model(mid0.subrange(0, k + 1));
                    assert(mid0.subrange(0, k + 1).drop_last() =~= mid0.subrange(0, k));
                    assert(now == pre.push((mid0[k].0@, node_model(mid0[k].1))));
                    assert(now.drop_last() =~= pre);
                    assert(stable_sort(now, member_gt()) == insert_sorted(
                        stable_sort(pre, member_gt()),
                        (mid0[k].0@, node_model(mid0[k].1)),
                        member_gt(),
                    ));
                }
            }
            proof {
                assert(mid0.subrange(0, mid0.len() as int) =~= mid0);
            }
            Node::Object(sorted)
        },
    }
}

#[verifier::loop_isolation(false)]
fn sort_value_node(n: Node, key: &str) -> (r: Node)
    ensures
        r@ == sort_value_model(n@, key@),
    decreases n,
{
    let ghost n0 = n;
    match n {
        Node::Value(s) => Node::Value(s),
        Node::Object(xs) => {
            let mut xs = xs;
            let ghost xsv = xs;
            let ghost ps0 = xs@;
            proof {
                assert(n0 == Node::Object(xsv));
                lemma_members_model(ps0);
                assert(ps0.skip(0) =~= ps0);
                assert(members_model(ps0.subrange(0, 0)) =~= Seq::<(
                    Seq<char>,
                    NodeModel,
                )>::empty());
            }
            // Member values are rewritten in place; the member order stays.
            let mut out: Vec<(String, Node)> = Vec::new();
            while xs.len() > 0
                invariant
                    out@.len() + xs@.len() == ps0.len(),
                    xs@ == ps0.skip(out@.len() as int),
                    members_model(out@) == sort_value_members(
                        members_model(ps0.subrange(0, out@.len() as int)),
                        key@,
                    ),
                decreases xs@.len(),
            {
                let ghost k = out@.len() as int;
                let p = xs.remove(0);
                proof {
                    assert(p == ps0[k]);
                    assert(xs@ =~= ps0.skip(k + 1));
                    assert(decreases_to!(n0 => n0->Object_0));
                    assert(n0->Object_0 == xsv);
                    assert(decreases_to!(xsv => xsv@));
                    assert(decreases_to!(xsv@ => xsv@[k]));
                    assert(decreases_to!(xsv@[k] => xsv@[k].1));
                    assert(decreases_to!(n0 => p.1));
                }
                let q = (p.0, sort_value_node(p.1, key));
                let ghost outpre = out@;
                out.push(q);
                proof {
                    let pre = members_model(ps0.subrange(0, k));
                    let now = members_model(ps0.subrange(0, k + 1));
                    assert(ps0.subrange(0, k + 1).drop_last() =~= ps0.subrange(0, k));
                    assert(now == pre.push((ps0[k].0@, node_model(ps0[k].1))));
                    assert(now.drop_last() =~= pre);
                    assert(sort_value_members(now, key@) == sort_value_members(pre, key@).push(
                        (ps0[k].0@, sort_value_model(node_model(ps0[k].1), key@)),
                    ));
                    assert(out@.drop_last() =~= outpre);
                    assert(members_model(out@) == members_model(outpre).push(
                        (q.0@, node_model(q.1)),
                    ));
                }
            }
            proof {
                assert(ps0.subrange(0, ps0.len() as int) =~= ps0);
            }
            Node::Object(out)
        },
        Node::Array(xs) => {
            let mut xs = xs;
            let ghost xsv = xs;
            let ghost es0 = xs@;
            proof {
                assert(n0 == Node::Array(xsv));
                lemma_elems_model(es0);
                assert(es0.skip(0) =~= es0);
                assert(elems_model(es0.subrange(0, 0)) =~= Seq::<NodeModel>::empty());
            }
            // First pass: rewrite every element.
            let mut mid: Vec<Node> = Vec::new();
            while xs.len() > 0
                invariant
                    mid@.len() + xs@.len() == es0.len(),
                    xs@ == es0.skip(mid@.len() as int),
                    elems_model(mid@) == sort_value_elems(
                        elems_model(es0.subrange(0, mid@.len() as int)),
                        key@,
                    ),
                decreases xs@.len(),
            {
                let ghost k = mid@.len() as int;
                let x = xs.remove(0);
                proof {
                    assert(x == es0[k]);
                    assert(xs@ =~= es0.skip(k + 1));
                    assert(decreases_to!(n0 => n0->Array_0));
                    assert(n0->Array_0 == xsv);
                    assert(decreases_to!(xsv => xsv@));
                    assert(decreases_to!(xsv@ => xsv@[k]));
                    assert(decreases_to!(n0 => x));
                }
                let y = sort_value_node(x, key);
                let ghost midpre = mid@;
                mid.push(y);
                proof {
                    let pre = elems_model(es0.subrange(0, k));
                    let now = elems_model(es0.subrange(0, k + 1));
                    assert(es0.subrange(0, k + 1).drop_last() =~= es0.subrange(0, k));
                    assert(now == pre.push(node_model(es0[k])));
                    assert(now.drop_last() =~= pre);
                    assert(sort_value_elems(now, key@) == sort_value_elems(pre, key@).push(
                        sort_value_model(node_model(es0[k]), key@),
                    ));
                    assert(mid@.drop_last() =~= midpre);
                    assert(elems_model(mid@) == elems_model(midpre).push(node_model(y)));
                }
            }
            proof {
                assert(es0.subrange(0, es0.len() as int) =~= es0);
            }
            // Second pass: stable sort of the elements by their sort values.
            let ghost mid0 = mid@;
            let mut sorted: Vec<Node> = Vec::new();
            proof {
                lemma_elems_model(mid0);
                assert(mid0.skip(0) =~= mid0);
                assert(elems_model(mid0.subrange(0, 0)) =~= Seq::<NodeModel>::empty());
            }
            while mid.len() > 0
                invariant
                    mid@ == mid0.skip((mid0.len() - mid@.len()) as int),
                    mid@.len() <= mid0.len(),
                    elems_model(sorted@) == stable_sort(
                        elems_model(mid0.subrange(0, (mid0.len() - mid@.len()) as int)),
                        element_gt(key@),
                    ),
                decreases mid@.len(),
            {
                let ghost k = (mid0.len() - mid@.len()) as int;
                let x = mid.remove(0);
                proof {
                    assert(x == mid0[k]);
                    assert(mid@ =~= mid0.skip(k + 1));
                }
                insert_element_sorted(&mut sorted, x, key);
                proof {
                    let pre = elems_model(mid0.subrange(0, k));
                    let now = elems_model(mid0.subrange(0, k + 1));
                    assert(mid0.subrange(0, k + 1).drop_last() =~= mid0.subrange(0, k));
                    assert(now == pre.push(node_model(mid0[k])));
                    assert(now.drop_last() =~= pre);
                    assert(stable_sort(now, element_gt(key@)) == insert_sorted(
                        stable_sort(pre, element_gt(key@)),
                        node_model(mid0[k]),
                        element_gt(key@),
                    ));
                }
            }
            proof {
                assert(mid0.subrange(0, mid0.len() as int) =~= mid0);
            }
            Node::Array(sorted)
        },
    }
}

impl Node {
    /// Recursively reorder, depth first and by a stable sort, the members
    /// of every object by their unquoted key text. Arrays keep their
    /// element order; scalars are untouched.
    pub fn sort_by_name(&mut self)
        ensures
            final(self)@ == sort_name_model(old(self)@),
    {
        let mut tmp = Node::Value(String::new());
        core::mem::swap(self, &mut tmp);
        *self = sort_name_node(tmp);
    }

    /// Recursively reorder, depth first and by a stable sort, the elements
    /// of every array by the value of the member whose unquoted key equals
    /// `name`. Elements without such a sort value keep their relative
    /// order; object member order is untouched.
    pub fn sort_by_value(&mut self, name: &str)
        ensures
            final(self)@ == sort_value_model(old(self)@, name@),
    {
        let mut tmp = Node::Value(String::new());
        core::mem::swap(self, &mut tmp);
        *self = sort_value_node(tmp, name);
    }
}

} // verus!
