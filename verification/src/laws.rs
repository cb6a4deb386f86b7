//! The laws the two sort transforms obey: each is idempotent, and neither
//! ever reorders elements whose sort keys the comparison cannot separate.

use vstd::prelude::*;

use crate::node::NodeModel;
use crate::sort::{element_gt, lemma_element_gt_asymmetric, lemma_lex_lt_asymmetric,
    lemma_member_gt_asymmetric, lookup_value, member_gt, sort_name_elems, sort_name_members,
    sort_name_model, sort_value_elems, sort_value_members, sort_value_model, unquote_text};
use crate::sorting::{lemma_sort_of_ordered_id, lemma_stable_sort_all, lemma_stable_sort_filter,
    lemma_stable_sort_ordered, stable_sort};

verus! {

pub proof fn lemma_sort_name_elems_index(es: Seq<NodeModel>)
    ensures
        sort_name_elems(es).len() == es.len(),
        forall|i: int|
            0 <= i < es.len() ==> sort_name_elems(es)[i] == sort_name_model(#[trigger] es[i]),
    decreases es.len(),
{
    if es.len() > 0 {
        lemma_sort_name_elems_index(es.drop_last());
        assert forall|i: int| 0 <= i < es.len() implies sort_name_elems(es)[i] == sort_name_model(
            #[trigger] es[i],
        ) by {
            if i < es.len() - 1 {
                assert(es.drop_last()[i] == es[i]);
                assert(sort_name_elems(es)[i] == sort_name_elems(es.drop_last())[i]);
            } else {
                assert(sort_name_elems(es)[i] == sort_name_model(es.last()));
            }
        }
    }
}

pub proof fn lemma_sort_name_members_index(ps: Seq<(Seq<char>, NodeModel)>)
    ensures
        sort_name_members(ps).len() == ps.len(),
        forall|i: int|
            0 <= i < ps.len() ==> sort_name_members(ps)[i] == ((#[trigger] ps[i]).0,
            sort_name_model(ps[i].1)),
    decreases ps.len(),
{
    if ps.len() > 0 {
        lemma_sort_name_members_index(ps.drop_last());
        assert forall|i: int| 0 <= i < ps.len() implies sort_name_members(ps)[i] == (
            (#[trigger] ps[i]).0,
            sort_name_model(ps[i].1),
        ) by {
            if i < ps.len() - 1 {
                assert(ps.drop_last()[i] == ps[i]);
                assert(sort_name_members(ps)[i] == sort_name_members(ps.drop_last())[i]);
            } else {
                assert(sort_name_members(ps)[i] == (ps.last().0, sort_name_model(ps.last().1)));
            }
        }
    }
}

pub proof fn lemma_sort_value_elems_index(es: Seq<NodeModel>, key: Seq<char>)
    ensures
        sort_value_elems(es, key).len() == es.len(),
        forall|i: int|
            0 <= i < es.len() ==> sort_value_elems(es, key)[i] == sort_value_model(
                #[trigger] es[i],
                key,
            ),
    decreases es.len(),
{
    if es.len() > 0 {
        lemma_sort_value_elems_index(es.drop_last(), key);
        assert forall|i: int| 0 <= i < es.len() implies sort_value_elems(es, key)[i]
            == sort_value_model(#[trigger] es[i], key) by {
            if i < es.len() - 1 {
                assert(es.drop_last()[i] == es[i]);
                assert(sort_value_elems(es, key)[i] == sort_value_elems(es.drop_last(), key)[i]);
            } else {
                assert(sort_value_elems(es, key)[i] == sort_value_model(es.last(), key));
            }
        }
    }
}

pub proof fn lemma_sort_value_members_index(ps: Seq<(Seq<char>, NodeModel)>, key: Seq<char>)
    ensures
        sort_value_members(ps, key).len() == ps.len(),
        forall|i: int|
            0 <= i < ps.len() ==> sort_value_members(ps, key)[i] == ((#[trigger] ps[i]).0,
            sort_value_model(ps[i].1, key)),
    decreases ps.len(),
{
    if ps.len() > 0 {
        lemma_sort_value_members_index(ps.drop_last(), key);
        assert forall|i: int| 0 <= i < ps.len() implies sort_value_members(ps, key)[i] == (
            (#[trigger] ps[i]).0,
            sort_value_model(ps[i].1, key),
        ) by {
            if i < ps.len() - 1 {
                assert(ps.drop_last()[i] == ps[i]);
                assert(sort_value_members(ps, key)[i] == sort_value_members(
                    ps.drop_last(),
                    key,
                )[i]);
            } else {
                assert(sort_value_members(ps, key)[i] == (ps.last().0, sort_value_model(
                    ps.last().1,
                    key,
                )));
            }
        }
    }
}

proof fn lemma_sort_name_members_fixed(qs: Seq<(Seq<char>, NodeModel)>)
    requires
        forall|i: int|
            0 <= i < qs.len() ==> sort_name_model((#[trigger] qs[i]).1) == qs[i].1,
    ensures
        sort_name_members(qs) == qs,
    decreases qs.len(),
{
    if qs.len() > 0 {
        let dl = qs.drop_last();
        assert(forall|i: int|
            0 <= i < dl.len() ==> sort_name_model((#[trigger] dl[i]).1) == dl[i].1) by {
            assert(forall|i: int| 0 <= i < dl.len() ==> dl[i] == qs[i]);
        }
        lemma_sort_name_members_fixed(dl);
        assert(qs.last() == qs[qs.len() - 1]);
        assert((qs.last().0, sort_name_model(qs.last().1)) == qs.last());
        assert(sort_name_members(qs) =~= qs);
    }
}

proof fn lemma_sort_value_elems_fixed(qs: Seq<NodeModel>, key: Seq<char>)
    requires
        forall|i: int| 0 <= i < qs.len() ==> sort_value_model(#[trigger] qs[i], key) == qs[i],
    ensures
        sort_value_elems(qs, key) == qs,
    decreases qs.len(),
{
    if qs.len() > 0 {
        let dl = qs.drop_last();
        assert(forall|i: int| 0 <= i < dl.len() ==> sort_value_model(#[trigger] dl[i], key)
            == dl[i]) by {
            assert(forall|i: int| 0 <= i < dl.len() ==> dl[i] == qs[i]);
        }
        lemma_sort_value_elems_fixed(dl, key);
        assert(qs.last() == qs[qs.len() - 1]);
        assert(sort_value_elems(qs, key) =~= qs);
    }
}

/// Sorting by name twice gives the same tree as sorting once.
pub proof fn lemma_sort_by_name_idempotent(m: NodeModel)
    ensures
        sort_name_model(sort_name_model(m)) == sort_name_model(m),
    decreases m,
{
    match m {
        NodeModel::Value(t) => {},
        NodeModel::Array(es) => {
            lemma_sort_name_elems_index(es);
            let fs = sort_name_elems(es);
            assert forall|i: int| 0 <= i < fs.len() implies sort_name_model(#[trigger] fs[i])
                == fs[i] by {
                lemma_sort_by_name_idempotent(es[i]);
            }
            lemma_sort_name_elems_index(fs);
            assert(sort_name_elems(fs) =~= fs);
        },
        NodeModel::Object(ps) => {
            lemma_sort_name_members_index(ps);
            let fs = sort_name_members(ps);
            assert forall|i: int| 0 <= i < fs.len() implies sort_name_model(
                (#[trigger] fs[i]).1,
            ) == fs[i].1 by {
                lemma_sort_by_name_idempotent(ps[i].1);
            }
            let q = stable_sort(fs, member_gt());
            lemma_member_gt_asymmetric();
            lemma_stable_sort_all(
                fs,
                member_gt(),
                |p: (Seq<char>, NodeModel)| sort_name_model(p.1) == p.1,
            );
            lemma_sort_name_members_fixed(q);
            lemma_stable_sort_ordered(fs, member_gt());
            lemma_sort_of_ordered_id(q, member_gt());
        },
    }
}

/// Sorting by the value of `key` twice gives the same tree as sorting
/// once.
pub proof fn lemma_sort_by_value_idempotent(m: NodeModel, key: Seq<char>)
    ensures
        sort_value_model(sort_value_model(m, key), key) == sort_value_model(m, key),
    decreases m,
{
    match m {
        NodeModel::Value(t) => {},
        NodeModel::Object(ps) => {
            lemma_sort_value_members_index(ps, key);
            let fs = sort_value_members(ps, key);
            assert forall|i: int| 0 <= i < fs.len() implies sort_value_model(
                (#[trigger] fs[i]).1,
                key,
            ) == fs[i].1 by {
                lemma_sort_by_value_idempotent(ps[i].1, key);
            }
            lemma_sort_value_members_index(fs, key);
            assert(sort_value_members(fs, key) =~= fs);
        },
        NodeModel::Array(es) => {
            lemma_sort_value_elems_index(es, key);
            let fs = sort_value_elems(es, key);
            assert forall|i: int| 0 <= i < fs.len() implies sort_value_model(
                #[trigger] fs[i],
                key,
            ) == fs[i] by {
                lemma_sort_by_value_idempotent(es[i], key);
            }
            let q = stable_sort(fs, element_gt(key));
            lemma_element_gt_asymmetric(key);
            lemma_stable_sort_all(fs, element_gt(key), |e: NodeModel| sort_value_model(e, key) == e);
            lemma_sort_value_elems_fixed(q, key);
            lemma_stable_sort_ordered(fs, element_gt(key));
            lemma_sort_of_ordered_id(q, element_gt(key));
        },
    }
}

/// The members an object keeps under one unquoted key.
pub open spec fn keyed(key: Seq<char>) -> spec_fn((Seq<char>, NodeModel)) -> bool {
    |p: (Seq<char>, NodeModel)| unquote_text(p.0) == key
}

/// Stability of `sort_by_name`: within one object, the members that share
/// an unquoted key keep their original relative order. The sequence
/// `sort_name_members(ps)` is `ps` with each value canonicalized in place,
/// so filtering it is filtering the original members.
pub proof fn lemma_sort_by_name_stable(ps: Seq<(Seq<char>, NodeModel)>, key: Seq<char>)
    ensures
        stable_sort(sort_name_members(ps), member_gt()).filter(keyed(key)) == sort_name_members(
            ps,
        ).filter(keyed(key)),
{
    assert forall|a: (Seq<char>, NodeModel), b: (Seq<char>, NodeModel)|
        keyed(key)(a) && keyed(key)(b) implies !#[trigger] member_gt()(a, b) by {
        lemma_lex_lt_asymmetric(unquote_text(b.0), unquote_text(b.0));
    }
    lemma_stable_sort_filter(sort_name_members(ps), member_gt(), keyed(key));
}

/// The elements whose sort value under `key` is `v`, together with those
/// that have none.
pub open spec fn valued_or_absent(key: Seq<char>, v: Seq<char>) -> spec_fn(NodeModel) -> bool {
    |m: NodeModel| lookup_value(m, key) is None || lookup_value(m, key) == Some(v)
}

/// Stability of `sort_by_value`: within one array, the elements whose sort
/// values the comparison treats as equal — they share the value `v`, or
/// have none at all — keep their original relative order.
pub proof fn lemma_sort_by_value_stable(es: Seq<NodeModel>, key: Seq<char>, v: Seq<char>)
    ensures
        stable_sort(sort_value_elems(es, key), element_gt(key)).filter(valued_or_absent(key, v))
            == sort_value_elems(es, key).filter(valued_or_absent(key, v)),
{
    assert forall|a: NodeModel, b: NodeModel|
        valued_or_absent(key, v)(a) && valued_or_absent(key, v)(b) implies !#[trigger] element_gt(
        key,
    )(a, b) by {
        if element_gt(key)(a, b) {
            lemma_lex_lt_asymmetric(
                unquote_text(lookup_value(b, key)->Some_0),
                unquote_text(lookup_value(b, key)->Some_0),
            );
        }
    }
    lemma_stable_sort_filter(sort_value_elems(es, key), element_gt(key), valued_or_absent(key, v));
}

} // verus!
