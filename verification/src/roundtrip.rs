//! Round-trip stability: formatting any tree the parser can produce and
//! parsing the result gives the same tree back.

use vstd::prelude::*;

use crate::format::{fmt, fmt_elems, fmt_member, fmt_members, indent_unit};
use crate::node::NodeModel;
use crate::sort::{element_gt, member_gt, sort_name_elems, sort_name_members, sort_name_model,
    sort_value_elems, sort_value_members, sort_value_model};
use crate::sorting::{lemma_stable_sort_all, stable_sort};
use crate::parse::{bareword_len, is_delim_char, is_word_char, is_ws_char, lemma_bareword_le,
    lemma_string_scan_le, lemma_ws_count_le, skip_ws, spec_elems, spec_members, spec_node,
    spec_parse, string_scan, ExpectedKind};

verus! {

/// A scalar token the parser could have produced: a quoted string whose
/// scan closes exactly at its final character, or a non-empty run of word
/// characters that does not begin with a quote.
pub open spec fn wf_value(t: Seq<char>) -> bool {
    t.len() > 0 && if t[0] == '"' {
        string_scan(t, 1, 0) == Some((t.len() - 1) as nat)
    } else {
        forall|k: int| 0 <= k < t.len() ==> is_word_char(#[trigger] t[k])
    }
}

/// An object key as stored: a quoted string, quotes included.
pub open spec fn wf_key(t: Seq<char>) -> bool {
    t.len() >= 2 && t[0] == '"' && string_scan(t, 1, 0) == Some((t.len() - 1) as nat)
}

/// A tree every one of whose tokens the parser could have produced.
pub open spec fn wf(m: NodeModel) -> bool
    decreases m,
{
    match m {
        NodeModel::Value(t) => wf_value(t),
        NodeModel::Array(es) => wf_elems(es),
        NodeModel::Object(ps) => wf_members(ps),
    }
}

pub open spec fn wf_elems(es: Seq<NodeModel>) -> bool
    decreases es,
{
    es.len() == 0 || (wf_elems(es.drop_last()) && wf(es.last()))
}

pub open spec fn wf_members(ps: Seq<(Seq<char>, NodeModel)>) -> bool
    decreases ps,
{
    ps.len() == 0 || (wf_members(ps.drop_last()) && wf_key(ps.last().0) && wf(ps.last().1))
}

pub proof fn lemma_wf_elems_index(es: Seq<NodeModel>)
    ensures
        wf_elems(es) <==> (forall|i: int| 0 <= i < es.len() ==> wf(#[trigger] es[i])),
    decreases es.len(),
{
    if es.len() > 0 {
        let dl = es.drop_last();
        lemma_wf_elems_index(dl);
        if wf_elems(es) {
            assert forall|i: int| 0 <= i < es.len() implies wf(#[trigger] es[i]) by {
                if i < es.len() - 1 {
                    assert(es[i] == dl[i]);
                    assert(wf(dl[i]));
                } else {
                    assert(es[i] == es.last());
                }
            }
        }
        if forall|i: int| 0 <= i < es.len() ==> wf(#[trigger] es[i]) {
            assert forall|i: int| 0 <= i < dl.len() implies wf(#[trigger] dl[i]) by {
                assert(dl[i] == es[i]);
            }
            assert(wf(es[es.len() - 1]));
            assert(wf_elems(es));
        }
    }
}

pub proof fn lemma_wf_members_index(ps: Seq<(Seq<char>, NodeModel)>)
    ensures
        wf_members(ps) <==> (forall|i: int|
            0 <= i < ps.len() ==> wf_key((#[trigger] ps[i]).0) && wf(ps[i].1)),
    decreases ps.len(),
{
    if ps.len() > 0 {
        let dl = ps.drop_last();
        lemma_wf_members_index(dl);
        if wf_members(ps) {
            assert forall|i: int| 0 <= i < ps.len() implies wf_key((#[trigger] ps[i]).0) && wf(
                ps[i].1,
            ) by {
                if i < ps.len() - 1 {
                    assert(ps[i] == dl[i]);
                    assert(wf_key(dl[i].0) && wf(dl[i].1));
                } else {
                    assert(ps[i] == ps.last());
                }
            }
        }
        if forall|i: int| 0 <= i < ps.len() ==> wf_key((#[trigger] ps[i]).0) && wf(ps[i].1) {
            assert forall|i: int| 0 <= i < dl.len() implies wf_key((#[trigger] dl[i]).0) && wf(
                dl[i].1,
            ) by {
                assert(dl[i] == ps[i]);
            }
            assert(wf_key(ps[ps.len() - 1].0) && wf(ps[ps.len() - 1].1));
            assert(wf_members(ps));
        }
    }
}

/// A string scan moves unchanged into an enclosing text.
proof fn lemma_scan_embed_fwd(u: Seq<char>, s: Seq<char>, off: int, q: int, bs: int)
    requires
        0 <= q <= u.len(),
        0 <= off,
        off + u.len() <= s.len(),
        forall|p: int| 0 <= p < u.len() ==> s[off + p] == #[trigger] u[p],
        string_scan(u, q, bs) is Some,
    ensures
        string_scan(s, off + q, bs) == string_scan(u, q, bs),
    decreases u.len() - q,
{
    assert(q < u.len());
    assert(s[off + q] == u[q]);
    if u[q] == '"' && bs != 1 {
    } else {
        let nbs: int = if u[q] == '\\' {
            if bs >= 1 {
                2
            } else {
                1
            }
        } else {
            0
        };
        lemma_scan_embed_fwd(u, s, off, q + 1, nbs);
    }
}

/// A string scan that stays inside a slice of the text holds of the slice.
proof fn lemma_scan_embed_back(u: Seq<char>, s: Seq<char>, off: int, q: int, bs: int)
    requires
        0 <= q,
        0 <= off,
        off + u.len() <= s.len(),
        forall|p: int| 0 <= p < u.len() ==> s[off + p] == #[trigger] u[p],
        string_scan(s, off + q, bs) is Some,
        q + string_scan(s, off + q, bs)->Some_0 <= u.len(),
    ensures
        string_scan(u, q, bs) == string_scan(s, off + q, bs),
    decreases u.len() - q,
{
    lemma_string_scan_le(s, off + q, bs);
    let k = string_scan(s, off + q, bs)->Some_0;
    assert(k >= 1);
    assert(q < u.len());
    assert(off + q < s.len());
    assert(s[off + q] == u[q]);
    if s[off + q] == '"' && bs != 1 {
    } else {
        let nbs: int = if s[off + q] == '\\' {
            if bs >= 1 {
                2
            } else {
                1
            }
        } else {
            0
        };
        assert(string_scan(s, off + q + 1, nbs) is Some);
        lemma_scan_embed_back(u, s, off, q + 1, nbs);
    }
}

/// Every character a whitespace skip passes over is whitespace, and it
/// stops at the first that is not.
proof fn lemma_ws_count_chars(s: Seq<char>, i: int)
    requires
        0 <= i <= s.len(),
    ensures
        forall|p: int| i <= p < skip_ws(s, i) ==> is_ws_char(#[trigger] s[p]),
        skip_ws(s, i) < s.len() ==> !is_ws_char(s[skip_ws(s, i)]),
        i <= skip_ws(s, i) <= s.len(),
    decreases s.len() - i,
{
    lemma_ws_count_le(s, i);
    if i < s.len() && is_ws_char(s[i]) {
        lemma_ws_count_chars(s, i + 1);
    }
}

/// Every character of the scalar run is a word character, and the run is
/// maximal.
proof fn lemma_bareword_chars(s: Seq<char>, i: int)
    requires
        0 <= i <= s.len(),
    ensures
        forall|p: int| i <= p < i + bareword_len(s, i) ==> is_word_char(#[trigger] s[p]),
        i + bareword_len(s, i) < s.len() ==> !is_word_char(s[i + bareword_len(s, i)]),
        i <= i + bareword_len(s, i) <= s.len(),
    decreases s.len() - i,
{
    lemma_bareword_le(s, i);
    if i < s.len() && is_word_char(s[i]) {
        lemma_bareword_chars(s, i + 1);
    }
}

/// Whitespace only.
pub open spec fn ws_seq(q: Seq<char>) -> bool {
    forall|p: int| 0 <= p < q.len() ==> is_ws_char(#[trigger] q[p])
}

/// A position at which a scalar token may end: the end of the text,
/// whitespace, or a structural character.
pub open spec fn stop_ok(s: Seq<char>, e: int) -> bool {
    e == s.len() || is_ws_char(s[e]) || is_delim_char(s[e])
}

/// A whitespace skip lands exactly at the end of a known whitespace run.
proof fn lemma_skip_ws_exact(s: Seq<char>, i: int, j: int)
    requires
        0 <= i <= j <= s.len(),
        forall|p: int| i <= p < j ==> is_ws_char(#[trigger] s[p]),
        j == s.len() || !is_ws_char(s[j]),
    ensures
        skip_ws(s, i) == j,
    decreases j - i,
{
    if i < j {
        assert(is_ws_char(s[i]));
        lemma_skip_ws_exact(s, i + 1, j);
    }
}

/// A scalar scan lands exactly at the end of a known word-character run.
proof fn lemma_bareword_exact(s: Seq<char>, j: int, e: int)
    requires
        0 <= j <= e <= s.len(),
        forall|p: int| j <= p < e ==> is_word_char(#[trigger] s[p]),
        e == s.len() || !is_word_char(s[e]),
    ensures
        j + bareword_len(s, j) == e,
    decreases e - j,
{
    if j < e {
        assert(is_word_char(s[j]));
        lemma_bareword_exact(s, j + 1, e);
    }
}

/// A leading indent is the indent in front of the bare rendering.
proof fn lemma_fmt_lead(m: NodeModel, ind: Seq<char>)
    ensures
        fmt(m, ind, true) == ind + fmt(m, ind, false),
{
    assert(fmt(m, ind, true) =~= ind + fmt(m, ind, false));
}

/// The bare rendering of a well-formed tree is non-empty, and its first
/// character is a word character, a quote, or an opening bracket.
proof fn lemma_fmt_head(m: NodeModel, ind: Seq<char>)
    requires
        wf(m),
    ensures
        fmt(m, ind, false).len() > 0,
        !is_ws_char(fmt(m, ind, false)[0]),
        fmt(m, ind, false)[0] != ']',
        fmt(m, ind, false)[0] != '}',
{
    let body = fmt(m, ind, false);
    match m {
        NodeModel::Value(t) => {
            assert(body =~= t);
            if t[0] == '"' {
                assert(!is_ws_char('"'));
            } else {
                assert(is_word_char(t[0]));
            }
        },
        NodeModel::Array(es) => {
            assert(body[0] == '[');
            assert(!is_ws_char('['));
        },
        NodeModel::Object(ps) => {
            assert(body[0] == '{');
            assert(!is_ws_char('{'));
        },
    }
}

/// A non-singleton element list renders as its first element, a separator,
/// then the rest.
proof fn lemma_fmt_elems_cons(es: Seq<NodeModel>, cind: Seq<char>)
    requires
        es.len() >= 2,
    ensures
        fmt_elems(es, cind) == fmt(es[0], cind, true) + seq![',', '\n'] + fmt_elems(
            es.drop_first(),
            cind,
        ),
    decreases es.len(),
{
    let df = es.drop_first();
    if es.len() == 2 {
        assert(es.drop_last() =~= seq![es[0]]);
        assert(fmt_elems(seq![es[0]], cind) == fmt(es[0], cind, true));
        assert(df =~= seq![es[1]]);
        assert(fmt_elems(df, cind) == fmt(df[0], cind, true));
        assert(df[0] == es.last());
    } else {
        let dl = es.drop_last();
        lemma_fmt_elems_cons(dl, cind);
        assert(dl[0] == es[0]);
        assert(dl.drop_first() =~= df.drop_last());
        assert(df.last() == es.last());
        assert(df.len() >= 2);
        assert(fmt_elems(df, cind) == fmt_elems(df.drop_last(), cind) + seq![',', '\n'] + fmt(
            df.last(),
            cind,
            true,
        ));
        assert(fmt_elems(es, cind) =~= fmt(es[0], cind, true) + seq![',', '\n'] + fmt_elems(
            df,
            cind,
        ));
    }
}

/// A non-singleton member list renders as its first member, a separator,
/// then the rest.
proof fn lemma_fmt_members_cons(ps: Seq<(Seq<char>, NodeModel)>, cind: Seq<char>)
    requires
        ps.len() >= 2,
    ensures
        fmt_members(ps, cind) == fmt_member(ps[0], cind) + seq![',', '\n'] + fmt_members(
            ps.drop_first(),
            cind,
        ),
    decreases ps.len(),
{
    let df = ps.drop_first();
    if ps.len() == 2 {
        assert(ps.drop_last() =~= seq![ps[0]]);
        assert(fmt_members(seq![ps[0]], cind) == fmt_member(ps[0], cind));
        assert(df =~= seq![ps[1]]);
        assert(fmt_members(df, cind) == fmt_member(df[0], cind));
        assert(df[0] == ps.last());
    } else {
        let dl = ps.drop_last();
        lemma_fmt_members_cons(dl, cind);
        assert(dl[0] == ps[0]);
        assert(dl.drop_first() =~= df.drop_last());
        assert(df.last() == ps.last());
        assert(df.len() >= 2);
        assert(fmt_members(df, cind) == fmt_members(df.drop_last(), cind) + seq![',', '\n']
            + fmt_member(df.last(), cind));
        assert(fmt_members(ps, cind) =~= fmt_member(ps[0], cind) + seq![',', '\n'] + fmt_members(
            df,
            cind,
        ));
    }
}

/// A rendered element list begins with the indent and then the head
/// character of its first element's own rendering.
proof fn lemma_fmt_elems_head(es: Seq<NodeModel>, cind: Seq<char>)
    requires
        es.len() > 0,
        wf_elems(es),
    ensures
        fmt_elems(es, cind).len() > cind.len(),
        forall|p: int| 0 <= p < cind.len() ==> fmt_elems(es, cind)[p] == #[trigger] cind[p],
        !is_ws_char(fmt_elems(es, cind)[cind.len() as int]),
        fmt_elems(es, cind)[cind.len() as int] != ']',
        fmt_elems(es, cind)[cind.len() as int] != '}',
{
    lemma_wf_elems_index(es);
    assert(wf(es[0]));
    lemma_fmt_head(es[0], cind);
    lemma_fmt_lead(es[0], cind);
    let c0 = fmt(es[0], cind, true);
    let body0 = fmt(es[0], cind, false);
    assert(c0 == cind + body0);
    assert(c0[cind.len() as int] == body0[0]);
    if es.len() == 1 {
        assert(fmt_elems(es, cind) == c0);
    } else {
        lemma_fmt_elems_cons(es, cind);
        assert(forall|p: int|
            0 <= p < c0.len() ==> #[trigger] fmt_elems(es, cind)[p] == c0[p]);
    }
}

/// A rendered member list begins with the indent and then the opening
/// quote of its first member's key.
proof fn lemma_fmt_members_head(ps: Seq<(Seq<char>, NodeModel)>, cind: Seq<char>)
    requires
        ps.len() > 0,
        wf_members(ps),
    ensures
        fmt_members(ps, cind).len() > cind.len(),
        forall|p: int| 0 <= p < cind.len() ==> fmt_members(ps, cind)[p] == #[trigger] cind[p],
        fmt_members(ps, cind)[cind.len() as int] == '"',
{
    lemma_wf_members_index(ps);
    assert(wf_key(ps[0].0));
    let m0 = fmt_member(ps[0], cind);
    assert(m0[cind.len() as int] == ps[0].0[0]);
    if ps.len() == 1 {
        assert(fmt_members(ps, cind) == m0);
    } else {
        lemma_fmt_members_cons(ps, cind);
        assert(forall|p: int|
            0 <= p < m0.len() ==> #[trigger] fmt_members(ps, cind)[p] == m0[p]);
    }
}

/// A rendered tree embedded in a larger text, preceded by whitespace and
/// followed by a token boundary, parses back to exactly that tree.
pub proof fn lemma_parse_of_fmt(s: Seq<char>, i: int, j: int, m: NodeModel, ind: Seq<char>)
    requires
        wf(m),
        ws_seq(ind),
        0 <= i <= j,
        j + fmt(m, ind, false).len() <= s.len(),
        forall|p: int| i <= p < j ==> is_ws_char(#[trigger] s[p]),
        forall|p: int|
            0 <= p < fmt(m, ind, false).len() ==> s[j + p] == #[trigger] fmt(m, ind, false)[p],
        stop_ok(s, j + fmt(m, ind, false).len()),
    ensures
        spec_node(s, i) == Ok::<(NodeModel, int), (int, ExpectedKind)>(
            (m, j + fmt(m, ind, false).len()),
        ),
    decreases m,
{
    let body = fmt(m, ind, false);
    let e = j + body.len();
    lemma_fmt_head(m, ind);
    assert(s[j] == body[0]);
    lemma_skip_ws_exact(s, i, j);
    match m {
        NodeModel::Value(t) => {
            assert(body =~= t);
            if t[0] == '"' {
                assert(s[j] == '"');
                lemma_scan_embed_fwd(t, s, j, 1, 0);
                assert(string_scan(s, j + 1, 0) == Some((t.len() - 1) as nat));
                assert(s.subrange(j, j + 1 + (t.len() - 1)) =~= t);
            } else {
                assert(is_word_char(t[0]));
                assert forall|p: int| j <= p < e implies is_word_char(#[trigger] s[p]) by {
                    assert(s[p] == t[p - j]);
                    assert(is_word_char(t[p - j]));
                }
                lemma_bareword_exact(s, j, e);
                assert(s.subrange(j, j + bareword_len(s, j)) =~= t);
            }
        },
        NodeModel::Array(es) => {
            if es.len() == 0 {
                assert(body =~= seq!['[', ']']);
                assert(s[j] == '[');
                assert(s[j + 1] == ']') by {
                    assert(body[1] == ']');
                }
                assert(!is_ws_char(']'));
                lemma_skip_ws_exact(s, j + 1, j + 1);
                assert(es =~= Seq::<NodeModel>::empty());
            } else {
                let cind = ind + indent_unit();
                let chunk = fmt_elems(es, cind);
                let l = chunk.len() as int;
                let ilen = ind.len() as int;
                assert(ws_seq(cind)) by {
                    assert forall|p: int| 0 <= p < cind.len() implies is_ws_char(
                        #[trigger] cind[p],
                    ) by {
                        if p < ind.len() {
                            assert(cind[p] == ind[p]);
                        } else {
                            assert(cind[p] == indent_unit()[p - ind.len()]);
                            assert(is_ws_char(' '));
                        }
                    }
                }
                assert(body == seq!['[', '\n'] + chunk + seq!['\n'] + ind + seq![']']);
                assert(body.len() == 4 + l + ilen);
                assert(s[j] == '[');
                assert(s[j + 1] == '\n') by {
                    assert(body[1] == '\n');
                }
                assert forall|p: int| 0 <= p < l implies s[j + 2 + p] == #[trigger] chunk[p] by {
                    assert(body[2 + p] == chunk[p]);
                    assert(s[j + (2 + p)] == body[2 + p]);
                }
                assert(s[j + 2 + l] == '\n') by {
                    assert(body[2 + l] == '\n');
                }
                let z = j + 3 + l + ilen;
                assert forall|p: int| j + 2 + l <= p < z implies is_ws_char(#[trigger] s[p]) by {
                    if p == j + 2 + l {
                        assert(is_ws_char('\n'));
                    } else {
                        assert(body[p - j] == ind[p - j - 3 - l]);
                        assert(s[p] == body[p - j]);
                    }
                }
                assert(s[z] == ']') by {
                    assert(body[3 + l + ilen] == ']');
                }
                // the position after `[` skips to the head of the first
                // element, which is not `]`
                lemma_fmt_elems_head(es, cind);
                let j2 = j + 2 + cind.len();
                assert forall|p: int| j + 1 <= p < j2 implies is_ws_char(#[trigger] s[p]) by {
                    if p == j + 1 {
                        assert(is_ws_char('\n'));
                    } else {
                        assert(s[p] == chunk[p - j - 2]);
                        assert(chunk[p - j - 2] == cind[p - j - 2]);
                    }
                }
                assert(s[j2] == chunk[cind.len() as int]);
                lemma_skip_ws_exact(s, j + 1, j2);
                assert(s[j2] != ']');
                lemma_parse_of_fmt_elems(s, j + 1, j + 2, es, cind, z);
                assert(spec_elems(s, j + 1) == Ok::<(Seq<NodeModel>, int), (int, ExpectedKind)>(
                    (es, z + 1),
                ));
                assert(z + 1 == e);
            }
        },
        NodeModel::Object(ps) => {
            if ps.len() == 0 {
                assert(body =~= seq!['{', '}']);
                assert(s[j] == '{');
                assert(s[j + 1] == '}') by {
                    assert(body[1] == '}');
                }
                assert(!is_ws_char('}'));
                lemma_skip_ws_exact(s, j + 1, j + 1);
                assert(ps =~= Seq::<(Seq<char>, NodeModel)>::empty());
            } else {
                let cind = ind + indent_unit();
                let chunk = fmt_members(ps, cind);
                let l = chunk.len() as int;
                let ilen = ind.len() as int;
                assert(ws_seq(cind)) by {
                    assert forall|p: int| 0 <= p < cind.len() implies is_ws_char(
                        #[trigger] cind[p],
                    ) by {
                        if p < ind.len() {
                            assert(cind[p] == ind[p]);
                        } else {
                            assert(cind[p] == indent_unit()[p - ind.len()]);
                            assert(is_ws_char(' '));
                        }
                    }
                }
                assert(body == seq!['{', '\n'] + chunk + seq!['\n'] + ind + seq!['}']);
                assert(body.len() == 4 + l + ilen);
                assert(s[j] == '{');
                assert(s[j + 1] == '\n') by {
                    assert(body[1] == '\n');
                }
                assert forall|p: int| 0 <= p < l implies s[j + 2 + p] == #[trigger] chunk[p] by {
                    assert(body[2 + p] == chunk[p]);
                    assert(s[j + (2 + p)] == body[2 + p]);
                }
                assert(s[j + 2 + l] == '\n') by {
                    assert(body[2 + l] == '\n');
                }
                let z = j + 3 + l + ilen;
                assert forall|p: int| j + 2 + l <= p < z implies is_ws_char(#[trigger] s[p]) by {
                    if p == j + 2 + l {
                        assert(is_ws_char('\n'));
                    } else {
                        assert(body[p - j] == ind[p - j - 3 - l]);
                        assert(s[p] == body[p - j]);
                    }
                }
                assert(s[z] == '}') by {
                    assert(body[3 + l + ilen] == '}');
                }
                lemma_fmt_members_head(ps, cind);
                let j2 = j + 2 + cind.len();
                assert forall|p: int| j + 1 <= p < j2 implies is_ws_char(#[trigger] s[p]) by {
                    if p == j + 1 {
                        assert(is_ws_char('\n'));
                    } else {
                        assert(s[p] == chunk[p - j - 2]);
                        assert(chunk[p - j - 2] == cind[p - j - 2]);
                    }
                }
                assert(s[j2] == chunk[cind.len() as int]);
                assert(!is_ws_char('"'));
                lemma_skip_ws_exact(s, j + 1, j2);
                assert(s[j2] != '}');
                lemma_parse_of_fmt_members(s, j + 1, j + 2, ps, cind, z);
                assert(spec_members(s, j + 1) == Ok::<
                    (Seq<(Seq<char>, NodeModel)>, int),
                    (int, ExpectedKind),
                >((ps, z + 1)));
                assert(z + 1 == e);
            }
        },
    }
}

/// Every tree the parser returns is well formed.
pub proof fn lemma_spec_node_wf(s: Seq<char>, i: int)
    requires
        0 <= i <= s.len(),
    ensures
        spec_node(s, i) matches Ok((m, p)) ==> wf(m),
    decreases s.len() - i, 0int,
{
    lemma_ws_count_le(s, i);
    let j = skip_ws(s, i);
    if j < s.len() {
        if s[j] == '{' {
            lemma_ws_count_le(s, j + 1);
            crate::parse::lemma_spec_members_range(s, j + 1);
            lemma_spec_members_wf(s, j + 1);
            let j2 = skip_ws(s, j + 1);
            if j2 < s.len() && s[j2] == '}' {
                assert(wf(NodeModel::Object(Seq::empty())));
            } else {
                match spec_members(s, j + 1) {
                    Ok((ms, e)) => {
                        assert(wf(NodeModel::Object(ms)));
                    },
                    Err(f) => {},
                }
            }
        } else if s[j] == '[' {
            lemma_ws_count_le(s, j + 1);
            crate::parse::lemma_spec_elems_range(s, j + 1);
            lemma_spec_elems_wf(s, j + 1);
            let j2 = skip_ws(s, j + 1);
            if j2 < s.len() && s[j2] == ']' {
                assert(wf(NodeModel::Array(Seq::empty())));
            } else {
                match spec_elems(s, j + 1) {
                    Ok((es, e)) => {
                        assert(wf(NodeModel::Array(es)));
                    },
                    Err(f) => {},
                }
            }
        } else if s[j] == '"' {
            match string_scan(s, j + 1, 0) {
                Some(k) => {
                    lemma_string_scan_le(s, j + 1, 0);
                    let t = s.subrange(j, j + 1 + k);
                    assert(t[0] == '"');
                    assert(forall|p: int| 0 <= p < t.len() ==> s[j + p] == #[trigger] t[p]);
                    lemma_scan_embed_back(t, s, j, 1, 0);
                    assert(string_scan(t, 1, 0) == Some(k));
                    assert(t.len() - 1 == k);
                    assert(wf_value(t));
                },
                None => {},
            }
        } else if !is_delim_char(s[j]) {
            lemma_ws_count_chars(s, i);
            assert(!is_ws_char(s[j]));
            assert(is_word_char(s[j]));
            let l = bareword_len(s, j);
            lemma_bareword_chars(s, j);
            let t = s.subrange(j, j + l);
            assert(l >= 1);
            assert(t[0] == s[j]);
            assert(t[0] != '"');
            assert(forall|k: int| 0 <= k < t.len() ==> is_word_char(#[trigger] t[k])) by {
                assert(forall|k: int| 0 <= k < t.len() ==> #[trigger] t[k] == s[j + k]);
            }
            assert(wf_value(t));
        }
    }
}

pub proof fn lemma_spec_members_wf(s: Seq<char>, i: int)
    requires
        0 <= i <= s.len(),
    ensures
        spec_members(s, i) matches Ok((ms, p)) ==> wf_members(ms),
    decreases s.len() - i, 1int,
{
    lemma_ws_count_le(s, i);
    let j = skip_ws(s, i);
    if !(j >= s.len() || s[j] != '"') {
        match string_scan(s, j + 1, 0) {
            None => {},
            Some(k) => {
                lemma_string_scan_le(s, j + 1, 0);
                let key = s.subrange(j, j + 1 + k);
                assert(wf_key(key)) by {
                    assert(key[0] == '"');
                    assert(forall|p: int| 0 <= p < key.len() ==> s[j + p] == #[trigger] key[p]);
                    lemma_scan_embed_back(key, s, j, 1, 0);
                }
                lemma_ws_count_le(s, j + 1 + k);
                let c = skip_ws(s, j + 1 + k);
                if !(c >= s.len() || s[c] != ':') {
                    crate::parse::lemma_spec_node_range(s, c + 1);
                    lemma_spec_node_wf(s, c + 1);
                    match spec_node(s, c + 1) {
                        Err(f) => {},
                        Ok((m, p0)) => {
                            let p = if p0 < c + 2 {
                                c + 2
                            } else {
                                p0
                            };
                            lemma_ws_count_le(s, p);
                            let q = skip_ws(s, p);
                            if q < s.len() && s[q] == '}' {
                                let ms = seq![(key, m)];
                                lemma_wf_members_index(ms);
                                assert(ms[0] == (key, m));
                                assert(wf_members(ms));
                            } else if q < s.len() && s[q] == ',' {
                                lemma_spec_members_wf(s, q + 1);
                                match spec_members(s, q + 1) {
                                    Ok((ms2, e)) => {
                                        let ms = seq![(key, m)] + ms2;
                                        lemma_wf_members_index(ms2);
                                        lemma_wf_members_index(ms);
                                        assert(ms[0] == (key, m));
                                        assert(forall|t: int|
                                            0 <= t < ms2.len() ==> ms[t + 1] == #[trigger] ms2[t]);
                                        assert forall|t: int| 0 <= t < ms.len() implies wf_key(
                                            (#[trigger] ms[t]).0,
                                        ) && wf(ms[t].1) by {
                                            if t > 0 {
                                                assert(ms[(t - 1) + 1] == ms2[t - 1]);
                                            }
                                        }
                                    },
                                    Err(f) => {},
                                }
                            }
                        },
                    }
                }
            },
        }
    }
}

/// A rendered element list embedded in a larger text, followed by
/// whitespace and the closing bracket, parses back to exactly those
/// elements.
proof fn lemma_parse_of_fmt_elems(
    s: Seq<char>,
    i: int,
    j: int,
    es: Seq<NodeModel>,
    cind: Seq<char>,
    z: int,
)
    requires
        wf_elems(es),
        es.len() > 0,
        ws_seq(cind),
        0 <= i <= j,
        j + fmt_elems(es, cind).len() <= z < s.len(),
        forall|p: int| i <= p < j ==> is_ws_char(#[trigger] s[p]),
        forall|p: int|
            0 <= p < fmt_elems(es, cind).len() ==> s[j + p] == #[trigger] fmt_elems(es, cind)[p],
        forall|p: int| j + fmt_elems(es, cind).len() <= p < z ==> is_ws_char(#[trigger] s[p]),
        s[z] == ']',
    ensures
        spec_elems(s, i) == Ok::<(Seq<NodeModel>, int), (int, ExpectedKind)>((es, z + 1)),
    decreases es,
{
    let chunk = fmt_elems(es, cind);
    lemma_wf_elems_index(es);
    assert(wf(es[0]));
    let body0 = fmt(es[0], cind, false);
    lemma_fmt_lead(es[0], cind);
    lemma_fmt_head(es[0], cind);
    let c0 = fmt(es[0], cind, true);
    assert(c0 == cind + body0);
    let jb = j + cind.len();
    let e0 = j + c0.len();
    assert(e0 == jb + body0.len());
    if es.len() == 1 {
        assert(chunk == c0);
        assert forall|p: int| i <= p < jb implies is_ws_char(#[trigger] s[p]) by {
            if p >= j {
                assert(s[p] == chunk[p - j]);
                assert(chunk[p - j] == cind[p - j]);
            }
        }
        assert forall|p: int| 0 <= p < body0.len() implies s[jb + p] == #[trigger] body0[p] by {
            assert(s[j + (cind.len() + p)] == chunk[cind.len() + p]);
            assert(chunk[cind.len() + p] == body0[p]);
        }
        assert(stop_ok(s, e0)) by {
            if e0 < z {
                assert(is_ws_char(s[e0]));
            } else {
                assert(e0 == z);
                assert(is_delim_char(']'));
            }
        }
        lemma_parse_of_fmt(s, i, jb, es[0], cind);
        assert(spec_node(s, i) == Ok::<(NodeModel, int), (int, ExpectedKind)>((es[0], e0)));
        assert(!is_ws_char(']'));
        lemma_skip_ws_exact(s, e0, z);
        assert(seq![es[0]] =~= es);
    } else {
        lemma_fmt_elems_cons(es, cind);
        let df = es.drop_first();
        let rest = fmt_elems(df, cind);
        assert(chunk == c0 + seq![',', '\n'] + rest);
        assert(chunk.len() == c0.len() + 2 + rest.len());
        assert forall|p: int| 0 <= p < c0.len() implies s[j + p] == #[trigger] c0[p] by {
            assert(chunk[p] == c0[p]);
            assert(s[j + p] == chunk[p]);
        }
        assert(s[e0] == ',') by {
            assert(chunk[c0.len() as int] == ',');
        }
        assert(s[e0 + 1] == '\n') by {
            assert(chunk[c0.len() as int + 1] == '\n');
        }
        assert forall|p: int| 0 <= p < rest.len() implies s[(e0 + 2) + p] == #[trigger] rest[p] by {
            assert(chunk[(c0.len() + 2) + p] == rest[p]);
            assert(s[j + ((c0.len() + 2) + p)] == chunk[(c0.len() + 2) + p]);
        }
        assert forall|p: int| i <= p < jb implies is_ws_char(#[trigger] s[p]) by {
            if p >= j {
                assert(s[p] == c0[p - j]);
                assert(c0[p - j] == cind[p - j]);
            }
        }
        assert forall|p: int| 0 <= p < body0.len() implies s[jb + p] == #[trigger] body0[p] by {
            assert(s[j + (cind.len() + p)] == c0[cind.len() + p]);
            assert(c0[cind.len() + p] == body0[p]);
        }
        assert(stop_ok(s, e0)) by {
            assert(is_delim_char(','));
        }
        lemma_parse_of_fmt(s, i, jb, es[0], cind);
        assert(spec_node(s, i) == Ok::<(NodeModel, int), (int, ExpectedKind)>((es[0], e0)));
        assert(!is_ws_char(','));
        lemma_skip_ws_exact(s, e0, e0);
        assert(wf_elems(df)) by {
            lemma_wf_elems_index(df);
            assert forall|t: int| 0 <= t < df.len() implies wf(#[trigger] df[t]) by {
                assert(df[t] == es[t + 1]);
            }
        }
        assert(is_ws_char('\n'));
        lemma_parse_of_fmt_elems(s, e0 + 1, e0 + 2, df, cind, z);
        assert(spec_elems(s, e0 + 1) == Ok::<(Seq<NodeModel>, int), (int, ExpectedKind)>(
            (df, z + 1),
        ));
        assert(seq![es[0]] + df =~= es);
    }
}

/// A rendered member list embedded in a larger text, followed by
/// whitespace and the closing brace, parses back to exactly those
/// members.
proof fn lemma_parse_of_fmt_members(
    s: Seq<char>,
    i: int,
    j: int,
    ps: Seq<(Seq<char>, NodeModel)>,
    cind: Seq<char>,
    z: int,
)
    requires
        wf_members(ps),
        ps.len() > 0,
        ws_seq(cind),
        0 <= i <= j,
        j + fmt_members(ps, cind).len() <= z < s.len(),
        forall|p: int| i <= p < j ==> is_ws_char(#[trigger] s[p]),
        forall|p: int|
            0 <= p < fmt_members(ps, cind).len() ==> s[j + p] == #[trigger] fmt_members(
                ps,
                cind,
            )[p],
        forall|p: int| j + fmt_members(ps, cind).len() <= p < z ==> is_ws_char(#[trigger] s[p]),
        s[z] == '}',
    ensures
        spec_members(s, i) == Ok::<(Seq<(Seq<char>, NodeModel)>, int), (int, ExpectedKind)>(
            (ps, z + 1),
        ),
    decreases ps,
{
    let chunk = fmt_members(ps, cind);
    lemma_wf_members_index(ps);
    assert(wf_key(ps[0].0) && wf(ps[0].1));
    let key = ps[0].0;
    let m0 = ps[0].1;
    let klen = key.len() as int;
    let mem0 = fmt_member(ps[0], cind);
    let vbody = fmt(m0, cind, false);
    assert(mem0 == cind + key + seq![':', ' '] + vbody);
    assert(mem0.len() == cind.len() + klen + 2 + vbody.len());
    let jm = j + cind.len();
    let kend = jm + klen;
    let e0 = j + mem0.len();
    assert(e0 == kend + 2 + vbody.len());
    assert(mem0.len() <= chunk.len()) by {
        if ps.len() > 1 {
            lemma_fmt_members_cons(ps, cind);
        }
    }
    assert(e0 <= z);
    // the pieces of the first member, as characters of `s`
    assert forall|p: int| 0 <= p < mem0.len() implies s[j + p] == #[trigger] mem0[p] by {
        if ps.len() == 1 {
            assert(chunk == mem0);
            assert(s[j + p] == chunk[p]);
        } else {
            lemma_fmt_members_cons(ps, cind);
            assert(chunk[p] == mem0[p]);
            assert(s[j + p] == chunk[p]);
        }
    }
    assert forall|p: int| i <= p < jm implies is_ws_char(#[trigger] s[p]) by {
        if p >= j {
            assert(s[p] == mem0[p - j]);
            assert(mem0[p - j] == cind[p - j]);
        }
    }
    assert forall|p: int| 0 <= p < klen implies s[jm + p] == #[trigger] key[p] by {
        assert(s[j + (cind.len() + p)] == mem0[cind.len() + p]);
        assert(mem0[cind.len() + p] == key[p]);
    }
    assert(s[jm] == '"');
    assert(!is_ws_char('"'));
    lemma_skip_ws_exact(s, i, jm);
    lemma_scan_embed_fwd(key, s, jm, 1, 0);
    assert(string_scan(s, jm + 1, 0) == Some((klen - 1) as nat));
    assert(jm + 1 + (klen - 1) == kend);
    assert(s.subrange(jm, kend) =~= key);
    assert(s[kend] == ':') by {
        assert(mem0[cind.len() + klen] == ':');
    }
    assert(s[kend + 1] == ' ') by {
        assert(mem0[cind.len() + klen + 1] == ' ');
    }
    assert(!is_ws_char(':'));
    lemma_skip_ws_exact(s, kend, kend);
    assert forall|p: int| 0 <= p < vbody.len() implies s[(kend + 2) + p] == #[trigger] vbody[p] by {
        assert(s[j + ((cind.len() + klen + 2) + p)] == mem0[(cind.len() + klen + 2) + p]);
        assert(mem0[(cind.len() + klen + 2) + p] == vbody[p]);
    }
    assert(is_ws_char(' '));
    if ps.len() == 1 {
        assert(chunk == mem0);
        assert(stop_ok(s, e0)) by {
            if e0 < z {
                assert(is_ws_char(s[e0]));
            } else {
                assert(e0 == z);
                assert(is_delim_char('}'));
            }
        }
        lemma_parse_of_fmt(s, kend + 1, kend + 2, m0, cind);
        assert(spec_node(s, kend + 1) == Ok::<(NodeModel, int), (int, ExpectedKind)>((m0, e0)));
        assert(!is_ws_char('}'));
        lemma_skip_ws_exact(s, e0, z);
        assert((s.subrange(jm, kend), m0) == ps[0]) by {
            assert(s.subrange(jm, kend) == key);
            assert((key, m0) =~= ps[0]);
        }
        assert(seq![(s.subrange(jm, kend), m0)] =~= ps);
    } else {
        lemma_fmt_members_cons(ps, cind);
        let df = ps.drop_first();
        let rest = fmt_members(df, cind);
        assert(chunk == mem0 + seq![',', '\n'] + rest);
        assert(chunk.len() == mem0.len() + 2 + rest.len());
        assert(s[e0] == ',') by {
            assert(chunk[mem0.len() as int] == ',');
            assert(s[j + mem0.len()] == chunk[mem0.len() as int]);
        }
        assert(s[e0 + 1] == '\n') by {
            assert(chunk[mem0.len() as int + 1] == '\n');
            assert(s[j + mem0.len() + 1] == chunk[mem0.len() as int + 1]);
        }
        assert forall|p: int| 0 <= p < rest.len() implies s[(e0 + 2) + p] == #[trigger] rest[p] by {
            assert(chunk[(mem0.len() + 2) + p] == rest[p]);
            assert(s[j + ((mem0.len() + 2) + p)] == chunk[(mem0.len() + 2) + p]);
        }
        assert(stop_ok(s, e0)) by {
            assert(is_delim_char(','));
        }
        lemma_parse_of_fmt(s, kend + 1, kend + 2, m0, cind);
        assert(spec_node(s, kend + 1) == Ok::<(NodeModel, int), (int, ExpectedKind)>((m0, e0)));
        assert(!is_ws_char(','));
        lemma_skip_ws_exact(s, e0, e0);
        assert(wf_members(df)) by {
            lemma_wf_members_index(df);
            assert forall|t: int| 0 <= t < df.len() implies wf_key((#[trigger] df[t]).0) && wf(
                df[t].1,
            ) by {
                assert(df[t] == ps[t + 1]);
            }
        }
        assert(is_ws_char('\n'));
        lemma_parse_of_fmt_members(s, e0 + 1, e0 + 2, df, cind, z);
        assert(spec_members(s, e0 + 1) == Ok::<
            (Seq<(Seq<char>, NodeModel)>, int),
            (int, ExpectedKind),
        >((df, z + 1)));
        assert((s.subrange(jm, kend), m0) == ps[0]) by {
            assert(s.subrange(jm, kend) == key);
            assert((key, m0) =~= ps[0]);
        }
        assert(seq![(s.subrange(jm, kend), m0)] + df =~= ps);
    }
}

pub proof fn lemma_spec_elems_wf(s: Seq<char>, i: int)
    requires
        0 <= i <= s.len(),
    ensures
        spec_elems(s, i) matches Ok((es, p)) ==> wf_elems(es),
    decreases s.len() - i, 1int,
{
    crate::parse::lemma_spec_node_range(s, i);
    lemma_spec_node_wf(s, i);
    match spec_node(s, i) {
        Err(f) => {},
        Ok((m, p0)) => {
            let p = if p0 < i + 1 {
                i + 1
            } else {
                p0
            };
            lemma_ws_count_le(s, p);
            let q = skip_ws(s, p);
            if q < s.len() && s[q] == ']' {
                let es = seq![m];
                lemma_wf_elems_index(es);
                assert(es[0] == m);
                assert(wf_elems(es));
            } else if q < s.len() && s[q] == ',' {
                lemma_spec_elems_wf(s, q + 1);
                match spec_elems(s, q + 1) {
                    Ok((es2, e)) => {
                        let es = seq![m] + es2;
                        lemma_wf_elems_index(es2);
                        lemma_wf_elems_index(es);
                        assert(es[0] == m);
                        assert(forall|t: int| 0 <= t < es2.len() ==> es[t + 1] == #[trigger] es2[t]);
                        assert forall|t: int| 0 <= t < es.len() implies wf(#[trigger] es[t]) by {
                            if t > 0 {
                                assert(es[(t - 1) + 1] == es2[t - 1]);
                            }
                        }
                    },
                    Err(f) => {},
                }
            }
        },
    }
}


/// Round-trip stability: the canonical rendering of a well-formed tree
/// parses back to exactly that tree.
pub proof fn lemma_format_parse_round_trip(m: NodeModel)
    requires
        wf(m),
    ensures
        spec_parse(fmt(m, Seq::empty(), false)) == Ok::<NodeModel, (int, ExpectedKind)>(m),
{
    let s = fmt(m, Seq::empty(), false);
    lemma_fmt_head(m, Seq::empty());
    assert(ws_seq(Seq::<char>::empty()));
    assert(forall|p: int| 0 <= p < s.len() ==> s[0 + p] == #[trigger] s[p]);
    assert(stop_ok(s, s.len() as int));
    lemma_parse_of_fmt(s, 0, 0, m, Seq::empty());
}

/// Round-trip stability for every tree the parser actually produces:
/// parsing, formatting, and parsing again gives the first tree.
pub proof fn lemma_parse_format_parse(s: Seq<char>)
    requires
        spec_parse(s) is Ok,
    ensures
        spec_parse(fmt(spec_parse(s)->Ok_0, Seq::empty(), false)) == Ok::<
            NodeModel,
            (int, ExpectedKind),
        >(spec_parse(s)->Ok_0),
{
    lemma_spec_node_wf(s, 0);
    lemma_format_parse_round_trip(spec_parse(s)->Ok_0);
}

/// Sorting by name never invents or damages a token, so a tree that could
/// round-trip still can after the sort.
pub proof fn lemma_sort_by_name_preserves_wf(m: NodeModel)
    requires
        wf(m),
    ensures
        wf(sort_name_model(m)),
    decreases m,
{
    match m {
        NodeModel::Value(t) => {},
        NodeModel::Array(es) => {
            lemma_wf_elems_index(es);
            crate::laws::lemma_sort_name_elems_index(es);
            let fs = sort_name_elems(es);
            assert forall|i: int| 0 <= i < fs.len() implies wf(#[trigger] fs[i]) by {
                lemma_sort_by_name_preserves_wf(es[i]);
            }
            lemma_wf_elems_index(fs);
        },
        NodeModel::Object(ps) => {
            lemma_wf_members_index(ps);
            crate::laws::lemma_sort_name_members_index(ps);
            let fs = sort_name_members(ps);
            assert forall|i: int| 0 <= i < fs.len() implies wf_key((#[trigger] fs[i]).0) && wf(
                fs[i].1,
            ) by {
                lemma_sort_by_name_preserves_wf(ps[i].1);
            }
            let q = stable_sort(fs, member_gt());
            lemma_stable_sort_all(
                fs,
                member_gt(),
                |pr: (Seq<char>, NodeModel)| wf_key(pr.0) && wf(pr.1),
            );
            lemma_wf_members_index(q);
        },
    }
}

/// Sorting by a member value never invents or damages a token either.
pub proof fn lemma_sort_by_value_preserves_wf(m: NodeModel, key: Seq<char>)
    requires
        wf(m),
    ensures
        wf(sort_value_model(m, key)),
    decreases m,
{
    match m {
        NodeModel::Value(t) => {},
        NodeModel::Object(ps) => {
            lemma_wf_members_index(ps);
            crate::laws::lemma_sort_value_members_index(ps, key);
            let fs = sort_value_members(ps, key);
            assert forall|i: int| 0 <= i < fs.len() implies wf_key((#[trigger] fs[i]).0) && wf(
                fs[i].1,
            ) by {
                lemma_sort_by_value_preserves_wf(ps[i].1, key);
            }
            lemma_wf_members_index(fs);
        },
        NodeModel::Array(es) => {
            lemma_wf_elems_index(es);
            crate::laws::lemma_sort_value_elems_index(es, key);
            let fs = sort_value_elems(es, key);
            assert forall|i: int| 0 <= i < fs.len() implies wf(#[trigger] fs[i]) by {
                lemma_sort_by_value_preserves_wf(es[i], key);
            }
            let q = stable_sort(fs, element_gt(key));
            lemma_stable_sort_all(fs, element_gt(key), |e: NodeModel| wf(e));
            lemma_wf_elems_index(q);
        },
    }
}


/// The whole pipeline round-trips: a parsed tree, reordered by the name
/// sort and then by a value sort, formats to text that parses back to the
/// reordered tree.
pub proof fn lemma_sorted_round_trip(s: Seq<char>, key: Seq<char>)
    requires
        spec_parse(s) is Ok,
    ensures
        spec_parse(
            fmt(
                sort_value_model(sort_name_model(spec_parse(s)->Ok_0), key),
                Seq::empty(),
                false,
            ),
        ) == Ok::<NodeModel, (int, ExpectedKind)>(
            sort_value_model(sort_name_model(spec_parse(s)->Ok_0), key),
        ),
{
    let m = spec_parse(s)->Ok_0;
    lemma_spec_node_wf(s, 0);
    lemma_sort_by_name_preserves_wf(m);
    lemma_sort_by_value_preserves_wf(sort_name_model(m), key);
    lemma_format_parse_round_trip(sort_value_model(sort_name_model(m), key));
}

} // verus!
