//! The canonical pretty-printer: two-space indentation, one line per array
//! element and per object member, empty containers on one line.

use vstd::prelude::*;

use crate::node::{elems_model, members_model, node_model, Node, NodeModel};
use vstd::string::StrSliceExecFns;
use vstd::string::StringExecFns;

verus! {

/// One unit of indentation.
pub open spec fn indent_unit() -> Seq<char> {
    seq![' ', ' ']
}

/// The canonical rendering of a tree whose enclosing lines are indented by
/// `ind`. The leading `ind` itself is emitted only when `lead` is set: an
/// array element starts its own line, an object member's value is inlined
/// after `key: `.
pub open spec fn fmt(m: NodeModel, ind: Seq<char>, lead: bool) -> Seq<char>
    decreases m, 1int,
{
    (if lead {
        ind
    } else {
        Seq::empty()
    }) + match m {
        NodeModel::Value(t) => t,
        NodeModel::Array(es) => {
            if es.len() == 0 {
                seq!['[', ']']
            } else {
                seq!['[', '\n'] + fmt_elems(es, ind + indent_unit()) + seq!['\n'] + ind + seq![']']
            }
        },
        NodeModel::Object(ps) => {
            if ps.len() == 0 {
                seq!['{', '}']
            } else {
                seq!['{', '\n'] + fmt_members(ps, ind + indent_unit()) + seq!['\n'] + ind
                    + seq!['}']
            }
        },
    }
}

/// The elements of a non-empty array, one per line, `",\n"` between them.
pub open spec fn fmt_elems(es: Seq<NodeModel>, cind: Seq<char>) -> Seq<char>
    decreases es, 2int,
{
    if es.len() == 0 {
        Seq::empty()
    } else if es.len() == 1 {
        fmt(es[0], cind, true)
    } else {
        fmt_elems(es.drop_last(), cind) + seq![',', '\n'] + fmt(es.last(), cind, true)
    }
}

/// One object member: its own indentation, the key as stored, `": "`, then
/// the value with its leading indentation suppressed.
pub open spec fn fmt_member(p: (Seq<char>, NodeModel), cind: Seq<char>) -> Seq<char>
    decreases p, 2int,
{
    cind + p.0 + seq![':', ' '] + fmt(p.1, cind, false)
}

/// The members of a non-empty object, one per line, `",\n"` between them.
pub open spec fn fmt_members(ps: Seq<(Seq<char>, NodeModel)>, cind: Seq<char>) -> Seq<char>
    decreases ps, 3int,
{
    if ps.len() == 0 {
        Seq::empty()
    } else if ps.len() == 1 {
        fmt_member(ps[0], cind)
    } else {
        fmt_members(ps.drop_last(), cind) + seq![',', '\n'] + fmt_member(ps.last(), cind)
    }
}

impl Node {
    /// Append the rendering of this tree to `buf`, with `indent` the
    /// indentation of the enclosing lines.
    #[verifier::loop_isolation(false)]
    #[verifier::rlimit(100)]
    pub fn format(&self, buf: &mut String, indent: &str, lead: bool)
        ensures
            final(buf)@ == old(buf)@ + fmt(self@, indent@, lead),
        decreases *self,
    {
        proof {
            reveal_strlit("");
            reveal_strlit("  ");
            reveal_strlit("[]");
            reveal_strlit("{}");
            reveal_strlit("[\n");
            reveal_strlit("{\n");
            reveal_strlit(",\n");
            reveal_strlit(": ");
            reveal_strlit("\n");
            reveal_strlit("]");
            reveal_strlit("}");
        }
        if lead {
            buf.append(indent);
        }
        let ghost led = buf@;
        proof {
            assert(led =~= old(buf)@ + if lead {
                indent@
            } else {
                Seq::<char>::empty()
            });
        }
        match self {
            Node::Value(t) => {
                buf.append(t.as_str());
                proof {
                    assert(buf@ =~= old(buf)@ + fmt(self@, indent@, lead));
                }
            },
            Node::Array(xs) => {
                proof {
                    crate::node::lemma_elems_model(xs@);
                }
                let ghost es = elems_model(xs@);
                if xs.len() == 0 {
                    buf.append("[]");
                    proof {
                        assert(buf@ =~= old(buf)@ + fmt(self@, indent@, lead));
                    }
                } else {
                    let mut ci = indent.to_owned();
                    ci.append("  ");
                    proof {
                        assert(ci@ =~= indent@ + indent_unit());
                    }
                    buf.append("[\n");
                    let n = xs.len();
                    let ghost mid0 = buf@;
                    proof {
                        assert(mid0 =~= led + seq!['[', '\n']);
                    }
                    let mut i: usize = 0;
                    while i < n
                        invariant
                            i <= n,
                            buf@ == mid0 + fmt_elems(es.subrange(0, i as int), ci@),
                        decreases n - i,
                    {
                        if i > 0 {
                            buf.append(",\n");
                        }
                        proof {
                            assert(decreases_to!(*self => (*self)->Array_0));
                            assert((*self)->Array_0 == *xs);
                            assert(decreases_to!(*xs => xs@));
                            assert(decreases_to!(xs@ => xs@[i as int]));
                        }
                        xs[i].format(buf, ci.as_str(), true);
                        proof {
                            let sub1 = es.subrange(0, i as int + 1);
                            assert(sub1.drop_last() =~= es.subrange(0, i as int));
                            assert(sub1.last() == node_model(xs@[i as int]));
                            if i == 0 {
                                assert(es.subrange(0, 0) =~= Seq::<NodeModel>::empty());
                                assert(buf@ =~= mid0 + fmt_elems(sub1, ci@));
                            } else {
                                assert(buf@ =~= mid0 + fmt_elems(sub1, ci@));
                            }
                        }
                        i = i + 1;
                    }
                    buf.append("\n");
                    buf.append(indent);
                    buf.append("]");
                    proof {
                        assert(es.subrange(0, n as int) =~= es);
                        assert(buf@ =~= old(buf)@ + fmt(self@, indent@, lead));
                    }
                }
            },
            Node::Object(xs) => {
                proof {
                    crate::node::lemma_members_model(xs@);
                }
                let ghost ms = members_model(xs@);
                if xs.len() == 0 {
                    buf.append("{}");
                    proof {
                        assert(buf@ =~= old(buf)@ + fmt(self@, indent@, lead));
                    }
                } else {
                    let mut ci = indent.to_owned();
                    ci.append("  ");
                    proof {
                        assert(ci@ =~= indent@ + indent_unit());
                    }
                    buf.append("{\n");
                    let n = xs.len();
                    let ghost mid0 = buf@;
                    proof {
                        assert(mid0 =~= led + seq!['{', '\n']);
                    }
                    let mut i: usize = 0;
                    while i < n
                        invariant
                            i <= n,
                            buf@ == mid0 + fmt_members(ms.subrange(0, i as int), ci@),
                        decreases n - i,
                    {
                        if i > 0 {
                            buf.append(",\n");
                        }
                        buf.append(ci.as_str());
                        buf.append(xs[i].0.as_str());
                        buf.append(": ");
                        proof {
                            assert(decreases_to!(*self => (*self)->Object_0));
                            assert((*self)->Object_0 == *xs);
                            assert(decreases_to!(*xs => xs@));
                            assert(decreases_to!(xs@ => xs@[i as int]));
                            assert(decreases_to!(xs@[i as int] => xs@[i as int].1));
                        }
                        xs[i].1.format(buf, ci.as_str(), false);
                        proof {
                            let sub1 = ms.subrange(0, i as int + 1);
                            assert(sub1.drop_last() =~= ms.subrange(0, i as int));
                            assert(sub1.last() == (xs@[i as int].0@, node_model(xs@[i as int].1)));
                            assert(fmt_member(sub1.last(), ci@) == ci@ + xs@[i as int].0@ + seq![
                                ':',
                                ' ',
                            ] + fmt(node_model(xs@[i as int].1), ci@, false));
                            if i == 0 {
                                assert(ms.subrange(0, 0) =~= Seq::<(Seq<char>, NodeModel)>::empty());
                                assert(buf@ =~= mid0 + fmt_members(sub1, ci@));
                            } else {
                                assert(buf@ =~= mid0 + fmt_members(sub1, ci@));
                            }
                        }
                        i = i + 1;
                    }
                    buf.append("\n");
                    buf.append(indent);
                    buf.append("}");
                    proof {
                        assert(ms.subrange(0, n as int) =~= ms);
                        assert(buf@ =~= old(buf)@ + fmt(self@, indent@, lead));
                    }
                }
            },
        }
    }

    /// The canonical rendering of this tree at the left margin, with no
    /// trailing newline.
    pub fn to_string(&self) -> (r: String)
        ensures
            r@ == fmt(self@, Seq::empty(), false),
    {
        let mut buf = String::new();
        self.format(&mut buf, "", false);
        proof {
            reveal_strlit("");
            assert(""@ =~= Seq::<char>::empty());
            assert(buf@ =~= fmt(self@, Seq::empty(), false));
        }
        buf
    }
}

} // verus!
