//! The tolerant parser: whitespace-separated structure around verbatim
//! scalar tokens. The grammar is stated by the `spec_*` functions below;
//! the executable parser returns exactly what they say, or the position
//! and description of the first failure.
//!
//! Text after a complete top-level node is ignored, as is surrounding
//! whitespace.

use vstd::prelude::*;

use crate::node::{members_model, node_model, Node, NodeModel};
use vstd::string::StrSliceExecFns;
use vstd::string::StringExecFns;

verus! {

/// The characters that separate tokens: the Unicode white space set, the
/// one `char::is_whitespace` answers for.
pub open spec fn is_ws_char(c: char) -> bool {
    let u = c as u32;
    u == 0x20 || u == 0x09 || u == 0x0A || u == 0x0B || u == 0x0C || u == 0x0D || u == 0x85
        || u == 0xA0 || u == 0x1680 || (0x2000 <= u && u <= 0x200A) || u == 0x2028 || u == 0x2029
        || u == 0x202F || u == 0x205F || u == 0x3000
}

/// The six structural characters.
pub open spec fn is_delim_char(c: char) -> bool {
    c == '{' || c == '}' || c == '[' || c == ']' || c == ',' || c == ':'
}

/// A character that may stand in an unquoted scalar.
pub open spec fn is_word_char(c: char) -> bool {
    !is_ws_char(c) && !is_delim_char(c)
}

/// How many whitespace characters stand at `i`.
pub open spec fn ws_count(s: Seq<char>, i: int) -> nat
    decreases s.len() - i,
{
    if 0 <= i < s.len() && is_ws_char(s[i]) {
        1 + ws_count(s, i + 1)
    } else {
        0
    }
}

/// The first position at or after `i` that does not hold whitespace.
pub open spec fn skip_ws(s: Seq<char>, i: int) -> int {
    i + ws_count(s, i)
}

/// How many word characters stand at `i`: the length of the unquoted
/// scalar that starts there.
pub open spec fn bareword_len(s: Seq<char>, i: int) -> nat
    decreases s.len() - i,
{
    if 0 <= i < s.len() && is_word_char(s[i]) {
        1 + bareword_len(s, i + 1)
    } else {
        0
    }
}

/// Scan the body of a quoted string from `i`, where `bs` counts the
/// backslashes immediately before `i` (two standing for any larger run).
/// A quote preceded by exactly one backslash is an escape and does not end
/// the string; any other quote does. The count of characters from `i`
/// through the closing quote is returned, or nothing if the string never
/// ends.
pub open spec fn string_scan(s: Seq<char>, i: int, bs: int) -> Option<nat>
    decreases s.len() - i,
{
    if !(0 <= i < s.len()) {
        None
    } else if s[i] == '"' && bs != 1 {
        Some(1)
    } else {
        let nbs: int = if s[i] == '\\' {
            if bs >= 1 {
                2
            } else {
                1
            }
        } else {
            0
        };
        match string_scan(s, i + 1, nbs) {
            Some(k) => Some((k + 1) as nat),
            None => None,
        }
    }
}

/// What the parser was looking for when it failed.
#[derive(Debug, PartialEq, Eq, Structural, Clone, Copy)]
pub enum ExpectedKind {
    /// A value: an object, an array, or a scalar token.
    Value,
    /// A quoted string serving as an object member's key.
    Key,
    /// The `:` between a key and its value.
    Colon,
    /// Either `,` before a further member or `}` closing the object.
    CommaOrCloseBrace,
    /// Either `,` before a further element or `]` closing the array.
    CommaOrCloseBracket,
    /// The closing quote of a string that never ends.
    StringEnd,
}

pub type ParsedNode = Result<(NodeModel, int), (int, ExpectedKind)>;

pub type ParsedMembers = Result<(Seq<(Seq<char>, NodeModel)>, int), (int, ExpectedKind)>;

pub type ParsedElems = Result<(Seq<NodeModel>, int), (int, ExpectedKind)>;

/// One node starting at `i`: leading whitespace, then an object, an array,
/// a quoted string, or an unquoted scalar. On success the result carries
/// the position just past the node.
pub open spec fn spec_node(s: Seq<char>, i: int) -> ParsedNode
    decreases s.len() - i, 0int,
{
    let j = skip_ws(s, i);
    if j >= s.len() {
        Err((j, ExpectedKind::Value))
    } else if s[j] == '{' {
        let j2 = skip_ws(s, j + 1);
        if j2 < s.len() && s[j2] == '}' {
            Ok((NodeModel::Object(Seq::empty()), j2 + 1))
        } else {
            match spec_members(s, j + 1) {
                Ok((ms, e)) => Ok((NodeModel::Object(ms), e)),
                Err(f) => Err(f),
            }
        }
    } else if s[j] == '[' {
        let j2 = skip_ws(s, j + 1);
        if j2 < s.len() && s[j2] == ']' {
            Ok((NodeModel::Array(Seq::empty()), j2 + 1))
        } else {
            match spec_elems(s, j + 1) {
                Ok((es, e)) => Ok((NodeModel::Array(es), e)),
                Err(f) => Err(f),
            }
        }
    } else if s[j] == '"' {
        match string_scan(s, j + 1, 0) {
            Some(k) => Ok((NodeModel::Value(s.subrange(j, j + 1 + k)), j + 1 + k)),
            None => Err((j, ExpectedKind::StringEnd)),
        }
    } else if is_delim_char(s[j]) {
        Err((j, ExpectedKind::Value))
    } else {
        let l = bareword_len(s, j);
        Ok((NodeModel::Value(s.subrange(j, j + l)), j + l))
    }
}

/// The members of a non-empty object, entered just past `{` or `,`: a
/// quoted key, `:`, a node, then either `,` and further members or the
/// closing `}`.
pub open spec fn spec_members(s: Seq<char>, i: int) -> ParsedMembers
    decreases s.len() - i, 1int,
{
    let j = skip_ws(s, i);
    if j >= s.len() || s[j] != '"' {
        Err((j, ExpectedKind::Key))
    } else {
        match string_scan(s, j + 1, 0) {
            None => Err((j, ExpectedKind::StringEnd)),
            Some(k) => {
                let key = s.subrange(j, j + 1 + k);
                let c = skip_ws(s, j + 1 + k);
                if c >= s.len() || s[c] != ':' {
                    Err((c, ExpectedKind::Colon))
                } else {
                    match spec_node(s, c + 1) {
                        Err(f) => Err(f),
                        Ok((m, p0)) => {
                            // A parsed node always ends past its first
                            // character; spelling that out here keeps the
                            // recursion visibly bounded.
                            let p = if p0 < c + 2 {
                                c + 2
                            } else {
                                p0
                            };
                            let q = skip_ws(s, p);
                            if q >= s.len() {
                                Err((q, ExpectedKind::CommaOrCloseBrace))
                            } else if s[q] == '}' {
                                Ok((seq![(key, m)], q + 1))
                            } else if s[q] == ',' {
                                match spec_members(s, q + 1) {
                                    Ok((ms, e)) => Ok((seq![(key, m)] + ms, e)),
                                    Err(f) => Err(f),
                                }
                            } else {
                                Err((q, ExpectedKind::CommaOrCloseBrace))
                            }
                        },
                    }
                }
            },
        }
    }
}

/// The elements of a non-empty array, entered just past `[` or `,`: a
/// node, then either `,` and further elements or the closing `]`.
pub open spec fn spec_elems(s: Seq<char>, i: int) -> ParsedElems
    decreases s.len() - i, 1int,
{
    match spec_node(s, i) {
        Err(f) => Err(f),
        Ok((m, p0)) => {
            let p = if p0 < i + 1 {
                i + 1
            } else {
                p0
            };
            let q = skip_ws(s, p);
            if q >= s.len() {
                Err((q, ExpectedKind::CommaOrCloseBracket))
            } else if s[q] == ']' {
                Ok((seq![m], q + 1))
            } else if s[q] == ',' {
                match spec_elems(s, q + 1) {
                    Ok((es, e)) => Ok((seq![m] + es, e)),
                    Err(f) => Err(f),
                }
            } else {
                Err((q, ExpectedKind::CommaOrCloseBracket))
            }
        },
    }
}

/// What parsing a whole text yields: the tree of the first node, with
/// surrounding whitespace and any text after the node ignored, or the
/// position and description of the first failure.
pub open spec fn spec_parse(s: Seq<char>) -> Result<NodeModel, (int, ExpectedKind)> {
    match spec_node(s, 0) {
        Ok((m, _)) => Ok(m),
        Err(f) => Err(f),
    }
}

pub proof fn lemma_ws_count_le(s: Seq<char>, i: int)
    requires
        0 <= i <= s.len(),
    ensures
        i + ws_count(s, i) <= s.len(),
    decreases s.len() - i,
{
    if i < s.len() && is_ws_char(s[i]) {
        lemma_ws_count_le(s, i + 1);
    }
}

pub proof fn lemma_bareword_le(s: Seq<char>, i: int)
    requires
        0 <= i <= s.len(),
    ensures
        i + bareword_len(s, i) <= s.len(),
    decreases s.len() - i,
{
    if i < s.len() && is_word_char(s[i]) {
        lemma_bareword_le(s, i + 1);
    }
}

pub proof fn lemma_string_scan_le(s: Seq<char>, i: int, bs: int)
    requires
        string_scan(s, i, bs) is Some,
    ensures
        1 <= string_scan(s, i, bs)->Some_0,
        i + string_scan(s, i, bs)->Some_0 <= s.len(),
    decreases s.len() - i,
{
    if 0 <= i < s.len() && !(s[i] == '"' && bs != 1) {
        let nbs: int = if s[i] == '\\' {
            if bs >= 1 {
                2
            } else {
                1
            }
        } else {
            0
        };
        lemma_string_scan_le(s, i + 1, nbs);
    }
}

/// A parse failure: the character offset at which the parser stopped and
/// what it was looking for there.
#[derive(Debug, PartialEq, Eq, Structural, Clone, Copy)]
pub struct ParseError {
    pub offset: usize,
    pub expected: ExpectedKind,
}

fn is_ws_x(c: char) -> (r: bool)
    ensures
        r == is_ws_char(c),
{
    let u = c as u32;
    u == 0x20 || u == 0x09 || u == 0x0A || u == 0x0B || u == 0x0C || u == 0x0D || u == 0x85
        || u == 0xA0 || u == 0x1680 || (0x2000 <= u && u <= 0x200A) || u == 0x2028 || u == 0x2029
        || u == 0x202F || u == 0x205F || u == 0x3000
}

fn is_delim_x(c: char) -> (r: bool)
    ensures
        r == is_delim_char(c),
{
    c == '{' || c == '}' || c == '[' || c == ']' || c == ',' || c == ':'
}

#[verifier::loop_isolation(false)]
fn skip_ws_x(v: &Vec<char>, i: usize) -> (r: usize)
    requires
        i <= v@.len(),
    ensures
        r as int == skip_ws(v@, i as int),
        i <= r <= v@.len(),
    decreases v@.len() - i,
{
    proof {
        lemma_ws_count_le(v@, i as int);
    }
    let n = v.len();
    let mut r = i;
    while r < n && is_ws_x(v[r])
        invariant
            i <= r <= n,
            skip_ws(v@, i as int) == skip_ws(v@, r as int),
        decreases n - r,
    {
        r = r + 1;
    }
    r
}

#[verifier::loop_isolation(false)]
fn bareword_end_x(v: &Vec<char>, i: usize) -> (r: usize)
    requires
        i <= v@.len(),
    ensures
        r as int == i + bareword_len(v@, i as int),
        i <= r <= v@.len(),
    decreases v@.len() - i,
{
    proof {
        lemma_bareword_le(v@, i as int);
    }
    let n = v.len();
    let mut r = i;
    while r < n && !is_ws_x(v[r]) && !is_delim_x(v[r])
        invariant
            i <= r <= n,
            i + bareword_len(v@, i as int) == r + bareword_len(v@, r as int),
        decreases n - r,
    {
        r = r + 1;
    }
    r
}

/// Scan a quoted string's body beginning at `start` (just past the opening
/// quote); the position just past the closing quote is returned, or
/// nothing if the string never ends.
#[verifier::loop_isolation(false)]
fn string_scan_x(v: &Vec<char>, start: usize) -> (r: Option<usize>)
    requires
        start <= v@.len(),
    ensures
        (r is Some) == (string_scan(v@, start as int, 0) is Some),
        r is Some ==> r->0 as int == start + string_scan(v@, start as int, 0)->Some_0 && start
            < r->0 <= v@.len(),
{
    let n = v.len();
    let mut pos = start;
    let mut bs: u8 = 0;
    loop
        invariant
            start <= pos <= n,
            bs <= 2,
            match string_scan(v@, pos as int, bs as int) {
                Some(k) => string_scan(v@, start as int, 0) == Some((pos - start + k) as nat),
                None => string_scan(v@, start as int, 0) is None,
            },
        decreases n - pos,
    {
        if pos >= n {
            return None;
        }
        let c = v[pos];
        if c == '"' && bs != 1 {
            proof {
                lemma_string_scan_le(v@, start as int, 0);
            }
            return Some(pos + 1);
        }
        if c == '\\' {
            if bs >= 1 {
                bs = 2;
            } else {
                bs = 1;
            }
        } else {
            bs = 0;
        }
        pos = pos + 1;
    }
}

/// The three spec parsers stay inside the text and strictly advance.
pub proof fn lemma_spec_node_range(s: Seq<char>, i: int)
    requires
        0 <= i <= s.len(),
    ensures
        match spec_node(s, i) {
            Ok((m, p)) => i < p <= s.len(),
            Err((q, k)) => 0 <= q <= s.len(),
        },
    decreases s.len() - i, 0int,
{
    lemma_ws_count_le(s, i);
    let j = skip_ws(s, i);
    if j < s.len() {
        if s[j] == '{' {
            lemma_ws_count_le(s, j + 1);
            lemma_spec_members_range(s, j + 1);
        } else if s[j] == '[' {
            lemma_ws_count_le(s, j + 1);
            lemma_spec_elems_range(s, j + 1);
        } else if s[j] == '"' {
            if string_scan(s, j + 1, 0) is Some {
                lemma_string_scan_le(s, j + 1, 0);
            }
        } else if !is_delim_char(s[j]) {
            lemma_bareword_le(s, j);
        }
    }
}

pub proof fn lemma_spec_members_range(s: Seq<char>, i: int)
    requires
        0 <= i <= s.len(),
    ensures
        match spec_members(s, i) {
            Ok((ms, p)) => i < p <= s.len(),
            Err((q, k)) => 0 <= q <= s.len(),
        },
    decreases s.len() - i, 1int,
{
    lemma_ws_count_le(s, i);
    let j = skip_ws(s, i);
    if !(j >= s.len() || s[j] != '"') {
        match string_scan(s, j + 1, 0) {
            None => {},
            Some(k) => {
                lemma_string_scan_le(s, j + 1, 0);
                lemma_ws_count_le(s, j + 1 + k);
                let c = skip_ws(s, j + 1 + k);
                if !(c >= s.len() || s[c] != ':') {
                    lemma_spec_node_range(s, c + 1);
                    match spec_node(s, c + 1) {
                        Err(f) => {},
                        Ok((m, p0)) => {
                            let p = if p0 < c + 2 {
                                c + 2
                            } else {
                                p0
                            };
                            lemma_ws_count_le(s, p);
                            let q = skip_ws(s, p);
                            if q < s.len() && s[q] == ',' {
                                lemma_spec_members_range(s, q + 1);
                            }
                        },
                    }
                }
            },
        }
    }
}

#[verifier::loop_isolation(false)]
fn to_chars(s: &str) -> (v: Vec<char>)
    ensures
        v@ == s@,
{
    let n = s.unicode_len();
    let mut v: Vec<char> = Vec::new();
    let mut i: usize = 0;
    while i < n
        invariant
            i <= n,
            n == s@.len(),
            v@ == s@.subrange(0, i as int),
        decreases n - i,
    {
        v.push(s.get_char(i));
        proof {
            assert(v@ =~= s@.subrange(0, i as int + 1));
        }
        i = i + 1;
    }
    proof {
        assert(s@.subrange(0, n as int) =~= s@);
    }
    v
}

#[verifier::loop_isolation(false)]
fn parse_node_x(text: &str, v: &Vec<char>, i: usize) -> (r: Result<(Node, usize), ParseError>)
    requires
        v@ == text@,
        i <= v@.len(),
    ensures
        match r {
            Ok((n, p)) => spec_node(v@, i as int) == Ok::<(NodeModel, int), (int, ExpectedKind)>(
                (n@, p as int),
            ) && i < p <= v@.len(),
            Err(e) => spec_node(v@, i as int) == Err::<(NodeModel, int), (int, ExpectedKind)>(
                (e.offset as int, e.expected),
            ) && e.offset <= v@.len(),
        },
    decreases v@.len() - i,
{
    let j = skip_ws_x(v, i);
    if j >= v.len() {
        return Err(ParseError { offset: j, expected: ExpectedKind::Value });
    }
    let c = v[j];
    if c == '{' {
        let j2 = skip_ws_x(v, j + 1);
        if j2 < v.len() && v[j2] == '}' {
            let ms: Vec<(String, Node)> = Vec::new();
            proof {
                assert(ms@ =~= Seq::<(String, Node)>::empty());
                assert(members_model(ms@) =~= Seq::<(Seq<char>, NodeModel)>::empty());
            }
            return Ok((Node::Object(ms), j2 + 1));
        }
        let mut ms: Vec<(String, Node)> = Vec::new();
        let mut pos: usize = j + 1;
        proof {
            assert(members_model(ms@) =~= Seq::<(Seq<char>, NodeModel)>::empty());
        }
        loop
            invariant
                i < pos <= v@.len(),
                match spec_members(v@, pos as int) {
                    Ok((rest, e)) => spec_node(v@, i as int) == Ok::<
                        (NodeModel, int),
                        (int, ExpectedKind),
                    >((NodeModel::Object(members_model(ms@) + rest), e)),
                    Err(f) => spec_node(v@, i as int) == Err::<
                        (NodeModel, int),
                        (int, ExpectedKind),
                    >(f),
                },
            decreases v@.len() - pos,
        {
            let mj = skip_ws_x(v, pos);
            if mj >= v.len() || v[mj] != '"' {
                return Err(ParseError { offset: mj, expected: ExpectedKind::Key });
            }
            match string_scan_x(v, mj + 1) {
                None => {
                    return Err(ParseError { offset: mj, expected: ExpectedKind::StringEnd });
                },
                Some(kend) => {
                    let key = text.substring_char(mj, kend).to_owned();
                    let cpos = skip_ws_x(v, kend);
                    if cpos >= v.len() || v[cpos] != ':' {
                        return Err(ParseError { offset: cpos, expected: ExpectedKind::Colon });
                    }
                    match parse_node_x(text, v, cpos + 1) {
                        Err(e) => {
                            return Err(e);
                        },
                        Ok((val, p)) => {
                            let q = skip_ws_x(v, p);
                            let ghost km = (key@, val@);
                            proof {
                                // the clamp in `spec_members` never bites
                                assert(cpos + 2 <= p as int);
                            }
                            if q >= v.len() {
                                return Err(
                                    ParseError {
                                        offset: q,
                                        expected: ExpectedKind::CommaOrCloseBrace,
                                    },
                                );
                            }
                            let qc = v[q];
                            if qc == '}' {
                                let ghost mspre = ms@;
                                ms.push((key, val));
                                proof {
                                    assert(ms@.drop_last() =~= mspre);
                                    assert(members_model(ms@) == members_model(mspre).push(km));
                                    assert(spec_members(v@, pos as int) == Ok::<
                                        (Seq<(Seq<char>, NodeModel)>, int),
                                        (int, ExpectedKind),
                                    >((seq![km], q as int + 1)));
                                    assert(members_model(mspre) + seq![km] =~= members_model(
                                        ms@,
                                    ));
                                }
                                return Ok((Node::Object(ms), q + 1));
                            } else if qc == ',' {
                                let ghost mspre = ms@;
                                ms.push((key, val));
                                proof {
                                    assert(ms@.drop_last() =~= mspre);
                                    assert(members_model(ms@) == members_model(mspre).push(km));
                                    match spec_members(v@, q as int + 1) {
                                        Ok((rest2, e2)) => {
                                            assert(spec_members(v@, pos as int) == Ok::<
                                                (Seq<(Seq<char>, NodeModel)>, int),
                                                (int, ExpectedKind),
                                            >((seq![km] + rest2, e2)));
                                            assert(members_model(mspre) + (seq![km] + rest2)
                                                =~= members_model(ms@) + rest2);
                                        },
                                        Err(f2) => {
                                            assert(spec_members(v@, pos as int) == Err::<
                                                (Seq<(Seq<char>, NodeModel)>, int),
                                                (int, ExpectedKind),
                                            >(f2));
                                        },
                                    }
                                }
                                pos = q + 1;
                            } else {
                                return Err(
                                    ParseError {
                                        offset: q,
                                        expected: ExpectedKind::CommaOrCloseBrace,
                                    },
                                );
                            }
                        },
                    }
                },
            }
        }
    } else if c == '[' {
        let j2 = skip_ws_x(v, j + 1);
        if j2 < v.len() && v[j2] == ']' {
            let es: Vec<Node> = Vec::new();
            proof {
                assert(es@ =~= Seq::<Node>::empty());
                assert(crate::node::elems_model(es@) =~= Seq::<NodeModel>::empty());
            }
            return Ok((Node::Array(es), j2 + 1));
        }
        let mut es: Vec<Node> = Vec::new();
        let mut pos: usize = j + 1;
        proof {
            assert(crate::node::elems_model(es@) =~= Seq::<NodeModel>::empty());
        }
        loop
            invariant
                i < pos <= v@.len(),
                match spec_elems(v@, pos as int) {
                    Ok((rest, e)) => spec_node(v@, i as int) == Ok::<
                        (NodeModel, int),
                        (int, ExpectedKind),
                    >((NodeModel::Array(crate::node::elems_model(es@) + rest), e)),
                    Err(f) => spec_node(v@, i as int) == Err::<
                        (NodeModel, int),
                        (int, ExpectedKind),
                    >(f),
                },
            decreases v@.len() - pos,
        {
            match parse_node_x(text, v, pos) {
                Err(e) => {
                    return Err(e);
                },
                Ok((val, p)) => {
                    let q = skip_ws_x(v, p);
                    proof {
                        assert(pos + 1 <= p as int);
                    }
                    if q >= v.len() {
                        return Err(
                            ParseError { offset: q, expected: ExpectedKind::CommaOrCloseBracket },
                        );
                    }
                    let qc = v[q];
                    if qc == ']' {
                        let ghost espre = es@;
                        es.push(val);
                        proof {
                            assert(es@.drop_last() =~= espre);
                            assert(crate::node::elems_model(es@) == crate::node::elems_model(
                                espre,
                            ).push(es@.last()@));
                            assert(spec_elems(v@, pos as int) == Ok::<
                                (Seq<NodeModel>, int),
                                (int, ExpectedKind),
                            >((seq![es@.last()@], q as int + 1)));
                            assert(crate::node::elems_model(espre) + seq![es@.last()@]
                                =~= crate::node::elems_model(es@));
                        }
                        return Ok((Node::Array(es), q + 1));
                    } else if qc == ',' {
                        let ghost espre = es@;
                        let ghost vm = val@;
                        es.push(val);
                        proof {
                            assert(es@.drop_last() =~= espre);
                            assert(crate::node::elems_model(es@) == crate::node::elems_model(
                                espre,
                            ).push(vm));
                            match spec_elems(v@, q as int + 1) {
                                Ok((rest2, e2)) => {
                                    assert(spec_elems(v@, pos as int) == Ok::<
                                        (Seq<NodeModel>, int),
                                        (int, ExpectedKind),
                                    >((seq![vm] + rest2, e2)));
                                    assert(crate::node::elems_model(espre) + (seq![vm] + rest2)
                                        =~= crate::node::elems_model(es@) + rest2);
                                },
                                Err(f2) => {
                                    assert(spec_elems(v@, pos as int) == Err::<
                                        (Seq<NodeModel>, int),
                                        (int, ExpectedKind),
                                    >(f2));
                                },
                            }
                        }
                        pos = q + 1;
                    } else {
                        return Err(
                            ParseError { offset: q, expected: ExpectedKind::CommaOrCloseBracket },
                        );
                    }
                },
            }
        }
    } else if c == '"' {
        match string_scan_x(v, j + 1) {
            Some(e) => {
                let t = text.substring_char(j, e).to_owned();
                Ok((Node::Value(t), e))
            },
            None => Err(ParseError { offset: j, expected: ExpectedKind::StringEnd }),
        }
    } else if is_delim_x(c) {
        Err(ParseError { offset: j, expected: ExpectedKind::Value })
    } else {
        let e = bareword_end_x(v, j);
        let t = text.substring_char(j, e).to_owned();
        Ok((Node::Value(t), e))
    }
}

/// The decimal spelling of a number.
pub open spec fn dec_digits(n: nat) -> Seq<char>
    decreases n,
{
    if n < 10 {
        seq![digit_char(n)]
    } else {
        dec_digits(n / 10).push(digit_char(n % 10))
    }
}

pub open spec fn digit_char(d: nat) -> char {
    if d == 0 {
        '0'
    } else if d == 1 {
        '1'
    } else if d == 2 {
        '2'
    } else if d == 3 {
        '3'
    } else if d == 4 {
        '4'
    } else if d == 5 {
        '5'
    } else if d == 6 {
        '6'
    } else if d == 7 {
        '7'
    } else if d == 8 {
        '8'
    } else {
        '9'
    }
}

fn digit_str(d: usize) -> (r: &'static str)
    requires
        d < 10,
    ensures
        r@ == seq![digit_char(d as nat)],
{
    proof {
        reveal_strlit("0");
        reveal_strlit("1");
        reveal_strlit("2");
        reveal_strlit("3");
        reveal_strlit("4");
        reveal_strlit("5");
        reveal_strlit("6");
        reveal_strlit("7");
        reveal_strlit("8");
        reveal_strlit("9");
    }
    let r = if d == 0 {
        "0"
    } else if d == 1 {
        "1"
    } else if d == 2 {
        "2"
    } else if d == 3 {
        "3"
    } else if d == 4 {
        "4"
    } else if d == 5 {
        "5"
    } else if d == 6 {
        "6"
    } else if d == 7 {
        "7"
    } else if d == 8 {
        "8"
    } else {
        "9"
    };
    proof {
        assert(r@ =~= seq![digit_char(d as nat)]);
    }
    r
}

fn to_decimal(n: usize) -> (r: String)
    ensures
        r@ == dec_digits(n as nat),
    decreases n,
{
    if n < 10 {
        let mut s = String::new();
        s.append(digit_str(n));
        proof {
            assert(s@ =~= dec_digits(n as nat));
        }
        s
    } else {
        let mut s = to_decimal(n / 10);
        s.append(digit_str(n % 10));
        proof {
            assert(s@ =~= dec_digits(n as nat));
        }
        s
    }
}

/// The words used for each [`ExpectedKind`] in a rendered message.
pub open spec fn expected_text(k: ExpectedKind) -> Seq<char> {
    match k {
        ExpectedKind::Value => "a value"@,
        ExpectedKind::Key => "an object key"@,
        ExpectedKind::Colon => "`:`"@,
        ExpectedKind::CommaOrCloseBrace => "`,` or `}`"@,
        ExpectedKind::CommaOrCloseBracket => "`,` or `]`"@,
        ExpectedKind::StringEnd => "a closing `\"`"@,
    }
}

/// The rendered message of a [`ParseError`]: what was expected, and where.
pub open spec fn error_text(offset: nat, k: ExpectedKind) -> Seq<char> {
    "expected "@ + expected_text(k) + " at character "@ + dec_digits(offset)
}

impl ParseError {
    /// A human-readable message naming the expected construct and the
    /// character offset at which it was missed.
    pub fn render(&self) -> (r: String)
        ensures
            r@ == error_text(self.offset as nat, self.expected),
    {
        let mut s = String::from_str("expected ");
        match self.expected {
            ExpectedKind::Value => s.append("a value"),
            ExpectedKind::Key => s.append("an object key"),
            ExpectedKind::Colon => s.append("`:`"),
            ExpectedKind::CommaOrCloseBrace => s.append("`,` or `}`"),
            ExpectedKind::CommaOrCloseBracket => s.append("`,` or `]`"),
            ExpectedKind::StringEnd => s.append("a closing `\"`"),
        }
        s.append(" at character ");
        let d = to_decimal(self.offset);
        s.append(d.as_str());
        s
    }
}

/// Parse a JSON-ish text into a tree, or point at the first failure.
/// Surrounding whitespace, and any text after the first complete node, is
/// ignored.
pub fn parse(text: &str) -> (r: Result<Node, ParseError>)
    ensures
        match r {
            Ok(n) => spec_parse(text@) == Ok::<NodeModel, (int, ExpectedKind)>(n@),
            Err(e) => spec_parse(text@) == Err::<NodeModel, (int, ExpectedKind)>(
                (e.offset as int, e.expected),
            ),
        },
{
    let v = to_chars(text);
    match parse_node_x(text, &v, 0) {
        Ok((n, _)) => Ok(n),
        Err(e) => Err(e),
    }
}

pub proof fn lemma_spec_elems_range(s: Seq<char>, i: int)
    requires
        0 <= i <= s.len(),
    ensures
        match spec_elems(s, i) {
            Ok((es, p)) => i < p <= s.len(),
            Err((q, k)) => 0 <= q <= s.len(),
        },
    decreases s.len() - i, 1int,
{
    lemma_spec_node_range(s, i);
    match spec_node(s, i) {
        Err(f) => {},
        Ok((m, p0)) => {
            let p = if p0 < i + 1 {
                i + 1
            } else {
                p0
            };
            lemma_ws_count_le(s, p);
            let q = skip_ws(s, p);
            if q < s.len() && s[q] == ',' {
                lemma_spec_elems_range(s, q + 1);
            }
        },
    }
}

} // verus!
