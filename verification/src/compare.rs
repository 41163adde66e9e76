use vstd::prelude::*;

use crate::model::Model;
use crate::number::Number;
use crate::strings::{chars_of, lowercase, to_lowercase};
use crate::values::{ArrayNode, NodeV, nodes_view};

verus! {

/// The outcome of comparing two values.
#[derive(Clone, Copy, PartialEq, Eq, Structural, Debug)]
pub enum Order {
    Less,
    Equal,
    Greater,
}

pub open spec fn reverse(o: Order) -> Order {
    match o {
        Order::Less => Order::Greater,
        Order::Equal => Order::Equal,
        Order::Greater => Order::Less,
    }
}

/// Lexicographic order of two texts, character code by character code.
pub open spec fn lex(a: Seq<char>, b: Seq<char>) -> Order
    decreases a.len(),
{
    if a.len() == 0 && b.len() == 0 {
        Order::Equal
    } else if a.len() == 0 {
        Order::Less
    } else if b.len() == 0 {
        Order::Greater
    } else if a[0] == b[0] {
        lex(a.drop_first(), b.drop_first())
    } else if a[0] < b[0] {
        Order::Less
    } else {
        Order::Greater
    }
}

/// Two array elements are equal: numbers of the same value, texts that
/// are the same once lower-cased, the same boolean or the same error.
pub open spec fn nodes_equal(a: NodeV, b: NodeV) -> bool {
    match (a, b) {
        (NodeV::Number(x), NodeV::Number(y)) => x.scaled == y.scaled,
        (NodeV::Text(x), NodeV::Text(y)) => lowercase(x) == lowercase(y),
        (NodeV::Boolean(x), NodeV::Boolean(y)) => x == y,
        (NodeV::Error(x), NodeV::Error(y)) => x == y,
        _ => false,
    }
}

/// Two rows are equal: the same length and equal elements position by position.
pub open spec fn rows_equal(a: Seq<NodeV>, b: Seq<NodeV>) -> bool {
    &&& a.len() == b.len()
    &&& forall|i: int| 0 <= i < a.len() ==> nodes_equal(#[trigger] a[i], b[i])
}

/// How two (possibly missing) array elements compare when sorting: a
/// missing element comes first, numbers by value, texts by their lower-cased
/// characters, numbers before texts, and any other pair compares equal.
pub open spec fn compare_nodes(a: Option<NodeV>, b: Option<NodeV>) -> Order {
    match (a, b) {
        (None, None) => Order::Equal,
        (None, Some(_)) => Order::Less,
        (Some(_), None) => Order::Greater,
        (Some(NodeV::Number(x)), Some(NodeV::Number(y))) => if x.scaled < y.scaled {
            Order::Less
        } else if x.scaled > y.scaled {
            Order::Greater
        } else {
            Order::Equal
        },
        (Some(NodeV::Text(x)), Some(NodeV::Text(y))) => lex(lowercase(x), lowercase(y)),
        (Some(NodeV::Number(_)), Some(NodeV::Text(_))) => Order::Less,
        (Some(NodeV::Text(_)), Some(NodeV::Number(_))) => Order::Greater,
        _ => Order::Equal,
    }
}

/// A key that compares consistently: missing, a number or a text.
pub open spec fn orderable(a: Option<NodeV>) -> bool {
    match a {
        None => true,
        Some(NodeV::Number(_)) => true,
        Some(NodeV::Text(_)) => true,
        _ => false,
    }
}

/// Exchanging the texts reverses their order.
pub proof fn lemma_lex_reverse(a: Seq<char>, b: Seq<char>)
    ensures
        lex(b, a) == reverse(lex(a, b)),
    decreases a.len(),
{
    if a.len() > 0 && b.len() > 0 && a[0] == b[0] {
        lemma_lex_reverse(a.drop_first(), b.drop_first());
    }
}

/// Texts that compare equal are the same text.
pub proof fn lemma_lex_equal(a: Seq<char>, b: Seq<char>)
    ensures
        lex(a, b) == Order::Equal <==> a == b,
    decreases a.len(),
{
    if a.len() > 0 && b.len() > 0 && a[0] == b[0] {
        lemma_lex_equal(a.drop_first(), b.drop_first());
        if a.drop_first() == b.drop_first() {
            assert(a =~= seq![a[0]] + a.drop_first());
            assert(b =~= seq![b[0]] + b.drop_first());
        }
    }
    if a.len() == 0 && b.len() == 0 {
        assert(a =~= b);
    }
    if a == b {
        lemma_lex_refl(a);
    }
}

/// Comparing two texts ignores case: texts that are the same once
/// lower-cased compare equal, and the order of two texts is fixed by their
/// lower-cased forms (texts with the same lower-cased forms compare alike).
pub proof fn lemma_text_order_ignores_case(x: Seq<char>, y: Seq<char>, x2: Seq<char>, y2: Seq<char>)
    ensures
        lowercase(x) == lowercase(y) ==> compare_nodes(Some(NodeV::Text(x)), Some(NodeV::Text(y))) == Order::Equal,
        lowercase(x) == lowercase(x2) && lowercase(y) == lowercase(y2) ==> compare_nodes(
            Some(NodeV::Text(x)),
            Some(NodeV::Text(y)),
        ) == compare_nodes(Some(NodeV::Text(x2)), Some(NodeV::Text(y2))),
{
    lemma_lex_refl(lowercase(x));
}

proof fn lemma_lex_refl(a: Seq<char>)
    ensures
        lex(a, a) == Order::Equal,
    decreases a.len(),
{
    if a.len() > 0 {
        lemma_lex_refl(a.drop_first());
    }
}

/// The order of texts is transitive.
pub proof fn lemma_lex_trans(a: Seq<char>, b: Seq<char>, c: Seq<char>)
    requires
        lex(a, b) != Order::Greater,
        lex(b, c) != Order::Greater,
    ensures
        lex(a, c) != Order::Greater,
        lex(a, b) == Order::Less || lex(b, c) == Order::Less ==> lex(a, c) == Order::Less,
    decreases a.len(),
{
    if a.len() > 0 && b.len() > 0 && c.len() > 0 && a[0] == b[0] && b[0] == c[0] {
        lemma_lex_trans(a.drop_first(), b.drop_first(), c.drop_first());
    }
}

/// Exchanging two elements reverses their order.
pub proof fn lemma_compare_reverse(a: Option<NodeV>, b: Option<NodeV>)
    ensures
        compare_nodes(b, a) == reverse(compare_nodes(a, b)),
{
    match (a, b) {
        (Some(NodeV::Text(x)), Some(NodeV::Text(y))) => {
            lemma_lex_reverse(lowercase(x), lowercase(y));
        },
        _ => {},
    }
}

/// Among missing elements, numbers and texts, the order is transitive.
pub proof fn lemma_compare_trans(a: Option<NodeV>, b: Option<NodeV>, c: Option<NodeV>)
    requires
        orderable(a),
        orderable(b),
        orderable(c),
        compare_nodes(a, b) != Order::Greater,
        compare_nodes(b, c) != Order::Greater,
    ensures
        compare_nodes(a, c) != Order::Greater,
        compare_nodes(a, b) == Order::Less || compare_nodes(b, c) == Order::Less
            ==> compare_nodes(a, c) == Order::Less,
{
    match (a, b, c) {
        (Some(NodeV::Text(x)), Some(NodeV::Text(y)), Some(NodeV::Text(z))) => {
            lemma_lex_trans(lowercase(x), lowercase(y), lowercase(z));
        },
        _ => {},
    }
}

/// Lexicographic comparison of two character sequences.
pub fn lex_compare(a: &Vec<char>, b: &Vec<char>) -> (r: Order)
    ensures
        r == lex(a@, b@),
{
    let mut i: usize = 0;
    assert(a@.skip(0) =~= a@ && b@.skip(0) =~= b@);
    while i < a.len() && i < b.len() && a[i] == b[i]
        invariant
            i <= a.len(),
            i <= b.len(),
            lex(a@, b@) == lex(a@.skip(i as int), b@.skip(i as int)),
        decreases a.len() - i,
    {
        assert(a@.skip(i as int).drop_first() =~= a@.skip(i as int + 1));
        assert(b@.skip(i as int).drop_first() =~= b@.skip(i as int + 1));
        i += 1;
    }
    let ghost sa = a@.skip(i as int);
    let ghost sb = b@.skip(i as int);
    if i == a.len() && i == b.len() {
        assert(sa.len() == 0 && sb.len() == 0);
        Order::Equal
    } else if i == a.len() {
        Order::Less
    } else if i == b.len() {
        Order::Greater
    } else if a[i] < b[i] {
        assert(sa[0] == a@[i as int]);
        Order::Less
    } else {
        assert(sa[0] == a@[i as int] && sb[0] == b@[i as int]);
        Order::Greater
    }
}

/// Lower-cased characters of a text.
pub fn lowered_chars(s: &String) -> (r: Vec<char>)
    ensures
        r@ == lowercase(s@),
{
    let l = to_lowercase(s.as_str());
    chars_of(l.as_str())
}

/// Whether two texts are equal once lower-cased.
pub fn texts_equal_ignoring_case(x: &String, y: &String) -> (r: bool)
    ensures
        r == (lowercase(x@) == lowercase(y@)),
{
    let lx = to_lowercase(x.as_str());
    let ly = to_lowercase(y.as_str());
    lx == ly
}

impl Model {
    /// Whether two array elements are equal (`array_nodes_equal_static`).
    pub fn array_nodes_equal_static(a: &ArrayNode, b: &ArrayNode) -> (r: bool)
        ensures
            r == nodes_equal(a@, b@),
    {
        match (a, b) {
            (ArrayNode::Number(x), ArrayNode::Number(y)) => x.scaled == y.scaled,
            (ArrayNode::Text(x), ArrayNode::Text(y)) => texts_equal_ignoring_case(x, y),
            (ArrayNode::Boolean(x), ArrayNode::Boolean(y)) => *x == *y,
            (ArrayNode::Error(x), ArrayNode::Error(y)) => *x == *y,
            _ => false,
        }
    }
}

impl Model {
    /// Whether two rows are equal (`array_rows_equal`).
    pub fn array_rows_equal(a: &Vec<ArrayNode>, b: &Vec<ArrayNode>) -> (r: bool)
        ensures
            r == rows_equal(nodes_view(a@), nodes_view(b@)),
    {
        if a.len() != b.len() {
            return false;
        }
        let mut i: usize = 0;
        while i < a.len()
            invariant
                i <= a.len(),
                a.len() == b.len(),
                forall|k: int| 0 <= k < i ==> nodes_equal(#[trigger] nodes_view(a@)[k], nodes_view(b@)[k]),
            decreases a.len() - i,
        {
            if !Model::array_nodes_equal_static(&a[i], &b[i]) {
                assert(!nodes_equal(nodes_view(a@)[i as int], nodes_view(b@)[i as int]));
                return false;
            }
            i += 1;
        }
        true
    }
}

pub open spec fn opt_view(a: Option<&ArrayNode>) -> Option<NodeV> {
    match a {
        Some(n) => Some(n@),
        None => None,
    }
}

impl Model {
    /// How two possibly missing elements compare (`compare_array_nodes_static`).
    pub fn compare_array_nodes_static(a: Option<&ArrayNode>, b: Option<&ArrayNode>) -> (r: Order)
        ensures
            r == compare_nodes(opt_view(a), opt_view(b)),
    {
        match (a, b) {
            (None, None) => Order::Equal,
            (None, Some(_)) => Order::Less,
            (Some(_), None) => Order::Greater,
            (Some(ArrayNode::Number(x)), Some(ArrayNode::Number(y))) => {
                if x.scaled < y.scaled {
                    Order::Less
                } else if x.scaled > y.scaled {
                    Order::Greater
                } else {
                    Order::Equal
                }
            },
            (Some(ArrayNode::Text(x)), Some(ArrayNode::Text(y))) => {
                let lx = lowered_chars(x);
                let ly = lowered_chars(y);
                lex_compare(&lx, &ly)
            },
            (Some(ArrayNode::Number(_)), Some(ArrayNode::Text(_))) => Order::Less,
            (Some(ArrayNode::Text(_)), Some(ArrayNode::Number(_))) => Order::Greater,
            _ => Order::Equal,
        }
    }
}


/// Equality of array elements is an equivalence.
pub proof fn lemma_nodes_equal_equivalence(a: NodeV, b: NodeV, c: NodeV)
    ensures
        nodes_equal(a, a),
        nodes_equal(a, b) ==> nodes_equal(b, a),
        nodes_equal(a, b) && nodes_equal(b, c) ==> nodes_equal(a, c),
{
}

/// Equality of rows is an equivalence.
pub proof fn lemma_rows_equal_equivalence(a: Seq<NodeV>, b: Seq<NodeV>, c: Seq<NodeV>)
    ensures
        rows_equal(a, a),
        rows_equal(a, b) ==> rows_equal(b, a),
        rows_equal(a, b) && rows_equal(b, c) ==> rows_equal(a, c),
{
    assert forall|i: int| 0 <= i < a.len() implies nodes_equal(#[trigger] a[i], a[i]) by {
        lemma_nodes_equal_equivalence(a[i], a[i], a[i]);
    }
    if rows_equal(a, b) {
        assert forall|i: int| 0 <= i < b.len() implies nodes_equal(#[trigger] b[i], a[i]) by {
            lemma_nodes_equal_equivalence(a[i], b[i], b[i]);
        }
    }
    if rows_equal(a, b) && rows_equal(b, c) {
        assert forall|i: int| 0 <= i < a.len() implies nodes_equal(#[trigger] a[i], c[i]) by {
            lemma_nodes_equal_equivalence(a[i], b[i], c[i]);
        }
    }
}

} // verus!
