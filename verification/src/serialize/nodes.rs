//! The binary form of the n-gram tree: each node as its gram, its two counts
//! and its children, one after the other.
use vstd::prelude::*;

use crate::hashing::{char_positions, char_positions_insert, char_positions_new};
use crate::ngram::node::{distinct_items, item_positions, node_view, view_wf, GramNode, GramNodeView};
use crate::serialize::primitives::{encode_varint, lemma_char_round_trip, lemma_u32_round_trip, lemma_usize_round_trip};
use crate::serialize::{Decoding, Deserializable, Serializable};

verus! {

/// The written form of a node: gram, count, parent count, number of
/// children, then the children.
pub open spec fn spec_serialize_node(v: GramNodeView) -> Seq<u8>
    decreases v,
{
    char::spec_serialize(v.item) + u32::spec_serialize(v.occurrences) + u32::spec_serialize(
        v.parent_occurrences,
    ) + usize::spec_serialize(v.children.len() as usize) + spec_serialize_children(v.children)
}

/// The written forms of nodes, one after the other.
pub open spec fn spec_serialize_children(s: Seq<GramNodeView>) -> Seq<u8>
    decreases s,
{
    if s.len() == 0 {
        Seq::empty()
    } else {
        spec_serialize_node(s[0]) + spec_serialize_children(s.drop_first())
    }
}

/// The lookup map built from children in order: each gram to the position
/// of its last child.
pub open spec fn positions_of(children: Seq<GramNodeView>) -> Map<char, usize>
    decreases children.len(),
{
    if children.len() == 0 {
        Map::empty()
    } else {
        positions_of(children.drop_last()).insert(children.last().item, (children.len() - 1) as usize)
    }
}

/// What reading a node's gram, counts and number of children gives.
pub open spec fn parse_header(input: Seq<u8>) -> Decoding<(char, u32, u32, usize)> {
    match char::spec_deserialize(input) {
        Decoding::Complete(item, a) => match u32::spec_deserialize(input.skip(a as int)) {
            Decoding::Complete(occ, b) => match u32::spec_deserialize(input.skip((a + b) as int)) {
                Decoding::Complete(par, c) => match usize::spec_deserialize(input.skip((a + b + c) as int)) {
                    Decoding::Complete(len, d) => Decoding::Complete((item, occ, par, len), a + b + c + d),
                    Decoding::Rejected => Decoding::Rejected,
                    Decoding::Aborts => Decoding::Aborts,
                },
                Decoding::Rejected => Decoding::Rejected,
                Decoding::Aborts => Decoding::Aborts,
            },
            Decoding::Rejected => Decoding::Rejected,
            Decoding::Aborts => Decoding::Aborts,
        },
        Decoding::Rejected => Decoding::Rejected,
        Decoding::Aborts => Decoding::Aborts,
    }
}

/// What reading a node gives: its header, then as many children as it
/// says, its lookup map built from them.
pub open spec fn parse_node(input: Seq<u8>) -> Decoding<GramNodeView>
    decreases input.len(), 0nat,
{
    match parse_header(input) {
        Decoding::Complete((item, occ, par, len), h) => if 0 < h <= input.len() {
            match parse_children(input.skip(h as int), len as nat) {
                Decoding::Complete(children, m) => Decoding::Complete(
                    GramNodeView {
                        item,
                        occurrences: occ,
                        parent_occurrences: par,
                        children,
                        positions: positions_of(children),
                    },
                    h + m,
                ),
                Decoding::Rejected => Decoding::Rejected,
                Decoding::Aborts => Decoding::Aborts,
            }
        } else {
            Decoding::Rejected
        },
        Decoding::Rejected => Decoding::Rejected,
        Decoding::Aborts => Decoding::Aborts,
    }
}

/// What reading `count` nodes one after the other gives.
pub open spec fn parse_children(input: Seq<u8>, count: nat) -> Decoding<Seq<GramNodeView>>
    decreases input.len(), 1nat, count,
{
    if count == 0 {
        Decoding::Complete(Seq::empty(), 0)
    } else {
        match parse_node(input) {
            Decoding::Complete(v, m) => if 0 < m <= input.len() {
                match parse_children(input.skip(m as int), (count - 1) as nat) {
                    Decoding::Complete(vs, k) => Decoding::Complete(seq![v] + vs, m + k),
                    Decoding::Rejected => Decoding::Rejected,
                    Decoding::Aborts => Decoding::Aborts,
                }
            } else {
                Decoding::Rejected
            },
            Decoding::Rejected => Decoding::Rejected,
            Decoding::Aborts => Decoding::Aborts,
        }
    }
}

/// Writing one more node appends its written form.
pub proof fn lemma_children_push(s: Seq<GramNodeView>, x: GramNodeView)
    ensures
        spec_serialize_children(s.push(x)) == spec_serialize_children(s) + spec_serialize_node(x),
    decreases s.len(),
{
    if s.len() == 0 {
        assert(s.push(x).drop_first() =~= Seq::<GramNodeView>::empty());
        assert(s.push(x)[0] == x);
        assert(spec_serialize_children(Seq::<GramNodeView>::empty()) == Seq::<u8>::empty());
        assert(spec_serialize_node(x) + Seq::<u8>::empty() =~= spec_serialize_node(x));
        assert(Seq::<u8>::empty() + spec_serialize_node(x) =~= spec_serialize_node(x));
    } else {
        lemma_children_push(s.drop_first(), x);
        assert(s.push(x).drop_first() =~= s.drop_first().push(x));
        assert(s.push(x)[0] == s[0]);
        let a = spec_serialize_node(s[0]);
        let b = spec_serialize_children(s.drop_first());
        let c = spec_serialize_node(x);
        assert(spec_serialize_children(s.push(x)) == a + (b + c));
        assert(a + (b + c) =~= (a + b) + c);
    }
}

/// Writes a node and, after it, its children.
pub fn serialize_node(node: &GramNode, output: &mut Vec<u8>)
    ensures
        final(output)@ == old(output)@ + spec_serialize_node(node.deep_view()),
    decreases node,
{
    let ghost v = node.deep_view();
    node.item.serialize(output);
    node.occurrences.serialize(output);
    node.parent_occurrences.serialize(output);
    node.by_occurances.len().serialize(output);
    let ghost header = output@;
    let mut i: usize = 0;
    while i < node.by_occurances.len()
        invariant
            v == node.deep_view(),
            i <= node.by_occurances@.len(),
            output@ == header + spec_serialize_children(v.children.take(i as int)),
        decreases node.by_occurances@.len() - i,
    {
        proof {
            assert(v.children[i as int] == node.by_occurances@[i as int].deep_view());
            lemma_children_push(v.children.take(i as int), v.children[i as int]);
            assert(v.children.take(i + 1) =~= v.children.take(i as int).push(v.children[i as int]));
        }
        serialize_node(&node.by_occurances[i], output);
        i = i + 1;
    }
    assert(v.children.take(i as int) =~= v.children);
    assert(output@ =~= old(output)@ + spec_serialize_node(v));
}

/// Reads a node and its children, and builds each node's lookup map.
pub fn deserialize_node(input: &[u8]) -> (res: Option<(&[u8], GramNode)>)
    ensures
        match parse_node(input@) {
            Decoding::Complete(v, n) => res matches Some((rest, node)) && n <= input@.len() && rest@
                == input@.skip(n as int) && node.deep_view() == v,
            _ => res is None,
        },
    decreases input@.len(),
{
    let (r1, item) = char::deserialize(input)?;
    let ghost a = (input@.len() - r1@.len()) as nat;
    let (r2, occurrences) = u32::deserialize(r1)?;
    let ghost b = (r1@.len() - r2@.len()) as nat;
    assert(r2@ =~= input@.skip((a + b) as int));
    let (r3, parent_occurrences) = u32::deserialize(r2)?;
    let ghost c = (r2@.len() - r3@.len()) as nat;
    assert(r3@ =~= input@.skip((a + b + c) as int));
    let (r4, len) = usize::deserialize(r3)?;
    let ghost d = (r3@.len() - r4@.len()) as nat;
    let ghost h = (input@.len() - r4@.len()) as nat;
    proof {
        assert(r4@ =~= input@.skip(h as int));
        assert(h == a + b + c + d);
        assert(parse_header(input@) == Decoding::Complete((item, occurrences, parent_occurrences, len), h));
    }
    if r4.len() >= input.len() {
        assert(parse_node(input@) is Rejected);
        return None;
    }
    assert(0 < h <= input@.len());
    assert(parse_node(input@) == match parse_children(r4@, len as nat) {
        Decoding::Complete(children, m) => Decoding::Complete(
            GramNodeView {
                item,
                occurrences,
                parent_occurrences,
                children,
                positions: positions_of(children),
            },
            h + m,
        ),
        Decoding::Rejected => Decoding::Rejected,
        Decoding::Aborts => Decoding::Aborts,
    });
    let mut rest = r4;
    let mut children: Vec<GramNode> = Vec::new();
    let mut k: usize = 0;
    while k < len
        invariant
            k <= len,
            rest@.len() <= r4@.len(),
            r4@.len() < input@.len(),
            rest@ == r4@.skip(r4@.len() - rest@.len()),
            children@.len() == k,
            parse_node(input@) == match parse_children(r4@, len as nat) {
                Decoding::Complete(children, m) => Decoding::Complete(
                    GramNodeView {
                        item,
                        occurrences,
                        parent_occurrences,
                        children,
                        positions: positions_of(children),
                    },
                    h + m,
                ),
                Decoding::Rejected => Decoding::Rejected,
                Decoding::Aborts => Decoding::Aborts,
            },
            parse_children(r4@, len as nat) == match parse_children(rest@, (len - k) as nat) {
                Decoding::Complete(vs, m) => Decoding::Complete(
                    Seq::new(k as nat, |i: int| node_view(children@[i])) + vs,
                    ((r4@.len() - rest@.len()) + m) as nat,
                ),
                Decoding::Rejected => Decoding::Rejected,
                Decoding::Aborts => Decoding::Aborts,
            },
        decreases len - k,
    {
        let ghost before = rest@;
        let ghost done = Seq::new(k as nat, |i: int| node_view(children@[i]));
        match deserialize_node(rest) {
            Some((after, child)) => {
                let ghost m = (before.len() - after@.len()) as nat;
                if after.len() >= rest.len() {
                    assert(parse_children(before, (len - k) as nat) is Rejected);
                    return None;
                }
                children.push(child);
                rest = after;
                proof {
                    assert(after@ =~= r4@.skip(r4@.len() - after@.len()));
                    let done2 = Seq::new((k + 1) as nat, |i: int| node_view(children@[i]));
                    assert(done2 =~= done.push(node_view(child)));
                    match parse_children(after@, (len - k - 1) as nat) {
                        Decoding::Complete(vs, m2) => {
                            assert(done + (seq![node_view(child)] + vs) =~= done2 + vs);
                        },
                        _ => {},
                    }
                }
            },
            None => {
                assert(!(parse_node(before) is Complete));
                assert(!(parse_children(before, (len - k) as nat) is Complete));
                assert(!(parse_children(r4@, len as nat) is Complete));
                return None;
            },
        }
        k = k + 1;
    }
    let ghost views = Seq::new(len as nat, |i: int| node_view(children@[i]));
    assert(parse_children(rest@, 0) == Decoding::<Seq<GramNodeView>>::Complete(Seq::empty(), 0));
    assert(views + Seq::<GramNodeView>::empty() =~= views);
    let mut items = char_positions_new();
    let mut i: usize = 0;
    assert(views.take(0) =~= Seq::<GramNodeView>::empty());
    while i < children.len()
        invariant
            i <= children@.len(),
            views == Seq::new(children@.len(), |j: int| node_view(children@[j])),
            char_positions(items) == positions_of(views.take(i as int)),
        decreases children@.len() - i,
    {
        char_positions_insert(&mut items, children[i].item, i);
        proof {
            assert(views.take(i + 1).drop_last() =~= views.take(i as int));
            assert(views[i as int].item == children@[i as int].item);
        }
        i = i + 1;
    }
    assert(views.take(i as int) =~= views);
    let node = GramNode { item, occurrences, parent_occurrences, by_occurances: children, items };
    proof {
        assert(node_view(node).children =~= views);
    }
    Some((rest, node))
}

/// The nodes whose written form reads back unchanged: every node has fewer
/// children than the length reader gives back.
pub open spec fn node_round_trips(v: GramNodeView) -> bool
    decreases v,
{
    &&& v.children.len() <= usize::MAX
    &&& forall|i: int| 0 <= i < v.children.len() ==> node_round_trips(#[trigger] v.children[i])
}

/// With distinct grams, the map built from the children in order is the
/// map from each gram to its child's position.
pub proof fn lemma_positions_of_distinct(s: Seq<GramNodeView>)
    requires
        distinct_items(s),
    ensures
        positions_of(s) == item_positions(s),
    decreases s.len(),
{
    if s.len() > 0 {
        let init = s.drop_last();
        assert(distinct_items(init)) by {
            assert forall|i: int, j: int| 0 <= i < j < init.len() implies #[trigger] init[i].item
                != #[trigger] init[j].item by {
                assert(init[i] == s[i] && init[j] == s[j]);
            }
        }
        lemma_positions_of_distinct(init);
        assert forall|c: char| #[trigger] positions_of(s).contains_key(c) <==> item_positions(s).contains_key(c) by {
            if item_positions(s).contains_key(c) {
                let i = choose|i: int| 0 <= i < s.len() && s[i].item == c;
                if i < s.len() - 1 {
                    assert(init[i].item == c);
                }
            }
            if positions_of(s).contains_key(c) && c != s.last().item {
                assert(item_positions(init).contains_key(c));
                let i = choose|i: int| 0 <= i < init.len() && init[i].item == c;
                assert(s[i].item == c);
            }
        }
        assert forall|c: char| #[trigger] positions_of(s).contains_key(c) implies positions_of(s)[c]
            == item_positions(s)[c] by {
            let i = choose|i: int| 0 <= i < s.len() && s[i].item == c;
            if c == s.last().item {
                assert(i == s.len() - 1);
            } else {
                assert(i < s.len() - 1);
                assert(init[i].item == c);
                let i2 = choose|i2: int| 0 <= i2 < init.len() && init[i2].item == c;
                assert(s[i2].item == c);
            }
        }
        assert(positions_of(s) =~= item_positions(s));
    } else {
        assert(item_positions(s) =~= Map::<char, usize>::empty());
    }
}

/// The written form of a node's gram, counts and number of children.
pub open spec fn header_bytes(item: char, occ: u32, par: u32, len: usize) -> Seq<u8> {
    char::spec_serialize(item) + u32::spec_serialize(occ) + u32::spec_serialize(par) + usize::spec_serialize(len)
}

#[verifier::rlimit(100)]
#[verifier::spinoff_prover]
proof fn lemma_header_round_trip(item: char, occ: u32, par: u32, len: usize, tail: Seq<u8>)
    ensures
        parse_header(header_bytes(item, occ, par, len) + tail) == Decoding::Complete(
            (item, occ, par, len),
            header_bytes(item, occ, par, len).len(),
        ),
        header_bytes(item, occ, par, len).len() >= 1,
{
    let a = char::spec_serialize(item);
    let b = u32::spec_serialize(occ);
    let c = u32::spec_serialize(par);
    let d = usize::spec_serialize(len);
    let input = header_bytes(item, occ, par, len) + tail;
    let t1 = b + (c + (d + tail));
    let t2 = c + (d + tail);
    let t3 = d + tail;
    assert(input =~= a + t1);
    lemma_char_round_trip(item, t1);
    assert(char::spec_deserialize(input) == Decoding::Complete(item, a.len()));
    assert(input.skip(a.len() as int) =~= t1);
    lemma_u32_round_trip(occ, t2);
    assert(u32::spec_deserialize(input.skip(a.len() as int)) == Decoding::Complete(occ, b.len()));
    assert(input.skip((a.len() + b.len()) as int) =~= t2);
    lemma_u32_round_trip(par, t3);
    assert(u32::spec_deserialize(input.skip((a.len() + b.len()) as int)) == Decoding::Complete(par, c.len()));
    assert(input.skip((a.len() + b.len() + c.len()) as int) =~= t3);
    lemma_usize_round_trip(len, tail);
    assert(usize::spec_deserialize(input.skip((a.len() + b.len() + c.len()) as int)) == Decoding::Complete(
        len,
        d.len(),
    ));
    assert(a.len() >= 1) by {
        assert(encode_varint(item as u32 as nat).len() >= 1);
    }
}

/// Writing a well-formed node and reading it back from the front of any
/// bytes gives the node and the number of bytes written.
pub proof fn lemma_node_round_trip(v: GramNodeView, rest: Seq<u8>)
    requires
        view_wf(v),
        node_round_trips(v),
    ensures
        parse_node(spec_serialize_node(v) + rest) == Decoding::Complete(v, spec_serialize_node(v).len()),
    decreases v,
{
    let len = v.children.len() as usize;
    let head = header_bytes(v.item, v.occurrences, v.parent_occurrences, len);
    let body = spec_serialize_children(v.children);
    let input = spec_serialize_node(v) + rest;
    assert(spec_serialize_node(v) == head + body);
    assert(input =~= head + (body + rest));
    lemma_header_round_trip(v.item, v.occurrences, v.parent_occurrences, len, body + rest);
    assert(input.skip(head.len() as int) =~= body + rest);
    assert forall|i: int| 0 <= i < v.children.len() implies view_wf(#[trigger] v.children[i])
        && node_round_trips(v.children[i]) by {
    }
    lemma_children_round_trip(v.children, rest);
    lemma_positions_of_distinct(v.children);
}

/// Writing well-formed nodes one after the other and reading them back
/// gives them and the number of bytes written.
pub proof fn lemma_children_round_trip(s: Seq<GramNodeView>, rest: Seq<u8>)
    requires
        forall|i: int| 0 <= i < s.len() ==> view_wf(#[trigger] s[i]) && node_round_trips(s[i]),
    ensures
        parse_children(spec_serialize_children(s) + rest, s.len()) == Decoding::Complete(
            s,
            spec_serialize_children(s).len(),
        ),
    decreases s,
{
    if s.len() == 0 {
        assert(spec_serialize_children(s) == Seq::<u8>::empty());
        assert(s =~= Seq::<GramNodeView>::empty());
    } else {
        let first = spec_serialize_node(s[0]);
        let others = spec_serialize_children(s.drop_first());
        let input = spec_serialize_children(s) + rest;
        assert(input =~= first + (others + rest));
        lemma_node_round_trip(s[0], others + rest);
        assert(first.len() >= 1) by {
            assert(char::spec_serialize(s[0].item).len() >= 1);
        }
        assert(input.skip(first.len() as int) =~= others + rest);
        assert forall|i: int| 0 <= i < s.drop_first().len() implies view_wf(#[trigger] s.drop_first()[i])
            && node_round_trips(s.drop_first()[i]) by {
            assert(s.drop_first()[i] == s[i + 1]);
        }
        lemma_children_round_trip(s.drop_first(), rest);
        assert(seq![s[0]] + s.drop_first() =~= s);
    }
}

} // verus!
