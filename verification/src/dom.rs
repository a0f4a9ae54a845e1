//! The node-tree model the extractor walks.
//!
//! A parsed document is a tree of elements and text nodes. The structural
//! parser itself is an external collaborator; the surrounding application
//! converts its output into this tree, and everything that reads the tree
//! is verified against the spec functions here.

use vstd::prelude::*;

verus! {

/// One node of a parsed document: an element or a raw text node.
pub enum DomNode {
    Element(DomElement),
    Text(String),
}

/// An element: a tag name, attributes with unique keys, and child nodes in
/// document order.
pub struct DomElement {
    pub name: String,
    pub attrs: Vec<(String, String)>,
    pub children: Vec<DomNode>,
}

/// Value of the first attribute named `name`, if any.
pub open spec fn attr_of(attrs: Seq<(String, String)>, name: Seq<char>) -> Option<Seq<char>>
    decreases attrs.len(),
{
    if attrs.len() == 0 {
        None
    } else if attrs[0].0@ == name {
        Some(attrs[0].1@)
    } else {
        attr_of(attrs.drop_first(), name)
    }
}

/// The contents of every descendant text node of `n`, in document order.
pub open spec fn texts_in_node(n: DomNode) -> Seq<Seq<char>>
    decreases n,
{
    match n {
        DomNode::Text(t) => seq![t@],
        DomNode::Element(e) => texts_in_nodes(e.children@),
    }
}

/// The contents of every descendant text node under `ns`, in document order.
pub open spec fn texts_in_nodes(ns: Seq<DomNode>) -> Seq<Seq<char>>
    decreases ns,
{
    if ns.len() == 0 {
        Seq::empty()
    } else {
        texts_in_node(ns[0]) + texts_in_nodes(ns.drop_first())
    }
}

/// Join string parts with a single space between adjacent parts.
pub open spec fn join_sp(parts: Seq<Seq<char>>) -> Seq<char>
    decreases parts.len(),
{
    if parts.len() == 0 {
        Seq::empty()
    } else if parts.len() == 1 {
        parts[0]
    } else {
        parts[0] + seq![' '] + join_sp(parts.drop_first())
    }
}

/// The space-joined descendant text of an element.
pub open spec fn elem_text(e: DomElement) -> Seq<char> {
    join_sp(texts_in_nodes(e.children@))
}

/// The string one child contributes to its parent's joined text: a text
/// node contributes its raw content, an element its joined descendant text.
pub open spec fn node_string(n: DomNode) -> Seq<char> {
    match n {
        DomNode::Text(t) => t@,
        DomNode::Element(e) => elem_text(e),
    }
}

/// The per-child strings of `ns`, in order.
pub open spec fn child_strings(ns: Seq<DomNode>) -> Seq<Seq<char>>
    decreases ns.len(),
{
    if ns.len() == 0 {
        Seq::empty()
    } else {
        seq![node_string(ns[0])] + child_strings(ns.drop_first())
    }
}

/// The views of a sequence of strings.
pub open spec fn str_views(ss: Seq<String>) -> Seq<Seq<char>> {
    ss.map_values(|s: String| s@)
}

proof fn lemma_texts_in_nodes_push(ns: Seq<DomNode>, x: DomNode)
    ensures
        texts_in_nodes(ns.push(x)) == texts_in_nodes(ns) + texts_in_node(x),
    decreases ns.len(),
{
    reveal_with_fuel(texts_in_nodes, 3);
    if ns.len() == 0 {
        assert(ns.push(x)[0] == x);
        assert(ns.push(x).drop_first() =~= Seq::<DomNode>::empty());
        assert(texts_in_nodes(ns.push(x)) =~= texts_in_node(x));
        assert(texts_in_nodes(ns) + texts_in_node(x) =~= texts_in_node(x));
    } else {
        assert(ns.push(x).drop_first() =~= ns.drop_first().push(x));
        assert(ns.push(x)[0] == ns[0]);
        lemma_texts_in_nodes_push(ns.drop_first(), x);
        assert(texts_in_node(ns[0]) + (texts_in_nodes(ns.drop_first()) + texts_in_node(x)) =~= (
        texts_in_node(ns[0]) + texts_in_nodes(ns.drop_first())) + texts_in_node(x));
    }
}

proof fn lemma_child_strings_push(ns: Seq<DomNode>, x: DomNode)
    ensures
        child_strings(ns.push(x)) == child_strings(ns).push(node_string(x)),
    decreases ns.len(),
{
    reveal_with_fuel(child_strings, 3);
    if ns.len() == 0 {
        assert(ns.push(x)[0] == x);
        assert(ns.push(x).drop_first() =~= Seq::<DomNode>::empty());
        assert(child_strings(ns.push(x)) =~= child_strings(ns).push(node_string(x)));
    } else {
        assert(ns.push(x).drop_first() =~= ns.drop_first().push(x));
        assert(ns.push(x)[0] == ns[0]);
        lemma_child_strings_push(ns.drop_first(), x);
        assert(seq![node_string(ns[0])] + child_strings(ns.drop_first()).push(node_string(x)) =~= (
        seq![node_string(ns[0])] + child_strings(ns.drop_first())).push(node_string(x)));
    }
}

proof fn lemma_str_views_push(ss: Seq<String>, x: String)
    ensures
        str_views(ss.push(x)) == str_views(ss).push(x@),
{
    assert(str_views(ss.push(x)) =~= str_views(ss).push(x@));
}

proof fn lemma_join_sp_push(parts: Seq<Seq<char>>, x: Seq<char>)
    requires
        parts.len() >= 1,
    ensures
        join_sp(parts.push(x)) == join_sp(parts) + seq![' '] + x,
    decreases parts.len(),
{
    if parts.len() == 1 {
        assert(parts.push(x)[0] == parts[0]);
        assert(parts.push(x).drop_first() =~= seq![x]);
        assert(join_sp(seq![x]) == x);
    } else {
        assert(parts.push(x)[0] == parts[0]);
        assert(parts.push(x).drop_first() =~= parts.drop_first().push(x));
        lemma_join_sp_push(parts.drop_first(), x);
        assert(parts[0] + seq![' '] + (join_sp(parts.drop_first()) + seq![' '] + x) =~= (parts[0]
            + seq![' '] + join_sp(parts.drop_first())) + seq![' '] + x);
    }
}

/// Append the content of every descendant text node of `n` to `out`.
fn collect_texts_node(n: &DomNode, out: &mut Vec<String>)
    ensures
        str_views(final(out)@) == str_views(old(out)@) + texts_in_node(*n),
    decreases n,
{
    match n {
        DomNode::Text(t) => {
            out.push(t.clone());
            proof {
                lemma_str_views_push(old(out)@, out@.last());
                assert(str_views(out@) =~= str_views(old(out)@) + texts_in_node(*n));
            }
        },
        DomNode::Element(e) => {
            collect_texts_nodes(&e.children, out);
        },
    }
}

/// Append the content of every descendant text node under `ns` to `out`.
fn collect_texts_nodes(ns: &Vec<DomNode>, out: &mut Vec<String>)
    ensures
        str_views(final(out)@) == str_views(old(out)@) + texts_in_nodes(ns@),
    decreases ns@,
{
    let k = ns.len();
    let mut i: usize = 0;
    proof {
        assert(ns@.take(0) =~= Seq::<DomNode>::empty());
        assert(str_views(out@) + texts_in_nodes(ns@.take(0)) =~= str_views(out@));
    }
    while i < k
        invariant
            0 <= i <= k,
            k == ns@.len(),
            str_views(out@) == str_views(old(out)@) + texts_in_nodes(ns@.take(i as int)),
        decreases k - i,
    {
        collect_texts_node(&ns[i], out);
        proof {
            lemma_texts_in_nodes_push(ns@.take(i as int), ns@[i as int]);
            assert(ns@.take(i as int).push(ns@[i as int]) =~= ns@.take(i as int + 1));
            assert(str_views(out@) =~= str_views(old(out)@) + texts_in_nodes(
                ns@.take(i as int + 1),
            ));
        }
        i = i + 1;
    }
    proof {
        assert(ns@.take(k as int) =~= ns@);
    }
}

/// Join the strings of `parts` with single spaces.
fn join_with_spaces(parts: &Vec<String>) -> (r: String)
    ensures
        r@ == join_sp(str_views(parts@)),
{
    let k = parts.len();
    if k == 0 {
        let r = String::new();
        proof {
            assert(str_views(parts@) =~= Seq::<Seq<char>>::empty());
        }
        return r;
    }
    let mut r: String = parts[0].clone();
    let mut i: usize = 1;
    proof {
        assert(str_views(parts@.take(1))[0] == parts@[0]@);
        assert(join_sp(str_views(parts@.take(1))) == r@);
    }
    while i < k
        invariant
            1 <= i <= k,
            k == parts@.len(),
            r@ == join_sp(str_views(parts@.take(i as int))),
        decreases k - i,
    {
        r.append(" ");
        r.append(parts[i].as_str());
        proof {
            reveal_strlit(" ");
            assert(" "@ =~= seq![' ']);
            let pv = str_views(parts@.take(i as int));
            assert(pv.len() == i);
            lemma_join_sp_push(pv, parts@[i as int]@);
            assert(pv.push(parts@[i as int]@) =~= str_views(parts@.take(i as int + 1)));
        }
        i = i + 1;
    }
    proof {
        assert(parts@.take(k as int) =~= parts@);
    }
    r
}

/// The space-joined descendant text of an element, as a string.
pub fn element_text(e: &DomElement) -> (r: String)
    ensures
        r@ == elem_text(*e),
{
    let mut parts: Vec<String> = Vec::new();
    proof {
        assert(str_views(parts@) =~= Seq::<Seq<char>>::empty());
    }
    collect_texts_nodes(&e.children, &mut parts);
    proof {
        assert(str_views(parts@) =~= texts_in_nodes(e.children@));
    }
    join_with_spaces(&parts)
}

/// The per-child joined text of an element: one string per child node,
/// joined with single spaces.
pub fn children_joined_text(e: &DomElement) -> (r: String)
    ensures
        r@ == join_sp(child_strings(e.children@)),
{
    let mut parts: Vec<String> = Vec::new();
    let k = e.children.len();
    let mut i: usize = 0;
    proof {
        assert(e.children@.take(0) =~= Seq::<DomNode>::empty());
        assert(str_views(parts@) =~= child_strings(e.children@.take(0)));
    }
    while i < k
        invariant
            0 <= i <= k,
            k == e.children@.len(),
            str_views(parts@) == child_strings(e.children@.take(i as int)),
        decreases k - i,
    {
        let ghost before = parts@;
        match &e.children[i] {
            DomNode::Text(t) => {
                parts.push(t.clone());
                proof {
                    lemma_str_views_push(before, parts@.last());
                }
            },
            DomNode::Element(ce) => {
                let s = element_text(ce);
                parts.push(s);
                proof {
                    lemma_str_views_push(before, parts@.last());
                }
            },
        }
        proof {
            lemma_child_strings_push(e.children@.take(i as int), e.children@[i as int]);
            assert(e.children@.take(i as int).push(e.children@[i as int]) =~= e.children@.take(
                i as int + 1,
            ));
            assert(str_views(parts@) =~= child_strings(e.children@.take(i as int + 1)));
        }
        i = i + 1;
    }
    proof {
        assert(e.children@.take(k as int) =~= e.children@);
    }
    join_with_spaces(&parts)
}

} // verus!
