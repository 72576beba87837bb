//! The raw node tree: the uniform value representation of a parsed
//! document (null, booleans, numbers, text, arrays, objects), with object
//! entries kept in document order, and the flattening that indexes every
//! sub-node by its pointer.

use vstd::prelude::*;

use crate::location::str_eq;

verus! {

/// The mathematical value of a [`Node`].
#[verifier::ext_equal]
pub ghost enum NodeView {
    Null,
    Boolean(bool),
    Number(Seq<char>),
    Text(Seq<char>),
    Array(Seq<NodeView>),
    Object(Seq<(Seq<char>, NodeView)>),
}

/// One node of a parsed document. A number is kept as its literal text:
/// the engine never computes with numbers, it only carries them.
pub enum Node {
    Null,
    Boolean(bool),
    Number(String),
    Text(String),
    Array(Vec<Node>),
    Object(Vec<(String, Node)>),
}

pub open spec fn node_view(n: Node) -> NodeView
    decreases n, 1int,
{
    match n {
        Node::Null => NodeView::Null,
        Node::Boolean(b) => NodeView::Boolean(b),
        Node::Number(s) => NodeView::Number(s@),
        Node::Text(s) => NodeView::Text(s@),
        Node::Array(items) => NodeView::Array(items_view_from(items@, 0)),
        Node::Object(entries) => NodeView::Object(entries_view_from(entries@, 0)),
    }
}

pub open spec fn items_view_from(items: Seq<Node>, k: int) -> Seq<NodeView>
    decreases items, items.len() - k,
{
    if k < 0 || k >= items.len() {
        Seq::empty()
    } else {
        seq![node_view(items[k])] + items_view_from(items, k + 1)
    }
}

pub open spec fn entries_view_from(entries: Seq<(String, Node)>, k: int) -> Seq<
    (Seq<char>, NodeView),
>
    decreases entries, entries.len() - k,
{
    if k < 0 || k >= entries.len() {
        Seq::empty()
    } else {
        seq![(entries[k].0@, node_view(entries[k].1))] + entries_view_from(entries, k + 1)
    }
}

impl View for Node {
    type V = NodeView;

    open spec fn view(&self) -> NodeView {
        node_view(*self)
    }
}

impl DeepView for Node {
    type V = NodeView;

    open spec fn deep_view(&self) -> NodeView {
        node_view(*self)
    }
}

/// The view of an array node indexes the views of its items.
pub proof fn lemma_items_view(items: Seq<Node>, k: int)
    requires
        0 <= k <= items.len(),
    ensures
        items_view_from(items, k).len() == items.len() - k,
        forall|j: int|
            k <= j < items.len() ==> items_view_from(items, k)[j - k] == node_view(
                #[trigger] items[j],
            ),
    decreases items.len() - k,
{
    if k < items.len() {
        lemma_items_view(items, k + 1);
    }
}

/// The view of an object node indexes the keys and views of its entries.
pub proof fn lemma_entries_view(entries: Seq<(String, Node)>, k: int)
    requires
        0 <= k <= entries.len(),
    ensures
        entries_view_from(entries, k).len() == entries.len() - k,
        forall|j: int|
            k <= j < entries.len() ==> entries_view_from(entries, k)[j - k] == ((
            #[trigger] entries[j]).0@, node_view(entries[j].1)),
    decreases entries.len() - k,
{
    if k < entries.len() {
        lemma_entries_view(entries, k + 1);
    }
}

/// Looks a key up among object entries; the first match wins.
pub open spec fn lookup_obj(entries: Seq<(Seq<char>, NodeView)>, key: Seq<char>) -> Option<
    NodeView,
>
    decreases entries.len(),
{
    if entries.len() == 0 {
        None
    } else if entries[0].0 == key {
        Some(entries[0].1)
    } else {
        lookup_obj(entries.drop_first(), key)
    }
}

/// The member of an object node under `key`; `None` on other nodes.
pub open spec fn get_field(n: NodeView, key: Seq<char>) -> Option<NodeView> {
    match n {
        NodeView::Object(entries) => lookup_obj(entries, key),
        _ => None,
    }
}

pub proof fn lemma_lookup_at(entries: Seq<(Seq<char>, NodeView)>, key: Seq<char>, i: int)
    requires
        0 <= i < entries.len(),
        entries[i].0 == key,
        forall|j: int| 0 <= j < i ==> (#[trigger] entries[j]).0 != key,
    ensures
        lookup_obj(entries, key) == Some(entries[i].1),
    decreases entries.len(),
{
    if i > 0 {
        assert(forall|j: int|
            0 <= j < i - 1 ==> (#[trigger] entries.drop_first()[j]) == entries[j + 1]);
        lemma_lookup_at(entries.drop_first(), key, i - 1);
    }
}

pub proof fn lemma_lookup_none(entries: Seq<(Seq<char>, NodeView)>, key: Seq<char>)
    requires
        forall|j: int| 0 <= j < entries.len() ==> (#[trigger] entries[j]).0 != key,
    ensures
        lookup_obj(entries, key) is None,
    decreases entries.len(),
{
    if entries.len() > 0 {
        assert(forall|j: int|
            0 <= j < entries.len() - 1 ==> (#[trigger] entries.drop_first()[j]) == entries[j + 1]);
        lemma_lookup_none(entries.drop_first(), key);
    }
}

impl Node {
    /// The member of this object node under `key`.
    pub fn get<'a>(&'a self, key: &str) -> (r: Option<&'a Node>)
        ensures
            match get_field(self@, key@) {
                Some(v) => r matches Some(c) && c@ == v,
                None => r is None,
            },
    {
        match self {
            Node::Object(entries) => {
                proof {
                    lemma_entries_view(entries@, 0);
                }
                let n = entries.len();
                let mut i: usize = 0;
                while i < n
                    invariant
                        i <= n,
                        n == entries@.len(),
                        *self == Node::Object(*entries),
                        forall|j: int| 0 <= j < i ==> (#[trigger] entries@[j]).0@ != key@,
                    decreases n - i,
                {
                    if str_eq(entries[i].0.as_str(), key) {
                        proof {
                            lemma_entries_view(entries@, 0);
                            let ev = entries_view_from(entries@, 0);
                            assert(forall|j: int|
                                0 <= j < i ==> (#[trigger] ev[j]) == (entries@[j].0@, node_view(
                                    entries@[j].1,
                                )));
                            lemma_lookup_at(ev, key@, i as int);
                        }
                        return Some(&entries[i].1);
                    }
                    i += 1;
                }
                proof {
                    lemma_entries_view(entries@, 0);
                    let ev = entries_view_from(entries@, 0);
                    assert(forall|j: int|
                        0 <= j < ev.len() ==> (#[trigger] ev[j]) == (entries@[j].0@, node_view(
                            entries@[j].1,
                        )));
                    lemma_lookup_none(ev, key@);
                }
                None
            },
            _ => None,
        }
    }

    /// The boolean carried by this node, if it is one.
    pub fn as_bool(&self) -> (r: Option<bool>)
        ensures
            match self@ {
                NodeView::Boolean(b) => r == Some(b),
                _ => r is None,
            },
    {
        match self {
            Node::Boolean(b) => Some(*b),
            _ => None,
        }
    }

    /// The text carried by this node, if it is text.
    pub fn as_text<'a>(&'a self) -> (r: Option<&'a String>)
        ensures
            match self@ {
                NodeView::Text(t) => r matches Some(s) && s@ == t,
                _ => r is None,
            },
    {
        match self {
            Node::Text(s) => Some(s),
            _ => None,
        }
    }

    /// Whether this node is an object.
    pub fn is_object(&self) -> (r: bool)
        ensures
            r == (self@ is Object),
    {
        match self {
            Node::Object(_) => true,
            _ => false,
        }
    }

    /// Structural equality of the mathematical values of two nodes.
    pub fn same(&self, other: &Node) -> (r: bool)
        ensures
            r == (self@ == other@),
        decreases self,
    {
        match (self, other) {
            (Node::Null, Node::Null) => true,
            (Node::Boolean(a), Node::Boolean(b)) => a == b,
            (Node::Number(a), Node::Number(b)) => str_eq(a.as_str(), b.as_str()),
            (Node::Text(a), Node::Text(b)) => str_eq(a.as_str(), b.as_str()),
            (Node::Array(a), Node::Array(b)) => {
                proof {
                    lemma_items_view(a@, 0);
                    lemma_items_view(b@, 0);
                }
                if a.len() != b.len() {
                    return false;
                }
                let n = a.len();
                let mut i: usize = 0;
                while i < n
                    invariant
                        i <= n,
                        n == a@.len(),
                        n == b@.len(),
                        *self == Node::Array(*a),
                        *other == Node::Array(*b),
                        forall|j: int|
                            0 <= j < i ==> node_view(#[trigger] a@[j]) == node_view(b@[j]),
                    decreases n - i,
                {
                    proof {
                        assert(*self == Node::Array(*a));
                        assert(decreases_to!(*self => self->Array_0));
                        assert(decreases_to!(*a => a@));
                        assert(decreases_to!(a@ => a@[i as int]));
                    }
                    if !a[i].same(&b[i]) {
                        proof {
                            lemma_items_view(a@, 0);
                            lemma_items_view(b@, 0);
                            assert(items_view_from(a@, 0)[i as int] != items_view_from(b@, 0)[
                                i as int]);
                        }
                        return false;
                    }
                    i += 1;
                }
                proof {
                    lemma_items_view(a@, 0);
                    lemma_items_view(b@, 0);
                    assert forall|j: int| 0 <= j < n implies items_view_from(a@, 0)[j]
                        == items_view_from(b@, 0)[j] by {
                        assert(node_view(a@[j]) == node_view(b@[j]));
                    }
                    assert(items_view_from(a@, 0) =~= items_view_from(b@, 0));
                    assert(self@ =~= other@);
                }
                true
            },
            (Node::Object(a), Node::Object(b)) => {
                proof {
                    lemma_entries_view(a@, 0);
                    lemma_entries_view(b@, 0);
                }
                if a.len() != b.len() {
                    return false;
                }
                let n = a.len();
                let mut i: usize = 0;
                while i < n
                    invariant
                        i <= n,
                        n == a@.len(),
                        n == b@.len(),
                        *self == Node::Object(*a),
                        *other == Node::Object(*b),
                        forall|j: int|
                            0 <= j < i ==> (#[trigger] a@[j]).0@ == b@[j].0@ && node_view(a@[j].1)
                                == node_view(b@[j].1),
                    decreases n - i,
                {
                    proof {
                        assert(*self == Node::Object(*a));
                        assert(decreases_to!(*self => self->Object_0));
                        assert(decreases_to!(*a => a@));
                        assert(decreases_to!(a@ => a@[i as int]));
                        assert(decreases_to!(a@[i as int] => a@[i as int].1));
                    }
                    if !str_eq(a[i].0.as_str(), b[i].0.as_str()) {
                        proof {
                            lemma_entries_view(a@, 0);
                            lemma_entries_view(b@, 0);
                            assert(entries_view_from(a@, 0)[i as int] != entries_view_from(b@, 0)[
                                i as int]);
                        }
                        return false;
                    }
                    if !a[i].1.same(&b[i].1) {
                        proof {
                            lemma_entries_view(a@, 0);
                            lemma_entries_view(b@, 0);
                            assert(entries_view_from(a@, 0)[i as int] != entries_view_from(b@, 0)[
                                i as int]);
                        }
                        return false;
                    }
                    i += 1;
                }
                proof {
                    lemma_entries_view(a@, 0);
                    lemma_entries_view(b@, 0);
                    assert forall|j: int| 0 <= j < n implies entries_view_from(a@, 0)[j]
                        == entries_view_from(b@, 0)[j] by {
                        assert(a@[j].0@ == b@[j].0@ && node_view(a@[j].1) == node_view(b@[j].1));
                    }
                    assert(entries_view_from(a@, 0) =~= entries_view_from(b@, 0));
                    assert(self@ =~= other@);
                }
                true
            },
            _ => false,
        }
    }
}

impl Clone for Node {
    /// Copies the node tree; the copy has the same mathematical value.
    fn clone(&self) -> (r: Self)
        ensures
            r@ == self@,
        decreases self,
    {
        match self {
            Node::Null => Node::Null,
            Node::Boolean(b) => Node::Boolean(*b),
            Node::Number(s) => Node::Number(s.clone()),
            Node::Text(s) => Node::Text(s.clone()),
            Node::Array(items) => {
                let n = items.len();
                let mut out: Vec<Node> = Vec::new();
                let mut i: usize = 0;
                while i < n
                    invariant
                        i <= n,
                        n == items@.len(),
                        out@.len() == i,
                        *self == Node::Array(*items),
                        forall|j: int|
                            0 <= j < i ==> node_view(#[trigger] out@[j]) == node_view(items@[j]),
                    decreases n - i,
                {
                    proof {
                        assert(*self == Node::Array(*items));
                        assert(decreases_to!(*self => self->Array_0));
                        assert(decreases_to!(*items => items@));
                        assert(decreases_to!(items@ => items@[i as int]));
                    }
                    out.push(items[i].clone());
                    i += 1;
                }
                let r = Node::Array(out);
                proof {
                    lemma_items_view(out@, 0);
                    lemma_items_view(items@, 0);
                    assert forall|j: int| 0 <= j < n implies items_view_from(out@, 0)[j]
                        == items_view_from(items@, 0)[j] by {
                        assert(node_view(out@[j]) == node_view(items@[j]));
                    }
                    assert(items_view_from(out@, 0) =~= items_view_from(items@, 0));
                    assert(r@ =~= self@);
                }
                r
            },
            Node::Object(entries) => {
                let n = entries.len();
                let mut out: Vec<(String, Node)> = Vec::new();
                let mut i: usize = 0;
                while i < n
                    invariant
                        i <= n,
                        n == entries@.len(),
                        out@.len() == i,
                        *self == Node::Object(*entries),
                        forall|j: int|
                            0 <= j < i ==> (#[trigger] out@[j]).0@ == entries@[j].0@ && node_view(
                                out@[j].1,
                            ) == node_view(entries@[j].1),
                    decreases n - i,
                {
                    proof {
                        assert(*self == Node::Object(*entries));
                        assert(decreases_to!(*self => self->Object_0));
                        assert(decreases_to!(*entries => entries@));
                        assert(decreases_to!(entries@ => entries@[i as int]));
                        assert(decreases_to!(entries@[i as int] => entries@[i as int].1));
                    }
                    out.push((entries[i].0.clone(), entries[i].1.clone()));
                    i += 1;
                }
                let r = Node::Object(out);
                proof {
                    lemma_entries_view(out@, 0);
                    lemma_entries_view(entries@, 0);
                    assert forall|j: int| 0 <= j < n implies entries_view_from(out@, 0)[j]
                        == entries_view_from(entries@, 0)[j] by {
                        assert(out@[j].0@ == entries@[j].0@ && node_view(out@[j].1) == node_view(
                            entries@[j].1,
                        ));
                    }
                    assert(entries_view_from(out@, 0) =~= entries_view_from(entries@, 0));
                    assert(r@ =~= self@);
                }
                r
            },
        }
    }
}

/// The decimal digit characters.
pub open spec fn dec_digit(d: nat) -> char {
    if d == 0 {
        '0'
    } else if d == 1 {
        '1'
    } else if d == 2 {
        '2'
    } else if d == 3 {
        '3'
    } else if d == 4 {
        '4'
    } else if d == 5 {
        '5'
    } else if d == 6 {
        '6'
    } else if d == 7 {
        '7'
    } else if d == 8 {
        '8'
    } else {
        '9'
    }
}

/// The decimal text of a number, most significant digit first.
pub open spec fn dec_str(n: nat) -> Seq<char>
    decreases n,
{
    if n < 10 {
        seq![dec_digit(n)]
    } else {
        dec_str(n / 10) + seq![dec_digit(n % 10)]
    }
}

fn digit_char(d: usize) -> (c: char)
    requires
        d < 10,
    ensures
        c == dec_digit(d as nat),
{
    match d {
        0 => '0',
        1 => '1',
        2 => '2',
        3 => '3',
        4 => '4',
        5 => '5',
        6 => '6',
        7 => '7',
        8 => '8',
        _ => '9',
    }
}

fn push_dec(out: &mut String, i: usize)
    ensures
        final(out)@ == old(out)@ + dec_str(i as nat),
    decreases i,
{
    if i >= 10 {
        push_dec(out, i / 10);
    }
    let ghost pre = out@;
    out.push(digit_char(i % 10));
    proof {
        if i < 10 {
            assert(out@ =~= old(out)@ + dec_str(i as nat));
        } else {
            assert(pre =~= old(out)@ + dec_str((i / 10) as nat));
            assert(dec_str(i as nat) == dec_str((i / 10) as nat) + seq![dec_digit((i % 10) as nat)]);
            assert(out@ =~= old(out)@ + dec_str(i as nat));
        }
    }
}

/// The decimal text of an array index, as a pointer segment.
pub fn index_string(i: usize) -> (r: String)
    ensures
        r@ == dec_str(i as nat),
{
    let mut out = String::new();
    push_dec(&mut out, i);
    proof {
        assert(out@ =~= dec_str(i as nat));
    }
    out
}

/// The views of a sequence of pointer segments.
pub open spec fn segs_view(s: Seq<String>) -> Seq<Seq<char>> {
    Seq::new(s.len(), |i: int| s[i]@)
}

/// Every `(pointer, sub-node)` pair of a node tree, parents before their
/// children, children in document order. The pointer of each pair extends
/// `prefix` by the path from the root node to the sub-node, array items
/// keyed by their decimal index and object members by their key.
pub open spec fn node_entries(prefix: Seq<Seq<char>>, n: NodeView) -> Seq<
    (Seq<Seq<char>>, NodeView),
>
    decreases n, 1int, 0int,
{
    match n {
        NodeView::Array(items) => seq![(prefix, n)] + arr_entries(prefix, items, 0),
        NodeView::Object(entries) => seq![(prefix, n)] + obj_entries(prefix, entries, 0),
        _ => seq![(prefix, n)],
    }
}

pub open spec fn arr_entries(prefix: Seq<Seq<char>>, items: Seq<NodeView>, k: int) -> Seq<
    (Seq<Seq<char>>, NodeView),
>
    decreases NodeView::Array(items), 0int, items.len() - k,
{
    if k < 0 || k >= items.len() {
        Seq::empty()
    } else {
        proof {
            let a = NodeView::Array(items);
            assert(decreases_to!(a => a->Array_0));
            assert(decreases_to!(items => items[k]));
        }
        node_entries(prefix.push(dec_str(k as nat)), items[k]) + arr_entries(prefix, items, k + 1)
    }
}

pub open spec fn obj_entries(
    prefix: Seq<Seq<char>>,
    entries: Seq<(Seq<char>, NodeView)>,
    k: int,
) -> Seq<(Seq<Seq<char>>, NodeView)>
    decreases NodeView::Object(entries), 0int, entries.len() - k,
{
    if k < 0 || k >= entries.len() {
        Seq::empty()
    } else {
        proof {
            let o = NodeView::Object(entries);
            assert(decreases_to!(o => o->Object_0));
            assert(decreases_to!(entries => entries[k]));
            assert(decreases_to!(entries[k] => entries[k].1));
        }
        node_entries(prefix.push(entries[k].0), entries[k].1) + obj_entries(
            prefix,
            entries,
            k + 1,
        )
    }
}

fn clone_prefix(prefix: &[String]) -> (r: Vec<String>)
    ensures
        r.deep_view() == segs_view(prefix@),
{
    let n = prefix.len();
    let mut r: Vec<String> = Vec::new();
    let mut i: usize = 0;
    while i < n
        invariant
            i <= n,
            n == prefix@.len(),
            r.deep_view() =~~= segs_view(prefix@).take(i as int),
        decreases n - i,
    {
        let ghost pre = r.deep_view();
        let s = vstd::slice::slice_index_get(prefix, i).clone();
        proof {
            assert(s@ == segs_view(prefix@)[i as int]);
        }
        r.push(s);
        proof {
            assert(r.deep_view() =~~= pre.push(segs_view(prefix@)[i as int]));
            assert(segs_view(prefix@).take(i + 1) =~~= segs_view(prefix@).take(i as int).push(
                segs_view(prefix@)[i as int],
            ));
        }
        i += 1;
    }
    proof {
        assert(segs_view(prefix@).take(n as int) =~~= segs_view(prefix@));
    }
    r
}

/// Lists every sub-node of `node` under its pointer, `prefix` included,
/// the node itself first and each child subtree after it in order.
pub fn read_node(prefix: &[String], node: &Node) -> (r: Vec<(Vec<String>, Node)>)
    ensures
        r.deep_view() == node_entries(segs_view(prefix@), node@),
    decreases node,
{
    let mut out: Vec<(Vec<String>, Node)> = Vec::new();
    out.push((clone_prefix(prefix), node.clone()));
    let ghost pv = segs_view(prefix@);
    let ghost nv = node@;
    proof {
        assert(out.deep_view() =~~= seq![(pv, nv)]);
    }
    match node {
        Node::Array(items) => {
            let n = items.len();
            let mut k: usize = 0;
            proof {
                lemma_items_view(items@, 0);
            }
            while k < n
                invariant
                    k <= n,
                    n == items@.len(),
                    *node == Node::Array(*items),
                    pv == segs_view(prefix@),
                    nv == node@,
                    out.deep_view() + arr_entries(pv, items_view_from(items@, 0), k as int)
                        == node_entries(pv, nv),
                decreases n - k,
            {
                proof {
                    assert(decreases_to!(*node => node->Array_0));
                    assert(decreases_to!(*items => items@));
                    assert(decreases_to!(items@ => items@[k as int]));
                }
                let mut child_prefix = clone_prefix(prefix);
                child_prefix.push(index_string(k));
                let ghost cp = child_prefix.deep_view();
                proof {
                    assert(cp =~~= pv.push(dec_str(k as nat)));
                }
                let mut sub = read_node(child_prefix.as_slice(), vstd::slice::slice_index_get(
                    items.as_slice(),
                    k,
                ));
                proof {
                    lemma_items_view(items@, 0);
                    assert(segs_view(child_prefix@) =~~= cp);
                    assert(items@[k as int]@ == items_view_from(items@, 0)[k as int]);
                }
                let ghost pre = out.deep_view();
                let ghost subv = sub.deep_view();
                out.append(&mut sub);
                proof {
                    assert(out.deep_view() =~~= pre + subv);
                    let iv = items_view_from(items@, 0);
                    assert(arr_entries(pv, iv, k as int) == node_entries(
                        pv.push(dec_str(k as nat)),
                        iv[k as int],
                    ) + arr_entries(pv, iv, k + 1));
                    assert(subv == node_entries(pv.push(dec_str(k as nat)), iv[k as int]));
                    assert((pre + subv) + arr_entries(pv, iv, k + 1) =~~= pre + (subv + arr_entries(
                        pv,
                        iv,
                        k + 1,
                    )));
                }
                k += 1;
            }
            proof {
                assert(arr_entries(pv, items_view_from(items@, 0), n as int) =~~= Seq::empty());
                assert(out.deep_view() + Seq::<(Seq<Seq<char>>, NodeView)>::empty()
                    =~~= out.deep_view());
            }
        },
        Node::Object(entries) => {
            let n = entries.len();
            let mut k: usize = 0;
            proof {
                lemma_entries_view(entries@, 0);
            }
            while k < n
                invariant
                    k <= n,
                    n == entries@.len(),
                    *node == Node::Object(*entries),
                    pv == segs_view(prefix@),
                    nv == node@,
                    out.deep_view() + obj_entries(pv, entries_view_from(entries@, 0), k as int)
                        == node_entries(pv, nv),
                decreases n - k,
            {
                proof {
                    assert(decreases_to!(*node => node->Object_0));
                    assert(decreases_to!(*entries => entries@));
                    assert(decreases_to!(entries@ => entries@[k as int]));
                    assert(decreases_to!(entries@[k as int] => entries@[k as int].1));
                }
                let mut child_prefix = clone_prefix(prefix);
                child_prefix.push(entries[k].0.clone());
                let ghost cp = child_prefix.deep_view();
                proof {
                    lemma_entries_view(entries@, 0);
                    assert(cp =~~= pv.push(entries@[k as int].0@));
                }
                let mut sub = read_node(child_prefix.as_slice(), &entries[k].1);
                proof {
                    lemma_entries_view(entries@, 0);
                    assert(segs_view(child_prefix@) =~~= cp);
                }
                let ghost pre = out.deep_view();
                let ghost subv = sub.deep_view();
                out.append(&mut sub);
                proof {
                    assert(out.deep_view() =~~= pre + subv);
                    let ev = entries_view_from(entries@, 0);
                    assert(obj_entries(pv, ev, k as int) == node_entries(
                        pv.push(ev[k as int].0),
                        ev[k as int].1,
                    ) + obj_entries(pv, ev, k + 1));
                    assert(ev[k as int].0 == entries@[k as int].0@ && ev[k as int].1 == node_view(
                        entries@[k as int].1,
                    ));
                    assert(subv == node_entries(pv.push(ev[k as int].0), ev[k as int].1));
                    assert((pre + subv) + obj_entries(pv, ev, k + 1) =~~= pre + (subv + obj_entries(
                        pv,
                        ev,
                        k + 1,
                    )));
                }
                k += 1;
            }
            proof {
                assert(obj_entries(pv, entries_view_from(entries@, 0), n as int) =~~= Seq::empty());
                assert(out.deep_view() + Seq::<(Seq<Seq<char>>, NodeView)>::empty()
                    =~~= out.deep_view());
            }
        },
        _ => {
            proof {
                assert(node_entries(pv, nv) =~~= seq![(pv, nv)]);
            }
        },
    }
    out
}

} // verus!
