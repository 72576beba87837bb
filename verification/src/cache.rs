//! The node cache: one physical fetch-and-parse per fetch key, each
//! fetched tree flattened into per-pointer entries, so that any sub-node
//! is later found under its full location without walking the tree again.
//! Inserting structurally different nodes under one location is the fatal
//! consistency error `NotTheSame`.

use vstd::prelude::*;

use crate::error::Error;
use crate::fetch::FetchFile;
use crate::fetch::FetchFileError;
use crate::location::LocationView;
use crate::location::NodeLocation;
use crate::node::Node;
use crate::node::NodeView;
use crate::node::node_entries;
use crate::node::read_node;
use crate::outside::parse_document_text;
use crate::outside::yaml_node_of;

verus! {

/// The map an entry list denotes; a later entry for a key would win, but a
/// well-formed cache never has two entries for one key.
pub open spec fn entries_map(s: Seq<(NodeLocation, Node)>) -> Map<LocationView, NodeView>
    decreases s.len(),
{
    if s.len() == 0 {
        Map::empty()
    } else {
        entries_map(s.drop_last()).insert(s.last().0@, s.last().1@)
    }
}

pub proof fn lemma_entries_map_at(s: Seq<(NodeLocation, Node)>, i: int)
    requires
        0 <= i < s.len(),
        forall|a: int, b: int|
            0 <= a < b < s.len() ==> (#[trigger] s[a]).0@ != (#[trigger] s[b]).0@,
    ensures
        entries_map(s).contains_key(s[i].0@),
        entries_map(s)[s[i].0@] == s[i].1@,
    decreases s.len(),
{
    if i < s.len() - 1 {
        assert(forall|a: int, b: int|
            0 <= a < b < s.drop_last().len() ==> (#[trigger] s.drop_last()[a]).0@ != (
            #[trigger] s.drop_last()[b]).0@);
        lemma_entries_map_at(s.drop_last(), i);
        assert(s.last().0@ != s[i].0@);
    }
}

pub proof fn lemma_entries_map_absent(s: Seq<(NodeLocation, Node)>, k: LocationView)
    requires
        forall|i: int| 0 <= i < s.len() ==> (#[trigger] s[i]).0@ != k,
    ensures
        !entries_map(s).contains_key(k),
    decreases s.len(),
{
    if s.len() > 0 {
        lemma_entries_map_absent(s.drop_last(), k);
    }
}

/// The location under which one flattened entry is cached: the document's
/// own location for the root entry, the pointer-extended location for a
/// sub-node.
pub open spec fn entry_key(loc: LocationView, pointer: Seq<Seq<char>>) -> LocationView {
    if pointer.len() == 0 {
        loc
    } else {
        LocationView { base: loc.base, pointer: loc.pointer + pointer, root: false }
    }
}

/// Runs the flattened entries of a document into a cache map, entry by
/// entry: an absent key is inserted, an equal present entry is kept, and a
/// different present entry is the consistency error.
pub open spec fn fill_spec(
    m: Map<LocationView, NodeView>,
    loc: LocationView,
    es: Seq<(Seq<Seq<char>>, NodeView)>,
    k: int,
) -> Result<Map<LocationView, NodeView>, Error>
    decreases es.len() - k,
{
    if k < 0 || k >= es.len() {
        Ok(m)
    } else {
        let key = entry_key(loc, es[k].0);
        if m.contains_key(key) {
            if m[key] == es[k].1 {
                fill_spec(m, loc, es, k + 1)
            } else {
                Err(Error::NotTheSame)
            }
        } else {
            fill_spec(m.insert(key, es[k].1), loc, es, k + 1)
        }
    }
}

/// What loading a whole node tree at `loc` does to a cache map.
pub open spec fn loaded_map(
    m: Map<LocationView, NodeView>,
    loc: LocationView,
    n: NodeView,
) -> Result<Map<LocationView, NodeView>, Error> {
    fill_spec(m, loc, node_entries(Seq::empty(), n), 0)
}

/// Filling only ever adds entries.
pub proof fn lemma_fill_submap(
    m: Map<LocationView, NodeView>,
    loc: LocationView,
    es: Seq<(Seq<Seq<char>>, NodeView)>,
    k: int,
)
    ensures
        fill_spec(m, loc, es, k) matches Ok(m2) ==> m.submap_of(m2),
    decreases es.len() - k,
{
    if 0 <= k < es.len() {
        let key = entry_key(loc, es[k].0);
        if m.contains_key(key) {
            if m[key] == es[k].1 {
                lemma_fill_submap(m, loc, es, k + 1);
            }
        } else {
            let m1 = m.insert(key, es[k].1);
            lemma_fill_submap(m1, loc, es, k + 1);
            if let Ok(m2) = fill_spec(m, loc, es, k) {
                assert(m.submap_of(m1));
                vstd::map_lib::lemma_submap_of_trans(m, m1, m2);
            }
        }
    }
}

/// Caches nodes and indexes them by their location: the physical location
/// of a fetched document for its root node, and the pointer-extended
/// location for every node inside it.
pub struct NodeCache {
    entries: Vec<(NodeLocation, Node)>,
}

impl View for NodeCache {
    type V = Map<LocationView, NodeView>;

    closed spec fn view(&self) -> Map<LocationView, NodeView> {
        entries_map(self.entries@)
    }
}

impl NodeCache {
    /// No location is cached under two entries.
    pub closed spec fn wf(&self) -> bool {
        forall|a: int, b: int|
            0 <= a < b < self.entries@.len() ==> (#[trigger] self.entries@[a]).0@ != (
            #[trigger] self.entries@[b]).0@
    }

    /// An empty cache.
    pub fn new() -> (r: NodeCache)
        ensures
            r@ == Map::<LocationView, NodeView>::empty(),
            r.wf(),
    {
        NodeCache { entries: Vec::new() }
    }

    /// The cached node under a location, if any.
    pub fn get_node<'a>(&'a self, retrieval_location: &NodeLocation) -> (r: Option<&'a Node>)
        requires
            self.wf(),
        ensures
            match r {
                Some(c) => self@.contains_key(retrieval_location@) && c@
                    == self@[retrieval_location@],
                None => !self@.contains_key(retrieval_location@),
            },
    {
        let n = self.entries.len();
        let mut i: usize = 0;
        while i < n
            invariant
                i <= n,
                n == self.entries@.len(),
                self.wf(),
                forall|j: int| 0 <= j < i ==> (#[trigger] self.entries@[j]).0@
                    != retrieval_location@,
            decreases n - i,
        {
            if self.entries[i].0.same(retrieval_location) {
                proof {
                    lemma_entries_map_at(self.entries@, i as int);
                }
                return Some(&self.entries[i].1);
            }
            i += 1;
        }
        proof {
            lemma_entries_map_absent(self.entries@, retrieval_location@);
        }
        None
    }

    /// Whether a location is cached.
    pub fn contains(&self, retrieval_location: &NodeLocation) -> (r: bool)
        requires
            self.wf(),
        ensures
            r == self@.contains_key(retrieval_location@),
    {
        self.get_node(retrieval_location).is_some()
    }

    fn insert_entry(&mut self, retrieval_location: NodeLocation, node: Node)
        requires
            old(self).wf(),
            !old(self)@.contains_key(retrieval_location@),
        ensures
            final(self).wf(),
            final(self)@ == old(self)@.insert(retrieval_location@, node@),
    {
        proof {
            assert forall|i: int| 0 <= i < self.entries@.len() implies (
            #[trigger] self.entries@[i]).0@ != retrieval_location@ by {
                if self.entries@[i].0@ == retrieval_location@ {
                    lemma_entries_map_at(self.entries@, i);
                }
            }
        }
        let ghost pre = self.entries@;
        let ghost key = retrieval_location@;
        let ghost value = node@;
        self.entries.push((retrieval_location, node));
        proof {
            assert(self.entries@.drop_last() =~= pre);
            assert(self.entries@.last().0@ == key);
            assert(self.entries@.last().1@ == value);
            assert(entries_map(self.entries@) == entries_map(pre).insert(key, value));
            assert forall|a: int, b: int|
                0 <= a < b < self.entries@.len() implies (#[trigger] self.entries@[a]).0@ != (
            #[trigger] self.entries@[b]).0@ by {
                if b < self.entries@.len() - 1 {
                    assert(pre[a].0@ != pre[b].0@);
                }
            }
        }
    }

    /// Flattens an in-memory node tree into the cache under its location.
    /// Every sub-node becomes retrievable under the pointer-extended
    /// location; a location already cached with different content is the
    /// consistency error, and entries recorded before it remain.
    pub fn load_from_node(&mut self, retrieval_location: &NodeLocation, node: &Node) -> (r: Result<
        (),
        Error,
    >)
        requires
            old(self).wf(),
        ensures
            final(self).wf(),
            old(self)@.submap_of(final(self)@),
            match loaded_map(old(self)@, retrieval_location@, node@) {
                Ok(m2) => r is Ok && final(self)@ == m2,
                Err(e) => r == Err::<(), Error>(e),
            },
    {
        let empty_prefix: Vec<String> = Vec::new();
        let list = read_node(empty_prefix.as_slice(), node);
        let ghost es = node_entries(Seq::empty(), node@);
        proof {
            assert(crate::node::segs_view(empty_prefix@) =~~= Seq::<Seq<char>>::empty());
        }
        let n = list.len();
        let mut i: usize = 0;
        while i < n
            invariant
                i <= n,
                n == list@.len(),
                self.wf(),
                list.deep_view() == es,
                es == node_entries(Seq::empty(), node@),
                old(self)@.submap_of(self@),
                fill_spec(old(self)@, retrieval_location@, es, 0) == fill_spec(
                    self@,
                    retrieval_location@,
                    es,
                    i as int,
                ),
            decreases n - i,
        {
            let ghost pointerv = es[i as int].0;
            let ghost subv = es[i as int].1;
            proof {
                assert(list.deep_view()[i as int] == es[i as int]);
                assert(list@[i as int].0.deep_view() == pointerv);
                assert(list@[i as int].1@ == subv);
            }
            let key = if list[i].0.len() == 0 {
                let k = retrieval_location.clone();
                proof {
                    assert(pointerv.len() == 0);
                    assert(k@ == entry_key(retrieval_location@, pointerv));
                }
                k
            } else {
                let segments = crate::location::clone_string_vec(&list[i].0);
                let k = retrieval_location.push_pointer(segments);
                proof {
                    assert(k@ =~~= entry_key(retrieval_location@, pointerv));
                }
                k
            };
            let found = self.get_node(&key);
            match found {
                Some(existing) => {
                    if !existing.same(&list[i].1) {
                        proof {
                            assert(self@[key@] != subv);
                            assert(fill_spec(self@, retrieval_location@, es, i as int) == Err::<
                                Map<LocationView, NodeView>,
                                Error,
                            >(Error::NotTheSame));
                        }
                        return Err(Error::NotTheSame);
                    }
                    proof {
                        assert(fill_spec(self@, retrieval_location@, es, i as int) == fill_spec(
                            self@,
                            retrieval_location@,
                            es,
                            i + 1,
                        ));
                    }
                },
                None => {
                    let ghost m = self@;
                    self.insert_entry(key, list[i].1.clone());
                    proof {
                        assert(fill_spec(m, retrieval_location@, es, i as int) == fill_spec(
                            self@,
                            retrieval_location@,
                            es,
                            i + 1,
                        ));
                        assert(m.submap_of(self@));
                        vstd::map_lib::lemma_submap_of_trans(old(self)@, m, self@);
                    }
                },
            }
            i += 1;
        }
        proof {
            assert(fill_spec(self@, retrieval_location@, es, n as int) == Ok::<
                Map<LocationView, NodeView>,
                Error,
            >(self@));
        }
        Ok(())
    }

    /// Reads document text (YAML or JSON) and flattens the tree into the
    /// cache under the location.
    pub fn load_from_text(&mut self, retrieval_location: &NodeLocation, text: &str) -> (r: Result<
        (),
        Error,
    >)
        requires
            old(self).wf(),
        ensures
            final(self).wf(),
            old(self)@.submap_of(final(self)@),
            match yaml_node_of(text@) {
                None => r == Err::<(), Error>(Error::InvalidYaml) && final(self)@ == old(self)@,
                Some(n) => match loaded_map(old(self)@, retrieval_location@, n) {
                    Ok(m2) => r is Ok && final(self)@ == m2,
                    Err(e) => r == Err::<(), Error>(e),
                },
            },
    {
        match parse_document_text(text) {
            Ok(node) => self.load_from_node(retrieval_location, &node),
            Err(e) => Err(e),
        }
    }

    /// The fetch key of a location: its root form, under which the
    /// physical document is cached.
    pub open spec fn fetch_key(loc: LocationView) -> LocationView {
        LocationView { base: loc.base, pointer: Seq::empty(), root: true }
    }

    /// Ensures the document behind a location is cached. An
    /// already-cached fetch key (the root form of the location) is a
    /// no-op that asks the fetcher nothing. Otherwise the root form is
    /// fetched, parsed and flattened: on success the cache has grown by
    /// exactly the flattened tree of one parsed document under the fetch
    /// key; a fetch failure surfaces as `IoError`/`HttpError` and a parse
    /// failure as `InvalidYaml`, each leaving the cache untouched; no
    /// other errors than these and `NotTheSame` occur.
    pub fn load_from_location<F: FetchFile>(
        &mut self,
        fetcher: &mut F,
        retrieval_location: &NodeLocation,
    ) -> (r: Result<(), Error>)
        requires
            old(self).wf(),
        ensures
            final(self).wf(),
            old(self)@.submap_of(final(self)@),
            old(self)@.contains_key(Self::fetch_key(retrieval_location@)) ==> r is Ok
                && final(self)@ == old(self)@ && *final(fetcher) == *old(fetcher),
            r is Ok ==> final(self)@.contains_key(Self::fetch_key(retrieval_location@)),
            r is Ok && !old(self)@.contains_key(Self::fetch_key(retrieval_location@))
                ==> exists|n: NodeView|
                loaded_map(old(self)@, Self::fetch_key(retrieval_location@), n) == Ok::<
                    Map<LocationView, NodeView>,
                    Error,
                >(final(self)@),
            r matches Err(e) ==> (e == Error::IoError || e == Error::HttpError || e
                == Error::InvalidYaml || e == Error::NotTheSame),
            (r == Err::<(), Error>(Error::IoError) || r == Err::<(), Error>(Error::HttpError) || r
                == Err::<(), Error>(Error::InvalidYaml)) ==> final(self)@ == old(self)@,
    {
        let root = retrieval_location.set_root();
        if self.contains(&root) {
            return Ok(());
        }
        let fetch_location = root.to_fetch_string();
        match fetcher.fetch_file(fetch_location.as_str()) {
            Ok(text) => {
                let ghost pre = self@;
                let r = self.load_from_text(&root, text.as_str());
                proof {
                    if let Some(n) = yaml_node_of(text@) {
                        lemma_first_entry_cached(pre, root@, n);
                        lemma_fill_err(pre, root@, crate::node::node_entries(Seq::empty(), n), 0);
                    }
                }
                r
            },
            Err(FetchFileError::IoError) => Err(Error::IoError),
            Err(FetchFileError::HttpError) => Err(Error::HttpError),
        }
    }
}

/// The only error a fill can produce is the consistency error.
proof fn lemma_fill_err(
    m: Map<LocationView, NodeView>,
    loc: LocationView,
    es: Seq<(Seq<Seq<char>>, NodeView)>,
    k: int,
)
    ensures
        fill_spec(m, loc, es, k) matches Err(e) ==> e == Error::NotTheSame,
    decreases es.len() - k,
{
    if 0 <= k < es.len() {
        let key = entry_key(loc, es[k].0);
        if m.contains_key(key) {
            if m[key] == es[k].1 {
                lemma_fill_err(m, loc, es, k + 1);
            }
        } else {
            lemma_fill_err(m.insert(key, es[k].1), loc, es, k + 1);
        }
    }
}

/// A successful fill records the document's own location.
proof fn lemma_first_entry_cached(m: Map<LocationView, NodeView>, loc: LocationView, n: NodeView)
    ensures
        loaded_map(m, loc, n) matches Ok(m2) ==> m2.contains_key(loc),
{
    let es = node_entries(Seq::empty(), n);
    assert(es[0] == (Seq::<Seq<char>>::empty(), n));
    if let Ok(m2) = loaded_map(m, loc, n) {
        assert(entry_key(loc, es[0].0) == loc);
        if m.contains_key(loc) {
            if m[loc] == es[0].1 {
                lemma_fill_submap(m, loc, es, 1);
                assert(m.submap_of(m2));
                assert(m.dom().subset_of(m2.dom()));
                assert(m2.contains_key(loc));
            }
        } else {
            let m1 = m.insert(loc, es[0].1);
            lemma_fill_submap(m1, loc, es, 1);
            assert(m1.submap_of(m2));
            assert(m1.contains_key(loc));
            assert(m1.dom().subset_of(m2.dom()));
            assert(m2.contains_key(loc));
        }
    }
}

} // verus!
