//! The document context: it discovers and loads a whole graph of related
//! documents from one root location, deciding each document's dialect
//! once, asking the dialect's adapter which further documents are
//! referenced, and loading each exactly once. The compiled model and the
//! schema hand-off are served from here.

use vstd::prelude::*;

use crate::cache::NodeCache;
use crate::error::Error;
use crate::fetch::FetchFile;
use crate::location::LocationView;
use crate::location::NodeLocation;
use crate::node::Node;
use crate::node::NodeView;
use crate::node::get_field;
use crate::oas30::Oas30Document;
use crate::outside::parse_version_major_minor;
use crate::outside::version_parts_of;

verus! {

/// How many documents one context will load before it refuses the graph:
/// the loader must come to an end even on a graph that keeps naming new
/// documents.
pub const MAX_DOCUMENTS: usize = 16384;

/// The dialects the engine recognizes.
#[derive(Debug, Clone, Copy, PartialEq, Eq, Structural)]
pub enum DocumentType {
    OpenApiV30,
    OpenApiV31,
    Swagger2,
}

/// The document matches no recognized dialect.
#[derive(Debug, Clone, Copy, PartialEq, Eq, Structural)]
pub struct DocumentTypeError;

pub open spec fn swagger_key() -> Seq<char> {
    seq!['s', 'w', 'a', 'g', 'g', 'e', 'r']
}

pub open spec fn openapi_key() -> Seq<char> {
    seq!['o', 'p', 'e', 'n', 'a', 'p', 'i']
}

/// The dialect read from the `openapi` field: version `3.0.x` or `3.1.x`.
pub open spec fn detect_openapi(n: NodeView) -> Result<DocumentType, DocumentTypeError> {
    match get_field(n, openapi_key()) {
        Some(NodeView::Text(s)) => match version_parts_of(s) {
            Some(p) => if p.0 == 3 && p.1 == 0 {
                Ok(DocumentType::OpenApiV30)
            } else if p.0 == 3 && p.1 == 1 {
                Ok(DocumentType::OpenApiV31)
            } else {
                Err(DocumentTypeError)
            },
            None => Err(DocumentTypeError),
        },
        Some(_) => Err(DocumentTypeError),
        None => Err(DocumentTypeError),
    }
}

/// The dialect of a document node: Swagger 2.0 exactly when its `swagger`
/// field holds a `2.0.x` version; OpenAPI 3.0 or 3.1 exactly when its
/// `openapi` field holds a `3.0.x` or `3.1.x` version; everything else
/// matches no dialect. A `swagger` field that is no text or no version is
/// an error outright; a `swagger` version other than `2.0.x` falls back
/// to the `openapi` field.
pub open spec fn detect_spec(n: NodeView) -> Result<DocumentType, DocumentTypeError> {
    if !(n is Object) {
        Err(DocumentTypeError)
    } else {
        match get_field(n, swagger_key()) {
            Some(NodeView::Text(s)) => match version_parts_of(s) {
                Some(p) => if p.0 == 2 && p.1 == 0 {
                    Ok(DocumentType::Swagger2)
                } else {
                    detect_openapi(n)
                },
                None => Err(DocumentTypeError),
            },
            Some(_) => Err(DocumentTypeError),
            None => detect_openapi(n),
        }
    }
}

impl DocumentType {
    /// Decides the dialect of a document's root node.
    pub fn detect(node: &Node) -> (r: Result<DocumentType, DocumentTypeError>)
        ensures
            r == detect_spec(node@),
    {
        proof {
            reveal_strlit("swagger");
            reveal_strlit("openapi");
            assert("swagger"@ =~= swagger_key());
            assert("openapi"@ =~= openapi_key());
        }
        if !node.is_object() {
            return Err(DocumentTypeError);
        }
        match node.get("swagger") {
            Some(member) => match member.as_text() {
                Some(s) => match parse_version_major_minor(s.as_str()) {
                    Some(p) => {
                        if p.0 == 2 && p.1 == 0 {
                            return Ok(DocumentType::Swagger2);
                        }
                        Self::detect_openapi_field(node)
                    },
                    None => Err(DocumentTypeError),
                },
                None => Err(DocumentTypeError),
            },
            None => Self::detect_openapi_field(node),
        }
    }

    fn detect_openapi_field(node: &Node) -> (r: Result<DocumentType, DocumentTypeError>)
        ensures
            r == detect_openapi(node@),
    {
        proof {
            reveal_strlit("openapi");
            assert("openapi"@ =~= openapi_key());
        }
        match node.get("openapi") {
            Some(member) => match member.as_text() {
                Some(s) => match parse_version_major_minor(s.as_str()) {
                    Some(p) => {
                        if p.0 == 3 && p.1 == 0 {
                            Ok(DocumentType::OpenApiV30)
                        } else if p.0 == 3 && p.1 == 1 {
                            Ok(DocumentType::OpenApiV31)
                        } else {
                            Err(DocumentTypeError)
                        }
                    },
                    None => Err(DocumentTypeError),
                },
                None => Err(DocumentTypeError),
            },
            None => Err(DocumentTypeError),
        }
    }

    /// The default meta-schema id the dialect assigns to its schemas.
    pub fn default_schema_id(&self) -> (r: String)
        ensures
            self is OpenApiV30 ==> r@
                == "https://spec.openapis.org/oas/3.0/schema/2021-09-28#/definitions/Schema"@,
            self is OpenApiV31 ==> r@ == "https://spec.openapis.org/oas/3.1/schema/2022-10-07"@,
            self is Swagger2 ==> r@ == "http://swagger.io/v2/schema.json#/definitions/schema"@,
    {
        match self {
            DocumentType::OpenApiV30 => Oas30Document::get_default_schema_id(),
            DocumentType::OpenApiV31 => String::from_str(
                "https://spec.openapis.org/oas/3.1/schema/2022-10-07",
            ),
            DocumentType::Swagger2 => String::from_str(
                "http://swagger.io/v2/schema.json#/definitions/schema",
            ),
        }
    }
}

/// The map a document list denotes.
pub open spec fn docs_map(s: Seq<(NodeLocation, DocumentType)>) -> Map<LocationView, DocumentType>
    decreases s.len(),
{
    if s.len() == 0 {
        Map::empty()
    } else {
        docs_map(s.drop_last()).insert(s.last().0@, s.last().1)
    }
}

pub proof fn lemma_docs_map_at(s: Seq<(NodeLocation, DocumentType)>, i: int)
    requires
        0 <= i < s.len(),
        forall|a: int, b: int|
            0 <= a < b < s.len() ==> (#[trigger] s[a]).0@ != (#[trigger] s[b]).0@,
    ensures
        docs_map(s).contains_key(s[i].0@),
        docs_map(s)[s[i].0@] == s[i].1,
    decreases s.len(),
{
    if i < s.len() - 1 {
        assert(forall|a: int, b: int|
            0 <= a < b < s.drop_last().len() ==> (#[trigger] s.drop_last()[a]).0@ != (
            #[trigger] s.drop_last()[b]).0@);
        lemma_docs_map_at(s.drop_last(), i);
        assert(s.last().0@ != s[i].0@);
    }
}

pub proof fn lemma_docs_map_absent(s: Seq<(NodeLocation, DocumentType)>, k: LocationView)
    requires
        forall|i: int| 0 <= i < s.len() ==> (#[trigger] s[i]).0@ != k,
    ensures
        !docs_map(s).contains_key(k),
    decreases s.len(),
{
    if s.len() > 0 {
        lemma_docs_map_absent(s.drop_last(), k);
    }
}

/// A registered key names some entry of the list.
pub proof fn lemma_docs_map_contains_index(s: Seq<(NodeLocation, DocumentType)>, k: LocationView)
    requires
        docs_map(s).contains_key(k),
    ensures
        exists|j: int| 0 <= j < s.len() && (#[trigger] s[j]).0@ == k,
    decreases s.len(),
{
    if s.len() > 0 {
        if s.last().0@ == k {
            assert(s[s.len() - 1].0@ == k);
        } else {
            lemma_docs_map_contains_index(s.drop_last(), k);
            let j = choose|j: int| 0 <= j < s.drop_last().len() && (#[trigger] s.drop_last()[j]).0@
                == k;
            assert(s[j].0@ == k);
        }
    }
}

/// Detection facts about registered documents survive cache growth.
proof fn lemma_detect_preserved(
    docs: Map<LocationView, DocumentType>,
    old_docs: Map<LocationView, DocumentType>,
    c1: Map<LocationView, NodeView>,
    c2: Map<LocationView, NodeView>,
)
    requires
        c1.submap_of(c2),
        forall|k: LocationView|
            #![auto]
            docs.contains_key(k) ==> old_docs.contains_key(k) || (c1.contains_key(k)
                && detect_spec(c1[k]) == Ok::<DocumentType, DocumentTypeError>(docs[k])),
    ensures
        forall|k: LocationView|
            #![auto]
            docs.contains_key(k) ==> old_docs.contains_key(k) || (c2.contains_key(k)
                && detect_spec(c2[k]) == Ok::<DocumentType, DocumentTypeError>(docs[k])),
{
    assert forall|k: LocationView|
        #![auto]
        docs.contains_key(k) implies old_docs.contains_key(k) || (c2.contains_key(k)
        && detect_spec(c2[k]) == Ok::<DocumentType, DocumentTypeError>(docs[k])) by {
        if !old_docs.contains_key(k) {
            assert(c1.contains_key(k));
            assert(c1.dom().subset_of(c2.dom()));
            assert(c2.contains_key(k));
            assert(c2[k] == c1[k]);
        }
    }
}

/// One schema hand-off entry: where a schema sits, which document it
/// belongs to, and the dialect's default meta-schema id for it.
pub struct DocumentSchema {
    pub schema_location: NodeLocation,
    pub document_location: NodeLocation,
    pub default_schema_id: String,
}

/// One context: the shared node cache and the documents resolved so far,
/// each with its dialect, keyed by retrieval location.
pub struct DocumentContext {
    cache: NodeCache,
    documents: Vec<(NodeLocation, DocumentType)>,
}

impl DocumentContext {
    /// The nodes the context has cached.
    pub closed spec fn cache_view(&self) -> Map<LocationView, NodeView> {
        self.cache@
    }

    /// The documents the context has resolved.
    pub closed spec fn docs_view(&self) -> Map<LocationView, DocumentType> {
        docs_map(self.documents@)
    }

    /// The cache and the document table are internally consistent.
    pub closed spec fn wf(&self) -> bool {
        &&& self.cache.wf()
        &&& self.documents@.len() <= MAX_DOCUMENTS
        &&& forall|a: int, b: int|
            0 <= a < b < self.documents@.len() ==> (#[trigger] self.documents@[a]).0@ != (
            #[trigger] self.documents@[b]).0@
    }

    /// An empty context.
    pub fn new() -> (r: DocumentContext)
        ensures
            r.wf(),
            r.cache_view() == Map::<LocationView, NodeView>::empty(),
            r.docs_view() == Map::<LocationView, DocumentType>::empty(),
    {
        DocumentContext { cache: NodeCache::new(), documents: Vec::new() }
    }

    /// The cached node under a location.
    pub fn get_node<'a>(&'a self, retrieval_location: &NodeLocation) -> (r: Option<&'a Node>)
        requires
            self.wf(),
        ensures
            match r {
                Some(c) => self.cache_view().contains_key(retrieval_location@) && c@
                    == self.cache_view()[retrieval_location@],
                None => !self.cache_view().contains_key(retrieval_location@),
            },
    {
        self.cache.get_node(retrieval_location)
    }

    /// Whether a document was resolved under a location.
    pub fn has_document(&self, retrieval_location: &NodeLocation) -> (r: bool)
        requires
            self.wf(),
        ensures
            r == self.docs_view().contains_key(retrieval_location@),
    {
        let n = self.documents.len();
        let mut i: usize = 0;
        while i < n
            invariant
                i <= n,
                n == self.documents@.len(),
                self.wf(),
                forall|j: int| 0 <= j < i ==> (#[trigger] self.documents@[j]).0@
                    != retrieval_location@,
            decreases n - i,
        {
            if self.documents[i].0.same(retrieval_location) {
                proof {
                    lemma_docs_map_at(self.documents@, i as int);
                }
                return true;
            }
            i += 1;
        }
        proof {
            lemma_docs_map_absent(self.documents@, retrieval_location@);
        }
        false
    }

    /// The dialect of a resolved document.
    pub fn document_type(&self, retrieval_location: &NodeLocation) -> (r: Option<DocumentType>)
        requires
            self.wf(),
        ensures
            match r {
                Some(t) => self.docs_view().contains_key(retrieval_location@) && t
                    == self.docs_view()[retrieval_location@],
                None => !self.docs_view().contains_key(retrieval_location@),
            },
    {
        let n = self.documents.len();
        let mut i: usize = 0;
        while i < n
            invariant
                i <= n,
                n == self.documents@.len(),
                self.wf(),
                forall|j: int| 0 <= j < i ==> (#[trigger] self.documents@[j]).0@
                    != retrieval_location@,
            decreases n - i,
        {
            if self.documents[i].0.same(retrieval_location) {
                proof {
                    lemma_docs_map_at(self.documents@, i as int);
                }
                return Some(self.documents[i].1);
            }
            i += 1;
        }
        proof {
            lemma_docs_map_absent(self.documents@, retrieval_location@);
        }
        None
    }

    fn record_document(&mut self, retrieval_location: NodeLocation, doc_type: DocumentType)
        requires
            old(self).wf(),
            old(self).documents@.len() < MAX_DOCUMENTS,
            !old(self).docs_view().contains_key(retrieval_location@),
        ensures
            final(self).wf(),
            final(self).documents@.len() == old(self).documents@.len() + 1,
            final(self).cache_view() == old(self).cache_view(),
            final(self).docs_view() == old(self).docs_view().insert(
                retrieval_location@,
                doc_type,
            ),
    {
        proof {
            assert forall|i: int| 0 <= i < self.documents@.len() implies (
            #[trigger] self.documents@[i]).0@ != retrieval_location@ by {
                if self.documents@[i].0@ == retrieval_location@ {
                    lemma_docs_map_at(self.documents@, i);
                }
            }
        }
        let ghost pre = self.documents@;
        self.documents.push((retrieval_location, doc_type));
        proof {
            assert(self.documents@.drop_last() =~= pre);
            assert forall|a: int, b: int|
                0 <= a < b < self.documents@.len() implies (#[trigger] self.documents@[a]).0@ != (
            #[trigger] self.documents@[b]).0@ by {
                if b < self.documents@.len() - 1 {
                    assert(pre[a].0@ != pre[b].0@);
                }
            }
        }
    }

    /// Loads the document graph rooted at a location: fetches and caches
    /// each reachable document once, decides its dialect, and follows its
    /// referenced locations breadth-wise until the graph is closed. A
    /// root already resolved is a no-op that touches nothing. Any fetch,
    /// parse or dialect failure aborts the call; documents resolved
    /// before the failure remain usable.
    pub fn load_from_location<F: FetchFile>(
        &mut self,
        fetcher: &mut F,
        retrieval_location: &NodeLocation,
    ) -> (r: Result<(), Error>)
        requires
            old(self).wf(),
        ensures
            final(self).wf(),
            old(self).docs_view().submap_of(final(self).docs_view()),
            old(self).cache_view().submap_of(final(self).cache_view()),
            r is Ok ==> final(self).docs_view().contains_key(retrieval_location@),
            !retrieval_location@.root ==> r == Err::<(), Error>(Error::NotARoot)
                && final(self).docs_view() == old(self).docs_view()
                && final(self).cache_view() == old(self).cache_view()
                && *final(fetcher) == *old(fetcher),
            old(self).docs_view().contains_key(retrieval_location@) && retrieval_location@.root
                ==> r is Ok && final(self).docs_view() == old(self).docs_view()
                && final(self).cache_view() == old(self).cache_view()
                && *final(fetcher) == *old(fetcher),
            retrieval_location@.root ==> r != Err::<(), Error>(Error::NotARoot),
            forall|k: LocationView|
                #![auto]
                final(self).docs_view().contains_key(k) ==> old(self).docs_view().contains_key(k)
                    || (final(self).cache_view().contains_key(k) && detect_spec(
                    final(self).cache_view()[k],
                ) == Ok::<DocumentType, DocumentTypeError>(final(self).docs_view()[k])),
    {
        if !retrieval_location.is_root() {
            return Err(Error::NotARoot);
        }
        let mut queue: Vec<NodeLocation> = Vec::new();
        queue.push(retrieval_location.clone());
        proof {
            assert(queue@[0]@ == retrieval_location@);
        }
        loop
            invariant_except_break
                retrieval_location@.root,
                self.wf(),
                old(self).docs_view().submap_of(self.docs_view()),
                old(self).cache_view().submap_of(self.cache_view()),
                forall|k: LocationView|
                    #![auto]
                    self.docs_view().contains_key(k) ==> old(self).docs_view().contains_key(k) || (
                    self.cache_view().contains_key(k) && detect_spec(self.cache_view()[k]) == Ok::<
                        DocumentType,
                        DocumentTypeError,
                    >(self.docs_view()[k])),
                self.docs_view().contains_key(retrieval_location@) || exists|t: int|
                    0 <= t < queue@.len() && (#[trigger] queue@[t])@ == retrieval_location@,
                old(self).docs_view().contains_key(retrieval_location@) ==> self.docs_view()
                    == old(self).docs_view() && self.cache_view() == old(self).cache_view()
                    && *fetcher == *old(fetcher) && (forall|t: int|
                    0 <= t < queue@.len() ==> self.docs_view().contains_key(
                        (#[trigger] queue@[t])@,
                    )),
            ensures
                self.wf(),
                old(self).docs_view().submap_of(self.docs_view()),
                old(self).cache_view().submap_of(self.cache_view()),
                self.docs_view().contains_key(retrieval_location@),
                forall|k: LocationView|
                    #![auto]
                    self.docs_view().contains_key(k) ==> old(self).docs_view().contains_key(k) || (
                    self.cache_view().contains_key(k) && detect_spec(self.cache_view()[k]) == Ok::<
                        DocumentType,
                        DocumentTypeError,
                    >(self.docs_view()[k])),
                old(self).docs_view().contains_key(retrieval_location@) ==> self.docs_view()
                    == old(self).docs_view() && self.cache_view() == old(self).cache_view()
                    && *fetcher == *old(fetcher),
            decreases MAX_DOCUMENTS - self.documents@.len(), queue@.len(),
        {
            let ghost queue_pre = queue@;
            let current = match queue.pop() {
                Some(l) => l,
                None => {
                    break ;
                },
            };
            proof {
                assert(current == queue_pre.last());
                assert(queue@ =~= queue_pre.drop_last());
            }
            if self.has_document(&current) {
                proof {
                    if !self.docs_view().contains_key(retrieval_location@) {
                        let t = choose|t: int|
                            0 <= t < queue_pre.len() && (#[trigger] queue_pre[t])@
                                == retrieval_location@;
                        assert(t < queue_pre.len() - 1);
                        assert(queue@[t]@ == retrieval_location@);
                    }
                }
                continue ;
            }
            let ghost docs_pre = self.docs_view();
            let ghost cache_pre = self.cache_view();
            match self.cache.load_from_location(fetcher, &current) {
                Ok(()) => {
                    proof {
                        vstd::map_lib::lemma_submap_of_trans(
                            old(self).cache_view(),
                            cache_pre,
                            self.cache_view(),
                        );
                        lemma_detect_preserved(
                            self.docs_view(),
                            old(self).docs_view(),
                            cache_pre,
                            self.cache_view(),
                        );
                    }
                },
                Err(e) => {
                    proof {
                        vstd::map_lib::lemma_submap_of_trans(
                            old(self).cache_view(),
                            cache_pre,
                            self.cache_view(),
                        );
                        lemma_detect_preserved(
                            self.docs_view(),
                            old(self).docs_view(),
                            cache_pre,
                            self.cache_view(),
                        );
                    }
                    return Err(e);
                },
            }
            let node = match self.cache.get_node(&current) {
                Some(n) => n.clone(),
                None => {
                    return Err(Error::NotFound);
                },
            };
            let doc_type = match DocumentType::detect(&node) {
                Ok(t) => t,
                Err(_) => {
                    return Err(Error::DocumentTypeError);
                },
            };
            match doc_type {
                DocumentType::OpenApiV30 => {
                    let document = Oas30Document::new(current.clone());
                    match document.get_referenced_locations(&self.cache) {
                        Ok(refs) => {
                            let current_root = current.set_root();
                            let m = refs.len();
                            let mut k: usize = 0;
                            let ghost queue_mid = queue@;
                            while k < m
                                invariant
                                    k <= m,
                                    m == refs@.len(),
                                    queue@.len() >= queue_mid.len(),
                                    forall|t: int|
                                        0 <= t < queue_mid.len() ==> (#[trigger] queue@[t])
                                            == queue_mid[t],
                                decreases m - k,
                            {
                                // a reference that stays inside this document names no
                                // further document
                                if !refs[k].set_root().same(&current_root) {
                                    queue.push(refs[k].clone());
                                }
                                k += 1;
                            }
                        },
                        Err(e) => {
                            return Err(e.into_error());
                        },
                    }
                },
                DocumentType::OpenApiV31 => {},
                DocumentType::Swagger2 => {},
            }
            if self.documents.len() >= MAX_DOCUMENTS {
                return Err(Error::TooManyDocuments);
            }
            let ghost docs_mid = self.docs_view();
            self.record_document(current, doc_type);
            proof {
                assert(docs_mid.submap_of(self.docs_view()));
                vstd::map_lib::lemma_submap_of_trans(
                    old(self).docs_view(),
                    docs_mid,
                    self.docs_view(),
                );
                if !self.docs_view().contains_key(retrieval_location@) {
                    if exists|t: int|
                        0 <= t < queue_pre.len() && (#[trigger] queue_pre[t])@
                            == retrieval_location@ {
                        let t = choose|t: int|
                            0 <= t < queue_pre.len() && (#[trigger] queue_pre[t])@
                                == retrieval_location@;
                        if t < queue_pre.len() - 1 {
                            assert(queue@[t]@ == retrieval_location@);
                        } else {
                            assert(queue_pre[t] == current);
                            assert(false);
                        }
                    }
                }
            }
        }
        Ok(())
    }

    /// The compiled model of a resolved document; only the OpenAPI 3.0
    /// dialect compiles to a model here.
    pub fn get_api_model(&self, retrieval_location: &NodeLocation) -> (r: Option<
        crate::model::Api,
    >)
        requires
            self.wf(),
        ensures
            r is Some <==> (self.docs_view().contains_key(retrieval_location@)
                && self.docs_view()[retrieval_location@] == DocumentType::OpenApiV30
                && self.cache_view().contains_key(retrieval_location@)
                && !crate::oas30::api_compile_fails(
                self.cache_view(),
                retrieval_location@,
                self.cache_view()[retrieval_location@],
            )),
            r matches Some(api) ==> crate::oas30::api_model_matches(
                self.cache_view(),
                retrieval_location@,
                self.cache_view()[retrieval_location@],
                api,
            ),
    {
        match self.document_type(retrieval_location) {
            Some(DocumentType::OpenApiV30) => {
                let document = Oas30Document::new(retrieval_location.clone());
                match document.get_api_model(&self.cache) {
                    Ok(api) => Some(api),
                    Err(_) => None,
                }
            },
            _ => None,
        }
    }

    /// Every schema-bearing location of every resolved document, tagged
    /// with the owning document and the dialect's default meta-schema id.
    /// Every schema-bearing location of every resolved OpenAPI 3.0
    /// document, each tagged with the owning document's location and the
    /// dialect's default meta-schema id: nothing else is listed, and no
    /// schema location of a resolved, cached document is missing.
    pub fn get_schemas(&self) -> (r: Vec<DocumentSchema>)
        requires
            self.wf(),
        ensures
            forall|i: int|
                0 <= i < r@.len() ==> {
                    let e = #[trigger] r@[i];
                    &&& self.docs_view().contains_key(e.document_location@)
                    &&& self.docs_view()[e.document_location@] == DocumentType::OpenApiV30
                    &&& self.cache_view().contains_key(e.document_location@)
                    &&& crate::oas30::schema_locations_spec(
                        e.document_location@,
                        self.cache_view()[e.document_location@],
                    ).contains(e.schema_location@)
                    &&& e.default_schema_id@
                        == "https://spec.openapis.org/oas/3.0/schema/2021-09-28#/definitions/Schema"@
                },
            forall|k: LocationView, s: LocationView|
                #![auto]
                (self.docs_view().contains_key(k) && self.docs_view()[k]
                    == DocumentType::OpenApiV30 && self.cache_view().contains_key(k)
                    && crate::oas30::schema_locations_spec(
                    k,
                    self.cache_view()[k],
                ).contains(s)) ==> exists|i: int|
                    #![auto]
                    0 <= i < r@.len() && r@[i].document_location@ == k && r@[i].schema_location@
                        == s,
    {
        let mut out: Vec<DocumentSchema> = Vec::new();
        let n = self.documents.len();
        let mut i: usize = 0;
        while i < n
            invariant
                i <= n,
                n == self.documents@.len(),
                self.wf(),
                forall|t: int|
                    0 <= t < out@.len() ==> {
                        let e = #[trigger] out@[t];
                        &&& self.docs_view().contains_key(e.document_location@)
                        &&& self.docs_view()[e.document_location@] == DocumentType::OpenApiV30
                        &&& self.cache_view().contains_key(e.document_location@)
                        &&& crate::oas30::schema_locations_spec(
                            e.document_location@,
                            self.cache_view()[e.document_location@],
                        ).contains(e.schema_location@)
                        &&& e.default_schema_id@
                            == "https://spec.openapis.org/oas/3.0/schema/2021-09-28#/definitions/Schema"@
                    },
                forall|j: int, s: LocationView|
                    #![auto]
                    (0 <= j < i && self.documents@[j].1 == DocumentType::OpenApiV30
                        && self.cache_view().contains_key(self.documents@[j].0@)
                        && crate::oas30::schema_locations_spec(
                        self.documents@[j].0@,
                        self.cache_view()[self.documents@[j].0@],
                    ).contains(s)) ==> exists|t: int|
                        #![auto]
                        0 <= t < out@.len() && out@[t].document_location@
                            == self.documents@[j].0@ && out@[t].schema_location@ == s,
            decreases n - i,
        {
            match self.documents[i].1 {
                DocumentType::OpenApiV30 => {
                    proof {
                        lemma_docs_map_at(self.documents@, i as int);
                    }
                    let document = Oas30Document::new(self.documents[i].0.clone());
                    match document.get_schema_locations(&self.cache) {
                        Ok(locations) => {
                            let ghost spec_locs = crate::oas30::schema_locations_spec(
                                self.documents@[i as int].0@,
                                self.cache_view()[self.documents@[i as int].0@],
                            );
                            proof {
                                assert(crate::oas30::locs_view(locations@) == spec_locs);
                            }
                            let m = locations.len();
                            let mut k: usize = 0;
                            while k < m
                                invariant
                                    k <= m,
                                    m == locations@.len(),
                                    i < n,
                                    n == self.documents@.len(),
                                    self.wf(),
                                    self.documents@[i as int].1 == DocumentType::OpenApiV30,
                                    self.docs_view().contains_key(self.documents@[i as int].0@),
                                    self.docs_view()[self.documents@[i as int].0@]
                                        == DocumentType::OpenApiV30,
                                    self.cache_view().contains_key(self.documents@[i as int].0@),
                                    spec_locs == crate::oas30::schema_locations_spec(
                                        self.documents@[i as int].0@,
                                        self.cache_view()[self.documents@[i as int].0@],
                                    ),
                                    crate::oas30::locs_view(locations@) == spec_locs,
                                    forall|t: int|
                                        0 <= t < out@.len() ==> {
                                            let e = #[trigger] out@[t];
                                            &&& self.docs_view().contains_key(
                                                e.document_location@,
                                            )
                                            &&& self.docs_view()[e.document_location@]
                                                == DocumentType::OpenApiV30
                                            &&& self.cache_view().contains_key(
                                                e.document_location@,
                                            )
                                            &&& crate::oas30::schema_locations_spec(
                                                e.document_location@,
                                                self.cache_view()[e.document_location@],
                                            ).contains(e.schema_location@)
                                            &&& e.default_schema_id@
                                                == "https://spec.openapis.org/oas/3.0/schema/2021-09-28#/definitions/Schema"@
                                        },
                                    forall|j: int, s: LocationView|
                                        #![auto]
                                        (0 <= j < i && self.documents@[j].1
                                            == DocumentType::OpenApiV30
                                            && self.cache_view().contains_key(
                                            self.documents@[j].0@,
                                        ) && crate::oas30::schema_locations_spec(
                                            self.documents@[j].0@,
                                            self.cache_view()[self.documents@[j].0@],
                                        ).contains(s)) ==> exists|t: int|
                                            #![auto]
                                            0 <= t < out@.len() && out@[t].document_location@
                                                == self.documents@[j].0@
                                                && out@[t].schema_location@ == s,
                                    forall|t: int|
                                        0 <= t < k ==> exists|w: int|
                                            #![auto]
                                            0 <= w < out@.len() && out@[w].document_location@
                                                == self.documents@[i as int].0@
                                                && out@[w].schema_location@ == (
                                            #[trigger] spec_locs[t]),
                                decreases m - k,
                            {
                                let entry = DocumentSchema {
                                    schema_location: locations[k].clone(),
                                    document_location: self.documents[i].0.clone(),
                                    default_schema_id: self.documents[i].1.default_schema_id(),
                                };
                                let ghost w = out@.len() as int;
                                let ghost preout = out@;
                                out.push(entry);
                                proof {
                                    assert(forall|t: int|
                                        0 <= t < preout.len() ==> #[trigger] out@[t]
                                            == preout[t]);
                                    assert(out@[w].schema_location@ == spec_locs[k as int]);
                                    assert(out@[w].document_location@
                                        == self.documents@[i as int].0@);
                                    assert(spec_locs.contains(spec_locs[k as int])) by {
                                        assert(spec_locs[k as int] == spec_locs[k as int]);
                                    }
                                    assert forall|j: int, s: LocationView|
                                        (0 <= j < i && self.documents@[j].1
                                            == DocumentType::OpenApiV30
                                            && self.cache_view().contains_key(
                                            self.documents@[j].0@,
                                        ) && crate::oas30::schema_locations_spec(
                                            self.documents@[j].0@,
                                            self.cache_view()[self.documents@[j].0@],
                                        ).contains(s)) implies exists|t: int|
                                        #![auto]
                                        0 <= t < out@.len() && out@[t].document_location@
                                            == self.documents@[j].0@ && out@[t].schema_location@
                                            == s by {
                                        let t0 = choose|t0: int|
                                            #![auto]
                                            0 <= t0 < preout.len() && preout[t0].document_location@
                                                == self.documents@[j].0@
                                                && preout[t0].schema_location@ == s;
                                        assert(out@[t0].document_location@
                                            == self.documents@[j].0@ && out@[t0].schema_location@
                                            == s);
                                    }
                                    assert forall|t: int| 0 <= t < k + 1 implies exists|w2: int|
                                        #![auto]
                                        0 <= w2 < out@.len() && out@[w2].document_location@
                                            == self.documents@[i as int].0@
                                            && out@[w2].schema_location@ == (
                                    #[trigger] spec_locs[t]) by {
                                        if t < k {
                                            let w0 = choose|w0: int|
                                                #![auto]
                                                0 <= w0 < preout.len()
                                                    && preout[w0].document_location@
                                                    == self.documents@[i as int].0@
                                                    && preout[w0].schema_location@ == spec_locs[t];
                                            assert(out@[w0].document_location@
                                                == self.documents@[i as int].0@
                                                && out@[w0].schema_location@ == spec_locs[t]);
                                        } else {
                                            assert(out@[w].document_location@
                                                == self.documents@[i as int].0@
                                                && out@[w].schema_location@ == spec_locs[t]);
                                        }
                                    }
                                }
                                k += 1;
                            }
                            proof {
                                assert forall|s: LocationView|
                                    spec_locs.contains(s) implies exists|t: int|
                                    #![auto]
                                    0 <= t < out@.len() && out@[t].document_location@
                                        == self.documents@[i as int].0@
                                        && out@[t].schema_location@ == s by {
                                    let ti = choose|ti: int|
                                        0 <= ti < spec_locs.len() && spec_locs[ti] == s;
                                }
                            }
                        },
                        Err(_) => {
                            proof {
                                assert(!self.cache_view().contains_key(
                                    self.documents@[i as int].0@,
                                ));
                            }
                        },
                    }
                },
                DocumentType::OpenApiV31 => {
                    proof {
                        lemma_docs_map_at(self.documents@, i as int);
                    }
                },
                DocumentType::Swagger2 => {
                    proof {
                        lemma_docs_map_at(self.documents@, i as int);
                    }
                },
            }
            i += 1;
        }
        proof {
            assert forall|k: LocationView, s: LocationView|
                (self.docs_view().contains_key(k) && self.docs_view()[k]
                    == DocumentType::OpenApiV30 && self.cache_view().contains_key(k)
                    && crate::oas30::schema_locations_spec(
                    k,
                    self.cache_view()[k],
                ).contains(s)) implies exists|t: int|
                #![auto]
                0 <= t < out@.len() && out@[t].document_location@ == k && out@[t].schema_location@
                    == s by {
                lemma_docs_map_contains_index(self.documents@, k);
                let j = choose|j: int|
                    0 <= j < self.documents@.len() && (#[trigger] self.documents@[j]).0@ == k;
                lemma_docs_map_at(self.documents@, j);
                assert(self.documents@[j].1 == DocumentType::OpenApiV30);
            }
        }
        out
    }
}

} // verus!
