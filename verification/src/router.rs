//! Inference router: model-alias resolution across configured backends.
//!
//! The router keeps a backend table and a model map, both keyed by name in
//! insertion order. Resolution is total over configured backends: a mapped
//! alias goes to its backend and backend-local model id; an unmapped alias
//! goes to the first configured backend with the alias as the literal
//! model id, a deterministic tie-break; with no backends configured,
//! resolution fails. The host performs the HTTP call against the resolved
//! target.

use vstd::prelude::*;

verus! {

/// Errors of the router.
#[derive(Debug)]
pub enum RouterError {
    BackendNotFound(String),
    ModelNotFound(String),
    HttpError(String),
    JsonError(String),
    ApiError(String),
}

impl RouterError {
    /// A human-readable rendering of the error.
    pub fn message(&self) -> (r: String)
        ensures
            (self is BackendNotFound ==> r@ == "Backend not found: "@ + self->BackendNotFound_0@),
            (self is ModelNotFound ==> r@ == "Model not found: "@ + self->ModelNotFound_0@),
            (self is HttpError ==> r@ == "HTTP error: "@ + self->HttpError_0@),
            (self is JsonError ==> r@ == "JSON error: "@ + self->JsonError_0@),
            (self is ApiError ==> r@ == "API error: "@ + self->ApiError_0@),
    {
        match self {
            RouterError::BackendNotFound(what) => String::from_str("Backend not found: ").concat(
                what.as_str(),
            ),
            RouterError::ModelNotFound(what) => String::from_str("Model not found: ").concat(
                what.as_str(),
            ),
            RouterError::HttpError(what) => String::from_str("HTTP error: ").concat(
                what.as_str(),
            ),
            RouterError::JsonError(what) => String::from_str("JSON error: ").concat(
                what.as_str(),
            ),
            RouterError::ApiError(what) => String::from_str("API error: ").concat(what.as_str()),
        }
    }
}

/// One configured backend.
pub struct Backend {
    pub name: String,
    pub base_url: String,
    pub api_key: Option<String>,
}

/// One alias mapping: the agent-facing alias and the backend-local model.
pub struct ModelMapping {
    pub alias: String,
    pub backend_name: String,
    pub model_id: String,
}

/// Where a call should go: the backend's address and key, and the model id
/// to ask it for.
pub struct ResolvedTarget {
    pub base_url: String,
    pub api_key: Option<String>,
    pub model_id: String,
}

/// A chat message, shape-normalised.
pub struct ChatMessage {
    pub role: String,
    pub content: String,
}

/// The router's tables.
pub struct InferenceRouter {
    pub backends: Vec<Backend>,
    pub model_map: Vec<ModelMapping>,
}

/// Backend names are unique; aliases are unique.
pub open spec fn router_wf(r: InferenceRouter) -> bool {
    &&& forall|i: int, j: int|
        0 <= i < j < r.backends@.len() ==> #[trigger] r.backends@[i].name@
            != #[trigger] r.backends@[j].name@
    &&& forall|i: int, j: int|
        0 <= i < j < r.model_map@.len() ==> #[trigger] r.model_map@[i].alias@
            != #[trigger] r.model_map@[j].alias@
}

/// Some backend carries this name.
pub open spec fn backend_exists(bs: Seq<Backend>, name: Seq<char>) -> bool {
    exists|i: int| 0 <= i < bs.len() && #[trigger] bs[i].name@ == name
}

/// The index of the backend carrying `name` (meaningful when one does).
pub open spec fn backend_idx(bs: Seq<Backend>, name: Seq<char>) -> int {
    choose|i: int| 0 <= i < bs.len() && #[trigger] bs[i].name@ == name
}

/// Some mapping carries this alias.
pub open spec fn alias_exists(ms: Seq<ModelMapping>, alias: Seq<char>) -> bool {
    exists|i: int| 0 <= i < ms.len() && #[trigger] ms[i].alias@ == alias
}

/// The index of the mapping carrying `alias` (meaningful when one does).
pub open spec fn alias_idx(ms: Seq<ModelMapping>, alias: Seq<char>) -> int {
    choose|i: int| 0 <= i < ms.len() && #[trigger] ms[i].alias@ == alias
}

impl InferenceRouter {
    /// An empty router.
    pub fn new() -> (r: InferenceRouter)
        ensures
            router_wf(r),
            r.backends@.len() == 0,
            r.model_map@.len() == 0,
    {
        InferenceRouter { backends: Vec::new(), model_map: Vec::new() }
    }

    /// Register a backend, replacing one already carrying the name.
    pub fn add_backend(&mut self, name: String, base_url: String, api_key: Option<String>)
        requires
            router_wf(*old(self)),
        ensures
            router_wf(*final(self)),
            final(self).model_map == old(self).model_map,
            backend_exists(final(self).backends@, name@),
            ({
                let b = final(self).backends@[backend_idx(final(self).backends@, name@)];
                b.name == name && b.base_url == base_url && b.api_key == api_key
            }),
            (if backend_exists(old(self).backends@, name@) {
                final(self).backends@ == old(self).backends@.update(
                    backend_idx(old(self).backends@, name@),
                    (Backend { name, base_url, api_key }),
                )
            } else {
                final(self).backends@ == old(self).backends@.push(
                    (Backend { name, base_url, api_key }),
                )
            }),
    {
        let b = Backend { name, base_url, api_key };
        let ghost b0 = self.backends@;
        let mut i: usize = 0;
        while i < self.backends.len()
            invariant
                0 <= i <= self.backends@.len(),
                self.backends@ == b0,
                self.model_map == old(self).model_map,
                forall|i2: int| 0 <= i2 < i ==> #[trigger] b0[i2].name@ != b.name@,
            decreases self.backends@.len() - i,
        {
            if self.backends[i].name == b.name {
                let ghost iw = i as int;
                proof {
                    assert(b0[iw].name@ == b.name@);
                    assert(backend_exists(b0, b.name@));
                    let ic0 = backend_idx(b0, b.name@);
                    if ic0 < iw {
                        assert(b0[ic0].name@ != b0[iw].name@);
                    } else if iw < ic0 {
                        assert(b0[iw].name@ != b0[ic0].name@);
                    }
                    assert(ic0 == iw);
                }
                self.backends.set(i, b);
                proof {
                    assert forall|i1: int, j1: int|
                        0 <= i1 < j1 < self.backends@.len() implies #[trigger] self.backends@[
                        i1].name@ != #[trigger] self.backends@[j1].name@ by {
                        assert(b0[i1].name@ != b0[j1].name@);
                    }
                    assert(self.backends@[iw].name@ == b.name@);
                    let ic = backend_idx(self.backends@, b.name@);
                    if ic < iw {
                        assert(self.backends@[ic].name@ != self.backends@[iw].name@);
                    } else if iw < ic {
                        assert(self.backends@[iw].name@ != self.backends@[ic].name@);
                    }
                }
                return ;
            }
            i = i + 1;
        }
        self.backends.push(b);
        proof {
            assert forall|i1: int, j1: int|
                0 <= i1 < j1 < self.backends@.len() implies #[trigger] self.backends@[i1].name@
                != #[trigger] self.backends@[j1].name@ by {
                if j1 < b0.len() {
                    assert(b0[i1].name@ != b0[j1].name@);
                } else {
                    assert(self.backends@[i1] == b0[i1]);
                }
            }
            let iw = b0.len() as int;
            assert(self.backends@[iw].name@ == b.name@);
            let ic = backend_idx(self.backends@, b.name@);
            if ic < iw {
                assert(self.backends@[ic].name@ != self.backends@[iw].name@);
            } else if iw < ic {
                assert(self.backends@[iw].name@ != self.backends@[ic].name@);
            }
            assert forall|i2: int|
                (0 <= i2 < self.backends@.len() && #[trigger] self.backends@[i2].name@ != b.name@)
                implies backend_exists(b0, self.backends@[i2].name@) by {
                assert(self.backends@[i2] == b0[i2]);
            }
        }
    }

    /// Map an alias onto a backend and model id, replacing an existing
    /// mapping of the alias.
    pub fn add_model_mapping(&mut self, key: String, backend_name: String, model_id: String)
        requires
            router_wf(*old(self)),
        ensures
            router_wf(*final(self)),
            final(self).backends == old(self).backends,
            alias_exists(final(self).model_map@, key@),
            ({
                let m = final(self).model_map@[alias_idx(final(self).model_map@, key@)];
                m.alias == key && m.backend_name == backend_name && m.model_id == model_id
            }),
            (if alias_exists(old(self).model_map@, key@) {
                final(self).model_map@ == old(self).model_map@.update(
                    alias_idx(old(self).model_map@, key@),
                    (ModelMapping { alias: key, backend_name, model_id }),
                )
            } else {
                final(self).model_map@ == old(self).model_map@.push(
                    (ModelMapping { alias: key, backend_name, model_id }),
                )
            }),
    {
        let m = ModelMapping { alias: key, backend_name, model_id };
        let ghost m0 = self.model_map@;
        let mut i: usize = 0;
        while i < self.model_map.len()
            invariant
                0 <= i <= self.model_map@.len(),
                self.model_map@ == m0,
                self.backends == old(self).backends,
                forall|i2: int| 0 <= i2 < i ==> #[trigger] m0[i2].alias@ != m.alias@,
            decreases self.model_map@.len() - i,
        {
            if self.model_map[i].alias == m.alias {
                let ghost iw = i as int;
                proof {
                    assert(m0[iw].alias@ == m.alias@);
                    assert(alias_exists(m0, m.alias@));
                    let ic0 = alias_idx(m0, m.alias@);
                    if ic0 < iw {
                        assert(m0[ic0].alias@ != m0[iw].alias@);
                    } else if iw < ic0 {
                        assert(m0[iw].alias@ != m0[ic0].alias@);
                    }
                    assert(ic0 == iw);
                }
                self.model_map.set(i, m);
                proof {
                    assert forall|i1: int, j1: int|
                        0 <= i1 < j1 < self.model_map@.len() implies #[trigger] self.model_map@[
                        i1].alias@ != #[trigger] self.model_map@[j1].alias@ by {
                        assert(m0[i1].alias@ != m0[j1].alias@);
                    }
                    assert(self.model_map@[iw].alias@ == m.alias@);
                    let ic = alias_idx(self.model_map@, m.alias@);
                    if ic < iw {
                        assert(self.model_map@[ic].alias@ != self.model_map@[iw].alias@);
                    } else if iw < ic {
                        assert(self.model_map@[iw].alias@ != self.model_map@[ic].alias@);
                    }
                }
                return ;
            }
            i = i + 1;
        }
        self.model_map.push(m);
        proof {
            assert forall|i1: int, j1: int|
                0 <= i1 < j1 < self.model_map@.len() implies #[trigger] self.model_map@[i1].alias@
                != #[trigger] self.model_map@[j1].alias@ by {
                if j1 < m0.len() {
                    assert(m0[i1].alias@ != m0[j1].alias@);
                } else {
                    assert(self.model_map@[i1] == m0[i1]);
                }
            }
            let iw = m0.len() as int;
            assert(self.model_map@[iw].alias@ == m.alias@);
            let ic = alias_idx(self.model_map@, m.alias@);
            if ic < iw {
                assert(self.model_map@[ic].alias@ != self.model_map@[iw].alias@);
            } else if iw < ic {
                assert(self.model_map@[iw].alias@ != self.model_map@[ic].alias@);
            }
        }
    }

    /// Resolve an alias. A mapped alias goes to its backend with the
    /// mapped model id; an unmapped one goes to the first configured
    /// backend with the alias as the literal model id; with no backends
    /// at all (or a mapping naming a missing backend) resolution fails.
    pub fn resolve(&self, model_key_or_id: &String) -> (r: Result<ResolvedTarget, RouterError>)
        requires
            router_wf(*self),
        ensures
            (if alias_exists(self.model_map@, model_key_or_id@) {
                let m = self.model_map@[alias_idx(self.model_map@, model_key_or_id@)];
                if backend_exists(self.backends@, m.backend_name@) {
                    let b = self.backends@[backend_idx(self.backends@, m.backend_name@)];
                    &&& r is Ok
                    &&& r->Ok_0.base_url == b.base_url
                    &&& r->Ok_0.api_key == b.api_key
                    &&& r->Ok_0.model_id == m.model_id
                } else {
                    r is Err && r->Err_0 is BackendNotFound
                }
            } else if self.backends@.len() > 0 {
                &&& r is Ok
                &&& r->Ok_0.base_url == self.backends@[0].base_url
                &&& r->Ok_0.api_key == self.backends@[0].api_key
                &&& r->Ok_0.model_id@ == model_key_or_id@
            } else {
                r is Err && r->Err_0 is BackendNotFound
            }),
    {
        let mut mi: usize = 0;
        while mi < self.model_map.len() && !(self.model_map[mi].alias == *model_key_or_id)
            invariant
                0 <= mi <= self.model_map@.len(),
                forall|i2: int| 0 <= i2 < mi ==> #[trigger] self.model_map@[i2].alias@
                    != model_key_or_id@,
            decreases self.model_map@.len() - mi,
        {
            mi = mi + 1;
        }
        if mi < self.model_map.len() {
            proof {
                assert(alias_exists(self.model_map@, model_key_or_id@));
                let ic = alias_idx(self.model_map@, model_key_or_id@);
                if ic < mi as int {
                    assert(self.model_map@[ic].alias@ != self.model_map@[mi as int].alias@);
                } else if (mi as int) < ic {
                    assert(self.model_map@[mi as int].alias@ != self.model_map@[ic].alias@);
                }
            }
            let target_name = &self.model_map[mi].backend_name;
            let mut bi: usize = 0;
            while bi < self.backends.len() && !(self.backends[bi].name == *target_name)
                invariant
                    0 <= bi <= self.backends@.len(),
                    forall|i2: int| 0 <= i2 < bi ==> #[trigger] self.backends@[i2].name@
                        != target_name@,
                decreases self.backends@.len() - bi,
            {
                bi = bi + 1;
            }
            if bi < self.backends.len() {
                proof {
                    assert(backend_exists(self.backends@, target_name@));
                    let ic = backend_idx(self.backends@, target_name@);
                    if ic < bi as int {
                        assert(self.backends@[ic].name@ != self.backends@[bi as int].name@);
                    } else if (bi as int) < ic {
                        assert(self.backends@[bi as int].name@ != self.backends@[ic].name@);
                    }
                }
                let b = &self.backends[bi];
                Ok(
                    ResolvedTarget {
                        base_url: b.base_url.clone(),
                        api_key: match &b.api_key {
                            Some(k) => Some(k.clone()),
                            None => None,
                        },
                        model_id: self.model_map[mi].model_id.clone(),
                    },
                )
            } else {
                proof {
                    assert(!backend_exists(self.backends@, target_name@));
                }
                Err(RouterError::BackendNotFound(target_name.clone()))
            }
        } else {
            proof {
                assert(!alias_exists(self.model_map@, model_key_or_id@));
            }
            if self.backends.len() > 0 {
                let b = &self.backends[0];
                Ok(
                    ResolvedTarget {
                        base_url: b.base_url.clone(),
                        api_key: match &b.api_key {
                            Some(k) => Some(k.clone()),
                            None => None,
                        },
                        model_id: model_key_or_id.clone(),
                    },
                )
            } else {
                Err(RouterError::BackendNotFound(String::new()))
            }
        }
    }

    /// Normalise one incoming message: a missing role becomes `user`, a
    /// missing content the empty string.
    pub fn normalize_message(role: Option<String>, content: Option<String>) -> (r: ChatMessage)
        ensures
            r.role@ == (match role {
                Some(ro) => ro@,
                None => "user"@,
            }),
            r.content@ == (match content {
                Some(c) => c@,
                None => Seq::<char>::empty(),
            }),
    {
        let ro = match role {
            Some(ro) => ro,
            None => String::from_str("user"),
        };
        let c = match content {
            Some(c) => c,
            None => String::new(),
        };
        ChatMessage { role: ro, content: c }
    }

    /// The names of the configured backends, in configuration order.
    pub fn list_backends(&self) -> (r: Vec<String>)
        ensures
            r@.len() == self.backends@.len(),
            forall|i: int| 0 <= i < r@.len() ==> #[trigger] r@[i]@ == self.backends@[i].name@,
    {
        let mut r: Vec<String> = Vec::new();
        let mut i: usize = 0;
        while i < self.backends.len()
            invariant
                0 <= i <= self.backends@.len(),
                r@.len() == i,
                forall|i2: int| 0 <= i2 < i ==> #[trigger] r@[i2]@ == self.backends@[i2].name@,
            decreases self.backends@.len() - i,
        {
            r.push(self.backends[i].name.clone());
            i = i + 1;
        }
        r
    }

    /// A copy of the model map, in configuration order.
    pub fn get_model_mapping(&self) -> (r: Vec<ModelMapping>)
        ensures
            r@.len() == self.model_map@.len(),
            forall|i: int|
                0 <= i < r@.len() ==> (#[trigger] r@[i].alias == self.model_map@[i].alias
                    && r@[i].backend_name == self.model_map@[i].backend_name && r@[i].model_id
                    == self.model_map@[i].model_id),
    {
        let mut r: Vec<ModelMapping> = Vec::new();
        let mut i: usize = 0;
        while i < self.model_map.len()
            invariant
                0 <= i <= self.model_map@.len(),
                r@.len() == i,
                forall|i2: int|
                    0 <= i2 < i ==> (#[trigger] r@[i2].alias == self.model_map@[i2].alias
                        && r@[i2].backend_name == self.model_map@[i2].backend_name
                        && r@[i2].model_id == self.model_map@[i2].model_id),
            decreases self.model_map@.len() - i,
        {
            let m = &self.model_map[i];
            r.push(
                ModelMapping {
                    alias: m.alias.clone(),
                    backend_name: m.backend_name.clone(),
                    model_id: m.model_id.clone(),
                },
            );
            i = i + 1;
        }
        r
    }
}

} // verus!
