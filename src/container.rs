//! The container: configuration, the handler registry (name → handler),
//! the routes (path → handler name), the session store, and the routing
//! decision for a request path.

use vstd::prelude::*;
use crate::entries::TextMap;
use crate::error::{Error, ErrorKind};
use crate::session::{now_millis, swept, SessionStore};
use crate::text::{ends_with, lower_of, lowercase, text_ends_with};

verus! {

/// The configuration of the container.
#[derive(Clone, Copy, Debug)]
pub struct RustletConfig {
    /// Seconds of inactivity after which a session expires; zero disables
    /// expiry.
    pub session_timeout: u64,
}

pub const DEFAULT_SESSION_TIMEOUT: u64 = 1800;

impl Default for RustletConfig {
    fn default() -> (r: RustletConfig)
        ensures
            r.session_timeout == DEFAULT_SESSION_TIMEOUT,
    {
        RustletConfig { session_timeout: DEFAULT_SESSION_TIMEOUT }
    }
}

/// Where a request goes.
#[derive(Debug)]
pub enum Route {
    /// The handler of this name, by an exact route.
    Rustlet(String),
    /// The template-page interpreter (the path ends in `.rsp`).
    Template,
    /// Nowhere: the request is answered with an error.
    NoMapping,
}

/// A path served by the template-page interpreter: its lower-case form
/// ends in `.rsp`.
pub fn is_template_path(lowered: &str) -> (r: bool)
    ensures
        r == ends_with(lowered@, ".rsp"@),
{
    text_ends_with(lowered, ".rsp")
}

/// The abstract state of a container.
pub struct ContainerView<H> {
    pub session_timeout: Option<u64>,
    pub started: bool,
    pub handlers: Map<Seq<char>, H>,
    pub routes: Map<Seq<char>, Seq<char>>,
}

impl<H> ContainerView<H> {
    /// The session timeout in effect: zero (no expiry) until configured.
    pub open spec fn expiry(self) -> int {
        match self.session_timeout {
            Some(t) => t as int,
            None => 0,
        }
    }
}

/// The handler container, over handlers of type `H`.
pub struct RustletContainer<H> {
    config: Option<RustletConfig>,
    started: bool,
    names: TextMap<usize>,
    slots: Vec<H>,
    mappings: TextMap<String>,
    sessions: SessionStore,
}

impl<H> RustletContainer<H> {
    pub closed spec fn view(&self) -> ContainerView<H> {
        ContainerView {
            session_timeout: match self.config {
                Some(c) => Some(c.session_timeout),
                None => None,
            },
            started: self.started,
            handlers: Map::new(
                |k: Seq<char>| self.names@.contains_key(k),
                |k: Seq<char>| self.slots@[self.names@[k] as int],
            ),
            routes: self.mappings@,
        }
    }

    pub closed spec fn wf(&self) -> bool {
        &&& self.names.wf()
        &&& self.mappings.wf()
        &&& self.sessions.wf()
        &&& forall|k: Seq<char>| #[trigger]
            self.names@.contains_key(k) ==> self.names@[k] < self.slots@.len()
        &&& forall|a: Seq<char>, b: Seq<char>|
            #[trigger] self.names@.contains_key(a) && #[trigger] self.names@.contains_key(b) && a
                != b ==> self.names@[a] != self.names@[b]
    }

    /// The session store.
    pub closed spec fn sessions_view(&self) -> Map<u128, crate::session::SessionView> {
        self.sessions@
    }

    pub fn new() -> (r: RustletContainer<H>)
        ensures
            r.wf(),
            r.view().session_timeout is None,
            !r.view().started,
            r.view().handlers == Map::<Seq<char>, H>::empty(),
            r.view().routes == Map::<Seq<char>, Seq<char>>::empty(),
            r.sessions_view() == Map::<u128, crate::session::SessionView>::empty(),
    {
        let r = RustletContainer {
            config: None,
            started: false,
            names: TextMap::new(),
            slots: Vec::new(),
            mappings: TextMap::new(),
            sessions: SessionStore::new(),
        };
        assert(r.view().handlers =~= Map::<Seq<char>, H>::empty());
        r
    }

    /// Records the configuration.
    pub fn set_config(&mut self, config: RustletConfig) -> (r: Result<(), Error>)
        requires
            old(self).wf(),
        ensures
            final(self).wf(),
            r is Ok,
            final(self).view() == (ContainerView {
                session_timeout: Some(config.session_timeout),
                ..old(self).view()
            }),
            final(self).sessions_view() == old(self).sessions_view(),
    {
        self.config = Some(config);
        Ok(())
    }

    /// Marks the container started. Starting twice, or before a
    /// configuration is set, is an error.
    pub fn start(&mut self) -> (r: Result<(), Error>)
        requires
            old(self).wf(),
        ensures
            final(self).wf(),
            final(self).sessions_view() == old(self).sessions_view(),
            old(self).view().started || old(self).view().session_timeout is None ==> r
                == Err::<(), Error>(Error { kind: ErrorKind::ConfigurationError })
                && final(self).view() == old(self).view(),
            !old(self).view().started && old(self).view().session_timeout is Some ==> r is Ok
                && final(self).view() == (ContainerView { started: true, ..old(self).view() }),
    {
        if self.started || self.config.is_none() {
            return Err(Error::new(ErrorKind::ConfigurationError));
        }
        self.started = true;
        Ok(())
    }

    /// Registers `rustlet` under `name`, replacing a handler of that name.
    pub fn add_rustlet(&mut self, name: &str, rustlet: H) -> (r: Result<(), Error>)
        requires
            old(self).wf(),
            name@.len() > 0,
        ensures
            final(self).wf(),
            r is Ok,
            final(self).view() == (ContainerView {
                handlers: old(self).view().handlers.insert(name@, rustlet),
                ..old(self).view()
            }),
            final(self).sessions_view() == old(self).sessions_view(),
    {
        let ghost old_view = self.view();
        let ghost want = old_view.handlers.insert(name@, rustlet);
        match self.names.get(name) {
            Some(i) => {
                let idx = *i;
                self.slots.set(idx, rustlet);
                proof {
                    assert forall|k: Seq<char>| #[trigger]
                        self.names@.contains_key(k) implies self.names@[k] < self.slots@.len() by {
                        assert(old(self).names@.contains_key(k));
                    }
                    let h = self.view().handlers;
                    assert forall|k: Seq<char>| #[trigger]
                        h.contains_key(k) implies h[k] == want[k] by {
                        if k != name@ {
                            assert(old(self).names@[k] != old(self).names@[name@]);
                        }
                    }
                    assert(h =~= want);
                }
            },
            None => {
                let idx = self.slots.len();
                self.slots.push(rustlet);
                self.names.put(name, idx);
                proof {
                    assert forall|k: Seq<char>| #[trigger]
                        self.names@.contains_key(k) implies self.names@[k] < self.slots@.len() by {
                        if k != name@ {
                            assert(old(self).names@.contains_key(k));
                        }
                    }
                    assert forall|a: Seq<char>, b: Seq<char>|
                        #[trigger] self.names@.contains_key(a) && #[trigger] self.names@.contains_key(
                            b,
                        ) && a != b implies self.names@[a] != self.names@[b] by {
                        if a != name@ {
                            assert(old(self).names@.contains_key(a));
                        }
                        if b != name@ {
                            assert(old(self).names@.contains_key(b));
                        }
                    }
                    let h = self.view().handlers;
                    assert forall|k: Seq<char>| #[trigger]
                        h.contains_key(k) implies h[k] == want[k] by {
                        if k != name@ {
                            assert(old(self).names@.contains_key(k));
                            assert(old(self).names@[k] < old(self).slots@.len());
                        }
                    }
                    assert(h =~= want);
                }
            },
        }
        proof {
            assert(self.view() =~= (ContainerView { handlers: want, ..old_view }));
        }
        Ok(())
    }

    /// Routes `path` to the handler named `name`; the name is resolved
    /// when a request comes. Without a configuration nothing is recorded.
    pub fn add_rustlet_mapping(&mut self, path: &str, name: &str) -> (r: Result<(), Error>)
        requires
            old(self).wf(),
        ensures
            final(self).wf(),
            r is Ok,
            old(self).view().session_timeout is Some ==> final(self).view() == (ContainerView {
                routes: old(self).view().routes.insert(path@, name@),
                ..old(self).view()
            }),
            old(self).view().session_timeout is None ==> final(self).view() == old(self).view(),
            final(self).sessions_view() == old(self).sessions_view(),
    {
        if self.config.is_some() {
            let ghost old_view = self.view();
            self.mappings.put(path, String::from_str(name));
            proof {
                assert(self.view().handlers =~= old_view.handlers);
                assert(self.view() =~= (ContainerView {
                    routes: old_view.routes.insert(path@, name@),
                    ..old_view
                }));
            }
        }
        Ok(())
    }

    /// The handler registered under `name`.
    pub fn get_rustlet(&self, name: &str) -> (r: Option<&H>)
        requires
            self.wf(),
        ensures
            match r {
                Some(h) => self.view().handlers.contains_key(name@) && *h == self.view().handlers[name@],
                None => !self.view().handlers.contains_key(name@),
            },
    {
        match self.names.get(name) {
            Some(i) => Some(&self.slots[*i]),
            None => None,
        }
    }

    /// Where a request for `uri` goes, given the lower-case form of `uri`:
    /// an exact route first, then the template interpreter for `.rsp`
    /// paths, else nowhere.
    pub fn route_lowered(&self, uri: &str, lowered: &str) -> (r: Route)
        requires
            self.wf(),
        ensures
            match r {
                Route::Rustlet(n) => self.view().routes.contains_key(uri@) && n@
                    == self.view().routes[uri@],
                Route::Template => !self.view().routes.contains_key(uri@) && ends_with(
                    lowered@,
                    ".rsp"@,
                ),
                Route::NoMapping => !self.view().routes.contains_key(uri@) && !ends_with(
                    lowered@,
                    ".rsp"@,
                ),
            },
    {
        match self.mappings.get(uri) {
            Some(n) => Route::Rustlet(n.clone()),
            None => if is_template_path(lowered) {
                Route::Template
            } else {
                Route::NoMapping
            },
        }
    }

    /// Where a request for `uri` goes: an exact route first, then the
    /// template interpreter when the path ends in `.rsp` in any case, else
    /// nowhere.
    pub fn route(&self, uri: &str) -> (r: Route)
        requires
            self.wf(),
        ensures
            match r {
                Route::Rustlet(n) => self.view().routes.contains_key(uri@) && n@
                    == self.view().routes[uri@],
                Route::Template => !self.view().routes.contains_key(uri@) && ends_with(
                    lower_of(uri@),
                    ".rsp"@,
                ),
                Route::NoMapping => !self.view().routes.contains_key(uri@) && !ends_with(
                    lower_of(uri@),
                    ".rsp"@,
                ),
            },
    {
        let lowered = lowercase(uri);
        self.route_lowered(uri, lowered.as_str())
    }

    /// The session store.
    pub fn sessions(&mut self) -> (r: &mut SessionStore)
        requires
            old(self).wf(),
        ensures
            r.wf(),
            r@ == old(self).sessions_view(),
            final(self).view() == old(self).view(),
            final(self).sessions_view() == final(r)@,
            final(r).wf() ==> final(self).wf(),
    {
        &mut self.sessions
    }

    /// Expires the sessions idle for longer than the configured timeout at
    /// `now` (milliseconds); without a configuration nothing expires.
    pub fn housekeeper_at(&mut self, now: u128)
        requires
            old(self).wf(),
        ensures
            final(self).wf(),
            final(self).view() == old(self).view(),
            final(self).sessions_view() == swept(
                old(self).sessions_view(),
                now as int,
                old(self).view().expiry(),
            ),
    {
        let timeout = match &self.config {
            Some(c) => c.session_timeout,
            None => 0,
        };
        self.sessions.sweep(now, timeout);
    }

    /// Expires the sessions idle for longer than the configured timeout, at
    /// the current time. A clock that cannot be read is an internal error,
    /// and nothing expires.
    pub fn housekeeper(&mut self) -> (r: Result<(), Error>)
        requires
            old(self).wf(),
        ensures
            final(self).wf(),
            final(self).view() == old(self).view(),
            r is Ok ==> exists|now: int|
                final(self).sessions_view() == #[trigger] swept(
                    old(self).sessions_view(),
                    now,
                    old(self).view().expiry(),
                ),
            r matches Err(e) ==> e.kind == ErrorKind::InternalError && final(self).sessions_view()
                == old(self).sessions_view(),
    {
        let now = match now_millis() {
            Some(t) => t,
            None => {
                return Err(Error::new(ErrorKind::InternalError));
            },
        };
        self.housekeeper_at(now);
        assert(self.sessions_view() == swept(
            old(self).sessions_view(),
            now as int,
            old(self).view().expiry(),
        ));
        Ok(())
    }
}

} // verus!
