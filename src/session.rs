//! The in-memory session store: session id → last access time and a bag of
//! named byte values, with the time-to-live sweep.

use vstd::prelude::*;
use vstd::std_specs::hash::*;
use vstd::std_specs::iter::IteratorSpec;
use std::collections::HashMap;
use crate::entries::TextMap;
use crate::framing::append_bytes;

verus! {

broadcast use vstd::std_specs::hash::group_hash_axioms;

/// What a session holds: the time of its last access in milliseconds, and
/// its named values.
pub struct SessionView {
    pub mod_time: int,
    pub data: Map<Seq<char>, Seq<u8>>,
}

/// One session: the time of its last access and its named values.
pub struct SessionData {
    mod_time: u128,
    data: TextMap<Vec<u8>>,
}

impl View for SessionData {
    type V = SessionView;

    closed spec fn view(&self) -> SessionView {
        SessionView { mod_time: self.mod_time as int, data: self.data@ }
    }
}

impl SessionData {
    pub closed spec fn wf(&self) -> bool {
        self.data.wf()
    }

    /// An empty session, last accessed at `now`.
    pub fn new(now: u128) -> (r: SessionData)
        ensures
            r.wf(),
            r@.mod_time == now,
            r@.data == Map::<Seq<char>, Seq<u8>>::empty(),
    {
        SessionData { mod_time: now, data: TextMap::new() }
    }

    /// The value stored under `name`, if any.
    pub fn get(&self, name: &str) -> (r: Option<Vec<u8>>)
        requires
            self.wf(),
        ensures
            match r {
                Some(v) => self@.data.contains_key(name@) && v@ == self@.data[name@],
                None => !self@.data.contains_key(name@),
            },
    {
        match self.data.get(name) {
            Some(value) => {
                let mut v: Vec<u8> = Vec::new();
                append_bytes(&mut v, value.as_slice());
                assert(v@ =~= value@);
                Some(v)
            },
            None => None,
        }
    }

    /// Removes the value stored under `name`, if any.
    pub fn remove(&mut self, name: &str)
        requires
            old(self).wf(),
        ensures
            final(self).wf(),
            final(self)@.mod_time == old(self)@.mod_time,
            final(self)@.data == old(self)@.data.remove(name@),
    {
        self.data.remove(name);
    }

    /// Stores `value` under `name`, replacing what was there.
    pub fn put(&mut self, name: &str, value: Vec<u8>)
        requires
            old(self).wf(),
        ensures
            final(self).wf(),
            final(self)@.mod_time == old(self)@.mod_time,
            final(self)@.data == old(self)@.data.insert(name@, value@),
    {
        self.data.put(name, value);
    }

    /// Records an access at `now`.
    pub fn touch(&mut self, now: u128)
        ensures
            final(self).wf() == old(self).wf(),
            final(self)@.mod_time == now,
            final(self)@.data == old(self)@.data,
    {
        self.mod_time = now;
    }

    /// The time of the last access, in milliseconds.
    pub fn get_mod_time(&self) -> (r: u128)
        ensures
            r == self@.mod_time,
    {
        self.mod_time
    }
}

/// A session has been idle for more than `timeout` seconds at `now` (both
/// times in milliseconds; a last access later than `now` is not idle).
pub open spec fn expired(mod_time: int, now: int, timeout: int) -> bool {
    now >= mod_time && now - mod_time > timeout * 1000
}

/// The value stored under `name` in session `id`, if both exist.
pub open spec fn session_value(m: Map<u128, SessionView>, id: u128, name: Seq<char>) -> Option<
    Seq<u8>,
> {
    if m.contains_key(id) && m[id].data.contains_key(name) {
        Some(m[id].data[name])
    } else {
        None
    }
}

/// The values of session `id`, empty when there is no such session.
pub open spec fn session_data(m: Map<u128, SessionView>, id: u128) -> Map<Seq<char>, Seq<u8>> {
    if m.contains_key(id) {
        m[id].data
    } else {
        Map::empty()
    }
}

/// The store after session `id` was read at `now` (created if absent).
pub open spec fn touched(m: Map<u128, SessionView>, id: u128, now: int) -> Map<u128, SessionView> {
    m.insert(id, SessionView { mod_time: now, data: session_data(m, id) })
}

/// The store after `value` was stored under `name` in session `id` at `now`.
pub open spec fn stored(
    m: Map<u128, SessionView>,
    id: u128,
    name: Seq<char>,
    value: Seq<u8>,
    now: int,
) -> Map<u128, SessionView> {
    m.insert(id, SessionView { mod_time: now, data: session_data(m, id).insert(name, value) })
}

/// The store after `name` was removed from session `id` at `now`.
pub open spec fn entry_removed(m: Map<u128, SessionView>, id: u128, name: Seq<char>, now: int) -> Map<
    u128,
    SessionView,
> {
    if m.contains_key(id) {
        m.insert(id, SessionView { mod_time: now, data: m[id].data.remove(name) })
    } else {
        m
    }
}

/// The store after a sweep at `now`: with a timeout of zero nothing
/// expires; otherwise exactly the sessions idle for longer are gone.
pub open spec fn swept(m: Map<u128, SessionView>, now: int, timeout: int) -> Map<u128, SessionView> {
    if timeout == 0 {
        m
    } else {
        m.restrict(m.dom().filter(|k: u128| !expired(m[k].mod_time, now, timeout)))
    }
}

/// A value stored in a session is what the next read of that name in that
/// session returns; once the name is removed, or the session invalidated,
/// the read returns nothing.
pub proof fn lemma_session_round_trip(
    m: Map<u128, SessionView>,
    id: u128,
    name: Seq<char>,
    value: Seq<u8>,
    t1: int,
    t2: int,
)
    ensures
        session_value(stored(m, id, name, value, t1), id, name) == Some(value),
        session_value(entry_removed(stored(m, id, name, value, t1), id, name, t2), id, name) is None,
        session_value(entry_removed(m, id, name, t2), id, name) is None,
        session_value(m.remove(id), id, name) is None,
{
}

/// Reading a session leaves its values as they were.
pub proof fn lemma_read_keeps_values(m: Map<u128, SessionView>, id: u128, name: Seq<char>, now: int)
    ensures
        session_value(touched(m, id, now), id, name) == session_value(m, id, name),
{
}

/// Relies on std::time::SystemTime::now and its duration since the Unix
/// epoch: the wall clock in milliseconds, or nothing for a clock set before
/// the epoch. Nothing is promised of the value.
#[verifier::external_body]
pub(crate) fn now_millis() -> (r: Option<u128>) {
    match std::time::SystemTime::now().duration_since(std::time::UNIX_EPOCH) {
        Ok(d) => Some(d.as_millis()),
        Err(_) => None,
    }
}

/// All sessions, by id.
pub struct SessionStore {
    sessions: HashMap<u128, SessionData>,
}

impl View for SessionStore {
    type V = Map<u128, SessionView>;

    closed spec fn view(&self) -> Map<u128, SessionView> {
        self.sessions@.map_values(|d: SessionData| d@)
    }
}

impl SessionStore {
    pub closed spec fn wf(&self) -> bool {
        forall|k: u128| #[trigger] self.sessions@.contains_key(k) ==> self.sessions@[k].wf()
    }

    pub fn new() -> (r: SessionStore)
        ensures
            r.wf(),
            r@ == Map::<u128, SessionView>::empty(),
    {
        let r = SessionStore { sessions: HashMap::new() };
        assert(r@ =~= Map::<u128, SessionView>::empty());
        r
    }

    /// Whether session `id` exists.
    pub fn contains(&self, id: u128) -> (r: bool)
        ensures
            r == self@.contains_key(id),
    {
        self.sessions.contains_key(&id)
    }

    /// The number of sessions.
    pub fn len(&self) -> (r: usize)
        ensures
            r == self@.len(),
    {
        proof {
            assert(self@.dom() =~= self.sessions@.dom());
        }
        self.sessions.len()
    }

    /// Reads the value under `name` in session `id` at time `now`; the
    /// session's access time becomes `now`, and a missing session is
    /// created empty.
    pub fn get_at(&mut self, id: u128, name: &str, now: u128) -> (r: Option<Vec<u8>>)
        requires
            old(self).wf(),
        ensures
            final(self).wf(),
            match r {
                Some(v) => session_value(old(self)@, id, name@) == Some(v@),
                None => session_value(old(self)@, id, name@) is None,
            },
            final(self)@ == touched(old(self)@, id, now as int),
    {
        let ghost m = self@;
        match self.sessions.remove(&id) {
            Some(mut d) => {
                let r = d.get(name);
                d.touch(now);
                self.sessions.insert(id, d);
                assert(self@ =~= touched(m, id, now as int));
                r
            },
            None => {
                let d = SessionData::new(now);
                self.sessions.insert(id, d);
                assert(self@ =~= touched(m, id, now as int));
                None
            },
        }
    }

    /// Stores `value` under `name` in session `id` (created if missing);
    /// the session's access time becomes `now`.
    pub fn set_at(&mut self, id: u128, name: &str, value: Vec<u8>, now: u128)
        requires
            old(self).wf(),
        ensures
            final(self).wf(),
            final(self)@ == stored(old(self)@, id, name@, value@, now as int),
    {
        let ghost m = self@;
        let mut d = match self.sessions.remove(&id) {
            Some(d) => d,
            None => SessionData::new(now),
        };
        d.put(name, value);
        d.touch(now);
        self.sessions.insert(id, d);
        assert(self@ =~= stored(m, id, name@, value@, now as int));
    }

    /// Removes `name` from session `id`; the session's access time becomes
    /// `now`. A missing session is left missing.
    pub fn remove_entry_at(&mut self, id: u128, name: &str, now: u128)
        requires
            old(self).wf(),
        ensures
            final(self).wf(),
            final(self)@ == entry_removed(old(self)@, id, name@, now as int),
    {
        let ghost m = self@;
        match self.sessions.remove(&id) {
            Some(mut d) => {
                d.remove(name);
                d.touch(now);
                self.sessions.insert(id, d);
                assert(self@ =~= entry_removed(m, id, name@, now as int));
            },
            None => {
                assert(self@ =~= m);
            },
        }
    }

    /// Removes session `id` with all its values.
    pub fn invalidate(&mut self, id: u128)
        requires
            old(self).wf(),
        ensures
            final(self).wf(),
            final(self)@ == old(self)@.remove(id),
    {
        let ghost m = self@;
        self.sessions.remove(&id);
        assert(self@ =~= m.remove(id));
    }

    /// Removes every session idle for more than `timeout` seconds at `now`;
    /// a timeout of zero disables expiry.
    pub fn sweep(&mut self, now: u128, timeout: u64)
        requires
            old(self).wf(),
        ensures
            final(self).wf(),
            final(self)@ == swept(old(self)@, now as int, timeout as int),
            forall|id: u128|
                #![trigger old(self)@.contains_key(id)]
                timeout > 0 && old(self)@.contains_key(id) && expired(
                    old(self)@[id].mod_time,
                    now as int,
                    timeout as int,
                ) ==> !final(self)@.contains_key(id),
    {
        if timeout == 0 {
            return;
        }
        let ghost m0 = self.sessions@;
        let ghost hm = self.sessions;
        let mut idle: Vec<u128> = Vec::new();
        for kv in it: self.sessions.iter()
            invariant
                self.sessions@ == m0,
                hm@ == m0,
                it.seq() == spec_hash_map_iter(&hm).remaining(),
                forall|j: int|
                    0 <= j < idle@.len() ==> #[trigger] m0.contains_key(idle@[j]) && expired(
                        m0[idle@[j]]@.mod_time,
                        now as int,
                        timeout as int,
                    ),
                forall|j: int|
                    0 <= j < it.index() && m0.contains_key(*it.seq()[j].0) && expired(
                        m0[*it.seq()[j].0]@.mod_time,
                        now as int,
                        timeout as int,
                    ) ==> idle@.contains(*#[trigger] it.seq()[j].0),
        {
            let (k, v) = kv;
            let ghost seq = spec_hash_map_iter(&hm).remaining();
            let ghost j = it.index();
            proof {
                assert(seq[j] == kv);
                assert(m0.contains_key(*seq[j].0));
            }
            let ghost before = idle@;
            let t = v.get_mod_time();
            if now >= t && now - t > timeout as u128 * 1000 {
                idle.push(*k);
                assert(idle@[idle@.len() - 1] == *k);
            }
            proof {
                assert(m0[*k] == *v);
                assert forall|jj: int|
                    0 <= jj < j + 1 && m0.contains_key(*seq[jj].0) && expired(
                        m0[*seq[jj].0]@.mod_time,
                        now as int,
                        timeout as int,
                    ) implies idle@.contains(*#[trigger] seq[jj].0) by {
                    if jj < j {
                        assert(before.contains(*seq[jj].0));
                        let w = choose|w: int| 0 <= w < before.len() && before[w] == *seq[jj].0;
                        assert(idle@[w] == before[w]);
                    } else {
                        assert(idle@[idle@.len() - 1] == *k);
                    }
                }
            }
        }
        proof {
            let seq = spec_hash_map_iter(&hm).remaining();
            assert forall|k: u128| #[trigger]
                m0.contains_key(k) && expired(
                    m0[k]@.mod_time,
                    now as int,
                    timeout as int,
                ) implies idle@.contains(k) by {
                assert(seq.contains((&k, &m0[k])));
                let j = choose|j: int| 0 <= j < seq.len() && seq[j] == (&k, &m0[k]);
                assert(*seq[j].0 == k);
            }
        }
        let n = idle.len();
        let mut i: usize = 0;
        while i < n
            invariant
                n == idle@.len(),
                i <= n,
                self.wf(),
                forall|k: u128|
                    #[trigger] self.sessions@.contains_key(k) <==> m0.contains_key(k)
                        && !idle@.subrange(0, i as int).contains(k),
                forall|k: u128| #[trigger]
                    self.sessions@.contains_key(k) ==> self.sessions@[k] == m0[k],
            decreases n - i,
        {
            let id = idle[i];
            self.sessions.remove(&id);
            i = i + 1;
            proof {
                assert forall|k: u128|
                    #[trigger] self.sessions@.contains_key(k) <==> m0.contains_key(k)
                        && !idle@.subrange(0, i as int).contains(k) by {
                    let pre = idle@.subrange(0, i - 1);
                    let cur = idle@.subrange(0, i as int);
                    assert(cur =~= pre.push(id));
                    if cur.contains(k) && k != id {
                        let j = choose|j: int| 0 <= j < cur.len() && cur[j] == k;
                        assert(pre[j] == k);
                    }
                    if pre.contains(k) {
                        let j = choose|j: int| 0 <= j < pre.len() && pre[j] == k;
                        assert(cur[j] == k);
                    }
                    if k == id {
                        assert(cur[i - 1] == k);
                    }
                }
            }
        }
        proof {
            assert(idle@.subrange(0, n as int) =~= idle@);
            let target = swept(old(self)@, now as int, timeout as int);
            assert forall|k: u128| self@.contains_key(k) <==> target.contains_key(k) by {
                if m0.contains_key(k) && idle@.contains(k) {
                    let j = choose|j: int| 0 <= j < idle@.len() && idle@[j] == k;
                    assert(m0.contains_key(idle@[j]));
                }
            }
            assert(self@ =~= target);
        }
    }
}

} // verus!
