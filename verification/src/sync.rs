//! Authoritative gameplay state shared between a host and its peers.
//!
//! The host applies each exploration request once and publishes numbered
//! snapshots; peers adopt only newer snapshots from the host. Positions of
//! requests only drive animations: the logic here is told whether they are
//! finite and never reads them.
use std::collections::BTreeMap;
use vstd::prelude::*;
use vstd::std_specs::btree::axiom_spec_values_iter;
use vstd::std_specs::iter::IteratorSpec;

use crate::board::{
    apply_reveals, counters_match, lemma_reveal_set, lemma_reveals_scored_once, reveal_set,
    spec_reveal_set, CellMetadataEntry,
};
use crate::score::ScoreState;

verus! {

/// Version of the synchronization protocol.
pub const PROTOCOL: u8 = 1;

/// A request to explore a cell.
#[derive(Clone, Copy, Debug, PartialEq, Eq, Structural)]
pub struct Request {
    /// Identifier, unique per requesting player.
    pub id: u64,
    /// Index of the cell to explore.
    pub index: usize,
}

/// The canonical board and score, numbered by revision.
#[derive(Clone, Debug)]
pub struct Snapshot {
    /// Number of applied moves that produced this state.
    pub revision: u64,
    /// Explored flag of every cell.
    pub explored: Vec<bool>,
    /// Canonical score.
    pub score: ScoreState,
}

/// A message between host and peers.
#[derive(Clone, Debug)]
pub enum Message {
    /// A peer asks the host to explore a cell.
    Request { version: u8, request: Request },
    /// A peer asks the host for its latest snapshot.
    Sync { version: u8 },
    /// The host publishes its state, acknowledging `receipt` (actor and
    /// request id) and naming the move that produced it.
    State {
        version: u8,
        snapshot: Snapshot,
        receipt: Option<(String, u64)>,
        movement: Option<Request>,
    },
}

/// Synchronization state of one player.
pub struct Session {
    /// The host's identity; `None` when playing alone.
    pub authority: Option<String>,
    /// This player's identity, once known.
    pub local_id: Option<String>,
    /// Gameplay is allowed (a host is always ready; a peer after its first snapshot).
    pub ready: bool,
    /// Synchronization has stopped.
    pub stopped: bool,
    /// Logical metadata of every cell.
    pub metadata: Vec<CellMetadataEntry>,
    /// Neighbor lists of every cell.
    pub neighbors: Vec<Vec<u32>>,
    /// Canonical score.
    pub score: ScoreState,
    /// Revision of the current state.
    pub revision: u64,
    /// Identifier of the last request issued by this player.
    pub next_request: u64,
    /// Requests sent to the host and not yet acknowledged, by id.
    pub pending: BTreeMap<u64, Request>,
    /// Requests the host has already handled, as (actor, id).
    pub processed: Vec<(String, u64)>,
}

/// Abstract state of a [`Session`].
pub struct SessionModel {
    pub authority: Option<Seq<char>>,
    pub local_id: Option<Seq<char>>,
    pub ready: bool,
    pub stopped: bool,
    pub metadata: Seq<CellMetadataEntry>,
    pub neighbors: Seq<Seq<u32>>,
    pub score: ScoreState,
    pub revision: u64,
    pub next_request: u64,
    pub pending: Map<u64, Request>,
    pub processed: Set<(Seq<char>, u64)>,
}

/// One call on a session, in the abstract: asking to explore a cell,
/// applying a request as host, or receiving a snapshot.
pub enum SessionEvent {
    Request { index: usize, finite: bool },
    Apply { actor: Seq<char>, request: Request, finite: bool },
    Accept {
        from: Seq<char>,
        revision: u64,
        explored: Seq<bool>,
        score: ScoreState,
        receipt: Option<(Seq<char>, u64)>,
    },
}

/// The text of an optional string.
pub open spec fn text_opt(o: Option<String>) -> Option<Seq<char>> {
    match o {
        Some(s) => Some(s@),
        None => None,
    }
}

/// The text form of an optional acknowledgement.
pub open spec fn receipt_text(r: Option<(String, u64)>) -> Option<(Seq<char>, u64)> {
    match r {
        Some((a, id)) => Some((a@, id)),
        None => None,
    }
}

/// The set of (actor, id) pairs listed in `v`.
pub open spec fn processed_set(v: Seq<(String, u64)>) -> Set<(Seq<char>, u64)> {
    Set::new(|k: (Seq<char>, u64)| exists|i: int| 0 <= i < v.len() && v[i].0@ == k.0 && v[i].1 == k.1)
}

impl View for Session {
    type V = SessionModel;

    open spec fn view(&self) -> SessionModel {
        SessionModel {
            authority: text_opt(self.authority),
            local_id: text_opt(self.local_id),
            ready: self.ready,
            stopped: self.stopped,
            metadata: self.metadata@,
            neighbors: self.neighbors.deep_view(),
            score: self.score,
            revision: self.revision,
            next_request: self.next_request,
            pending: self.pending@,
            processed: processed_set(self.processed@),
        }
    }
}

impl SessionModel {
    /// This player is the authority (or plays alone).
    pub open spec fn is_host(self) -> bool {
        self.authority is None || self.authority == self.local_id
    }

    /// A pending request targets `index`.
    pub open spec fn has_pending_index(self, index: usize) -> bool {
        exists|k: u64| self.pending.contains_key(k) && self.pending[k].index == index
    }

    /// A request for `index` is refused.
    pub open spec fn request_refused(self, index: usize, finite: bool) -> bool {
        ||| !self.ready
        ||| self.score.completed
        ||| index >= self.metadata.len()
        ||| self.metadata[index as int].is_explored
        ||| self.has_pending_index(index)
        ||| !finite
    }

    /// State and result of asking to explore `index`.
    pub open spec fn requested(self, index: usize, finite: bool) -> (SessionModel, Option<Request>) {
        if self.request_refused(index, finite) {
            (self, None)
        } else {
            let id = (self.next_request + 1) as u64;
            let request = Request { id, index };
            let pending = if self.is_host() {
                self.pending
            } else {
                self.pending.insert(id, request)
            };
            (SessionModel { next_request: id, pending, ..self }, Some(request))
        }
    }

    /// A request reaches the scoring step of `applied` (it is new to the host
    /// and targets an unexplored cell of an unfinished game).
    pub open spec fn apply_reveals_cells(self, actor: Seq<char>, request: Request, finite: bool) -> bool {
        &&& self.is_host()
        &&& request.index < self.metadata.len()
        &&& finite
        &&& !self.processed.contains((actor, request.id))
        &&& !self.score.completed
        &&& !self.metadata[request.index as int].is_explored
    }

    /// State and result of the host applying `request` from `actor`.
    pub open spec fn applied(self, actor: Seq<char>, request: Request, finite: bool) -> (SessionModel, bool) {
        if !self.is_host() || request.index >= self.metadata.len() || !finite {
            (self, false)
        } else if self.processed.contains((actor, request.id)) {
            (self, false)
        } else {
            let marked = SessionModel { processed: self.processed.insert((actor, request.id)), ..self };
            if self.score.completed || self.metadata[request.index as int].is_explored {
                (marked, false)
            } else {
                let revealed = spec_reveal_set(
                    self.metadata,
                    self.neighbors,
                    self.metadata.len() as usize,
                    request.index,
                );
                let (metadata, score) = apply_reveals(self.metadata, self.score, revealed);
                (
                    SessionModel { metadata, score, revision: (self.revision + 1) as u64, ..marked },
                    true,
                )
            }
        }
    }

    /// The snapshot passes the checks on its sender and shape.
    pub open spec fn snapshot_admissible(
        self,
        from: Seq<char>,
        explored: Seq<bool>,
        score: ScoreState,
    ) -> bool {
        &&& !self.is_host()
        &&& self.authority == Some(from)
        &&& explored.len() == self.metadata.len()
        &&& score.total_cells as int == self.metadata.len()
        &&& score.void_total == self.score.void_total
    }

    /// State and result of receiving a snapshot from `from`.
    pub open spec fn accepted(
        self,
        from: Seq<char>,
        revision: u64,
        explored: Seq<bool>,
        score: ScoreState,
        receipt: Option<(Seq<char>, u64)>,
    ) -> (SessionModel, bool) {
        if !self.snapshot_admissible(from, explored, score) {
            (self, false)
        } else {
            let acked = match receipt {
                Some((actor, id)) => if self.local_id == Some(actor) {
                    SessionModel { pending: self.pending.remove(id), ..self }
                } else {
                    self
                },
                None => self,
            };
            if self.ready && revision <= self.revision {
                (acked, false)
            } else {
                (
                    SessionModel {
                        metadata: Seq::new(
                            self.metadata.len(),
                            |j: int| CellMetadataEntry { is_explored: explored[j], ..self.metadata[j] },
                        ),
                        score,
                        revision,
                        ready: true,
                        ..acked
                    },
                    true,
                )
            }
        }
    }

    /// State after one event.
    pub open spec fn after_event(self, e: SessionEvent) -> SessionModel {
        match e {
            SessionEvent::Request { index, finite } => self.requested(index, finite).0,
            SessionEvent::Apply { actor, request, finite } => self.applied(actor, request, finite).0,
            SessionEvent::Accept { from, revision, explored, score, receipt } => self.accepted(
                from,
                revision,
                explored,
                score,
                receipt,
            ).0,
        }
    }

    /// State after the events, in order.
    pub open spec fn after_events(self, events: Seq<SessionEvent>) -> SessionModel
        decreases events.len(),
    {
        if events.len() == 0 {
            self
        } else {
            self.after_events(events.drop_last()).after_event(events.last())
        }
    }

    /// Explored flag of every cell.
    pub open spec fn explored_flags(self) -> Seq<bool> {
        Seq::new(self.metadata.len(), |j: int| self.metadata[j].is_explored)
    }
}

/// Equality of two optional strings.
fn same_text_opt(a: &Option<String>, b: &Option<String>) -> (r: bool)
    ensures
        r == (text_opt(*a) == text_opt(*b)),
{
    match (a, b) {
        (None, None) => true,
        (Some(x), Some(y)) => *x == *y,
        _ => false,
    }
}

/// `o` holds exactly `text`.
fn holds_text(o: &Option<String>, text: &String) -> (r: bool)
    ensures
        r == (text_opt(*o) == Some(text@)),
{
    match o {
        Some(x) => *x == *text,
        None => false,
    }
}

/// An invitation can be joined: it names this protocol version, a host and
/// the opening cell.
pub fn invitation_compatible(
    sync_version: Option<u8>,
    authority: &Option<String>,
    first_safe_cell: Option<usize>,
) -> (ok: bool)
    ensures
        ok == (sync_version == Some(PROTOCOL) && authority is Some && first_safe_cell is Some),
{
    match (sync_version, authority, first_safe_cell) {
        (Some(v), Some(_), Some(_)) => v == PROTOCOL,
        _ => false,
    }
}

impl Session {
    /// A session under `authority` (`None` to play alone). Only a session
    /// without authority is ready before its first snapshot.
    pub fn new(authority: Option<String>) -> (s: Session)
        ensures
            s@ == (SessionModel {
                authority: text_opt(authority),
                local_id: None,
                ready: authority is None,
                stopped: false,
                metadata: Seq::empty(),
                neighbors: Seq::empty(),
                score: ScoreState::zero(),
                revision: 0,
                next_request: 0,
                pending: Map::empty(),
                processed: Set::empty(),
            }),
    {
        let ready = authority.is_none();
        let s = Session {
            ready,
            authority,
            local_id: None,
            stopped: false,
            metadata: Vec::new(),
            neighbors: Vec::new(),
            score: ScoreState::default(),
            revision: 0,
            next_request: 0,
            pending: BTreeMap::new(),
            processed: Vec::new(),
        };
        assert(s@.processed =~= Set::empty());
        assert(s.neighbors.deep_view() =~= Seq::empty());
        s
    }

    /// This player is the authority (or plays alone).
    pub fn is_host(&self) -> (h: bool)
        ensures
            h == self@.is_host(),
    {
        self.authority.is_none() || same_text_opt(&self.authority, &self.local_id)
    }

    /// Install a new board: the score is reset for it and no request is
    /// pending or remembered.
    pub fn set_board(
        &mut self,
        neighbors: Vec<Vec<u32>>,
        metadata: Vec<CellMetadataEntry>,
        void_total: u32,
    )
        ensures
            final(self)@ == (SessionModel {
                metadata: metadata@,
                neighbors: neighbors.deep_view(),
                score: ScoreState::for_map(metadata@.len() as u32, void_total),
                revision: 0,
                pending: Map::empty(),
                processed: Set::empty(),
                ..old(self)@
            }),
    {
        self.score.reset_for_map(metadata.len() as u32, void_total);
        self.neighbors = neighbors;
        self.metadata = metadata;
        self.revision = 0;
        self.pending.clear();
        self.processed = Vec::new();
        assert(self@.processed =~= Set::empty());
    }

    fn has_pending_index(&self, index: usize) -> (found: bool)
        ensures
            found == self@.has_pending_index(index),
    {
        let values = self.pending.values();
        let ghost vs = values.remaining();
        proof {
            axiom_spec_values_iter(&self.pending);
        }
        assert(vs.unref().to_set() == self.pending@.values());
        for r in it: values
            invariant
                it.seq() == vs,
                vs.unref().to_set() == self.pending@.values(),
                forall|k: int| 0 <= k < it.index() ==> vs[k].index != index,
        {
            if r.index == index {
                proof {
                    assert(r == vs[it.index()]);
                    let v = *r;
                    assert(vs.unref()[it.index()] == v);
                    assert(vs.unref().to_set().contains(v));
                    assert(self.pending@.values().contains(v));
                    let key = choose|key: u64| self.pending@.contains_key(key) && self.pending@[key] == v;
                    assert(self@.pending.contains_key(key) && self@.pending[key].index == index);
                }
                return true;
            }
        }
        assert forall|key: u64| self.pending@.contains_key(key) implies self.pending@[key].index != index by {
            let v = self.pending@[key];
            assert(self.pending@.values().contains(v));
            assert(vs.unref().to_set().contains(v));
            let k = choose|k: int| 0 <= k < vs.unref().len() && vs.unref()[k] == v;
            assert(vs[k].index != index);
        }
        false
    }

    /// Ask to explore `index`; `position_finite` tells whether the click
    /// position is finite. Refused (`None`) while not ready, after
    /// completion, for an invalid or explored cell, for a cell already
    /// pending, or for a non-finite position. A peer remembers the request
    /// as pending until the host acknowledges it.
    pub fn request(&mut self, index: usize, position_finite: bool) -> (r: Option<Request>)
        requires
            !old(self)@.request_refused(index, position_finite) ==> old(self).next_request < u64::MAX,
        ensures
            (final(self)@, r) == old(self)@.requested(index, position_finite),
    {
        if !self.ready || self.score.completed || index >= self.metadata.len()
            || self.metadata[index].is_explored || self.has_pending_index(index) || !position_finite {
            return None;
        }
        self.next_request = self.next_request + 1;
        let request = Request { id: self.next_request, index };
        if !self.is_host() {
            self.pending.insert(request.id, request);
        }
        Some(request)
    }

    fn was_processed(&self, actor: &String, id: u64) -> (found: bool)
        ensures
            found == self@.processed.contains((actor@, id)),
    {
        let mut i: usize = 0;
        while i < self.processed.len()
            invariant
                i <= self.processed.len(),
                forall|j: int| 0 <= j < i ==> !(self.processed@[j].0@ == actor@ && self.processed@[j].1 == id),
            decreases self.processed.len() - i,
        {
            if self.processed[i].1 == id && self.processed[i].0 == *actor {
                return true;
            }
            i = i + 1;
        }
        false
    }

    /// Host: apply `request` from `actor` once. Refused when not the host,
    /// for an invalid cell or a non-finite position, and for an (actor, id)
    /// pair already handled. A new pair is remembered; it changes nothing
    /// more once the game is complete or the cell explored. Otherwise the
    /// flood reveal from the cell is explored and scored and the revision
    /// advances.
    pub fn apply(&mut self, actor: &str, request: &Request, position_finite: bool) -> (changed: bool)
        requires
            old(self)@.apply_reveals_cells(actor@, *request, position_finite) ==> old(self).revision
                < u64::MAX && old(self).neighbors.len() >= old(self).metadata.len(),
        ensures
            (final(self)@, changed) == old(self)@.applied(actor@, *request, position_finite),
    {
        if !self.is_host() || request.index >= self.metadata.len() || !position_finite {
            return false;
        }
        let actor_text = actor.to_owned();
        if self.was_processed(&actor_text, request.id) {
            return false;
        }
        let ghost before = self.processed@;
        self.processed.push((actor_text, request.id));
        assert(self@.processed =~= processed_set(before).insert((actor@, request.id))) by {
            assert forall|k: (Seq<char>, u64)| #[trigger] self@.processed.contains(k) implies processed_set(
                before,
            ).insert((actor@, request.id)).contains(k) by {
                let i = choose|i: int| 0 <= i < self.processed@.len() && self.processed@[i].0@ == k.0
                    && self.processed@[i].1 == k.1;
                if i < before.len() {
                    assert(self.processed@[i] == before[i]);
                }
            }
            assert forall|k: (Seq<char>, u64)| processed_set(before).insert((actor@, request.id)).contains(
                k,
            ) implies #[trigger] self@.processed.contains(k) by {
                if k != (actor@, request.id) {
                    let i = choose|i: int| 0 <= i < before.len() && before[i].0@ == k.0 && before[i].1 == k.1;
                    assert(self.processed@[i] == before[i]);
                } else {
                    assert(self.processed@[before.len() as int].0@ == k.0);
                }
            }
        }
        if self.score.completed || self.metadata[request.index].is_explored {
            return false;
        }
        assert(old(self)@.apply_reveals_cells(actor@, *request, position_finite));
        let len = self.metadata.len();
        let revealed = reveal_set(len, request.index, &self.metadata, &self.neighbors);
        proof {
            lemma_reveal_set(self.metadata@, self.neighbors.deep_view(), len, request.index);
        }
        let ghost meta0 = self.metadata@;
        let ghost score0 = self.score;
        let ghost mid = self@;
        let mut k: usize = 0;
        while k < revealed.len()
            invariant
                k <= revealed.len(),
                forall|q: int| 0 <= q < revealed.len() ==> revealed@[q] < len,
                self.metadata.len() == len,
                (self.metadata@, self.score) == apply_reveals(meta0, score0, revealed@.take(k as int)),
                self@ == (SessionModel { metadata: self.metadata@, score: self.score, ..mid }),
            decreases revealed.len() - k,
        {
            let index = revealed[k];
            assert(revealed@.take(k as int + 1).drop_last() == revealed@.take(k as int));
            let mut entry = self.metadata[index];
            entry.is_explored = true;
            self.metadata.set(index, entry);
            self.score.explore(entry.is_void);
            k = k + 1;
        }
        assert(revealed@.take(revealed.len() as int) == revealed@);
        self.revision = self.revision + 1;
        true
    }

    /// Peer: receive `snapshot` from `from`. Refused when this player is the
    /// host, the sender is not the authority, or the snapshot does not fit
    /// the board. A receipt for this player's own request clears it from
    /// the pending requests; the snapshot is then adopted unless the player
    /// is ready and the snapshot is not newer.
    pub fn accept(&mut self, from: &str, snapshot: &Snapshot, receipt: &Option<(String, u64)>) -> (ok: bool)
        ensures
            (final(self)@, ok) == old(self)@.accepted(
                from@,
                snapshot.revision,
                snapshot.explored@,
                snapshot.score,
                receipt_text(*receipt),
            ),
    {
        if self.is_host() {
            return false;
        }
        let from_text = from.to_owned();
        if !holds_text(&self.authority, &from_text) || snapshot.explored.len() != self.metadata.len()
            || snapshot.score.total_cells as usize != self.metadata.len()
            || snapshot.score.void_total != self.score.void_total {
            return false;
        }
        match receipt {
            Some((actor, id)) => {
                if holds_text(&self.local_id, actor) {
                    self.pending.remove(id);
                }
            },
            None => {},
        }
        if self.ready && snapshot.revision <= self.revision {
            return false;
        }
        let ghost meta0 = self.metadata@;
        let ghost mid = self@;
        let mut j: usize = 0;
        while j < self.metadata.len()
            invariant
                j <= self.metadata.len(),
                self.metadata.len() == meta0.len(),
                snapshot.explored.len() == meta0.len(),
                forall|q: int| 0 <= q < j ==> self.metadata@[q] == (CellMetadataEntry {
                    is_explored: snapshot.explored@[q],
                    ..meta0[q]
                }),
                forall|q: int| j <= q < meta0.len() ==> self.metadata@[q] == meta0[q],
                self@ == (SessionModel { metadata: self.metadata@, ..mid }),
            decreases self.metadata.len() - j,
        {
            let mut entry = self.metadata[j];
            entry.is_explored = snapshot.explored[j];
            self.metadata.set(j, entry);
            j = j + 1;
        }
        self.score = snapshot.score;
        self.revision = snapshot.revision;
        self.ready = true;
        assert(self.metadata@ =~= Seq::new(
            meta0.len(),
            |q: int| CellMetadataEntry { is_explored: snapshot.explored@[q], ..meta0[q] },
        ));
        true
    }

    /// The current canonical state.
    pub fn snapshot(&self) -> (snap: Snapshot)
        ensures
            snap.revision == self.revision,
            snap.explored@ == self@.explored_flags(),
            snap.score == self.score,
    {
        let mut explored: Vec<bool> = Vec::new();
        let mut j: usize = 0;
        while j < self.metadata.len()
            invariant
                j <= self.metadata.len(),
                explored@ == self@.explored_flags().take(j as int),
            decreases self.metadata.len() - j,
        {
            explored.push(self.metadata[j].is_explored);
            j = j + 1;
        }
        assert(explored@ =~= self@.explored_flags());
        Snapshot { revision: self.revision, explored, score: self.score }
    }
}

/// The host applies each request once: handling the same (actor, request)
/// a second time is refused and changes nothing.
pub proof fn request_applied_once(m: SessionModel, actor: Seq<char>, request: Request, finite: bool)
    ensures
        ({
            let (after, _) = m.applied(actor, request, finite);
            let (again, changed) = after.applied(actor, request, finite);
            !changed && again == after
        }),
{
}

proof fn lemma_processed_kept(m: SessionModel, events: Seq<SessionEvent>, pair: (Seq<char>, u64))
    requires
        m.processed.contains(pair),
    ensures
        m.after_events(events).processed.contains(pair),
    decreases events.len(),
{
    if events.len() > 0 {
        lemma_processed_kept(m, events.drop_last(), pair);
    }
}

/// The host applies each (actor, request id) at most once: once it has
/// handled a request from `actor`, that pair stays refused through any later
/// requests, applications and snapshots (until a new board is installed). A
/// retry with the same id, whatever its cell or position, is refused and
/// changes nothing.
pub proof fn processed_requests_stay_refused(
    m: SessionModel,
    actor: Seq<char>,
    request: Request,
    finite: bool,
    events: Seq<SessionEvent>,
    retry: Request,
    retry_finite: bool,
)
    requires
        m.is_host(),
        request.index < m.metadata.len(),
        finite,
        retry.id == request.id,
    ensures
        ({
            let later = m.applied(actor, request, finite).0.after_events(events);
            later.applied(actor, retry, retry_finite) == (later, false)
        }),
{
    let first = m.applied(actor, request, finite).0;
    assert(first.processed.contains((actor, request.id)));
    lemma_processed_kept(first, events, (actor, request.id));
}

/// Every explore is scored once: when the host's score counters agree with
/// its board, they still agree after it applies any request.
pub proof fn applied_requests_scored_once(
    m: SessionModel,
    actor: Seq<char>,
    request: Request,
    finite: bool,
)
    requires
        counters_match(m.metadata, m.score),
        m.metadata.len() <= u32::MAX,
        m.neighbors.len() >= m.metadata.len(),
    ensures
        ({
            let (after, _) = m.applied(actor, request, finite);
            counters_match(after.metadata, after.score)
        }),
{
    if m.apply_reveals_cells(actor, request, finite) {
        let len = m.metadata.len() as usize;
        lemma_reveal_set(m.metadata, m.neighbors, len, request.index);
        lemma_reveals_scored_once(
            m.metadata,
            m.score,
            spec_reveal_set(m.metadata, m.neighbors, len, request.index),
        );
    }
}

/// Peers ignore older snapshots: once ready, a snapshot that is not newer
/// is refused and leaves board, score, revision and readiness unchanged.
pub proof fn stale_snapshots_ignored(
    m: SessionModel,
    from: Seq<char>,
    revision: u64,
    explored: Seq<bool>,
    score: ScoreState,
    receipt: Option<(Seq<char>, u64)>,
)
    requires
        m.ready,
        revision <= m.revision,
    ensures
        ({
            let (after, ok) = m.accepted(from, revision, explored, score, receipt);
            &&& !ok
            &&& after.metadata == m.metadata
            &&& after.score == m.score
            &&& after.revision == m.revision
            &&& after.ready == m.ready
        }),
{
}

/// A peer that accepts a snapshot holds exactly that snapshot afterwards:
/// its explored flags, score and revision are the snapshot's, and it is ready.
pub proof fn accepted_snapshot_adopted(
    m: SessionModel,
    from: Seq<char>,
    revision: u64,
    explored: Seq<bool>,
    score: ScoreState,
    receipt: Option<(Seq<char>, u64)>,
)
    ensures
        ({
            let (after, ok) = m.accepted(from, revision, explored, score, receipt);
            ok ==> {
                &&& after.explored_flags() == explored
                &&& after.score == score
                &&& after.revision == revision
                &&& after.ready
            }
        }),
{
    let (after, ok) = m.accepted(from, revision, explored, score, receipt);
    if ok {
        assert(after.explored_flags() =~= explored);
    }
}

/// A late joiner converges: a peer that accepts the host's current
/// snapshot publishes the same snapshot as the host.
pub proof fn late_join_converges(
    host: SessionModel,
    peer: SessionModel,
    receipt: Option<(Seq<char>, u64)>,
)
    requires
        peer.authority is Some,
    ensures
        ({
            let (after, ok) = peer.accepted(
                peer.authority->0,
                host.revision,
                host.explored_flags(),
                host.score,
                receipt,
            );
            ok ==> after.explored_flags() == host.explored_flags() && after.score == host.score
                && after.revision == host.revision
        }),
{
    accepted_snapshot_adopted(
        peer,
        peer.authority->0,
        host.revision,
        host.explored_flags(),
        host.score,
        receipt,
    );
}

/// Revisions never go back: applying a request or receiving a snapshot
/// once ready never lowers the revision.
pub proof fn revisions_never_decrease(
    m: SessionModel,
    actor: Seq<char>,
    request: Request,
    finite: bool,
    from: Seq<char>,
    revision: u64,
    explored: Seq<bool>,
    score: ScoreState,
    receipt: Option<(Seq<char>, u64)>,
)
    requires
        m.ready,
        m.apply_reveals_cells(actor, request, finite) ==> m.revision < u64::MAX,
    ensures
        m.applied(actor, request, finite).0.revision >= m.revision,
        m.accepted(from, revision, explored, score, receipt).0.revision >= m.revision,
{
}

/// A receipt for one of this player's requests, in any snapshot from the
/// authority that fits the board, clears that request from the pending set.
pub proof fn receipt_clears_pending(
    m: SessionModel,
    from: Seq<char>,
    revision: u64,
    explored: Seq<bool>,
    score: ScoreState,
    id: u64,
)
    requires
        m.snapshot_admissible(from, explored, score),
        m.local_id is Some,
    ensures
        !m.accepted(from, revision, explored, score, Some((m.local_id->0, id))).0.pending.contains_key(id),
{
}

/// Gameplay waits for the host's state: a player that is not ready issues
/// no request, and a peer keeps each request it issues pending until the
/// host acknowledges it.
pub proof fn requests_wait_for_state(m: SessionModel, index: usize, finite: bool)
    ensures
        !m.ready ==> m.requested(index, finite).1 is None,
        ({
            let (after, r) = m.requested(index, finite);
            (r is Some && !m.is_host()) ==> after.pending.contains_key(r->0.id)
                && after.pending[r->0.id] == r->0 && r->0.index == index
        }),
{
}


/// Every request a session issues gets the id after the last one it issued:
/// a granted request carries `next_request + 1`, for the cell asked for, and
/// becomes the new `next_request`; a refused one changes nothing.
pub proof fn request_ids_increase(m: SessionModel, index: usize, finite: bool)
    requires
        !m.request_refused(index, finite) ==> m.next_request < u64::MAX,
    ensures
        ({
            let (after, r) = m.requested(index, finite);
            match r {
                Some(request) => {
                    &&& request.id == m.next_request + 1
                    &&& request.index == index
                    &&& after.next_request == request.id
                },
                None => after == m,
            }
        }),
{
}

/// Two requests granted one after the other get increasing, hence
/// distinct, ids.
pub proof fn successive_request_ids_differ(
    m: SessionModel,
    index: usize,
    finite: bool,
    second_index: usize,
    second_finite: bool,
)
    requires
        m.next_request + 1 < u64::MAX,
    ensures
        ({
            let (after, first) = m.requested(index, finite);
            let (_, second) = after.requested(second_index, second_finite);
            (first is Some && second is Some) ==> second->0.id > first->0.id
        }),
{
    request_ids_increase(m, index, finite);
    let after = m.requested(index, finite).0;
    request_ids_increase(after, second_index, second_finite);
}

/// Once ready, a player stays ready: issuing a request, applying one and
/// receiving a snapshot (accepted or not) all keep it ready.
pub proof fn readiness_is_kept(
    m: SessionModel,
    index: usize,
    actor: Seq<char>,
    request: Request,
    finite: bool,
    from: Seq<char>,
    revision: u64,
    explored: Seq<bool>,
    score: ScoreState,
    receipt: Option<(Seq<char>, u64)>,
)
    requires
        m.ready,
    ensures
        m.requested(index, finite).0.ready,
        m.applied(actor, request, finite).0.ready,
        m.accepted(from, revision, explored, score, receipt).0.ready,
{
}

} // verus!
