//! Decisions of the synchronization bridge: what to send on each tick,
//! what a local click does, how received messages are handled, and how the
//! displayed board follows the canonical one. Sending, animating and timing
//! are left to the caller.
use vstd::prelude::*;
use vstd::std_specs::btree::axiom_spec_values_iter;
use vstd::std_specs::cmp::OrdSpec;
use vstd::std_specs::iter::IteratorSpec;
use vstd::string::StringExecFns;

use crate::board::CellMetadataEntry;
use crate::sync::{receipt_text, text_opt, Message, Request, Session, SessionModel, Snapshot, PROTOCOL};

verus! {

/// Whether a move was made on this device or by another player.
#[derive(Clone, Copy, Debug, PartialEq, Eq, Structural)]
pub enum MutationOrigin {
    Local,
    Peer,
}

/// A state message carrying the session's current snapshot.
pub fn state_message(
    session: &Session,
    receipt: Option<(String, u64)>,
    movement: Option<Request>,
) -> (m: Message)
    ensures
        m matches Message::State { version, snapshot, receipt: r, movement: mv } && version == PROTOCOL
            && snapshot.revision == session.revision && snapshot.explored@ == session@.explored_flags()
            && snapshot.score == session.score && r == receipt && mv == movement,
{
    Message::State { version: PROTOCOL, snapshot: session.snapshot(), receipt, movement }
}

/// Keys that a map lists in increasing order are strictly increasing.
proof fn lemma_increasing_keys(keys: Seq<u64>)
    requires
        vstd::std_specs::btree::increasing_seq(keys),
    ensures
        forall|a: int, b: int| 0 <= a < b < keys.len() ==> keys[a] < keys[b],
{
    broadcast use vstd::std_specs::btree::group_btree_axioms, vstd::laws_cmp::group_laws_cmp;

    assert forall|a: int, b: int| 0 <= a < b < keys.len() implies keys[a] < keys[b] by {
        assert(keys[a].cmp_spec(&keys[b]) is Less);
    }
}

/// Messages to send on a periodic tick: nothing once stopped; the host
/// publishes its state; a peer asks for the state and re-sends every
/// pending request.
pub fn tick(session: &Session) -> (out: Vec<Message>)
    ensures
        session.stopped ==> out@.len() == 0,
        !session.stopped && session@.is_host() ==> out@.len() == 1 && (out@[0] matches Message::State {
            version,
            snapshot,
            receipt,
            movement,
        } && version == PROTOCOL && snapshot.revision == session.revision && snapshot.explored@
            == session@.explored_flags() && snapshot.score == session.score && receipt is None
            && movement is None),
        !session.stopped && !session@.is_host() ==> {
            &&& out@.len() == 1 + session.pending@.dom().len()
            &&& out@[0] matches Message::Sync { version } && version == PROTOCOL
            &&& forall|i: int|
                1 <= i < out@.len() ==> (#[trigger] out@[i] matches Message::Request { version, request }
                    && version == PROTOCOL && session.pending@.values().contains(request))
            &&& forall|r: Request|
                session.pending@.values().contains(r) ==> exists|i: int|
                    1 <= i < out@.len() && #[trigger] out@[i] == (Message::Request {
                        version: PROTOCOL,
                        request: r,
                    })
            &&& exists|keys: Seq<u64>|
                {
                    &&& keys.len() == out@.len() - 1
                    &&& keys.to_set() == session.pending@.dom()
                    &&& forall|a: int, b: int| 0 <= a < b < keys.len() ==> keys[a] < keys[b]
                    &&& forall|i: int|
                        0 <= i < keys.len() ==> #[trigger] out@[i + 1] == (Message::Request {
                            version: PROTOCOL,
                            request: session.pending@[keys[i]],
                        })
                }
        },
{
    let mut out: Vec<Message> = Vec::new();
    if session.stopped {
        return out;
    }
    if session.is_host() {
        out.push(state_message(session, None, None));
        return out;
    }
    out.push(Message::Sync { version: PROTOCOL });
    proof {
        broadcast use vstd::std_specs::btree::group_btree_axioms, vstd::laws_cmp::group_laws_cmp;

        assert(vstd::std_specs::btree::key_obeys_cmp_spec::<u64>());
    }
    let values = session.pending.values();
    let ghost vs = values.remaining();
    let ghost key_seq = choose|key_seq: Seq<u64>|
        {
            &&& vstd::std_specs::btree::increasing_seq(key_seq)
            &&& key_seq.to_set() == session.pending@.dom()
            &&& key_seq.no_duplicates()
            &&& vs == key_seq.map(|i: int, k| &session.pending@[k])
        };
    proof {
        axiom_spec_values_iter(&session.pending);
    }
    for r in it: values
        invariant
            it.seq() == vs,
            vs.unref().to_set() == session.pending@.values(),
            vs.len() == session.pending@.dom().len(),
            out@.len() == 1 + it.index(),
            out@[0] == (Message::Sync { version: PROTOCOL }),
            forall|i: int|
                1 <= i < out@.len() ==> #[trigger] out@[i] == (Message::Request {
                    version: PROTOCOL,
                    request: *vs[i - 1],
                }),
    {
        out.push(Message::Request { version: PROTOCOL, request: *r });
    }
    proof {
        assert forall|i: int| 1 <= i < out@.len() implies (#[trigger] out@[i] matches Message::Request {
            version,
            request,
        } && version == PROTOCOL && session.pending@.values().contains(request)) by {
            assert(vs.unref()[i - 1] == *vs[i - 1]);
            assert(vs.unref().to_set().contains(*vs[i - 1]));
        }
        assert forall|r: Request| session.pending@.values().contains(r) implies exists|i: int|
            1 <= i < out@.len() && #[trigger] out@[i] == (Message::Request { version: PROTOCOL, request: r }) by {
            assert(vs.unref().to_set().contains(r));
            let k = choose|k: int| 0 <= k < vs.unref().len() && vs.unref()[k] == r;
            assert(out@[k + 1] == (Message::Request { version: PROTOCOL, request: *vs[k] }));
        }
        broadcast use vstd::std_specs::btree::group_btree_axioms, vstd::laws_cmp::group_laws_cmp;

        assert(vstd::std_specs::btree::increasing_seq(key_seq));
        lemma_increasing_keys(key_seq);
        assert forall|i: int| 0 <= i < key_seq.len() implies #[trigger] out@[i + 1] == (Message::Request {
            version: PROTOCOL,
            request: session.pending@[key_seq[i]],
        }) by {
            assert(*vs[i] == session.pending@[key_seq[i]]);
        }
    }
    out
}

/// What a click on this device leads to.
#[derive(Clone, Copy, Debug, PartialEq, Eq, Structural)]
pub enum LocalAction {
    /// The click was refused.
    Ignored,
    /// The host applied its own request: present it and publish the state.
    HostApplied { request: Request },
    /// A peer issued a request: send it to the host.
    SendRequest { request: Request },
}

/// The actor name under which a host applies its own moves.
pub open spec fn local_actor(local_id: Option<Seq<char>>) -> Seq<char> {
    match local_id {
        Some(a) => a,
        None => "offline"@,
    }
}

/// State and action of a click on cell `index`.
pub open spec fn spec_local_move(m: SessionModel, index: usize, finite: bool) -> (SessionModel, LocalAction) {
    let (requested, r) = m.requested(index, finite);
    match r {
        None => (requested, LocalAction::Ignored),
        Some(request) => if requested.is_host() {
            (
                requested.applied(local_actor(requested.local_id), request, true).0,
                LocalAction::HostApplied { request },
            )
        } else {
            (requested, LocalAction::SendRequest { request })
        },
    }
}

/// Handle a click on cell `index` (`position_finite`: the click position is
/// finite): issue a request and, on the host, apply it at once.
pub fn local(session: &mut Session, index: usize, position_finite: bool) -> (action: LocalAction)
    requires
        !old(session)@.request_refused(index, position_finite) ==> old(session).next_request
            < u64::MAX,
        ({
            let (requested, r) = old(session)@.requested(index, position_finite);
            (r is Some && requested.is_host() && requested.apply_reveals_cells(
                local_actor(requested.local_id),
                r->0,
                true,
            )) ==> requested.revision < u64::MAX && requested.neighbors.len()
                >= requested.metadata.len()
        }),
    ensures
        (final(session)@, action) == spec_local_move(old(session)@, index, position_finite),
{
    assert(session.neighbors.deep_view().len() == session.neighbors.len());
    let r = session.request(index, position_finite);
    assert(session.neighbors.deep_view().len() == session.neighbors.len());
    match r {
        None => LocalAction::Ignored,
        Some(request) => {
            if session.is_host() {
                let actor: String = match &session.local_id {
                    Some(a) => a.clone(),
                    None => String::from_str("offline"),
                };
                session.apply(actor.as_str(), &request, true);
                LocalAction::HostApplied { request }
            } else {
                LocalAction::SendRequest { request }
            }
        },
    }
}

/// What a received message leads to.
#[derive(Clone, Debug)]
pub enum ReceiveAction {
    /// Nothing to do.
    Ignore,
    /// Send `message` back; `applied` is the request the host just applied
    /// (to present as another player's move).
    Reply { message: Message, applied: Option<Request> },
    /// A newer state was adopted: present it, animating `movement` if any.
    Present { movement: Option<Request>, origin: MutationOrigin },
}

/// The receipt names this player.
pub open spec fn receipt_is_local(m: SessionModel, receipt: Option<(Seq<char>, u64)>) -> bool {
    match receipt {
        Some((actor, _)) => m.local_id == Some(actor),
        None => false,
    }
}

fn receipt_names(local_id: &Option<String>, receipt: &Option<(String, u64)>) -> (r: bool)
    ensures
        r == match receipt_text(*receipt) {
            Some((actor, _)) => text_opt(*local_id) == Some(actor),
            None => false,
        },
{
    match receipt {
        Some((actor, _)) => match local_id {
            Some(l) => *l == *actor,
            None => false,
        },
        None => false,
    }
}

/// Handle a message from `from` (`position_finite`: a carried request's
/// position is finite). The host applies requests and answers them (also
/// duplicates) and answers state requests with its state; any player adopts
/// newer state from the authority. Messages of another protocol version,
/// and requests or state requests reaching a peer, are ignored.
pub fn receive(session: &mut Session, from: &str, message: &Message, position_finite: bool) -> (action:
    ReceiveAction)
    requires
        *message matches Message::Request { request, .. } ==> (old(session)@.apply_reveals_cells(
            from@,
            request,
            position_finite,
        ) ==> old(session).revision < u64::MAX && old(session).neighbors.len()
            >= old(session).metadata.len()),
    ensures
        match *message {
            Message::Request { version, request } => if version == PROTOCOL && old(session)@.is_host() {
                let (after, changed) = old(session)@.applied(from@, request, position_finite);
                &&& final(session)@ == after
                &&& action matches ReceiveAction::Reply {
                    message: Message::State { version: v, snapshot, receipt, movement },
                    applied,
                }
                &&& v == PROTOCOL
                &&& snapshot.revision == after.revision
                &&& snapshot.explored@ == after.explored_flags()
                &&& snapshot.score == after.score
                &&& receipt_text(receipt) == Some((from@, request.id))
                &&& movement == (if changed { Some(request) } else { None })
                &&& applied == movement
            } else {
                final(session)@ == old(session)@ && action is Ignore
            },
            Message::Sync { version } => if version == PROTOCOL && old(session)@.is_host() {
                &&& final(session)@ == old(session)@
                &&& action matches ReceiveAction::Reply {
                    message: Message::State { version: v, snapshot, receipt, movement },
                    applied,
                }
                &&& v == PROTOCOL
                &&& snapshot.revision == old(session).revision
                &&& snapshot.explored@ == old(session)@.explored_flags()
                &&& snapshot.score == old(session).score
                &&& receipt is None && movement is None && applied is None
            } else {
                final(session)@ == old(session)@ && action is Ignore
            },
            Message::State { version, snapshot, receipt, movement } => if version == PROTOCOL {
                let (after, ok) = old(session)@.accepted(
                    from@,
                    snapshot.revision,
                    snapshot.explored@,
                    snapshot.score,
                    receipt_text(receipt),
                );
                &&& final(session)@ == after
                &&& ok ==> action == ReceiveAction::Present {
                    movement: if old(session).ready { movement } else { None },
                    origin: if receipt_is_local(old(session)@, receipt_text(receipt)) {
                        MutationOrigin::Local
                    } else {
                        MutationOrigin::Peer
                    },
                }
                &&& !ok ==> action is Ignore
            } else {
                final(session)@ == old(session)@ && action is Ignore
            },
        },
{
    match message {
        Message::Request { version, request } => {
            if *version == PROTOCOL && session.is_host() {
                let changed = session.apply(from, request, position_finite);
                let movement = if changed { Some(*request) } else { None };
                let reply = state_message(session, Some((from.to_owned(), request.id)), movement);
                ReceiveAction::Reply { message: reply, applied: movement }
            } else {
                ReceiveAction::Ignore
            }
        },
        Message::Sync { version } => {
            if *version == PROTOCOL && session.is_host() {
                ReceiveAction::Reply { message: state_message(session, None, None), applied: None }
            } else {
                ReceiveAction::Ignore
            }
        },
        Message::State { version, snapshot, receipt, movement } => {
            if *version == PROTOCOL {
                let was_ready = session.ready;
                let local = receipt_names(&session.local_id, receipt);
                if session.accept(from, snapshot, receipt) {
                    ReceiveAction::Present {
                        movement: if was_ready { *movement } else { None },
                        origin: if local { MutationOrigin::Local } else { MutationOrigin::Peer },
                    }
                } else {
                    ReceiveAction::Ignore
                }
            } else {
                ReceiveAction::Ignore
            }
        },
    }
}

/// Displayed entry of a cell and whether it is animated, given its
/// canonical entry `e`, its previously displayed entry, and whether a move
/// is being presented. A cell explored canonically keeps its displayed
/// explore/reveal flags if they already show it; otherwise it is animated
/// when a move is presented, and shown explored at once when not.
pub open spec fn displayed(
    e: CellMetadataEntry,
    previous: Option<CellMetadataEntry>,
    has_movement: bool,
) -> (CellMetadataEntry, bool) {
    if e.is_explored {
        match previous {
            Some(p) => if p.is_explored || p.is_revealing {
                (CellMetadataEntry { is_explored: p.is_explored, is_revealing: p.is_revealing, ..e }, false)
            } else if has_movement {
                (CellMetadataEntry { is_explored: false, ..e }, true)
            } else {
                (e, false)
            },
            None => if has_movement {
                (CellMetadataEntry { is_explored: false, ..e }, true)
            } else {
                (e, false)
            },
        }
    } else {
        (e, false)
    }
}

/// The displayed entry shows the cell explored or being revealed.
pub open spec fn shows_reveal(previous: Option<CellMetadataEntry>) -> bool {
    previous matches Some(p) && (p.is_explored || p.is_revealing)
}

/// How a cell is presented: a cell already shown explored or being revealed
/// is never animated again and keeps its shown explore/reveal flags; a cell
/// newly explored canonically is animated (and shown unexplored until its
/// batch ends) exactly when a move is presented; a cell not explored
/// canonically is shown as it is; the void flag and count are always the
/// canonical ones.
pub proof fn running_reveals_are_kept(
    e: CellMetadataEntry,
    previous: Option<CellMetadataEntry>,
    has_movement: bool,
)
    ensures
        ({
            let (shown, animate) = displayed(e, previous, has_movement);
            &&& animate == (e.is_explored && has_movement && !shows_reveal(previous))
            &&& (e.is_explored && shows_reveal(previous)) ==> {
                &&& shown.is_explored == previous->0.is_explored
                &&& shown.is_revealing == previous->0.is_revealing
            }
            &&& animate ==> !shown.is_explored && shown.is_revealing == e.is_revealing
            &&& (e.is_explored && !has_movement && !shows_reveal(previous)) ==> shown == e
            &&& !e.is_explored ==> shown == e
            &&& shown.is_void == e.is_void
            &&& shown.void_neighbor_count == e.void_neighbor_count
        }),
{
}

/// Previously displayed entry of cell `i` (none past the end).
pub open spec fn previous_at(previous: Seq<Option<CellMetadataEntry>>, i: int) -> Option<CellMetadataEntry> {
    if 0 <= i < previous.len() {
        previous[i]
    } else {
        None
    }
}

/// The board to display after the canonical board changed, and the cells
/// whose reveal is to be animated, in increasing order.
pub fn present(
    entries: &Vec<CellMetadataEntry>,
    previous: &Vec<Option<CellMetadataEntry>>,
    has_movement: bool,
) -> (out: (Vec<CellMetadataEntry>, Vec<usize>))
    ensures
        out.0@ == Seq::new(
            entries.len() as nat,
            |i: int| displayed(entries@[i], previous_at(previous@, i), has_movement).0,
        ),
        forall|a: int, b: int| 0 <= a < b < out.1@.len() ==> out.1@[a] < out.1@[b],
        forall|i: int|
            0 <= i < entries.len() ==> (out.1@.contains(i as usize) <==> displayed(
                entries@[i],
                previous_at(previous@, i),
                has_movement,
            ).1),
        forall|k: int| 0 <= k < out.1@.len() ==> out.1@[k] < entries.len(),
{
    let mut next: Vec<CellMetadataEntry> = Vec::new();
    let mut animate: Vec<usize> = Vec::new();
    let mut i: usize = 0;
    while i < entries.len()
        invariant
            i <= entries.len(),
            next@ == Seq::new(
                i as nat,
                |q: int| displayed(entries@[q], previous_at(previous@, q), has_movement).0,
            ),
            forall|a: int, b: int| 0 <= a < b < animate@.len() ==> animate@[a] < animate@[b],
            forall|k: int| 0 <= k < animate@.len() ==> animate@[k] < i,
            forall|q: int|
                0 <= q < i ==> (animate@.contains(q as usize) <==> displayed(
                    entries@[q],
                    previous_at(previous@, q),
                    has_movement,
                ).1),
        decreases entries.len() - i,
    {
        let mut cell = entries[i];
        let old_entry: Option<CellMetadataEntry> = if i < previous.len() { previous[i] } else { None };
        let mut animated = false;
        if cell.is_explored {
            let shown = match old_entry {
                Some(p) => p.is_explored || p.is_revealing,
                None => false,
            };
            if shown {
                let p = old_entry.unwrap();
                cell.is_explored = p.is_explored;
                cell.is_revealing = p.is_revealing;
            } else if has_movement {
                cell.is_explored = false;
                animated = true;
            }
        }
        let ghost before = animate@;
        if animated {
            animate.push(i);
        }
        proof {
            assert forall|q: int| 0 <= q < i + 1 implies (animate@.contains(q as usize) <==> displayed(
                entries@[q],
                previous_at(previous@, q),
                has_movement,
            ).1) by {
                if q < i {
                    if animate@.contains(q as usize) {
                        let w = choose|w: int| 0 <= w < animate@.len() && animate@[w] == q as usize;
                        if w < before.len() {
                            assert(before[w] == q as usize);
                        }
                    }
                    if before.contains(q as usize) {
                        let w = choose|w: int| 0 <= w < before.len() && before[w] == q as usize;
                        assert(animate@[w] == q as usize);
                    }
                } else {
                    if animated {
                        assert(animate@[animate@.len() - 1] == i);
                    } else {
                        assert(!before.contains(i));
                    }
                }
            }
        }
        next.push(cell);
        assert(next@ =~= Seq::new(
            (i + 1) as nat,
            |q: int| displayed(entries@[q], previous_at(previous@, q), has_movement).0,
        ));
        i = i + 1;
    }
    (next, animate)
}

/// End of a reveal animation: the listed cells are shown explored and no
/// longer revealing. Presentation only.
pub fn finalize_display(display: &mut Vec<CellMetadataEntry>, indices: &Vec<usize>)
    requires
        forall|k: int| 0 <= k < indices@.len() ==> indices@[k] < old(display).len(),
    ensures
        final(display)@.len() == old(display)@.len(),
        forall|i: int|
            0 <= i < old(display)@.len() ==> #[trigger] final(display)@[i] == if indices@.contains(
                i as usize,
            ) {
                CellMetadataEntry { is_explored: true, is_revealing: false, ..old(display)@[i] }
            } else {
                old(display)@[i]
            },
{
    let ghost start = display@;
    let mut k: usize = 0;
    while k < indices.len()
        invariant
            k <= indices.len(),
            display@.len() == start.len(),
            forall|q: int| 0 <= q < indices@.len() ==> indices@[q] < start.len(),
            forall|i: int|
                0 <= i < start.len() ==> #[trigger] display@[i] == if indices@.take(k as int).contains(
                    i as usize,
                ) {
                    CellMetadataEntry { is_explored: true, is_revealing: false, ..start[i] }
                } else {
                    start[i]
                },
        decreases indices.len() - k,
    {
        let index = indices[k];
        let mut cell = display[index];
        cell.is_revealing = false;
        cell.is_explored = true;
        display.set(index, cell);
        proof {
            let prefix = indices@.take(k as int);
            let longer = indices@.take(k + 1);
            assert(longer == prefix.push(index));
            assert forall|i: int| 0 <= i < start.len() implies #[trigger] display@[i] == if longer.contains(
                i as usize,
            ) {
                CellMetadataEntry { is_explored: true, is_revealing: false, ..start[i] }
            } else {
                start[i]
            } by {
                assert(i < display.len());
                if i != index {
                    if longer.contains(i as usize) {
                        let w = choose|w: int| 0 <= w < longer.len() && longer[w] == i as usize;
                        assert(w != k);
                        assert(prefix[w] == i as usize);
                    }
                    if prefix.contains(i as usize) {
                        let w = choose|w: int| 0 <= w < prefix.len() && prefix[w] == i as usize;
                        assert(longer[w] == i as usize);
                    }
                } else {
                    assert(longer[k as int] == index);
                }
            }
        }
        k = k + 1;
    }
    assert(indices@.take(indices.len() as int) == indices@);
}

/// Flag the displayed cells at `indices` as revealing (an index outside
/// the display is skipped); nothing else changes.
pub fn mark_revealing(display: &mut Vec<CellMetadataEntry>, indices: &Vec<usize>)
    ensures
        final(display)@.len() == old(display)@.len(),
        forall|i: int|
            0 <= i < old(display)@.len() ==> #[trigger] final(display)@[i] == if indices@.contains(
                i as usize,
            ) {
                CellMetadataEntry { is_revealing: true, ..old(display)@[i] }
            } else {
                old(display)@[i]
            },
{
    let ghost start = display@;
    let mut k: usize = 0;
    while k < indices.len()
        invariant
            k <= indices.len(),
            display@.len() == start.len(),
            forall|i: int|
                0 <= i < start.len() ==> #[trigger] display@[i] == if indices@.take(k as int).contains(
                    i as usize,
                ) {
                    CellMetadataEntry { is_revealing: true, ..start[i] }
                } else {
                    start[i]
                },
        decreases indices.len() - k,
    {
        let index = indices[k];
        if index < display.len() {
            let mut entry = display[index];
            entry.is_revealing = true;
            display.set(index, entry);
        }
        proof {
            let prefix = indices@.take(k as int);
            let longer = indices@.take(k + 1);
            assert(longer == prefix.push(index));
            assert forall|i: int| 0 <= i < start.len() implies #[trigger] display@[i] == if longer.contains(
                i as usize,
            ) {
                CellMetadataEntry { is_revealing: true, ..start[i] }
            } else {
                start[i]
            } by {
                if i != index {
                    if longer.contains(i as usize) {
                        let w = choose|w: int| 0 <= w < longer.len() && longer[w] == i as usize;
                        assert(prefix[w] == i as usize);
                    }
                    if prefix.contains(i as usize) {
                        let w = choose|w: int| 0 <= w < prefix.len() && prefix[w] == i as usize;
                        assert(longer[w] == i as usize);
                    }
                } else {
                    assert(longer[k as int] == index);
                }
            }
        }
        k = k + 1;
    }
    assert(indices@.take(indices.len() as int) == indices@);
}

/// The entries of a finish schedule that finish at time `t`, in order.
pub open spec fn finishing_at(s: Seq<(usize, u32)>, t: u32) -> Seq<(usize, u32)>
    decreases s.len(),
{
    if s.len() == 0 {
        Seq::empty()
    } else {
        finishing_at(s.drop_last(), t) + if s.last().1 == t {
            seq![s.last()]
        } else {
            Seq::empty()
        }
    }
}

/// The schedule lists its entries by increasing finish time.
pub open spec fn by_finish_time(s: Seq<(usize, u32)>) -> bool {
    forall|a: int, b: int| 0 <= a < b < s.len() ==> s[a].1 <= s[b].1
}

proof fn lemma_finishing_at_add(a: Seq<(usize, u32)>, b: Seq<(usize, u32)>, t: u32)
    ensures
        finishing_at(a + b, t) == finishing_at(a, t) + finishing_at(b, t),
    decreases b.len(),
{
    if b.len() == 0 {
        assert(a + b =~= a);
        assert(finishing_at(a, t) + finishing_at(b, t) =~= finishing_at(a, t));
    } else {
        lemma_finishing_at_add(a, b.drop_last(), t);
        assert((a + b).drop_last() =~= a + b.drop_last());
        assert((a + b).last() == b.last());
        let tail = if b.last().1 == t {
            seq![b.last()]
        } else {
            Seq::empty()
        };
        assert(finishing_at(a, t) + finishing_at(b.drop_last(), t) + tail =~= finishing_at(a, t) + (
        finishing_at(b.drop_last(), t) + tail));
    }
}

proof fn lemma_finishing_at_none(b: Seq<(usize, u32)>, t: u32)
    requires
        forall|k: int| 0 <= k < b.len() ==> #[trigger] b[k].1 != t,
    ensures
        finishing_at(b, t) == Seq::<(usize, u32)>::empty(),
    decreases b.len(),
{
    if b.len() > 0 {
        lemma_finishing_at_none(b.drop_last(), t);
        assert(b.last() == b[b.len() - 1]);
        assert(Seq::<(usize, u32)>::empty() + Seq::<(usize, u32)>::empty() =~= Seq::<
            (usize, u32),
        >::empty());
    }
}

/// Order a finish schedule by finish time, keeping entries with equal
/// times in their given order (a stable sort).
pub fn sort_schedule(schedule: &Vec<(usize, u32)>) -> (out: Vec<(usize, u32)>)
    ensures
        out@.len() == schedule@.len(),
        by_finish_time(out@),
        forall|t: u32| #[trigger] finishing_at(out@, t) == finishing_at(schedule@, t),
{
    let mut out: Vec<(usize, u32)> = Vec::new();
    let mut i: usize = 0;
    while i < schedule.len()
        invariant
            i <= schedule.len(),
            out@.len() == i,
            by_finish_time(out@),
            forall|t: u32| #[trigger] finishing_at(out@, t) == finishing_at(schedule@.take(i as int), t),
        decreases schedule.len() - i,
    {
        let x = schedule[i];
        let mut p: usize = 0;
        while p < out.len() && out[p].1 <= x.1
            invariant
                p <= out.len(),
                forall|q: int| 0 <= q < p ==> #[trigger] out@[q].1 <= x.1,
            decreases out.len() - p,
        {
            p = p + 1;
        }
        let ghost before = out@;
        proof {
            assert forall|q: int| p <= q < before.len() implies #[trigger] before[q].1 > x.1 by {
                assert(before[p as int].1 <= before[q].1);
            }
        }
        out.insert(p, x);
        proof {
            let front = before.take(p as int);
            let back = before.skip(p as int);
            assert(before =~= front + back);
            assert(out@ =~= front + seq![x] + back);
            assert(schedule@.take(i + 1).drop_last() =~= schedule@.take(i as int));
            assert(schedule@.take(i + 1).last() == x);
            assert forall|t: u32| #[trigger] finishing_at(out@, t) == finishing_at(
                schedule@.take(i + 1),
                t,
            ) by {
                lemma_finishing_at_add(front, back, t);
                lemma_finishing_at_add(front + seq![x], back, t);
                lemma_finishing_at_add(front, seq![x], t);
                assert(seq![x].drop_last() =~= Seq::<(usize, u32)>::empty());
                assert(finishing_at(before, t) == finishing_at(schedule@.take(i as int), t));
                let tail = if x.1 == t {
                    seq![x]
                } else {
                    Seq::<(usize, u32)>::empty()
                };
                assert(finishing_at(seq![x].drop_last(), t) == Seq::<(usize, u32)>::empty());
                assert(seq![x].last() == x);
                assert(Seq::<(usize, u32)>::empty() + tail =~= tail);
                assert(finishing_at(seq![x], t) =~= tail);
                assert(finishing_at(schedule@.take(i + 1), t) == finishing_at(
                    schedule@.take(i as int),
                    t,
                ) + tail);
                assert(finishing_at(out@, t) == finishing_at(front, t) + tail + finishing_at(back, t));
                if t == x.1 {
                    assert forall|k: int| 0 <= k < back.len() implies #[trigger] back[k].1 != t by {
                        assert(back[k] == before[p + k]);
                    }
                    lemma_finishing_at_none(back, t);
                    assert(finishing_at(front, t) + Seq::<(usize, u32)>::empty() =~= finishing_at(
                        front,
                        t,
                    ));
                    assert(finishing_at(front, t) + seq![x] + Seq::<(usize, u32)>::empty()
                        =~= finishing_at(front, t) + seq![x]);
                } else {
                    assert(finishing_at(front, t) + Seq::<(usize, u32)>::empty() =~= finishing_at(
                        front,
                        t,
                    ));
                }
            }
            assert forall|a: int, b: int| 0 <= a < b < out@.len() implies out@[a].1 <= out@[b].1 by {
                if b < p {
                    assert(out@[a] == before[a] && out@[b] == before[b]);
                } else if b == p {
                    assert(out@[a] == before[a]);
                } else if a < p {
                    assert(out@[a] == before[a] && out@[b] == before[b - 1]);
                } else if a == p {
                    assert(out@[b] == before[b - 1]);
                } else {
                    assert(out@[a] == before[a - 1] && out@[b] == before[b - 1]);
                }
            }
        }
        i = i + 1;
    }
    assert(schedule@.take(i as int) =~= schedule@);
    out
}

/// Length of a display frame in milliseconds.
pub const FRAME_MS: u32 = 16;

/// `t` rounded up to a frame boundary, saturating at `u32::MAX`.
pub open spec fn frame_deadline(t: u32) -> u32 {
    let d = ((t + 15) / 16) * 16;
    if d > u32::MAX { u32::MAX } else { d as u32 }
}

/// Number of leading entries of `s` that finish by `deadline`.
pub open spec fn run_len(s: Seq<(usize, u32)>, deadline: u32) -> nat
    decreases s.len(),
{
    if s.len() == 0 || s[0].1 > deadline {
        0
    } else {
        1 + run_len(s.drop_first(), deadline)
    }
}

/// `a - b`, saturating at zero.
pub open spec fn sat_sub(a: u32, b: u32) -> u32 {
    if a >= b { (a - b) as u32 } else { 0 }
}

/// Batches of a finish schedule: each batch is the entries finishing by the
/// frame deadline of its first entry, with the wait since the previous
/// deadline `prev`.
pub open spec fn spec_batches(s: Seq<(usize, u32)>, prev: u32) -> Seq<(u32, Seq<usize>)>
    decreases s.len(),
{
    if s.len() == 0 {
        seq![]
    } else {
        let d = frame_deadline(s[0].1);
        let j = 1 + run_len(s.drop_first(), d);
        proof {
            lemma_run_len(s.drop_first(), d);
        }
        seq![(sat_sub(d, prev), s.take(j as int).map_values(|e: (usize, u32)| e.0))].add(
            spec_batches(s.skip(j as int), d),
        )
    }
}

/// Deadline of the last batch (`prev` when there is none).
pub open spec fn last_deadline(s: Seq<(usize, u32)>, prev: u32) -> u32
    decreases s.len(),
{
    if s.len() == 0 {
        prev
    } else {
        let d = frame_deadline(s[0].1);
        let j = 1 + run_len(s.drop_first(), d);
        proof {
            lemma_run_len(s.drop_first(), d);
        }
        last_deadline(s.skip(j as int), d)
    }
}

/// Every entry of the leading run finishes by the deadline, and the run
/// stops at the first entry that does not.
pub proof fn lemma_run_len(s: Seq<(usize, u32)>, deadline: u32)
    ensures
        run_len(s, deadline) <= s.len(),
        forall|k: int| 0 <= k < run_len(s, deadline) ==> #[trigger] s[k].1 <= deadline,
        run_len(s, deadline) < s.len() ==> s[run_len(s, deadline) as int].1 > deadline,
    decreases s.len(),
{
    if s.len() > 0 && s[0].1 <= deadline {
        lemma_run_len(s.drop_first(), deadline);
        assert forall|k: int| 0 <= k < run_len(s, deadline) implies #[trigger] s[k].1 <= deadline by {
            if k > 0 {
                assert(s[k] == s.drop_first()[k - 1]);
            }
        }
    }
}

/// Group a reveal's finish schedule (cell, finish time in ms) into frame
/// batches, and compute the wait after the last batch until the pulse of
/// `duration_ms` ends. Returns the batches, each with the wait before it,
/// and the final wait.
pub fn reveal_batches(schedule: &Vec<(usize, u32)>, duration_ms: u32) -> (out: (Vec<(u32, Vec<usize>)>, u32))
    ensures
        out.0.deep_view() == spec_batches(schedule@, 0),
        out.1 == sat_sub(duration_ms, last_deadline(schedule@, 0)),
{
    let mut out: Vec<(u32, Vec<usize>)> = Vec::new();
    let mut prev: u32 = 0;
    let mut i: usize = 0;
    assert(schedule@.skip(0) == schedule@);
    assert(out.deep_view() =~= Seq::<(u32, Seq<usize>)>::empty());
    while i < schedule.len()
        invariant
            i <= schedule.len(),
            out.deep_view() + spec_batches(schedule@.skip(i as int), prev) == spec_batches(schedule@, 0),
            last_deadline(schedule@.skip(i as int), prev) == last_deadline(schedule@, 0),
        decreases schedule.len() - i,
    {
        let ghost rest = schedule@.skip(i as int);
        let first = schedule[i].1;
        let rounded = first / FRAME_MS + if first % FRAME_MS == 0 { 0 } else { 1 };
        let wide = (rounded as u64) * (FRAME_MS as u64);
        let deadline: u32 = if wide > u32::MAX as u64 { u32::MAX } else { wide as u32 };
        assert(deadline == frame_deadline(first));
        proof {
            lemma_run_len(rest.drop_first(), deadline);
        }
        let mut j = i + 1;
        while j < schedule.len() && schedule[j].1 <= deadline
            invariant
                i < j <= schedule.len(),
                rest == schedule@.skip(i as int),
                run_len(rest.drop_first(), deadline) <= rest.len() - 1,
                j - i - 1 <= run_len(rest.drop_first(), deadline),
                forall|k: int| 0 <= k < run_len(rest.drop_first(), deadline) ==> #[trigger] rest.drop_first()[k].1
                    <= deadline,
                run_len(rest.drop_first(), deadline) < rest.len() - 1 ==> rest.drop_first()[run_len(
                    rest.drop_first(),
                    deadline,
                ) as int].1 > deadline,
            decreases schedule.len() - j,
        {
            assert(rest.drop_first()[j - i - 1] == schedule@[j as int]);
            j = j + 1;
        }
        assert(j - i == 1 + run_len(rest.drop_first(), deadline)) by {
            if j - i - 1 < run_len(rest.drop_first(), deadline) {
                assert(rest.drop_first()[j - i - 1] == schedule@[j as int]);
            }
        }
        let mut bucket: Vec<usize> = Vec::new();
        let mut q: usize = i;
        while q < j
            invariant
                i <= q <= j <= schedule.len(),
                bucket@ == schedule@.subrange(i as int, q as int).map_values(|e: (usize, u32)| e.0),
            decreases j - q,
        {
            bucket.push(schedule[q].0);
            assert(bucket@ =~= schedule@.subrange(i as int, q + 1).map_values(|e: (usize, u32)| e.0));
            q = q + 1;
        }
        assert(rest.take((j - i) as int) == schedule@.subrange(i as int, j as int));
        let wait = deadline.saturating_sub(prev);
        let ghost before = out.deep_view();
        let ghost old_out = out@;
        let ghost items = bucket@;
        assert(bucket.deep_view() =~= items);
        out.push((wait, bucket));
        assert(out@ == old_out.push((wait, out@[out@.len() - 1].1)));
        assert(out.deep_view() =~= before.push((wait, items)));
        assert(rest.skip((j - i) as int) == schedule@.skip(j as int));
        assert(out.deep_view() + spec_batches(schedule@.skip(j as int), deadline) =~= before
            + spec_batches(rest, prev));
        prev = deadline;
        i = j;
    }
    assert(schedule@.skip(i as int) =~= Seq::<(usize, u32)>::empty());
    assert(out.deep_view() + Seq::<(u32, Seq<usize>)>::empty() == out.deep_view());
    (out, duration_ms.saturating_sub(prev))
}

/// The cells of a sequence of batches, in order.
pub open spec fn batch_cells(b: Seq<(u32, Seq<usize>)>) -> Seq<usize>
    decreases b.len(),
{
    if b.len() == 0 {
        seq![]
    } else {
        b[0].1 + batch_cells(b.drop_first())
    }
}

/// Every scheduled cell is finalized exactly once and in schedule order:
/// the batches, taken in order, list exactly the scheduled cells; and no
/// batch is empty.
pub proof fn batches_cover_schedule(s: Seq<(usize, u32)>, prev: u32)
    ensures
        batch_cells(spec_batches(s, prev)) == s.map_values(|e: (usize, u32)| e.0),
        forall|k: int|
            0 <= k < spec_batches(s, prev).len() ==> #[trigger] spec_batches(s, prev)[k].1.len() > 0,
    decreases s.len(),
{
    if s.len() > 0 {
        let d = frame_deadline(s[0].1);
        lemma_run_len(s.drop_first(), d);
        let j = 1 + run_len(s.drop_first(), d);
        batches_cover_schedule(s.skip(j as int), d);
        let b = spec_batches(s, prev);
        assert(b.drop_first() == spec_batches(s.skip(j as int), d));
        let f = |e: (usize, u32)| e.0;
        assert(s.map_values(f) =~= s.take(j as int).map_values(f) + s.skip(j as int).map_values(f));
        assert forall|k: int| 0 <= k < b.len() implies #[trigger] b[k].1.len() > 0 by {
            if k > 0 {
                assert(b[k] == b.drop_first()[k - 1]);
            }
        }
    }
}

/// The display never runs ahead of the canonical board and never changes
/// it: a cell is shown explored only if it is explored canonically, and its
/// void flag and void-neighbor count are the canonical ones.
pub proof fn display_never_ahead(
    e: CellMetadataEntry,
    previous: Option<CellMetadataEntry>,
    has_movement: bool,
)
    ensures
        ({
            let (shown, _) = displayed(e, previous, has_movement);
            &&& shown.is_explored ==> e.is_explored
            &&& shown.is_void == e.is_void
            &&& shown.void_neighbor_count == e.void_neighbor_count
        }),
{
}

/// The display catches up: a canonically explored cell is shown explored,
/// shown mid-reveal, or animated (and [`finalize_display`] then shows it
/// explored).
pub proof fn display_catches_up(
    e: CellMetadataEntry,
    previous: Option<CellMetadataEntry>,
    has_movement: bool,
)
    requires
        e.is_explored,
    ensures
        ({
            let (shown, animated) = displayed(e, previous, has_movement);
            shown.is_explored || shown.is_revealing || animated
        }),
{
}

} // verus!
