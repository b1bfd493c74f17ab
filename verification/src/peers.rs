//! Who is around: the endpoints a player is connected to and what it last
//! heard from each, kept up to date from network events.
use vstd::prelude::*;
use vstd::string::StrSliceExecFns;

verus! {

/// What is known of one peer.
pub struct PeerEntry {
    /// The peer's endpoint.
    pub endpoint_id: String,
    /// Last nickname it announced.
    pub nickname: Option<String>,
    /// When it was last heard from, in milliseconds.
    pub last_seen_ms: Option<u64>,
}

/// A peer as listed for display.
pub struct PeerStatus {
    pub endpoint_id: String,
    pub nickname: Option<String>,
    pub last_seen_ms: Option<u64>,
    pub is_connected: bool,
}

/// An event of the gossip network.
pub enum NetworkEvent {
    /// The topic was joined with these neighbors.
    Joined { neighbors: Vec<String> },
    /// A message arrived.
    MessageReceived { from: String, text: String, nickname: String },
    /// A peer announced itself.
    Presence { from: String, nickname: String },
    /// A neighbor connected.
    NeighborUp { endpoint_id: String },
    /// A neighbor disconnected.
    NeighborDown { endpoint_id: String },
    /// Events were dropped.
    Lagged,
}

/// Connected endpoints and known peers.
pub struct PeerDirectory {
    /// Connected endpoints, each once.
    pub connected: Vec<String>,
    /// Known peers, each endpoint once.
    pub presence: Vec<PeerEntry>,
}

/// What is known of a peer, as text.
pub type PeerInfo = (Option<Seq<char>>, Option<u64>);

/// Text of an optional string.
pub open spec fn opt_text(o: Option<String>) -> Option<Seq<char>> {
    match o {
        Some(s) => Some(s@),
        None => None,
    }
}

/// `new` if it says something, else `old`.
pub open spec fn newer<T>(new: Option<T>, old: Option<T>) -> Option<T> {
    if new is Some {
        new
    } else {
        old
    }
}

/// Text order: character by character, a proper prefix first (the order
/// of strings by their UTF-8 bytes).
pub open spec fn text_lt(a: Seq<char>, b: Seq<char>) -> bool
    decreases a.len(),
{
    if b.len() == 0 {
        false
    } else if a.len() == 0 {
        true
    } else if a[0] != b[0] {
        a[0] < b[0]
    } else {
        text_lt(a.drop_first(), b.drop_first())
    }
}

proof fn lemma_text_order(a: Seq<char>, b: Seq<char>)
    ensures
        text_lt(a, b) || a == b || text_lt(b, a),
        !(text_lt(a, b) && text_lt(b, a)),
        !text_lt(a, a),
    decreases a.len(),
{
    if a.len() > 0 && b.len() > 0 && a[0] == b[0] {
        lemma_text_order(a.drop_first(), b.drop_first());
        if a.drop_first() == b.drop_first() {
            assert(a =~= b) by {
                assert forall|i: int| 0 <= i < a.len() implies a[i] == b[i] by {
                    if i > 0 {
                        assert(a[i] == a.drop_first()[i - 1]);
                        assert(b[i] == b.drop_first()[i - 1]);
                    }
                }
            }
        }
    } else if a.len() == 0 && b.len() == 0 {
        assert(a =~= b);
    } else if a.len() > 0 && b.len() > 0 {
        assert(a[0] != b[0]);
    }
    if a.len() > 0 {
        lemma_text_order(a.drop_first(), a.drop_first());
    }
}

proof fn lemma_text_trans(a: Seq<char>, b: Seq<char>, c: Seq<char>)
    requires
        text_lt(a, b),
        text_lt(b, c),
    ensures
        text_lt(a, c),
    decreases a.len(),
{
    if a.len() > 0 && b.len() > 0 && c.len() > 0 && a[0] == b[0] && b[0] == c[0] {
        lemma_text_trans(a.drop_first(), b.drop_first(), c.drop_first());
    }
}

fn text_less(a: &str, b: &str) -> (r: bool)
    ensures
        r == text_lt(a@, b@),
{
    let la = a.unicode_len();
    let lb = b.unicode_len();
    let mut k: usize = 0;
    assert(a@.skip(0) == a@ && b@.skip(0) == b@);
    loop
        invariant
            k <= la,
            k <= lb,
            la == a@.len(),
            lb == b@.len(),
            text_lt(a@, b@) == text_lt(a@.skip(k as int), b@.skip(k as int)),
        decreases la - k,
    {
        if k == lb {
            return false;
        }
        if k == la {
            return true;
        }
        let ca = a.get_char(k);
        let cb = b.get_char(k);
        assert(a@.skip(k as int)[0] == ca && b@.skip(k as int)[0] == cb);
        if ca != cb {
            return ca < cb;
        }
        assert(a@.skip(k as int).drop_first() == a@.skip(k + 1));
        assert(b@.skip(k as int).drop_first() == b@.skip(k + 1));
        k = k + 1;
    }
}

/// Strictly increasing in text order.
pub open spec fn texts_increasing(s: Seq<Seq<char>>) -> bool {
    forall|a: int, b: int| 0 <= a < b < s.len() ==> text_lt(s[a], s[b])
}

/// The texts of a list of strings.
pub open spec fn texts(v: Seq<String>) -> Seq<Seq<char>> {
    v.map_values(|x: String| x@)
}

/// Add `id` to a list in increasing text order, unless it is there.
fn insert_text(ids: &mut Vec<String>, id: &String)
    requires
        texts_increasing(texts(old(ids)@)),
    ensures
        texts_increasing(texts(final(ids)@)),
        texts(final(ids)@).to_set() == texts(old(ids)@).to_set().insert(id@),
{
    let ghost before = texts(ids@);
    let mut p: usize = 0;
    while p < ids.len() && text_less(ids[p].as_str(), id.as_str())
        invariant
            p <= ids@.len(),
            texts(ids@) == before,
            forall|q: int| 0 <= q < p ==> text_lt(#[trigger] before[q], id@),
        decreases ids.len() - p,
    {
        assert(before[p as int] == ids@[p as int]@);
        p = p + 1;
    }
    if p < ids.len() {
        assert(before[p as int] == ids@[p as int]@);
        proof {
            lemma_text_order(before[p as int], id@);
        }
        if ids[p] == *id {
            assert(before.to_set() =~= before.to_set().insert(id@)) by {
                assert(before[p as int] == id@);
            }
            return;
        }
    }
    ids.insert(p, id.clone());
    let ghost after = texts(ids@);
    assert(after =~= before.insert(p as int, id@)) by {
        assert forall|q: int| 0 <= q < after.len() implies after[q] == before.insert(p as int, id@)[q] by {
            if q < p {
                assert(after[q] == ids@[q]@);
            } else if q > p {
                assert(after[q] == ids@[q]@);
            }
        }
    }
    proof {
        let x = id@;
        if p < before.len() {
            assert(text_lt(x, before[p as int]));
        }
        assert forall|a: int, b: int| 0 <= a < b < after.len() implies text_lt(after[a], after[b]) by {
            if b < p {
                assert(text_lt(before[a], before[b]));
            } else if b == p {
                assert(text_lt(before[a], x));
            } else if a < p {
                if b - 1 > p {
                    assert(text_lt(before[p as int], before[b - 1]));
                    lemma_text_trans(x, before[p as int], before[b - 1]);
                }
                lemma_text_trans(before[a], x, before[b - 1]);
            } else if a == p {
                if b - 1 > p {
                    assert(text_lt(before[p as int], before[b - 1]));
                    lemma_text_trans(x, before[p as int], before[b - 1]);
                }
            } else {
                assert(text_lt(before[a - 1], before[b - 1]));
            }
        }
        assert(after.to_set() =~= before.to_set().insert(x)) by {
            assert forall|t: Seq<char>| #[trigger] after.to_set().contains(t) implies before.to_set().insert(x).contains(t) by {
                let q = choose|q: int| 0 <= q < after.len() && after[q] == t;
                if q < p {
                    assert(before[q] == t);
                } else if q > p {
                    assert(before[q - 1] == t);
                }
            }
            assert forall|t: Seq<char>| #[trigger] before.to_set().insert(x).contains(t) implies after.to_set().contains(t) by {
                if t == x {
                    assert(after[p as int] == x);
                } else {
                    let q = choose|q: int| 0 <= q < before.len() && before[q] == t;
                    if q < p {
                        assert(after[q] == t);
                    } else {
                        assert(after[q + 1] == t);
                    }
                }
            }
        }
    }
}

/// `from` is this player's own endpoint.
fn is_local(local_id: &Option<String>, from: &String) -> (r: bool)
    ensures
        r == (opt_text(*local_id) == Some(from@)),
{
    match local_id {
        Some(l) => *l == *from,
        None => false,
    }
}

impl PeerDirectory {
    /// No endpoint occurs twice in either list.
    pub open spec fn wf(&self) -> bool {
        &&& forall|i: int, j: int|
            0 <= i < j < self.connected@.len() ==> self.connected@[i]@ != self.connected@[j]@
        &&& forall|i: int, j: int|
            0 <= i < j < self.presence@.len() ==> self.presence@[i].endpoint_id@
                != self.presence@[j].endpoint_id@
    }

    /// The connected endpoints.
    pub open spec fn connected_set(&self) -> Set<Seq<char>> {
        Set::new(|id: Seq<char>| exists|i: int| 0 <= i < self.connected@.len() && self.connected@[i]@ == id)
    }

    /// The known peers.
    pub open spec fn known(&self) -> Set<Seq<char>> {
        Set::new(
            |id: Seq<char>|
                exists|i: int| 0 <= i < self.presence@.len() && self.presence@[i].endpoint_id@ == id,
        )
    }

    /// What is known of peer `id` (meaningful for a known peer).
    pub open spec fn info(&self, id: Seq<char>) -> PeerInfo {
        let i = choose|i: int| 0 <= i < self.presence@.len() && self.presence@[i].endpoint_id@ == id;
        (opt_text(self.presence@[i].nickname), self.presence@[i].last_seen_ms)
    }

    /// `self` after recording what was heard of `id`: it becomes known,
    /// with the nickname and time that were given, others kept.
    pub open spec fn heard(
        &self,
        after: &PeerDirectory,
        id: Seq<char>,
        nickname: Option<Seq<char>>,
        seen: Option<u64>,
    ) -> bool {
        &&& after.known() == self.known().insert(id)
        &&& forall|k: Seq<char>| #[trigger] self.known().contains(k) && k != id ==> after.info(k) == self.info(k)
        &&& after.info(id) == if self.known().contains(id) {
            (newer(nickname, self.info(id).0), newer(seen, self.info(id).1))
        } else {
            (nickname, seen)
        }
    }

    /// No endpoint connected and no peer known.
    pub fn new() -> (d: Self)
        ensures
            d.wf(),
            d.connected_set() == Set::<Seq<char>>::empty(),
            d.known() == Set::<Seq<char>>::empty(),
    {
        let d = PeerDirectory { connected: Vec::new(), presence: Vec::new() };
        assert(d.connected_set() =~= Set::empty());
        assert(d.known() =~= Set::empty());
        d
    }

    fn connected_index(&self, id: &String) -> (r: Option<usize>)
        ensures
            match r {
                Some(i) => i < self.connected@.len() && self.connected@[i as int]@ == id@,
                None => forall|i: int| 0 <= i < self.connected@.len() ==> self.connected@[i]@ != id@,
            },
    {
        let mut i: usize = 0;
        while i < self.connected.len()
            invariant
                i <= self.connected@.len(),
                forall|q: int| 0 <= q < i ==> self.connected@[q]@ != id@,
            decreases self.connected.len() - i,
        {
            if self.connected[i] == *id {
                return Some(i);
            }
            i = i + 1;
        }
        None
    }

    fn presence_index(&self, id: &String) -> (r: Option<usize>)
        ensures
            match r {
                Some(i) => i < self.presence@.len() && self.presence@[i as int].endpoint_id@ == id@,
                None => forall|i: int| 0 <= i < self.presence@.len() ==> self.presence@[i].endpoint_id@ != id@,
            },
    {
        let mut i: usize = 0;
        while i < self.presence.len()
            invariant
                i <= self.presence@.len(),
                forall|q: int| 0 <= q < i ==> self.presence@[q].endpoint_id@ != id@,
            decreases self.presence.len() - i,
        {
            if self.presence[i].endpoint_id == *id {
                return Some(i);
            }
            i = i + 1;
        }
        None
    }

    /// Mark `id` connected.
    pub fn connect(&mut self, id: &String)
        requires
            old(self).wf(),
        ensures
            final(self).wf(),
            final(self).connected_set() == old(self).connected_set().insert(id@),
            final(self).presence@ == old(self).presence@,
    {
        match self.connected_index(id) {
            Some(_) => {
                assert(self.connected_set() =~= self.connected_set().insert(id@));
            },
            None => {
                let ghost before = *self;
                self.connected.push(id.clone());
                assert(self.connected_set() =~= before.connected_set().insert(id@)) by {
                    assert forall|k: Seq<char>| #[trigger] self.connected_set().contains(k) implies before.connected_set().insert(
                        id@,
                    ).contains(k) by {
                        let i = choose|i: int| 0 <= i < self.connected@.len() && self.connected@[i]@ == k;
                        if i < before.connected@.len() {
                            assert(before.connected@[i] == self.connected@[i]);
                        }
                    }
                    assert forall|k: Seq<char>| #[trigger] before.connected_set().insert(id@).contains(k) implies self.connected_set().contains(
                        k,
                    ) by {
                        if k == id@ {
                            assert(self.connected@[before.connected@.len() as int]@ == id@);
                        } else {
                            let i = choose|i: int| 0 <= i < before.connected@.len() && before.connected@[i]@ == k;
                            assert(self.connected@[i] == before.connected@[i]);
                        }
                    }
                }
            },
        }
    }

    /// Mark `id` disconnected.
    pub fn disconnect(&mut self, id: &String)
        requires
            old(self).wf(),
        ensures
            final(self).wf(),
            final(self).connected_set() == old(self).connected_set().remove(id@),
            final(self).presence@ == old(self).presence@,
    {
        match self.connected_index(id) {
            None => {
                assert(self.connected_set() =~= self.connected_set().remove(id@));
            },
            Some(i) => {
                let ghost before = *self;
                self.connected.remove(i);
                assert(self.connected_set() =~= before.connected_set().remove(id@)) by {
                    assert forall|k: Seq<char>| #[trigger] self.connected_set().contains(k) implies before.connected_set().remove(
                        id@,
                    ).contains(k) by {
                        let j = choose|j: int| 0 <= j < self.connected@.len() && self.connected@[j]@ == k;
                        if j < i {
                            assert(before.connected@[j] == self.connected@[j]);
                        } else {
                            assert(before.connected@[j + 1] == self.connected@[j]);
                            assert(before.connected@[j + 1]@ != before.connected@[i as int]@);
                        }
                    }
                    assert forall|k: Seq<char>| #[trigger] before.connected_set().remove(id@).contains(k) implies self.connected_set().contains(
                        k,
                    ) by {
                        let j = choose|j: int| 0 <= j < before.connected@.len() && before.connected@[j]@ == k;
                        if j < i {
                            assert(self.connected@[j] == before.connected@[j]);
                        } else {
                            assert(j != i);
                            assert(self.connected@[j - 1] == before.connected@[j]);
                        }
                    }
                }
            },
        }
    }

    /// Record what was heard of `id`: see [`PeerDirectory::heard`].
    pub fn upsert(&mut self, id: &String, nickname: Option<String>, seen: Option<u64>)
        requires
            old(self).wf(),
        ensures
            final(self).wf(),
            old(self).heard(final(self), id@, opt_text(nickname), seen),
            final(self).connected@ == old(self).connected@,
    {
        let ghost before = *self;
        match self.presence_index(id) {
            Some(i) => {
                let old_nick = self.presence[i].nickname.clone();
                let old_seen = self.presence[i].last_seen_ms;
                let nick = match nickname {
                    Some(n) => Some(n),
                    None => old_nick,
                };
                let when = match seen {
                    Some(t) => Some(t),
                    None => old_seen,
                };
                let entry = PeerEntry { endpoint_id: id.clone(), nickname: nick, last_seen_ms: when };
                self.presence.set(i, entry);
                proof {
                    assert(self.known() =~= before.known().insert(id@)) by {
                        assert forall|k: Seq<char>| #[trigger] self.known().contains(k) implies before.known().insert(id@).contains(
                            k,
                        ) by {
                            let j = choose|j: int| 0 <= j < self.presence@.len() && self.presence@[j].endpoint_id@ == k;
                            if j != i {
                                assert(before.presence@[j] == self.presence@[j]);
                            }
                        }
                        assert forall|k: Seq<char>| #[trigger] before.known().insert(id@).contains(k) implies self.known().contains(
                            k,
                        ) by {
                            if k == id@ {
                                assert(self.presence@[i as int].endpoint_id@ == id@);
                            } else {
                                let j = choose|j: int| 0 <= j < before.presence@.len() && before.presence@[j].endpoint_id@ == k;
                                assert(j != i);
                                assert(self.presence@[j] == before.presence@[j]);
                            }
                        }
                    }
                    assert forall|k: Seq<char>| #[trigger] before.known().contains(k) && k != id@ implies self.info(k) == before.info(k) by {
                        let j = choose|j: int| 0 <= j < before.presence@.len() && before.presence@[j].endpoint_id@ == k;
                        assert(self.presence@[j] == before.presence@[j]);
                        let a = choose|a: int| 0 <= a < self.presence@.len() && self.presence@[a].endpoint_id@ == k;
                        let b = choose|b: int| 0 <= b < before.presence@.len() && before.presence@[b].endpoint_id@ == k;
                        assert(a == j) by {
                            if a != j {
                                if a == i {
                                } else {
                                    assert(self.presence@[a] == before.presence@[a]);
                                }
                            }
                        }
                        assert(b == j);
                    }
                    let a = choose|a: int| 0 <= a < self.presence@.len() && self.presence@[a].endpoint_id@ == id@;
                    assert(a == i) by {
                        if a != i {
                            assert(self.presence@[a] == before.presence@[a]);
                        }
                    }
                    let b = choose|b: int| 0 <= b < before.presence@.len() && before.presence@[b].endpoint_id@ == id@;
                    assert(before.known().contains(id@));
                    assert(b == i);
                }
            },
            None => {
                let entry = PeerEntry { endpoint_id: id.clone(), nickname, last_seen_ms: seen };
                self.presence.push(entry);
                proof {
                    let n = before.presence@.len() as int;
                    assert(!before.known().contains(id@));
                    assert(self.known() =~= before.known().insert(id@)) by {
                        assert forall|k: Seq<char>| #[trigger] self.known().contains(k) implies before.known().insert(id@).contains(
                            k,
                        ) by {
                            let j = choose|j: int| 0 <= j < self.presence@.len() && self.presence@[j].endpoint_id@ == k;
                            if j < n {
                                assert(before.presence@[j] == self.presence@[j]);
                            }
                        }
                        assert forall|k: Seq<char>| #[trigger] before.known().insert(id@).contains(k) implies self.known().contains(
                            k,
                        ) by {
                            if k == id@ {
                                assert(self.presence@[n].endpoint_id@ == id@);
                            } else {
                                let j = choose|j: int| 0 <= j < before.presence@.len() && before.presence@[j].endpoint_id@ == k;
                                assert(self.presence@[j] == before.presence@[j]);
                            }
                        }
                    }
                    assert forall|k: Seq<char>| #[trigger] before.known().contains(k) && k != id@ implies self.info(k) == before.info(k) by {
                        let j = choose|j: int| 0 <= j < before.presence@.len() && before.presence@[j].endpoint_id@ == k;
                        assert(self.presence@[j] == before.presence@[j]);
                        let a = choose|a: int| 0 <= a < self.presence@.len() && self.presence@[a].endpoint_id@ == k;
                        assert(a == j) by {
                            if a != j && a < n {
                                assert(self.presence@[a] == before.presence@[a]);
                            }
                        }
                    }
                    let a = choose|a: int| 0 <= a < self.presence@.len() && self.presence@[a].endpoint_id@ == id@;
                    assert(self.presence@[n].endpoint_id@ == id@);
                    assert(a == n) by {
                        if a < n {
                            assert(self.presence@[a] == before.presence@[a]);
                        }
                    }
                }
            },
        }
    }

    /// `after` knows `ids` too; peers already known keep what is known of
    /// them, and the newly known ones have no nickname or time yet.
    pub open spec fn heard_nothing(&self, after: &PeerDirectory, ids: Set<Seq<char>>) -> bool {
        &&& after.known() == self.known().union(ids)
        &&& forall|k: Seq<char>| #[trigger] self.known().contains(k) ==> after.info(k) == self.info(k)
        &&& forall|k: Seq<char>|
            #[trigger] ids.contains(k) && !self.known().contains(k) ==> after.info(k) == (
                None::<Seq<char>>,
                None::<u64>,
            )
    }

    /// Handle a network event at time `now_ms`; returns the sender and text
    /// of a message to deliver to the game. Events naming this player's
    /// own endpoint are ignored.
    pub fn on_event(&mut self, event: &NetworkEvent, now_ms: u64, local_id: &Option<String>) -> (deliver:
        Option<(String, String)>)
        requires
            old(self).wf(),
        ensures
            final(self).wf(),
            match *event {
                NetworkEvent::Joined { neighbors } => {
                    let ids = Set::new(
                        |k: Seq<char>| exists|i: int| 0 <= i < neighbors@.len() && neighbors@[i]@ == k,
                    );
                    &&& final(self).connected_set() == ids
                    &&& old(self).heard_nothing(final(self), ids)
                    &&& deliver is None
                },
                NetworkEvent::NeighborUp { endpoint_id } => {
                    &&& final(self).connected_set() == old(self).connected_set().insert(endpoint_id@)
                    &&& old(self).heard(final(self), endpoint_id@, None, None)
                    &&& deliver is None
                },
                NetworkEvent::NeighborDown { endpoint_id } => {
                    &&& final(self).connected_set() == old(self).connected_set().remove(endpoint_id@)
                    &&& old(self).heard(final(self), endpoint_id@, None, None)
                    &&& deliver is None
                },
                NetworkEvent::Presence { from, nickname } => {
                    &&& deliver is None
                    &&& if opt_text(*local_id) == Some(from@) {
                        final(self).connected_set() == old(self).connected_set() && final(self).known()
                            == old(self).known() && forall|k: Seq<char>| #[trigger] old(self).known().contains(k)
                            ==> final(self).info(k) == old(self).info(k)
                    } else {
                        &&& final(self).connected_set() == old(self).connected_set().insert(from@)
                        &&& old(self).heard(final(self), from@, Some(nickname@), Some(now_ms))
                    }
                },
                NetworkEvent::MessageReceived { from, text, nickname } => if opt_text(*local_id) == Some(
                    from@,
                ) {
                    &&& deliver is None
                    &&& final(self).connected_set() == old(self).connected_set()
                    &&& final(self).known() == old(self).known()
                    &&& forall|k: Seq<char>| #[trigger] old(self).known().contains(k) ==> final(self).info(k) == old(self).info(k)
                } else {
                    &&& final(self).connected_set() == old(self).connected_set().insert(from@)
                    &&& old(self).heard(final(self), from@, Some(nickname@), Some(now_ms))
                    &&& deliver matches Some((f, t)) && f@ == from@ && t@ == text@
                },
                NetworkEvent::Lagged => {
                    &&& final(self).connected_set() == old(self).connected_set()
                    &&& final(self).known() == old(self).known()
                    &&& forall|k: Seq<char>| #[trigger] old(self).known().contains(k) ==> final(self).info(k) == old(self).info(k)
                    &&& deliver is None
                },
            },
    {
        match event {
            NetworkEvent::Joined { neighbors } => {
                let ghost before = *self;
                let ghost ids = Set::new(
                    |k: Seq<char>| exists|i: int| 0 <= i < neighbors@.len() && neighbors@[i]@ == k,
                );
                self.connected = Vec::new();
                proof {
                    let none = Set::new(|k: Seq<char>| exists|q: int| 0 <= q < 0 && neighbors@[q]@ == k);
                    assert(none =~= Set::empty());
                    assert(self.connected_set() =~= none);
                    assert(self.known() =~= before.known().union(none));
                    assert(forall|k: Seq<char>| #[trigger] before.known().contains(k) ==> self.info(k) == before.info(k));
                }
                let mut i: usize = 0;
                while i < neighbors.len()
                    invariant
                        i <= neighbors@.len(),
                        self.wf(),
                        self.connected_set() == Set::new(
                            |k: Seq<char>| exists|q: int| 0 <= q < i && neighbors@[q]@ == k,
                        ),
                        before.heard_nothing(
                            self,
                            Set::new(|k: Seq<char>| exists|q: int| 0 <= q < i && neighbors@[q]@ == k),
                        ),
                    decreases neighbors.len() - i,
                {
                    let ghost mid = *self;
                    let ghost done = Set::new(|k: Seq<char>| exists|q: int| 0 <= q < i && neighbors@[q]@ == k);
                    let ghost next = Set::new(|k: Seq<char>| exists|q: int| 0 <= q < i + 1 && neighbors@[q]@ == k);
                    assert(next =~= done.insert(neighbors@[i as int]@)) by {
                        assert forall|k: Seq<char>| #[trigger] next.contains(k) implies done.insert(neighbors@[i as int]@).contains(k) by {
                            let q = choose|q: int| 0 <= q < i + 1 && neighbors@[q]@ == k;
                            if q < i {
                                assert(done.contains(k));
                            }
                        }
                    }
                    self.connect(&neighbors[i]);
                    self.upsert(&neighbors[i], None, None);
                    proof {
                        let id = neighbors@[i as int]@;
                        assert(self.known() =~= before.known().union(next));
                        assert forall|k: Seq<char>| #[trigger] before.known().contains(k) implies self.info(k) == before.info(k) by {
                            assert(mid.known().contains(k));
                            if k != id {
                                assert(self.info(k) == mid.info(k));
                            } else {
                                assert(mid.info(k) == before.info(k));
                            }
                        }
                        assert forall|k: Seq<char>| #[trigger] next.contains(k) && !before.known().contains(k) implies self.info(k) == (
                            None::<Seq<char>>,
                            None::<u64>,
                        ) by {
                            if done.contains(k) {
                                assert(mid.known().contains(k));
                                assert(mid.info(k) == (None::<Seq<char>>, None::<u64>));
                            }
                        }
                    }
                    i = i + 1;
                }
                proof {
                    let final_ids = Set::new(|k: Seq<char>| exists|q: int| 0 <= q < i && neighbors@[q]@ == k);
                    assert(final_ids =~= ids);
                }
                None
            },
            NetworkEvent::NeighborUp { endpoint_id } => {
                self.connect(endpoint_id);
                self.upsert(endpoint_id, None, None);
                None
            },
            NetworkEvent::NeighborDown { endpoint_id } => {
                self.disconnect(endpoint_id);
                self.upsert(endpoint_id, None, None);
                None
            },
            NetworkEvent::Presence { from, nickname } => {
                if !is_local(local_id, from) {
                    self.connect(from);
                    self.upsert(from, Some(nickname.clone()), Some(now_ms));
                }
                None
            },
            NetworkEvent::MessageReceived { from, text, nickname } => {
                if is_local(local_id, from) {
                    None
                } else {
                    self.connect(from);
                    self.upsert(from, Some(nickname.clone()), Some(now_ms));
                    Some((from.clone(), text.clone()))
                }
            },
            NetworkEvent::Lagged => None,
        }
    }

    /// Every connected or known endpoint once, in increasing text order,
    /// with what is known of it and whether it is connected.
    pub fn peers(&self) -> (out: Vec<PeerStatus>)
        requires
            self.wf(),
        ensures
            texts_increasing(Seq::new(out@.len(), |a: int| out@[a].endpoint_id@)),
            forall|k: Seq<char>|
                (exists|a: int| 0 <= a < out@.len() && out@[a].endpoint_id@ == k) <==> (
                self.connected_set().contains(k) || self.known().contains(k)),
            forall|a: int|
                0 <= a < out@.len() ==> {
                    let k = #[trigger] out@[a].endpoint_id@;
                    &&& out@[a].is_connected == self.connected_set().contains(k)
                    &&& (opt_text(out@[a].nickname), out@[a].last_seen_ms) == if self.known().contains(k) {
                        self.info(k)
                    } else {
                        (None::<Seq<char>>, None::<u64>)
                    }
                },
    {
        let mut ids: Vec<String> = Vec::new();
        let mut i: usize = 0;
        assert(texts(ids@).to_set() =~= Set::empty());
        while i < self.presence.len()
            invariant
                i <= self.presence@.len(),
                texts_increasing(texts(ids@)),
                texts(ids@).to_set() == Set::new(
                    |k: Seq<char>| exists|q: int| 0 <= q < i && self.presence@[q].endpoint_id@ == k,
                ),
            decreases self.presence.len() - i,
        {
            insert_text(&mut ids, &self.presence[i].endpoint_id);
            proof {
                let next = Set::new(
                    |k: Seq<char>| exists|q: int| 0 <= q < i + 1 && self.presence@[q].endpoint_id@ == k,
                );
                let done = Set::new(
                    |k: Seq<char>| exists|q: int| 0 <= q < i && self.presence@[q].endpoint_id@ == k,
                );
                assert(next =~= done.insert(self.presence@[i as int].endpoint_id@)) by {
                    assert forall|k: Seq<char>| #[trigger] next.contains(k) implies done.insert(
                        self.presence@[i as int].endpoint_id@,
                    ).contains(k) by {
                        let q = choose|q: int| 0 <= q < i + 1 && self.presence@[q].endpoint_id@ == k;
                        if q < i {
                            assert(done.contains(k));
                        }
                    }
                }
            }
            i = i + 1;
        }
        proof {
            let all = Set::new(
                |k: Seq<char>| exists|q: int| 0 <= q < i && self.presence@[q].endpoint_id@ == k,
            );
            assert(all =~= self.known());
            let none = Set::new(|k: Seq<char>| exists|q: int| 0 <= q < 0 && self.connected@[q]@ == k);
            assert(none =~= Set::empty());
            assert(texts(ids@).to_set() =~= self.known().union(none));
        }
        let mut j: usize = 0;
        while j < self.connected.len()
            invariant
                j <= self.connected@.len(),
                texts_increasing(texts(ids@)),
                texts(ids@).to_set() == self.known().union(
                    Set::new(|k: Seq<char>| exists|q: int| 0 <= q < j && self.connected@[q]@ == k),
                ),
            decreases self.connected.len() - j,
        {
            insert_text(&mut ids, &self.connected[j]);
            proof {
                let next = Set::new(|k: Seq<char>| exists|q: int| 0 <= q < j + 1 && self.connected@[q]@ == k);
                let done = Set::new(|k: Seq<char>| exists|q: int| 0 <= q < j && self.connected@[q]@ == k);
                assert(next =~= done.insert(self.connected@[j as int]@)) by {
                    assert forall|k: Seq<char>| #[trigger] next.contains(k) implies done.insert(
                        self.connected@[j as int]@,
                    ).contains(k) by {
                        let q = choose|q: int| 0 <= q < j + 1 && self.connected@[q]@ == k;
                        if q < j {
                            assert(done.contains(k));
                        }
                    }
                }
                assert(texts(ids@).to_set() =~= self.known().union(next));
            }
            j = j + 1;
        }
        proof {
            let all = Set::new(|k: Seq<char>| exists|q: int| 0 <= q < j && self.connected@[q]@ == k);
            assert(all =~= self.connected_set());
        }
        let ghost names = texts(ids@);
        let mut out: Vec<PeerStatus> = Vec::new();
        let mut a: usize = 0;
        while a < ids.len()
            invariant
                self.wf(),
                a <= ids@.len(),
                names == texts(ids@),
                out@.len() == a,
                forall|b: int| 0 <= b < a ==> #[trigger] out@[b].endpoint_id@ == names[b],
                forall|b: int|
                    0 <= b < a ==> {
                        let k = #[trigger] out@[b].endpoint_id@;
                        &&& out@[b].is_connected == self.connected_set().contains(k)
                        &&& (opt_text(out@[b].nickname), out@[b].last_seen_ms) == if self.known().contains(k) {
                            self.info(k)
                        } else {
                            (None::<Seq<char>>, None::<u64>)
                        }
                    },
            decreases ids.len() - a,
        {
            let id = &ids[a];
            let is_connected = match self.connected_index(id) {
                Some(c) => {
                    assert(self.connected_set().contains(self.connected@[c as int]@));
                    true
                },
                None => {
                    assert(!self.connected_set().contains(id@));
                    false
                },
            };
            let (nickname, last_seen_ms) = match self.presence_index(id) {
                Some(q) => {
                    proof {
                        assert(self.known().contains(id@));
                        let c = choose|c: int|
                            0 <= c < self.presence@.len() && self.presence@[c].endpoint_id@ == id@;
                        assert(c == q as int);
                    }
                    let nick = match &self.presence[q].nickname {
                        Some(n) => Some(n.clone()),
                        None => None,
                    };
                    (nick, self.presence[q].last_seen_ms)
                },
                None => {
                    assert(!self.known().contains(id@));
                    (None, None)
                },
            };
            let ghost before = out@;
            out.push(PeerStatus { endpoint_id: id.clone(), nickname, last_seen_ms, is_connected });
            proof {
                assert(names[a as int] == ids@[a as int]@);
                assert forall|b: int| 0 <= b < a + 1 implies #[trigger] out@[b].endpoint_id@ == names[b] by {
                    if b < a {
                        assert(out@[b] == before[b]);
                    }
                }
                assert forall|b: int| 0 <= b < a + 1 implies {
                    let k = #[trigger] out@[b].endpoint_id@;
                    &&& out@[b].is_connected == self.connected_set().contains(k)
                    &&& (opt_text(out@[b].nickname), out@[b].last_seen_ms) == if self.known().contains(k) {
                        self.info(k)
                    } else {
                        (None::<Seq<char>>, None::<u64>)
                    }
                } by {
                    if b < a {
                        assert(out@[b] == before[b]);
                    }
                }
            }
            a = a + 1;
        }
        proof {
            assert(Seq::new(out@.len(), |b: int| out@[b].endpoint_id@) =~= names);
            assert forall|k: Seq<char>|
                (exists|b: int| 0 <= b < out@.len() && out@[b].endpoint_id@ == k) <==> (
                self.connected_set().contains(k) || self.known().contains(k)) by {
                if self.connected_set().contains(k) || self.known().contains(k) {
                    assert(names.to_set().contains(k));
                    let b = choose|b: int| 0 <= b < names.len() && names[b] == k;
                    assert(out@[b].endpoint_id@ == k);
                }
                if exists|b: int| 0 <= b < out@.len() && out@[b].endpoint_id@ == k {
                    let b = choose|b: int| 0 <= b < out@.len() && out@[b].endpoint_id@ == k;
                    assert(names[b] == k);
                    assert(names.to_set().contains(k));
                }
            }
        }
        out
    }
}

} // verus!
