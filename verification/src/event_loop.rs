//! The decisions of the `select()` event loop: which descriptors to watch,
//! which connections to keep, and how the bytes a client sends are gathered
//! into lines and played. The game itself is the one of the async event
//! loop (`LoopServer`); the system calls are made outside.
use vstd::prelude::*;
use vstd::utf8::{decode_utf8, valid_utf8};
use crate::data_type::{greeting_text, view_text, GameState, GameStateView, NUM_PLAYERS};
use crate::event_loop_futures_unordered::{
    deliveries, lemma_line_step_shape, line_step, run, ClientSlot, Delivery, LoopEvent, LoopServer,
    LoopState,
};

verus! {

/// `std::str::from_utf8`: the text the bytes encode, when they are valid
/// UTF-8; nothing otherwise.
#[verifier::external_body]
fn utf8_text(bytes: &[u8]) -> (text: Option<&str>)
    ensures
        text is Some <==> valid_utf8(bytes@),
        text matches Some(t) ==> t@ == decode_utf8(bytes@),
{
    match std::str::from_utf8(bytes) {
        Ok(t) => Some(t),
        Err(_) => None,
    }
}

/// One connection of the loop: its descriptor, the bytes received that do
/// not make a complete line yet, and whether it is still open. The
/// connection at position `i` is player `i`.
pub struct Connection {
    pub fd: i32,
    pub buf: Vec<u8>,
    pub open: bool,
}

/// A line of text to write to a descriptor.
pub struct FdWrite {
    pub fd: i32,
    pub text: String,
}

/// The descriptors to watch, and the highest of them together with the
/// listening one, which is what `select` is told.
pub struct WatchSet {
    pub fds: Vec<i32>,
    pub highest: i32,
}

/// The state of the loop: the game with its clients, and their connections.
pub struct EventLoop {
    pub server: LoopServer,
    pub conns: Vec<Connection>,
}

/// What to do after an accept: keep the connection, or close it when it was
/// not admitted; and write `writes`.
pub struct AcceptOutcome {
    pub admitted: bool,
    pub writes: Vec<FdWrite>,
}

/// What to do after a read: write `writes`, then shut down the sending side
/// of each descriptor in `shutdown`; close the descriptor when `closed`.
pub struct ReadOutcome {
    pub closed: bool,
    pub writes: Vec<FdWrite>,
    pub shutdown: Vec<i32>,
}

/// The writes as (descriptor, text) pairs.
pub open spec fn fd_writes(writes: Seq<FdWrite>) -> Seq<(i32, Seq<char>)> {
    Seq::new(writes.len(), |i: int| (writes[i].fd, writes[i].text@))
}

/// Writes addressed to clients, sent to their connections' descriptors.
pub open spec fn routed(conns: Seq<Connection>, writes: Seq<(usize, Seq<char>)>) -> Seq<
    (i32, Seq<char>),
> {
    Seq::new(writes.len(), |i: int| (conns[writes[i].0 as int].fd, writes[i].1))
}

/// The position of the first newline in `b`, if any.
pub open spec fn newline_at(b: Seq<u8>) -> Option<int>
    decreases b.len(),
{
    if b.len() == 0 {
        None
    } else if b[0] == 10 {
        Some(0)
    } else {
        match newline_at(b.drop_first()) {
            Some(k) => Some(k + 1),
            None => None,
        }
    }
}

/// The text of a line of bytes; bytes that are not UTF-8 hold no text.
pub open spec fn line_text(b: Seq<u8>) -> Seq<char> {
    if valid_utf8(b) {
        decode_utf8(b)
    } else {
        Seq::empty()
    }
}

/// The effect of the bytes `buf` from the client at `index`: every complete
/// line, in order, played as a line of that client; what follows the last
/// newline is kept for later.
pub struct Drained {
    pub game: GameStateView,
    pub clients: Seq<ClientSlot>,
    pub writes: Seq<(usize, Seq<char>)>,
    pub rest: Seq<u8>,
}

pub proof fn lemma_newline_at(b: Seq<u8>)
    ensures
        match newline_at(b) {
            Some(k) => 0 <= k < b.len() && b[k] == 10 && forall|j: int| 0 <= j < k ==> b[j] != 10,
            None => forall|j: int| 0 <= j < b.len() ==> b[j] != 10,
        },
    decreases b.len(),
{
    if b.len() > 0 {
        lemma_newline_at(b.drop_first());
        if b[0] != 10 {
            assert forall|j: int| 0 < j < b.len() implies b[j] == b.drop_first()[j - 1] by {}
        }
    }
}

pub open spec fn drain(
    game: GameStateView,
    clients: Seq<ClientSlot>,
    index: int,
    buf: Seq<u8>,
) -> Drained
    decreases buf.len(),
{
    match newline_at(buf) {
        None => Drained { game, clients, writes: seq![], rest: buf },
        Some(k) => {
            proof {
                lemma_newline_at(buf);
            }
            let step = line_step(game, clients, index, line_text(buf.take(k)));
            let later = drain(step.game, step.clients, index, buf.skip(k + 1));
            Drained {
                game: later.game,
                clients: later.clients,
                writes: step.writes + later.writes,
                rest: later.rest,
            }
        },
    }
}

/// The descriptors of the connections among the first `k` whose clients'
/// part has ended between `before` and `after`.
pub open spec fn newly_done(
    before: Seq<ClientSlot>,
    after: Seq<ClientSlot>,
    conns: Seq<Connection>,
    k: int,
) -> Seq<i32>
    decreases k,
{
    if k <= 0 {
        seq![]
    } else if !before[k - 1].done && after[k - 1].done {
        newly_done(before, after, conns, k - 1).push(conns[k - 1].fd)
    } else {
        newly_done(before, after, conns, k - 1)
    }
}

/// The position of the open connection on `fd`, if there is one.
pub open spec fn find_open(conns: Seq<Connection>, fd: i32) -> Option<int> {
    if exists|i: int| 0 <= i < conns.len() && conns[i].open && conns[i].fd == fd {
        Some(choose|i: int| 0 <= i < conns.len() && conns[i].open && conns[i].fd == fd)
    } else {
        None
    }
}

/// The descriptors of the open connections, in order.
pub open spec fn open_fds(conns: Seq<Connection>) -> Seq<i32>
    decreases conns.len(),
{
    if conns.len() == 0 {
        seq![]
    } else if conns.last().open {
        open_fds(conns.drop_last()).push(conns.last().fd)
    } else {
        open_fds(conns.drop_last())
    }
}

proof fn lemma_drain_shape(
    game: GameStateView,
    clients: Seq<ClientSlot>,
    index: int,
    buf: Seq<u8>,
)
    requires
        0 <= index < clients.len(),
    ensures
        drain(game, clients, index, buf).clients.len() == clients.len(),
        forall|j: int|
            0 <= j < clients.len() ==> (#[trigger] drain(game, clients, index, buf).clients[j]).player_id
                == clients[j].player_id,
        forall|j: int|
            0 <= j < clients.len() && clients[j].done ==> (#[trigger] drain(
                game,
                clients,
                index,
                buf,
            ).clients[j]).done,
        forall|j: int|
            0 <= j < drain(game, clients, index, buf).writes.len() ==> (
            #[trigger] drain(game, clients, index, buf).writes[j]).0 < clients.len(),
    decreases buf.len(),
{
    lemma_newline_at(buf);
    if let Some(k) = newline_at(buf) {
        let step = line_step(game, clients, index, line_text(buf.take(k)));
        lemma_line_step_shape(game, clients, index, line_text(buf.take(k)));
        lemma_drain_shape(step.game, step.clients, index, buf.skip(k + 1));
        let later = drain(step.game, step.clients, index, buf.skip(k + 1));
        let all = step.writes + later.writes;
        assert forall|j: int| 0 <= j < all.len() implies (#[trigger] all[j]).0 < clients.len() by {
            if j >= step.writes.len() {
                assert(all[j] == later.writes[j - step.writes.len()]);
            }
        }
    }
}

/// The first newline in `b`.
fn find_newline(b: &Vec<u8>) -> (r: Option<usize>)
    ensures
        match newline_at(b@) {
            Some(k) => r == Some(k as usize),
            None => r is None,
        },
{
    proof {
        lemma_newline_at(b@);
    }
    let mut k: usize = 0;
    while k < b.len()
        invariant
            k <= b.len(),
            forall|j: int| 0 <= j < k ==> b@[j] != 10,
        decreases b.len() - k,
    {
        if b[k] == 10 {
            proof {
                lemma_newline_at(b@);
            }
            return Some(k);
        }
        k = k + 1;
    }
    proof {
        lemma_newline_at(b@);
    }
    None
}

/// Sends each write to the descriptor of its client's connection.
fn route(conns: &Vec<Connection>, ds: Vec<Delivery>, out: &mut Vec<FdWrite>)
    requires
        forall|j: int| 0 <= j < ds@.len() ==> (#[trigger] ds@[j]).client < conns.len(),
    ensures
        fd_writes(final(out)@) == fd_writes(old(out)@) + routed(conns@, deliveries(ds@)),
{
    let mut ds = ds;
    let ghost all = deliveries(ds@);
    let ghost start = fd_writes(out@);
    let ghost mut taken: int = 0;
    while ds.len() > 0
        invariant
            0 <= taken <= all.len(),
            deliveries(ds@) == all.skip(taken),
            fd_writes(out@) == start + routed(conns@, all.take(taken)),
            forall|j: int| 0 <= j < all.len() ==> (#[trigger] all[j]).0 < conns.len(),
        decreases ds.len(),
    {
        let ghost before = ds@;
        let ghost out_before = out@;
        assert(deliveries(before).len() == before.len());
        assert(all.skip(taken)[0] == all[taken]);
        let d = ds.remove(0);
        assert(all[taken] == deliveries(before)[0]);
        assert(deliveries(ds@) =~= deliveries(before).drop_first());
        let fd = conns[d.client].fd;
        out.push(FdWrite { fd, text: d.text });
        proof {
            assert(all.skip(taken).drop_first() =~= all.skip(taken + 1));
            assert(routed(conns@, all.take(taken + 1)) =~= routed(conns@, all.take(taken)).push(
                (fd, all[taken].1),
            ));
            assert(fd_writes(out@) =~= fd_writes(out_before).push((fd, all[taken].1)));
            taken = taken + 1;
        }
    }
    assert(all.take(taken) =~= all);
    proof {
        assert(deliveries(ds@).len() == 0);
    }
}

/// A copy of the bytes of `a` followed by those of `b`.
fn joined(a: &Vec<u8>, b: &[u8]) -> (r: Vec<u8>)
    ensures
        r@ == a@ + b@,
{
    let mut r: Vec<u8> = Vec::new();
    let mut k: usize = 0;
    while k < a.len()
        invariant
            k <= a.len(),
            r@ == a@.take(k as int),
        decreases a.len() - k,
    {
        r.push(a[k]);
        k = k + 1;
        assert(r@ =~= a@.take(k as int));
    }
    let mut k: usize = 0;
    assert(a@.take(a.len() as int) =~= a@);
    while k < b.len()
        invariant
            k <= b.len(),
            r@ == a@ + b@.take(k as int),
        decreases b.len() - k,
    {
        r.push(b[k]);
        k = k + 1;
        assert(r@ =~= a@ + b@.take(k as int));
    }
    assert(b@.take(b.len() as int) =~= b@);
    r
}

impl EventLoop {
    /// The first connections are the players, in the order they joined;
    /// connections beyond them came once all players had joined and take no
    /// part in the game. A player's connection is closed only once the
    /// player's part has ended; open connections have distinct, valid
    /// descriptors.
    pub open spec fn wf(&self) -> bool {
        &&& self.server.wf()
        &&& self.conns.len() >= self.server.clients.len()
        &&& self.conns.len() > self.server.clients.len() ==> self.server.next_player_id
            == NUM_PLAYERS
        &&& forall|i: int|
            0 <= i < self.server.clients.len() && !(#[trigger] self.conns[i]).open
                ==> self.server.clients[i].done
        &&& forall|i: int|
            self.server.clients.len() <= i < self.conns.len() ==> (#[trigger] self.conns[i]).buf@
                == Seq::<u8>::empty()
        &&& forall|i: int| 0 <= i < self.conns.len() && (#[trigger] self.conns[i]).open ==> self.conns[i].fd >= 0
        &&& forall|i: int, j: int|
            0 <= i < self.conns.len() && 0 <= j < self.conns.len() && i != j && (
            #[trigger] self.conns[i]).open && (#[trigger] self.conns[j]).open ==> self.conns[i].fd
                != self.conns[j].fd
    }

    /// A loop with the given game and no connections.
    pub fn new(initial_state: GameState) -> (s: Self)
        ensures
            s.wf(),
            s.server.game_state@ == initial_state@,
            s.server.clients@ == Seq::<ClientSlot>::empty(),
            s.server.next_player_id == 0,
            s.conns@ == Seq::<Connection>::empty(),
    {
        EventLoop { server: LoopServer::new(initial_state), conns: Vec::new() }
    }

    fn locate(&self, fd: i32) -> (r: Option<usize>)
        requires
            self.wf(),
        ensures
            match find_open(self.conns@, fd) {
                Some(i) => r == Some(i as usize),
                None => r is None,
            },
    {
        let mut k: usize = 0;
        while k < self.conns.len()
            invariant
                self.wf(),
                k <= self.conns.len(),
                forall|j: int| 0 <= j < k ==> !(self.conns[j].open && self.conns[j].fd == fd),
            decreases self.conns.len() - k,
        {
            if self.conns[k].open && self.conns[k].fd == fd {
                proof {
                    let c = choose|i: int|
                        0 <= i < self.conns.len() && self.conns[i].open && self.conns[i].fd == fd;
                    assert(c == k as int);
                }
                return Some(k);
            }
            k = k + 1;
        }
        None
    }

    /// What to watch: the descriptor of every open connection, each once,
    /// and the highest of them and `server_fd`.
    pub fn watch_set(&self, server_fd: i32) -> (w: WatchSet)
        ensures
            w.fds@ == open_fds(self.conns@),
            w.highest >= server_fd,
            forall|j: int| 0 <= j < w.fds.len() ==> w.fds[j] <= w.highest,
            w.highest == server_fd || w.fds@.contains(w.highest),
    {
        let mut fds: Vec<i32> = Vec::new();
        let mut highest = server_fd;
        let mut k: usize = 0;
        while k < self.conns.len()
            invariant
                k <= self.conns.len(),
                fds@ == open_fds(self.conns@.take(k as int)),
                highest >= server_fd,
                forall|j: int| 0 <= j < fds.len() ==> fds[j] <= highest,
                highest == server_fd || fds@.contains(highest),
            decreases self.conns.len() - k,
        {
            let ghost before = fds@;
            assert(self.conns@.take(k + 1).drop_last() =~= self.conns@.take(k as int));
            if self.conns[k].open {
                let fd = self.conns[k].fd;
                fds.push(fd);
                if fd > highest {
                    highest = fd;
                }
                proof {
                    assert(fds@[fds.len() - 1] == fd);
                    if fds@.len() > 1 && before.contains(highest) {
                        let i = choose|i: int| 0 <= i < before.len() && before[i] == highest;
                        assert(fds@[i] == before[i]);
                    }
                }
            }
            k = k + 1;
        }
        assert(self.conns@.take(self.conns.len() as int) =~= self.conns@);
        WatchSet { fds, highest }
    }

    /// A connection came in on `client_fd`. A valid descriptor that is not
    /// already open is kept and watched; while fewer than `NUM_PLAYERS` have
    /// joined it becomes the next player, who is greeted and shown the game.
    /// A failed accept, a negative descriptor, is not admitted.
    pub fn on_accept(&mut self, client_fd: i32) -> (out: AcceptOutcome)
        requires
            old(self).wf(),
        ensures
            final(self).wf(),
            out.admitted == (client_fd >= 0 && find_open(old(self).conns@, client_fd) is None),
            !out.admitted ==> final(self).server.clients@ == old(self).server.clients@
                && final(self).server.game_state@ == old(self).server.game_state@
                && final(self).server.next_player_id == old(self).server.next_player_id
                && final(self).conns@ == old(self).conns@ && out.writes@.len() == 0,
            out.admitted ==> final(self).conns.len() == old(self).conns.len() + 1 && (forall|i: int|
                0 <= i < old(self).conns.len() ==> #[trigger] final(self).conns[i]
                    == old(self).conns[i]) && final(self).conns[old(self).conns.len() as int].fd
                == client_fd && final(self).conns[old(self).conns.len() as int].open
                && final(self).conns[old(self).conns.len() as int].buf@ == Seq::<u8>::empty(),
            out.admitted && old(self).server.next_player_id >= NUM_PLAYERS ==> {
                &&& final(self).server.clients@ == old(self).server.clients@
                &&& final(self).server.game_state@ == old(self).server.game_state@
                &&& final(self).server.next_player_id == old(self).server.next_player_id
                &&& out.writes@.len() == 0
            },
            out.admitted && old(self).server.next_player_id < NUM_PLAYERS ==> {
                let p = old(self).server.next_player_id;
                &&& final(self).server.game_state@ == old(self).server.game_state@
                &&& final(self).server.next_player_id == p + 1
                &&& final(self).server.clients@ == old(self).server.clients@.push(
                    ClientSlot { player_id: p, done: false },
                )
                &&& p == old(self).conns.len()
                &&& fd_writes(out.writes@) == seq![
                    (client_fd, greeting_text(p)),
                    (client_fd, view_text(old(self).server.game_state@, p)),
                ]
            },
    {
        if client_fd < 0 {
            return AcceptOutcome { admitted: false, writes: Vec::new() };
        }
        if self.locate(client_fd).is_some() {
            return AcceptOutcome { admitted: false, writes: Vec::new() };
        }
        if self.server.next_player_id >= NUM_PLAYERS {
            // every player has joined: the connection is kept and watched
            self.conns.push(Connection { fd: client_fd, buf: Vec::new(), open: true });
            return AcceptOutcome { admitted: true, writes: Vec::new() };
        }
        let ghost p = self.server.next_player_id;
        assert(self.conns.len() == self.server.clients.len());
        let greeted = self.server.on_new_client();
        self.conns.push(Connection { fd: client_fd, buf: Vec::new(), open: true });
        let mut writes: Vec<FdWrite> = Vec::new();
        assert(deliveries(greeted.writes@).len() == greeted.writes@.len());
        assert forall|j: int| 0 <= j < greeted.writes@.len() implies (
        #[trigger] greeted.writes@[j]).client < self.conns.len() by {
            assert(deliveries(greeted.writes@)[j].0 == greeted.writes@[j].client);
            if j == 0 {
                assert(deliveries(greeted.writes@)[0].0 == greeted.index);
            } else {
                assert(deliveries(greeted.writes@)[1].0 == greeted.index);
            }
        }
        route(&self.conns, greeted.writes, &mut writes);
        assert(fd_writes(writes@) =~= seq![
            (client_fd, greeting_text(p)),
            (client_fd, view_text(self.server.game_state@, p)),
        ]);
        AcceptOutcome { admitted: true, writes }
    }

    /// A read on `fd` returned `bytes_read`, with the bytes in `data`.
    /// Nothing read means the client went away: its part ends and the
    /// descriptor is closed. Otherwise the bytes are added to the client's
    /// buffer and each complete line is played; the descriptors of clients
    /// whose part ended are shut down after the writes.
    pub fn on_read(&mut self, fd: i32, bytes_read: isize, data: &[u8]) -> (out: ReadOutcome)
        requires
            old(self).wf(),
        ensures
            final(self).wf(),
            final(self).server.next_player_id == old(self).server.next_player_id,
            final(self).conns.len() == old(self).conns.len(),
            match find_open(old(self).conns@, fd) {
                None => {
                    &&& final(self).server.game_state@ == old(self).server.game_state@
                    &&& final(self).server.clients@ == old(self).server.clients@
                    &&& final(self).conns@ == old(self).conns@
                    &&& !out.closed
                    &&& out.writes@.len() == 0
                    &&& out.shutdown@.len() == 0
                },
                Some(i) => {
                    &&& forall|j: int|
                        0 <= j < old(self).conns.len() && j != i ==> #[trigger] final(self).conns[j]
                            == old(self).conns[j]
                    &&& final(self).conns[i].fd == fd
                    &&& if i >= old(self).server.clients.len() {
                        &&& out.closed == (bytes_read <= 0)
                        &&& final(self).conns[i].open == (bytes_read > 0)
                        &&& final(self).conns[i].buf@ == old(self).conns[i].buf@
                        &&& final(self).server.game_state@ == old(self).server.game_state@
                        &&& final(self).server.clients@ == old(self).server.clients@
                        &&& out.writes@.len() == 0
                        &&& out.shutdown@.len() == 0
                    } else if bytes_read <= 0 {
                        &&& out.closed
                        &&& !final(self).conns[i].open
                        &&& final(self).server.game_state@ == old(self).server.game_state@
                        &&& final(self).server.clients@ == old(self).server.clients@.update(
                            i,
                            ClientSlot {
                                player_id: old(self).server.clients@[i].player_id,
                                done: true,
                            },
                        )
                        &&& out.writes@.len() == 0
                        &&& out.shutdown@.len() == 0
                    } else {
                        let d = drain(
                            old(self).server.game_state@,
                            old(self).server.clients@,
                            i,
                            old(self).conns[i].buf@ + data@,
                        );
                        &&& !out.closed
                        &&& final(self).conns[i].open
                        &&& final(self).conns[i].buf@ == d.rest
                        &&& final(self).server.game_state@ == d.game
                        &&& final(self).server.clients@ == d.clients
                        &&& fd_writes(out.writes@) == routed(old(self).conns@, d.writes)
                        &&& out.shutdown@ == newly_done(
                            old(self).server.clients@,
                            d.clients,
                            old(self).conns@,
                            old(self).server.clients.len() as int,
                        )
                    }
                },
            },
    {
        let found = self.locate(fd);
        let i = match found {
            None => {
                return ReadOutcome { closed: false, writes: Vec::new(), shutdown: Vec::new() };
            },
            Some(i) => i,
        };
        if i >= self.server.clients.len() {
            // a connection beyond the players: its bytes play no part
            if bytes_read <= 0 {
                self.conns.set(i, Connection { fd, buf: Vec::new(), open: false });
                assert(self.conns[i as int].buf@ =~= old(self).conns[i as int].buf@) by {
                    assert(old(self).conns[i as int].buf@ == Seq::<u8>::empty());
                }
                return ReadOutcome { closed: true, writes: Vec::new(), shutdown: Vec::new() };
            }
            return ReadOutcome { closed: false, writes: Vec::new(), shutdown: Vec::new() };
        }
        if bytes_read <= 0 {
            self.server.retire(i);
            self.conns.set(i, Connection { fd, buf: Vec::new(), open: false });
            return ReadOutcome { closed: true, writes: Vec::new(), shutdown: Vec::new() };
        }
        let ghost clients0 = self.server.clients@;
        let ghost conns0 = self.conns@;
        let ghost d0 = drain(self.server.game_state@, self.server.clients@, i as int, self.conns[i as int].buf@ + data@);
        proof {
            lemma_drain_shape(self.server.game_state@, self.server.clients@, i as int, self.conns[i as int].buf@ + data@);
        }
        // what the clients' parts were before the bytes are played
        let mut before_done: Vec<bool> = Vec::new();
        let mut k: usize = 0;
        while k < self.server.clients.len()
            invariant
                k <= self.server.clients.len(),
                self.server.clients@ == clients0,
                before_done.len() == k,
                forall|j: int| 0 <= j < k ==> before_done[j] == clients0[j].done,
            decreases self.server.clients.len() - k,
        {
            before_done.push(self.server.clients[k].done);
            k = k + 1;
        }
        let mut pending = joined(&self.conns[i].buf, data);
        let mut played: Vec<Delivery> = Vec::new();
        loop
            invariant
                self.server.wf(),
                self.conns@ == conns0,
                conns0.len() >= clients0.len(),
                i < clients0.len(),
                self.server.next_player_id == old(self).server.next_player_id,
                self.server.clients.len() == clients0.len(),
                forall|j: int|
                    0 <= j < clients0.len() ==> (#[trigger] self.server.clients@[j]).player_id
                        == clients0[j].player_id,
                forall|j: int|
                    0 <= j < clients0.len() && clients0[j].done ==> (
                    #[trigger] self.server.clients@[j]).done,
                forall|j: int| 0 <= j < played@.len() ==> (#[trigger] played@[j]).client < clients0.len(),
                d0.game == drain(self.server.game_state@, self.server.clients@, i as int, pending@).game,
                d0.clients == drain(self.server.game_state@, self.server.clients@, i as int, pending@).clients,
                d0.rest == drain(self.server.game_state@, self.server.clients@, i as int, pending@).rest,
                d0.writes == deliveries(played@) + drain(
                    self.server.game_state@,
                    self.server.clients@,
                    i as int,
                    pending@,
                ).writes,
            ensures
                self.server.wf(),
                self.conns@ == conns0,
                self.server.next_player_id == old(self).server.next_player_id,
                forall|j: int| 0 <= j < played@.len() ==> (#[trigger] played@[j]).client < clients0.len(),
                d0.game == self.server.game_state@,
                d0.clients == self.server.clients@,
                d0.rest == pending@,
                d0.writes == deliveries(played@),
            decreases pending.len(),
        {
            let ghost g = self.server.game_state@;
            let ghost cl = self.server.clients@;
            let ghost buf = pending@;
            let found_newline = find_newline(&pending);
            match found_newline {
                None => {
                    assert(deliveries(played@) + Seq::<(usize, Seq<char>)>::empty() =~= deliveries(played@));
                    break;
                },
                Some(nl) => {
                    proof {
                        lemma_newline_at(buf);
                    }
                    let rest = pending.split_off(nl + 1);
                    let _ = pending.pop();
                    assert(pending@ =~= buf.take(nl as int));
                    assert(rest@ =~= buf.skip(nl + 1));
                    let ghost text = line_text(buf.take(nl as int));
                    proof {
                        lemma_line_step_shape(g, cl, i as int, text);
                    }
                    let step = match utf8_text(pending.as_slice()) {
                        Some(t) => self.server.on_line(i, t),
                        None => {
                            proof {
                                reveal_strlit("");
                            }
                            self.server.on_line(i, "")
                        },
                    };
                    let ghost before = played@;
                    let mut w = step.writes;
                    assert(forall|j: int| 0 <= j < w@.len() ==> (#[trigger] deliveries(w@)[j]).0 == w@[j].client);
                    played.append(&mut w);
                    proof {
                        assert(deliveries(played@) =~= deliveries(before) + line_step(g, cl, i as int, text).writes);
                        assert forall|j: int| 0 <= j < played@.len() implies (#[trigger] played@[j]).client < clients0.len() by {
                            if j >= before.len() {
                                assert(played@[j] == step.writes@[j - before.len()]);
                                assert(deliveries(step.writes@)[j - before.len()].0 == played@[j].client);
                            }
                        }
                    }
                    pending = rest;
                },
            }
        }
        let mut writes: Vec<FdWrite> = Vec::new();
        route(&self.conns, played, &mut writes);
        let mut shutdown: Vec<i32> = Vec::new();
        let mut k: usize = 0;
        while k < self.server.clients.len()
            invariant
                k <= self.server.clients.len(),
                self.conns@ == conns0,
                conns0.len() >= clients0.len(),
                self.server.clients@ == d0.clients,
                d0.clients.len() == clients0.len(),
                before_done.len() == clients0.len(),
                forall|j: int| 0 <= j < clients0.len() ==> before_done[j] == clients0[j].done,
                shutdown@ == newly_done(clients0, d0.clients, conns0, k as int),
            decreases self.server.clients.len() - k,
        {
            if !before_done[k] && self.server.clients[k].done {
                shutdown.push(self.conns[k].fd);
            }
            k = k + 1;
        }
        self.conns.set(i, Connection { fd, buf: pending, open: true });
        ReadOutcome { closed: false, writes, shutdown }
    }
}

} // verus!

verus! {

/// The complete lines of `buf`, as lines sent by the client at `index`.
pub open spec fn line_events(buf: Seq<u8>, index: int) -> Seq<LoopEvent>
    decreases buf.len(),
{
    match newline_at(buf) {
        None => seq![],
        Some(k) => {
            proof {
                lemma_newline_at(buf);
            }
            seq![LoopEvent::Line(index, line_text(buf.take(k)))] + line_events(buf.skip(k + 1), index)
        },
    }
}

/// The bytes of one read are played as the async loop plays the same lines
/// one event at a time; so every law over runs of the async loop
/// (`law_one_winner_per_run`, `law_first_correct_line_wins`) holds of this
/// loop too, a read counting as the run of its lines and an accept as a join
/// (which, once every player has joined, changes nothing).
pub proof fn law_read_is_run_of_lines(
    game: GameStateView,
    clients: Seq<ClientSlot>,
    index: int,
    buf: Seq<u8>,
)
    requires
        0 <= index < clients.len(),
    ensures
        drain(game, clients, index, buf).game == run(
            LoopState { game, clients },
            line_events(buf, index),
        ).0.game,
        drain(game, clients, index, buf).clients == run(
            LoopState { game, clients },
            line_events(buf, index),
        ).0.clients,
        drain(game, clients, index, buf).writes == run(
            LoopState { game, clients },
            line_events(buf, index),
        ).1,
    decreases buf.len(),
{
    lemma_newline_at(buf);
    if let Some(k) = newline_at(buf) {
        let e = LoopEvent::Line(index, line_text(buf.take(k)));
        let step = line_step(game, clients, index, line_text(buf.take(k)));
        lemma_line_step_shape(game, clients, index, line_text(buf.take(k)));
        law_read_is_run_of_lines(step.game, step.clients, index, buf.skip(k + 1));
        let evs = line_events(buf, index);
        assert(evs[0] == e);
        assert(evs.drop_first() =~= line_events(buf.skip(k + 1), index));
    } else {
        let r = run(LoopState { game, clients }, line_events(buf, index));
        assert(line_events(buf, index).len() == 0);
    }
}

} // verus!
