//! The replicated state machine: commands decoded from committed log
//! entries, applied to the order processor, and snapshots of the whole
//! state.
use vstd::prelude::*;
use crate::codec::{enc_tag, enc_u64, get_tag, get_u64, holds_at, lemma_holds_split, put_tag, put_u64};
use crate::order::Order;
use crate::order_processor::{add_result, cancel_result, delist_result, place_result, OrderProcessor};
use crate::state_codec::{enc_manager, enc_order, enc_symbol, get_manager, get_order, get_symbol, lemma_join,
    lemma_manager_wf_transfer, order_view_eq, symbol_view_eq,
    put_manager, put_order, put_symbol};
use crate::symbol::Symbol;

verus! {

/// The kind of a command.
#[derive(Clone, Copy, Debug, PartialEq, Eq, Structural)]
pub enum MatchCmdType {
    PlaceOrder,
    CancelOrder,
    CreateSymbol,
    UpdateSymbol,
    RemoveSymbol,
}

/// A command with the order or the symbol it concerns.
#[derive(Debug)]
pub struct MatchCmd {
    pub cmd: MatchCmdType,
    pub order: Option<Order>,
    pub symbol: Option<Symbol>,
}

pub open spec fn cmd_tag(t: MatchCmdType) -> u8 {
    match t {
        MatchCmdType::PlaceOrder => 0,
        MatchCmdType::CancelOrder => 1,
        MatchCmdType::CreateSymbol => 2,
        MatchCmdType::UpdateSymbol => 3,
        MatchCmdType::RemoveSymbol => 4,
    }
}

/// A command: its kind, then tag 0, or tag 1 and the order, then tag 0, or
/// tag 1 and the symbol.
pub open spec fn enc_cmd(c: MatchCmd) -> Seq<u8> {
    enc_tag(cmd_tag(c.cmd)) + match c.order {
        None => enc_tag(0),
        Some(o) => enc_tag(1) + enc_order(o),
    } + match c.symbol {
        None => enc_tag(0),
        Some(s) => enc_tag(1) + enc_symbol(s),
    }
}

/// Equal commands, strings compared by their characters.
pub open spec fn cmd_view_eq(a: MatchCmd, b: MatchCmd) -> bool {
    &&& a.cmd == b.cmd
    &&& match (a.order, b.order) {
        (None, None) => true,
        (Some(x), Some(y)) => order_view_eq(x, y),
        _ => false,
    }
    &&& match (a.symbol, b.symbol) {
        (None, None) => true,
        (Some(x), Some(y)) => symbol_view_eq(x, y),
        _ => false,
    }
}

/// The command that bytes `b` are the encoding of (meaningful when there is one).
pub open spec fn cmd_of(b: Seq<u8>) -> MatchCmd {
    choose|c: MatchCmd| enc_cmd(c) == b
}

/// A snapshot: the last applied index, then the symbol registry.
pub open spec fn enc_engine(e: MatchEngine) -> Seq<u8> {
    enc_u64(e.index) + enc_manager(e.spot_processor.symbol_manager)
}

/// What applying `cmd` at `index` does to the processor `p0`, giving `p1`.
/// A command that lacks its order or symbol, and a symbol update, change
/// nothing; a refused command changes nothing either.
pub open spec fn applied(p0: OrderProcessor, p1: OrderProcessor, cmd: MatchCmd, index: u64) -> bool {
    let sm0 = p0.symbol_manager;
    let sm1 = p1.symbol_manager;
    match cmd.cmd {
        MatchCmdType::PlaceOrder => match cmd.order {
            Some(o) => exists|r| #[trigger] place_result(sm0, sm1, o, index, r),
            None => p1 == p0,
        },
        MatchCmdType::CancelOrder => match cmd.order {
            Some(o) => exists|r| #[trigger] cancel_result(sm0, sm1, o.symbol@, o.id@, r),
            None => p1 == p0,
        },
        MatchCmdType::CreateSymbol => match cmd.symbol {
            Some(s) => exists|r| #[trigger] add_result(sm0, sm1, s, r),
            None => p1 == p0,
        },
        MatchCmdType::RemoveSymbol => match cmd.symbol {
            Some(s) => exists|r| #[trigger] delist_result(sm0, sm1, s.name@, r),
            None => p1 == p0,
        },
        MatchCmdType::UpdateSymbol => p1 == p0,
    }
}

fn cmd_code(t: MatchCmdType) -> (r: u8)
    ensures
        r == cmd_tag(t),
{
    match t {
        MatchCmdType::PlaceOrder => 0,
        MatchCmdType::CancelOrder => 1,
        MatchCmdType::CreateSymbol => 2,
        MatchCmdType::UpdateSymbol => 3,
        MatchCmdType::RemoveSymbol => 4,
    }
}

fn cmd_from(t: u8) -> (r: Option<MatchCmdType>)
    ensures
        r matches Some(x) ==> cmd_tag(x) == t,
        forall|x: MatchCmdType| #[trigger] cmd_tag(x) == t ==> r == Some(x),
{
    match t {
        0 => Some(MatchCmdType::PlaceOrder),
        1 => Some(MatchCmdType::CancelOrder),
        2 => Some(MatchCmdType::CreateSymbol),
        3 => Some(MatchCmdType::UpdateSymbol),
        4 => Some(MatchCmdType::RemoveSymbol),
        _ => None,
    }
}

impl MatchCmd {
    /// The bytes that carry this command in a log entry.
    pub fn encode(&self) -> (r: Vec<u8>)
        ensures
            r@ == enc_cmd(*self),
    {
        let mut out: Vec<u8> = Vec::new();
        put_tag(&mut out, cmd_code(self.cmd));
        let ghost e0 = enc_tag(cmd_tag(self.cmd));
        proof {
            assert(out@ =~= e0);
        }
        match &self.order {
            None => put_tag(&mut out, 0),
            Some(o) => {
                put_tag(&mut out, 1);
                put_order(&mut out, o);
                proof {
                    vstd::seq_lib::lemma_concat_associative(e0, enc_tag(1), enc_order(*o));
                }
            },
        }
        let ghost e1 = out@;
        match &self.symbol {
            None => put_tag(&mut out, 0),
            Some(s) => {
                put_tag(&mut out, 1);
                put_symbol(&mut out, s);
                proof {
                    vstd::seq_lib::lemma_concat_associative(e1, enc_tag(1), enc_symbol(*s));
                }
            },
        }
        out
    }

    /// The command that `data` carries, if it is exactly one command.
    pub fn decode(data: &[u8]) -> (r: Option<MatchCmd>)
        ensures
            r matches Some(c) ==> enc_cmd(c) == data@,
            (exists|c: MatchCmd| enc_cmd(c) == data@) ==> (r matches Some(c) && cmd_view_eq(c, cmd_of(data@))),
    {
        let ghost target = if exists|c: MatchCmd| enc_cmd(c) == data@ {
            Some(cmd_of(data@))
        } else {
            None
        };
        Self::decode_at(data, Ghost(target))
    }

    #[verifier::rlimit(100)]
    fn decode_at(data: &[u8], target: Ghost<Option<MatchCmd>>) -> (r: Option<MatchCmd>)
        requires
            target@ matches Some(x) ==> enc_cmd(x) == data@,
        ensures
            r matches Some(c) ==> enc_cmd(c) == data@,
            target@ matches Some(x) ==> (r matches Some(c) && cmd_view_eq(c, x)),
    {
        proof {
            if let Some(x) = target@ {
                let op = match x.order {
                    None => enc_tag(0),
                    Some(o) => enc_tag(1) + enc_order(o),
                };
                let sp = match x.symbol {
                    None => enc_tag(0),
                    Some(s) => enc_tag(1) + enc_symbol(s),
                };
                assert(data@.subrange(0, data@.len() as int) =~= data@);
                assert(holds_at(data@, 0, enc_cmd(x)));
                lemma_holds_split(data@, 0, enc_tag(cmd_tag(x.cmd)) + op, sp);
                lemma_holds_split(data@, 0, enc_tag(cmd_tag(x.cmd)), op);
                if let Some(o) = x.order {
                    lemma_holds_split(data@, 1, enc_tag(1), enc_order(o));
                }
                if let Some(sy) = x.symbol {
                    lemma_holds_split(data@, 1 + op.len() as int, enc_tag(1), enc_symbol(sy));
                }
            }
        }
        let (t, p0) = match get_tag(data, 0) {
            Some(x) => x,
            None => {
                return None;
            },
        };
        let cmd = match cmd_from(t) {
            Some(c) => c,
            None => {
                return None;
            },
        };
        let (ot, p1) = match get_tag(data, p0) {
            Some(x) => x,
            None => {
                return None;
            },
        };
        proof {
            lemma_join(data@, 0, p0 as int, p1 as int);
        }
        let (order, p2) = if ot == 0 {
            (None, p1)
        } else if ot == 1 {
            match get_order(data, p1, Ghost(match target@ {
                Some(x) => x.order,
                None => None,
            })) {
                Some((o, p)) => {
                    proof {
                        lemma_join(data@, 0, p1 as int, p as int);
                        vstd::seq_lib::lemma_concat_associative(enc_tag(t), enc_tag(1), enc_order(o));
                    }
                    (Some(o), p)
                },
                None => {
                    return None;
                },
            }
        } else {
            return None;
        };
        let (st, p3) = match get_tag(data, p2) {
            Some(x) => x,
            None => {
                return None;
            },
        };
        proof {
            lemma_join(data@, 0, p2 as int, p3 as int);
        }
        let (symbol, p4) = if st == 0 {
            (None, p3)
        } else if st == 1 {
            match get_symbol(data, p3, Ghost(match target@ {
                Some(x) => x.symbol,
                None => None,
            })) {
                Some((s, p)) => {
                    proof {
                        lemma_join(data@, 0, p3 as int, p as int);
                        vstd::seq_lib::lemma_concat_associative(data@.subrange(0, p2 as int), enc_tag(1), enc_symbol(s));
                    }
                    (Some(s), p)
                },
                None => {
                    return None;
                },
            }
        } else {
            return None;
        };
        if p4 != data.len() {
            return None;
        }
        proof {
            assert(data@.subrange(0, p4 as int) =~= data@);
        }
        Some(MatchCmd { cmd, order, symbol })
    }
}

/// The state of the matching service: the last applied log index and the
/// order processor.
#[derive(Debug)]
pub struct MatchEngine {
    pub index: u64,
    pub spot_processor: OrderProcessor,
}

impl MatchEngine {
    pub open spec fn wf(&self) -> bool {
        self.spot_processor.wf()
    }

    /// An engine with no symbols at index 0.
    pub fn new() -> (r: MatchEngine)
        ensures
            r.wf(),
            r.index == 0,
            r.spot_processor.symbol_manager.entries@.len() == 0,
    {
        MatchEngine { index: 0, spot_processor: OrderProcessor::new() }
    }

    /// Applies `cmd`, committed at log `index` (see `applied`). Refusals are
    /// part of the state machine: the entry still counts as applied.
    pub fn apply_cmd(&mut self, index: u64, cmd: MatchCmd)
        requires
            old(self).wf(),
        ensures
            final(self).wf(),
            final(self).index == index,
            applied(old(self).spot_processor, final(self).spot_processor, cmd, index),
    {
        self.index = index;
        let MatchCmd { cmd: kind, order, symbol } = cmd;
        match kind {
            MatchCmdType::PlaceOrder => match order {
                Some(o) => {
                    let r = self.spot_processor.place_order(o, index);
                    proof {
                        assert(place_result(old(self).spot_processor.symbol_manager,
                            self.spot_processor.symbol_manager, o, index, r));
                    }
                },
                None => {},
            },
            MatchCmdType::CancelOrder => match order {
                Some(o) => {
                    let r = self.spot_processor.cancel_order(o.symbol.as_str(), o.id.as_str());
                    proof {
                        assert(cancel_result(old(self).spot_processor.symbol_manager,
                            self.spot_processor.symbol_manager, o.symbol@, o.id@, r));
                    }
                },
                None => {},
            },
            MatchCmdType::CreateSymbol => match symbol {
                Some(s) => {
                    let ghost gs = s;
                    let r = self.spot_processor.add_symbol(s);
                    proof {
                        assert(add_result(old(self).spot_processor.symbol_manager,
                            self.spot_processor.symbol_manager, gs, r));
                    }
                },
                None => {},
            },
            MatchCmdType::RemoveSymbol => match symbol {
                Some(s) => {
                    let r = self.spot_processor.del_symbol(s.name.as_str());
                    proof {
                        assert(delist_result(old(self).spot_processor.symbol_manager,
                            self.spot_processor.symbol_manager, s.name@, r));
                    }
                },
                None => {},
            },
            MatchCmdType::UpdateSymbol => {},
        }
    }

    /// Applies the log entry `data` committed at `index`: the command it
    /// carries, or nothing when it carries none.
    pub fn on_message(&mut self, index: u64, data: &[u8])
        requires
            old(self).wf(),
        ensures
            final(self).wf(),
            final(self).index == index,
            !(exists|c: MatchCmd| enc_cmd(c) == data@) ==> final(self).spot_processor == old(self).spot_processor,
            (exists|c: MatchCmd| enc_cmd(c) == data@) ==> exists|c: MatchCmd| cmd_view_eq(c, cmd_of(data@))
                && enc_cmd(c) == data@ && #[trigger] applied(old(self).spot_processor, final(self).spot_processor, c, index),
    {
        match MatchCmd::decode(data) {
            Some(c) => {
                let ghost gc = c;
                self.apply_cmd(index, c);
                proof {
                    assert(applied(old(self).spot_processor, self.spot_processor, gc, index));
                }
            },
            None => {
                self.index = index;
            },
        }
    }

    /// The whole state as bytes (see `enc_engine`).
    pub fn snapshot(&self) -> (r: Vec<u8>)
        ensures
            r@ == enc_engine(*self),
    {
        let mut out: Vec<u8> = Vec::new();
        put_u64(&mut out, self.index);
        put_manager(&mut out, &self.spot_processor.symbol_manager);
        proof {
            assert(out@ =~= enc_engine(*self));
        }
        out
    }

    /// Replaces the state by the one that `data` holds. Bytes that are not
    /// exactly one well-formed state leave the state as it was; the bytes
    /// of a well-formed state are always taken, and the state restored has
    /// exactly those bytes as its snapshot.
    pub fn on_snapshot(&mut self, data: &[u8])
        requires
            old(self).wf(),
        ensures
            final(self).wf(),
            *final(self) == *old(self) || enc_engine(*final(self)) == data@,
            (exists|e: MatchEngine| e.wf() && enc_engine(e) == data@) ==> enc_engine(*final(self)) == data@,
    {
        let ghost target: Option<MatchEngine> = if exists|e: MatchEngine| e.wf() && enc_engine(e) == data@ {
            Some(choose|e: MatchEngine| e.wf() && enc_engine(e) == data@)
        } else {
            None
        };
        proof {
            if let Some(e) = target {
                assert(data@.subrange(0, data@.len() as int) =~= data@);
                assert(holds_at(data@, 0, enc_engine(e)));
                lemma_holds_split(data@, 0, enc_u64(e.index), enc_manager(e.spot_processor.symbol_manager));
            }
        }
        let (index, p0) = match get_u64(data, 0) {
            Some(x) => x,
            None => {
                return;
            },
        };
        let (sm, p1) = match get_manager(data, p0, Ghost(match target {
            Some(e) => Some(e.spot_processor.symbol_manager),
            None => None,
        })) {
            Some(x) => x,
            None => {
                return;
            },
        };
        proof {
            if let Some(e) = target {
                lemma_manager_wf_transfer(sm, e.spot_processor.symbol_manager);
            }
        }
        if p1 != data.len() || !sm.is_well_formed() {
            return;
        }
        proof {
            lemma_join(data@, 0, p0 as int, p1 as int);
            assert(data@.subrange(0, p1 as int) =~= data@);
        }
        *self = MatchEngine { index, spot_processor: OrderProcessor { symbol_manager: sm } };
    }
}

/// Two states with the same snapshot bytes are at the same log index: a
/// state restored from a snapshot resumes exactly where the saved one
/// stopped.
pub proof fn lemma_snapshot_keeps_index(a: MatchEngine, b: MatchEngine)
    requires
        enc_engine(a) == enc_engine(b),
    ensures
        a.index == b.index,
{
    assert(enc_engine(a).subrange(0, 8) =~= enc_u64(a.index));
    assert(enc_engine(b).subrange(0, 8) =~= enc_u64(b.index));
    crate::codec::lemma_enc_u64_injective(a.index, b.index);
}

/// A state machine driven by committed log entries.
pub trait StateMachine: Sized {
    spec fn inv(&self) -> bool;

    /// What applying the entry `data` committed at `index` does: from `s0`
    /// to `s1`.
    spec fn step(s0: Self, s1: Self, index: u64, data: Seq<u8>) -> bool;

    /// The bytes that a snapshot of the state holds.
    spec fn bytes(&self) -> Seq<u8>;

    /// Whether `data` is the snapshot of a state the machine can be in.
    spec fn restorable(data: Seq<u8>) -> bool;

    /// Applies the entry committed at `index`.
    fn apply(&mut self, index: u64, data: &[u8])
        requires
            old(self).inv(),
        ensures
            final(self).inv(),
            Self::step(*old(self), *final(self), index, data@),
    ;

    /// The whole state as bytes.
    fn snapshot(&self) -> (r: Vec<u8>)
        ensures
            r@ == self.bytes(),
    ;

    /// Replaces the state by a snapshot taken at `last_index`, `last_term`:
    /// no bytes change nothing, and the snapshot of a state restores it.
    fn on_snapshot(&mut self, last_index: u64, last_term: u64, data: &[u8])
        requires
            old(self).inv(),
        ensures
            final(self).inv(),
            data@.len() == 0 ==> *final(self) == *old(self),
            Self::restorable(data@) ==> final(self).bytes() == data@,
    ;
}

/// The matching engine as the state machine of the Raft node.
#[derive(Debug)]
pub struct StateMatch {
    pub match_engine: MatchEngine,
}

impl StateMatch {
    /// A state machine over a new engine.
    pub fn new() -> (r: StateMatch)
        ensures
            r.match_engine.wf(),
            r.match_engine.index == 0,
            r.match_engine.spot_processor.symbol_manager.entries@.len() == 0,
    {
        StateMatch { match_engine: MatchEngine::new() }
    }
}

impl StateMachine for StateMatch {
    open spec fn inv(&self) -> bool {
        self.match_engine.wf()
    }

    /// The entry's command, if it carries one, is applied (see
    /// `MatchEngine::on_message`).
    open spec fn step(s0: StateMatch, s1: StateMatch, index: u64, data: Seq<u8>) -> bool {
        &&& s1.match_engine.index == index
        &&& !(exists|c: MatchCmd| enc_cmd(c) == data) ==> s1.match_engine.spot_processor == s0.match_engine.spot_processor
        &&& (exists|c: MatchCmd| enc_cmd(c) == data) ==> exists|c: MatchCmd| cmd_view_eq(c, cmd_of(data))
            && enc_cmd(c) == data
            && #[trigger] applied(s0.match_engine.spot_processor, s1.match_engine.spot_processor, c, index)
    }

    open spec fn bytes(&self) -> Seq<u8> {
        enc_engine(self.match_engine)
    }

    open spec fn restorable(data: Seq<u8>) -> bool {
        exists|e: MatchEngine| e.wf() && enc_engine(e) == data
    }

    fn apply(&mut self, index: u64, data: &[u8]) {
        self.match_engine.on_message(index, data);
    }

    fn snapshot(&self) -> (r: Vec<u8>) {
        self.match_engine.snapshot()
    }

    /// An empty snapshot leaves the state as it is.
    fn on_snapshot(&mut self, last_index: u64, last_term: u64, data: &[u8]) {
        if data.len() > 0 {
            self.match_engine.on_snapshot(data);
        }
    }
}

} // verus!
