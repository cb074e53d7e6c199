//! The decisions of a message loop.
//!
//! A `Looper` holds the messages received on its port, the tokens of its
//! handlers and its preferred handler. The loop that reads the port and calls
//! the handlers asks it, one message at a time, what to do next: deliver a
//! message to a handler, drop it, or stop.
use std::collections::VecDeque;
use vstd::prelude::*;

use crate::errors::{ErrorKind, HaikuError, B_BAD_PORT_ID};
use crate::flattenable::Flattenable;
use crate::kernel::Port;
use crate::message::Message;
use crate::messenger::Messenger;
use crate::types::{B_MESSAGE_TYPE, B_PREFERRED_TOKEN, B_QUIT_REQUESTED, QUIT};
use crate::wire::wire_ok;

verus! {

/// The first token a looper hands out; smaller values are reserved.
pub const FIRST_HANDLER_TOKEN: i32 = 3;

/// What the loop does with the next queued message.
pub enum Step {
    /// Deliver the message to the handler with this token.
    Dispatch(i32, Message),
    /// The message addresses no handler of this looper; it is dropped.
    Dropped,
    /// A request to quit reached a handler; by itself it changes nothing.
    QuitRequested,
    /// The message asked the loop to end; nothing is delivered from now on.
    Quit,
    /// The queue is empty: read the port.
    Empty,
    /// The loop has ended.
    Stopped,
}

/// The state the loop decides on.
pub ghost struct LooperView {
    pub queue: Seq<Message>,
    pub handlers: Set<i32>,
    pub preferred: i32,
    pub terminating: bool,
}

/// The handler a message for `target` goes to.
pub open spec fn resolve(target: i32, preferred: i32) -> i32 {
    if target == B_PREFERRED_TOKEN {
        preferred
    } else {
        target
    }
}

/// The kind of a step, without the message it carries.
pub ghost enum StepKind {
    Dispatch(i32),
    Dropped,
    QuitRequested,
    Quit,
    Empty,
    Stopped,
}

/// One decision of the loop: the state after it, and what it does.
pub open spec fn step(v: LooperView) -> (LooperView, StepKind) {
    if v.terminating {
        (v, StepKind::Stopped)
    } else if v.queue.len() == 0 {
        (v, StepKind::Empty)
    } else {
        let m = v.queue[0];
        let rest = LooperView { queue: v.queue.drop_first(), ..v };
        let token = resolve(m.header.target, v.preferred);
        if !v.handlers.contains(token) {
            (rest, StepKind::Dropped)
        } else if m.header.what == B_QUIT_REQUESTED {
            (rest, StepKind::QuitRequested)
        } else if m.header.what == QUIT {
            (LooperView { terminating: true, ..rest }, StepKind::Quit)
        } else {
            (rest, StepKind::Dispatch(token))
        }
    }
}

/// The kind of an executable step.
pub open spec fn kind_of(s: Step) -> StepKind {
    match s {
        Step::Dispatch(t, _) => StepKind::Dispatch(t),
        Step::Dropped => StepKind::Dropped,
        Step::QuitRequested => StepKind::QuitRequested,
        Step::Quit => StepKind::Quit,
        Step::Empty => StepKind::Empty,
        Step::Stopped => StepKind::Stopped,
    }
}

/// Slots a looper's handler table can hold.
pub const MAX_HANDLER_SLOTS: usize = 0x10000;

/// Generations a slot can go through.
pub const MAX_GENERATION: u32 = 0x7ffe;

/// The token of the handler in `slot` at `generation`.
pub open spec fn token_of(slot: int, generation: int) -> int {
    FIRST_HANDLER_TOKEN + slot + generation * MAX_HANDLER_SLOTS
}

/// The slot a token names.
pub open spec fn slot_of(token: int) -> int {
    (token - FIRST_HANDLER_TOKEN) % (MAX_HANDLER_SLOTS as int)
}

/// The generation a token names.
pub open spec fn generation_of(token: int) -> int {
    (token - FIRST_HANDLER_TOKEN) / (MAX_HANDLER_SLOTS as int)
}

/// A token names its slot and generation, and no other token does.
pub proof fn lemma_token_parts(slot: int, generation: int, token: int)
    requires
        0 <= slot < MAX_HANDLER_SLOTS,
        0 <= generation,
    ensures
        slot_of(token_of(slot, generation)) == slot,
        generation_of(token_of(slot, generation)) == generation,
        token >= FIRST_HANDLER_TOKEN ==> token == token_of(slot_of(token), generation_of(token)),
        token >= FIRST_HANDLER_TOKEN ==> 0 <= slot_of(token) < MAX_HANDLER_SLOTS && generation_of(token) >= 0,
{
    let m = MAX_HANDLER_SLOTS as int;
    assert((slot + generation * m) % m == slot && (slot + generation * m) / m == generation) by (nonlinear_arith)
        requires
            0 <= slot < m,
            0 <= generation,
            m == 0x10000,
    ;
    if token >= FIRST_HANDLER_TOKEN {
        let x = token - FIRST_HANDLER_TOKEN;
        assert(x == x % m + (x / m) * m && 0 <= x % m < m && x / m >= 0) by (nonlinear_arith)
            requires
                x >= 0,
                m == 0x10000,
        ;
    }
}

/// The handler tokens of a looper: a table of slots, each with a
/// generation that grows when the slot is reused, so that the token of a
/// removed handler never names the handler that takes its slot.
pub struct HandlerTable {
    generations: Vec<u32>,
    live: Vec<bool>,
}

impl HandlerTable {
    /// The tokens of the registered handlers.
    pub closed spec fn tokens(&self) -> Set<i32> {
        Set::new(
            |t: i32|
                t >= FIRST_HANDLER_TOKEN && slot_of(t as int) < self.live@.len() && self.live@[slot_of(
                    t as int,
                )] && self.generations@[slot_of(t as int)] == generation_of(t as int),
        )
    }

    /// The number of slots in use or worn out.
    pub closed spec fn slots(&self) -> nat {
        self.live@.len()
    }

    pub closed spec fn wf(&self) -> bool {
        &&& self.generations@.len() == self.live@.len() <= MAX_HANDLER_SLOTS
        &&& forall|i: int| 0 <= i < self.generations@.len() ==> #[trigger] self.generations@[i] <= MAX_GENERATION
    }

    /// An empty table.
    pub fn new() -> (r: HandlerTable)
        ensures
            r.wf(),
            r.tokens() == Set::<i32>::empty(),
            r.slots() == 0,
    {
        let r = HandlerTable { generations: Vec::new(), live: Vec::new() };
        assert(r.tokens() =~= Set::<i32>::empty());
        r
    }

    /// Register a handler and return its token: the first free slot is
    /// reused at its next generation, or a new slot is added. `None` when
    /// every slot is taken or worn out.
    pub fn add(&mut self) -> (r: Option<i32>)
        requires
            old(self).wf(),
        ensures
            final(self).wf(),
            r matches Some(t) ==> t >= FIRST_HANDLER_TOKEN && !old(self).tokens().contains(t)
                && final(self).tokens() == old(self).tokens().insert(t),
            r is None ==> final(self).tokens() == old(self).tokens(),
            old(self).slots() < MAX_HANDLER_SLOTS ==> r is Some,
            old(self).slots() <= final(self).slots() <= old(self).slots() + 1,
    {
        let n = self.live.len();
        let mut i: usize = 0;
        while i < n
            invariant
                n == self.live@.len() == self.generations@.len() <= MAX_HANDLER_SLOTS,
                i <= n,
                *self == *old(self),
                self.wf(),
            decreases n - i,
        {
            if !self.live[i] && self.generations[i] < MAX_GENERATION {
                let g = self.generations[i] + 1;
                let ghost before = *self;
                self.generations.set(i, g);
                self.live.set(i, true);
                assert(FIRST_HANDLER_TOKEN + i + g * 0x10000 < 0x7fffffff) by (nonlinear_arith)
                    requires
                        i < 0x10000,
                        g <= 0x7ffe,
                ;
                let t = FIRST_HANDLER_TOKEN + (i as i32) + (g as i32) * (MAX_HANDLER_SLOTS as i32);
                proof {
                    self.lemma_claimed(before, i as int, g as int, t);
                }
                return Some(t);
            }
            i = i + 1;
        }
        if n >= MAX_HANDLER_SLOTS {
            return None;
        }
        let ghost before = *self;
        self.generations.push(0);
        self.live.push(true);
        let t = FIRST_HANDLER_TOKEN + (n as i32);
        proof {
            assert(t == token_of(n as int, 0));
            self.lemma_claimed(before, n as int, 0, t);
        }
        Some(t)
    }

    /// After slot `i` is claimed at generation `g`, the table holds the
    /// token of that slot besides what it held.
    proof fn lemma_claimed(&self, before: HandlerTable, i: int, g: int, t: i32)
        requires
            before.generations@.len() == before.live@.len() <= MAX_HANDLER_SLOTS,
            0 <= i <= before.live@.len(),
            i < MAX_HANDLER_SLOTS,
            0 <= g <= MAX_GENERATION,
            i < before.live@.len() ==> !before.live@[i] && before.generations@[i] < g,
            t == token_of(i, g),
            self.live@ == (if i < before.live@.len() {
                before.live@.update(i, true)
            } else {
                before.live@.push(true)
            }),
            self.generations@ == (if i < before.live@.len() {
                before.generations@.update(i, g as u32)
            } else {
                before.generations@.push(g as u32)
            }),
            forall|j: int| 0 <= j < before.generations@.len() ==> #[trigger] before.generations@[j] <= MAX_GENERATION,
        ensures
            self.wf(),
            t >= FIRST_HANDLER_TOKEN,
            !before.tokens().contains(t),
            self.tokens() == before.tokens().insert(t),
    {
        lemma_token_parts(i, g, t as int);
        assert forall|x: i32| #![trigger self.tokens().contains(x)] self.tokens().contains(x) <==> before.tokens().insert(t).contains(x) by {
            if x >= FIRST_HANDLER_TOKEN {
                lemma_token_parts(i, g, x as int);
                if slot_of(x as int) == i && generation_of(x as int) == g {
                    assert(x == t);
                }
            }
        }
        assert(self.tokens() =~= before.tokens().insert(t));
    }

    /// Unregister the handler with `token`; whether it was registered.
    pub fn remove(&mut self, token: i32) -> (r: bool)
        requires
            old(self).wf(),
        ensures
            final(self).wf(),
            r == old(self).tokens().contains(token),
            final(self).tokens() == old(self).tokens().remove(token),
            final(self).slots() == old(self).slots(),
    {
        if !self.contains(token) {
            assert(self.tokens().remove(token) =~= self.tokens());
            return false;
        }
        let slot = ((token - FIRST_HANDLER_TOKEN) % (MAX_HANDLER_SLOTS as i32)) as usize;
        let ghost before = *self;
        self.live.set(slot, false);
        proof {
            assert forall|x: i32| #![trigger self.tokens().contains(x)] self.tokens().contains(x) <==> before.tokens().remove(token).contains(x) by {
                if x >= FIRST_HANDLER_TOKEN && slot_of(x as int) == slot as int && before.tokens().contains(x) {
                    lemma_token_parts(0, 0, x as int);
                    lemma_token_parts(0, 0, token as int);
                    assert(x == token);
                }
            }
            assert(self.tokens() =~= before.tokens().remove(token));
        }
        true
    }

    /// Whether a handler with `token` is registered.
    pub fn contains(&self, token: i32) -> (r: bool)
        requires
            self.wf(),
        ensures
            r == self.tokens().contains(token),
    {
        if token < FIRST_HANDLER_TOKEN {
            return false;
        }
        let x = token - FIRST_HANDLER_TOKEN;
        let slot = (x % (MAX_HANDLER_SLOTS as i32)) as usize;
        let generation = (x / (MAX_HANDLER_SLOTS as i32)) as u32;
        slot < self.live.len() && self.live[slot] && self.generations[slot] == generation
    }
}

/// The queue, handlers and preferred handler of one message loop.
pub struct Looper {
    name: String,
    port: Port,
    message_queue: VecDeque<Message>,
    handlers: HandlerTable,
    preferred_handler: i32,
    terminating: bool,
}

impl Looper {
    /// The state the loop decides on.
    pub closed spec fn view(&self) -> LooperView {
        LooperView {
            queue: self.message_queue@,
            handlers: self.handlers.tokens(),
            preferred: self.preferred_handler,
            terminating: self.terminating,
        }
    }

    /// The handler table is consistent.
    pub closed spec fn wf(&self) -> bool {
        self.handlers.wf()
    }

    /// The port of the loop.
    pub closed spec fn spec_port(&self) -> i32 {
        self.port.port
    }

    /// A looper named `name` on `port`, with one handler for its own state,
    /// which is its preferred handler.
    pub fn new(name: &str, port: Port) -> (r: (Looper, i32))
        ensures
            r.0.wf(),
            r.0.view().queue == Seq::<Message>::empty(),
            r.0.view().handlers == set![r.1],
            r.0.view().preferred == r.1,
            !r.0.view().terminating,
            r.0.spec_port() == port.port,
            r.0.handler_slots() <= 1,
    {
        let mut handlers = HandlerTable::new();
        let token = match handlers.add() {
            Some(t) => t,
            None => FIRST_HANDLER_TOKEN,
        };
        assert(handlers.tokens() == Set::<i32>::empty().insert(token));
        let l = Looper {
            name: name.to_owned(),
            port,
            message_queue: VecDeque::new(),
            handlers,
            preferred_handler: token,
            terminating: false,
        };
        assert(l.handlers.tokens() =~= set![token]);
        (l, token)
    }

    /// The name of the looper.
    pub fn name(&self) -> (r: &str) {
        self.name.as_str()
    }

    /// A messenger to the looper's preferred handler.
    pub fn get_messenger(&self) -> (r: Messenger)
        ensures
            r.port.port == self.spec_port(),
            r.token == B_PREFERRED_TOKEN,
    {
        match Messenger::from_port(&self.port) {
            Some(m) => m,
            None => Messenger { port: self.port.borrow(), token: B_PREFERRED_TOKEN },
        }
    }

    /// The number of queued messages.
    pub fn queue_len(&self) -> (r: usize)
        ensures
            r == self.view().queue.len(),
    {
        self.message_queue.len()
    }

    /// Whether the loop has been asked to end.
    pub fn is_terminating(&self) -> (r: bool)
        ensures
            r == self.view().terminating,
    {
        self.terminating
    }

    /// Register a new handler and return its token; `None` when the
    /// handler table is full.
    pub fn add_handler(&mut self) -> (r: Option<i32>)
        requires
            old(self).wf(),
        ensures
            final(self).wf(),
            final(self).spec_port() == old(self).spec_port(),
            r matches Some(t) ==> !old(self).view().handlers.contains(t) && final(self).view() == (
            LooperView { handlers: old(self).view().handlers.insert(t), ..old(self).view() }),
            r is None ==> final(self).view() == old(self).view(),
            old(self).handler_slots() < MAX_HANDLER_SLOTS ==> r is Some,
            old(self).handler_slots() <= final(self).handler_slots() <= old(self).handler_slots() + 1,
    {
        self.handlers.add()
    }

    /// The number of slots of the handler table in use or worn out.
    pub closed spec fn handler_slots(&self) -> nat {
        self.handlers.slots()
    }

    /// Unregister the handler with `token`; its token is not handed out
    /// again for the slot it had. Whether it was registered.
    pub fn remove_handler(&mut self, token: i32) -> (r: bool)
        requires
            old(self).wf(),
        ensures
            final(self).wf(),
            final(self).spec_port() == old(self).spec_port(),
            final(self).handler_slots() == old(self).handler_slots(),
            r == old(self).view().handlers.contains(token),
            final(self).view() == (LooperView {
                handlers: old(self).view().handlers.remove(token),
                ..old(self).view()
            }),
    {
        self.handlers.remove(token)
    }

    /// Register a new handler and make it the preferred one.
    pub fn add_preferred_handler(&mut self) -> (r: Option<i32>)
        requires
            old(self).wf(),
        ensures
            final(self).wf(),
            final(self).spec_port() == old(self).spec_port(),
            r matches Some(t) ==> !old(self).view().handlers.contains(t) && final(self).view() == (
            LooperView { handlers: old(self).view().handlers.insert(t), preferred: t, ..old(self).view() }),
            r is None ==> final(self).view() == old(self).view(),
            old(self).handler_slots() < MAX_HANDLER_SLOTS ==> r is Some,
            old(self).handler_slots() <= final(self).handler_slots() <= old(self).handler_slots() + 1,
    {
        let r = self.add_handler();
        if let Some(t) = r {
            self.preferred_handler = t;
        }
        r
    }

    /// Queue a message received on the port.
    pub fn push_message(&mut self, message: Message)
        requires
            old(self).wf(),
        ensures
            final(self).wf(),
            final(self).spec_port() == old(self).spec_port(),
            final(self).handler_slots() == old(self).handler_slots(),
            final(self).view() == (LooperView {
                queue: old(self).view().queue.push(message),
                ..old(self).view()
            }),
    {
        self.message_queue.push_back(message);
    }

    /// Take a frame read from the port: a message is queued; a frame of
    /// another type, or one that does not hold a message, fails with
    /// `InvalidData` and changes nothing.
    pub fn receive_frame(&mut self, type_code: i32, data: &[u8]) -> (r: Result<(), HaikuError>)
        requires
            old(self).wf(),
        ensures
            final(self).wf(),
            final(self).spec_port() == old(self).spec_port(),
            final(self).handler_slots() == old(self).handler_slots(),
            r is Ok <==> (type_code == B_MESSAGE_TYPE as i32 && wire_ok(data@)),
            r is Ok ==> exists|m: Message|
                Message::decodes_to(data@, m) && final(self).view() == (LooperView {
                    queue: old(self).view().queue.push(m),
                    ..old(self).view()
                }),
            r matches Err(e) ==> e.spec_kind() == ErrorKind::InvalidData && final(self).view() == old(
                self,
            ).view(),
    {
        if type_code != B_MESSAGE_TYPE as i32 {
            return Err(HaikuError::new(ErrorKind::InvalidData, "the frame does not hold a message"));
        }
        let message = Message::unflatten(data)?;
        self.push_message(message);
        Ok(())
    }

    /// Decide on the next queued message: take it from the queue, find the
    /// handler it addresses (the preferred one for the preferred token), and
    /// say whether to deliver it, drop it, or end the loop.
    pub fn dispatch_next(&mut self) -> (r: Step)
        requires
            old(self).wf(),
        ensures
            final(self).wf(),
            final(self).spec_port() == old(self).spec_port(),
            final(self).handler_slots() == old(self).handler_slots(),
            (final(self).view(), kind_of(r)) == step(old(self).view()),
            r matches Step::Dispatch(_, m) ==> m == old(self).view().queue[0],
    {
        if self.terminating {
            return Step::Stopped;
        }
        let message = match self.message_queue.pop_front() {
            Some(m) => m,
            None => return Step::Empty,
        };
        let mut token = message.header.target;
        if token == B_PREFERRED_TOKEN {
            token = self.preferred_handler;
        }
        if !self.has_handler(token) {
            return Step::Dropped;
        }
        if message.header.what == B_QUIT_REQUESTED {
            Step::QuitRequested
        } else if message.header.what == QUIT {
            self.terminating = true;
            Step::Quit
        } else {
            Step::Dispatch(token, message)
        }
    }

    /// Whether a handler with `token` is registered.
    fn has_handler(&self, token: i32) -> (r: bool)
        requires
            self.wf(),
        ensures
            r == self.view().handlers.contains(token),
    {
        self.handlers.contains(token)
    }
}

/// Whether the loop takes the next queued message after a step, given the
/// number of frames waiting on the port: after a delivered message or a
/// quit request only when nothing new is waiting, after a dropped message
/// always, and never once the queue is empty or the loop is ending.
pub open spec fn continues(kind: StepKind, terminating: bool, pending_frames: int) -> bool {
    match kind {
        StepKind::Dropped => !terminating,
        StepKind::Dispatch(_) | StepKind::QuitRequested => !terminating && pending_frames == 0,
        _ => false,
    }
}

impl Looper {
    /// Whether the loop must wait on its port for a message: its queue is
    /// empty.
    pub fn needs_read(&self) -> (r: bool)
        ensures
            r == (self.view().queue.len() == 0),
    {
        self.message_queue.len() == 0
    }

    /// Whether to take the next queued message after `step`, with
    /// `pending_frames` frames waiting on the port.
    pub fn continue_dispatch(&self, step: &Step, pending_frames: usize) -> (r: bool)
        ensures
            r == continues(kind_of(*step), self.view().terminating, pending_frames as int),
    {
        match step {
            Step::Dropped => !self.terminating,
            Step::Dispatch(_, _) | Step::QuitRequested => !self.terminating && pending_frames == 0,
            _ => false,
        }
    }

    /// Take a failed read of the port with status `code`: a port that is
    /// gone ends the loop; any other failure is retried. Whether the loop
    /// goes on.
    pub fn port_failed(&mut self, code: i32) -> (r: bool)
        requires
            old(self).wf(),
        ensures
            final(self).wf(),
            final(self).spec_port() == old(self).spec_port(),
            final(self).handler_slots() == old(self).handler_slots(),
            code == B_BAD_PORT_ID ==> final(self).view() == (LooperView { terminating: true, ..old(self).view() }),
            code != B_BAD_PORT_ID ==> final(self).view() == old(self).view(),
            r == !final(self).view().terminating,
    {
        if code == B_BAD_PORT_ID {
            self.terminating = true;
        }
        !self.terminating
    }
}

/// Looper liveness: when the queue holds two messages for registered
/// handlers, neither of them a quit request, followed by a `QUIT` message
/// for a registered handler, the next two steps deliver those two messages
/// in order, the third ends the loop, and from then on every step stops
/// without delivering anything, whatever is queued after the `QUIT`.
pub proof fn lemma_quit_ends_loop(v: LooperView)
    requires
        !v.terminating,
        v.queue.len() >= 3,
        v.handlers.contains(resolve(v.queue[0].header.target, v.preferred)),
        v.handlers.contains(resolve(v.queue[1].header.target, v.preferred)),
        v.handlers.contains(resolve(v.queue[2].header.target, v.preferred)),
        v.queue[0].header.what != QUIT && v.queue[0].header.what != B_QUIT_REQUESTED,
        v.queue[1].header.what != QUIT && v.queue[1].header.what != B_QUIT_REQUESTED,
        v.queue[2].header.what == QUIT,
    ensures
        step(v).1 == StepKind::Dispatch(resolve(v.queue[0].header.target, v.preferred)),
        step(step(v).0).1 == StepKind::Dispatch(resolve(v.queue[1].header.target, v.preferred)),
        step(step(step(v).0).0).1 == StepKind::Quit,
        step(step(step(v).0).0).0.terminating,
        ({
            let ended = step(step(step(v).0).0).0;
            step(ended) == (ended, StepKind::Stopped)
        }),
        forall|w: LooperView, m: Message|
            w.terminating ==> #[trigger] step(LooperView { queue: w.queue.push(m), ..w }).1
                == StepKind::Stopped,
{
    let v1 = step(v).0;
    let v2 = step(v1).0;
    assert(v1.queue == v.queue.drop_first());
    assert(v1.queue[0] == v.queue[1]);
    assert(v2.queue[0] == v.queue[2]);
}

} // verus!
