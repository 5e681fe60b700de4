//! The decisions of a mining client. The client's loop hands in what
//! happened (the ticker fired, the node replied, the worker found a block)
//! and carries out what comes back.
use vstd::prelude::*;
use crate::crypto::PublicKey;
use crate::network::{Message, MessageView};
use crate::types::block::{Block, BlockHeader, BlockView};

verus! {

/// The reply that the client waits for.
#[derive(Clone, Copy, Debug, PartialEq, Eq, Structural)]
pub enum Pending {
    /// No request is open.
    Nothing,
    /// A template was asked for.
    Template,
    /// The node was asked whether the template is still good.
    Validity,
}

/// What happened.
#[derive(Clone, Debug, PartialEq, Eq)]
pub enum Event {
    /// The ticker fired.
    Tick,
    /// The node sent a message.
    Reply(Message),
    /// The worker found a nonce for the template.
    Mined(Block),
}

/// An event as a mathematical value.
pub enum EventView {
    Tick,
    Reply(MessageView),
    Mined(BlockView),
}

impl View for Event {
    type V = EventView;

    open spec fn view(&self) -> EventView {
        match *self {
            Event::Tick => EventView::Tick,
            Event::Reply(message) => EventView::Reply(message@),
            Event::Mined(block) => EventView::Mined(block@),
        }
    }
}

/// What the client's loop is to do.
#[derive(Clone, Debug, PartialEq, Eq)]
pub enum Action {
    /// Nothing.
    Wait,
    /// Send the message to the node.
    Send(Message),
    /// End the session: the node sent what was not asked for.
    Fail,
}

/// An action as a mathematical value.
pub enum ActionView {
    Wait,
    Send(MessageView),
    Fail,
}

impl View for Action {
    type V = ActionView;

    open spec fn view(&self) -> ActionView {
        match *self {
            Action::Wait => ActionView::Wait,
            Action::Send(message) => ActionView::Send(message@),
            Action::Fail => ActionView::Fail,
        }
    }
}

/// The state of a mining client.
#[derive(Clone, Debug, PartialEq, Eq)]
pub struct Miner {
    /// The key that mined blocks pay.
    pub public_key: PublicKey,
    /// The template that is being mined, if any.
    pub current_template: Option<Block>,
    /// Whether the worker is to search.
    pub mining: bool,
    /// The reply that is waited for.
    pub pending: Pending,
}

/// The state of a mining client as a mathematical value.
pub struct MinerView {
    pub public_key: PublicKey,
    pub current_template: Option<BlockView>,
    pub mining: bool,
    pub pending: Pending,
}

impl View for Miner {
    type V = MinerView;

    open spec fn view(&self) -> MinerView {
        MinerView {
            public_key: self.public_key,
            current_template: match self.current_template {
                Some(block) => Some(block@),
                None => None,
            },
            mining: self.mining,
            pending: self.pending,
        }
    }
}

impl MinerView {
    /// What the ticker does: while a reply is open, nothing; an idle client
    /// asks for a template; a mining client asks whether its template is
    /// still good.
    pub open spec fn on_tick(self) -> (MinerView, ActionView) {
        if self.pending != Pending::Nothing {
            (self, ActionView::Wait)
        } else if !self.mining {
            (
                MinerView { pending: Pending::Template, ..self },
                ActionView::Send(MessageView::FetchTemplate(self.public_key)),
            )
        } else {
            match self.current_template {
                Some(template) => (
                    MinerView { pending: Pending::Validity, ..self },
                    ActionView::Send(MessageView::ValidateTemplate(template)),
                ),
                None => (self, ActionView::Wait),
            }
        }
    }

    /// What a message from the node does: a template that was asked for is
    /// taken and mining starts; a verdict that was asked for stops mining
    /// where it is negative; anything else ends the session.
    pub open spec fn on_reply(self, message: MessageView) -> (MinerView, ActionView) {
        let closed = MinerView { pending: Pending::Nothing, ..self };
        match (self.pending, message) {
            (Pending::Template, MessageView::Template(template)) => (
                MinerView { current_template: Some(template), mining: true, ..closed },
                ActionView::Wait,
            ),
            (Pending::Validity, MessageView::TemplateValidity(valid)) => (
                MinerView { mining: self.mining && valid, ..closed },
                ActionView::Wait,
            ),
            _ => (closed, ActionView::Fail),
        }
    }

    /// What a mined block does: it is handed in, and mining stops until the
    /// next template.
    pub open spec fn on_mined(self, block: BlockView) -> (MinerView, ActionView) {
        (MinerView { mining: false, ..self }, ActionView::Send(MessageView::SubmitTemplate(block)))
    }

    /// The state after an event, and what is to be done.
    pub open spec fn step(self, event: EventView) -> (MinerView, ActionView) {
        match event {
            EventView::Tick => self.on_tick(),
            EventView::Reply(message) => self.on_reply(message),
            EventView::Mined(block) => self.on_mined(block),
        }
    }
}

impl Miner {
    /// An idle client that mines for `public_key`.
    pub fn new(public_key: PublicKey) -> (miner: Miner)
        ensures
            miner@ == (MinerView {
                public_key,
                current_template: None,
                mining: false,
                pending: Pending::Nothing,
            }),
    {
        Miner { public_key, current_template: None, mining: false, pending: Pending::Nothing }
    }

    /// Takes an event, moves to the next state and says what is to be done.
    pub fn step(&mut self, event: Event) -> (action: Action)
        ensures
            (final(self)@, action@) == old(self)@.step(event@),
    {
        match event {
            Event::Tick => {
                if self.pending != Pending::Nothing {
                    Action::Wait
                } else if !self.mining {
                    self.pending = Pending::Template;
                    Action::Send(Message::FetchTemplate(self.public_key))
                } else {
                    match &self.current_template {
                        Some(template) => {
                            let copy = template.duplicate();
                            self.pending = Pending::Validity;
                            Action::Send(Message::ValidateTemplate(copy))
                        },
                        None => Action::Wait,
                    }
                }
            },
            Event::Reply(message) => {
                let pending = self.pending;
                self.pending = Pending::Nothing;
                match (pending, message) {
                    (Pending::Template, Message::Template(template)) => {
                        self.current_template = Some(template);
                        self.mining = true;
                        Action::Wait
                    },
                    (Pending::Validity, Message::TemplateValidity(valid)) => {
                        self.mining = self.mining && valid;
                        Action::Wait
                    },
                    _ => Action::Fail,
                }
            },
            Event::Mined(block) => {
                self.mining = false;
                Action::Send(Message::SubmitTemplate(block))
            },
        }
    }

    /// One turn of the worker: where the client is mining and has a
    /// template, a copy of the template is searched for up to `steps`
    /// further nonces, and comes back if it is solved. The client's own
    /// template is left as it is.
    pub fn search(&self, steps: usize) -> (found: Option<Block>)
        ensures
            match found {
                Some(block) => {
                    &&& self.mining
                    &&& self@.current_template matches Some(template)
                    &&& block@.transactions == template.transactions
                    &&& template.header.mined_to(steps, block@.header, true)
                },
                None => !self.mining || self@.current_template is None || exists|left: BlockHeader|
                    self@.current_template.unwrap().header.mined_to(steps, left, false),
            },
    {
        if !self.mining {
            return None;
        }
        match &self.current_template {
            Some(template) => {
                let mut copy = template.duplicate();
                let ghost start = copy@;
                let solved = copy.header.mine(steps);
                assert(start.header.mined_to(steps, copy.header, solved));
                assert(copy@.transactions == start.transactions);
                assert(self@.current_template == Some(start));
                if solved {
                    Some(copy)
                } else {
                    assert(self@.current_template.unwrap().header.mined_to(
                        steps,
                        copy.header,
                        false,
                    ));
                    None
                }
            },
            None => None,
        }
    }
}

} // verus!
