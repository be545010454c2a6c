//! Relay commands, the queue they wait in, and the task that carries them out.
//!
//! The relay task alone owns the outputs. Every other part of the program goes
//! through a [`RelayControl`], which holds no outputs, so no network-facing code
//! can switch a relay directly.

use vstd::prelude::*;

use embassy_sync::blocking_mutex::raw::NoopRawMutex;
use embassy_sync::channel::{Channel, TrySendError};

use crate::board::{RelayBank, RELAY_COUNT};

verus! {

/// How many commands may wait for the relay task.
pub const COMMAND_QUEUE_DEPTH: usize = 8;

/// A change of relay state that the relay task is asked to make.
#[derive(Clone, Copy, Debug, PartialEq, Eq, Structural)]
pub enum RelayCommand {
    /// Switch one relay.
    Switch { index: usize, on: bool },
    /// Switch every relay on.
    AllOn,
    /// Switch every relay off.
    AllOff,
}

/// Why a request is refused.
#[derive(Clone, Copy, Debug, PartialEq, Eq, Structural)]
pub enum RelayError {
    /// The board has no relay of that index.
    InvalidIndex,
}

/// What became of a command that was offered to the queue.
#[derive(Clone, Copy, Debug, PartialEq, Eq, Structural)]
pub enum Submission {
    /// The command waits in the queue, behind those that were there.
    Accepted,
    /// The queue has no room and was left alone: offer the command again later.
    Full,
}

/// Whether the mask shows a relay as on: bit 0 is relay 0, bit 1 is relay 1, and so on.
pub open spec fn relay_bit(mask: u32, relay: u32) -> bool {
    mask & (1u32 << relay) != 0
}

/// The mask shows exactly the relays that are on, and no bit beyond them is set.
pub open spec fn mask_shows(mask: u32, on: Seq<bool>) -> bool {
    forall|relay: u32|
        relay < 32 ==> #[trigger] relay_bit(mask, relay) == (relay < on.len() && on[relay as int])
}

impl RelayCommand {
    /// The command names no relay that the board lacks.
    pub open spec fn is_valid(self) -> bool {
        self matches RelayCommand::Switch { index, .. } ==> index < RELAY_COUNT
    }

    /// The command says of a relay whether it is to be on.
    pub open spec fn says(self, relay: int) -> Option<bool> {
        match self {
            RelayCommand::Switch { index, on } => if index == relay {
                Some(on)
            } else {
                None
            },
            RelayCommand::AllOn => Some(true),
            RelayCommand::AllOff => Some(false),
        }
    }

    /// Whether the command is about a relay; it leaves every other one as it is.
    pub fn concerns(self, relay: usize) -> (concerned: bool)
        ensures
            concerned == self.says(relay as int) is Some,
    {
        match self {
            RelayCommand::Switch { index, .. } => index == relay,
            RelayCommand::AllOn | RelayCommand::AllOff => true,
        }
    }

    /// Which relays are on once the command was carried out where `on` were on before.
    pub open spec fn applied(self, on: Seq<bool>) -> Seq<bool> {
        match self {
            RelayCommand::Switch { index, on: state } => if index < on.len() {
                on.update(index as int, state)
            } else {
                on
            },
            RelayCommand::AllOn => Seq::new(on.len(), |i: int| true),
            RelayCommand::AllOff => Seq::new(on.len(), |i: int| false),
        }
    }

    /// The mask once the command was carried out where it was `mask` before.
    pub open spec fn applied_mask(self, mask: u32) -> u32 {
        match self {
            RelayCommand::Switch { index, on } => if index >= RELAY_COUNT {
                mask
            } else if on {
                mask | (1u32 << (index as u32))
            } else {
                mask & !(1u32 << (index as u32))
            },
            RelayCommand::AllOn => 0b1_1111,
            RelayCommand::AllOff => 0,
        }
    }
}

/// Which relays are on once `commands` were carried out one after another, the first one first,
/// where `on` were on before.
pub open spec fn run(commands: Seq<RelayCommand>, on: Seq<bool>) -> Seq<bool>
    decreases commands.len(),
{
    if commands.len() == 0 {
        on
    } else {
        commands.last().applied(run(commands.drop_last(), on))
    }
}

/// The mask once `commands` were carried out one after another, the first one first, where it
/// was `mask` before.
pub open spec fn run_mask(commands: Seq<RelayCommand>, mask: u32) -> u32
    decreases commands.len(),
{
    if commands.len() == 0 {
        mask
    } else {
        commands.last().applied_mask(run_mask(commands.drop_last(), mask))
    }
}

/// A first-in, first-out queue of at most `COMMAND_QUEUE_DEPTH` commands. It is only ever used
/// through an exclusive borrow, so its channel needs no lock of its own.
#[verifier::external_body]
pub struct CommandQueue {
    channel: Channel<NoopRawMutex, RelayCommand, COMMAND_QUEUE_DEPTH>,
}

/// The commands that wait in a queue, the oldest first.
pub uninterp spec fn queued(queue: CommandQueue) -> Seq<RelayCommand>;

impl CommandQueue {
    /// Calls `embassy_sync::channel::Channel::new`, which makes a channel that holds no message.
    #[verifier::external_body]
    fn new() -> (queue: CommandQueue)
        ensures
            queued(queue) == Seq::<RelayCommand>::empty(),
    {
        CommandQueue { channel: Channel::new() }
    }

    /// Calls `embassy_sync::channel::Channel::try_send`, the attempt that an awaited send repeats
    /// until it succeeds. A message goes behind those that wait if fewer than the channel's
    /// capacity wait there; otherwise it comes back and the channel stays as it was.
    #[verifier::external_body]
    fn try_send(&mut self, command: RelayCommand) -> (result: Result<(), RelayCommand>)
        ensures
            match result {
                Ok(()) => {
                    &&& queued(*old(self)).len() < COMMAND_QUEUE_DEPTH
                    &&& queued(*final(self)) == queued(*old(self)).push(command)
                },
                Err(returned) => {
                    &&& queued(*old(self)).len() >= COMMAND_QUEUE_DEPTH
                    &&& returned == command
                    &&& queued(*final(self)) == queued(*old(self))
                },
            },
    {
        match self.channel.try_send(command) {
            Ok(()) => Ok(()),
            Err(TrySendError::Full(returned)) => Err(returned),
        }
    }

    /// Calls `embassy_sync::channel::Channel::try_receive`. The message that waited longest
    /// leaves the channel; where none waits there is none to receive.
    #[verifier::external_body]
    fn try_receive(&mut self) -> (received: Option<RelayCommand>)
        ensures
            match received {
                Some(command) => {
                    &&& queued(*old(self)).len() > 0
                    &&& command == queued(*old(self))[0]
                    &&& queued(*final(self)) == queued(*old(self)).skip(1)
                },
                None => {
                    &&& queued(*old(self)).len() == 0
                    &&& queued(*final(self)) == queued(*old(self))
                },
            },
    {
        self.channel.try_receive().ok()
    }
}

/// The requests that wait for the relay task, and the relay state that it last made known.
///
/// It deliberately holds no outputs: those stay with the relay task, which carries out
/// one request after another.
pub struct RelayControl {
    commands: CommandQueue,
    state: u32,
}

impl RelayControl {
    /// The commands that wait for the relay task, the oldest first.
    pub closed spec fn commands(self) -> Seq<RelayCommand> {
        queued(self.commands)
    }

    /// The relay state last made known, one bit per relay.
    pub closed spec fn mask(self) -> u32 {
        self.state
    }

    /// Every waiting command names a relay of the board, and there are no more of them than
    /// the queue has room for.
    pub open spec fn wf(self) -> bool {
        &&& self.commands().len() <= COMMAND_QUEUE_DEPTH
        &&& forall|i: int| 0 <= i < self.commands().len() ==> (#[trigger] self.commands()[i]).is_valid()
    }

    /// What a caller learns of a command that it offers, and what that does to the queue.
    pub open spec fn submitted(self, command: RelayCommand, after: Self, result: Submission) -> bool {
        &&& after.mask() == self.mask()
        &&& if self.commands().len() < COMMAND_QUEUE_DEPTH {
            &&& result == Submission::Accepted
            &&& after.commands() == self.commands().push(command)
        } else {
            &&& result == Submission::Full
            &&& after.commands() == self.commands()
        }
    }

    /// No command waits, and every relay is shown as off.
    pub fn new() -> (control: RelayControl)
        ensures
            control.commands() == Seq::<RelayCommand>::empty(),
            control.mask() == 0,
            control.wf(),
    {
        RelayControl { commands: CommandQueue::new(), state: 0 }
    }

    /// Offer a command to the queue.
    fn submit(&mut self, command: RelayCommand) -> (result: Submission)
        ensures
            old(self).submitted(command, *final(self), result),
            old(self).wf() && command.is_valid() ==> final(self).wf(),
    {
        match self.commands.try_send(command) {
            Ok(()) => Submission::Accepted,
            Err(_) => Submission::Full,
        }
    }

    /// Ask for one relay to be switched. Acceptance means that the request waits in the queue;
    /// the relay task carries out the requests in the order in which they were accepted.
    pub fn set(&mut self, index: usize, on: bool) -> (result: Result<Submission, RelayError>)
        ensures
            result is Ok <==> index < RELAY_COUNT,
            result matches Ok(submission) ==> old(self).submitted(
                (RelayCommand::Switch { index, on }),
                *final(self),
                submission,
            ),
            result matches Err(error) ==> error == RelayError::InvalidIndex && *final(self)
                == *old(self),
            old(self).wf() ==> final(self).wf(),
    {
        if index >= RELAY_COUNT {
            return Err(RelayError::InvalidIndex);
        }
        Ok(self.submit(RelayCommand::Switch { index, on }))
    }

    /// Ask for every relay to be switched on.
    pub fn all_on(&mut self) -> (result: Submission)
        ensures
            old(self).submitted(RelayCommand::AllOn, *final(self), result),
            old(self).wf() ==> final(self).wf(),
    {
        self.submit(RelayCommand::AllOn)
    }

    /// Ask for the safe state: every relay off.
    pub fn all_off(&mut self) -> (result: Submission)
        ensures
            old(self).submitted(RelayCommand::AllOff, *final(self), result),
            old(self).wf() ==> final(self).wf(),
    {
        self.submit(RelayCommand::AllOff)
    }

    /// One bit per relay: bit 0 is relay 0, bit 1 is relay 1, and so on.
    pub fn state_mask(&self) -> (mask: u32)
        ensures
            mask == self.mask(),
    {
        self.state
    }
}

/// Put the relays into the safe state before any command is carried out. Commands that wait
/// already go on waiting.
pub fn start(control: &mut RelayControl, relays: &mut RelayBank<RELAY_COUNT>)
    ensures
        final(control).commands() == old(control).commands(),
        final(control).mask() == 0,
        final(relays).active_high() == old(relays).active_high(),
        final(relays).on() == Seq::new(RELAY_COUNT as nat, |i: int| false),
        mask_shows(final(control).mask(), final(relays).on()),
        old(control).wf() ==> final(control).wf(),
{
    relays.all_off();
    control.state = 0;
    proof {
        lemma_mask_none();
    }
}

/// One turn of the relay task: carry out the command that waited longest, then make the new
/// relay state known. Where no command waits nothing changes.
pub fn relay_task(control: &mut RelayControl, relays: &mut RelayBank<RELAY_COUNT>) -> (done: Option<
    RelayCommand,
>)
    ensures
        final(relays).active_high() == old(relays).active_high(),
        match done {
            Some(command) => {
                &&& old(control).commands().len() > 0
                &&& command == old(control).commands()[0]
                &&& final(control).commands() == old(control).commands().skip(1)
                &&& final(control).mask() == command.applied_mask(old(control).mask())
                &&& final(relays).on() == command.applied(old(relays).on())
            },
            None => {
                &&& old(control).commands().len() == 0
                &&& final(control).commands() == old(control).commands()
                &&& final(control).mask() == old(control).mask()
                &&& final(relays).on() == old(relays).on()
            },
        },
        done matches Some(RelayCommand::Switch { index, on }) ==> {
            &&& index < RELAY_COUNT ==> final(relays).on() == old(relays).on().update(
                index as int,
                on,
            )
            &&& index >= RELAY_COUNT ==> final(relays).on() == old(relays).on()
            &&& forall|bit: u32|
                bit < 32 ==> (#[trigger] relay_bit(final(control).mask(), bit)) == if bit == index
                    && index < RELAY_COUNT {
                    on
                } else {
                    relay_bit(old(control).mask(), bit)
                }
        },
        done == Some(RelayCommand::AllOn) ==> {
            &&& final(relays).on() == Seq::new(RELAY_COUNT as nat, |i: int| true)
            &&& final(control).mask() == 31
        },
        done == Some(RelayCommand::AllOff) ==> {
            &&& final(relays).on() == Seq::new(RELAY_COUNT as nat, |i: int| false)
            &&& final(control).mask() == 0
        },
        run(final(control).commands(), final(relays).on()) == run(
            old(control).commands(),
            old(relays).on(),
        ),
        run_mask(final(control).commands(), final(control).mask()) == run_mask(
            old(control).commands(),
            old(control).mask(),
        ),
        mask_shows(old(control).mask(), old(relays).on()) ==> mask_shows(
            final(control).mask(),
            final(relays).on(),
        ),
        old(control).wf() ==> final(control).wf(),
{
    broadcast use RelayBank::one_level_per_relay;

    let received = control.commands.try_receive();
    match received {
        None => {},
        Some(command) => {
            match command {
                RelayCommand::Switch { index, on } => {
                    // Every command in the queue was checked when it was accepted; the bank
                    // refuses an unknown relay all the same.
                    if relays.set(index, on).is_ok() {
                        let bit = 1u32 << (index as u32);
                        if on {
                            control.state = control.state | bit;
                        } else {
                            control.state = control.state & !bit;
                        }
                    }
                },
                RelayCommand::AllOn => {
                    relays.all_on();
                    control.state = 0b1_1111;
                },
                RelayCommand::AllOff => {
                    relays.all_off();
                    control.state = 0;
                },
            }
            proof {
                assert(old(relays).on().len() == RELAY_COUNT);
                if let RelayCommand::Switch { index, on } = command {
                    switch_changes_one_bit(index, on, old(control).mask());
                }
                turn_keeps_the_outcome(
                    old(control).commands(),
                    old(relays).on(),
                    old(control).mask(),
                );
                if mask_shows(old(control).mask(), old(relays).on()) {
                    lemma_applied_mask_shows(command, old(control).mask(), old(relays).on());
                }
            }
        },
    }
    received
}

/// The empty mask shows no relay as on.
proof fn lemma_mask_none()
    ensures
        forall|relay: u32| relay < 32 ==> !#[trigger] relay_bit(0, relay),
{
    assert forall|relay: u32| relay < 32 implies !#[trigger] relay_bit(0, relay) by {
        assert(0u32 & (1u32 << relay) == 0) by (bit_vector);
    }
}

/// Switching a relay changes its own bit of the mask to the state asked for, and no other bit;
/// without such a relay it changes none.
pub proof fn switch_changes_one_bit(index: usize, on: bool, mask: u32)
    ensures
        index >= 5 ==> (RelayCommand::Switch { index, on }).applied_mask(mask) == mask,
        forall|bit: u32|
            bit < 32 ==> (#[trigger] relay_bit(
                (RelayCommand::Switch { index, on }).applied_mask(mask),
                bit,
            )) == if bit == index && index < 5 {
                on
            } else {
                mask & (1u32 << bit) != 0
            },
{
    let after = (RelayCommand::Switch { index, on }).applied_mask(mask);
    assert forall|bit: u32| bit < 32 implies (#[trigger] relay_bit(after, bit)) == if bit == index
        && index < 5 {
        on
    } else {
        mask & (1u32 << bit) != 0
    } by {
        if index < 5 {
            let own = index as u32;
            if on {
                assert((mask | (1u32 << own)) & (1u32 << bit) != 0 <==> (mask & (1u32 << bit) != 0
                    || own == bit)) by (bit_vector)
                    requires
                        own < 5,
                        bit < 32,
                ;
            } else {
                assert((mask & !(1u32 << own)) & (1u32 << bit) != 0 <==> (mask & (1u32 << bit) != 0
                    && own != bit)) by (bit_vector)
                    requires
                        own < 5,
                        bit < 32,
                ;
            }
        }
    }
}

/// Carrying out a command keeps the mask in step with the relays.
pub proof fn lemma_applied_mask_shows(command: RelayCommand, mask: u32, on: Seq<bool>)
    requires
        on.len() == RELAY_COUNT,
        mask_shows(mask, on),
    ensures
        mask_shows(command.applied_mask(mask), command.applied(on)),
{
    let after = command.applied_mask(mask);
    let on_after = command.applied(on);
    assert forall|relay: u32| relay < 32 implies #[trigger] relay_bit(after, relay) == (relay
        < on_after.len() && on_after[relay as int]) by {
        assert(relay_bit(mask, relay) == (relay < on.len() && on[relay as int]));
        match command {
            RelayCommand::Switch { index, on: state } => {
                if index < RELAY_COUNT {
                    let bit = index as u32;
                    if state {
                        assert((mask | (1u32 << bit)) & (1u32 << relay) != 0 <==> (mask & (1u32
                            << relay) != 0 || bit == relay)) by (bit_vector)
                            requires
                                bit < 5,
                                relay < 32,
                        ;
                    } else {
                        assert((mask & !(1u32 << bit)) & (1u32 << relay) != 0 <==> (mask & (1u32
                            << relay) != 0 && bit != relay)) by (bit_vector)
                            requires
                                bit < 5,
                                relay < 32,
                        ;
                    }
                }
            },
            RelayCommand::AllOn => {
                assert(0b1_1111u32 & (1u32 << relay) != 0 <==> relay < 5) by (bit_vector)
                    requires
                        relay < 32,
                ;
            },
            RelayCommand::AllOff => {
                lemma_mask_none();
            },
        }
    }
}

/// A command that is accepted takes effect after all that were accepted before it.
pub proof fn accepted_command_acts_last(
    waiting: Seq<RelayCommand>,
    command: RelayCommand,
    on: Seq<bool>,
    mask: u32,
)
    ensures
        run(waiting.push(command), on) == command.applied(run(waiting, on)),
        run_mask(waiting.push(command), mask) == command.applied_mask(run_mask(waiting, mask)),
{
    assert(waiting.push(command).drop_last() =~= waiting);
}

/// A turn of the relay task, which carries out the oldest command, does not change the state
/// and the mask that are come to once all waiting commands are carried out.
pub proof fn turn_keeps_the_outcome(waiting: Seq<RelayCommand>, on: Seq<bool>, mask: u32)
    requires
        waiting.len() > 0,
    ensures
        run(waiting.skip(1), waiting[0].applied(on)) == run(waiting, on),
        run_mask(waiting.skip(1), waiting[0].applied_mask(mask)) == run_mask(waiting, mask),
    decreases waiting.len(),
{
    if waiting.len() == 1 {
        assert(run(waiting.drop_last(), on) == on);
        assert(run_mask(waiting.drop_last(), mask) == mask);
        assert(waiting.skip(1) =~= Seq::empty());
    } else {
        turn_keeps_the_outcome(waiting.drop_last(), on, mask);
        assert(waiting.drop_last().skip(1) =~= waiting.skip(1).drop_last());
    }
}

/// What waits and which relays are on after `turns` turns of the relay task, where no command
/// is accepted in between.
pub open spec fn after_turns(waiting: Seq<RelayCommand>, on: Seq<bool>, turns: nat) -> (
    Seq<RelayCommand>,
    Seq<bool>,
)
    decreases turns,
{
    if turns == 0 || waiting.len() == 0 {
        (waiting, on)
    } else {
        after_turns(waiting.skip(1), waiting[0].applied(on), (turns - 1) as nat)
    }
}

/// The relay task carries out the commands in the order in which they were accepted: so many
/// turns carry out so many of the oldest, and leave the others waiting.
pub proof fn commands_are_carried_out_in_order(
    waiting: Seq<RelayCommand>,
    on: Seq<bool>,
    turns: nat,
)
    requires
        turns <= waiting.len(),
    ensures
        after_turns(waiting, on, turns) == (
            waiting.skip(turns as int),
            run(waiting.take(turns as int), on),
        ),
    decreases turns,
{
    if turns == 0 {
        assert(waiting.skip(0) =~= waiting);
    } else {
        let rest = waiting.skip(1);
        let fewer = (turns - 1) as nat;
        commands_are_carried_out_in_order(rest, waiting[0].applied(on), fewer);
        turn_keeps_the_outcome(waiting.take(turns as int), on, 0);
        assert(waiting.take(turns as int).skip(1) =~= rest.take(fewer as int));
        assert(rest.skip(fewer as int) =~= waiting.skip(turns as int));
    }
}

/// However many commands are carried out, the mask goes on showing the relays.
pub proof fn mask_keeps_showing_the_relays(commands: Seq<RelayCommand>, mask: u32, on: Seq<bool>)
    requires
        on.len() == RELAY_COUNT,
        mask_shows(mask, on),
    ensures
        mask_shows(run_mask(commands, mask), run(commands, on)),
    decreases commands.len(),
{
    if commands.len() > 0 {
        mask_keeps_showing_the_relays(commands.drop_last(), mask, on);
        commands_keep_the_number_of_relays(commands.drop_last(), on);
        lemma_applied_mask_shows(
            commands.last(),
            run_mask(commands.drop_last(), mask),
            run(commands.drop_last(), on),
        );
    }
}

/// A command leaves every relay that it says nothing of as it was, and puts every other one into
/// the state that it says.
pub proof fn command_acts_on_what_it_says(command: RelayCommand, before: Seq<bool>, relay: int)
    requires
        0 <= relay < before.len(),
    ensures
        command.applied(before).len() == before.len(),
        command.applied(before)[relay] == match command.says(relay) {
            Some(on) => on,
            None => before[relay],
        },
{
}

/// A relay that no command says anything of stays as it was.
pub proof fn relay_without_command_stays(commands: Seq<RelayCommand>, before: Seq<bool>, relay: int)
    requires
        0 <= relay < before.len(),
        forall|i: int| 0 <= i < commands.len() ==> (#[trigger] commands[i]).says(relay) is None,
    ensures
        run(commands, before)[relay] == before[relay],
    decreases commands.len(),
{
    if commands.len() > 0 {
        let earlier = commands.drop_last();
        assert forall|i: int| 0 <= i < earlier.len() implies (#[trigger] earlier[i]).says(
            relay,
        ) is None by {
            assert(commands[i].says(relay) is None);
        }
        relay_without_command_stays(earlier, before, relay);
        commands_keep_the_number_of_relays(earlier, before);
        assert(commands[commands.len() - 1].says(relay) is None);
    }
}

/// The last command that says anything of a relay decides its state: neither what went before
/// it nor what comes after it for other relays makes a difference.
pub proof fn last_command_decides(
    commands: Seq<RelayCommand>,
    before: Seq<bool>,
    relay: int,
    last: int,
)
    requires
        0 <= relay < before.len(),
        0 <= last < commands.len(),
        commands[last].says(relay) is Some,
        forall|i: int|
            last < i < commands.len() ==> (#[trigger] commands[i]).says(relay) is None,
    ensures
        Some(run(commands, before)[relay]) == commands[last].says(relay),
    decreases commands.len(),
{
    let earlier = commands.drop_last();
    commands_keep_the_number_of_relays(earlier, before);
    if last < commands.len() - 1 {
        assert forall|i: int| last < i < earlier.len() implies (#[trigger] earlier[i]).says(
            relay,
        ) is None by {
            assert(commands[i].says(relay) is None);
        }
        last_command_decides(earlier, before, relay, last);
        assert(commands[commands.len() - 1].says(relay) is None);
    }
}

/// What was asked for last is what is reported: once all commands are carried out, the mask shows
/// a relay in the state that the last command about it says.
pub proof fn last_command_is_reported(
    commands: Seq<RelayCommand>,
    mask: u32,
    before: Seq<bool>,
    relay: u32,
    last: int,
)
    requires
        relay < RELAY_COUNT,
        before.len() == RELAY_COUNT,
        mask_shows(mask, before),
        0 <= last < commands.len(),
        commands[last].says(relay as int) is Some,
        forall|i: int|
            last < i < commands.len() ==> (#[trigger] commands[i]).says(relay as int) is None,
    ensures
        Some(relay_bit(run_mask(commands, mask), relay)) == commands[last].says(relay as int),
{
    mask_keeps_showing_the_relays(commands, mask, before);
    last_command_decides(commands, before, relay as int, last);
    commands_keep_the_number_of_relays(commands, before);
    assert(relay_bit(run_mask(commands, mask), relay) == (relay < run(commands, before).len()
        && run(commands, before)[relay as int]));
}

/// A request for the safe state is met once the relay task gets to it, whatever waits before it:
/// every relay is off, and shown as off.
pub proof fn all_off_reaches_the_safe_state(
    waiting: Seq<RelayCommand>,
    before: Seq<bool>,
    mask: u32,
)
    ensures
        run(waiting.push(RelayCommand::AllOff), before) == Seq::new(before.len(), |i: int| false),
        run_mask(waiting.push(RelayCommand::AllOff), mask) == 0,
{
    accepted_command_acts_last(waiting, RelayCommand::AllOff, before, mask);
    commands_keep_the_number_of_relays(waiting, before);
}

/// A request to switch every relay on is met once the relay task gets to it, whatever waits before
/// it: every relay is on, and shown as on.
pub proof fn all_on_reaches_every_relay(waiting: Seq<RelayCommand>, before: Seq<bool>, mask: u32)
    ensures
        run(waiting.push(RelayCommand::AllOn), before) == Seq::new(before.len(), |i: int| true),
        run_mask(waiting.push(RelayCommand::AllOn), mask) == 0b1_1111,
{
    accepted_command_acts_last(waiting, RelayCommand::AllOn, before, mask);
    commands_keep_the_number_of_relays(waiting, before);
}

/// Commands change which relays are on, never how many there are.
pub proof fn commands_keep_the_number_of_relays(commands: Seq<RelayCommand>, on: Seq<bool>)
    ensures
        run(commands, on).len() == on.len(),
    decreases commands.len(),
{
    if commands.len() > 0 {
        commands_keep_the_number_of_relays(commands.drop_last(), on);
    }
}

/// Masks that agree on their lowest bits, one by one, agree on them together.
proof fn lemma_low_bits_agree(left: u32, right: u32, count: u32)
    requires
        count <= 32,
        forall|relay: u32| relay < 32 ==> relay_bit(left, relay) == #[trigger] relay_bit(right, relay),
    ensures
        left as u64 & !(0xffff_ffff_ffff_ffffu64 << count) == right as u64 & !(
        0xffff_ffff_ffff_ffffu64 << count),
    decreases count,
{
    if count == 0 {
        assert(left as u64 & !(0xffff_ffff_ffff_ffffu64 << count) == right as u64 & !(
        0xffff_ffff_ffff_ffffu64 << count)) by (bit_vector)
            requires
                count == 0,
        ;
    } else {
        let relay = (count - 1) as u32;
        lemma_low_bits_agree(left, right, relay);
        assert(relay_bit(left, relay) == relay_bit(right, relay));
        assert(left as u64 & !(0xffff_ffff_ffff_ffffu64 << count) == right as u64 & !(
        0xffff_ffff_ffff_ffffu64 << count)) by (bit_vector)
            requires
                0 < count <= 32,
                relay == count - 1,
                (left & (1u32 << relay) != 0) == (right & (1u32 << relay) != 0),
                left as u64 & !(0xffff_ffff_ffff_ffffu64 << relay) == right as u64 & !(
                0xffff_ffff_ffff_ffffu64 << relay),
        ;
    }
}

/// No two masks show the same relays.
pub proof fn mask_is_determined(left: u32, right: u32, on: Seq<bool>)
    requires
        mask_shows(left, on),
        mask_shows(right, on),
    ensures
        left == right,
{
    assert forall|relay: u32| relay < 32 implies relay_bit(left, relay) == #[trigger] relay_bit(
        right,
        relay,
    ) by {
        assert(relay_bit(left, relay) == (relay < on.len() && on[relay as int]));
    }
    lemma_low_bits_agree(left, right, 32);
    assert(left == right) by (bit_vector)
        requires
            left as u64 & !(0xffff_ffff_ffff_ffffu64 << 32u32) == right as u64 & !(
            0xffff_ffff_ffff_ffffu64 << 32u32),
    ;
}

/// Switching a relay of the board gives just that relay the state asked for: every other one keeps
/// its own. Without such a relay nothing changes.
pub proof fn switch_changes_one_relay(index: usize, on: bool, before: Seq<bool>)
    requires
        before.len() == 5,
    ensures
        (RelayCommand::Switch { index, on }).applied(before).len() == 5,
        index < 5 ==> (RelayCommand::Switch { index, on }).applied(before)[index as int] == on,
        forall|other: int|
            0 <= other < 5 && other != index ==> (#[trigger] (RelayCommand::Switch {
                index,
                on,
            }).applied(before)[other]) == before[other],
        index < 5 ==> (RelayCommand::Switch { index, on }).applied(before) == before.update(
            index as int,
            on,
        ),
        index >= 5 ==> (RelayCommand::Switch { index, on }).applied(before) == before,
{
}

/// The commands for all relays reach every one of them, in the outputs and in the mask.
pub proof fn commands_for_all_reach_every_relay(before: Seq<bool>, relay: int, mask: u32)
    requires
        0 <= relay < before.len(),
    ensures
        RelayCommand::AllOn.applied(before).len() == before.len(),
        RelayCommand::AllOn.applied(before)[relay],
        RelayCommand::AllOn.applied_mask(mask) == 31,
        RelayCommand::AllOff.applied(before).len() == before.len(),
        !RelayCommand::AllOff.applied(before)[relay],
        RelayCommand::AllOff.applied_mask(mask) == 0,
{
}

/// A command speaks of the relays it names: one to switch a relay of that one alone, and one for
/// all relays of each.
pub proof fn commands_speak_of_what_they_name(index: usize, on: bool, relay: int)
    ensures
        (RelayCommand::Switch { index, on }).says(relay) == if relay == index {
            Some(on)
        } else {
            None
        },
        RelayCommand::AllOn.says(relay) == Some(true),
        RelayCommand::AllOff.says(relay) == Some(false),
{
}

/// The only commands that the board cannot carry out are those to switch a relay it lacks.
pub proof fn valid_commands_name_relays_of_the_board(index: usize, on: bool)
    ensures
        (RelayCommand::Switch { index, on }).is_valid() <==> index < 5,
        RelayCommand::AllOn.is_valid(),
        RelayCommand::AllOff.is_valid(),
{
}

/// A command that is offered is accepted exactly where fewer than eight wait. It then waits
/// itself, behind the others; where it is not accepted the others wait as before.
pub proof fn offered_command_waits_behind_the_others(
    before: RelayControl,
    command: RelayCommand,
    after: RelayControl,
    result: Submission,
)
    requires
        before.submitted(command, after, result),
    ensures
        result == Submission::Accepted <==> before.commands().len() < 8,
        result == Submission::Accepted ==> {
            &&& after.commands().len() == before.commands().len() + 1
            &&& after.commands().last() == command
            &&& after.commands().drop_last() == before.commands()
        },
        result != Submission::Accepted ==> after.commands() == before.commands(),
        after.mask() == before.mask(),
{
    if before.commands().len() < 8 {
        assert(after.commands().drop_last() =~= before.commands());
    }
}

/// Whatever waits can be carried out, and no more than eight commands wait.
pub proof fn waiting_commands_can_be_carried_out(control: RelayControl, i: int)
    requires
        control.wf(),
        0 <= i < control.commands().len(),
    ensures
        control.commands().len() <= 8,
        control.commands()[i] matches RelayCommand::Switch { index, .. } ==> index < 5,
{
    assert(control.commands()[i].is_valid());
}

/// The bit of a relay is its place in the binary number that the mask is.
pub proof fn bit_is_its_place_in_the_mask(mask: u32, relay: u32)
    requires
        relay < 32,
    ensures
        relay_bit(mask, relay) <==> (mask >> relay) % 2 == 1,
{
    assert((mask & (1u32 << relay) != 0) <==> (mask >> relay) % 2 == 1) by (bit_vector)
        requires
            relay < 32,
    ;
}

/// The mask that shows the relays of the board is the sum of the powers of two of those that are
/// on: 1 for relay 0, 2 for relay 1, up to 16 for relay 4.
pub proof fn mask_is_the_sum_of_the_relays(mask: u32, on: Seq<bool>)
    requires
        on.len() == 5,
    ensures
        mask_shows(mask, on) <==> mask == (if on[0] {
            1int
        } else {
            0
        }) + (if on[1] {
            2int
        } else {
            0
        }) + (if on[2] {
            4int
        } else {
            0
        }) + (if on[3] {
            8int
        } else {
            0
        }) + (if on[4] {
            16int
        } else {
            0
        }),
{
    let (r0, r1, r2, r3, r4) = (on[0], on[1], on[2], on[3], on[4]);
    let b0: u32 = if r0 { 1 } else { 0 };
    let b1: u32 = if r1 { 2 } else { 0 };
    let b2: u32 = if r2 { 4 } else { 0 };
    let b3: u32 = if r3 { 8 } else { 0 };
    let b4: u32 = if r4 { 16 } else { 0 };
    let sum: u32 = (b0 + b1 + b2 + b3 + b4) as u32;
    assert forall|relay: u32| relay < 32 implies #[trigger] relay_bit(sum, relay) == (relay
        < on.len() && on[relay as int]) by {
        assert((sum & (1u32 << relay) != 0) == ((relay == 0 && r0) || (relay == 1 && r1) || (relay
            == 2 && r2) || (relay == 3 && r3) || (relay == 4 && r4))) by (bit_vector)
            requires
                relay < 32,
                b0 == if r0 { 1u32 } else { 0u32 },
                b1 == if r1 { 2u32 } else { 0u32 },
                b2 == if r2 { 4u32 } else { 0u32 },
                b3 == if r3 { 8u32 } else { 0u32 },
                b4 == if r4 { 16u32 } else { 0u32 },
                sum == b0 + b1 + b2 + b3 + b4,
        ;
    }
    assert(mask_shows(sum, on));
    if mask_shows(mask, on) {
        mask_is_determined(mask, sum, on);
    }
}

/// No commands change nothing; and where the last command that names a relay, itself or among
/// all, is `last`, that command has its way with it.
pub proof fn last_naming_command_has_its_way(
    commands: Seq<RelayCommand>,
    before: Seq<bool>,
    relay: usize,
    last: int,
    on: bool,
)
    requires
        relay < before.len(),
        0 <= last < commands.len(),
        commands[last] == (RelayCommand::Switch { index: relay, on }) || (commands[last]
            == RelayCommand::AllOn && on) || (commands[last] == RelayCommand::AllOff && !on),
        forall|i: int|
            last < i < commands.len() ==> ((#[trigger] commands[i]) is Switch
                && commands[i]->index != relay),
    ensures
        run(Seq::<RelayCommand>::empty(), before) == before,
        run(commands, before).len() == before.len(),
        run(commands, before)[relay as int] == on,
{
    assert forall|i: int| last < i < commands.len() implies (#[trigger] commands[i]).says(
        relay as int,
    ) is None by {
        assert(commands[i] is Switch && commands[i]->index != relay);
    }
    last_command_decides(commands, before, relay as int, last);
    commands_keep_the_number_of_relays(commands, before);
}

/// A relay that no command names keeps its state.
pub proof fn unnamed_relay_keeps_its_state(
    commands: Seq<RelayCommand>,
    before: Seq<bool>,
    relay: usize,
)
    requires
        relay < before.len(),
        forall|i: int|
            0 <= i < commands.len() ==> ((#[trigger] commands[i]) is Switch && commands[i]->index
                != relay),
    ensures
        run(commands, before).len() == before.len(),
        run(commands, before)[relay as int] == before[relay as int],
{
    assert forall|i: int| 0 <= i < commands.len() implies (#[trigger] commands[i]).says(
        relay as int,
    ) is None by {
        assert(commands[i] is Switch && commands[i]->index != relay);
    }
    relay_without_command_stays(commands, before, relay as int);
    commands_keep_the_number_of_relays(commands, before);
}

} // verus!
