//! The relay outputs of the board: which level each pin is driven to.

use vstd::prelude::*;

verus! {

/// How many relays the board carries.
pub const RELAY_COUNT: usize = 5;

/// The level that a pin is driven to.
#[derive(Clone, Copy, Debug, PartialEq, Eq, Structural)]
pub enum Level {
    Low,
    High,
}

/// The level that switches a relay on or off, given the polarity of its input.
pub open spec fn drive_level(on: bool, active_high: bool) -> Level {
    if on == active_high {
        Level::High
    } else {
        Level::Low
    }
}

/// The levels of the pins that drive `N` relays of one polarity.
pub struct RelayBank<const N: usize> {
    levels: [Level; N],
    active_high: bool,
}

impl<const N: usize> RelayBank<N> {
    /// The level of each pin, in relay order.
    pub closed spec fn levels(self) -> Seq<Level> {
        self.levels@
    }

    /// Whether a high level switches a relay on.
    pub closed spec fn active_high(self) -> bool {
        self.active_high
    }

    /// Which relays are switched on.
    pub open spec fn on(self) -> Seq<bool> {
        Seq::new(
            self.levels().len(),
            |i: int| self.levels()[i] == drive_level(true, self.active_high()),
        )
    }

    /// A bank has one level for each of its relays.
    pub broadcast proof fn one_level_per_relay(self)
        ensures
            #[trigger] self.levels().len() == N,
    {
    }

    /// A bank whose pins stand at `levels`.
    pub fn new(levels: [Level; N], active_high: bool) -> (bank: Self)
        ensures
            bank.levels() == levels@,
            bank.active_high() == active_high,
    {
        RelayBank { levels, active_high }
    }

    /// How many relays the bank drives.
    pub fn count(&self) -> (count: usize)
        ensures
            count == N,
            count == self.levels().len(),
    {
        N
    }

    /// The level of the pin of one relay, if there is such a relay.
    pub fn level(&self, relay: usize) -> (level: Option<Level>)
        ensures
            match level {
                Some(level) => relay < N && level == self.levels()[relay as int],
                None => relay >= N,
            },
    {
        if relay < N {
            Some(self.levels[relay])
        } else {
            None
        }
    }

    /// Switch one relay; refused where there is no such relay.
    pub fn set(&mut self, relay: usize, on: bool) -> (result: Result<(), ()>)
        ensures
            result is Ok <==> relay < N,
            final(self).active_high() == old(self).active_high(),
            final(self).levels() == if relay < N {
                old(self).levels().update(relay as int, drive_level(on, old(self).active_high()))
            } else {
                old(self).levels()
            },
            final(self).on() == if relay < N {
                old(self).on().update(relay as int, on)
            } else {
                old(self).on()
            },
    {
        if relay >= N {
            return Err(());
        }
        let drive_high = on == self.active_high;
        self.levels[relay] = if drive_high { Level::High } else { Level::Low };
        assert(self.on() =~= old(self).on().update(relay as int, on));
        Ok(())
    }

    /// Drive every pin to the level that means `on`.
    fn drive_all(&mut self, on: bool)
        ensures
            final(self).active_high() == old(self).active_high(),
            final(self).levels() == Seq::new(
                N as nat,
                |i: int| drive_level(on, old(self).active_high()),
            ),
            final(self).on() == Seq::new(N as nat, |i: int| on),
    {
        let level = if on == self.active_high { Level::High } else { Level::Low };
        let mut i: usize = 0;
        while i < N
            invariant
                i <= N,
                self.active_high == old(self).active_high,
                level == drive_level(on, self.active_high),
                forall|j: int| 0 <= j < i ==> self.levels@[j] == level,
            decreases N - i,
        {
            self.levels[i] = level;
            i = i + 1;
        }
        assert(self.levels() =~= Seq::new(
            N as nat,
            |i: int| drive_level(on, old(self).active_high()),
        ));
        assert(self.on() =~= Seq::new(N as nat, |i: int| on));
    }

    /// Switch every relay on.
    pub fn all_on(&mut self)
        ensures
            final(self).active_high() == old(self).active_high(),
            final(self).levels() == Seq::new(
                N as nat,
                |i: int| drive_level(true, old(self).active_high()),
            ),
            final(self).on() == Seq::new(N as nat, |i: int| true),
    {
        self.drive_all(true);
    }

    /// Switch every relay off.
    pub fn all_off(&mut self)
        ensures
            final(self).active_high() == old(self).active_high(),
            final(self).levels() == Seq::new(
                N as nat,
                |i: int| drive_level(false, old(self).active_high()),
            ),
            final(self).on() == Seq::new(N as nat, |i: int| false),
    {
        self.drive_all(false);
    }
}

/// The relays as the board powers up: every pin low, which switches every relay off.
pub fn init() -> (bank: RelayBank<RELAY_COUNT>)
    ensures
        bank.levels() == Seq::new(RELAY_COUNT as nat, |i: int| Level::Low),
        bank.active_high(),
        bank.on() == Seq::new(RELAY_COUNT as nat, |i: int| false),
{
    let bank = RelayBank::new(
        [Level::Low, Level::Low, Level::Low, Level::Low, Level::Low],
        true,
    );
    assert(bank.levels() =~= Seq::new(RELAY_COUNT as nat, |i: int| Level::Low));
    assert(bank.on() =~= Seq::new(RELAY_COUNT as nat, |i: int| false));
    bank
}

/// The same relays are on in banks of opposite polarity exactly where every pin stands at the
/// opposite level.
pub proof fn polarity_inverts_the_levels<const N: usize>(left: RelayBank<N>, right: RelayBank<N>)
    requires
        left.active_high() != right.active_high(),
    ensures
        left.on() == right.on() <==> forall|i: int|
            0 <= i < N ==> #[trigger] left.levels()[i] != right.levels()[i],
{
    broadcast use RelayBank::one_level_per_relay;

    if left.on() == right.on() {
        assert forall|i: int| 0 <= i < N implies #[trigger] left.levels()[i]
            != right.levels()[i] by {
            assert(left.on()[i] == right.on()[i]);
        }
    } else if forall|i: int| 0 <= i < N ==> #[trigger] left.levels()[i] != right.levels()[i] {
        assert(left.on() =~= right.on());
    }
}

/// A pin is driven high to switch a relay on where high switches it on, and to switch it off
/// where low does; otherwise it is driven low.
pub proof fn level_follows_the_polarity(on: bool, active_high: bool)
    ensures
        drive_level(on, active_high) == Level::High <==> (on <==> active_high),
        drive_level(on, active_high) == Level::Low <==> (on <==> !active_high),
{
}

/// A relay is on exactly where its pin stands at the level that switches it on.
pub proof fn relay_is_on_by_its_level<const N: usize>(bank: RelayBank<N>, relay: int)
    requires
        0 <= relay < N,
    ensures
        bank.on().len() == N,
        bank.active_high() ==> (bank.on()[relay] <==> bank.levels()[relay] == Level::High),
        !bank.active_high() ==> (bank.on()[relay] <==> bank.levels()[relay] == Level::Low),
{
    broadcast use RelayBank::one_level_per_relay;

}

} // verus!
