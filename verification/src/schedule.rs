use vstd::prelude::*;

verus! {

/// Whether `iteration` falls on a multiple of `action_interval`: the
/// quotient `iteration / action_interval` is a whole number.  A zero
/// interval gives an infinite quotient for every positive iteration, which
/// counts as whole, and an undefined quotient for iteration zero, which
/// does not.
pub open spec fn is_action_time(iteration: u32, action_interval: u32) -> bool {
    if action_interval == 0 {
        iteration != 0
    } else {
        iteration % action_interval == 0
    }
}

/// An action with a positive interval is due exactly at the whole multiples
/// of its interval; with a zero interval, at every iteration but the first.
pub proof fn lemma_action_time_is_a_multiple(iteration: u32, action_interval: u32)
    ensures
        action_interval > 0 ==> (is_action_time(iteration, action_interval) <==> exists|k: int|
            0 <= k && #[trigger] (k * action_interval) == iteration),
        action_interval == 0 ==> (is_action_time(iteration, action_interval) <==> iteration > 0),
{
    if action_interval > 0 {
        let q = iteration as int / action_interval as int;
        vstd::arithmetic::div_mod::lemma_fundamental_div_mod(iteration as int, action_interval as int);
        if iteration % action_interval == 0 {
            assert(q * action_interval == iteration);
            assert(0 <= q);
        }
        if exists|k: int| 0 <= k && #[trigger] (k * action_interval) == iteration {
            let k = choose|k: int| 0 <= k && #[trigger] (k * action_interval) == iteration;
            vstd::arithmetic::div_mod::lemma_mod_multiples_basic(k, action_interval as int);
        }
    }
}

/// Tells whether an action that is due every `action_interval` iterations
/// is due at `iteration`.
pub fn time_for_action(iteration: u32, action_interval: u32) -> (due: bool)
    ensures
        due == is_action_time(iteration, action_interval),
        action_interval > 0 ==> (due <==> exists|k: int| 0 <= k && #[trigger] (k * action_interval) == iteration),
        action_interval == 0 ==> (due <==> iteration > 0),
{
    proof {
        lemma_action_time_is_a_multiple(iteration, action_interval);
    }
    if action_interval == 0 {
        iteration != 0
    } else {
        iteration % action_interval == 0
    }
}

/// How many rounds the temperature controller watches before it adjusts.
pub const CONTROL_INTERVAL: u32 = 10;

/// The counters of the annealing temperature.  The first `control_interval`
/// rounds run at a very low calibration temperature to learn how many
/// accepted swaps a cold search makes; after that, the starting temperature
/// is retuned every `control_interval` rounds towards twice that number.
/// The temperatures themselves are real numbers and are kept by the caller.
pub struct TempSchedule {
    init_counter: u32,
    swap_counter: u32,
    swap_target: u32,
    control_interval: u32,
}

/// A retuning of the starting temperature: `swaps` accepted swaps were made
/// during the last `interval` rounds, against a target of `target` per round.
pub struct Retune {
    pub swaps: u32,
    pub interval: u32,
    pub target: u32,
}

/// What the caller does with the temperatures when a round starts.
pub struct TempStep {
    /// The round starts at the calibration temperature rather than at the
    /// starting temperature.
    pub calibrating: bool,
    /// The starting temperature is to be retuned.
    pub retune: Option<Retune>,
}

impl TempSchedule {
    /// Rounds started so far.
    pub closed spec fn rounds(&self) -> u32 {
        self.init_counter
    }

    /// Accepted swaps since the counter was last cleared.
    pub closed spec fn swaps(&self) -> u32 {
        self.swap_counter
    }

    /// The number of accepted swaps per round to aim for.
    pub closed spec fn target(&self) -> u32 {
        self.swap_target
    }

    /// The number of rounds between adjustments.
    pub closed spec fn interval(&self) -> u32 {
        self.control_interval
    }

    /// The controller watches `CONTROL_INTERVAL` rounds at a time.
    pub open spec fn wf(&self) -> bool {
        self.interval() == CONTROL_INTERVAL
    }

    /// The counters can start one more round without overflowing.
    pub open spec fn can_start_round(&self) -> bool {
        &&& self.rounds() < u32::MAX
        &&& self.rounds() + 1 == self.interval() ==> 2 * (self.swaps() / self.interval()) <= u32::MAX
    }

    /// Starts a round: the first `interval` rounds calibrate; when the last
    /// of them starts, the target becomes twice the average number of
    /// accepted swaps per round; from then on, every `interval` rounds, the
    /// starting temperature is retuned from the swaps made.
    pub fn init(&mut self) -> (step: TempStep)
        requires
            old(self).wf(),
            old(self).can_start_round(),
        ensures
            final(self).wf(),
            final(self).rounds() == old(self).rounds() + 1,
            step.calibrating == (old(self).rounds() < old(self).interval()),
            final(self).rounds() == old(self).interval() ==> {
                &&& final(self).target() == 2 * (old(self).swaps() / old(self).interval())
                &&& final(self).swaps() == 0
                &&& step.retune is None
            },
            final(self).rounds() != old(self).interval() && is_action_time(final(self).rounds(), old(self).interval()) ==> {
                &&& final(self).target() == old(self).target()
                &&& final(self).swaps() == 0
                &&& step.retune == Some(
                    Retune { swaps: old(self).swaps(), interval: old(self).interval(), target: old(self).target() },
                )
            },
            final(self).rounds() != old(self).interval() && !is_action_time(final(self).rounds(), old(self).interval()) ==> {
                &&& final(self).target() == old(self).target()
                &&& final(self).swaps() == old(self).swaps()
                &&& step.retune is None
            },
    {
        // the first rounds run cold, to learn how many swaps a cold search makes
        let calibrating = self.init_counter < self.control_interval;
        self.init_counter = self.init_counter + 1;
        if self.init_counter == self.control_interval {
            // twice the average number of swaps made at the cold temperature
            self.swap_target = 2 * (self.swap_counter / self.control_interval);
            self.swap_counter = 0;
            TempStep { calibrating, retune: None }
        } else if time_for_action(self.init_counter, self.control_interval) {
            // retune the starting temperature towards the target
            let retune = Retune {
                swaps: self.swap_counter,
                interval: self.control_interval,
                target: self.swap_target,
            };
            self.swap_counter = 0;
            TempStep { calibrating, retune: Some(retune) }
        } else {
            TempStep { calibrating, retune: None }
        }
    }

    /// Counts one accepted swap (the caller cools the temperature).
    pub fn decrease_temp(&mut self)
        requires
            old(self).wf(),
            old(self).swaps() < u32::MAX,
        ensures
            final(self).wf(),
            final(self).swaps() == old(self).swaps() + 1,
            final(self).rounds() == old(self).rounds(),
            final(self).target() == old(self).target(),
    {
        self.swap_counter = self.swap_counter + 1;
    }

    /// Whether `init` can start one more round without a counter
    /// overflowing.
    pub fn round_fits(&self) -> (r: bool)
        ensures
            r == self.can_start_round(),
    {
        if self.init_counter == u32::MAX {
            return false;
        }
        if self.init_counter + 1 == self.control_interval && self.control_interval > 0 {
            return self.swap_counter / self.control_interval <= u32::MAX / 2;
        }
        true
    }

    /// Whether `decrease_temp` can count one more swap.
    pub fn swap_fits(&self) -> (r: bool)
        ensures
            r == (self.swaps() < u32::MAX),
    {
        self.swap_counter < u32::MAX
    }
}

/// The counters at the start of a search: no rounds, no swaps, no target.
pub fn get_temp() -> (t: TempSchedule)
    ensures
        t.rounds() == 0,
        t.swaps() == 0,
        t.target() == 0,
        t.wf(),
{
    TempSchedule { init_counter: 0, swap_counter: 0, swap_target: 0, control_interval: CONTROL_INTERVAL }
}

} // verus!
