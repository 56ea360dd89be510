use vstd::prelude::*;

use crate::events::{EventKind, EventQueue};

verus! {

/// The most events one propagation round hands to the tiers.
pub const MAX_PROPAGATION_STEPS: usize = 100;

/// Samples the environmental tier gathers before it assesses them.
pub const SAMPLE_THRESHOLD: usize = 50;

/// The three tiers, fastest first; one round offers each event to them in
/// this order.
#[derive(Debug, Clone, Copy, PartialEq, Eq)]
pub enum Tier {
    Reactive,
    Adaptive,
    Environmental,
}

/// Whether tier `t` resonates with events of kind `k`.
pub open spec fn tier_activates(t: Tier, k: EventKind) -> bool {
    match t {
        Tier::Reactive => k is SensorChange,
        Tier::Adaptive => k is SensorChange || k is Movement,
        Tier::Environmental => k is ParameterAdjust,
    }
}

/// The tiers that take an event of kind `k`, in the fixed order reactive,
/// adaptive, environmental.
pub open spec fn resonant_tiers(k: EventKind) -> Seq<Tier> {
    let r = if tier_activates(Tier::Reactive, k) {
        seq![Tier::Reactive]
    } else {
        Seq::empty()
    };
    let a = if tier_activates(Tier::Adaptive, k) {
        r.push(Tier::Adaptive)
    } else {
        r
    };
    if tier_activates(Tier::Environmental, k) {
        a.push(Tier::Environmental)
    } else {
        a
    }
}

impl Tier {
    /// The tiers an event of kind `kind` is offered to, in the order they
    /// must process it.
    pub fn dispatch_order(kind: &EventKind) -> (r: Vec<Tier>)
        ensures
            r@ == resonant_tiers(*kind),
    {
        let mut order: Vec<Tier> = Vec::new();
        if Tier::Reactive.activates(kind) {
            order.push(Tier::Reactive);
        }
        if Tier::Adaptive.activates(kind) {
            order.push(Tier::Adaptive);
        }
        if Tier::Environmental.activates(kind) {
            order.push(Tier::Environmental);
        }
        proof {
            let e: Seq<Tier> = Seq::empty();
            assert(e.push(Tier::Reactive) =~= seq![Tier::Reactive]);
        }
        order
    }

    /// Whether this tier acts on an event of kind `kind`.
    pub fn activates(&self, kind: &EventKind) -> (r: bool)
        ensures
            r == tier_activates(*self, *kind),
    {
        match self {
            Tier::Reactive => matches!(kind, EventKind::SensorChange),
            Tier::Adaptive => matches!(kind, EventKind::SensorChange | EventKind::Movement),
            Tier::Environmental => matches!(kind, EventKind::ParameterAdjust),
        }
    }
}

/// The gain adaptations of the adaptive tier.
#[derive(Debug, Clone, Copy, PartialEq, Eq)]
pub enum AdaptationRule {
    /// High movement with high error: the system is nervous, lower the gain by 0.15.
    DampNervous,
    /// Low movement with high error: the system is sluggish, raise the gain by 0.15.
    BoostSluggish,
    /// High movement with low error: the gain is excessive, lower it by 0.10.
    TrimExcess,
}

/// The rule that applies when the given conditions hold; a later rule
/// overrides an earlier one.
pub open spec fn rule_for(nervous: bool, sluggish: bool, excessive: bool) -> Option<AdaptationRule> {
    if excessive {
        Some(AdaptationRule::TrimExcess)
    } else if sluggish {
        Some(AdaptationRule::BoostSluggish)
    } else if nervous {
        Some(AdaptationRule::DampNervous)
    } else {
        None
    }
}

/// The gain change of `rule`, in hundredths.
pub open spec fn gain_change_of(rule: AdaptationRule) -> int {
    match rule {
        AdaptationRule::DampNervous => -15,
        AdaptationRule::BoostSluggish => 15,
        AdaptationRule::TrimExcess => -10,
    }
}

impl AdaptationRule {
    /// Evaluates the rules in their fixed order, each later match replacing
    /// the earlier one.
    pub fn select(nervous: bool, sluggish: bool, excessive: bool) -> (r: Option<AdaptationRule>)
        ensures
            r == rule_for(nervous, sluggish, excessive),
    {
        let mut chosen: Option<AdaptationRule> = None;
        if nervous {
            chosen = Some(AdaptationRule::DampNervous);
        }
        if sluggish {
            chosen = Some(AdaptationRule::BoostSluggish);
        }
        if excessive {
            chosen = Some(AdaptationRule::TrimExcess);
        }
        chosen
    }

    /// The change this rule makes to the reactive gain, in hundredths.
    pub fn gain_change_hundredths(&self) -> (r: i32)
        ensures
            r == gain_change_of(*self),
    {
        match self {
            AdaptationRule::DampNervous => -15,
            AdaptationRule::BoostSluggish => 15,
            AdaptationRule::TrimExcess => -10,
        }
    }

    /// The sign of the gain change: 1 when it raises the gain, -1 when it
    /// lowers it.
    pub fn direction(&self) -> (r: i32)
        ensures
            r == (if gain_change_of(*self) > 0 {
                1int
            } else {
                -1int
            }),
    {
        if self.gain_change_hundredths() > 0 {
            1
        } else {
            -1
        }
    }
}

/// How the environmental tier asks the allowed ranges to change.
#[derive(Debug, Clone, Copy, PartialEq, Eq)]
pub enum RangeShift {
    /// Adjustments oscillate: widen the ranges.
    Widen,
    /// Adjustments converge: narrow the ranges for precision.
    Narrow,
}

/// The outcome of one assessment, with the counts it was made from.
#[derive(Debug, Clone, Copy, PartialEq, Eq)]
pub struct RangeSignal {
    pub shift: RangeShift,
    pub oscillations: usize,
    pub adjustments: usize,
}

impl RangeSignal {
    /// 1 for widen, -1 for narrow.
    pub fn direction(&self) -> (r: i32)
        ensures
            r == (if self.shift is Widen {
                1int
            } else {
                -1int
            }),
    {
        match self.shift {
            RangeShift::Widen => 1,
            RangeShift::Narrow => -1,
        }
    }
}

/// An adjustment in direction `dir` has the other sign than `last`, the
/// latest nonzero direction seen before it (0 when there was none).
pub open spec fn reverses(last: i32, dir: i32) -> bool {
    dir != 0 && last != 0 && (dir > 0) != (last > 0)
}

/// The shift owed for `osc` oscillations among `adj` adjustments: widen when
/// more than half oscillated, narrow when under a fifth did and more than
/// five adjustments were seen.
pub open spec fn shift_for(osc: int, adj: int) -> Option<RangeShift> {
    let base = if adj >= 1 {
        adj
    } else {
        1
    };
    if 2 * osc > base {
        Some(RangeShift::Widen)
    } else if 5 * osc < base && adj > 5 {
        Some(RangeShift::Narrow)
    } else {
        None
    }
}

/// The slow tier: counts gain adjustments and how often their sign flips,
/// and assesses the ratio once enough samples are in.
pub struct EnvironmentalContext {
    pub samples: usize,
    pub sample_threshold: usize,
    pub adjustments: usize,
    pub oscillations: usize,
    /// The latest nonzero adjustment direction seen, 0 before any.
    pub last_direction: i32,
}

impl EnvironmentalContext {
    pub fn new() -> (r: Self)
        ensures
            r.samples == 0,
            r.sample_threshold == SAMPLE_THRESHOLD,
            r.adjustments == 0,
            r.oscillations == 0,
            r.last_direction == 0,
    {
        EnvironmentalContext {
            samples: 0,
            sample_threshold: SAMPLE_THRESHOLD,
            adjustments: 0,
            oscillations: 0,
            last_direction: 0,
        }
    }

    /// Records a gain adjustment in direction `direction` and, once the
    /// sample threshold is reached, assesses the oscillation ratio and
    /// clears the counters.
    pub fn process_adjustment(&mut self, direction: i32) -> (r: Option<RangeSignal>)
        requires
            old(self).samples < usize::MAX,
            old(self).adjustments < usize::MAX,
            old(self).oscillations < usize::MAX,
        ensures
            ({
                let adj = old(self).adjustments + 1;
                let seen = old(self).samples + 1;
                let osc = old(self).oscillations + if reverses(old(self).last_direction, direction) {
                    1int
                } else {
                    0int
                };
                &&& final(self).last_direction == if direction != 0 {
                    direction
                } else {
                    old(self).last_direction
                }
                &&& final(self).sample_threshold == old(self).sample_threshold
                &&& seen < old(self).sample_threshold ==> {
                    &&& r is None
                    &&& final(self).samples == seen
                    &&& final(self).adjustments == adj
                    &&& final(self).oscillations == osc
                }
                &&& seen >= old(self).sample_threshold ==> {
                    &&& final(self).samples == 0
                    &&& final(self).adjustments == 0
                    &&& final(self).oscillations == 0
                    &&& match shift_for(osc, adj) {
                        None => r is None,
                        Some(shift) => r matches Some(s) && s.shift == shift && s.oscillations
                            == osc && s.adjustments == adj,
                    }
                }
            }),
    {
        self.adjustments = self.adjustments + 1;
        self.samples = self.samples + 1;
        if direction != 0 {
            if self.last_direction != 0 && (direction > 0) != (self.last_direction > 0) {
                self.oscillations = self.oscillations + 1;
            }
            self.last_direction = direction;
        }
        if self.samples < self.sample_threshold {
            return None;
        }
        let osc = self.oscillations;
        let adj = self.adjustments;
        let base: usize = if adj >= 1 {
            adj
        } else {
            1
        };
        let wide = (osc as u128) * 2 > base as u128;
        let narrow = (osc as u128) * 5 < base as u128 && adj > 5;
        let result = if wide {
            Some(RangeSignal { shift: RangeShift::Widen, oscillations: osc, adjustments: adj })
        } else if narrow {
            Some(RangeSignal { shift: RangeShift::Narrow, oscillations: osc, adjustments: adj })
        } else {
            None
        };
        self.samples = 0;
        self.adjustments = 0;
        self.oscillations = 0;
        result
    }
}

/// One round of event propagation: hands the queued events out in order
/// until the queue is empty or the step cap is reached.
pub struct PropagationRound {
    steps: usize,
}

impl PropagationRound {
    #[verifier::type_invariant]
    spec fn within_cap(&self) -> bool {
        self.steps <= MAX_PROPAGATION_STEPS
    }

    /// The number of events handed out so far.
    pub closed spec fn step_count(&self) -> nat {
        self.steps as nat
    }

    pub fn new() -> (r: Self)
        ensures
            r.step_count() == 0,
    {
        PropagationRound { steps: 0 }
    }

    pub fn steps(&self) -> (r: usize)
        ensures
            r == self.step_count(),
            r <= MAX_PROPAGATION_STEPS,
    {
        proof {
            use_type_invariant(self);
        }
        self.steps
    }

    /// The next event to offer the tiers, taken from the front of `queue`;
    /// `None`, with nothing changed, once the queue is empty or the cap is
    /// reached.
    pub fn next_event<T>(&mut self, queue: &mut EventQueue<T>) -> (r: Option<T>)
        requires
            old(queue).wf(),
        ensures
            final(queue).wf(),
            final(queue).capacity() == old(queue).capacity(),
            final(self).step_count() <= MAX_PROPAGATION_STEPS,
            old(self).step_count() < MAX_PROPAGATION_STEPS && old(queue)@.len() > 0 ==> {
                &&& r == Some(old(queue)@[0])
                &&& final(queue)@ == old(queue)@.drop_first()
                &&& final(self).step_count() == old(self).step_count() + 1
            },
            !(old(self).step_count() < MAX_PROPAGATION_STEPS && old(queue)@.len() > 0) ==> {
                &&& r is None
                &&& final(queue)@ == old(queue)@
                &&& final(self).step_count() == old(self).step_count()
            },
    {
        proof {
            use_type_invariant(&*self);
        }
        if queue.is_empty() || self.steps >= MAX_PROPAGATION_STEPS {
            return None;
        }
        let event = queue.dequeue();
        self.steps = self.steps + 1;
        event
    }
}

} // verus!
