//! What a component's update hands back: messages for itself and messages
//! for the component that mounts it.
use vstd::prelude::*;

verus! {

/// Messages to run after a component's update.
pub struct Effects<MSG, PMSG> {
    /// Messages that run on the component's own next update.
    pub follow_ups: Vec<MSG>,
    /// Messages that run in the component that mounts this one.
    pub effects: Vec<PMSG>,
}

impl<MSG, PMSG> Effects<MSG, PMSG> {
    /// Effects with the given follow-ups and effects.
    pub fn new(follow_ups: Vec<MSG>, effects: Vec<PMSG>) -> (r: Self)
        ensures
            r.follow_ups@ == follow_ups@,
            r.effects@ == effects@,
    {
        Effects { follow_ups, effects }
    }

    /// Follow-ups only, no effects.
    pub fn with_follow_ups(follow_ups: Vec<MSG>) -> (r: Self)
        ensures
            r.follow_ups@ == follow_ups@,
            r.effects@.len() == 0,
    {
        Effects { follow_ups, effects: Vec::new() }
    }

    /// Effects only, no follow-ups.
    pub fn with_effects(effects: Vec<PMSG>) -> (r: Self)
        ensures
            r.follow_ups@.len() == 0,
            r.effects@ == effects@,
    {
        Effects { follow_ups: Vec::new(), effects }
    }

    /// Neither follow-ups nor effects.
    pub fn none() -> (r: Self)
        ensures
            r.follow_ups@.len() == 0,
            r.effects@.len() == 0,
    {
        Effects { follow_ups: Vec::new(), effects: Vec::new() }
    }

    /// The same effects, each follow-up passed through `f`, in order.
    pub fn map_follow_ups<F, MSG2>(self, f: F) -> (r: Effects<MSG2, PMSG>)
        where
            F: Fn(MSG) -> MSG2,
        requires
            forall|m: MSG| #[trigger] f.requires((m,)),
        ensures
            r.effects@ == self.effects@,
            r.follow_ups@.len() == self.follow_ups@.len(),
            forall|i: int|
                0 <= i < self.follow_ups@.len() ==> f.ensures(
                    (self.follow_ups@[i],),
                    #[trigger] r.follow_ups@[i],
                ),
    {
        let Effects { follow_ups, effects } = self;
        let ghost src = follow_ups@;
        let mut mapped: Vec<MSG2> = Vec::with_capacity(follow_ups.len());
        let mut rest = follow_ups;
        while rest.len() > 0
            invariant
                mapped@.len() + rest@.len() == src.len(),
                rest@ == src.subrange(mapped@.len() as int, src.len() as int),
                forall|i: int|
                    0 <= i < mapped@.len() ==> f.ensures((src[i],), #[trigger] mapped@[i]),
                forall|m: MSG| #[trigger] f.requires((m,)),
            decreases rest@.len(),
        {
            let m = rest.remove(0);
            let out = f(m);
            mapped.push(out);
        }
        Effects { follow_ups: mapped, effects }
    }
}

} // verus!
