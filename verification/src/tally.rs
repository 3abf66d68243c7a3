//! The tally of shots and kills that the combat and loot lines of the log keep.

use vstd::prelude::*;

verus! {

/// Shots fired in all, shots fired at the current mob, and mobs killed.
#[derive(Debug)]
pub struct KillTally {
    totalshots: i32,
    lastmobshots: i32,
    numberofkills: i32,
}

impl KillTally {
    /// Shots recorded in all.
    pub closed spec fn total_shots(&self) -> int {
        self.totalshots as int
    }

    /// Shots recorded since the last loot.
    pub closed spec fn mob_shots(&self) -> int {
        self.lastmobshots as int
    }

    /// Kills counted.
    pub closed spec fn kills(&self) -> int {
        self.numberofkills as int
    }

    /// Every kill took at least one shot of its own, and the shots at the
    /// current mob are not yet part of a kill: kills and current shots
    /// together never exceed the shots fired.
    pub open spec fn inv(&self) -> bool {
        &&& 0 <= self.kills()
        &&& 0 <= self.mob_shots()
        &&& self.kills() + self.mob_shots() <= self.total_shots()
        &&& self.total_shots() <= i32::MAX
    }

    /// An empty tally.
    pub fn new() -> (t: KillTally)
        ensures
            t.inv(),
            t.total_shots() == 0,
            t.mob_shots() == 0,
            t.kills() == 0,
    {
        KillTally { totalshots: 0, lastmobshots: 0, numberofkills: 0 }
    }

    /// Shots recorded in all.
    pub fn totalshots(&self) -> (n: i32)
        ensures
            n == self.total_shots(),
    {
        self.totalshots
    }

    /// Shots recorded since the last loot.
    pub fn lastmobshots(&self) -> (n: i32)
        ensures
            n == self.mob_shots(),
    {
        self.lastmobshots
    }

    /// Kills counted.
    pub fn numberofkills(&self) -> (n: i32)
        ensures
            n == self.kills(),
    {
        self.numberofkills
    }

    /// Records one hit that did damage: one more shot in all and at the current mob.
    pub fn record_hit(&mut self)
        requires
            old(self).inv(),
            old(self).total_shots() < i32::MAX,
        ensures
            final(self).inv(),
            final(self).total_shots() == old(self).total_shots() + 1,
            final(self).mob_shots() == old(self).mob_shots() + 1,
            final(self).kills() == old(self).kills(),
    {
        self.totalshots = self.totalshots + 1;
        self.lastmobshots = self.lastmobshots + 1;
    }

    /// Records a loot line. When shots were fired since the last loot, the mob
    /// counts as killed and the shot count reported for it (one more than the
    /// shots recorded at it) is returned; either way the count of shots at the
    /// current mob starts over.
    pub fn record_loot(&mut self) -> (shots_on_mob: Option<i32>)
        requires
            old(self).inv(),
            old(self).mob_shots() < i32::MAX,
        ensures
            final(self).inv(),
            old(self).mob_shots() > 0 ==> shots_on_mob == Some((old(self).mob_shots() + 1) as i32)
                && final(self).kills() == old(self).kills() + 1,
            old(self).mob_shots() == 0 ==> shots_on_mob is None && final(self).kills() == old(
                self,
            ).kills(),
            final(self).mob_shots() == 0,
            final(self).total_shots() == old(self).total_shots(),
    {
        let counted = if self.lastmobshots > 0 {
            self.numberofkills = self.numberofkills + 1;
            self.lastmobshots = self.lastmobshots + 1;
            Some(self.lastmobshots)
        } else {
            None
        };
        self.lastmobshots = 0;
        counted
    }
}

impl Default for KillTally {
    fn default() -> (t: KillTally)
        ensures
            t.inv(),
            t.total_shots() == 0,
            t.mob_shots() == 0,
            t.kills() == 0,
    {
        KillTally::new()
    }
}

} // verus!
