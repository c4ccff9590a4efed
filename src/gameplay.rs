use vstd::prelude::*;

use crate::clock::{ClockModel, SimulationClock};
use crate::error::ConfigurationError;
use crate::field::Field;
use crate::grid::{lemma_generations_keep_shape, Grid};
use crate::gameplay_params::{GameplayParams, MapGeneration};

verus! {

/// A running simulation: the field and the clock that paces it.
pub struct Gameplay {
    field: Field,
    clock: SimulationClock,
}

impl Gameplay {
    /// The field as a value.
    pub closed spec fn grid(&self) -> Grid {
        self.field@
    }

    /// The clock as a value.
    pub closed spec fn timing(&self) -> ClockModel {
        self.clock@
    }

    pub closed spec fn wf(&self) -> bool {
        self.field.wf()
    }

    /// A simulation for `params` whose clock counts from `now`.
    ///
    /// The field is checked first: an empty field, or a glider on a field
    /// under three by three, is refused before a zero update rate.
    pub fn new(params: &GameplayParams, now: u64) -> (r: Result<Gameplay, ConfigurationError>)
        requires
            params.field_size * params.field_size <= usize::MAX,
        ensures
            params.field_size == 0 ==> r == Err::<Gameplay, _>(ConfigurationError::ZeroFieldSize),
            params.field_size != 0 && params.field_size < 3 && params.map_generation
                == MapGeneration::Glider ==> r == Err::<Gameplay, _>(
                ConfigurationError::FieldTooSmallForGlider,
            ),
            (params.field_size >= 3 || (params.field_size >= 1 && params.map_generation
                == MapGeneration::Random)) && params.milli_updates_per_sec == 0 ==> r == Err::<
                Gameplay,
                _,
            >(ConfigurationError::ZeroUpdateRate),
            r is Ok <==> (params.field_size >= 3 || (params.field_size >= 1
                && params.map_generation == MapGeneration::Random)) && params.milli_updates_per_sec > 0,
            r matches Ok(g) ==> {
                &&& g.wf()
                &&& g.grid().well_formed()
                &&& g.grid().width == params.field_size
                &&& g.grid().borders == params.field_borders
                &&& params.map_generation == MapGeneration::Glider ==> g.grid() == Grid::glider(
                    params.field_size as nat,
                    params.field_borders,
                )
                &&& g.timing() == ClockModel::started(params.milli_updates_per_sec as nat, now as int)
            },
    {
        let field = match Field::new(params) {
            Ok(f) => f,
            Err(e) => return Err(e),
        };
        let clock = match SimulationClock::new(params.milli_updates_per_sec, now) {
            Ok(c) => c,
            Err(e) => return Err(e),
        };
        Ok(Gameplay { field, clock })
    }

    /// The field.
    pub fn field(&self) -> (r: &Field)
        ensures
            r@ == self.grid(),
            self.wf() ==> r.wf(),
    {
        &self.field
    }

    /// The clock.
    pub fn clock(&self) -> (r: &SimulationClock)
        ensures
            r@ == self.timing(),
    {
        &self.clock
    }

    pub fn is_paused(&self) -> (r: bool)
        ensures
            r == !self.timing().is_running(),
    {
        self.clock.is_paused()
    }

    /// One frame at `now`: asks the clock how many generations are due and
    /// advances the field by that many, one whole generation after another.
    /// Returns the number of generations advanced.
    pub fn tick(&mut self, now: u64) -> (r: u32)
        requires
            old(self).wf(),
        ensures
            final(self).wf(),
            r == old(self).timing().ticks_at(now as int),
            final(self).timing() == old(self).timing().after_tick(now as int),
            final(self).grid() == old(self).grid().generations(r as nat),
            final(self).grid().width == old(self).grid().width,
    {
        let updates = self.clock.tick(now);
        let ghost start = self.field@;
        let mut done: u32 = 0;
        while done < updates
            invariant
                self.field.wf(),
                0 <= done <= updates,
                self.field@ == start.generations(done as nat),
                self.clock@ == old(self).clock@.after_tick(now as int),
            decreases updates - done,
        {
            self.field.update();
            done += 1;
        }
        proof {
            lemma_generations_keep_shape(start, updates as nat);
        }
        updates
    }

    /// Pauses the simulation at `now`; nothing changes if it is paused.
    pub fn pause(&mut self, now: u64)
        requires
            old(self).wf(),
        ensures
            final(self).wf(),
            final(self).grid() == old(self).grid(),
            final(self).timing() == old(self).timing().paused(now as int),
    {
        self.clock.pause(now);
    }

    /// Resumes the simulation at `now`, so that the paused time is not
    /// counted; nothing changes if it runs.
    pub fn resume(&mut self, now: u64)
        requires
            old(self).wf(),
        ensures
            final(self).wf(),
            final(self).grid() == old(self).grid(),
            final(self).timing() == old(self).timing().resumed(now as int),
    {
        self.clock.resume(now);
    }

    /// Pauses a running simulation, or resumes a paused one, at `now`.
    pub fn swap_pause_state(&mut self, now: u64)
        requires
            old(self).wf(),
        ensures
            final(self).wf(),
            final(self).grid() == old(self).grid(),
            final(self).timing() == old(self).timing().toggled(now as int),
    {
        self.clock.swap_pause_state(now);
    }
}

} // verus!
