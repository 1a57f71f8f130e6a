use vstd::prelude::*;

verus! {

/// How the latest smoothed frame time compares with the budget.
#[derive(Clone, Copy, PartialEq, Eq, Debug, Structural)]
pub enum FrameLoad {
    /// Above the budget.
    OverBudget,
    /// Below 60% of the budget.
    WellUnder,
    /// Between 60% and 100% of the budget.
    Acceptable,
}

/// Frames well under budget after which quality is raised one notch.
pub const RESTORE_AFTER_FRAMES: u32 = 30;

/// Ceiling of the under-budget counter while the load is merely acceptable.
pub const ACCEPTABLE_FRAMES_CAP: u32 = 15;

/// Adaptive quality controller: lowers solver iterations, then substeps, when the
/// frame time runs over budget, and raises them back, iterations first, after a
/// run of frames well under budget.
pub struct AdaptiveQuality {
    pub min_substeps: u32,
    pub max_substeps: u32,
    pub min_iterations: u32,
    pub max_iterations: u32,
    pub enabled: bool,
    /// Substeps in use while enabled.
    pub current_substeps: u32,
    /// Solver iterations in use while enabled.
    pub current_iterations: u32,
    /// Consecutive frames under budget, counted toward raising quality.
    pub frames_under_budget: u32,
}

impl AdaptiveQuality {
    pub open spec fn wf(&self) -> bool {
        self.frames_under_budget <= RESTORE_AFTER_FRAMES
    }

    /// Substeps the solver should run.
    pub open spec fn substeps_spec(&self) -> u32 {
        if self.enabled {
            self.current_substeps
        } else {
            self.max_substeps
        }
    }

    /// Solver iterations the solver should run.
    pub open spec fn iterations_spec(&self) -> u32 {
        if self.enabled {
            self.current_iterations
        } else {
            self.max_iterations
        }
    }

    /// A disabled controller at full quality, with minimums of one.
    pub fn new(max_substeps: u32, max_iterations: u32) -> (q: Self)
        ensures
            q.wf(),
            q.min_substeps == 1,
            q.max_substeps == max_substeps,
            q.min_iterations == 1,
            q.max_iterations == max_iterations,
            !q.enabled,
            q.current_substeps == max_substeps,
            q.current_iterations == max_iterations,
            q.frames_under_budget == 0,
    {
        AdaptiveQuality {
            min_substeps: 1,
            max_substeps,
            min_iterations: 1,
            max_iterations,
            enabled: false,
            current_substeps: max_substeps,
            current_iterations: max_iterations,
            frames_under_budget: 0,
        }
    }

    /// Current recommended substeps (the maximum while disabled).
    pub fn substeps(&self) -> (r: u32)
        ensures
            r == self.substeps_spec(),
    {
        if self.enabled {
            self.current_substeps
        } else {
            self.max_substeps
        }
    }

    /// Current recommended solver iterations (the maximum while disabled).
    pub fn iterations(&self) -> (r: u32)
        ensures
            r == self.iterations_spec(),
    {
        if self.enabled {
            self.current_iterations
        } else {
            self.max_iterations
        }
    }

    /// Takes in the load of the latest frame. Disabled, it does nothing.
    pub fn update(&mut self, load: FrameLoad)
        requires
            old(self).wf(),
        ensures
            final(self).wf(),
            update_relation(*old(self), *final(self), load),
    {
        if !self.enabled {
            return;
        }
        match load {
            FrameLoad::OverBudget => {
                self.frames_under_budget = 0;
                if self.current_iterations > self.min_iterations {
                    self.current_iterations = self.current_iterations - 1;
                } else if self.current_substeps > self.min_substeps {
                    self.current_substeps = self.current_substeps - 1;
                    self.current_iterations = self.max_iterations;
                }
            },
            FrameLoad::WellUnder => {
                self.frames_under_budget = self.frames_under_budget + 1;
                if self.frames_under_budget > RESTORE_AFTER_FRAMES {
                    self.frames_under_budget = 0;
                    if self.current_iterations < self.max_iterations {
                        self.current_iterations = self.current_iterations + 1;
                    } else if self.current_substeps < self.max_substeps {
                        self.current_substeps = self.current_substeps + 1;
                        self.current_iterations = self.min_iterations;
                    }
                }
            },
            FrameLoad::Acceptable => {
                let f = self.frames_under_budget + 1;
                self.frames_under_budget = if f < ACCEPTABLE_FRAMES_CAP {
                    f
                } else {
                    ACCEPTABLE_FRAMES_CAP
                };
            },
        }
    }
}

/// `q2` is what an update with `load` makes of `q1`.
pub open spec fn update_relation(q1: AdaptiveQuality, q2: AdaptiveQuality, load: FrameLoad) -> bool {
    &&& q2.min_substeps == q1.min_substeps
    &&& q2.max_substeps == q1.max_substeps
    &&& q2.min_iterations == q1.min_iterations
    &&& q2.max_iterations == q1.max_iterations
    &&& q2.enabled == q1.enabled
    &&& ({
        let s = q1.current_substeps;
        let i = q1.current_iterations;
        let f = q1.frames_under_budget;
        let s2 = q2.current_substeps;
        let i2 = q2.current_iterations;
        let f2 = q2.frames_under_budget;
        if !q1.enabled {
            s2 == s && i2 == i && f2 == f
        } else {
            match load {
                FrameLoad::OverBudget => {
                    &&& f2 == 0
                    &&& if i > q1.min_iterations {
                        s2 == s && i2 == i - 1
                    } else if s > q1.min_substeps {
                        s2 == s - 1 && i2 == q1.max_iterations
                    } else {
                        s2 == s && i2 == i
                    }
                },
                FrameLoad::WellUnder => {
                    if f + 1 > RESTORE_AFTER_FRAMES {
                        &&& f2 == 0
                        &&& if i < q1.max_iterations {
                            s2 == s && i2 == i + 1
                        } else if s < q1.max_substeps {
                            s2 == s + 1 && i2 == q1.min_iterations
                        } else {
                            s2 == s && i2 == i
                        }
                    } else {
                        f2 == f + 1 && s2 == s && i2 == i
                    }
                },
                FrameLoad::Acceptable => {
                    &&& f2 == if f + 1 < ACCEPTABLE_FRAMES_CAP {
                        f + 1
                    } else {
                        ACCEPTABLE_FRAMES_CAP as int
                    }
                    &&& s2 == s
                    &&& i2 == i
                },
            }
        }
    })
}

/// Quality never drops below the minimums: a controller whose settings are within
/// their minimums stays so after any update.
pub proof fn lemma_update_keeps_minimums(q1: AdaptiveQuality, q2: AdaptiveQuality, load: FrameLoad)
    requires
        q1.wf(),
        q1.min_substeps <= q1.current_substeps,
        q1.min_iterations <= q1.current_iterations,
        q1.min_iterations <= q1.max_iterations,
        q1.min_substeps <= q1.max_substeps,
        update_relation(q1, q2, load),
    ensures
        q2.min_substeps <= q2.current_substeps,
        q2.min_iterations <= q2.current_iterations,
        q2.substeps_spec() >= q2.min_substeps,
        q2.iterations_spec() >= q2.min_iterations,
{
}

} // verus!
