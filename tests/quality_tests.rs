use xpbd_core::quality::{AdaptiveQuality, FrameLoad};

/// Smoothed frame time, as the host keeps it: an exponential moving average with
/// weight 0.3 on the newest sample, classified against the budget.
struct FrameClock {
    budget_ms: f32,
    ema_ms: f32,
}

impl FrameClock {
    fn feed(&mut self, aq: &mut AdaptiveQuality, physics_ms: f32) {
        if !aq.enabled {
            return;
        }
        self.ema_ms = self.ema_ms * 0.7 + physics_ms * 0.3;
        let load = if self.ema_ms > self.budget_ms {
            FrameLoad::OverBudget
        } else if self.ema_ms < self.budget_ms * 0.6 {
            FrameLoad::WellUnder
        } else {
            FrameLoad::Acceptable
        };
        aq.update(load);
    }
}

#[test]
fn test_adaptive_reduces_on_overbudget() {
    let mut aq = AdaptiveQuality::new(4, 3);
    aq.enabled = true;
    let mut clock = FrameClock { budget_ms: 8.0, ema_ms: 0.0 };

    for _ in 0..10 {
        clock.feed(&mut aq, 12.0);
    }

    assert!(
        aq.substeps() < 4 || aq.iterations() < 3,
        "Quality should be reduced: substeps={}, iterations={}",
        aq.substeps(),
        aq.iterations()
    );
}

#[test]
fn test_adaptive_restores_under_budget() {
    let mut aq = AdaptiveQuality::new(4, 3);
    aq.enabled = true;
    aq.current_substeps = 2;
    aq.current_iterations = 1;
    let mut clock = FrameClock { budget_ms: 8.0, ema_ms: 3.0 };

    for _ in 0..100 {
        clock.feed(&mut aq, 2.0);
    }

    assert!(
        aq.substeps() > 2 || aq.iterations() > 1,
        "Quality should be partially restored: substeps={}, iterations={}",
        aq.substeps(),
        aq.iterations()
    );
}

#[test]
fn test_adaptive_disabled_uses_max() {
    let aq = AdaptiveQuality::new(4, 3);
    assert!(!aq.enabled);
    assert_eq!(aq.substeps(), 4);
    assert_eq!(aq.iterations(), 3);
}

#[test]
fn test_adaptive_never_below_minimum() {
    let mut aq = AdaptiveQuality::new(4, 3);
    aq.enabled = true;
    aq.min_substeps = 1;
    aq.min_iterations = 1;
    let mut clock = FrameClock { budget_ms: 8.0, ema_ms: 0.0 };

    for _ in 0..100 {
        clock.feed(&mut aq, 100.0);
    }

    assert!(aq.substeps() >= 1);
    assert!(aq.iterations() >= 1);
}

#[test]
fn test_acceptable_range_no_quality_change() {
    let mut aq = AdaptiveQuality::new(4, 3);
    aq.enabled = true;
    let mut clock = FrameClock { budget_ms: 8.0, ema_ms: 0.0 };

    for _ in 0..50 {
        clock.feed(&mut aq, 6.0);
    }

    assert_eq!(aq.substeps(), 4, "substeps should stay at max in acceptable range");
    assert_eq!(aq.iterations(), 3, "iterations should stay at max in acceptable range");
}

#[test]
fn test_reduction_order_iterations_first() {
    let mut aq = AdaptiveQuality::new(4, 3);
    aq.enabled = true;
    let mut clock = FrameClock { budget_ms: 8.0, ema_ms: 10.0 };

    clock.feed(&mut aq, 12.0);
    assert_eq!(aq.iterations(), 2, "First reduction should lower iterations");
    assert_eq!(aq.substeps(), 4, "Substeps should still be at max");

    clock.feed(&mut aq, 12.0);
    assert_eq!(aq.iterations(), 1);
    assert_eq!(aq.substeps(), 4);

    clock.feed(&mut aq, 12.0);
    assert_eq!(aq.substeps(), 3, "Substeps should drop after iterations bottomed out");
    assert_eq!(aq.iterations(), 3, "Iterations should be restored to max after substep drop");
}

#[test]
fn test_restoration_requires_30_frames() {
    let mut aq = AdaptiveQuality::new(4, 3);
    aq.enabled = true;
    aq.current_substeps = 2;
    aq.current_iterations = 1;
    let mut clock = FrameClock { budget_ms: 8.0, ema_ms: 2.0 };

    for _ in 0..30 {
        clock.feed(&mut aq, 2.0);
    }
    assert_eq!(aq.iterations(), 1, "Should not restore at exactly 30 frames");

    clock.feed(&mut aq, 2.0);
    assert_eq!(aq.iterations(), 2, "Frame 31 should restore iterations");
}

#[test]
fn test_disabled_update_no_effect() {
    let mut aq = AdaptiveQuality::new(4, 3);
    for _ in 0..100 {
        aq.update(FrameLoad::OverBudget);
    }
    assert_eq!(aq.substeps(), 4);
    assert_eq!(aq.iterations(), 3);
}

#[test]
fn restoring_past_max_iterations_adds_a_substep_at_min_iterations() {
    let mut aq = AdaptiveQuality::new(4, 3);
    aq.enabled = true;
    aq.current_substeps = 2;
    aq.current_iterations = 3;
    for _ in 0..31 {
        aq.update(FrameLoad::WellUnder);
    }
    assert_eq!(aq.substeps(), 3);
    assert_eq!(aq.iterations(), 1);
    assert_eq!(aq.frames_under_budget, 0);
}

#[test]
fn acceptable_load_caps_the_counter_at_fifteen() {
    let mut aq = AdaptiveQuality::new(4, 3);
    aq.enabled = true;
    for _ in 0..20 {
        aq.update(FrameLoad::WellUnder);
    }
    assert_eq!(aq.frames_under_budget, 20);
    aq.update(FrameLoad::Acceptable);
    assert_eq!(aq.frames_under_budget, 15);
    aq.update(FrameLoad::OverBudget);
    assert_eq!(aq.frames_under_budget, 0);
}

#[test]
fn over_budget_at_the_floor_changes_nothing() {
    let mut aq = AdaptiveQuality::new(1, 1);
    aq.enabled = true;
    aq.update(FrameLoad::OverBudget);
    assert_eq!(aq.substeps(), 1);
    assert_eq!(aq.iterations(), 1);
}
