//! Pipelines of stages.

use photon_ring::topology::builder::{PipelineBuilder, StageLink};
use photon_ring::topology::pipeline::Pipeline;
use photon_ring::topology::stage::{stage_step, StageStep};
use photon_ring::{Pod, SharedRing};

#[derive(Clone, Copy)]
struct Input {
    value: f64,
}

impl Pod for Input {}

#[derive(Clone, Copy, Debug, PartialEq)]
struct Output {
    doubled: f64,
    positive: u8,
}

impl Pod for Output {}

/// Let a stage pass on all that waits for it.
fn run<T: Pod, U: Pod, F: Fn(T) -> U>(stage: &mut StageLink<T, U>, source: &mut SharedRing<T>, f: &F) {
    while stage_step(&mut stage.input, source, &mut stage.output, &mut stage.ring, false, f)
        == StageStep::Passed
    {}
}

#[test]
fn topology_single_stage_pipeline() {
    let (mut pub_, stages, mut ring) = Pipeline::builder().capacity(64).input::<u64>();
    let (mut stage, stages) = stages.link::<u64>();
    let mut output = stages.build();

    pub_.publish(&mut ring, 7);
    run(&mut stage, &mut ring, &|x: u64| x * 3);
    assert_eq!(output.recv(&mut stage.ring), 21);
}

#[test]
fn topology_two_stage_pipeline() {
    let (mut pub_, stages, mut ring) = Pipeline::builder().capacity(64).input::<u64>();
    let (mut first, stages) = stages.link::<u64>();
    let (mut second, stages) = stages.link::<u64>();
    let mut output = stages.build();

    pub_.publish(&mut ring, 10);
    run(&mut first, &mut ring, &|x: u64| x * 2);
    run(&mut second, &mut first.ring, &|x: u64| x + 1);
    assert_eq!(output.recv(&mut second.ring), 21);
}

#[test]
fn topology_three_stage_pipeline() {
    let (mut pub_, stages, mut ring) = Pipeline::builder().capacity(64).input::<i64>();
    let (mut first, stages) = stages.link::<i64>();
    let (mut second, stages) = stages.link::<i64>();
    let (mut third, stages) = stages.link::<i64>();
    let mut output = stages.build();

    pub_.publish(&mut ring, 5);
    run(&mut first, &mut ring, &|x: i64| x + 10);
    run(&mut second, &mut first.ring, &|x: i64| x * 2);
    run(&mut third, &mut second.ring, &|x: i64| x - 5);
    // (5 + 10) * 2 - 5 = 25
    assert_eq!(output.recv(&mut third.ring), 25);
}

#[test]
fn topology_pipeline_multiple_messages() {
    // More slots than messages, so that nothing is lost.
    let (mut pub_, stages, mut ring) = Pipeline::builder().capacity(256).input::<u64>();
    let (mut stage, stages) = stages.link::<u64>();
    let mut output = stages.build();

    for i in 0..100u64 {
        pub_.publish(&mut ring, i);
    }
    run(&mut stage, &mut ring, &|x: u64| x + 1);
    for i in 0..100u64 {
        assert_eq!(output.recv(&mut stage.ring), i + 1);
    }
}

#[test]
fn topology_pipeline_type_transform() {
    let (mut pub_, stages, mut ring) = Pipeline::builder().capacity(64).input::<Input>();
    let (mut stage, stages) = stages.link::<Output>();
    let mut output = stages.build();
    let transform = |inp: Input| Output {
        doubled: inp.value * 2.0,
        positive: if inp.value > 0.0 { 1 } else { 0 },
    };

    pub_.publish(&mut ring, Input { value: 3.5 });
    run(&mut stage, &mut ring, &transform);
    let out = output.recv(&mut stage.ring);
    assert_eq!(out.doubled, 7.0);
    assert_eq!(out.positive, 1);

    pub_.publish(&mut ring, Input { value: -1.0 });
    run(&mut stage, &mut ring, &transform);
    let out = output.recv(&mut stage.ring);
    assert_eq!(out.doubled, -2.0);
    assert_eq!(out.positive, 0);
}

#[test]
fn topology_fan_out_basic() {
    let (mut pub_, stages, mut ring) = Pipeline::builder().capacity(64).input::<u64>();
    let (mut a, mut b, fan) = stages.fan_out::<u64, u64>(&mut ring);
    let (mut out_a, mut out_b) = fan.build();

    pub_.publish(&mut ring, 5);
    run(&mut a, &mut ring, &|x: u64| x * 2);
    run(&mut b, &mut ring, &|x: u64| x + 100);
    assert_eq!(out_a.recv(&mut a.ring), 10);
    assert_eq!(out_b.recv(&mut b.ring), 105);
}

#[test]
fn both_branches_get_what_was_published_before_the_fork() {
    let (mut pub_, stages, mut ring) = Pipeline::builder().capacity(64).input::<u64>();
    pub_.publish(&mut ring, 5);
    let (mut a, mut b, fan) = stages.fan_out::<u64, u64>(&mut ring);
    let (mut out_a, mut out_b) = fan.build();

    pub_.publish(&mut ring, 6);
    run(&mut a, &mut ring, &|x: u64| x * 2);
    run(&mut b, &mut ring, &|x: u64| x + 100);
    assert_eq!(out_a.recv(&mut a.ring), 10);
    assert_eq!(out_b.recv(&mut b.ring), 105);
    assert_eq!(out_a.recv(&mut a.ring), 12);
    assert_eq!(out_b.recv(&mut b.ring), 106);
}

#[test]
fn topology_fan_out_multiple_messages() {
    let (mut pub_, stages, mut ring) = Pipeline::builder().capacity(64).input::<u64>();
    let (mut a, mut b, fan) = stages.fan_out::<u64, u64>(&mut ring);
    let (mut out_a, mut out_b) = fan.build();

    for i in 0..50u64 {
        pub_.publish(&mut ring, i);
    }
    run(&mut a, &mut ring, &|x: u64| x * 10);
    run(&mut b, &mut ring, &|x: u64| x + 1);
    for i in 0..50u64 {
        assert_eq!(out_a.recv(&mut a.ring), i * 10);
        assert_eq!(out_b.recv(&mut b.ring), i + 1);
    }
}

#[test]
fn topology_fan_out_then_a() {
    let (mut pub_, stages, mut ring) = Pipeline::builder().capacity(64).input::<u64>();
    let (mut a, mut b, fan) = stages.fan_out::<u64, u64>(&mut ring);
    let (mut a2, fan) = fan.then_a::<u64>();
    let (mut out_a, mut out_b) = fan.build();

    pub_.publish(&mut ring, 5);
    run(&mut a, &mut ring, &|x: u64| x * 2);
    run(&mut b, &mut ring, &|x: u64| x + 100);
    run(&mut a2, &mut a.ring, &|x: u64| x + 1);
    assert_eq!(out_a.recv(&mut a2.ring), 11); // 5 * 2 + 1
    assert_eq!(out_b.recv(&mut b.ring), 105); // 5 + 100
}

#[test]
fn topology_fan_out_then_b() {
    let (mut pub_, stages, mut ring) = Pipeline::builder().capacity(64).input::<u64>();
    let (mut a, mut b, fan) = stages.fan_out::<u64, u64>(&mut ring);
    let (mut b2, fan) = fan.then_b::<u64>();
    let (mut out_a, mut out_b) = fan.build();

    pub_.publish(&mut ring, 5);
    run(&mut a, &mut ring, &|x: u64| x * 2);
    run(&mut b, &mut ring, &|x: u64| x + 100);
    run(&mut b2, &mut b.ring, &|x: u64| x * 3);
    assert_eq!(out_a.recv(&mut a.ring), 10); // 5 * 2
    assert_eq!(out_b.recv(&mut b2.ring), 315); // (5 + 100) * 3
}

#[test]
fn topology_fan_out_then_both() {
    let (mut pub_, stages, mut ring) = Pipeline::builder().capacity(64).input::<u64>();
    let (mut a, mut b, fan) = stages.fan_out::<u64, u64>(&mut ring);
    let (mut a2, fan) = fan.then_a::<u64>();
    let (mut b2, fan) = fan.then_b::<u64>();
    let (mut out_a, mut out_b) = fan.build();

    pub_.publish(&mut ring, 5);
    run(&mut a, &mut ring, &|x: u64| x * 2);
    run(&mut b, &mut ring, &|x: u64| x + 100);
    run(&mut a2, &mut a.ring, &|x: u64| x + 1);
    run(&mut b2, &mut b.ring, &|x: u64| x * 3);
    assert_eq!(out_a.recv(&mut a2.ring), 11); // 5 * 2 + 1
    assert_eq!(out_b.recv(&mut b2.ring), 315); // (5 + 100) * 3
}

#[test]
fn topology_pipeline_stage_count() {
    let mut pipeline = Pipeline::new();
    assert_eq!(pipeline.start_stage(), 0);
    assert_eq!(pipeline.start_stage(), 1);

    assert_eq!(pipeline.stage_count(), 2);

    pipeline.shutdown();
    assert!(pipeline.is_shutdown());
}

#[test]
fn topology_pipeline_is_healthy() {
    let mut pipeline = Pipeline::new();
    pipeline.start_stage();

    assert!(pipeline.is_healthy());
    assert!(pipeline.panicked_stages().is_empty());

    pipeline.shutdown();
    pipeline.end_stage(0, false);
    // A stage that has completed is not running any more.
    assert!(!pipeline.is_healthy());
    assert!(pipeline.panicked_stages().is_empty());
}

#[test]
fn topology_pipeline_detects_panic() {
    let mut pipeline = Pipeline::new();
    let stage = pipeline.start_stage();
    pipeline.end_stage(stage, true);

    let panicked = !pipeline.panicked_stages().is_empty();
    assert!(panicked, "expected stage to detect panic");
    assert_eq!(pipeline.panicked_stages(), vec![0]);
    assert!(!pipeline.is_healthy());
}

#[test]
fn topology_pipeline_default_builder() {
    let builder = PipelineBuilder::default();
    let (mut pub_, stages, mut ring) = builder.input::<u64>();
    let (mut stage, stages) = stages.link::<u64>();
    let mut output = stages.build();

    pub_.publish(&mut ring, 9);
    run(&mut stage, &mut ring, &|x: u64| x + 1);
    assert_eq!(output.recv(&mut stage.ring), 10);
}

#[test]
fn topology_pipeline_linear_then_fan_out() {
    let (mut pub_, stages, mut ring) = Pipeline::builder().capacity(64).input::<u64>();
    let (mut first, stages) = stages.link::<u64>();
    let (mut a, mut b, fan) = stages.fan_out::<u64, u64>(&mut first.ring);
    let (mut out_a, mut out_b) = fan.build();
    let mut pipeline = Pipeline::new();
    pipeline.start_stage();
    pipeline.start_stage();
    pipeline.start_stage();

    pub_.publish(&mut ring, 5);
    run(&mut first, &mut ring, &|x: u64| x + 10);
    run(&mut a, &mut first.ring, &|x: u64| x * 2);
    run(&mut b, &mut first.ring, &|x: u64| x * 3);
    // (5 + 10) * 2 = 30
    assert_eq!(out_a.recv(&mut a.ring), 30);
    // (5 + 10) * 3 = 45
    assert_eq!(out_b.recv(&mut b.ring), 45);

    assert_eq!(pipeline.stage_count(), 3);
}

#[test]
fn topology_zero_stage_pipeline() {
    let (mut pub_, stages, mut ring) = Pipeline::builder().capacity(64).input::<u64>();
    let mut output = stages.build();

    pub_.publish(&mut ring, 42);
    assert_eq!(output.recv(&mut ring), 42);

    assert_eq!(Pipeline::new().stage_count(), 0);
}

#[test]
fn a_stopped_stage_takes_nothing() {
    let (mut pub_, stages, mut ring) = Pipeline::builder().capacity(4).input::<u64>();
    let (mut stage, _stages) = stages.link::<u64>();
    pub_.publish(&mut ring, 1);
    let step = stage_step(
        &mut stage.input,
        &mut ring,
        &mut stage.output,
        &mut stage.ring,
        true,
        &|x: u64| x,
    );
    assert_eq!(step, StageStep::Stop);
    assert_eq!(stage.input.pending(&ring), 1);
    assert_eq!(stage.output.published(), 0);
}

#[test]
fn a_stage_that_lags_pauses_and_goes_on() {
    let (mut pub_, stages, mut ring) = Pipeline::builder().capacity(4).input::<u64>();
    let (mut stage, stages) = stages.link::<u64>();
    let mut output = stages.build();
    for i in 0..6 {
        pub_.publish(&mut ring, i);
    }
    let step = stage_step(
        &mut stage.input,
        &mut ring,
        &mut stage.output,
        &mut stage.ring,
        false,
        &|x: u64| x,
    );
    assert_eq!(step, StageStep::Pause);
    run(&mut stage, &mut ring, &|x: u64| x);
    assert_eq!(output.drain(&mut stage.ring), vec![2, 3, 4, 5]);
}

#[test]
fn only_the_stages_that_panicked_are_listed() {
    let mut pipeline = Pipeline::new();
    for _ in 0..4 {
        pipeline.start_stage();
    }
    pipeline.end_stage(3, true);
    pipeline.end_stage(0, false);
    pipeline.end_stage(1, true);
    assert_eq!(pipeline.panicked_stages(), vec![1, 3]);
    assert!(!pipeline.is_healthy());
    assert_eq!(pipeline.stage_count(), 4);
}
