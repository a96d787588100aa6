//! Rate control: the budget, the opening QP, and the feedback loop.
use hevc_engine::ratecontrol::{log2_q8, RateController, MAX_QP_STEP, QP_AT_UNIT_BPP, QP_MAX, QP_MIN};

const TIMESCALE: u32 = 30_000;
const FRAME_DURATION: u32 = 1_001;

#[test]
fn log2_q8_tracks_the_real_logarithm() {
    for x in [1u64, 2, 3, 7, 100, 1_000, 65_535, 1 << 20, u64::from(u32::MAX)] {
        let approximated = f64::from(log2_q8(x)) / 256.0;
        let exact = (x as f64).log2();
        assert!(
            (approximated - exact).abs() < 0.09,
            "log2({x}) approximated as {approximated} against {exact}"
        );
    }
    for shift in 0..40u32 {
        assert_eq!(log2_q8(1 << shift), (shift as i32) * 256);
    }
}

#[test]
fn the_budget_is_the_bitrate_over_the_frame_rate() {
    let c = RateController::new(1_000_000, TIMESCALE, FRAME_DURATION, 64 * 64);
    assert_eq!(c.picture_bits(), 1_000_000 * 1_001 / 30_000);
    let starved = RateController::new(1, TIMESCALE, FRAME_DURATION, 64 * 64);
    assert_eq!(starved.picture_bits(), 1);
}

#[test]
fn the_opening_qp_is_coarser_the_tighter_the_budget() {
    let pixels = 64 * 64;
    let qps: Vec<i32> = [1_000_000u32, 500_000, 250_000, 125_000, 62_000]
        .iter()
        .map(|&bitrate| RateController::new(bitrate, TIMESCALE, FRAME_DURATION, pixels).qp())
        .collect();
    for pair in qps.windows(2) {
        assert!(
            pair[1] > pair[0],
            "a tighter budget must open coarser: {qps:?}"
        );
    }
    assert!(
        qps.iter().all(|qp| (QP_MIN..=QP_MAX).contains(qp)),
        "the opening QP must be codable: {qps:?}"
    );
    let one_bpp = RateController::new(125_000, TIMESCALE, FRAME_DURATION, pixels);
    assert!(
        (one_bpp.qp() - QP_AT_UNIT_BPP).abs() <= 1,
        "one bit per pixel should open near {QP_AT_UNIT_BPP}, got {}",
        one_bpp.qp()
    );
    assert_eq!(
        RateController::new(100, TIMESCALE, FRAME_DURATION, pixels).qp(),
        QP_MAX
    );
}

#[test]
fn overshooting_the_budget_coarsens_and_undershooting_refines() {
    let mut c = RateController::new(1_000_000, TIMESCALE, FRAME_DURATION, 64 * 64);
    let opened = c.qp();
    c.observe(c.picture_bits() * 2);
    assert!(
        c.qp() > opened,
        "a picture over budget must coarsen: {opened} -> {}",
        c.qp()
    );
    let mut c = RateController::new(1_000_000, TIMESCALE, FRAME_DURATION, 64 * 64);
    c.observe(c.picture_bits() / 4);
    assert!(
        c.qp() < opened,
        "a picture under budget must refine: {opened} -> {}",
        c.qp()
    );
    let mut c = RateController::new(1_000_000, TIMESCALE, FRAME_DURATION, 64 * 64);
    c.observe(c.picture_bits());
    assert_eq!(c.qp(), opened, "hitting the budget must not move the QP");
}

#[test]
fn one_observation_moves_at_most_a_full_doubling_and_stays_in_range() {
    let mut c = RateController::new(1_000_000, TIMESCALE, FRAME_DURATION, 64 * 64);
    let opened = c.qp();
    c.observe(u64::from(u32::MAX));
    assert_eq!(
        c.qp(),
        (opened + MAX_QP_STEP).min(QP_MAX),
        "a wildly oversized picture must still move one step"
    );
    for _ in 0..64 {
        c.observe(u64::from(u32::MAX));
    }
    assert_eq!(c.qp(), QP_MAX);
    for _ in 0..64 {
        c.observe(1);
    }
    assert_eq!(c.qp(), QP_MIN);
}

#[test]
fn the_loop_converges_on_the_qp_that_spends_the_budget() {
    let k = 1_000_000.0f64;
    let cost = |qp: i32| (k * 2f64.powf(-f64::from(qp) / 6.0)) as u64;
    let mut c = RateController::new(2_000_000, TIMESCALE, FRAME_DURATION, 64 * 64);
    for _ in 0..12 {
        let bits = cost(c.qp());
        c.observe(bits);
    }
    let settled = cost(c.qp()) as f64 / c.picture_bits() as f64;
    assert!(
        (0.75..1.35).contains(&settled),
        "the loop settled at QP {} spending {settled:.3} of its budget",
        c.qp()
    );
}

#[test]
fn a_doubled_cost_moves_a_full_step() {
    let mut c = RateController::new(250_000, TIMESCALE, FRAME_DURATION, 64 * 64);
    let opened = c.qp();
    c.observe(c.picture_bits() * 2);
    assert_eq!(c.qp(), (opened + MAX_QP_STEP).min(QP_MAX));
}

#[test]
fn log2_interpolates_between_powers() {
    assert_eq!(log2_q8(3), 256 + 128);
    assert_eq!(log2_q8(5), 512 + 64);
}
