use voter::rank::{rank, HALF_MICRO, SCALE};
use voter::sampler::biased_offset;

#[test]
fn rank_no_votes_is_neutral() {
    let r = rank(0, 0);
    assert_eq!(r.sorting, HALF_MICRO);
    assert_eq!(r.confidence, 0);
}

#[test]
fn rank_only_downvotes_is_linear_penalty() {
    for d in 1..6u32 {
        let r = rank(0, d);
        assert_eq!(r.sorting, -(d as i64) * SCALE);
    }
    // confidence = |0.5 - (-5)| * (5 / 10), in millionths
    let r = rank(0, 5);
    assert_eq!(r.sorting, -5_000_000);
    assert_eq!(r.confidence, 2_750_000);
}

#[test]
fn rank_wilson_exact_values() {
    let r = rank(1, 0);
    assert_eq!(r.sorting, 269_867);
    assert_eq!(r.confidence, 23_013);
    let r = rank(1, 1);
    assert_eq!(r.sorting, 120_866);
    assert_eq!(r.confidence, 75_826);
    let r = rank(10, 3);
    assert_eq!(r.sorting, 541_934);
    assert_eq!(r.confidence, 54_514);
}

#[test]
fn rank_monotone_in_upvotes_for_fixed_downvotes() {
    // Wilson branch: more upvotes never lower the key.
    for d in [0u32, 1, 3, 7, 50, 1000] {
        let mut prev = rank(1, d).sorting;
        for u in 2..200u32 {
            let cur = rank(u, d).sorting;
            assert!(cur >= prev, "sorting dropped at ({}, {})", u, d);
            prev = cur;
        }
        if d > 0 {
            // crossing from no upvotes into the Wilson branch lifts the penalty
            assert!(rank(0, d).sorting <= rank(1, d).sorting);
        }
    }
}

#[test]
fn rank_monotone_in_downvotes_for_fixed_upvotes() {
    for u in [1u32, 2, 4, 9, 100] {
        let mut prev = rank(u, 0).sorting;
        for d in 1..200u32 {
            let cur = rank(u, d).sorting;
            assert!(cur <= prev, "sorting rose at ({}, {})", u, d);
            prev = cur;
        }
    }
    for d in 0..10u32 {
        assert!(rank(0, d + 1).sorting <= rank(0, d).sorting);
    }
}

#[test]
fn sampler_empty_pool_is_offset_zero() {
    assert_eq!(biased_offset(0, 0), 0);
    assert_eq!(biased_offset(0, 30000), 0);
    assert_eq!(biased_offset(0, 65535), 0);
}

#[test]
fn sampler_zero_draw_folds_to_the_front() {
    assert_eq!(biased_offset(10, 0), 0);
    assert_eq!(biased_offset(3, 0), 0);
    assert_eq!(biased_offset(1, 0), 0);
}

#[test]
fn sampler_offset_always_inside_the_pool() {
    for n in [1u32, 2, 3, 10, 1000] {
        for unif in [0u16, 1, 500, 6500, 18500, 32768, 65535] {
            let off = biased_offset(n, unif);
            assert!(off < n, "offset {} out of range for pool {}", off, n);
        }
    }
}

#[test]
fn sampler_skews_toward_the_front() {
    // large draws map to the front of the pool, small ones reach the back
    assert_eq!(biased_offset(3, 65535), 0);
    assert_eq!(biased_offset(3, 18500), 0);
    assert_eq!(biased_offset(3, 6500), 1);
    assert_eq!(biased_offset(3, 500), 2);
    assert_eq!(biased_offset(1000, 1), 999);
}
