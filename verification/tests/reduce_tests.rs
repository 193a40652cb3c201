use kmeans_quant::color::Rgba;
use kmeans_quant::image::Image;
use kmeans_quant::reduce::{
    accumulate_batch, combine_partials, reduce_cluster, reduce_workgroup, reduction_groups,
    Accumulator, BLOCK_SIZE, N_SEQ, WORKGROUP_SIZE,
};

fn synthetic(total: u32, clusters: u32) -> (Image, Vec<u32>) {
    let mut bytes = Vec::new();
    let mut assignment = Vec::new();
    for i in 0..total {
        bytes.push((i % 256) as u8);
        bytes.push((i * 7 % 256) as u8);
        bytes.push((i / 3 % 256) as u8);
        bytes.push(255);
        assignment.push((i * i + i / 5) % clusters);
    }
    (Image::new((total, 1), bytes), assignment)
}

fn naive(image: &Image, assignment: &[u32], cluster: u32, lo: usize, hi: usize) -> Accumulator {
    let bytes = image.raw_pixels();
    let mut acc = Accumulator { r: 0, g: 0, b: 0, a: 0, count: 0 };
    for i in lo..hi {
        if assignment[i] == cluster {
            acc.r += bytes[4 * i] as u64;
            acc.g += bytes[4 * i + 1] as u64;
            acc.b += bytes[4 * i + 2] as u64;
            acc.a += bytes[4 * i + 3] as u64;
            acc.count += 1;
        }
    }
    acc
}

#[test]
fn block_is_workgroup_times_batch() {
    assert_eq!(BLOCK_SIZE, WORKGROUP_SIZE * N_SEQ);
    assert_eq!(N_SEQ, 24);
    assert_eq!(WORKGROUP_SIZE, 256);
}

#[test]
fn accumulator_adds_and_merges() {
    let mut acc = Accumulator::empty();
    assert_eq!(acc, Accumulator { r: 0, g: 0, b: 0, a: 0, count: 0 });
    acc.add_pixel(Rgba { r: 1, g: 2, b: 3, a: 4 });
    acc.add_pixel(Rgba { r: 255, g: 0, b: 255, a: 0 });
    assert_eq!(acc, Accumulator { r: 256, g: 2, b: 258, a: 4, count: 2 });
    let other = Accumulator { r: 10, g: 20, b: 30, a: 40, count: 1 };
    acc.merge(&other);
    assert_eq!(acc, Accumulator { r: 266, g: 22, b: 288, a: 44, count: 3 });
}

#[test]
fn batch_sums_only_its_cluster_and_range() {
    let (image, assignment) = synthetic(100, 3);
    for cluster in 0..3 {
        assert_eq!(
            accumulate_batch(&image, &assignment, cluster, 10, 34),
            naive(&image, &assignment, cluster, 10, 34)
        );
    }
    assert_eq!(accumulate_batch(&image, &assignment, 1, 50, 50), Accumulator::empty());
}

#[test]
fn workgroup_covers_its_block() {
    let (image, assignment) = synthetic(2 * 6144 + 100, 4);
    for cluster in 0..4 {
        assert_eq!(
            reduce_workgroup(&image, &assignment, cluster, 0),
            naive(&image, &assignment, cluster, 0, 6144)
        );
        assert_eq!(
            reduce_workgroup(&image, &assignment, cluster, 1),
            naive(&image, &assignment, cluster, 6144, 12288)
        );
        assert_eq!(
            reduce_workgroup(&image, &assignment, cluster, 2),
            naive(&image, &assignment, cluster, 12288, 12388)
        );
        assert_eq!(reduce_workgroup(&image, &assignment, cluster, 3), Accumulator::empty());
    }
}

#[test]
fn groups_cover_all_pixels() {
    assert_eq!(reduction_groups(0), 0);
    assert_eq!(reduction_groups(1), 1);
    assert_eq!(reduction_groups(6144), 1);
    assert_eq!(reduction_groups(6145), 2);
    assert_eq!(reduction_groups(u32::MAX), 699051);
}

#[test]
fn partials_combine_to_their_sum() {
    let partials = vec![
        Accumulator { r: 1, g: 2, b: 3, a: 4, count: 1 },
        Accumulator::empty(),
        Accumulator { r: 500, g: 0, b: 10, a: 510, count: 2 },
    ];
    assert_eq!(
        combine_partials(&partials),
        Accumulator { r: 501, g: 2, b: 13, a: 514, count: 3 }
    );
    assert_eq!(combine_partials(&Vec::new()), Accumulator::empty());
}

#[test]
fn two_stage_reduction_equals_plain_sum() {
    for &total in &[0u32, 1, 23, 24, 25, 6143, 6144, 6145, 20000] {
        let (image, assignment) = synthetic(total, 5);
        for cluster in 0..6 {
            assert_eq!(
                reduce_cluster(&image, &assignment, cluster),
                naive(&image, &assignment, cluster, 0, total as usize)
            );
        }
    }
}
