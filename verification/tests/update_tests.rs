use kmeans_quant::color::{Centroid, Rgba};
use kmeans_quant::image::Image;
use kmeans_quant::reduce::Accumulator;
use kmeans_quant::update::{converged, update_centroid, update_centroids, TOLERANCE_SQ};

#[test]
fn mean_is_rounded_fixed_point_quotient() {
    let before = Centroid { r: 1, g: 2, b: 3, a: 4 };
    let acc = Accumulator { r: 1, g: 2, b: 3, a: 255 * 3, count: 3 };
    assert_eq!(
        update_centroid(&before, &acc),
        Centroid { r: 21845, g: 43691, b: 65536, a: 255 * 65536 }
    );
    let half = Accumulator { r: 1, g: 255, b: 0, a: 509, count: 2 };
    assert_eq!(
        update_centroid(&before, &half),
        Centroid { r: 32768, g: 127 * 65536 + 32768, b: 0, a: 254 * 65536 + 32768 }
    );
}

#[test]
fn empty_cluster_keeps_its_centroid() {
    let before = Centroid { r: 17, g: 4711, b: 0, a: 255 * 65536 };
    assert_eq!(update_centroid(&before, &Accumulator::empty()), before);
}

#[test]
fn centroids_move_to_cluster_means() {
    let image = Image::new(
        (4, 1),
        vec![10, 0, 0, 255, 20, 0, 0, 255, 200, 100, 0, 255, 201, 100, 0, 255],
    );
    let assignment = vec![0, 0, 2, 2];
    let stale = Rgba { r: 9, g: 9, b: 9, a: 9 }.to_centroid();
    let centroids = vec![stale, stale, stale];
    let after = update_centroids(&image, &assignment, &centroids);
    assert_eq!(
        after,
        vec![
            Centroid { r: 15 * 65536, g: 0, b: 0, a: 255 * 65536 },
            stale,
            Centroid { r: 200 * 65536 + 32768, g: 100 * 65536, b: 0, a: 255 * 65536 },
        ]
    );
}

#[test]
fn convergence_needs_every_centroid_within_tolerance() {
    assert_eq!(TOLERANCE_SQ, 65536);
    let a = Centroid { r: 1000, g: 1000, b: 1000, a: 1000 };
    let near = Centroid { r: 1255, g: 1000, b: 1000, a: 1000 };
    let at = Centroid { r: 1256, g: 1000, b: 1000, a: 1000 };
    let diagonal = Centroid { r: 1128, g: 1128, b: 1128, a: 1128 };
    assert!(converged(&vec![a, a], &vec![a, a]));
    assert!(converged(&vec![a, a], &vec![near, a]));
    assert!(!converged(&vec![a, a], &vec![a, at]));
    assert!(!converged(&vec![a], &vec![diagonal]));
    assert!(converged(&vec![], &vec![]));
}
