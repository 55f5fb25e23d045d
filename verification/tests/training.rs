use railog::centroids::CentroidSet;
use railog::centroids::ShapeError;
use railog::clustering::train;
use railog::clustering::ClassificationTag;
use railog::clustering::ClassificationTag::Core;
use railog::clustering::ClassificationTag::Edge;
use railog::clustering::ClassificationTag::Noise;
use railog::clustering::TrainError;

fn tag(c: dbscan::Classification) -> ClassificationTag {
    match c {
        dbscan::Classification::Core(id) => Core(id),
        dbscan::Classification::Edge(id) => Edge(id),
        dbscan::Classification::Noise => Noise,
    }
}

fn mean(corpus: &[Vec<f32>], group: &[usize]) -> Vec<f32> {
    let mut sum = vec![0.0f32; corpus[0].len()];
    for &i in group {
        for (s, x) in sum.iter_mut().zip(&corpus[i]) {
            *s += x;
        }
    }
    sum.iter().map(|s| s / group.len() as f32).collect()
}

#[test]
fn empty_corpus_gives_nothing_and_is_no_error() {
    assert!(matches!(train(&Vec::new()), Ok(None)));
}

#[test]
fn corpus_of_noise_is_refused() {
    assert_eq!(train(&vec![Noise]).err(), Some(TrainError::NoClustersFound));
    assert_eq!(train(&vec![Noise, Noise, Noise]).err(), Some(TrainError::NoClustersFound));
}

#[test]
fn points_are_grouped_by_cluster_in_corpus_order() {
    let tags = vec![Edge(0), Core(0), Core(0), Core(0), Core(1), Core(1), Core(1), Noise];
    let clustering = train(&tags).unwrap().unwrap();
    assert_eq!(clustering.ids(), &vec![0, 1]);
    assert_eq!(clustering.groups(), &vec![vec![0, 1, 2, 3], vec![4, 5, 6]]);
    assert_eq!(clustering.noise(), 1);
    assert_eq!(clustering.cluster_count(), 2);
}

#[test]
fn groups_come_in_ascending_order_of_cluster() {
    let tags = vec![Core(7), Noise, Edge(2), Core(7), Noise, Core(2), Edge(5), Core(usize::MAX)];
    let clustering = train(&tags).unwrap().unwrap();
    assert_eq!(clustering.ids(), &vec![2, 5, 7, usize::MAX]);
    assert_eq!(clustering.groups(), &vec![vec![2, 5], vec![6], vec![0, 3], vec![7]]);
    assert_eq!(clustering.noise(), 2);
    let members: usize = clustering.groups().iter().map(|g| g.len()).sum();
    assert_eq!(members + clustering.noise(), tags.len());
}

#[test]
fn single_point_cluster_stands() {
    let clustering = train(&vec![Noise, Edge(3)]).unwrap().unwrap();
    assert_eq!(clustering.ids(), &vec![3]);
    assert_eq!(clustering.groups(), &vec![vec![1]]);
    assert_eq!(clustering.noise(), 1);
}

#[test]
fn five_near_duplicates_make_one_centroid_and_no_noise() {
    let corpus: Vec<Vec<f32>> = vec![
        vec![1.0, 0.0],
        vec![0.99, 0.01],
        vec![1.0, 0.02],
        vec![0.98, 0.0],
        vec![1.01, 0.01],
    ];
    let classes = dbscan::Model::new(0.5, 2).run(&corpus);
    let tags: Vec<ClassificationTag> = classes.into_iter().map(tag).collect();
    let clustering = train(&tags).unwrap().unwrap();
    assert_eq!(clustering.cluster_count(), 1);
    assert_eq!(clustering.noise(), 0);
    assert_eq!(clustering.groups(), &vec![vec![0, 1, 2, 3, 4]]);
    let means: Vec<Vec<f32>> = clustering.groups().iter().map(|g| mean(&corpus, g)).collect();
    let centroids = clustering.assemble(2, means).unwrap();
    assert_eq!(centroids.len(), 1);
    assert_eq!(centroids.dim(), 2);
    assert!((centroids.rows()[0][0] - 0.996).abs() < 1e-5);
    assert!((centroids.rows()[0][1] - 0.008).abs() < 1e-5);
}

#[test]
fn far_points_are_noise_and_training_fails() {
    let corpus: Vec<Vec<f32>> = vec![vec![0.0, 0.0], vec![10.0, 0.0], vec![0.0, 10.0]];
    let classes = dbscan::Model::new(0.5, 2).run(&corpus);
    let tags: Vec<ClassificationTag> = classes.into_iter().map(tag).collect();
    assert_eq!(tags, vec![Noise, Noise, Noise]);
    assert_eq!(train(&tags).err(), Some(TrainError::NoClustersFound));
}

#[test]
fn assembling_takes_one_mean_per_cluster() {
    let clustering = train(&vec![Core(0), Core(1)]).unwrap().unwrap();
    let set: CentroidSet<i32> = clustering.assemble(2, vec![vec![1, 2], vec![3, 4]]).unwrap();
    assert_eq!(set.rows(), &vec![vec![1, 2], vec![3, 4]]);
    assert_eq!(
        clustering.assemble(2, vec![vec![1, 2]]).err(),
        Some(ShapeError::RowCount { expected: 2, found: 1 })
    );
    assert_eq!(
        clustering.assemble(2, Vec::<Vec<i32>>::new()).err(),
        Some(ShapeError::RowCount { expected: 2, found: 0 })
    );
    assert_eq!(
        clustering.assemble(2, vec![vec![1, 2], vec![3]]).err(),
        Some(ShapeError::Dimension { row: 1, expected: 2, found: 1 })
    );
}
