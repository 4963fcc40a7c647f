use photo_map::clusters::label_clusters;

#[test]
fn labels_clusters_then_noise_singletons() {
    let ids = vec![10, 20, 30, 40, 50];
    let clusters = vec![vec![0, 3], vec![4, 1]];
    let noise = vec![2];
    assert_eq!(
        label_clusters(&ids, &clusters, &noise),
        vec![vec![10, 40], vec![50, 20], vec![30]]
    );
}

#[test]
fn labelling_nothing_gives_nothing() {
    let ids: Vec<i64> = vec![];
    assert_eq!(label_clusters(&ids, &vec![], &vec![]), Vec::<Vec<i64>>::new());
}

#[test]
fn labelling_keeps_every_point() {
    let ids = vec![7, 8, 9, 11];
    let clusters = vec![vec![1, 2]];
    let noise = vec![3, 0];
    let r = label_clusters(&ids, &clusters, &noise);
    assert_eq!(r.len(), clusters.len() + noise.len());
    let total: usize = r.iter().map(|c| c.len()).sum();
    assert_eq!(total, 4);
    assert_eq!(r, vec![vec![8, 9], vec![11], vec![7]]);
}
