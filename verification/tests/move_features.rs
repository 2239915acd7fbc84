use clw_rewrite::relocate::move_to_back_for_after_feature;
use clw_rewrite::relocate::move_to_back_for_before_feature;
use clw_rewrite::relocate::move_to_front_for_after_feature;
use clw_rewrite::relocate::move_to_front_for_before_feature;
use clw_rewrite::store::ArgumentStore;

#[test]
fn test_move_to_back_feature() {
    let vec1: Vec<String> = vec![
        "a0".to_owned(),
        "prefix-a1".to_owned(),
        "prefix-a2".to_owned(),
        "a3".to_owned(),
        "a1".to_owned(),
        "a4".to_owned(),
        "a5".to_owned(),
    ];
    let mut config = ArgumentStore::new();
    config.arguments = vec1.clone();
    move_to_back_for_after_feature("a1".to_owned(), None, &mut config);
    assert_eq!(
        config.arguments,
        vec![
            "a0".to_owned(),
            "prefix-a2".to_owned(),
            "a3".to_owned(),
            "a4".to_owned(),
            "a5".to_owned(),
            "prefix-a1".to_owned(),
            "a1".to_owned(),
        ]
    );

    config.arguments = vec1.clone();
    move_to_back_for_after_feature("a1".to_owned(), Some("a2".to_owned()), &mut config);
    assert_eq!(
        config.arguments,
        vec![
            "a0".to_owned(),
            "prefix-a2".to_owned(),
            "a3".to_owned(),
            "a1".to_owned(),
            "a4".to_owned(),
            "a5".to_owned(),
            "prefix-a1".to_owned(),
        ]
    );

    config.arguments = vec1.clone();
    move_to_back_for_after_feature("a5".to_owned(), Some("after".to_owned()), &mut config);
    assert_eq!(config.arguments, vec1);

    config.arguments = vec1.clone();
    move_to_back_for_before_feature("a1".to_owned(), Some("none".to_owned()), &mut config);
    assert_eq!(config.arguments, vec1);

    move_to_back_for_before_feature("a1".to_owned(), Some("a3".to_owned()), &mut config);
    assert_eq!(
        config.arguments,
        vec![
            "a0".to_owned(),
            "prefix-a1".to_owned(),
            "prefix-a2".to_owned(),
            "a3".to_owned(),
            "a4".to_owned(),
            "a5".to_owned(),
            "a1".to_owned(),
        ]
    );
    config.arguments = vec1.clone();
    move_to_back_for_before_feature("a0".to_owned(), Some("before".to_owned()), &mut config);
    assert_eq!(config.arguments, vec1);
}

#[test]
fn test_move_to_before_feature() {
    let vec1: Vec<String> = vec![
        "a0".to_owned(),
        "prefix-a1".to_owned(),
        "prefix-a2".to_owned(),
        "a3".to_owned(),
        "a1".to_owned(),
        "a4".to_owned(),
        "a5".to_owned(),
    ];
    let mut config = ArgumentStore::new();
    config.arguments = vec1.clone();
    move_to_front_for_after_feature("a1".to_owned(), None, &mut config);
    assert_eq!(
        config.arguments,
        vec![
            "prefix-a1".to_owned(),
            "a1".to_owned(),
            "a0".to_owned(),
            "prefix-a2".to_owned(),
            "a3".to_owned(),
            "a4".to_owned(),
            "a5".to_owned(),
        ]
    );

    config.arguments = vec1.clone();
    move_to_front_for_after_feature("a1".to_owned(), Some("a2".to_owned()), &mut config);
    assert_eq!(
        config.arguments,
        vec![
            "prefix-a1".to_owned(),
            "a0".to_owned(),
            "prefix-a2".to_owned(),
            "a3".to_owned(),
            "a1".to_owned(),
            "a4".to_owned(),
            "a5".to_owned(),
        ]
    );

    config.arguments = vec1.clone();
    move_to_front_for_after_feature("a5".to_owned(), Some("after".to_owned()), &mut config);
    assert_eq!(config.arguments, vec1);

    config.arguments = vec1.clone();
    move_to_front_for_before_feature("a1".to_owned(), Some("none".to_owned()), &mut config);
    assert_eq!(config.arguments, vec1);

    move_to_front_for_before_feature("a1".to_owned(), Some("a3".to_owned()), &mut config);
    assert_eq!(
        config.arguments,
        vec![
            "a1".to_owned(),
            "a0".to_owned(),
            "prefix-a1".to_owned(),
            "prefix-a2".to_owned(),
            "a3".to_owned(),
            "a4".to_owned(),
            "a5".to_owned(),
        ]
    );
    config.arguments = vec1.clone();
    move_to_front_for_before_feature("a0".to_owned(), Some("before".to_owned()), &mut config);
    assert_eq!(config.arguments, vec1);
}
