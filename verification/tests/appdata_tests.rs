use biscvi::appdata::{AsyncData, BiscviCache, ReductionData};
use biscvi::clamp0_i64;
use biscvi::color::parse_rgb_int;
use biscvi::countdata::{CountFileMat, DatasetDescResponse};

#[test]
fn clamping_cuts_off_negative_positions() {
    assert_eq!(clamp0_i64(-5), 0);
    assert_eq!(clamp0_i64(0), 0);
    assert_eq!(clamp0_i64(7), 7);
}

#[test]
fn rgb_string_parses_to_exact_channels() {
    assert_eq!(parse_rgb_int(&"#0AFF10".to_string()), (10, 255, 16));
    assert_eq!(parse_rgb_int(&"#000000".to_string()), (0, 0, 0));
    assert_eq!(parse_rgb_int(&"#ffffff".to_string()), (255, 255, 255));
}

#[test]
fn async_data_wraps_a_loaded_value() {
    let d: AsyncData<u32> = AsyncData::new(17);
    assert_eq!(d, AsyncData::Loaded(17));
    let c = BiscviCache::new(vec![1u8, 2]);
    assert_eq!(c.data, vec![1u8, 2]);
}

#[test]
fn reduction_cache_inserts_and_finds_by_name() {
    let empty: ReductionData<u32> = ReductionData::new();
    assert!(empty.get(&"umap".to_string()).is_none());
    let one = empty.insert(&"umap".to_string(), AsyncData::Loading);
    assert_eq!(one.get(&"umap".to_string()), Some(&AsyncData::Loading));
    let two = one.insert(&"umap".to_string(), AsyncData::new(4));
    assert_eq!(two.get(&"umap".to_string()), Some(&AsyncData::Loaded(4)));
    assert!(two.get(&"pca".to_string()).is_none());
}

#[test]
fn feature_name_map_lists_every_position() {
    let mut mat = CountFileMat {
        list_feature_names: vec!["a".to_string(), "b".to_string()],
        list_indptr: vec![0, 2, 5],
        map_feature_names_pos: vec![],
    };
    mat.build_map();
    assert_eq!(
        mat.map_feature_names_pos,
        vec![("a".to_string(), 0), ("b".to_string(), 1)]
    );
}

#[test]
fn empty_dataset_description_has_no_entries() {
    let d = DatasetDescResponse::new();
    assert!(d.matrices.is_empty());
    assert!(d.reductions.is_empty());
    assert!(d.meta.is_empty());
}
