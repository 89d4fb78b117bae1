use lama_inpaint::weights::{
    count_values, json_str, json_usize, json_usize_list, Blob, TensorInfo, WeightIndex, WeightStore,
};

const INDEX: &str = r#"{"tensors": [
  {"name": "a.weight", "shape": [2, 1], "offset": 0, "nbytes": 8},
  {"name": "b", "shape": [], "offset": 8, "nbytes": 4}
]}"#;

fn blob() -> Vec<u8> {
    let mut v = Vec::new();
    for x in [1.5f32, -2.0, 0.25] {
        v.extend_from_slice(&x.to_le_bytes());
    }
    v
}

fn chars(s: &str) -> Vec<char> {
    s.chars().collect()
}

fn load(text: &str) -> Result<WeightIndex, String> {
    WeightIndex::try_load("w.json", text).unwrap()
}

fn open_err(text: &str, data: &[u8], map: bool) -> String {
    match WeightStore::try_open("w.json", text, data, map).unwrap() {
        Err(e) => e,
        Ok(_) => panic!("opened"),
    }
}

#[test]
fn fields_are_found_by_their_keys() {
    let obj = chars(r#" "name" : "x.y", "offset": 12, "shape": [3, 4, 5] "#);
    assert_eq!(json_str(&obj, "name").unwrap(), "x.y");
    assert_eq!(json_usize(&obj, "offset").unwrap(), 12);
    assert_eq!(json_usize_list(&obj, "shape").unwrap().unwrap(), vec![3, 4, 5]);
    assert!(json_str(&obj, "missing").is_none());
    assert!(json_usize(&obj, "name").is_none());
    assert_eq!(json_usize_list(&obj, "dims").unwrap().err().unwrap(), "missing dims");
    let obj = chars(r#""shape": []"#);
    assert_eq!(json_usize_list(&obj, "shape").unwrap().unwrap(), Vec::<usize>::new());
}

#[test]
fn extents_that_are_no_numbers_are_reported() {
    let obj = chars(r#""shape": [3, x]"#);
    assert_eq!(
        json_usize_list(&obj, "shape").unwrap().err().unwrap(),
        "invalid digit found in string"
    );
    let obj = chars(r#""shape": [3, , 4]"#);
    assert_eq!(
        json_usize_list(&obj, "shape").unwrap().err().unwrap(),
        "cannot parse integer from empty string"
    );
    let obj = chars(r#""shape": [99999999999999999999999]"#);
    assert_eq!(
        json_usize_list(&obj, "shape").unwrap().err().unwrap(),
        "number too large to fit in target type"
    );
    let obj = chars(r#""shape": [+]"#);
    assert_eq!(
        json_usize_list(&obj, "shape").unwrap().err().unwrap(),
        "invalid digit found in string"
    );
    let obj = chars(r#""shape": [+7]"#);
    assert_eq!(json_usize_list(&obj, "shape").unwrap().unwrap(), vec![7]);
    let obj = chars(r#""shape": 3]"#);
    assert_eq!(json_usize_list(&obj, "shape").unwrap().err().unwrap(), "missing [");
    let obj = chars(r#""shape": [3"#);
    assert_eq!(json_usize_list(&obj, "shape").unwrap().err().unwrap(), "missing ]");
    let obj = chars(r#""shape": ]3["#);
    assert!(json_usize_list(&obj, "shape").is_none());
}

#[test]
fn index_keeps_the_order_of_the_document() {
    let ix = load(INDEX).unwrap();
    assert_eq!(ix.order, vec!["a.weight".to_string(), "b".to_string()]);
    let t = ix.get("a.weight").unwrap();
    assert_eq!((t.shape.as_slice(), t.offset, t.nbytes), (&[2usize, 1][..], 0, 8));
    assert_eq!(ix.get("c").err().unwrap(), "missing tensor in weight blob: c");
}

#[test]
fn an_empty_index_is_refused() {
    assert_eq!(load("{}").err().unwrap(), "no tensors found in w.json");
    assert_eq!(load("").err().unwrap(), "no tensors found in w.json");
    assert_eq!(WeightIndex::load("p", "[]").err().unwrap(), "no tensors found in p");
}

#[test]
fn inverted_brackets_give_no_index() {
    let text = r#"{"name": "a", "shape": ]2[, "offset": 0, "nbytes": 8}"#;
    assert!(WeightIndex::try_load("w.json", text).is_none());
    assert!(WeightStore::try_open("w.json", text, &blob(), true).is_none());
}

#[test]
fn malformed_extents_fail_the_load() {
    let text = r#"{"name": "a", "shape": [two], "offset": 0, "nbytes": 8}"#;
    assert_eq!(load(text).err().unwrap(), "invalid digit found in string");
}

#[test]
fn tensors_are_copied_out() {
    let data = blob();
    let s = WeightStore::open("w.json", INDEX, &data, true).unwrap();
    let bits = s.f32_bits("a.weight").unwrap();
    assert_eq!(bits, vec![1.5f32.to_bits(), (-2.0f32).to_bits()]);
    assert_eq!(s.f32_bits("b").unwrap(), vec![0.25f32.to_bits()]);
    assert_eq!(s.f32_bits("x").err().unwrap(), "missing tensor in weight blob: x");
    assert_eq!(s.info("b").unwrap().nbytes, 4);
    assert_eq!(s.total_bytes(), 12);
}

#[test]
fn tensors_past_the_end_are_refused() {
    assert_eq!(
        open_err(INDEX, &blob()[..11], true),
        "tensor b at 8..12 exceeds blob size 11"
    );
}

#[test]
fn tensors_of_another_size_are_refused() {
    let text = r#"{"name": "a", "shape": [3, 2], "offset": 0, "nbytes": 8}"#;
    assert_eq!(
        open_err(text, &blob(), false),
        "tensor a is not FP32: TensorInfo { name: \"a\", shape: [3, 2], offset: 0, nbytes: 8 }"
    );
}

#[test]
fn an_empty_blob_cannot_be_mapped() {
    assert_eq!(open_err(INDEX, &[], true), "weight blob is empty");
    assert_eq!(open_err(INDEX, &[], false), "tensor a.weight at 0..8 exceeds blob size 0");
    assert!(Blob::map(&[]).is_err());
    assert_eq!(Blob::read(&[]).len(), 0);
    let data = [1u8, 2];
    assert_eq!(Blob::map(&data).unwrap().as_slice(), &[1, 2]);
}

#[test]
fn sizes_that_do_not_fit_are_refused() {
    let text = format!(
        r#"{{"name": "a", "shape": [1], "offset": {}, "nbytes": 4}}"#,
        usize::MAX
    );
    let e = open_err(&text, &blob(), true);
    assert!(e.starts_with("tensor a at 18446744073709551615..18446744073709551619 exceeds"));
}

#[test]
fn values_are_counted_by_the_shape() {
    assert_eq!(count_values(&vec![2, 3, 4]), Some(24));
    assert_eq!(count_values(&vec![]), Some(1));
    assert_eq!(count_values(&vec![usize::MAX, 2]), None);
    let t = TensorInfo { name: "q\"".to_string(), shape: vec![5, 6], offset: 7, nbytes: 8 };
    assert_eq!(t.numel(), 30);
    assert_eq!(
        t.debug_string(),
        "TensorInfo { name: \"q\\\"\", shape: [5, 6], offset: 7, nbytes: 8 }"
    );
}

#[test]
fn documents_load_as_they_are_written() {
    let text = " [ {\"shape\" : [ 2 ,3 ],\n\"nbytes\":24, \"name\": \"x.0_Y\" ,\"offset\": 0}\t,\n{ \"offset\":24,\"name\":\"z\",\"nbytes\":0,\"shape\":[ 0 ]} ] ";
    let ix = load(text).unwrap();
    assert_eq!(ix.order, vec!["x.0_Y".to_string(), "z".to_string()]);
    let t = ix.get("x.0_Y").unwrap();
    assert_eq!((t.shape.clone(), t.offset, t.nbytes), (vec![2, 3], 0, 24));
    let t = ix.get("z").unwrap();
    assert_eq!((t.shape.clone(), t.offset, t.nbytes), (vec![0], 24, 0));
}
