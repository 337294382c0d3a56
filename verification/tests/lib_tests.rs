use supertimeline::api::DEFAULT_LIMIT_COUNT;

#[test]
fn lib_it_works() {
    assert_eq!(2 + 2, 4);
    assert_eq!(DEFAULT_LIMIT_COUNT, 2);
}
