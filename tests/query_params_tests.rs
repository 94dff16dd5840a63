use httpx_urls::urls::{urlencode, MappingValue, PrimitiveValue, QueryParamSource, QueryParams, QueryParamsError};

fn s(x: &str) -> String {
    x.to_string()
}

fn pairs(v: &[(&str, &str)]) -> QueryParams {
    QueryParams::from_pairs(&v.iter().map(|(k, x)| (s(k), s(x))).collect())
}

fn text(x: &str) -> PrimitiveValue {
    PrimitiveValue::Text(s(x))
}

#[test]
fn parse_end_to_end() {
    let q = QueryParams::from_query("a=1&a=2&b=");
    assert_eq!(q.multi_items(), vec![(s("a"), s("1")), (s("a"), s("2")), (s("b"), s(""))]);
}

#[test]
fn parse_splits_on_first_equals() {
    let q = QueryParams::from_query("a=b=c&d");
    assert_eq!(q.multi_items(), vec![(s("a"), s("b=c")), (s("d"), s(""))]);
    assert!(QueryParams::from_query("").is_empty());
}

#[test]
fn equality_ignores_order() {
    assert!(pairs(&[("a", "1"), ("b", "2")]).equals(&pairs(&[("b", "2"), ("a", "1")])));
    assert!(!pairs(&[("a", "1"), ("a", "1")]).equals(&pairs(&[("a", "1")])));
    assert!(!pairs(&[("a", "1")]).equals(&pairs(&[("a", "2")])));
}

#[test]
fn set_replaces_values() {
    let q = QueryParams::empty().add("k", &text("1")).add("k", &text("2")).set("k", &text("3"));
    assert_eq!(q.get_list("k"), vec![s("3")]);
}

#[test]
fn add_keeps_values() {
    let q = QueryParams::empty().add("k", &text("1")).add("k", &text("2"));
    assert_eq!(q.get_list("k"), vec![s("1"), s("2")]);
}

#[test]
fn remove_keeps_order() {
    let q = pairs(&[("a", "1"), ("k", "2"), ("b", "3")]).remove("k");
    assert_eq!(q.keys(), vec![s("a"), s("b")]);
    assert!(!q.contains("k"));
}

#[test]
fn merge_overwrites_in_place() {
    let q = pairs(&[("a", "1"), ("b", "2")]).merge(&pairs(&[("a", "9")]));
    assert_eq!(q.keys(), vec![s("a"), s("b")]);
    assert_eq!(q.get_list("a"), vec![s("9")]);
    let q = pairs(&[("a", "1")]).merge(&pairs(&[("c", "3"), ("a", "7"), ("a", "8")]));
    assert_eq!(q.keys(), vec![s("a"), s("c")]);
    assert_eq!(q.get_list("a"), vec![s("7"), s("8")]);
}

#[test]
fn round_trip_through_string() {
    let q = pairs(&[("a", "1"), ("b", "x.y~z"), ("a", "2"), ("c", "")]);
    let back = QueryParams::from_query(&q.to_string());
    assert!(back.equals(&q));
}

#[test]
fn renders_form_encoded() {
    let q = pairs(&[("a b", "1&2"), ("c", "é")]);
    assert_eq!(q.to_string(), "a+b=1%262&c=%C3%A9");
    assert_eq!(QueryParams::empty().to_string(), "");
    assert_eq!(urlencode("x y~z/"), "x+y~z%2F");
}

#[test]
fn reads() {
    let q = QueryParams::from_mapping(&vec![
        (s("a"), MappingValue::Many(vec![text("1"), PrimitiveValue::Bool(true)])),
        (s("e"), MappingValue::Many(vec![])),
        (s("b"), MappingValue::One(PrimitiveValue::Absent)),
        (s("c"), MappingValue::One(PrimitiveValue::Other(s("3")))),
    ]);
    assert_eq!(q.keys(), vec![s("a"), s("e"), s("b"), s("c")]);
    assert_eq!(q.values(), vec![s("1"), s(""), s("3")]);
    assert_eq!(q.items(), vec![(s("a"), s("1")), (s("b"), s("")), (s("c"), s("3"))]);
    assert_eq!(q.get_list("a"), vec![s("1"), s("true")]);
    assert_eq!(q.get("a", None), Some(s("1")));
    assert_eq!(q.get("e", Some(s("d"))), Some(s("d")));
    assert_eq!(q.get("zz", None), None);
    assert_eq!(q.get_list("zz"), Vec::<String>::new());
    assert_eq!(q.len(), 4);
}

#[test]
fn coerces_values() {
    assert_eq!(PrimitiveValue::Bool(false).to_text(), "false");
    assert_eq!(PrimitiveValue::Bool(true).to_text(), "true");
    assert_eq!(PrimitiveValue::Absent.to_text(), "");
    assert_eq!(PrimitiveValue::Other(s("1.5")).to_text(), "1.5");
}

#[test]
fn construction_sources() {
    let q = QueryParams::new(&vec![QueryParamSource::Bytes(b"a=1".to_vec())], None).unwrap();
    assert_eq!(q.get_list("a"), vec![s("1")]);
    match QueryParams::new(&vec![QueryParamSource::Bytes(vec![0xff])], None) {
        Err(QueryParamsError::MalformedInput(_)) => {}
        _ => panic!("expected malformed input"),
    }
    match QueryParams::new(&vec![QueryParamSource::Encoded(s("a")), QueryParamSource::Encoded(s("b"))], None) {
        Err(QueryParamsError::MalformedInput(m)) => assert_eq!(m, "Too many arguments."),
        _ => panic!("expected too many arguments"),
    }
    let kw = vec![(s("x"), MappingValue::One(text("1")))];
    let q = QueryParams::new(&vec![], Some(&kw)).unwrap();
    assert_eq!(q.multi_items(), vec![(s("x"), s("1"))]);
    assert!(QueryParams::new(&vec![], None).unwrap().is_empty());
    let copy = QueryParams::new(&vec![QueryParamSource::Params(pairs(&[("a", "1")]))], None).unwrap();
    assert_eq!(copy.multi_items(), vec![(s("a"), s("1"))]);
}

#[test]
fn mutation_in_place_is_refused() {
    let q = pairs(&[("a", "1")]);
    assert!(matches!(q.update(None), Err(QueryParamsError::ImmutabilityViolation(_))));
    assert!(matches!(q.set_item("a", "2"), Err(QueryParamsError::ImmutabilityViolation(_))));
    assert_eq!(q.get_list("a"), vec![s("1")]);
}

#[test]
fn key_iterator_is_one_shot() {
    let q = pairs(&[("a", "1"), ("b", "2"), ("a", "3")]);
    let mut it = q.key_iter();
    assert_eq!(it.next_key(), Some(s("a")));
    assert_eq!(it.next_key(), Some(s("b")));
    assert_eq!(it.next_key(), None);
    assert_eq!(it.next_key(), None);
    assert_eq!(q.key_iter().next_key(), Some(s("a")));
}
