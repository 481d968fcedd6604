use bex::nid::NID;
use bex::tags::Names;
use bex::vid::VID;

#[test]
fn names_tag_and_get() {
    let mut names = Names::new();
    assert_eq!(names.get("a"), None);
    let x = NID::var(1);
    assert_eq!(names.tag(x, "a".to_string()), x);
    assert_eq!(names.get("a"), Some(x));
    names.tag(NID::var(2), "a".to_string());
    assert_eq!(names.get("a"), Some(NID::var(2)));
    assert_eq!(names.get("b"), None);
}

#[test]
fn names_def_uses_variable_name() {
    let mut names = Names::new();
    let n = names.def("in".to_string(), VID::var(10));
    assert_eq!(n, NID::var(10));
    assert_eq!(names.get("inxA"), Some(NID::var(10)));
}
