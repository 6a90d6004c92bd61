use edsig::course::Node;

#[test]
fn new_course_has_no_prerequisites() {
    let n = Node::new("C152");
    assert_eq!(n.code, "C152");
    assert!(n.prereqs.is_empty());
}

#[test]
fn add_prereq_skips_duplicates() {
    let mut n = Node::new("C280");
    n.add_prereq("C151");
    n.add_prereq("C152");
    n.add_prereq("C151");
    assert_eq!(n.prereqs, vec![String::from("C151"), String::from("C152")]);
    assert_eq!(n.code, "C280");
}
