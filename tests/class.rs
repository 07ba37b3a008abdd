use tinychain::class::{ClassParam, InstanceClass, InstanceClassType};
use tinychain::error::ErrorType;

fn p(v: &[&str]) -> Vec<String> {
    v.iter().map(|s| s.to_string()).collect()
}

#[test]
fn class_definition_reads_extends_and_proto() {
    let data = vec![
        ("extends".to_string(), ClassParam::Link(p(&["app", "Base"]))),
        ("proto".to_string(), ClassParam::Object(vec![("greet".to_string(), b"hi".to_vec())])),
    ];
    let class = InstanceClassType::post(&p(&["state", "object", "class"]), data).unwrap();
    assert_eq!(class.extends(), p(&["app", "Base"]));
    assert_eq!(class.proto().len(), 1);
    assert_eq!(class.proto()[0].0, "greet");
}

#[test]
fn class_defaults_to_generic_object() {
    let class = InstanceClassType::post(&InstanceClassType::prefix(), vec![]).unwrap();
    assert_eq!(class.extends(), p(&["state", "object"]));
    assert!(class.proto().is_empty());
    assert_eq!(InstanceClass::prefix(), p(&["state", "object"]));
}

#[test]
fn class_definition_errors() {
    let prefix = InstanceClassType::prefix();
    let bad = vec![("extends".to_string(), ClassParam::Other)];
    assert_eq!(InstanceClassType::post(&prefix, bad).unwrap_err().code(), ErrorType::BadRequest);
    let unknown = vec![("colour".to_string(), ClassParam::Other)];
    assert_eq!(InstanceClassType::post(&prefix, unknown).unwrap_err().code(), ErrorType::BadRequest);
    assert_eq!(InstanceClassType::post(&p(&["x"]), vec![]).unwrap_err().code(), ErrorType::NotFound);
    assert_eq!(InstanceClass::post(&p(&[])).code(), ErrorType::NotImplemented);
    assert_eq!(InstanceClass::post(&p(&["m"])).code(), ErrorType::NotFound);
}
