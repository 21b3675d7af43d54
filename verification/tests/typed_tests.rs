use jsonpointer_flatten::FlattenError;
use jsonpointer_flatten::Json;
use jsonpointer_flatten::from;
use serde::ser::SerializeStruct;

struct Person<'a> {
    name: &'a str,
    age: u8,
}

impl<'a> serde::Serialize for Person<'a> {
    fn serialize<S: serde::Serializer>(&self, serializer: S) -> Result<S::Ok, S::Error> {
        let mut state = serializer.serialize_struct("Person", 2)?;
        state.serialize_field("name", &self.name)?;
        state.serialize_field("age", &self.age)?;
        state.end()
    }
}

struct Unserializable;

impl serde::Serialize for Unserializable {
    fn serialize<S: serde::Serializer>(&self, _serializer: S) -> Result<S::Ok, S::Error> {
        Err(serde::ser::Error::custom("cannot be serialized"))
    }
}

#[test]
fn flatten_from_custom_type() {
    let value = Person {
        name: "John Smith",
        age: 24,
    };

    let result = from(&value);

    assert!(result.is_ok());
    assert!(result.unwrap().is_object());
}

#[test]
fn flatten_from_custom_type_members() {
    let value = Person {
        name: "John Smith",
        age: 24,
    };

    let actual = from(&value).unwrap();

    assert!(actual.get("/name").unwrap().eq(&Json::Str("John Smith".to_string())));
    assert!(actual.get("/age").unwrap().eq(&Json::Number("24".to_string())));
}

#[test]
fn failing_serializer_gives_serialize_error() {
    let result = from(&Unserializable);

    assert_eq!(result, Err(FlattenError::Serialize));
}
