use std::cell::Cell;
use std::collections::HashMap;

use rerecast::material_images::{
    deserialize_image, serialize_image, SerializedStandardMaterialError,
};

#[test]
fn slot_without_texture_has_no_index() {
    let mut indices: HashMap<u64, u32> = HashMap::new();
    let mut cache: Vec<&str> = Vec::new();
    let r = serialize_image(&mut indices, &mut cache, None, "base_color_texture", |_| {
        panic!("no image to look up")
    });
    assert!(matches!(r, Ok(None)));
    assert!(indices.is_empty());
    assert!(cache.is_empty());
}

#[test]
fn shared_image_is_stored_once() {
    let mut indices: HashMap<u64, u32> = HashMap::new();
    let mut cache: Vec<&str> = Vec::new();
    let lookups = Cell::new(0);
    let lookup = |h: u64| {
        lookups.set(lookups.get() + 1);
        match h {
            7 => Some("grass"),
            9 => Some("rock"),
            _ => None,
        }
    };
    let a = serialize_image(&mut indices, &mut cache, Some(7), "base_color_texture", lookup);
    let b = serialize_image(&mut indices, &mut cache, Some(9), "normal_map_texture", lookup);
    let c = serialize_image(&mut indices, &mut cache, Some(7), "occlusion_texture", lookup);
    assert!(matches!(a, Ok(Some(0))));
    assert!(matches!(b, Ok(Some(1))));
    assert!(matches!(c, Ok(Some(0))));
    assert_eq!(cache, vec!["grass", "rock"]);
    assert_eq!(lookups.get(), 2);
    assert_eq!(indices.get(&7), Some(&0));
    assert_eq!(indices.get(&9), Some(&1));
}

#[test]
fn missing_image_names_the_slot() {
    let mut indices: HashMap<u64, u32> = HashMap::new();
    let mut cache: Vec<&str> = vec!["grass"];
    indices.insert(7, 0);
    let r = serialize_image(&mut indices, &mut cache, Some(3), "emissive_texture", |_| None);
    match r {
        Err(SerializedStandardMaterialError::ImageNotFound(name)) => {
            assert_eq!(name, "emissive_texture")
        }
        other => panic!("unexpected {other:?}"),
    }
    assert_eq!(cache, vec!["grass"]);
    assert_eq!(indices.len(), 1);
}

#[test]
fn each_index_gets_one_handle() {
    let serialized = vec!["grass", "rock"];
    let mut handles: HashMap<u32, String> = HashMap::new();
    let made = Cell::new(0);
    let make = |s: &&str| {
        made.set(made.get() + 1);
        format!("handle:{s}")
    };
    assert_eq!(deserialize_image(&mut handles, &serialized, Some(1), make), Some("handle:rock".to_string()));
    assert_eq!(deserialize_image(&mut handles, &serialized, None, make), None);
    assert_eq!(deserialize_image(&mut handles, &serialized, Some(1), make), Some("handle:rock".to_string()));
    assert_eq!(deserialize_image(&mut handles, &serialized, Some(0), make), Some("handle:grass".to_string()));
    assert_eq!(made.get(), 2);
    assert_eq!(handles.len(), 2);
}

#[test]
fn known_index_needs_no_serialized_image() {
    let serialized: Vec<&str> = Vec::new();
    let mut handles: HashMap<u32, String> = HashMap::new();
    handles.insert(4, "handle:stone".to_string());
    let r = deserialize_image(&mut handles, &serialized, Some(4), |_: &&str| -> String {
        panic!("no image to make")
    });
    assert_eq!(r, Some("handle:stone".to_string()));
}

#[test]
fn known_handle_is_returned_whatever_the_cache_holds() {
    let mut indices: HashMap<u64, u32> = HashMap::new();
    indices.insert(7, 12);
    let mut cache: Vec<&str> = Vec::new();
    let r = serialize_image(&mut indices, &mut cache, Some(7), "base_color_texture", |_| {
        panic!("no image to look up")
    });
    assert!(matches!(r, Ok(Some(12))));
    let r = serialize_image(&mut indices, &mut cache, Some(8), "normal_map_texture", |_| Some("sand"));
    assert!(matches!(r, Ok(Some(0))));
    assert_eq!(cache, vec!["sand"]);
    assert_eq!(indices.get(&7), Some(&12));
}
