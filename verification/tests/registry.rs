use pointcloud::api_server::chrono_simple;
use pointcloud::api_server::uuid_simple;
use pointcloud::api_server::ApiServerState;
use pointcloud::registry::Registry;
use pointcloud::text::decimal_text;
use pointcloud::text::hex_text;

#[test]
fn numbers_as_text() {
    assert_eq!(decimal_text(0), "0");
    assert_eq!(decimal_text(7), "7");
    assert_eq!(decimal_text(10), "10");
    assert_eq!(decimal_text(4_294_967_295), "4294967295");
    assert_eq!(decimal_text(u128::MAX), u128::MAX.to_string());
    assert_eq!(hex_text(0), "0");
    assert_eq!(hex_text(15), "f");
    assert_eq!(hex_text(16), "10");
    assert_eq!(hex_text(0xdead_beef), "deadbeef");
    assert_eq!(hex_text(u128::MAX), format!("{:x}", u128::MAX));
    assert_eq!(uuid_simple(1_700_000_000_123_456_789), format!("{:x}", 1_700_000_000_123_456_789u128));
    assert_eq!(chrono_simple(1_700_000_000), "1700000000");
}

#[test]
fn evaluations_are_registered_delivered_and_forgotten() {
    let mut s = ApiServerState::new(49100);
    assert_eq!(s.port, 49100);
    let id = s.register_eval(0xabc);
    assert_eq!(id, "eval_abc");
    assert_eq!(s.result_of(&id), Some((false, None)));
    assert_eq!(s.result_of("eval_abd"), None);
    s.deliver_result("eval_abd", String::from("lost"));
    assert_eq!(s.result_of("eval_abd"), None);
    assert_eq!(s.result_of(&id), Some((false, None)));
    s.deliver_result(&id, String::from("{\"success\":true}"));
    assert_eq!(s.result_of(&id), Some((true, Some(String::from("{\"success\":true}")))));
    let other = s.register_eval(1);
    assert_eq!(other, "eval_1");
    assert_eq!(s.result_of(&id).unwrap().0, true);
    // registering under an id again starts over
    assert_eq!(s.register_eval(0xabc), id);
    assert_eq!(s.result_of(&id), Some((false, None)));
    s.cleanup_eval(&id);
    assert_eq!(s.result_of(&id), None);
    assert_eq!(s.result_of(&other), Some((false, None)));
    s.cleanup_eval(&id);
    s.cleanup_eval(&other);
    assert_eq!(s.result_of(&other), None);
}

#[test]
fn a_table_keeps_one_value_under_a_key() {
    let mut t: Registry<u32> = Registry::new();
    assert_eq!(t.len(), 0);
    assert_eq!(t.find("a"), None);
    t.insert("a", 1);
    t.insert("b", 2);
    t.insert("a", 3);
    assert_eq!(t.len(), 2);
    assert_eq!(t.find("a"), Some(0));
    assert_eq!(*t.value(0), 3);
    assert_eq!(*t.value(t.find("b").unwrap()), 2);
    *t.value_mut(1) += 40;
    t.set(0, 9);
    assert_eq!(t.remove("a"), Some(9));
    assert_eq!(t.remove("a"), None);
    assert_eq!(t.find("b"), Some(0));
    assert_eq!(*t.value(0), 42);
    assert_eq!(t.len(), 1);
}
