use conmand::config_item::{ConfigItem, ConfigValue};
use conmand::values::{parse_config_line, parse_key_value};

#[test]
fn key_value_splits_at_equals() {
    let kv = parse_key_value("path=/usr/local;").unwrap();
    assert_eq!(kv.0, "path".to_string());
    assert_eq!(kv.1, "/usr/local".to_string());
}

#[test]
fn key_value_splits_at_plus_equals_first() {
    let kv = parse_key_value("ip4.addr += 10.0.0.1;").unwrap();
    assert_eq!(kv.0, "ip4.addr".to_string());
    assert_eq!(kv.1, "10.0.0.1".to_string());
}

#[test]
fn key_value_without_equals_is_none() {
    assert!(parse_key_value("persist").is_none());
    assert!(parse_key_value("a+b").is_none());
}

#[test]
fn key_value_trims_both_sides() {
    let kv = parse_key_value("  host.hostname =  \"box\";").unwrap();
    assert_eq!(kv.0, "host.hostname".to_string());
    assert_eq!(kv.1, "\"box\"".to_string());
}

#[test]
fn config_line_bare_directive() {
    let mut item = ConfigItem::new("c");
    parse_config_line("persist", &mut item);
    assert_eq!(item.directives, vec!["persist".to_string()]);
    assert_eq!(item.values.len(), 0);
}

#[test]
fn config_line_string_value() {
    let mut item = ConfigItem::new("c");
    parse_config_line("path = \"/usr/jail\";", &mut item);
    assert_eq!(item.values.len(), 1);
    assert_eq!(item.values.get("path").unwrap(), &ConfigValue::String("/usr/jail".to_string()));
}

#[test]
fn config_line_array_value() {
    let mut item = ConfigItem::new("c");
    parse_config_line("ip4.addr = \"10.0.0.1\", 10.0.0.2, , \"\";", &mut item);
    assert_eq!(
        item.values.get("ip4.addr").unwrap(),
        &ConfigValue::Array(vec!["10.0.0.1".to_string(), "10.0.0.2".to_string()])
    );
}

#[test]
fn config_line_append_operator_value() {
    let mut item = ConfigItem::new("c");
    parse_config_line("ip4.addr += 10.0.0.3;", &mut item);
    assert_eq!(item.values.get("ip4.addr").unwrap(), &ConfigValue::String("10.0.0.3".to_string()));
}
