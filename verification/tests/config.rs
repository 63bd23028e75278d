use conmand::config::Configuration;
use conmand::config_item::ConfigItem;

#[test]
fn test_set_name() {
    let mut config = Configuration::default();
    config.set_name("test");
    assert_eq!(config.name, "test");
}

#[test]
fn test_add_directive() {
    let mut config = Configuration::default();
    assert_eq!(0, config.directives.len());
    config.add_directive(ConfigItem::new("foo"));
    assert_eq!(1, config.directives.len());
    assert_eq!(ConfigItem::new("foo"), config.directives[0]);
}
