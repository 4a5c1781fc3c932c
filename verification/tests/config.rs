use autodpi::config::{plan_listeners, Config, Listener, RunError};
use autodpi::logging::{init, level_of, LogLevel};
use autodpi::strategy::{AnyStrategy, Strategy};

fn listener(strategy: Option<&str>) -> Listener {
    Listener {
        listen: "127.0.0.1:40443".to_string(),
        connect: "104.18.4.130:443".to_string(),
        sni: Some("www.example.com".to_string()),
        strategy: strategy.map(|s| s.to_string()),
    }
}

#[test]
fn empty_config_cannot_run() {
    assert_eq!(plan_listeners(Config { listeners: vec![] }).err(), Some(RunError::NoListeners));
}

#[test]
fn listeners_resolve_their_strategy() {
    let cfg = Config {
        listeners: vec![listener(Some("split-5")), listener(None), listener(Some("bogus"))],
    };
    let plans = plan_listeners(cfg).unwrap();
    assert_eq!(plans.len(), 3);
    assert_eq!(plans[0].listen, "127.0.0.1:40443");
    assert_eq!(plans[0].connect, "104.18.4.130:443");
    assert!(matches!(&plans[0].strategy, AnyStrategy::SplitAtOffset(s) if s.offset == 5));
    assert_eq!(plans[0].unknown_strategy, None);
    assert_eq!(plans[1].strategy.name(), "split-sni");
    assert_eq!(plans[1].unknown_strategy, None);
    assert_eq!(plans[2].strategy.name(), "split-sni");
    assert_eq!(plans[2].unknown_strategy.as_deref(), Some("bogus"));
}

#[test]
fn verbosity_selects_log_level() {
    assert_eq!(init(0), LogLevel::Warn);
    assert_eq!(init(1), LogLevel::Info);
    assert_eq!(init(2), LogLevel::Debug);
    assert_eq!(init(200), LogLevel::Debug);
}

#[test]
fn level_of_follows_verbosity() {
    assert_eq!(level_of(0), LogLevel::Warn);
    assert_eq!(level_of(1), LogLevel::Info);
    assert_eq!(level_of(2), LogLevel::Debug);
    assert_eq!(level_of(255), LogLevel::Debug);
}
