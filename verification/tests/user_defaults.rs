use serde_json::Value;
use txqueue::user_defaults::{Algorithm, DefaultsError, Duration, Mode, UserDefaults};

fn first() -> UserDefaults {
    UserDefaults {
        is_first_launch: true,
        pruning: Algorithm::OverlayRecent,
        tracing: false,
        fat_db: false,
        mode: Mode::Active,
    }
}

fn load(text: &str) -> UserDefaults {
    UserDefaults::load(Some(text.as_bytes().to_vec())).unwrap()
}

/// Settings that hold all that has to be there.
fn least() -> serde_json::Map<String, Value> {
    let mut map = serde_json::Map::new();
    map.insert("pruning".to_string(), Value::from("archive"));
    map.insert("tracing".to_string(), Value::from(true));
    map
}

fn with(name: &str, value: Value) -> serde_json::Map<String, Value> {
    let mut map = least();
    map.insert(name.to_string(), value);
    map
}

fn wrong(map: serde_json::Map<String, Value>) -> DefaultsError {
    UserDefaults::deserialize(&map).unwrap_err()
}

#[test]
fn defaults_of_a_first_launch() {
    assert_eq!(UserDefaults::default(), first());
    assert_eq!(UserDefaults::load(None).unwrap(), first());
    assert_eq!(load("not json"), first());
    assert_eq!(load("null"), first());
    assert_eq!(load("[]"), first());
    assert_eq!(load("{}"), first());
    assert_eq!(load("{\"pruning\":\"fast\",\"tracing\":true} x"), first());
}

#[test]
fn text_of_saved_defaults() {
    let defaults = UserDefaults {
        is_first_launch: true,
        pruning: Algorithm::EarlyMerge,
        tracing: true,
        fat_db: false,
        mode: Mode::Passive(Duration { secs: 300, nanos: 5 }, Duration { secs: 3600, nanos: 0 }),
    };
    assert_eq!(
        String::from_utf8(defaults.save()).unwrap(),
        "{\"fat_db\":false,\"mode\":\"passive\",\"mode.alarm\":3600,\"mode.timeout\":300,\
         \"pruning\":\"light\",\"tracing\":true}"
    );
}

#[test]
fn saved_defaults_come_back() {
    let algorithms =
        [Algorithm::Archive, Algorithm::EarlyMerge, Algorithm::OverlayRecent, Algorithm::RefCounted];
    let modes = [
        Mode::Off,
        Mode::Active,
        Mode::Dark(Duration::from_secs(u64::MAX)),
        Mode::Passive(Duration::from_secs(1), Duration::from_secs(0)),
    ];
    for pruning in algorithms {
        for mode in modes {
            let defaults =
                UserDefaults { is_first_launch: false, pruning, tracing: true, fat_db: true, mode };
            assert_eq!(UserDefaults::load(Some(defaults.save())).unwrap(), defaults);
        }
    }
}

#[test]
fn first_launch_and_parts_of_seconds_are_not_saved() {
    let mode = Mode::Dark(Duration { secs: 7, nanos: 999_999_999 });
    let defaults = UserDefaults { mode, ..first() };
    let back = UserDefaults::load(Some(defaults.save())).unwrap();
    assert!(!back.is_first_launch);
    assert_eq!(back.mode, Mode::Dark(Duration { secs: 7, nanos: 0 }));
}

#[test]
fn what_may_be_left_out() {
    let defaults = UserDefaults::deserialize(&least()).unwrap();
    assert_eq!(
        defaults,
        UserDefaults {
            is_first_launch: false,
            pruning: Algorithm::Archive,
            tracing: true,
            fat_db: false,
            mode: Mode::Active,
        }
    );
    assert_eq!(load("{\"pruning\":\"archive\",\"tracing\":true,\"more\":[1.5]}"), defaults);
    assert_eq!(load("{\"tracing\":false,\"pruning\":\"archive\",\"tracing\":true}"), defaults);
}

#[test]
fn what_is_wrong() {
    let mut map = least();
    map.remove("pruning");
    assert_eq!(wrong(map), DefaultsError::MissingPruning);
    let mut map = least();
    map.remove("tracing");
    assert_eq!(wrong(map), DefaultsError::MissingTracing);
    assert_eq!(wrong(with("pruning", Value::from(1))), DefaultsError::InvalidPruningValue);
    assert_eq!(wrong(with("pruning", Value::from("slow"))), DefaultsError::InvalidPruningMethod);
    assert_eq!(wrong(with("tracing", Value::from("true"))), DefaultsError::InvalidTracing);
    assert_eq!(wrong(with("fat_db", Value::Null)), DefaultsError::InvalidFatDb);
    assert_eq!(wrong(with("mode", Value::from(false))), DefaultsError::InvalidMode);
    assert_eq!(wrong(with("mode", Value::from("idle"))), DefaultsError::InvalidMode);
    assert_eq!(wrong(with("mode", Value::from("dark"))), DefaultsError::InvalidTimeout);
    let mut map = with("mode", Value::from("passive"));
    assert_eq!(wrong(map.clone()), DefaultsError::InvalidTimeout);
    map.insert("mode.timeout".to_string(), Value::from(1));
    assert_eq!(wrong(map.clone()), DefaultsError::InvalidAlarm);
    map.insert("mode.alarm".to_string(), Value::from(-1));
    assert_eq!(wrong(map.clone()), DefaultsError::InvalidAlarm);
    map.insert("mode.alarm".to_string(), Value::from(2));
    assert_eq!(
        UserDefaults::deserialize(&map).unwrap().mode,
        Mode::Passive(Duration::from_secs(1), Duration::from_secs(2))
    );
}

#[test]
fn first_wrong_setting_is_named() {
    let mut map = with("mode", Value::from("idle"));
    map.insert("tracing".to_string(), Value::Null);
    assert_eq!(wrong(map), DefaultsError::InvalidTracing);
}

#[test]
fn words_for_what_is_wrong() {
    assert_eq!(DefaultsError::MissingPruning.message(), "missing pruning");
    assert_eq!(DefaultsError::InvalidPruningValue.message(), "invalid pruning value");
    assert_eq!(DefaultsError::InvalidPruningMethod.message(), "invalid pruning method");
    assert_eq!(DefaultsError::MissingTracing.message(), "missing tracing");
    assert_eq!(DefaultsError::InvalidTracing.message(), "invalid tracing value");
    assert_eq!(DefaultsError::InvalidFatDb.message(), "invalid fat_db value");
    assert_eq!(DefaultsError::InvalidMode.message(), "invalid mode value");
    assert_eq!(DefaultsError::InvalidTimeout.message(), "invalid/missing mode.timeout value");
    assert_eq!(DefaultsError::InvalidAlarm.message(), "invalid/missing mode.alarm value");
}
