//! What user defaults are in words: under which names they stand, and what is written there.
use crate::json::{json_members, SettingView};
use crate::user_defaults::{
    decoded, encoded, loaded, lemma_names, Algorithm, DefaultsError, Duration, Mode, UserDefaults,
};
use vstd::prelude::*;

verus! {

/// Each pruning algorithm has one name, and it is found by that name alone.
pub proof fn lemma_algorithm_names(name: Seq<char>)
    ensures
        Algorithm::Archive.name() == "archive"@,
        Algorithm::EarlyMerge.name() == "light"@,
        Algorithm::OverlayRecent.name() == "fast"@,
        Algorithm::RefCounted.name() == "basic"@,
        Algorithm::named(name) == Some(Algorithm::Archive) <==> name == "archive"@,
        Algorithm::named(name) == Some(Algorithm::EarlyMerge) <==> name == "light"@,
        Algorithm::named(name) == Some(Algorithm::OverlayRecent) <==> name == "fast"@,
        Algorithm::named(name) == Some(Algorithm::RefCounted) <==> name == "basic"@,
        Algorithm::named(name) is None <==> name != "archive"@ && name != "light"@ && name != "fast"@
            && name != "basic"@,
{
    Algorithm::Archive.lemma_named(name);
    Algorithm::EarlyMerge.lemma_named(name);
    Algorithm::OverlayRecent.lemma_named(name);
    Algorithm::RefCounted.lemma_named(name);
}

/// Settings whose mode is "offline" are read as off, those whose mode is "active" or is not told as
/// active. With "dark" goes a timeout, with "passive" a timeout and an alarm, in whole seconds. The mode
/// is read so and no other way, wherever the settings are read at all.
pub proof fn lemma_mode_is_read(m: Map<Seq<char>, SettingView>)
    requires
        decoded(m) is Ok,
    ensures
        ({
            let mode = decoded(m)->Ok_0.mode;
            &&& m.contains_key("mode"@) && m["mode"@] == SettingView::Text("offline"@) <==> mode
                == Mode::Off
            &&& !m.contains_key("mode"@) || m["mode"@] == SettingView::Text("active"@) <==> mode
                == Mode::Active
            &&& m.contains_key("mode"@) && m["mode"@] == SettingView::Text("dark"@) <==> mode is Dark
            &&& m.contains_key("mode"@) && m["mode"@] == SettingView::Text("passive"@) <==> mode
                is Passive
            &&& mode matches Mode::Dark(timeout) ==> {
                &&& m.contains_key("mode.timeout"@)
                &&& m["mode.timeout"@] == SettingView::Number(Some(timeout.secs))
                &&& timeout.nanos == 0
            }
            &&& mode matches Mode::Passive(timeout, alarm) ==> {
                &&& m.contains_key("mode.timeout"@)
                &&& m["mode.timeout"@] == SettingView::Number(Some(timeout.secs))
                &&& timeout.nanos == 0
                &&& m.contains_key("mode.alarm"@)
                &&& m["mode.alarm"@] == SettingView::Number(Some(alarm.secs))
                &&& alarm.nanos == 0
            }
        }),
{
    lemma_names();
}

/// The other settings are read from under their names: the pruning algorithm by its name, whether to keep
/// traces and whether to keep a fat database as booleans. Where nothing is said of a fat database there
/// is none. A launch that has settings is not the first.
pub proof fn lemma_settings_are_read(m: Map<Seq<char>, SettingView>)
    requires
        decoded(m) is Ok,
    ensures
        ({
            let defaults = decoded(m)->Ok_0;
            &&& !defaults.is_first_launch
            &&& m.contains_key("pruning"@)
            &&& m["pruning"@] == SettingView::Text("archive"@) <==> defaults.pruning
                == Algorithm::Archive
            &&& m["pruning"@] == SettingView::Text("light"@) <==> defaults.pruning
                == Algorithm::EarlyMerge
            &&& m["pruning"@] == SettingView::Text("fast"@) <==> defaults.pruning
                == Algorithm::OverlayRecent
            &&& m["pruning"@] == SettingView::Text("basic"@) <==> defaults.pruning
                == Algorithm::RefCounted
            &&& m.contains_key("tracing"@)
            &&& m["tracing"@] == SettingView::Flag(defaults.tracing)
            &&& m.contains_key("fat_db"@) ==> m["fat_db"@] == SettingView::Flag(defaults.fat_db)
            &&& !m.contains_key("fat_db"@) ==> !defaults.fat_db
        }),
{
    if let SettingView::Text(name) = m["pruning"@] {
        lemma_algorithm_names(name);
    }
    lemma_algorithm_names("archive"@);
    lemma_algorithm_names("light"@);
    lemma_algorithm_names("fast"@);
    lemma_algorithm_names("basic"@);
}

/// Settings are refused for the first thing that is wrong with them, and for nothing else. They are
/// looked at in this order: pruning, traces, fat database, mode.
pub proof fn lemma_settings_are_refused(m: Map<Seq<char>, SettingView>)
    ensures
        ({
            let method = |name: Seq<char>|
                name == "archive"@ || name == "light"@ || name == "fast"@ || name == "basic"@;
            let seconds = |name: Seq<char>|
                m.contains_key(name) && m[name] is Number && m[name]->Number_0 is Some;
            let pruning = m.contains_key("pruning"@) && m["pruning"@] is Text && method(
                m["pruning"@]->Text_0,
            );
            let tracing = m.contains_key("tracing"@) && m["tracing"@] is Flag;
            let fat_db = m.contains_key("fat_db"@) ==> m["fat_db"@] is Flag;
            let mode = m["mode"@]->Text_0;
            let told = m.contains_key("mode"@);
            let r = decoded(m);
            &&& r == Err::<UserDefaults, DefaultsError>(DefaultsError::MissingPruning)
                <==> !m.contains_key("pruning"@)
            &&& r == Err::<UserDefaults, DefaultsError>(DefaultsError::InvalidPruningValue)
                <==> m.contains_key("pruning"@) && !(m["pruning"@] is Text)
            &&& r == Err::<UserDefaults, DefaultsError>(DefaultsError::InvalidPruningMethod)
                <==> m.contains_key("pruning"@) && m["pruning"@] is Text && !pruning
            &&& r == Err::<UserDefaults, DefaultsError>(DefaultsError::MissingTracing) <==> pruning
                && !m.contains_key("tracing"@)
            &&& r == Err::<UserDefaults, DefaultsError>(DefaultsError::InvalidTracing) <==> pruning
                && m.contains_key("tracing"@) && !tracing
            &&& r == Err::<UserDefaults, DefaultsError>(DefaultsError::InvalidFatDb) <==> pruning
                && tracing && !fat_db
            &&& r == Err::<UserDefaults, DefaultsError>(DefaultsError::InvalidMode) <==> pruning
                && tracing && fat_db && told && !(m["mode"@] is Text && (mode == "offline"@ || mode
                == "dark"@ || mode == "passive"@ || mode == "active"@))
            &&& r == Err::<UserDefaults, DefaultsError>(DefaultsError::InvalidTimeout) <==> pruning
                && tracing && fat_db && told && m["mode"@] is Text && (mode == "dark"@ || mode
                == "passive"@) && !seconds("mode.timeout"@)
            &&& r == Err::<UserDefaults, DefaultsError>(DefaultsError::InvalidAlarm) <==> pruning
                && tracing && fat_db && told && m["mode"@] is Text && mode == "passive"@ && seconds(
                "mode.timeout"@,
            ) && !seconds("mode.alarm"@)
        }),
{
    lemma_names();
    if let SettingView::Text(name) = m["pruning"@] {
        lemma_algorithm_names(name);
    }
}

/// User defaults are written under the names that they are read from, and nothing else is written. Off is
/// written as "offline", active as "active".
pub proof fn lemma_defaults_are_written(defaults: UserDefaults, name: Seq<char>)
    ensures
        ({
            let m = encoded(defaults);
            let timed = defaults.mode is Dark || defaults.mode is Passive;
            &&& m["pruning"@] == SettingView::Text(
                match defaults.pruning {
                    Algorithm::Archive => "archive"@,
                    Algorithm::EarlyMerge => "light"@,
                    Algorithm::OverlayRecent => "fast"@,
                    Algorithm::RefCounted => "basic"@,
                },
            )
            &&& m["tracing"@] == SettingView::Flag(defaults.tracing)
            &&& m["fat_db"@] == SettingView::Flag(defaults.fat_db)
            &&& defaults.mode is Off ==> m["mode"@] == SettingView::Text("offline"@)
            &&& defaults.mode is Dark ==> m["mode"@] == SettingView::Text("dark"@)
            &&& defaults.mode is Passive ==> m["mode"@] == SettingView::Text("passive"@)
            &&& defaults.mode is Active ==> m["mode"@] == SettingView::Text("active"@)
            &&& defaults.mode matches Mode::Dark(timeout) ==> m["mode.timeout"@]
                == SettingView::Number(Some(timeout.secs))
            &&& defaults.mode matches Mode::Passive(timeout, alarm) ==> m["mode.timeout"@]
                == SettingView::Number(Some(timeout.secs)) && m["mode.alarm"@] == SettingView::Number(
                Some(alarm.secs),
            )
            &&& m.contains_key(name) <==> {
                ||| name == "pruning"@
                ||| name == "tracing"@
                ||| name == "fat_db"@
                ||| name == "mode"@
                ||| timed && name == "mode.timeout"@
                ||| defaults.mode is Passive && name == "mode.alarm"@
            }
        }),
{
    lemma_names();
}

/// A file that holds settings that can be read gives them. Without a file, or with one that holds none,
/// the launch is the first: pruning is fast, there are neither traces nor a fat database, and the mode is
/// active.
pub proof fn lemma_what_is_loaded(json: Seq<u8>)
    ensures
        ({
            let first = UserDefaults {
                is_first_launch: true,
                pruning: Algorithm::OverlayRecent,
                tracing: false,
                fat_db: false,
                mode: Mode::Active,
            };
            &&& loaded(None) == first
            &&& loaded(Some(json)).is_first_launch ==> loaded(Some(json)) == first
            &&& loaded(Some(json)).is_first_launch <==> !(json_members(json) is Some && decoded(
                json_members(json)->0,
            ) is Ok)
            &&& json_members(json) matches Some(m) ==> decoded(m) matches Ok(defaults) ==> loaded(
                Some(json),
            ) == defaults
        }),
{
}

/// Reading what was written gives the same pruning, traces, fat database and kind of mode, and spans of
/// as many whole seconds. The launch is no longer the first.
pub proof fn lemma_read_after_write(defaults: UserDefaults)
    ensures
        decoded(encoded(defaults)) matches Ok(after) && {
            &&& !after.is_first_launch
            &&& after.pruning == defaults.pruning
            &&& after.tracing == defaults.tracing
            &&& after.fat_db == defaults.fat_db
            &&& match defaults.mode {
                Mode::Off => after.mode == Mode::Off,
                Mode::Dark(timeout) => after.mode == Mode::Dark(
                    Duration { secs: timeout.secs, nanos: 0 },
                ),
                Mode::Passive(timeout, alarm) => after.mode == Mode::Passive(
                    Duration { secs: timeout.secs, nanos: 0 },
                    Duration { secs: alarm.secs, nanos: 0 },
                ),
                Mode::Active => after.mode == Mode::Active,
            }
        },
{
    crate::user_defaults::lemma_read_gives_back_write(defaults);
}

/// What is wrong with settings is told in these words.
pub proof fn lemma_words_of_errors()
    ensures
        DefaultsError::MissingPruning.words() == "missing pruning"@,
        DefaultsError::InvalidPruningValue.words() == "invalid pruning value"@,
        DefaultsError::InvalidPruningMethod.words() == "invalid pruning method"@,
        DefaultsError::MissingTracing.words() == "missing tracing"@,
        DefaultsError::InvalidTracing.words() == "invalid tracing value"@,
        DefaultsError::InvalidFatDb.words() == "invalid fat_db value"@,
        DefaultsError::InvalidMode.words() == "invalid mode value"@,
        DefaultsError::InvalidTimeout.words() == "invalid/missing mode.timeout value"@,
        DefaultsError::InvalidAlarm.words() == "invalid/missing mode.alarm value"@,
{
}

} // verus!
