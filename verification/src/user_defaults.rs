//! The defaults that a user's last run leaves for the next.
use crate::json::{
    get, insert, json_members, json_text, members, new_object, parse, print, Setting, SettingView,
};
use serde_json::Value;
use vstd::prelude::*;

verus! {

/// A span of time.
#[derive(Clone, Copy, Debug, PartialEq, Eq, Structural)]
pub struct Duration {
    /// Whole seconds.
    pub secs: u64,
    /// Nanoseconds beyond them.
    pub nanos: u32,
}

/// The whole seconds of a span.
pub open spec fn whole(span: Duration) -> Duration {
    Duration { secs: span.secs, nanos: 0 }
}

impl Duration {
    /// A span of whole seconds.
    pub fn from_secs(secs: u64) -> (r: Self)
        ensures
            r.secs == secs,
            r.nanos == 0,
    {
        Duration { secs, nanos: 0 }
    }

    /// How many whole seconds there are.
    pub fn as_secs(&self) -> (r: u64)
        ensures
            r == self.secs,
    {
        self.secs
    }
}

/// A pruning algorithm.
#[derive(Clone, Copy, Debug, PartialEq, Eq, Structural)]
pub enum Algorithm {
    /// Keep all keys forever.
    Archive,
    /// Ancient and recent history maintained separately, with early merges.
    EarlyMerge,
    /// Ancient and recent history maintained separately, with the recent one as an overlay.
    OverlayRecent,
    /// Ancient and recent history maintained separately, with references counted.
    RefCounted,
}

impl Algorithm {
    /// The name of the algorithm.
    pub open spec fn name(self) -> Seq<char> {
        match self {
            Algorithm::Archive => "archive"@,
            Algorithm::EarlyMerge => "light"@,
            Algorithm::OverlayRecent => "fast"@,
            Algorithm::RefCounted => "basic"@,
        }
    }

    /// The algorithm of a name.
    pub open spec fn named(name: Seq<char>) -> Option<Algorithm> {
        if name == "archive"@ {
            Some(Algorithm::Archive)
        } else if name == "light"@ {
            Some(Algorithm::EarlyMerge)
        } else if name == "fast"@ {
            Some(Algorithm::OverlayRecent)
        } else if name == "basic"@ {
            Some(Algorithm::RefCounted)
        } else {
            None
        }
    }

    /// Each algorithm is found by its name, and by no other.
    pub proof fn lemma_named(self, name: Seq<char>)
        ensures
            Algorithm::named(name) == Some(self) <==> name == self.name(),
    {
        reveal_strlit("archive");
        reveal_strlit("light");
        reveal_strlit("fast");
        reveal_strlit("basic");
        assert("archive"@[0] == 'a');
        assert("light"@[0] == 'l');
        assert("fast"@[0] == 'f');
        assert("basic"@[0] == 'b');
    }

    /// Returns static string describing the algorithm.
    pub fn as_str(&self) -> (r: &'static str)
        ensures
            r@ == self.name(),
    {
        match self {
            Algorithm::Archive => "archive",
            Algorithm::EarlyMerge => "light",
            Algorithm::OverlayRecent => "fast",
            Algorithm::RefCounted => "basic",
        }
    }

    /// Finds the algorithm of a name.
    pub fn parse(name: &String) -> (r: Option<Self>)
        ensures
            r == Algorithm::named(name@),
    {
        if *name == "archive".to_owned() {
            Some(Algorithm::Archive)
        } else if *name == "light".to_owned() {
            Some(Algorithm::EarlyMerge)
        } else if *name == "fast".to_owned() {
            Some(Algorithm::OverlayRecent)
        } else if *name == "basic".to_owned() {
            Some(Algorithm::RefCounted)
        } else {
            None
        }
    }
}

impl Default for Algorithm {
    fn default() -> (r: Self)
        ensures
            r == Algorithm::OverlayRecent,
    {
        Algorithm::OverlayRecent
    }
}

/// Operating mode for the client.
#[derive(Clone, Copy, Debug, PartialEq, Eq, Structural)]
pub enum Mode {
    /// Off whenever it can be.
    Off,
    /// Off until an RPC call comes, and again after the timeout.
    Dark(Duration),
    /// Off after the first timeout, and on again for a while after the alarm.
    Passive(Duration, Duration),
    /// Always on.
    Active,
}

/// What the user chose, or what stands for it.
#[derive(Clone, Copy, Debug, PartialEq, Eq, Structural)]
pub struct UserDefaults {
    /// Whether nothing has been saved yet.
    pub is_first_launch: bool,
    /// The pruning algorithm.
    pub pruning: Algorithm,
    /// Whether to keep traces.
    pub tracing: bool,
    /// Whether to keep a fat database.
    pub fat_db: bool,
    /// The operating mode.
    pub mode: Mode,
}

/// Why an object holds no user defaults.
#[derive(Clone, Copy, Debug, PartialEq, Eq, Structural)]
pub enum DefaultsError {
    /// There is no pruning algorithm.
    MissingPruning,
    /// The pruning algorithm is no string.
    InvalidPruningValue,
    /// There is no such pruning algorithm.
    InvalidPruningMethod,
    /// Nothing is said of traces.
    MissingTracing,
    /// What is said of traces is no boolean.
    InvalidTracing,
    /// What is said of a fat database is no boolean.
    InvalidFatDb,
    /// The mode is no string, or there is no such mode.
    InvalidMode,
    /// The mode needs a timeout in seconds, and has none.
    InvalidTimeout,
    /// The mode needs an alarm in seconds, and has none.
    InvalidAlarm,
}

/// The setting under a name, if there is one.
pub open spec fn setting(m: Map<Seq<char>, SettingView>, name: Seq<char>) -> Option<SettingView> {
    if m.dom().contains(name) {
        Some(m[name])
    } else {
        None
    }
}

/// The pruning algorithm among the settings.
pub open spec fn pruning_in(m: Map<Seq<char>, SettingView>) -> Result<Algorithm, DefaultsError> {
    match setting(m, "pruning"@) {
        None => Err(DefaultsError::MissingPruning),
        Some(SettingView::Text(name)) => match Algorithm::named(name) {
            Some(algorithm) => Ok(algorithm),
            None => Err(DefaultsError::InvalidPruningMethod),
        },
        Some(_) => Err(DefaultsError::InvalidPruningValue),
    }
}

/// Whether the settings ask for traces.
pub open spec fn tracing_in(m: Map<Seq<char>, SettingView>) -> Result<bool, DefaultsError> {
    match setting(m, "tracing"@) {
        None => Err(DefaultsError::MissingTracing),
        Some(SettingView::Flag(flag)) => Ok(flag),
        Some(_) => Err(DefaultsError::InvalidTracing),
    }
}

/// Whether the settings ask for a fat database. Unless they do, there is none.
pub open spec fn fat_db_in(m: Map<Seq<char>, SettingView>) -> Result<bool, DefaultsError> {
    match setting(m, "fat_db"@) {
        None => Ok(false),
        Some(SettingView::Flag(flag)) => Ok(flag),
        Some(_) => Err(DefaultsError::InvalidFatDb),
    }
}

/// The whole seconds under a name.
pub open spec fn seconds_in(m: Map<Seq<char>, SettingView>, name: Seq<char>) -> Option<Duration> {
    match setting(m, name) {
        Some(SettingView::Number(Some(secs))) => Some(Duration { secs, nanos: 0 }),
        _ => None,
    }
}

/// The mode of a name, with what else it needs from the settings.
pub open spec fn mode_named(m: Map<Seq<char>, SettingView>, name: Seq<char>) -> Result<
    Mode,
    DefaultsError,
> {
    if name == "offline"@ {
        Ok(Mode::Off)
    } else if name == "dark"@ {
        match seconds_in(m, "mode.timeout"@) {
            Some(timeout) => Ok(Mode::Dark(timeout)),
            None => Err(DefaultsError::InvalidTimeout),
        }
    } else if name == "passive"@ {
        match (seconds_in(m, "mode.timeout"@), seconds_in(m, "mode.alarm"@)) {
            (Some(timeout), Some(alarm)) => Ok(Mode::Passive(timeout, alarm)),
            (Some(_), None) => Err(DefaultsError::InvalidAlarm),
            (None, _) => Err(DefaultsError::InvalidTimeout),
        }
    } else if name == "active"@ {
        Ok(Mode::Active)
    } else {
        Err(DefaultsError::InvalidMode)
    }
}

/// The mode among the settings. Unless they say otherwise, it is active.
pub open spec fn mode_in(m: Map<Seq<char>, SettingView>) -> Result<Mode, DefaultsError> {
    match setting(m, "mode"@) {
        None => Ok(Mode::Active),
        Some(SettingView::Text(name)) => mode_named(m, name),
        Some(_) => Err(DefaultsError::InvalidMode),
    }
}

/// The user defaults among the settings, or what is wrong with the first of them that is wrong.
pub open spec fn decoded(m: Map<Seq<char>, SettingView>) -> Result<UserDefaults, DefaultsError> {
    match (pruning_in(m), tracing_in(m), fat_db_in(m), mode_in(m)) {
        (Ok(pruning), Ok(tracing), Ok(fat_db), Ok(mode)) => Ok(
            UserDefaults { is_first_launch: false, pruning, tracing, fat_db, mode },
        ),
        (Err(error), _, _, _) => Err(error),
        (_, Err(error), _, _) => Err(error),
        (_, _, Err(error), _) => Err(error),
        (_, _, _, Err(error)) => Err(error),
    }
}

/// The name of a mode.
pub open spec fn mode_name(mode: Mode) -> Seq<char> {
    match mode {
        Mode::Off => "offline"@,
        Mode::Dark(_) => "dark"@,
        Mode::Passive(_, _) => "passive"@,
        Mode::Active => "active"@,
    }
}

/// What a mode adds to the settings beside its name.
pub open spec fn with_spans(m: Map<Seq<char>, SettingView>, mode: Mode) -> Map<Seq<char>, SettingView> {
    match mode {
        Mode::Dark(timeout) => m.insert(
            "mode.timeout"@,
            SettingView::Number(Some(timeout.secs)),
        ),
        Mode::Passive(timeout, alarm) => m.insert(
            "mode.timeout"@,
            SettingView::Number(Some(timeout.secs)),
        ).insert("mode.alarm"@, SettingView::Number(Some(alarm.secs))),
        _ => m,
    }
}

/// The user defaults as settings.
pub open spec fn encoded(defaults: UserDefaults) -> Map<Seq<char>, SettingView> {
    with_spans(
        Map::<Seq<char>, SettingView>::empty().insert(
            "pruning"@,
            SettingView::Text(defaults.pruning.name()),
        ).insert("tracing"@, SettingView::Flag(defaults.tracing)).insert(
            "fat_db"@,
            SettingView::Flag(defaults.fat_db),
        ),
        defaults.mode,
    ).insert("mode"@, SettingView::Text(mode_name(defaults.mode)))
}

/// The user defaults before anything was saved.
pub open spec fn first_launch() -> UserDefaults {
    UserDefaults {
        is_first_launch: true,
        pruning: Algorithm::OverlayRecent,
        tracing: false,
        fat_db: false,
        mode: Mode::Active,
    }
}

/// The user defaults that the contents of a file give. Where there is no file, or it holds no user
/// defaults, they are those of a first launch.
pub open spec fn loaded(file: Option<Seq<u8>>) -> UserDefaults {
    match file {
        None => first_launch(),
        Some(json) => match json_members(json) {
            None => first_launch(),
            Some(m) => match decoded(m) {
                Ok(defaults) => defaults,
                Err(_) => first_launch(),
            },
        },
    }
}

/// What is left of user defaults after they were saved: the launch is no longer the first, and spans are
/// whole seconds.
pub open spec fn kept(defaults: UserDefaults) -> UserDefaults {
    UserDefaults {
        is_first_launch: false,
        mode: match defaults.mode {
            Mode::Dark(timeout) => Mode::Dark(whole(timeout)),
            Mode::Passive(timeout, alarm) => Mode::Passive(whole(timeout), whole(alarm)),
            mode => mode,
        },
        ..defaults
    }
}

/// The names of the settings, and those of the modes, differ.
pub proof fn lemma_names()
    ensures
        "pruning"@ != "tracing"@,
        "pruning"@ != "fat_db"@,
        "pruning"@ != "mode"@,
        "pruning"@ != "mode.timeout"@,
        "pruning"@ != "mode.alarm"@,
        "tracing"@ != "fat_db"@,
        "tracing"@ != "mode"@,
        "tracing"@ != "mode.timeout"@,
        "tracing"@ != "mode.alarm"@,
        "fat_db"@ != "mode"@,
        "fat_db"@ != "mode.timeout"@,
        "fat_db"@ != "mode.alarm"@,
        "mode"@ != "mode.timeout"@,
        "mode"@ != "mode.alarm"@,
        "mode.timeout"@ != "mode.alarm"@,
        "offline"@ != "dark"@,
        "offline"@ != "passive"@,
        "offline"@ != "active"@,
        "dark"@ != "passive"@,
        "dark"@ != "active"@,
        "passive"@ != "active"@,
{
    reveal_strlit("pruning");
    reveal_strlit("tracing");
    reveal_strlit("fat_db");
    reveal_strlit("mode");
    reveal_strlit("mode.timeout");
    reveal_strlit("mode.alarm");
    reveal_strlit("offline");
    reveal_strlit("dark");
    reveal_strlit("passive");
    reveal_strlit("active");
    assert("pruning"@[0] == 'p');
    assert("tracing"@[0] == 't');
    assert("fat_db"@[0] == 'f');
    assert("mode"@[0] == 'm');
    assert("mode.timeout"@[0] == 'm');
    assert("mode.alarm"@[0] == 'm');
    assert("mode"@.len() == 4);
    assert("mode.timeout"@.len() == 12);
    assert("mode.alarm"@.len() == 10);
    assert("offline"@[0] == 'o');
    assert("dark"@[0] == 'd');
    assert("passive"@[0] == 'p');
    assert("active"@[0] == 'a');
}

/// Reading the settings that user defaults were written as gives them back, but for the first launch and
/// parts of seconds.
pub proof fn lemma_read_gives_back_write(defaults: UserDefaults)
    ensures
        decoded(encoded(defaults)) == Ok::<UserDefaults, DefaultsError>(kept(defaults)),
{
    lemma_names();
    defaults.pruning.lemma_named(defaults.pruning.name());
}

impl DefaultsError {
    /// What is wrong, in words.
    pub open spec fn words(self) -> Seq<char> {
        match self {
            DefaultsError::MissingPruning => "missing pruning"@,
            DefaultsError::InvalidPruningValue => "invalid pruning value"@,
            DefaultsError::InvalidPruningMethod => "invalid pruning method"@,
            DefaultsError::MissingTracing => "missing tracing"@,
            DefaultsError::InvalidTracing => "invalid tracing value"@,
            DefaultsError::InvalidFatDb => "invalid fat_db value"@,
            DefaultsError::InvalidMode => "invalid mode value"@,
            DefaultsError::InvalidTimeout => "invalid/missing mode.timeout value"@,
            DefaultsError::InvalidAlarm => "invalid/missing mode.alarm value"@,
        }
    }

    /// Says in words what is wrong.
    pub fn message(&self) -> (r: &'static str)
        ensures
            r@ == self.words(),
    {
        match self {
            DefaultsError::MissingPruning => "missing pruning",
            DefaultsError::InvalidPruningValue => "invalid pruning value",
            DefaultsError::InvalidPruningMethod => "invalid pruning method",
            DefaultsError::MissingTracing => "missing tracing",
            DefaultsError::InvalidTracing => "invalid tracing value",
            DefaultsError::InvalidFatDb => "invalid fat_db value",
            DefaultsError::InvalidMode => "invalid mode value",
            DefaultsError::InvalidTimeout => "invalid/missing mode.timeout value",
            DefaultsError::InvalidAlarm => "invalid/missing mode.alarm value",
        }
    }
}

/// Reads the pruning algorithm.
fn read_pruning(object: &serde_json::Map<String, Value>) -> (r: Result<Algorithm, DefaultsError>)
    ensures
        r == pruning_in(members(*object)),
{
    match get(object, "pruning") {
        None => Err(DefaultsError::MissingPruning),
        Some(Setting::Text(name)) => match Algorithm::parse(&name) {
            Some(algorithm) => Ok(algorithm),
            None => Err(DefaultsError::InvalidPruningMethod),
        },
        Some(_) => Err(DefaultsError::InvalidPruningValue),
    }
}

/// Reads whether to keep traces.
fn read_tracing(object: &serde_json::Map<String, Value>) -> (r: Result<bool, DefaultsError>)
    ensures
        r == tracing_in(members(*object)),
{
    match get(object, "tracing") {
        None => Err(DefaultsError::MissingTracing),
        Some(Setting::Flag(flag)) => Ok(flag),
        Some(_) => Err(DefaultsError::InvalidTracing),
    }
}

/// Reads whether to keep a fat database.
fn read_fat_db(object: &serde_json::Map<String, Value>) -> (r: Result<bool, DefaultsError>)
    ensures
        r == fat_db_in(members(*object)),
{
    match get(object, "fat_db") {
        None => Ok(false),
        Some(Setting::Flag(flag)) => Ok(flag),
        Some(_) => Err(DefaultsError::InvalidFatDb),
    }
}

/// Reads whole seconds.
fn read_seconds(object: &serde_json::Map<String, Value>, name: &str) -> (r: Option<Duration>)
    ensures
        r == seconds_in(members(*object), name@),
{
    match get(object, name) {
        Some(Setting::Number(Some(secs))) => Some(Duration::from_secs(secs)),
        _ => None,
    }
}

/// Reads the operating mode.
fn read_mode(object: &serde_json::Map<String, Value>) -> (r: Result<Mode, DefaultsError>)
    ensures
        r == mode_in(members(*object)),
{
    let name = match get(object, "mode") {
        None => {
            return Ok(Mode::Active);
        },
        Some(Setting::Text(name)) => name,
        Some(_) => {
            return Err(DefaultsError::InvalidMode);
        },
    };
    if name == "offline".to_owned() {
        Ok(Mode::Off)
    } else if name == "dark".to_owned() {
        match read_seconds(object, "mode.timeout") {
            Some(timeout) => Ok(Mode::Dark(timeout)),
            None => Err(DefaultsError::InvalidTimeout),
        }
    } else if name == "passive".to_owned() {
        let timeout = match read_seconds(object, "mode.timeout") {
            Some(timeout) => timeout,
            None => {
                return Err(DefaultsError::InvalidTimeout);
            },
        };
        match read_seconds(object, "mode.alarm") {
            Some(alarm) => Ok(Mode::Passive(timeout, alarm)),
            None => Err(DefaultsError::InvalidAlarm),
        }
    } else if name == "active".to_owned() {
        Ok(Mode::Active)
    } else {
        Err(DefaultsError::InvalidMode)
    }
}

impl Default for UserDefaults {
    fn default() -> (r: Self)
        ensures
            r == first_launch(),
    {
        UserDefaults {
            is_first_launch: true,
            pruning: Algorithm::default(),
            tracing: false,
            fat_db: false,
            mode: Mode::Active,
        }
    }
}

impl UserDefaults {
    /// Writes the user defaults as an object.
    pub fn serialize(&self) -> (r: serde_json::Map<String, Value>)
        ensures
            members(r) == encoded(*self),
    {
        let mut map = new_object();
        insert(&mut map, "pruning", Setting::Text(self.pruning.as_str().to_owned()));
        insert(&mut map, "tracing", Setting::Flag(self.tracing));
        insert(&mut map, "fat_db", Setting::Flag(self.fat_db));
        let mode_str = match self.mode {
            Mode::Off => "offline",
            Mode::Dark(timeout) => {
                insert(&mut map, "mode.timeout", Setting::Number(Some(timeout.as_secs())));
                "dark"
            },
            Mode::Passive(timeout, alarm) => {
                insert(&mut map, "mode.timeout", Setting::Number(Some(timeout.as_secs())));
                insert(&mut map, "mode.alarm", Setting::Number(Some(alarm.as_secs())));
                "passive"
            },
            Mode::Active => "active",
        };
        insert(&mut map, "mode", Setting::Text(mode_str.to_owned()));
        map
    }

    /// Reads user defaults from an object.
    pub fn deserialize(object: &serde_json::Map<String, Value>) -> (r: Result<Self, DefaultsError>)
        ensures
            r == decoded(members(*object)),
    {
        let pruning = match read_pruning(object) {
            Ok(pruning) => pruning,
            Err(error) => {
                return Err(error);
            },
        };
        let tracing = match read_tracing(object) {
            Ok(tracing) => tracing,
            Err(error) => {
                return Err(error);
            },
        };
        let fat_db = match read_fat_db(object) {
            Ok(fat_db) => fat_db,
            Err(error) => {
                return Err(error);
            },
        };
        let mode = match read_mode(object) {
            Ok(mode) => mode,
            Err(error) => {
                return Err(error);
            },
        };
        Ok(UserDefaults { is_first_launch: false, pruning, tracing, fat_db, mode })
    }

    /// Reads user defaults from what a file holds. Where there is no file, or it holds no user defaults,
    /// they are those of a first launch.
    pub fn load(file: Option<Vec<u8>>) -> (r: Result<Self, String>)
        ensures
            r == Ok::<Self, String>(
                loaded(
                    match file {
                        Some(json) => Some(json@),
                        None => None,
                    },
                ),
            ),
    {
        let json = match file {
            Some(json) => json,
            None => {
                return Ok(UserDefaults::default());
            },
        };
        match parse(&json) {
            Some(object) => match UserDefaults::deserialize(&object) {
                Ok(defaults) => Ok(defaults),
                Err(_) => Ok(UserDefaults::default()),
            },
            None => Ok(UserDefaults::default()),
        }
    }

    /// Writes user defaults as what a file is to hold. Reading it gives them back, but for the first
    /// launch and parts of seconds.
    pub fn save(&self) -> (r: Vec<u8>)
        ensures
            r@ == json_text(encoded(*self)),
            loaded(Some(r@)) == kept(*self),
    {
        let object = self.serialize();
        proof {
            lemma_read_gives_back_write(*self);
        }
        print(&object)
    }
}

} // verus!
