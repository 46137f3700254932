//! Objects in JSON, as far as settings need them.
use serde_json::Value;
use vstd::prelude::*;

verus! {

/// A value under a name in an object.
#[derive(Debug)]
pub enum Setting {
    /// A string.
    Text(String),
    /// A boolean.
    Flag(bool),
    /// A number, where it is a natural number that fits.
    Number(Option<u64>),
    /// Something else.
    Other,
}

/// What a setting holds.
pub ghost enum SettingView {
    /// A string.
    Text(Seq<char>),
    /// A boolean.
    Flag(bool),
    /// A number, where it is a natural number that fits.
    Number(Option<u64>),
    /// Something else.
    Other,
}

impl View for Setting {
    type V = SettingView;

    open spec fn view(&self) -> SettingView {
        match *self {
            Setting::Text(text) => SettingView::Text(text@),
            Setting::Flag(flag) => SettingView::Flag(flag),
            Setting::Number(number) => SettingView::Number(number),
            Setting::Other => SettingView::Other,
        }
    }
}

/// Whether a setting can be written down: it is a string, a boolean or a natural number that fits.
pub open spec fn writable(setting: SettingView) -> bool {
    match setting {
        SettingView::Number(number) => number is Some,
        SettingView::Other => false,
        _ => true,
    }
}

/// Whether every setting under a name can be written down.
pub open spec fn all_writable(members: Map<Seq<char>, SettingView>) -> bool {
    forall|name: Seq<char>| #[trigger] members.dom().contains(name) ==> writable(members[name])
}

/// `serde_json::Value`: a value in JSON.
#[verifier::external_type_specification]
#[verifier::external_body]
pub struct ExValue(serde_json::Value);

/// `serde_json::Map`: the names of an object, each with its value.
#[verifier::external_type_specification]
#[verifier::external_body]
#[verifier::reject_recursive_types(K)]
#[verifier::reject_recursive_types(V)]
pub struct ExObject<K, V>(serde_json::Map<K, V>);

/// The settings in an object, by their names.
pub uninterp spec fn members(object: serde_json::Map<String, Value>) -> Map<Seq<char>, SettingView>;

/// The settings in the object that a text in JSON holds, by their names. Where the text is no object in
/// JSON there are none.
pub uninterp spec fn json_members(json: Seq<u8>) -> Option<Map<Seq<char>, SettingView>>;

/// The text in JSON of an object that holds these settings.
pub uninterp spec fn json_text(members: Map<Seq<char>, SettingView>) -> Seq<u8>;

/// `serde_json::Map::new`: an object without settings.
#[verifier::external_body]
pub(crate) fn new_object() -> (r: serde_json::Map<String, Value>)
    ensures
        (members(r) == Map::<Seq<char>, SettingView>::empty()),
{
    serde_json::Map::new()
}

/// `serde_json::Map::insert`: the setting stands under the name, in place of one that stood there.
#[verifier::external_body]
pub(crate) fn insert(object: &mut serde_json::Map<String, Value>, name: &str, setting: Setting)
    requires
        writable(setting@),
    ensures
        members(*final(object)) == members(*old(object)).insert(name@, setting@),
{
    let value = match setting {
        Setting::Text(text) => Value::String(text),
        Setting::Flag(flag) => Value::Bool(flag),
        Setting::Number(number) => Value::from(number),
        Setting::Other => Value::Null,
    };
    object.insert(name.to_string(), value);
}

/// `serde_json::Map::get`: the setting under a name, if there is one.
#[verifier::external_body]
pub(crate) fn get(object: &serde_json::Map<String, Value>, name: &str) -> (r: Option<Setting>)
    ensures
        match r {
            Some(setting) => members(*object).dom().contains(name@) && members(*object)[name@]
                == setting@,
            None => !members(*object).dom().contains(name@),
        },
{
    object.get(name).map(|value| match value {
        Value::String(text) => Setting::Text(text.clone()),
        Value::Bool(flag) => Setting::Flag(*flag),
        Value::Number(number) => Setting::Number(number.as_u64()),
        Value::Null => Setting::Other,
        Value::Array(_) => Setting::Other,
        Value::Object(_) => Setting::Other,
    })
}

/// `serde_json::from_slice` for an object: what it holds depends on the text alone.
#[verifier::external_body]
pub(crate) fn parse(json: &Vec<u8>) -> (r: Option<serde_json::Map<String, Value>>)
    ensures
        match r {
            Some(object) => json_members(json@) == Some(members(object)),
            None => json_members(json@) is None,
        },
{
    serde_json::from_slice(json).ok()
}

/// `serde_json::to_string` for an object: of strings, booleans and natural numbers it always makes a
/// text, which depends on the settings alone, and from which the same settings are read again.
#[verifier::external_body]
pub(crate) fn print(object: &serde_json::Map<String, Value>) -> (r: Vec<u8>)
    requires
        all_writable(members(*object)),
    ensures
        r@ == json_text(members(*object)),
        json_members(r@) == Some(members(*object)),
{
    serde_json::to_string(object).unwrap().into_bytes()
}

} // verus!
