//! Stop-hook mode and hook installation.
//!
//! As a `Stop` hook, backcheck runs the moment the agent finishes and, when it finds claims the
//! transcript does not support, returns `decision: "block"` with a reason. That reason is then
//! handed back to the model, which has to resolve it before finishing.
//!
//! `stop_hook_active` guards the obvious hazard: if the model is already responding to a previous
//! block, blocking again could loop. In that case the findings are reported without blocking.

use vstd::prelude::*;

use crate::json;
use crate::json::{Json, JsonModel};
use crate::lists;
use crate::text;

verus! {

/// The payload that a Stop hook finds on its stdin.
#[derive(Debug)]
pub struct HookInput {
    pub session_id: Option<String>,
    pub transcript_path: Option<String>,
    pub cwd: Option<String>,
    /// True when this Stop hook is firing because a previous one blocked.
    pub stop_hook_active: bool,
    pub hook_event_name: Option<String>,
}

impl Default for HookInput {
    fn default() -> (h: Self)
        ensures
            h.session_id is None,
            h.transcript_path is None,
            h.cwd is None,
            !h.stop_hook_active,
            h.hook_event_name is None,
    {
        HookInput {
            session_id: None,
            transcript_path: None,
            cwd: None,
            stop_hook_active: false,
            hook_event_name: None,
        }
    }
}

impl HookInput {
    /// The path of the transcript, where the payload names one.
    pub fn transcript(&self) -> (r: Option<String>)
        ensures
            r.deep_view() == self.transcript_path.deep_view(),
    {
        text::copied(&self.transcript_path)
    }
}

// ---------------------------------------------------------------- what the hook answers

/// What a Stop hook does once a session has been analysed.
#[derive(Debug, Clone, Copy, PartialEq, Eq, Structural)]
pub enum HookAction {
    /// Keep the turn from finishing, and hand the reasons back.
    Block,
    /// Show the report, and let the turn finish.
    Report,
    /// Let the turn finish.
    Allow,
}

/// What a Stop hook does. Blocking again while the model is already answering a block risks a
/// loop.
pub open spec fn action_for(problems: bool, no_block: bool, stop_hook_active: bool) -> HookAction {
    if !problems {
        HookAction::Allow
    } else if no_block || stop_hook_active {
        HookAction::Report
    } else {
        HookAction::Block
    }
}

/// Decide what a Stop hook does: `problems` says whether the report has any, `no_block` whether
/// blocking was switched off, and `stop_hook_active` whether a previous block is being answered.
pub fn hook_action(problems: bool, no_block: bool, stop_hook_active: bool) -> (r: HookAction)
    ensures
        r == action_for(problems, no_block, stop_hook_active),
{
    if problems && !no_block && !stop_hook_active {
        return HookAction::Block;
    }
    if problems {
        HookAction::Report
    } else {
        HookAction::Allow
    }
}

/// The document that blocks completion.
pub open spec fn block_doc(reason: Seq<char>) -> JsonModel {
    JsonModel::Object(
        seq![
            ("decision"@, JsonModel::Text("block"@)),
            ("reason"@, JsonModel::Text(reason)),
        ],
    )
}

/// The document that lets the turn finish.
pub open spec fn allow_doc() -> JsonModel {
    JsonModel::Object(seq![("continue"@, JsonModel::Bool(true))])
}

/// The JSON a Stop hook writes to stdout to block completion.
pub fn block_output(reason: &str) -> (r: String)
    ensures
        r@ == json::compact(block_doc(reason@)),
{
    let mut m: Vec<(String, Json)> = Vec::new();
    m.push(("decision".to_owned(), Json::Text("block".to_owned())));
    m.push(("reason".to_owned(), Json::Text(reason.to_owned())));
    assert(m.deep_view() =~= block_doc(reason@)->Object_0);
    let doc = Json::object(m);
    doc.to_text()
}

/// Non-blocking hook output: let the turn finish, but surface the summary.
pub fn allow_output() -> (r: String)
    ensures
        r@ == json::compact(allow_doc()),
{
    let mut m: Vec<(String, Json)> = Vec::new();
    m.push(("continue".to_owned(), Json::Bool(true)));
    assert(m.deep_view() =~= allow_doc()->Object_0);
    let doc = Json::object(m);
    doc.to_text()
}

// ---------------------------------------------------------------- install

/// Why settings cannot be changed.
#[derive(Debug, Clone, Copy, PartialEq, Eq, Structural)]
pub enum InstallError {
    /// The settings are not JSON.
    NotJson,
    /// The settings are not an object.
    SettingsNotObject,
    /// The `hooks` of the settings are not an object.
    HooksNotObject,
    /// The `Stop` hooks of the settings are not an array.
    StopNotArray,
    /// The changed settings could not be written out.
    NotRendered,
}

/// An error in words.
pub open spec fn error_text(e: InstallError) -> Seq<char> {
    match e {
        InstallError::NotJson => "not valid JSON; fix it before installing"@,
        InstallError::SettingsNotObject => "settings.json must contain a JSON object"@,
        InstallError::HooksNotObject => "`hooks` must be a JSON object"@,
        InstallError::StopNotArray => "`hooks.Stop` must be an array"@,
        InstallError::NotRendered => "the settings could not be rendered"@,
    }
}

impl InstallError {
    pub fn message(&self) -> (r: &'static str)
        ensures
            r@ == error_text(*self),
    {
        match self {
            InstallError::NotJson => "not valid JSON; fix it before installing",
            InstallError::SettingsNotObject => "settings.json must contain a JSON object",
            InstallError::HooksNotObject => "`hooks` must be a JSON object",
            InstallError::StopNotArray => "`hooks.Stop` must be an array",
            InstallError::NotRendered => "the settings could not be rendered",
        }
    }
}

/// The name of the settings file.
pub open spec fn settings_name(global: bool) -> Seq<char> {
    if global {
        "settings.json"@
    } else {
        "settings.local.json"@
    }
}

/// The name of the settings file.
///
/// For one project it is settings.local.json, not settings.json: the latter is the file teams
/// commit, and a hook pointing at a binary a colleague has not installed fails for them on every
/// turn.
pub fn settings_file(global: bool) -> (r: &'static str)
    ensures
        r@ == settings_name(global),
{
    if global {
        "settings.json"
    } else {
        "settings.local.json"
    }
}

/// The command of the hook.
pub open spec fn hook_command(blocking: bool) -> Seq<char> {
    if blocking {
        "backcheck hook"@
    } else {
        "backcheck hook --no-block"@
    }
}

/// The entry that runs backcheck.
pub open spec fn own_entry(blocking: bool) -> JsonModel {
    JsonModel::Object(
        seq![
            (
                "hooks"@,
                JsonModel::Array(
                    seq![
                        JsonModel::Object(
                            seq![
                                ("command"@, JsonModel::Text(hook_command(blocking))),
                                ("type"@, JsonModel::Text("command"@)),
                            ],
                        ),
                    ],
                ),
            ),
        ],
    )
}

/// A hook runs backcheck.
pub open spec fn runs_backcheck(h: JsonModel) -> bool {
    h.str_at("command"@) matches Some(c) && text::has(c, "backcheck"@)
}

/// An entry runs backcheck: one of its hooks does.
pub open spec fn is_own(m: JsonModel) -> bool {
    match m.get("hooks"@) {
        Some(hs) => match hs.as_array() {
            Some(items) => lists::any_such(items, |h: JsonModel| runs_backcheck(h)),
            None => false,
        },
        None => false,
    }
}

/// The entries that do not run backcheck.
pub open spec fn others(entries: Seq<JsonModel>) -> Seq<JsonModel> {
    lists::selected(
        entries,
        |m: JsonModel|
            if is_own(m) {
                None
            } else {
                Some(m)
            },
    )
}

/// The value under `key`, or `default` where there is none.
pub open spec fn entry_or(v: JsonModel, key: Seq<char>, default: JsonModel) -> JsonModel {
    match v.get(key) {
        Some(x) => x,
        None => default,
    }
}

/// The hooks with the entries of `Stop` replaced.
pub open spec fn with_stop(
    hooks: Seq<(Seq<char>, JsonModel)>,
    entries: Seq<JsonModel>,
) -> JsonModel {
    JsonModel::Object(json::with_entry(hooks, "Stop"@, JsonModel::Array(entries)))
}

/// The settings with the hooks replaced.
pub open spec fn with_hooks(settings: Seq<(Seq<char>, JsonModel)>, hooks: JsonModel) -> JsonModel {
    JsonModel::Object(json::with_entry(settings, "hooks"@, hooks))
}

/// The settings with backcheck as a Stop hook, once and last, and everything else as it was.
pub open spec fn installed(settings: JsonModel, blocking: bool) -> Result<JsonModel, InstallError> {
    match settings {
        JsonModel::Object(ms) => match entry_or(
            settings,
            "hooks"@,
            JsonModel::Object(Seq::empty()),
        ) {
            JsonModel::Object(hs) => match entry_or(
                JsonModel::Object(hs),
                "Stop"@,
                JsonModel::Array(Seq::empty()),
            ) {
                JsonModel::Array(entries) => Ok(
                    with_hooks(ms, with_stop(hs, others(entries).push(own_entry(blocking)))),
                ),
                _ => Err(InstallError::StopNotArray),
            },
            _ => Err(InstallError::HooksNotObject),
        },
        _ => Err(InstallError::SettingsNotObject),
    }
}

/// The settings without backcheck, where it was there.
pub open spec fn uninstalled(settings: JsonModel) -> Option<JsonModel> {
    match settings {
        JsonModel::Object(ms) => match settings.get("hooks"@) {
            Some(JsonModel::Object(hs)) => match JsonModel::Object(hs).get("Stop"@) {
                Some(JsonModel::Array(entries)) => if others(entries).len() == entries.len() {
                    None
                } else {
                    Some(with_hooks(ms, with_stop(hs, others(entries))))
                },
                _ => None,
            },
            _ => None,
        },
        _ => None,
    }
}

/// The settings that a file holds; one that is missing or blank holds none.
pub open spec fn settings_in(raw: Option<Seq<char>>) -> Option<JsonModel> {
    match raw {
        Some(r) => if text::trimmed(r).len() == 0 {
            Some(JsonModel::Object(Seq::empty()))
        } else {
            json::parsed(r)
        },
        None => Some(JsonModel::Object(Seq::empty())),
    }
}

/// Settings as the text of a file.
pub open spec fn rendered(settings: JsonModel) -> Option<Seq<char>> {
    match json::json_pretty(json::compact(settings)) {
        Some(t) => Some(t + "\n"@),
        None => None,
    }
}

/// What to write to the settings file to install backcheck.
pub open spec fn install_text(raw: Option<Seq<char>>, blocking: bool) -> Result<
    Seq<char>,
    InstallError,
> {
    match settings_in(raw) {
        None => Err(InstallError::NotJson),
        Some(settings) => match installed(settings, blocking) {
            Err(e) => Err(e),
            Ok(changed) => match rendered(changed) {
                Some(t) => Ok(t),
                None => Err(InstallError::NotRendered),
            },
        },
    }
}

/// What to write to the settings file to remove backcheck, where it is there.
pub open spec fn uninstall_text(raw: Seq<char>) -> Result<Option<Seq<char>>, InstallError> {
    match json::parsed(raw) {
        None => Err(InstallError::NotJson),
        Some(settings) => match uninstalled(settings) {
            None => Ok(None),
            Some(changed) => match rendered(changed) {
                Some(t) => Ok(Some(t)),
                None => Err(InstallError::NotRendered),
            },
        },
    }
}

fn is_backcheck(h: &Json) -> (r: bool)
    ensures
        r == runs_backcheck(h.deep_view()),
{
    match h.str_at("command") {
        Some(c) => text::contains(c.as_str(), "backcheck"),
        None => false,
    }
}

fn is_own_entry(m: &Json) -> (r: bool)
    ensures
        r == is_own(m.deep_view()),
{
    match m.get("hooks") {
        Some(hs) => match hs.as_array() {
            Some(items) => {
                let ghost all = items.deep_view();
                let ghost p = |h: JsonModel| runs_backcheck(h);
                for i in 0..items.len()
                    invariant
                        all == items.deep_view(),
                        p == (|h: JsonModel| runs_backcheck(h)),
                        hs.deep_view().as_array() == Some(all),
                        m.deep_view().get("hooks"@) == Some(hs.deep_view()),
                        forall|k: int| 0 <= k < i ==> !p(#[trigger] all[k]),
                {
                    assert(all[i as int] == items@[i as int].deep_view());
                    if is_backcheck(&items[i]) {
                        assert(p(all[i as int]));
                        return true;
                    }
                }
                false
            },
            None => false,
        },
        None => false,
    }
}

fn without_own(entries: &Vec<Json>) -> (r: Vec<Json>)
    ensures
        r.deep_view() == others(entries.deep_view()),
{
    let ghost all = entries.deep_view();
    let ghost f = |m: JsonModel|
        if is_own(m) {
            None
        } else {
            Some(m)
        };
    let mut out: Vec<Json> = Vec::new();
    assert(out.deep_view() =~= Seq::empty());
    for i in 0..entries.len()
        invariant
            all == entries.deep_view(),
            f == (|m: JsonModel|
                if is_own(m) {
                    None
                } else {
                    Some(m)
                }),
            out.deep_view() == lists::selected(all.take(i as int), f),
    {
        let ghost before = out.deep_view();
        proof {
            lists::lemma_selected_step(all, f, i as int);
            assert(all[i as int] == entries@[i as int].deep_view());
        }
        if !is_own_entry(&entries[i]) {
            out.push(entries[i].clone());
            assert(out.deep_view() =~= before.push(all[i as int]));
        }
    }
    assert(all.take(all.len() as int) =~= all);
    out
}

fn new_entry(blocking: bool) -> (r: Json)
    ensures
        r.deep_view() == own_entry(blocking),
{
    let cmd = if blocking {
        "backcheck hook"
    } else {
        "backcheck hook --no-block"
    };
    let mut hook: Vec<(String, Json)> = Vec::new();
    hook.push(("command".to_owned(), Json::Text(cmd.to_owned())));
    hook.push(("type".to_owned(), Json::Text("command".to_owned())));
    assert(hook.deep_view() =~= seq![
        ("command"@, JsonModel::Text(hook_command(blocking))),
        ("type"@, JsonModel::Text("command"@)),
    ]);
    let mut hooks: Vec<Json> = Vec::new();
    hooks.push(Json::object(hook));
    let ghost inner = seq![
        JsonModel::Object(
            seq![
                ("command"@, JsonModel::Text(hook_command(blocking))),
                ("type"@, JsonModel::Text("command"@)),
            ],
        ),
    ];
    assert(hooks.deep_view() =~= inner);
    let mut entry: Vec<(String, Json)> = Vec::new();
    entry.push(("hooks".to_owned(), Json::array(hooks)));
    assert(entry.deep_view() =~= seq![("hooks"@, JsonModel::Array(inner))]);
    Json::object(entry)
}

/// Where a key goes: what stands from `at` on comes after it, and what is before `at` does not.
proof fn lemma_entry_at(
    s: Seq<(Seq<char>, JsonModel)>,
    key: Seq<char>,
    value: JsonModel,
    at: int,
)
    requires
        0 <= at <= s.len(),
        forall|k: int| at <= k < s.len() ==> (#[trigger] s[k]).0 != key && !text::precedes(s[k].0, key),
        at > 0 ==> s[at - 1].0 == key || text::precedes(s[at - 1].0, key),
    ensures
        json::with_entry(s, key, value) == (if at > 0 && s[at - 1].0 == key {
            s.update(at - 1, (key, value))
        } else {
            s.insert(at, (key, value))
        }),
    decreases s.len(),
{
    if at < s.len() {
        let front = s.drop_last();
        lemma_entry_at(front, key, value, at);
        assert(s[s.len() - 1].0 != key);
        if at > 0 && s[at - 1].0 == key {
            assert(front.update(at - 1, (key, value)).push(s.last()) =~= s.update(
                at - 1,
                (key, value),
            ));
        } else {
            assert(front.insert(at, (key, value)).push(s.last()) =~= s.insert(at, (key, value)));
        }
    } else if s.len() == 0 {
        assert(seq![(key, value)] =~= s.insert(0, (key, value)));
    } else if s.last().0 == key {
        assert(s.drop_last().push((key, value)) =~= s.update(at - 1, (key, value)));
    } else {
        assert(s.push((key, value)) =~= s.insert(at, (key, value)));
    }
}

fn set_entry(members: &Vec<(String, Json)>, key: &str, value: Json) -> (r: Vec<(String, Json)>)
    ensures
        r.deep_view() == json::with_entry(members.deep_view(), key@, value.deep_view()),
{
    let mut out: Vec<(String, Json)> = Vec::new();
    for i in 0..members.len()
        invariant
            out@.len() == i,
            forall|k: int|
                0 <= k < i ==> (#[trigger] out@[k]).0@ == members@[k].0@ && out@[k].1.deep_view()
                    == members@[k].1.deep_view(),
    {
        out.push((members[i].0.clone(), members[i].1.clone()));
    }
    let ghost before = members.deep_view();
    assert(out.deep_view() =~= before);
    let mut at: usize = out.len();
    while at > 0 && !text::same(out[at - 1].0.as_str(), key) && !text::comes_before(
        out[at - 1].0.as_str(),
        key,
    )
        invariant
            at <= out@.len(),
            before == out.deep_view(),
            forall|k: int|
                at <= k < before.len() ==> (#[trigger] before[k]).0 != key@ && !text::precedes(
                    before[k].0,
                    key@,
                ),
        decreases at,
    {
        assert(before[at - 1].0 == out@[at - 1].0@);
        at = at - 1;
    }
    proof {
        if at > 0 {
            assert(before[at - 1].0 == out@[at - 1].0@);
        }
        lemma_entry_at(before, key@, value.deep_view(), at as int);
    }
    if at > 0 && text::same(out[at - 1].0.as_str(), key) {
        out.set(at - 1, (key.to_owned(), value));
        assert(out.deep_view() =~= before.update(at - 1, (key@, value.deep_view())));
    } else {
        out.insert(at, (key.to_owned(), value));
        assert(out.deep_view() =~= before.insert(at as int, (key@, value.deep_view())));
    }
    out
}

/// The members of an object.
fn members_of(v: &Json) -> (r: Option<&Vec<(String, Json)>>)
    ensures
        match r {
            Some(ms) => v.deep_view() == JsonModel::Object(ms.deep_view()),
            None => !(v.deep_view() is Object),
        },
{
    match v {
        Json::Object(ms) => {
            assert(v.model()->Object_0 =~= ms.deep_view());
            Some(ms)
        },
        _ => None,
    }
}

/// Add backcheck as a Stop hook to settings, preserving anything already there. An existing entry
/// is replaced rather than stacking duplicates.
pub fn install_into(settings: &Json, blocking: bool) -> (r: Result<Json, InstallError>)
    ensures
        match r {
            Ok(v) => installed(settings.deep_view(), blocking) == Ok::<_, InstallError>(
                v.deep_view(),
            ),
            Err(e) => installed(settings.deep_view(), blocking) == Err::<JsonModel, _>(e),
        },
{
    let top = match members_of(settings) {
        Some(ms) => ms,
        None => {
            return Err(InstallError::SettingsNotObject);
        },
    };
    let none_object = Json::object(Vec::new());
    assert(none_object.deep_view()->Object_0 =~= Seq::empty());
    let hooks = match settings.get("hooks") {
        Some(h) => h,
        None => &none_object,
    };
    let hook_members = match members_of(hooks) {
        Some(ms) => ms,
        None => {
            return Err(InstallError::HooksNotObject);
        },
    };
    let none_array = Json::array(Vec::new());
    assert(none_array.deep_view()->Array_0 =~= Seq::empty());
    let stop = match hooks.get("Stop") {
        Some(s) => s,
        None => &none_array,
    };
    let entries = match stop.as_array() {
        Some(e) => e,
        None => {
            return Err(InstallError::StopNotArray);
        },
    };
    let mut kept = without_own(entries);
    let ghost before = kept.deep_view();
    kept.push(new_entry(blocking));
    assert(kept.deep_view() =~= before.push(own_entry(blocking)));
    let changed = Json::object(set_entry(hook_members, "Stop", Json::array(kept)));
    Ok(Json::object(set_entry(top, "hooks", changed)))
}

/// Remove backcheck from settings, where it is there.
pub fn uninstall_from(settings: &Json) -> (r: Option<Json>)
    ensures
        r.deep_view() == uninstalled(settings.deep_view()),
{
    let top = match members_of(settings) {
        Some(ms) => ms,
        None => {
            return None;
        },
    };
    let hooks = match settings.get("hooks") {
        Some(h) => h,
        None => {
            return None;
        },
    };
    let hook_members = match members_of(hooks) {
        Some(ms) => ms,
        None => {
            return None;
        },
    };
    let stop = match hooks.get("Stop") {
        Some(s) => s,
        None => {
            return None;
        },
    };
    let entries = match stop.as_array() {
        Some(e) => e,
        None => {
            return None;
        },
    };
    let kept = without_own(entries);
    assert(kept.deep_view().len() == kept@.len());
    assert(entries.deep_view().len() == entries@.len());
    if kept.len() == entries.len() {
        return None;
    }
    let changed = Json::object(set_entry(hook_members, "Stop", Json::array(kept)));
    Some(Json::object(set_entry(top, "hooks", changed)))
}

/// Reading a settings file gives these settings, with each number as it is written there.
pub open spec fn holds_settings(file: Seq<char>, settings: JsonModel) -> bool {
    &&& settings_in(Some(file)) == Some(json::rewritten(settings))
    &&& json::parsed(file) == Some(json::rewritten(settings))
}

fn render(settings: &Json) -> (r: Option<String>)
    ensures
        r.deep_view() == rendered(settings.deep_view()),
        r matches Some(t) ==> json::settled(settings.deep_view()) ==> holds_settings(
            t@,
            settings.deep_view(),
        ),
{
    match json::pretty(settings.to_text().as_str()) {
        Some(t) => {
            let mut s = t;
            s.append("\n");
            proof {
                reveal(json::read_back);
                text::lemma_trimmed_not_empty(s@);
                if json::settled(settings.deep_view()) {
                    json::lemma_rewritten_ascends(settings.deep_view());
                    json::lemma_sorted(json::rewritten(settings.deep_view()));
                }
            }
            Some(s)
        },
        None => None,
    }
}

/// The file holds the settings `before` with backcheck installed. Installing again changes nothing
/// in them, nor in the file where the numbers of `before` are as they are written; and removing
/// backcheck leads back to `before`, where it had a list of Stop hooks without backcheck.
pub open spec fn is_installed_in(file: Seq<char>, before: JsonModel, blocking: bool) -> bool {
    let after = json::rewritten(installed(before, blocking)->Ok_0);
    &&& holds_settings(file, installed(before, blocking)->Ok_0)
    &&& installed(after, blocking) == Ok::<_, InstallError>(after)
    &&& json::rewritten(before) == before ==> install_text(Some(file), blocking) == Ok::<
        _,
        InstallError,
    >(file)
    &&& has_only_others(before) ==> uninstalled(after) == Some(json::rewritten(before))
}

/// What to write to the settings file to install backcheck, `raw` being what it holds.
///
/// Settings without a key that the JSON crate reserves can be read back from the file, with each
/// number as it is written there. Installing again then changes nothing in them, nor in the file
/// where the numbers had that form already; and where the settings had a list of Stop hooks without
/// backcheck, removing it leads back to them.
pub fn plan_install(raw: &Option<String>, blocking: bool) -> (r: Result<String, InstallError>)
    ensures
        match r {
            Ok(t) => install_text(raw.deep_view(), blocking) == Ok::<_, InstallError>(t@),
            Err(e) => install_text(raw.deep_view(), blocking) == Err::<Seq<char>, _>(e),
        },
        r matches Ok(t) ==> json::unreserved(settings_in(raw.deep_view())->0) ==> is_installed_in(
            t@,
            settings_in(raw.deep_view())->0,
            blocking,
        ),
{
    let none = Json::object(Vec::new());
    assert(none.deep_view()->Object_0 =~= Seq::empty());
    let settings = match raw {
        Some(t) => {
            if text::is_blank(t.as_str()) {
                none
            } else {
                match Json::parse(t.as_str()) {
                    Some(v) => v,
                    None => {
                        return Err(InstallError::NotJson);
                    },
                }
            }
        },
        None => none,
    };
    match install_into(&settings, blocking) {
        Err(e) => Err(e),
        Ok(changed) => match render(&changed) {
            Some(t) => {
                proof {
                    if json::unreserved(settings.deep_view()) {
                        lemma_installed_settled(settings.deep_view(), blocking);
                        lemma_installed_rewritten(settings.deep_view(), blocking);
                    }
                }
                Ok(t)
            },
            None => Err(InstallError::NotRendered),
        },
    }
}

/// What to write to the settings file to remove backcheck, where it is there, `raw` being what
/// the file holds.
///
/// Settings without a key that the JSON crate reserves can be read back from the file, with each
/// number as it is written there, and there is then nothing left to remove.
pub fn plan_uninstall(raw: &str) -> (r: Result<Option<String>, InstallError>)
    ensures
        match r {
            Ok(t) => uninstall_text(raw@) == Ok::<_, InstallError>(t.deep_view()),
            Err(e) => uninstall_text(raw@) == Err::<Option<Seq<char>>, _>(e),
        },
        r matches Ok(Some(t)) ==> json::unreserved(json::parsed(raw@)->0) ==> holds_settings(
            t@,
            uninstalled(json::parsed(raw@)->0)->0,
        ) && uninstall_text(t@) == Ok::<Option<Seq<char>>, InstallError>(None),
{
    match Json::parse(raw) {
        None => Err(InstallError::NotJson),
        Some(settings) => match uninstall_from(&settings) {
            None => Ok(None),
            Some(changed) => match render(&changed) {
                Some(t) => {
                    proof {
                        if json::unreserved(settings.deep_view()) {
                            lemma_uninstalled_settled(settings.deep_view());
                            lemma_uninstalled_twice(settings.deep_view());
                            lemma_uninstalled_rewritten(changed.deep_view());
                        }
                    }
                    Ok(Some(t))
                },
                None => Err(InstallError::NotRendered),
            },
        },
    }
}

// ---------------------------------------------------------------- laws

/// A Stop hook never blocks a session without problems, never while a previous block is being
/// answered, and never where blocking was switched off; in every other case it does.
pub proof fn law_when_the_hook_blocks(problems: bool, no_block: bool, stop_hook_active: bool)
    ensures
        action_for(problems, no_block, stop_hook_active) == HookAction::Block <==> problems
            && !no_block && !stop_hook_active,
        action_for(problems, no_block, stop_hook_active) == HookAction::Allow <==> !problems,
{
}

/// The Stop hooks of the settings.
pub open spec fn stop_entries(settings: JsonModel) -> Option<Seq<JsonModel>> {
    match settings.get("hooks"@) {
        Some(h) => match h.get("Stop"@) {
            Some(s) => s.as_array(),
            None => None,
        },
        None => None,
    }
}

proof fn lemma_members_ascend(ms: Seq<(Seq<char>, JsonModel)>, key: Seq<char>, from: int)
    requires
        0 <= from <= ms.len(),
        json::keys_ascend(JsonModel::Object(ms)),
    ensures
        json::member_from(ms, key, from) matches Some(v) ==> json::keys_ascend(v),
    decreases ms.len() - from,
{
    if from < ms.len() {
        assert(json::keys_ascend(ms[from].1));
        lemma_members_ascend(ms, key, from + 1);
    }
}

proof fn lemma_member_pushed(
    ms: Seq<(Seq<char>, JsonModel)>,
    x: (Seq<char>, JsonModel),
    key: Seq<char>,
    from: int,
)
    requires
        0 <= from <= ms.len(),
    ensures
        json::member_from(ms.push(x), key, from) == (match json::member_from(ms, key, from) {
            Some(v) => Some(v),
            None => if x.0 == key {
                Some(x.1)
            } else {
                None
            },
        }),
    decreases ms.len() - from,
{
    if from < ms.len() {
        lemma_member_pushed(ms, x, key, from + 1);
    } else {
        assert(json::member_from(ms.push(x), key, from + 1) is None);
    }
}

proof fn lemma_other_entry(
    ms: Seq<(Seq<char>, JsonModel)>,
    key: Seq<char>,
    value: JsonModel,
    other: Seq<char>,
)
    requires
        other != key,
    ensures
        json::member_from(json::with_entry(ms, key, value), other, 0) == json::member_from(ms, other, 0),
    decreases ms.len(),
{
    if ms.len() == 0 {
        assert(json::member_from(seq![(key, value)], other, 1) is None);
    } else {
        let front = ms.drop_last();
        assert(ms =~= front.push(ms.last()));
        lemma_member_pushed(front, ms.last(), other, 0);
        lemma_member_pushed(front, (key, value), other, 0);
        lemma_member_pushed(ms, (key, value), other, 0);
        lemma_other_entry(front, key, value, other);
        lemma_member_pushed(json::with_entry(front, key, value), ms.last(), other, 0);
    }
}

proof fn lemma_no_member(ms: Seq<(Seq<char>, JsonModel)>, key: Seq<char>, from: int)
    requires
        0 <= from <= ms.len(),
        forall|i: int| 0 <= i < ms.len() ==> (#[trigger] ms[i]).0 != key,
    ensures
        json::member_from(ms, key, from) is None,
    decreases ms.len() - from,
{
    if from < ms.len() {
        lemma_no_member(ms, key, from + 1);
    }
}

proof fn lemma_own_entry(ms: Seq<(Seq<char>, JsonModel)>, key: Seq<char>, value: JsonModel)
    requires
        text::ascending(json::keys_of(ms)),
    ensures
        json::member_from(json::with_entry(ms, key, value), key, 0) == Some(value),
        text::ascending(json::keys_of(json::with_entry(ms, key, value))),
        json::keys_of(json::with_entry(ms, key, value)) == text::with_member(json::keys_of(ms), key),
    decreases ms.len(),
{
    let keys = json::keys_of(ms);
    text::lemma_with_member(keys, key);
    if ms.len() == 0 {
        assert(json::keys_of(json::with_entry(ms, key, value)) =~= text::with_member(keys, key));
    } else {
        let front = ms.drop_last();
        assert(json::keys_of(front) =~= keys.drop_last());
        assert forall|i: int| 0 <= i < front.len() implies text::precedes(
            (#[trigger] front[i]).0,
            ms.last().0,
        ) by {
            assert(text::precedes(keys[i], keys[keys.len() - 1]));
        }
        if ms.last().0 == key {
            assert forall|i: int| 0 <= i < front.len() implies (#[trigger] front[i]).0 != key by {
                text::lemma_precedes_irreflexive(key);
            }
            lemma_no_member(front, key, 0);
            lemma_member_pushed(front, (key, value), key, 0);
            assert(json::keys_of(json::with_entry(ms, key, value)) =~= keys);
        } else if text::precedes(ms.last().0, key) {
            assert forall|i: int| 0 <= i < ms.len() implies (#[trigger] ms[i]).0 != key by {
                if i < front.len() {
                    assert(front[i] == ms[i]);
                    text::lemma_precedes_transitive(ms[i].0, ms.last().0, key);
                }
                text::lemma_precedes_irreflexive(key);
            }
            lemma_no_member(ms, key, 0);
            lemma_member_pushed(ms, (key, value), key, 0);
            assert(json::keys_of(json::with_entry(ms, key, value)) =~= text::with_member(keys, key));
        } else {
            assert(text::ascending(json::keys_of(front))) by {
                assert forall|i: int, j: int|
                    0 <= i < j < json::keys_of(front).len() implies text::precedes(
                    #[trigger] json::keys_of(front)[i],
                    #[trigger] json::keys_of(front)[j],
                ) by {
                    assert(text::precedes(keys[i], keys[j]));
                }
            }
            lemma_own_entry(front, key, value);
            lemma_member_pushed(json::with_entry(front, key, value), ms.last(), key, 0);
            assert(json::keys_of(json::with_entry(ms, key, value)) =~= text::with_member(keys, key));
        }
    }
}

proof fn lemma_entry_replaced(
    ms: Seq<(Seq<char>, JsonModel)>,
    key: Seq<char>,
    a: JsonModel,
    b: JsonModel,
)
    ensures
        json::with_entry(json::with_entry(ms, key, a), key, b) == json::with_entry(ms, key, b),
    decreases ms.len(),
{
    if ms.len() == 0 {
        assert(json::with_entry(seq![(key, a)], key, b) =~= seq![(key, b)]);
    } else {
        let front = ms.drop_last();
        if ms.last().0 == key {
            assert(front.push((key, a)).drop_last() =~= front);
        } else if text::precedes(ms.last().0, key) {
            assert(ms.push((key, a)).drop_last() =~= ms);
        } else {
            lemma_entry_replaced(front, key, a, b);
            let once = json::with_entry(front, key, a);
            assert(once.push(ms.last()).drop_last() =~= once);
        }
    }
}

proof fn lemma_own_entry_is_own(blocking: bool)
    ensures
        is_own(own_entry(blocking)),
{
    reveal_strlit("backcheck hook");
    reveal_strlit("backcheck hook --no-block");
    reveal_strlit("backcheck");
    reveal_with_fuel(json::member_from, 3);
    let c = hook_command(blocking);
    assert(c.subrange(0, 9) =~= "backcheck"@);
    assert(text::occurs_at(c, "backcheck"@, 0));
    let hook = JsonModel::Object(
        seq![("command"@, JsonModel::Text(c)), ("type"@, JsonModel::Text("command"@))],
    );
    assert(runs_backcheck(hook));
    let p = |h: JsonModel| runs_backcheck(h);
    let items = seq![hook];
    assert(p(items[0]));
    assert(lists::any_such(items, p));
}

proof fn lemma_others_twice(entries: Seq<JsonModel>)
    ensures
        others(others(entries)) == others(entries),
    decreases entries.len(),
{
    if entries.len() > 0 {
        lemma_others_twice(entries.drop_last());
        let rest = others(entries.drop_last());
        if !is_own(entries.last()) {
            assert(rest.push(entries.last()).drop_last() =~= rest);
        }
    }
}

proof fn lemma_others_with_own(entries: Seq<JsonModel>, blocking: bool)
    ensures
        others(others(entries).push(own_entry(blocking))) == others(entries),
{
    lemma_own_entry_is_own(blocking);
    lemma_others_twice(entries);
    let rest = others(entries);
    assert(rest.push(own_entry(blocking)).drop_last() =~= rest);
}

/// Installing changes nothing but the hooks: every other setting has the value that it had.
pub proof fn law_installing_keeps_other_settings(
    settings: JsonModel,
    blocking: bool,
    key: Seq<char>,
)
    requires
        installed(settings, blocking) is Ok,
        key != "hooks"@,
    ensures
        (installed(settings, blocking)->Ok_0).get(key) == settings.get(key),
{
    let ms = settings->Object_0;
    match entry_or(settings, "hooks"@, JsonModel::Object(Seq::empty())) {
        JsonModel::Object(hs) => match entry_or(
            JsonModel::Object(hs),
            "Stop"@,
            JsonModel::Array(Seq::empty()),
        ) {
            JsonModel::Array(entries) => {
                lemma_other_entry(
                    ms,
                    "hooks"@,
                    with_stop(hs, others(entries).push(own_entry(blocking))),
                    key,
                );
            },
            _ => {},
        },
        _ => {},
    }
}

/// After installing, backcheck is a Stop hook once, as the last one; before it stand the other
/// Stop hooks that were there, in their order. Other kinds of hooks have what they had.
pub proof fn law_installing_adds_one_stop_hook(settings: JsonModel, blocking: bool, kind: Seq<char>)
    requires
        json::keys_ascend(settings),
        installed(settings, blocking) is Ok,
        kind != "Stop"@,
    ensures
        stop_entries(installed(settings, blocking)->Ok_0) == Some(
            others(
                match stop_entries(settings) {
                    Some(e) => e,
                    None => Seq::empty(),
                },
            ).push(own_entry(blocking)),
        ),
        is_own(own_entry(blocking)),
        match settings.get("hooks"@) {
            Some(h) => (installed(settings, blocking)->Ok_0).get("hooks"@)->0.get(kind) == h.get(
                kind,
            ),
            None => (installed(settings, blocking)->Ok_0).get("hooks"@)->0.get(kind) is None,
        },
{
    lemma_own_entry_is_own(blocking);
    let ms = settings->Object_0;
    let hooks = entry_or(settings, "hooks"@, JsonModel::Object(Seq::empty()));
    let hs = hooks->Object_0;
    let stop = entry_or(JsonModel::Object(hs), "Stop"@, JsonModel::Array(Seq::empty()));
    let entries = stop->Array_0;
    let changed = others(entries).push(own_entry(blocking));
    lemma_members_ascend(ms, "hooks"@, 0);
    assert(text::ascending(json::keys_of(hs)));
    lemma_own_entry(hs, "Stop"@, JsonModel::Array(changed));
    lemma_other_entry(hs, "Stop"@, JsonModel::Array(changed), kind);
    lemma_own_entry(ms, "hooks"@, with_stop(hs, changed));
}

/// Installing twice is the same as installing once: nothing is stacked.
pub proof fn law_installing_twice_changes_nothing(settings: JsonModel, blocking: bool)
    requires
        json::keys_ascend(settings),
        installed(settings, blocking) is Ok,
    ensures
        installed(installed(settings, blocking)->Ok_0, blocking) == installed(settings, blocking),
{
    let ms = settings->Object_0;
    let hooks = entry_or(settings, "hooks"@, JsonModel::Object(Seq::empty()));
    let hs = hooks->Object_0;
    let stop = entry_or(JsonModel::Object(hs), "Stop"@, JsonModel::Array(Seq::empty()));
    let entries = stop->Array_0;
    let changed = others(entries).push(own_entry(blocking));
    lemma_members_ascend(ms, "hooks"@, 0);
    assert(text::ascending(json::keys_of(hs)));
    lemma_own_entry(hs, "Stop"@, JsonModel::Array(changed));
    lemma_own_entry(ms, "hooks"@, with_stop(hs, changed));
    lemma_others_with_own(entries, blocking);
    lemma_entry_replaced(hs, "Stop"@, JsonModel::Array(changed), JsonModel::Array(changed));
    lemma_entry_replaced(ms, "hooks"@, with_stop(hs, changed), with_stop(hs, changed));
}

/// Removing backcheck after it was installed leaves the other Stop hooks that were there, in
/// their order, and every other setting; and then there is nothing left to remove.
pub proof fn law_uninstalling_undoes_installing(
    settings: JsonModel,
    blocking: bool,
    key: Seq<char>,
)
    requires
        json::keys_ascend(settings),
        installed(settings, blocking) is Ok,
        key != "hooks"@,
    ensures
        uninstalled(installed(settings, blocking)->Ok_0) is Some,
        stop_entries(uninstalled(installed(settings, blocking)->Ok_0)->0) == Some(
            others(
                match stop_entries(settings) {
                    Some(e) => e,
                    None => Seq::empty(),
                },
            ),
        ),
        (uninstalled(installed(settings, blocking)->Ok_0)->0).get(key) == settings.get(key),
        uninstalled(uninstalled(installed(settings, blocking)->Ok_0)->0) is None,
{
    let ms = settings->Object_0;
    let hooks = entry_or(settings, "hooks"@, JsonModel::Object(Seq::empty()));
    let hs = hooks->Object_0;
    let stop = entry_or(JsonModel::Object(hs), "Stop"@, JsonModel::Array(Seq::empty()));
    let entries = stop->Array_0;
    let changed = others(entries).push(own_entry(blocking));
    lemma_members_ascend(ms, "hooks"@, 0);
    assert(text::ascending(json::keys_of(hs)));
    lemma_own_entry(hs, "Stop"@, JsonModel::Array(changed));
    lemma_own_entry(ms, "hooks"@, with_stop(hs, changed));
    lemma_other_entry(ms, "hooks"@, with_stop(hs, changed), key);
    lemma_others_with_own(entries, blocking);
    let hs2 = json::with_entry(hs, "Stop"@, JsonModel::Array(changed));
    let ms2 = json::with_entry(ms, "hooks"@, with_stop(hs, changed));
    lemma_own_entry(hs2, "Stop"@, JsonModel::Array(others(entries)));
    lemma_own_entry(ms2, "hooks"@, with_stop(hs2, others(entries)));
    lemma_other_entry(ms2, "hooks"@, with_stop(hs2, others(entries)), key);
    lemma_others_twice(entries);
}


proof fn lemma_entry_unchanged(ms: Seq<(Seq<char>, JsonModel)>, key: Seq<char>, value: JsonModel)
    requires
        text::ascending(json::keys_of(ms)),
        json::member_from(ms, key, 0) == Some(value),
    ensures
        json::with_entry(ms, key, value) == ms,
    decreases ms.len(),
{
    let keys = json::keys_of(ms);
    let front = ms.drop_last();
    assert(ms =~= front.push(ms.last()));
    lemma_member_pushed(front, ms.last(), key, 0);
    assert forall|i: int| 0 <= i < front.len() implies text::precedes(
        (#[trigger] front[i]).0,
        ms.last().0,
    ) by {
        assert(text::precedes(keys[i], keys[keys.len() - 1]));
    }
    if ms.last().0 == key {
        assert forall|i: int| 0 <= i < front.len() implies (#[trigger] front[i]).0 != key by {
            text::lemma_precedes_irreflexive(key);
        }
        lemma_no_member(front, key, 0);
        assert(front.push((key, value)) =~= ms);
    } else if text::precedes(ms.last().0, key) {
        assert forall|i: int| 0 <= i < ms.len() implies (#[trigger] ms[i]).0 != key by {
            if i < front.len() {
                assert(front[i] == ms[i]);
                text::lemma_precedes_transitive(ms[i].0, ms.last().0, key);
            }
            text::lemma_precedes_irreflexive(key);
        }
        lemma_no_member(ms, key, 0);
    } else {
        assert forall|i: int, j: int|
            0 <= i < j < json::keys_of(front).len() implies text::precedes(
            #[trigger] json::keys_of(front)[i],
            #[trigger] json::keys_of(front)[j],
        ) by {
            assert(text::precedes(keys[i], keys[j]));
        }
        lemma_entry_unchanged(front, key, value);
    }
}

proof fn lemma_no_own(entries: Seq<JsonModel>)
    requires
        forall|i: int| 0 <= i < entries.len() ==> !is_own(#[trigger] entries[i]),
    ensures
        others(entries) == entries,
    decreases entries.len(),
{
    if entries.len() > 0 {
        assert forall|i: int| 0 <= i < entries.drop_last().len() implies !is_own(
            #[trigger] entries.drop_last()[i],
        ) by {
            assert(!is_own(entries[i]));
        }
        lemma_no_own(entries.drop_last());
        assert(!is_own(entries[entries.len() - 1]));
    }
    assert(others(entries) =~= entries);
}

/// The settings have a list of Stop hooks, and none of them runs backcheck.
pub open spec fn has_only_others(settings: JsonModel) -> bool {
    stop_entries(settings) matches Some(entries) && forall|i: int|
        0 <= i < entries.len() ==> !is_own(#[trigger] entries[i])
}

/// Settings that have a list of Stop hooks, with backcheck not among them, come back whole when
/// backcheck is installed and removed again.
pub proof fn law_uninstalling_gives_the_settings_back(settings: JsonModel, blocking: bool)
    requires
        json::keys_ascend(settings),
        has_only_others(settings),
    ensures
        installed(settings, blocking) is Ok,
        uninstalled(installed(settings, blocking)->Ok_0) == Some(settings),
{
    let ms = settings->Object_0;
    let hs = settings.get("hooks"@)->0->Object_0;
    let entries = stop_entries(settings)->0;
    assert(JsonModel::Object(hs).get("Stop"@) == Some(JsonModel::Array(entries)));
    let changed = entries.push(own_entry(blocking));
    lemma_no_own(entries);
    lemma_members_ascend(ms, "hooks"@, 0);
    assert(text::ascending(json::keys_of(hs)));
    lemma_own_entry(hs, "Stop"@, JsonModel::Array(changed));
    lemma_own_entry(ms, "hooks"@, with_stop(hs, changed));
    lemma_others_with_own(entries, blocking);
    lemma_entry_replaced(hs, "Stop"@, JsonModel::Array(changed), JsonModel::Array(entries));
    lemma_entry_unchanged(hs, "Stop"@, JsonModel::Array(entries));
    lemma_entry_replaced(ms, "hooks"@, with_stop(hs, changed), JsonModel::Object(hs));
    lemma_entry_unchanged(ms, "hooks"@, JsonModel::Object(hs));
}

// ---------------------------------------------------------------- settings that are read back

proof fn lemma_member_settled(ms: Seq<(Seq<char>, JsonModel)>, key: Seq<char>, from: int)
    requires
        0 <= from <= ms.len(),
        json::settled(JsonModel::Object(ms)),
    ensures
        json::member_from(ms, key, from) matches Some(v) ==> json::settled(v),
    decreases ms.len() - from,
{
    if from < ms.len() {
        assert(json::orderly(ms[from].1) && json::keys_ascend(ms[from].1));
        assert(json::unreserved(ms[from].1));
        lemma_member_settled(ms, key, from + 1);
    }
}

/// A member that may stand among settled ones.
spec fn fits(m: (Seq<char>, JsonModel)) -> bool {
    m.0 != json::reserved_key() && json::settled(m.1)
}

proof fn lemma_entry_fits(ms: Seq<(Seq<char>, JsonModel)>, key: Seq<char>, value: JsonModel)
    requires
        forall|i: int| 0 <= i < ms.len() ==> fits(#[trigger] ms[i]),
        fits((key, value)),
    ensures
        forall|i: int|
            0 <= i < json::with_entry(ms, key, value).len() ==> fits(
                #[trigger] json::with_entry(ms, key, value)[i],
            ),
    decreases ms.len(),
{
    if ms.len() > 0 {
        assert(fits(ms[ms.len() - 1]));
        assert forall|i: int| 0 <= i < ms.drop_last().len() implies fits(
            #[trigger] ms.drop_last()[i],
        ) by {
            assert(fits(ms[i]));
        }
        lemma_entry_fits(ms.drop_last(), key, value);
        let rest = json::with_entry(ms.drop_last(), key, value);
        let out = json::with_entry(ms, key, value);
        assert forall|i: int| 0 <= i < out.len() implies fits(#[trigger] out[i]) by {
            if ms.last().0 == key {
                if i < ms.len() - 1 {
                    assert(out[i] == ms[i]);
                }
            } else if text::precedes(ms.last().0, key) {
                if i < ms.len() {
                    assert(out[i] == ms[i]);
                }
            } else if i < rest.len() {
                assert(out[i] == rest[i]);
            }
        }
    }
}

proof fn lemma_entry_settled(ms: Seq<(Seq<char>, JsonModel)>, key: Seq<char>, value: JsonModel)
    requires
        json::settled(JsonModel::Object(ms)),
        key != json::reserved_key(),
        json::settled(value),
    ensures
        json::settled(JsonModel::Object(json::with_entry(ms, key, value))),
{
    assert forall|i: int| 0 <= i < ms.len() implies fits(#[trigger] ms[i]) by {
        assert(json::orderly(ms[i].1) && json::keys_ascend(ms[i].1) && json::unreserved(ms[i].1));
    }
    lemma_entry_fits(ms, key, value);
    lemma_own_entry(ms, key, value);
    let out = json::with_entry(ms, key, value);
    json::lemma_ascending_distinct(json::keys_of(out));
    assert forall|i: int| 0 <= i < out.len() implies (#[trigger] out[i]).0 != json::reserved_key()
        && json::settled(out[i].1) by {
        assert(fits(out[i]));
    }
}

proof fn lemma_others_settled(entries: Seq<JsonModel>)
    requires
        forall|i: int| 0 <= i < entries.len() ==> json::settled(#[trigger] entries[i]),
    ensures
        forall|i: int| 0 <= i < others(entries).len() ==> json::settled(
            #[trigger] others(entries)[i],
        ),
    decreases entries.len(),
{
    if entries.len() > 0 {
        assert(json::settled(entries[entries.len() - 1]));
        assert forall|i: int| 0 <= i < entries.drop_last().len() implies json::settled(
            #[trigger] entries.drop_last()[i],
        ) by {
            assert(json::settled(entries[i]));
        }
        lemma_others_settled(entries.drop_last());
        let rest = others(entries.drop_last());
        assert forall|i: int| 0 <= i < others(entries).len() implies json::settled(
            #[trigger] others(entries)[i],
        ) by {
            if i < rest.len() {
                assert(others(entries)[i] == rest[i]);
            }
        }
    }
}

proof fn lemma_keys_are_not_reserved()
    ensures
        "hooks"@ != json::reserved_key(),
        "Stop"@ != json::reserved_key(),
        "command"@ != json::reserved_key(),
        "type"@ != json::reserved_key(),
{
    reveal_strlit("$serde_json::private::RawValue");
    reveal_strlit("hooks");
    reveal_strlit("Stop");
    reveal_strlit("command");
    reveal_strlit("type");
    assert(json::reserved_key().len() == 30);
    assert("hooks"@.len() == 5);
    assert("Stop"@.len() == 4);
    assert("command"@.len() == 7);
    assert("type"@.len() == 4);
}

proof fn lemma_own_entry_settled(blocking: bool)
    ensures
        json::settled(own_entry(blocking)),
{
    lemma_keys_are_not_reserved();
    let pairs = seq![
        ("command"@, JsonModel::Text(hook_command(blocking))),
        ("type"@, JsonModel::Text("command"@)),
    ];
    assert(text::precedes("command"@, "type"@)) by {
        reveal_strlit("command");
        reveal_strlit("type");
    }
    assert(json::keys_of(pairs) =~= seq!["command"@, "type"@]);
    assert(text::ascending(json::keys_of(pairs)));
    json::lemma_ascending_distinct(json::keys_of(pairs));
    assert forall|i: int| 0 <= i < pairs.len() implies (#[trigger] pairs[i]).0
        != json::reserved_key() && json::settled(pairs[i].1) by {
        assert(i == 0 || i == 1);
    }
    assert(json::settled(JsonModel::Object(pairs)));
    let items = seq![JsonModel::Object(pairs)];
    assert(json::settled(JsonModel::Array(items)));
    let outer = seq![("hooks"@, JsonModel::Array(items))];
    assert(json::keys_of(outer) =~= seq!["hooks"@]);
    json::lemma_ascending_distinct(json::keys_of(outer));
    assert(json::settled(JsonModel::Object(outer)));
}

proof fn lemma_replaced_settled(
    ms: Seq<(Seq<char>, JsonModel)>,
    hs: Seq<(Seq<char>, JsonModel)>,
    entries: Seq<JsonModel>,
)
    requires
        json::settled(JsonModel::Object(ms)),
        json::settled(JsonModel::Object(hs)),
        json::settled(JsonModel::Array(entries)),
    ensures
        json::settled(with_hooks(ms, with_stop(hs, entries))),
{
    lemma_keys_are_not_reserved();
    lemma_entry_settled(hs, "Stop"@, JsonModel::Array(entries));
    lemma_entry_settled(ms, "hooks"@, with_stop(hs, entries));
}

proof fn lemma_installed_settled(settings: JsonModel, blocking: bool)
    requires
        json::settled(settings),
        installed(settings, blocking) is Ok,
    ensures
        json::settled(installed(settings, blocking)->Ok_0),
{
    let ms = settings->Object_0;
    lemma_member_settled(ms, "hooks"@, 0);
    let hs = entry_or(settings, "hooks"@, JsonModel::Object(Seq::empty()))->Object_0;
    lemma_member_settled(hs, "Stop"@, 0);
    let entries = entry_or(
        JsonModel::Object(hs),
        "Stop"@,
        JsonModel::Array(Seq::empty()),
    )->Array_0;
    assert(json::settled(JsonModel::Array(entries)));
    lemma_others_settled(entries);
    lemma_own_entry_settled(blocking);
    let changed = others(entries).push(own_entry(blocking));
    assert(json::settled(JsonModel::Array(changed)));
    lemma_replaced_settled(ms, hs, changed);
}

proof fn lemma_uninstalled_settled(settings: JsonModel)
    requires
        json::settled(settings),
        uninstalled(settings) is Some,
    ensures
        json::settled(uninstalled(settings)->0),
{
    let ms = settings->Object_0;
    lemma_member_settled(ms, "hooks"@, 0);
    let hs = settings.get("hooks"@)->0->Object_0;
    lemma_member_settled(hs, "Stop"@, 0);
    let entries = JsonModel::Object(hs).get("Stop"@)->0->Array_0;
    lemma_others_settled(entries);
    assert(json::settled(JsonModel::Array(others(entries))));
    lemma_replaced_settled(ms, hs, others(entries));
}

proof fn lemma_uninstalled_twice(settings: JsonModel)
    requires
        json::keys_ascend(settings),
        uninstalled(settings) is Some,
    ensures
        uninstalled(uninstalled(settings)->0) is None,
{
    let ms = settings->Object_0;
    lemma_members_ascend(ms, "hooks"@, 0);
    let hs = settings.get("hooks"@)->0->Object_0;
    let entries = JsonModel::Object(hs).get("Stop"@)->0->Array_0;
    lemma_own_entry(hs, "Stop"@, JsonModel::Array(others(entries)));
    lemma_own_entry(ms, "hooks"@, with_stop(hs, others(entries)));
    lemma_others_twice(entries);
}


// ---------------------------------------------------------------- the form of numbers

proof fn lemma_member_rewritten(ms: Seq<(Seq<char>, JsonModel)>, key: Seq<char>, from: int)
    requires
        0 <= from <= ms.len(),
    ensures
        json::member_from(json::rewritten_values(ms), key, from) == (match json::member_from(
            ms,
            key,
            from,
        ) {
            Some(v) => Some(json::rewritten(v)),
            None => None,
        }),
    decreases ms.len() - from,
{
    if from < ms.len() {
        lemma_member_rewritten(ms, key, from + 1);
    }
}

proof fn lemma_entry_rewritten(ms: Seq<(Seq<char>, JsonModel)>, key: Seq<char>, value: JsonModel)
    ensures
        json::with_entry(json::rewritten_values(ms), key, json::rewritten(value))
            == json::rewritten_values(json::with_entry(ms, key, value)),
    decreases ms.len(),
{
    let done = json::rewritten_values(ms);
    let out = json::with_entry(ms, key, value);
    if ms.len() > 0 {
        let front = ms.drop_last();
        assert(done.drop_last() =~= json::rewritten_values(front));
        lemma_entry_rewritten(front, key, value);
    }
    assert(json::with_entry(done, key, json::rewritten(value)) =~= json::rewritten_values(out));
}

proof fn lemma_runs_rewritten(h: JsonModel)
    ensures
        runs_backcheck(json::rewritten(h)) == runs_backcheck(h),
{
    if let JsonModel::Object(ms) = h {
        lemma_member_rewritten(ms, "command"@, 0);
    }
}

proof fn lemma_own_rewritten(m: JsonModel)
    ensures
        is_own(json::rewritten(m)) == is_own(m),
{
    if let JsonModel::Object(ms) = m {
        lemma_member_rewritten(ms, "hooks"@, 0);
        if let Some(JsonModel::Array(items)) = m.get("hooks"@) {
            let p = |h: JsonModel| runs_backcheck(h);
            let done = json::rewritten_items(items);
            assert forall|i: int| 0 <= i < items.len() implies p(#[trigger] done[i]) == p(
                items[i],
            ) by {
                lemma_runs_rewritten(items[i]);
            }
            if lists::any_such(items, p) {
                let i = choose|i: int| 0 <= i < items.len() && p(#[trigger] items[i]);
                assert(p(done[i]));
            }
            if lists::any_such(done, p) {
                let i = choose|i: int| 0 <= i < done.len() && p(#[trigger] done[i]);
                assert(p(items[i]));
            }
        }
    }
}

proof fn lemma_others_rewritten(entries: Seq<JsonModel>)
    ensures
        others(json::rewritten_items(entries)) == json::rewritten_items(others(entries)),
    decreases entries.len(),
{
    let done = json::rewritten_items(entries);
    if entries.len() > 0 {
        lemma_others_rewritten(entries.drop_last());
        assert(done.drop_last() =~= json::rewritten_items(entries.drop_last()));
        assert(done.last() == json::rewritten(entries.last()));
        lemma_own_rewritten(entries.last());
    }
    assert(others(done) =~= json::rewritten_items(others(entries)));
}

proof fn lemma_own_entry_rewritten(blocking: bool)
    ensures
        json::rewritten(own_entry(blocking)) == own_entry(blocking),
{
    let pairs = seq![
        ("command"@, JsonModel::Text(hook_command(blocking))),
        ("type"@, JsonModel::Text("command"@)),
    ];
    assert(json::rewritten_values(pairs) =~= pairs);
    let items = seq![JsonModel::Object(pairs)];
    assert(json::rewritten(JsonModel::Object(pairs)) == JsonModel::Object(pairs));
    assert(json::rewritten_items(items) =~= items);
    let outer = seq![("hooks"@, JsonModel::Array(items))];
    assert(json::rewritten(JsonModel::Array(items)) == JsonModel::Array(items));
    assert(json::rewritten_values(outer) =~= outer);
}

proof fn lemma_replaced_rewritten(
    ms: Seq<(Seq<char>, JsonModel)>,
    hs: Seq<(Seq<char>, JsonModel)>,
    entries: Seq<JsonModel>,
)
    ensures
        json::rewritten(with_hooks(ms, with_stop(hs, entries))) == with_hooks(
            json::rewritten_values(ms),
            with_stop(json::rewritten_values(hs), json::rewritten_items(entries)),
        ),
{
    lemma_entry_rewritten(hs, "Stop"@, JsonModel::Array(entries));
    lemma_entry_rewritten(ms, "hooks"@, with_stop(hs, entries));
}

/// Installing does not depend on the form of numbers, and so what holds of it holds of the settings
/// in the form in which they are written.
proof fn lemma_installed_rewritten(settings: JsonModel, blocking: bool)
    requires
        json::keys_ascend(settings),
        installed(settings, blocking) is Ok,
    ensures
        ({
            let before = json::rewritten(settings);
            let after = json::rewritten(installed(settings, blocking)->Ok_0);
            &&& installed(before, blocking) == Ok::<_, InstallError>(after)
            &&& installed(after, blocking) == Ok::<_, InstallError>(after)
            &&& has_only_others(settings) ==> uninstalled(after) == Some(before)
        }),
{
    let before = json::rewritten(settings);
    let ms = settings->Object_0;
    let none = Seq::<(Seq<char>, JsonModel)>::empty();
    let nothing = Seq::<JsonModel>::empty();
    assert(json::rewritten_values(none) =~= none);
    assert(json::rewritten_items(nothing) =~= nothing);
    lemma_member_rewritten(ms, "hooks"@, 0);
    let hs = entry_or(settings, "hooks"@, JsonModel::Object(none))->Object_0;
    lemma_member_rewritten(hs, "Stop"@, 0);
    let entries = entry_or(JsonModel::Object(hs), "Stop"@, JsonModel::Array(nothing))->Array_0;
    let changed = others(entries).push(own_entry(blocking));
    lemma_others_rewritten(entries);
    lemma_own_entry_rewritten(blocking);
    assert(json::rewritten_items(changed) =~= others(json::rewritten_items(entries)).push(
        own_entry(blocking),
    ));
    lemma_replaced_rewritten(ms, hs, changed);
    json::lemma_rewritten_ascends(settings);
    law_installing_twice_changes_nothing(before, blocking);
    if has_only_others(settings) {
        let done = json::rewritten_items(entries);
        assert(settings.get("hooks"@) == Some(JsonModel::Object(hs)));
        assert(JsonModel::Object(hs).get("Stop"@) == Some(JsonModel::Array(entries)));
        assert(stop_entries(settings) == Some(entries));
        let own = stop_entries(settings)->0;
        assert(forall|i: int| 0 <= i < own.len() ==> !is_own(#[trigger] own[i]));
        assert(done.len() == entries.len());
        assert forall|i: int| 0 <= i < done.len() implies !is_own(#[trigger] done[i]) by {
            assert(!is_own(entries[i]));
            lemma_own_rewritten(entries[i]);
        }
        law_uninstalling_gives_the_settings_back(before, blocking);
    }
}

/// There is nothing to remove from settings in the form in which they are written where there is
/// nothing to remove from them.
proof fn lemma_uninstalled_rewritten(settings: JsonModel)
    requires
        uninstalled(settings) is None,
    ensures
        uninstalled(json::rewritten(settings)) is None,
{
    if let JsonModel::Object(ms) = settings {
        lemma_member_rewritten(ms, "hooks"@, 0);
        if let Some(JsonModel::Object(hs)) = settings.get("hooks"@) {
            lemma_member_rewritten(hs, "Stop"@, 0);
            if let Some(JsonModel::Array(entries)) = JsonModel::Object(hs).get("Stop"@) {
                lemma_others_rewritten(entries);
            }
        }
    }
}

// ---------------------------------------------------------------- what is installed

/// Some item of the entry's `hooks` has a command that mentions backcheck.
pub open spec fn mentions_backcheck(entry: JsonModel) -> bool {
    entry.get("hooks"@) matches Some(JsonModel::Array(items)) && exists|i: int|
        0 <= i < items.len() && ((#[trigger] items[i]).str_at("command"@) matches Some(c)
            && text::has(c, "backcheck"@))
}

proof fn lemma_mentions(entry: JsonModel)
    ensures
        is_own(entry) == mentions_backcheck(entry),
{
    if let Some(JsonModel::Array(items)) = entry.get("hooks"@) {
        let p = |h: JsonModel| runs_backcheck(h);
        if lists::any_such(items, p) {
            let i = choose|i: int| 0 <= i < items.len() && p(#[trigger] items[i]);
            assert(items[i].str_at("command"@) is Some);
        }
        if mentions_backcheck(entry) {
            let i = choose|i: int|
                0 <= i < items.len() && ((#[trigger] items[i]).str_at("command"@) matches Some(c)
                    && text::has(c, "backcheck"@));
            assert(p(items[i]));
        }
    }
}

/// The entries left are those that do not mention backcheck, in their order.
proof fn lemma_others_kept(entries: Seq<JsonModel>)
    ensures
        others(entries) == lists::kept(entries, |m: JsonModel| !mentions_backcheck(m)),
    decreases entries.len(),
{
    if entries.len() > 0 {
        lemma_others_kept(entries.drop_last());
        lemma_mentions(entries.last());
    }
}

/// Installing is refused exactly where the settings, their `hooks` or the `Stop` hooks among them
/// are there and of the wrong shape, and the error says which.
pub proof fn law_when_installing_is_refused(settings: JsonModel, blocking: bool)
    ensures
        ({
            let hooks = settings.get("hooks"@);
            let stop = match hooks {
                Some(h) => h.get("Stop"@),
                None => None,
            };
            let r = installed(settings, blocking);
            if !(settings is Object) {
                r == Err::<JsonModel, _>(InstallError::SettingsNotObject)
            } else if hooks is Some && !(hooks->0 is Object) {
                r == Err::<JsonModel, _>(InstallError::HooksNotObject)
            } else if stop is Some && !(stop->0 is Array) {
                r == Err::<JsonModel, _>(InstallError::StopNotArray)
            } else {
                r is Ok
            }
        }),
{
    assert(json::member_from(Seq::<(Seq<char>, JsonModel)>::empty(), "Stop"@, 0) is None);
}

/// What the `Stop` hooks are once backcheck is installed: those that do not mention backcheck, in
/// their order, and behind them one that runs it; without the flag that keeps it from blocking
/// only where blocking was asked for.
pub proof fn law_what_is_installed(settings: JsonModel, blocking: bool)
    requires
        json::keys_ascend(settings),
        installed(settings, blocking) is Ok,
    ensures
        ({
            let before = match stop_entries(settings) {
                Some(e) => e,
                None => Seq::empty(),
            };
            let after = stop_entries(installed(settings, blocking)->Ok_0);
            &&& after is Some
            &&& after->0.len() > 0
            &&& after->0.drop_last() == lists::kept(
                before,
                |m: JsonModel| !mentions_backcheck(m),
            )
            &&& after->0.last() == JsonModel::Object(
                seq![
                    (
                        "hooks"@,
                        JsonModel::Array(
                            seq![
                                JsonModel::Object(
                                    seq![
                                        (
                                            "command"@,
                                            JsonModel::Text(
                                                if blocking {
                                                    "backcheck hook"@
                                                } else {
                                                    "backcheck hook --no-block"@
                                                },
                                            ),
                                        ),
                                        ("type"@, JsonModel::Text("command"@)),
                                    ],
                                ),
                            ],
                        ),
                    ),
                ],
            )
        }),
{
    let before = match stop_entries(settings) {
        Some(e) => e,
        None => Seq::empty(),
    };
    reveal_strlit("Stop");
    assert("Stop"@.len() == 4);
    law_installing_adds_one_stop_hook(settings, blocking, Seq::empty());
    lemma_others_kept(before);
    let after = stop_entries(installed(settings, blocking)->Ok_0);
    assert(after->0.drop_last() =~= others(before));
}

/// Uninstalling takes out every `Stop` hook that mentions backcheck and no other, keeps every
/// other setting, and changes nothing where there is none.
pub proof fn law_what_is_uninstalled(settings: JsonModel, key: Seq<char>)
    requires
        json::keys_ascend(settings),
        key != "hooks"@,
    ensures
        ({
            let mentioned = stop_entries(settings) matches Some(entries) && exists|i: int|
                0 <= i < entries.len() && mentions_backcheck(#[trigger] entries[i]);
            &&& uninstalled(settings) is Some <==> mentioned
            &&& uninstalled(settings) matches Some(after) ==> {
                &&& stop_entries(after) == Some(
                    lists::kept(
                        stop_entries(settings)->0,
                        |m: JsonModel| !mentions_backcheck(m),
                    ),
                )
                &&& after.get(key) == settings.get(key)
            }
        }),
{
    if let Some(entries) = stop_entries(settings) {
        lemma_others_kept(entries);
        let p = |m: JsonModel| !mentions_backcheck(m);
        lemma_kept_all(entries, p);
        let ms = settings->Object_0;
        let hooks = settings.get("hooks"@)->0;
        let hs = hooks->Object_0;
        lemma_members_ascend(ms, "hooks"@, 0);
        lemma_own_entry(hs, "Stop"@, JsonModel::Array(others(entries)));
        lemma_own_entry(ms, "hooks"@, with_stop(hs, others(entries)));
        lemma_other_entry(ms, "hooks"@, with_stop(hs, others(entries)), key);
    }
}

/// Nothing is left out exactly where everything passes.
proof fn lemma_kept_all<A>(s: Seq<A>, p: spec_fn(A) -> bool)
    ensures
        lists::kept(s, p).len() <= s.len(),
        lists::kept(s, p).len() == s.len() <==> forall|i: int| 0 <= i < s.len() ==> p(#[trigger] s[i]),
    decreases s.len(),
{
    if s.len() > 0 {
        let front = s.drop_last();
        lemma_kept_all(front, p);
        if p(s.last()) {
            if forall|i: int| 0 <= i < front.len() ==> p(#[trigger] front[i]) {
                assert forall|i: int| 0 <= i < s.len() implies p(#[trigger] s[i]) by {
                    if i < front.len() {
                        assert(p(front[i]));
                    }
                }
            } else {
                let i = choose|i: int| 0 <= i < front.len() && !p(#[trigger] front[i]);
                assert(s[i] == front[i]);
            }
        } else {
            assert(!p(s[s.len() - 1]));
        }
    }
}

/// Settings that are not there, or blank, are empty; any other text has to be JSON, to install as
/// well as to uninstall.
pub proof fn law_which_settings_are_read(raw: Seq<char>, blocking: bool)
    ensures
        settings_in(None) == Some(JsonModel::Object(Seq::empty())),
        text::trimmed(raw).len() == 0 ==> settings_in(Some(raw)) == Some(
            JsonModel::Object(Seq::empty()),
        ),
        text::trimmed(raw).len() > 0 ==> settings_in(Some(raw)) == json::parsed(raw),
        settings_in(Some(raw)) is None ==> install_text(Some(raw), blocking) == Err::<Seq<char>, _>(
            InstallError::NotJson,
        ),
        json::parsed(raw) is None ==> uninstall_text(raw) == Err::<Option<Seq<char>>, _>(
            InstallError::NotJson,
        ),
        json::parsed(raw) matches Some(s) ==> (uninstalled(s) is None ==> uninstall_text(raw) == Ok::<
            _,
            InstallError,
        >(None::<Seq<char>>)),
{
}

/// The settings that are written are the changed ones, laid out, with the end of a line behind
/// them.
pub proof fn law_which_settings_are_written(raw: Seq<char>, blocking: bool, t: Seq<char>)
    ensures
        install_text(Some(raw), blocking) == Ok::<_, InstallError>(t) <==> (settings_in(
            Some(raw),
        ) matches Some(s) && installed(s, blocking) is Ok && (json::json_pretty(
            json::compact(installed(s, blocking)->Ok_0),
        ) matches Some(p) && t == p + "\n"@)),
        uninstall_text(raw) == Ok::<_, InstallError>(Some(t)) <==> (json::parsed(raw) matches Some(
            s,
        ) && uninstalled(s) is Some && (json::json_pretty(
            json::compact(uninstalled(s)->0),
        ) matches Some(p) && t == p + "\n"@)),
{
}

/// What the hook answers.
pub proof fn law_what_the_hook_answers(reason: Seq<char>)
    ensures
        json::compact(block_doc(reason)) == "{\"decision\":\"block\",\"reason\":"@
            + json::json_quoted(reason) + "}"@,
        json::compact(allow_doc()) == "{\"continue\":true}"@,
{
    reveal_strlit("{\"decision\":\"block\",\"reason\":");
    reveal_strlit("{\"continue\":true}");
    reveal_strlit("}");
    reveal_strlit("{");
    reveal_strlit(":");
    reveal_strlit(",");
    reveal_strlit("true");
    reveal_strlit("decision");
    reveal_strlit("block");
    reveal_strlit("reason");
    reveal_strlit("continue");
    lemma_plainly_quoted("decision"@);
    lemma_plainly_quoted("block"@);
    lemma_plainly_quoted("reason"@);
    lemma_plainly_quoted("continue"@);
    reveal_with_fuel(json::compact, 2);
    reveal_with_fuel(json::member_texts, 2);
    let two = seq![
        ("decision"@, JsonModel::Text("block"@)),
        ("reason"@, JsonModel::Text(reason)),
    ];
    let a = json::member_texts(two);
    assert(a[0] == json::json_quoted("decision"@) + ":"@ + json::json_quoted("block"@));
    assert(a[1] == json::json_quoted("reason"@) + ":"@ + json::json_quoted(reason));
    assert(a.drop_last() =~= seq![a[0]]);
    assert(text::joined(a.drop_last(), ","@) == a[0]);
    assert(text::joined(a, ","@) == a[0] + ","@ + a[1]);
    assert(json::compact(block_doc(reason)) =~= "{\"decision\":\"block\",\"reason\":"@
        + json::json_quoted(reason) + "}"@);
    let one = seq![("continue"@, JsonModel::Bool(true))];
    let b = json::member_texts(one);
    assert(b[0] == json::json_quoted("continue"@) + ":"@ + "true"@);
    assert(text::joined(b, ","@) == b[0]);
    assert(json::compact(allow_doc()) =~= "{\"continue\":true}"@);
}

/// A text of small letters is quoted as it is.
proof fn lemma_plainly_quoted(s: Seq<char>)
    requires
        forall|i: int| 0 <= i < s.len() ==> 'a' <= #[trigger] s[i] && s[i] <= 'z',
    ensures
        json::json_quoted(s) == seq!['"'] + s + seq!['"'],
{
    reveal(json::json_quoted);
    lemma_plainly_escaped(s);
}

proof fn lemma_plainly_escaped(s: Seq<char>)
    requires
        forall|i: int| 0 <= i < s.len() ==> 'a' <= #[trigger] s[i] && s[i] <= 'z',
    ensures
        lists::gathered(s, |c: char| json::escaped(c)) == s,
    decreases s.len(),
{
    if s.len() > 0 {
        let front = s.drop_last();
        assert forall|i: int| 0 <= i < front.len() implies 'a' <= #[trigger] front[i] && front[i]
            <= 'z' by {
            assert(s[i] == front[i]);
        }
        lemma_plainly_escaped(front);
        assert('a' <= s[s.len() - 1]);
        assert(json::escaped(s.last()) =~= seq![s.last()]);
        assert(front + seq![s.last()] =~= s);
    }
}

/// What the files, the command and the errors are called.
pub proof fn law_how_the_hook_is_worded()
    ensures
        settings_name(true) == "settings.json"@,
        settings_name(false) == "settings.local.json"@,
        hook_command(true) == "backcheck hook"@,
        hook_command(false) == "backcheck hook --no-block"@,
        error_text(InstallError::NotJson) == "not valid JSON; fix it before installing"@,
        error_text(InstallError::SettingsNotObject) == "settings.json must contain a JSON object"@,
        error_text(InstallError::HooksNotObject) == "`hooks` must be a JSON object"@,
        error_text(InstallError::StopNotArray) == "`hooks.Stop` must be an array"@,
        error_text(InstallError::NotRendered) == "the settings could not be rendered"@,
{
}

} // verus!
