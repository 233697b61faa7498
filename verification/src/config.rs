//! The settings, where the program keeps its files, and the rules for changing
//! a setting.
use vstd::prelude::*;

use crate::json;
use crate::json::{Json, JsonValue, Number};
use crate::profiles;
use crate::text;

verus! {

/// A path below another, as paths are joined: an absolute one stands for
/// itself.
pub open spec fn joined_path(base: Seq<char>, name: Seq<char>) -> Seq<char> {
    if name.len() > 0 && name[0] == '/' {
        name
    } else if base.len() == 0 || base.last() == '/' {
        base + name
    } else {
        base.push('/') + name
    }
}

pub fn join_path(base: &str, name: &str) -> (out: String)
    ensures
        out@ == joined_path(base@, name@),
{
    let front: Vec<char> = text::chars_of(base);
    let back: Vec<char> = text::chars_of(name);
    if back.len() > 0 && back[0] == '/' {
        return name.to_owned();
    }
    let mut out: String = base.to_owned();
    if front.len() > 0 && front[front.len() - 1] != '/' {
        out.push('/');
    }
    out.append(name);
    out
}

/// Where the program keeps its files.
pub struct Paths {
    pub data_dir: String,
    pub state_dir: String,
    pub config: String,
    pub profiles: String,
    pub templates: String,
    pub versions: String,
    pub current: String,
    pub pid: String,
    pub launch: String,
    pub log: String,
    pub swap_bin: String,
    pub swap_config: String,
    pub metadata_cache: String,
    pub profile_benchmarks: String,
}

impl Paths {
    /// The files below the directories for configuration, data and state.
    pub open spec fn below(&self, config: Seq<char>, data: Seq<char>, state: Seq<char>) -> bool {
        &&& self.data_dir@ == data
        &&& self.state_dir@ == state
        &&& self.config@ == joined_path(config, "config.json"@)
        &&& self.profiles@ == joined_path(config, "profiles.json"@)
        &&& self.templates@ == joined_path(config, "templates"@)
        &&& self.versions@ == joined_path(data, "versions"@)
        &&& self.current@ == joined_path(data, "current"@)
        &&& self.swap_bin@ == joined_path(data, "llama-swap/llama-swap"@)
        &&& self.pid@ == joined_path(state, "server.pid"@)
        &&& self.launch@ == joined_path(state, "launch.json"@)
        &&& self.log@ == joined_path(state, "server.log"@)
        &&& self.swap_config@ == joined_path(state, "llama-swap.yaml"@)
        &&& self.metadata_cache@ == joined_path(state, "gguf-metadata-cache.json"@)
        &&& self.profile_benchmarks@ == joined_path(state, "profile-benchmarks.json"@)
    }

    pub fn under(config_dir: &str, data_dir: &str, state_dir: &str) -> (out: Paths)
        ensures
            out.below(config_dir@, data_dir@, state_dir@),
    {
        Paths {
            data_dir: data_dir.to_owned(),
            state_dir: state_dir.to_owned(),
            config: join_path(config_dir, "config.json"),
            profiles: join_path(config_dir, "profiles.json"),
            templates: join_path(config_dir, "templates"),
            versions: join_path(data_dir, "versions"),
            current: join_path(data_dir, "current"),
            pid: join_path(state_dir, "server.pid"),
            launch: join_path(state_dir, "launch.json"),
            log: join_path(state_dir, "server.log"),
            swap_bin: join_path(data_dir, "llama-swap/llama-swap"),
            swap_config: join_path(state_dir, "llama-swap.yaml"),
            metadata_cache: join_path(state_dir, "gguf-metadata-cache.json"),
            profile_benchmarks: join_path(state_dir, "profile-benchmarks.json"),
        }
    }

    /// The three directories: what the environment says, or the usual places
    /// below the home directory.
    pub fn discover(
        home: &str,
        config_home: Option<String>,
        data_home: Option<String>,
        state_home: Option<String>,
    ) -> (out: Paths)
        ensures
            out.below(
                joined_path(base_dir(config_home, home@, ".config"@), "llamactl"@),
                joined_path(base_dir(data_home, home@, ".local/share"@), "llamactl"@),
                joined_path(base_dir(state_home, home@, ".local/state"@), "llamactl"@),
            ),
    {
        let config_base: String = match config_home {
            Some(dir) => dir,
            None => join_path(home, ".config"),
        };
        let data_base: String = match data_home {
            Some(dir) => dir,
            None => join_path(home, ".local/share"),
        };
        let state_base: String = match state_home {
            Some(dir) => dir,
            None => join_path(home, ".local/state"),
        };
        let config_dir: String = join_path(config_base.as_str(), "llamactl");
        let data_dir: String = join_path(data_base.as_str(), "llamactl");
        let state_dir: String = join_path(state_base.as_str(), "llamactl");
        Paths::under(config_dir.as_str(), data_dir.as_str(), state_dir.as_str())
    }
}

/// A directory that the environment gives, or one below the home directory.
pub open spec fn base_dir(given: Option<String>, home: Seq<char>, usual: Seq<char>) -> Seq<char> {
    match given {
        Some(dir) => dir@,
        None => joined_path(home, usual),
    }
}

/// The settings. The share of memory for the scheduler and the scale of the
/// context step are floats and are kept beside them.
pub struct Config {
    pub backend: String,
    pub runtime: String,
    pub update_backends: Vec<String>,
    pub host: String,
    pub port: u16,
    pub telemetry_port: u16,
    pub api_key: String,
    pub api_keys: Vec<String>,
    pub models_dirs: Vec<String>,
    pub default_model: String,
    pub gpu_layers: JsonValue,
    pub ctx_size: u64,
    pub extra_args: Vec<String>,
    /// A shell script that is sourced before the server is run, none where it is
    /// empty.
    pub runtime_env_file: String,
    pub auto_update: bool,
    pub keep_versions: usize,
    pub swap_ttl: u64,
    pub advertise_base_models: bool,
    pub advertise_profiles: bool,
    pub scheduler_enabled: bool,
    pub scheduler_max_models: usize,
    pub scheduler_pinned_models: Vec<String>,
}

pub ghost struct ConfigView {
    pub backend: Seq<char>,
    pub runtime: Seq<char>,
    pub update_backends: Seq<Seq<char>>,
    pub host: Seq<char>,
    pub port: u16,
    pub telemetry_port: u16,
    pub api_key: Seq<char>,
    pub api_keys: Seq<Seq<char>>,
    pub models_dirs: Seq<Seq<char>>,
    pub default_model: Seq<char>,
    pub gpu_layers: Json,
    pub ctx_size: u64,
    pub extra_args: Seq<Seq<char>>,
    pub runtime_env_file: Seq<char>,
    pub auto_update: bool,
    pub keep_versions: usize,
    pub swap_ttl: u64,
    pub advertise_base_models: bool,
    pub advertise_profiles: bool,
    pub scheduler_enabled: bool,
    pub scheduler_max_models: usize,
    pub scheduler_pinned_models: Seq<Seq<char>>,
}

impl View for Config {
    type V = ConfigView;

    open spec fn view(&self) -> ConfigView {
        ConfigView {
            backend: self.backend@,
            runtime: self.runtime@,
            update_backends: text::views(self.update_backends@),
            host: self.host@,
            port: self.port,
            telemetry_port: self.telemetry_port,
            api_key: self.api_key@,
            api_keys: text::views(self.api_keys@),
            models_dirs: text::views(self.models_dirs@),
            default_model: self.default_model@,
            gpu_layers: self.gpu_layers@,
            ctx_size: self.ctx_size,
            extra_args: text::views(self.extra_args@),
            runtime_env_file: self.runtime_env_file@,
            auto_update: self.auto_update,
            keep_versions: self.keep_versions,
            swap_ttl: self.swap_ttl,
            advertise_base_models: self.advertise_base_models,
            advertise_profiles: self.advertise_profiles,
            scheduler_enabled: self.scheduler_enabled,
            scheduler_max_models: self.scheduler_max_models,
            scheduler_pinned_models: text::views(self.scheduler_pinned_models@),
        }
    }
}

/// The settings that the program starts with. The model directories depend on
/// the machine and are added to them.
pub open spec fn default_config() -> ConfigView {
    ConfigView {
        backend: "vulkan"@,
        runtime: "managed"@,
        update_backends: seq!["vulkan"@, "cuda"@],
        host: "127.0.0.1"@,
        port: 1234,
        telemetry_port: 1235,
        api_key: ""@,
        api_keys: seq![],
        models_dirs: seq![],
        default_model: ""@,
        gpu_layers: Json::Text("all"@),
        ctx_size: 4096,
        extra_args: seq![],
        runtime_env_file: ""@,
        auto_update: true,
        keep_versions: 2,
        swap_ttl: 600,
        advertise_base_models: true,
        advertise_profiles: false,
        scheduler_enabled: true,
        scheduler_max_models: 4,
        scheduler_pinned_models: seq![],
    }
}

impl Default for Config {
    fn default() -> (out: Config)
        ensures
            out@ == default_config(),
    {
        let mut update_backends: Vec<String> = Vec::new();
        update_backends.push("vulkan".to_owned());
        update_backends.push("cuda".to_owned());
        let out: Config = Config {
            backend: "vulkan".to_owned(),
            runtime: "managed".to_owned(),
            update_backends,
            host: "127.0.0.1".to_owned(),
            port: 1234,
            telemetry_port: 1235,
            api_key: "".to_owned(),
            api_keys: Vec::new(),
            models_dirs: Vec::new(),
            default_model: "".to_owned(),
            gpu_layers: JsonValue::String("all".to_owned()),
            ctx_size: 4096,
            extra_args: Vec::new(),
            runtime_env_file: "".to_owned(),
            auto_update: true,
            keep_versions: 2,
            swap_ttl: 600,
            advertise_base_models: true,
            advertise_profiles: false,
            scheduler_enabled: true,
            scheduler_max_models: 4,
            scheduler_pinned_models: Vec::new(),
        };
        proof {
            assert(out@.update_backends =~= seq!["vulkan"@, "cuda"@]);
            assert(out@.api_keys =~= seq![]);
            assert(out@.models_dirs =~= seq![]);
            assert(out@.extra_args =~= seq![]);
            assert(out@.scheduler_pinned_models =~= seq![]);
        }
        out
    }
}

/// The first occurrences, trimmed, of the first `n` keys that are not blank.
pub open spec fn distinct_keys(list: Seq<Seq<char>>, n: nat) -> Seq<Seq<char>>
    decreases n,
{
    if n == 0 {
        seq![]
    } else {
        let rest = distinct_keys(list, (n - 1) as nat);
        let key = text::trim_of(list[n - 1]);
        if key.len() > 0 && !rest.contains(key) {
            rest.push(key)
        } else {
            rest
        }
    }
}

/// The API keys: those in the comma-separated setting, then those in the list.
pub open spec fn keys_of(c: ConfigView) -> Seq<Seq<char>> {
    let all = text::split_of(c.api_key, ',') + c.api_keys;
    distinct_keys(all, all.len())
}

/// Appends a key if it is not blank and not there.
fn add_key(out: &mut Vec<String>, raw: &str)
    ensures
        text::views(final(out)@) == {
            let key = text::trim_of(raw@);
            let rest = text::views(old(out)@);
            if key.len() > 0 && !rest.contains(key) {
                rest.push(key)
            } else {
                rest
            }
        },
{
    let key: String = text::trim(raw);
    if !key.as_str().is_empty() && !profiles::holds_text(out, key.as_str()) {
        out.push(key);
        proof {
            profiles::lemma_views_push(old(out)@, key);
        }
    }
}

impl Config {
    pub fn keys(&self) -> (out: Vec<String>)
        ensures
            text::views(out@) == keys_of(self@),
    {
        let mut out: Vec<String> = Vec::new();
        let given: Vec<String> = text::split(self.api_key.as_str(), ',');
        let ghost front = text::views(given@);
        let ghost all = front + self@.api_keys;
        let mut i: usize = 0;
        proof {
            assert(text::views(out@) =~= seq![]);
        }
        while i < given.len()
            invariant
                i <= given@.len(),
                front == text::views(given@),
                all == front + self@.api_keys,
                text::views(out@) == distinct_keys(all, i as nat),
            decreases given@.len() - i,
        {
            proof {
                assert(all[i as int] == given@[i as int]@);
            }
            add_key(&mut out, given[i].as_str());
            i += 1;
        }
        let mut k: usize = 0;
        while k < self.api_keys.len()
            invariant
                k <= self.api_keys@.len(),
                all == front + self@.api_keys,
                front.len() == given@.len(),
                text::views(out@) == distinct_keys(all, (front.len() + k) as nat),
            decreases self.api_keys@.len() - k,
        {
            proof {
                assert(all[front.len() + k] == self.api_keys@[k as int]@);
            }
            add_key(&mut out, self.api_keys[k].as_str());
            k += 1;
        }
        out
    }
}

/// Every key is given once and none is blank.
pub proof fn keys_are_distinct(list: Seq<Seq<char>>, n: nat)
    requires
        n <= list.len(),
    ensures
        distinct_keys(list, n).no_duplicates(),
        forall|i: int|
            0 <= i < distinct_keys(list, n).len() ==> (#[trigger] distinct_keys(list, n)[i]).len()
                > 0,
    decreases n,
{
    if n > 0 {
        keys_are_distinct(list, (n - 1) as nat);
        let rest = distinct_keys(list, (n - 1) as nat);
        let now = distinct_keys(list, n);
        assert forall|i: int, j: int|
            0 <= i < now.len() && 0 <= j < now.len() && i != j implies now[i] != now[j] by {
            if now.len() > rest.len() {
                if i < rest.len() {
                    assert(rest.contains(rest[i]));
                }
                if j < rest.len() {
                    assert(rest.contains(rest[j]));
                }
            }
        }
        assert forall|i: int| 0 <= i < now.len() implies (#[trigger] now[i]).len() > 0 by {
            if i < rest.len() {
                assert(now[i] == rest[i]);
            }
        }
    }
}

/// The backends that there are builds for.
pub open spec fn backends() -> Seq<Seq<char>> {
    seq!["cuda"@, "vulkan"@, "cpu"@, "rocm"@, "sycl-fp16"@, "sycl-fp32"@, "openvino"@]
}

pub fn backend_names() -> (out: Vec<String>)
    ensures
        text::views(out@) == backends(),
{
    let mut out: Vec<String> = Vec::new();
    out.push("cuda".to_owned());
    out.push("vulkan".to_owned());
    out.push("cpu".to_owned());
    out.push("rocm".to_owned());
    out.push("sycl-fp16".to_owned());
    out.push("sycl-fp32".to_owned());
    out.push("openvino".to_owned());
    proof {
        assert(text::views(out@) =~= backends());
    }
    out
}

/// Why the settings are refused.
#[derive(Clone, Copy, Debug, PartialEq, Eq, Structural)]
pub enum ConfigError {
    UnknownKey,
    ExpectedBool,
    ExpectedNumber,
    ExpectedArray,
    InvalidJson,
    /// A value of another kind than the setting's.
    Shape,
    Backend,
    VramFraction,
    MaxModels,
    Ports,
    SamePort,
    KeepVersions,
}

/// What is wrong with the settings, where something is. `fraction` says whether
/// the scheduler's share of memory is between a tenth and the whole.
pub open spec fn config_error(c: ConfigView, fraction: bool) -> Option<ConfigError> {
    if !backends().contains(c.backend) {
        Some(ConfigError::Backend)
    } else if !fraction {
        Some(ConfigError::VramFraction)
    } else if c.scheduler_max_models == 0 {
        Some(ConfigError::MaxModels)
    } else if c.port == 0 || c.telemetry_port == 0 {
        Some(ConfigError::Ports)
    } else if c.port == c.telemetry_port {
        Some(ConfigError::SamePort)
    } else if c.keep_versions == 0 {
        Some(ConfigError::KeepVersions)
    } else {
        None
    }
}

impl Config {
    pub fn validate(&self, fraction: bool) -> (out: Result<(), ConfigError>)
        ensures
            match config_error(self@, fraction) {
                Some(e) => out == Err::<(), ConfigError>(e),
                None => out == Ok::<(), ConfigError>(()),
            },
    {
        let names: Vec<String> = backend_names();
        if !profiles::holds_text(&names, self.backend.as_str()) {
            Err(ConfigError::Backend)
        } else if !fraction {
            Err(ConfigError::VramFraction)
        } else if self.scheduler_max_models == 0 {
            Err(ConfigError::MaxModels)
        } else if self.port == 0 || self.telemetry_port == 0 {
            Err(ConfigError::Ports)
        } else if self.port == self.telemetry_port {
            Err(ConfigError::SamePort)
        } else if self.keep_versions == 0 {
            Err(ConfigError::KeepVersions)
        } else {
            Ok(())
        }
    }
}

/// What a text says as true or false.
pub open spec fn bool_of(raw: Seq<char>) -> Result<bool, ConfigError> {
    if raw == "true"@ {
        Ok(true)
    } else if raw == "false"@ {
        Ok(false)
    } else {
        Err(ConfigError::ExpectedBool)
    }
}

fn parse_bool(raw: &str) -> (out: Result<bool, ConfigError>)
    ensures
        out == bool_of(raw@),
{
    proof {
        reveal_strlit("true");
        reveal_strlit("false");
    }
    if text::same(raw, "true") {
        Ok(true)
    } else if text::same(raw, "false") {
        Ok(false)
    } else {
        Err(ConfigError::ExpectedBool)
    }
}

/// What a text says as a number of up to `max`.
pub open spec fn number_up_to(raw: Seq<char>, max: nat) -> Result<nat, ConfigError> {
    match text::u64_of(raw) {
        None => Err(ConfigError::ExpectedNumber),
        Some(n) => if n > max {
            Err(ConfigError::Shape)
        } else {
            Ok(n as nat)
        },
    }
}

fn parse_number(raw: &str, max: u64) -> (out: Result<u64, ConfigError>)
    ensures
        match (out, number_up_to(raw@, max as nat)) {
            (Ok(n), Ok(m)) => n == m,
            (Err(e), Err(f)) => e == f,
            _ => false,
        },
{
    match text::parse_u64(raw) {
        None => Err(ConfigError::ExpectedNumber),
        Some(n) => if n > max {
            Err(ConfigError::Shape)
        } else {
            Ok(n)
        },
    }
}

/// Whether all items are texts.
pub open spec fn all_texts(items: Seq<Json>) -> bool {
    forall|i: int| 0 <= i < items.len() ==> #[trigger] items[i] is Text
}

/// What a text says as a list of texts.
pub open spec fn list_of(raw: Seq<char>) -> Result<Seq<Seq<char>>, ConfigError> {
    match json::parsed(raw) {
        None => Err(ConfigError::ExpectedArray),
        Some(Json::Array(items)) => if all_texts(items) {
            Ok(profiles::texts_in(items, items.len()))
        } else {
            Err(ConfigError::Shape)
        },
        Some(_) => Err(ConfigError::Shape),
    }
}

fn parse_list(raw: &str) -> (out: Result<Vec<String>, ConfigError>)
    ensures
        match (out, list_of(raw@)) {
            (Ok(a), Ok(b)) => text::views(a@) == b,
            (Err(e), Err(f)) => e == f,
            _ => false,
        },
{
    match json::parse(raw) {
        None => Err(ConfigError::ExpectedArray),
        Some(JsonValue::Array(items)) => {
            let ghost list = json::json_of(JsonValue::Array(items))->Array_0;
            let mut i: usize = 0;
            while i < items.len()
                invariant
                    i <= items@.len(),
                    list == json::json_of(JsonValue::Array(items))->Array_0,
                    json::parsed(raw@) == Some(Json::Array(list)),
                    forall|j: int| 0 <= j < i ==> #[trigger] list[j] is Text,
                decreases items@.len() - i,
            {
                proof {
                    assert(list[i as int] == json::json_of(items@[i as int]));
                }
                match items[i].as_str() {
                    Some(_) => {},
                    None => {
                        return Err(ConfigError::Shape);
                    },
                }
                i += 1;
            }
            Ok(profiles::texts(&items))
        },
        Some(_) => Err(ConfigError::Shape),
    }
}

/// What a text says for the number of layers on the GPU, whose kind is that of
/// the value that it replaces.
pub open spec fn layers_of(old: Json, raw: Seq<char>) -> Result<Json, ConfigError> {
    match old {
        Json::Text(_) => Ok(Json::Text(raw)),
        Json::Bool(_) => match bool_of(raw) {
            Ok(b) => Ok(Json::Bool(b)),
            Err(e) => Err(e),
        },
        Json::Unsigned(_) => match text::u64_of(raw) {
            Some(n) => Ok(Json::Unsigned(n)),
            None => Err(ConfigError::ExpectedNumber),
        },
        Json::Array(_) => match json::parsed(raw) {
            Some(j) => Ok(j),
            None => Err(ConfigError::ExpectedArray),
        },
        _ => match json::parsed(raw) {
            Some(j) => Ok(j),
            None => Err(ConfigError::InvalidJson),
        },
    }
}

fn parse_layers(old: &JsonValue, raw: &str) -> (out: Result<JsonValue, ConfigError>)
    ensures
        match (out, layers_of(old@, raw@)) {
            (Ok(a), Ok(b)) => a@ == b,
            (Err(e), Err(f)) => e == f,
            _ => false,
        },
{
    match old {
        JsonValue::String(_) => Ok(JsonValue::String(raw.to_owned())),
        JsonValue::Bool(_) => match parse_bool(raw) {
            Ok(b) => Ok(JsonValue::Bool(b)),
            Err(e) => Err(e),
        },
        JsonValue::Number(Number::Unsigned(_)) => match text::parse_u64(raw) {
            Some(n) => Ok(JsonValue::Number(Number::Unsigned(n))),
            None => Err(ConfigError::ExpectedNumber),
        },
        JsonValue::Array(_) => match json::parse(raw) {
            Some(v) => Ok(v),
            None => Err(ConfigError::ExpectedArray),
        },
        _ => match json::parse(raw) {
            Some(v) => Ok(v),
            None => Err(ConfigError::InvalidJson),
        },
    }
}

/// Whether a setting takes a float: it is one of the two fractions, or the number of
/// layers while that is a number below zero or with a fraction.
pub open spec fn takes_float(c: ConfigView, key: Seq<char>) -> bool {
    ||| key == "scheduler_vram_fraction"@
    ||| key == "context_step_scale"@
    ||| key == "gpu_layers"@ && (c.gpu_layers is Negative || c.gpu_layers is Float)
}

/// The settings after `key` was given the value that `raw` says, before they
/// are checked.
pub open spec fn changed(c: ConfigView, key: Seq<char>, raw: Seq<char>) -> Result<
    ConfigView,
    ConfigError,
> {
    if key == "backend"@ {
        if backends().contains(raw) {
            Ok(ConfigView { backend: raw, ..c })
        } else {
            Err(ConfigError::Backend)
        }
    } else if key == "runtime"@ {
        Ok(ConfigView { runtime: raw, ..c })
    } else if key == "update_backends"@ {
        match list_of(raw) {
            Ok(v) => Ok(ConfigView { update_backends: v, ..c }),
            Err(e) => Err(e),
        }
    } else if key == "host"@ {
        Ok(ConfigView { host: raw, ..c })
    } else if key == "port"@ {
        match number_up_to(raw, 65535) {
            Ok(n) => Ok(ConfigView { port: n as u16, ..c }),
            Err(e) => Err(e),
        }
    } else if key == "telemetry_port"@ {
        match number_up_to(raw, 65535) {
            Ok(n) => Ok(ConfigView { telemetry_port: n as u16, ..c }),
            Err(e) => Err(e),
        }
    } else if key == "api_key"@ {
        Ok(ConfigView { api_key: raw, ..c })
    } else if key == "api_keys"@ {
        match list_of(raw) {
            Ok(v) => Ok(ConfigView { api_keys: v, ..c }),
            Err(e) => Err(e),
        }
    } else if key == "models_dirs"@ {
        match list_of(raw) {
            Ok(v) => Ok(ConfigView { models_dirs: v, ..c }),
            Err(e) => Err(e),
        }
    } else if key == "default_model"@ {
        Ok(ConfigView { default_model: raw, ..c })
    } else if key == "gpu_layers"@ {
        match layers_of(c.gpu_layers, raw) {
            Ok(v) => Ok(ConfigView { gpu_layers: v, ..c }),
            Err(e) => Err(e),
        }
    } else if key == "ctx_size"@ {
        match number_up_to(raw, u64::MAX as nat) {
            Ok(n) => Ok(ConfigView { ctx_size: n as u64, ..c }),
            Err(e) => Err(e),
        }
    } else if key == "extra_args"@ {
        match list_of(raw) {
            Ok(v) => Ok(ConfigView { extra_args: v, ..c }),
            Err(e) => Err(e),
        }
    } else if key == "runtime_env_file"@ {
        Ok(ConfigView { runtime_env_file: raw, ..c })
    } else if key == "auto_update"@ {
        match bool_of(raw) {
            Ok(b) => Ok(ConfigView { auto_update: b, ..c }),
            Err(e) => Err(e),
        }
    } else if key == "keep_versions"@ {
        match number_up_to(raw, usize::MAX as nat) {
            Ok(n) => Ok(ConfigView { keep_versions: n as usize, ..c }),
            Err(e) => Err(e),
        }
    } else if key == "swap_ttl"@ {
        match number_up_to(raw, u64::MAX as nat) {
            Ok(n) => Ok(ConfigView { swap_ttl: n as u64, ..c }),
            Err(e) => Err(e),
        }
    } else if key == "advertise_base_models"@ {
        match bool_of(raw) {
            Ok(b) => Ok(ConfigView { advertise_base_models: b, ..c }),
            Err(e) => Err(e),
        }
    } else if key == "advertise_profiles"@ {
        match bool_of(raw) {
            Ok(b) => Ok(ConfigView { advertise_profiles: b, ..c }),
            Err(e) => Err(e),
        }
    } else if key == "scheduler_enabled"@ {
        match bool_of(raw) {
            Ok(b) => Ok(ConfigView { scheduler_enabled: b, ..c }),
            Err(e) => Err(e),
        }
    } else if key == "scheduler_max_models"@ {
        match number_up_to(raw, usize::MAX as nat) {
            Ok(n) => Ok(ConfigView { scheduler_max_models: n as usize, ..c }),
            Err(e) => Err(e),
        }
    } else if key == "scheduler_pinned_models"@ {
        match list_of(raw) {
            Ok(v) => Ok(ConfigView { scheduler_pinned_models: v, ..c }),
            Err(e) => Err(e),
        }
    } else {
        Err(ConfigError::UnknownKey)
    }
}

/// The settings after `key` was set, where the result is valid.
pub open spec fn set_of(c: ConfigView, key: Seq<char>, raw: Seq<char>, fraction: bool) -> Result<
    ConfigView,
    ConfigError,
> {
    match changed(c, key, raw) {
        Err(e) => Err(e),
        Ok(v) => match config_error(v, fraction) {
            Some(e) => Err(e),
            None => Ok(v),
        },
    }
}

/// Copies texts.
pub fn copy_texts(list: &Vec<String>) -> (out: Vec<String>)
    ensures
        text::views(out@) == text::views(list@),
{
    let mut out: Vec<String> = Vec::new();
    let mut i: usize = 0;
    while i < list.len()
        invariant
            i <= list@.len(),
            text::views(out@) =~= text::views(list@).take(i as int),
        decreases list@.len() - i,
    {
        let ghost before = out@;
        out.push(list[i].clone());
        proof {
            profiles::lemma_views_push(before, list@[i as int]);
        }
        i += 1;
    }
    proof {
        assert(text::views(list@).take(list@.len() as int) =~= text::views(list@));
    }
    out
}

impl Config {
    pub fn copy(&self) -> (out: Config)
        ensures
            out@ == self@,
    {
        Config {
            backend: self.backend.clone(),
            runtime: self.runtime.clone(),
            update_backends: copy_texts(&self.update_backends),
            host: self.host.clone(),
            port: self.port,
            telemetry_port: self.telemetry_port,
            api_key: self.api_key.clone(),
            api_keys: copy_texts(&self.api_keys),
            models_dirs: copy_texts(&self.models_dirs),
            default_model: self.default_model.clone(),
            gpu_layers: self.gpu_layers.copy(),
            ctx_size: self.ctx_size,
            extra_args: copy_texts(&self.extra_args),
            runtime_env_file: self.runtime_env_file.clone(),
            auto_update: self.auto_update,
            keep_versions: self.keep_versions,
            swap_ttl: self.swap_ttl,
            advertise_base_models: self.advertise_base_models,
            advertise_profiles: self.advertise_profiles,
            scheduler_enabled: self.scheduler_enabled,
            scheduler_max_models: self.scheduler_max_models,
            scheduler_pinned_models: copy_texts(&self.scheduler_pinned_models),
        }
    }

    /// The settings with one of them changed.
    fn change(&self, key: &str, raw: &str) -> (out: Result<Config, ConfigError>)
        ensures
            match (out, changed(self@, key@, raw@)) {
                (Ok(c), Ok(v)) => c@ == v,
                (Err(e), Err(f)) => e == f,
                _ => false,
            },
    {
        let mut c: Config = self.copy();
        if text::same(key, "backend") {
            let names: Vec<String> = backend_names();
            if !profiles::holds_text(&names, raw) {
                return Err(ConfigError::Backend);
            }
            c.backend = raw.to_owned();
        } else if text::same(key, "runtime") {
            c.runtime = raw.to_owned();
        } else if text::same(key, "update_backends") {
            c.update_backends = parse_list(raw)?;
        } else if text::same(key, "host") {
            c.host = raw.to_owned();
        } else if text::same(key, "port") {
            c.port = parse_number(raw, 65535)? as u16;
        } else if text::same(key, "telemetry_port") {
            c.telemetry_port = parse_number(raw, 65535)? as u16;
        } else if text::same(key, "api_key") {
            c.api_key = raw.to_owned();
        } else if text::same(key, "api_keys") {
            c.api_keys = parse_list(raw)?;
        } else if text::same(key, "models_dirs") {
            c.models_dirs = parse_list(raw)?;
        } else if text::same(key, "default_model") {
            c.default_model = raw.to_owned();
        } else if text::same(key, "gpu_layers") {
            c.gpu_layers = parse_layers(&self.gpu_layers, raw)?;
        } else if text::same(key, "ctx_size") {
            c.ctx_size = parse_number(raw, u64::MAX)?;
        } else if text::same(key, "extra_args") {
            c.extra_args = parse_list(raw)?;
        } else if text::same(key, "runtime_env_file") {
            c.runtime_env_file = raw.to_owned();
        } else if text::same(key, "auto_update") {
            c.auto_update = parse_bool(raw)?;
        } else if text::same(key, "keep_versions") {
            c.keep_versions = parse_number(raw, usize::MAX as u64)? as usize;
        } else if text::same(key, "swap_ttl") {
            c.swap_ttl = parse_number(raw, u64::MAX)?;
        } else if text::same(key, "advertise_base_models") {
            c.advertise_base_models = parse_bool(raw)?;
        } else if text::same(key, "advertise_profiles") {
            c.advertise_profiles = parse_bool(raw)?;
        } else if text::same(key, "scheduler_enabled") {
            c.scheduler_enabled = parse_bool(raw)?;
        } else if text::same(key, "scheduler_max_models") {
            c.scheduler_max_models = parse_number(raw, usize::MAX as u64)? as usize;
        } else if text::same(key, "scheduler_pinned_models") {
            c.scheduler_pinned_models = parse_list(raw)?;
        } else {
            return Err(ConfigError::UnknownKey);
        }
        Ok(c)
    }

    /// Whether a setting takes a float, which is not set here.
    pub fn holds_float(&self, key: &str) -> (yes: bool)
        ensures
            yes == takes_float(self@, key@),
    {
        let layers: bool = match &self.gpu_layers {
            JsonValue::Number(Number::Negative(_)) => true,
            JsonValue::Number(Number::Float(_)) => true,
            _ => false,
        };
        text::same(key, "scheduler_vram_fraction") || text::same(key, "context_step_scale") || (
        layers && text::same(key, "gpu_layers"))
    }

    /// Sets one of the settings from text; where the result would not be valid
    /// nothing changes.
    pub fn set(&mut self, key: &str, raw: &str, fraction: bool) -> (out: Result<(), ConfigError>)
        requires
            !takes_float(old(self)@, key@),
        ensures
            match (out, set_of(old(self)@, key@, raw@, fraction)) {
                (Ok(_), Ok(v)) => final(self)@ == v,
                (Err(e), Err(f)) => e == f && *final(self) == *old(self),
                _ => false,
            },
    {
        let candidate: Config = match self.change(key, raw) {
            Ok(c) => c,
            Err(e) => return Err(e),
        };
        match candidate.validate(fraction) {
            Ok(_) => {},
            Err(e) => return Err(e),
        }
        *self = candidate;
        Ok(())
    }
}

/// Settings that were set are valid.
pub proof fn set_keeps_validity(c: ConfigView, key: Seq<char>, raw: Seq<char>, fraction: bool)
    ensures
        set_of(c, key, raw, fraction) matches Ok(v) ==> config_error(v, fraction) is None,
{
}

/// What is said where the text `raw` was refused for a setting.
pub open spec fn error_text_of(e: ConfigError, key: Seq<char>, raw: Seq<char>) -> Seq<char> {
    match e {
        ConfigError::UnknownKey => "unknown config key '"@ + key + "'"@,
        ConfigError::ExpectedNumber => "invalid number '"@ + raw + "'"@,
        ConfigError::Shape => "invalid value for '"@ + key + "'"@,
        ConfigError::Backend => "invalid backend '"@ + raw + "'\nvalid: "@ + text::joined(
            backends(),
            ", "@,
        ),
        ConfigError::ExpectedBool => "expected true or false"@,
        ConfigError::ExpectedArray => "expected a JSON array"@,
        ConfigError::InvalidJson => "invalid JSON value"@,
        ConfigError::VramFraction => "scheduler_vram_fraction must be between 0.1 and 1.0"@,
        ConfigError::MaxModels => "scheduler_max_models must be at least 1"@,
        ConfigError::Ports => "ports must be between 1 and 65535"@,
        ConfigError::SamePort => "telemetry_port must differ from the OpenAI API port"@,
        ConfigError::KeepVersions => "keep_versions must be at least 1"@,
    }
}

fn enclosed(front: &str, s: &str, back: &str) -> (out: String)
    ensures
        out@ == front@ + s@ + back@,
{
    let mut out: String = front.to_owned();
    out.append(s);
    out.append(back);
    out
}

pub fn error_text(e: ConfigError, key: &str, raw: &str) -> (out: String)
    ensures
        out@ == error_text_of(e, key@, raw@),
{
    match e {
        ConfigError::UnknownKey => enclosed("unknown config key '", key, "'"),
        ConfigError::ExpectedNumber => enclosed("invalid number '", raw, "'"),
        ConfigError::Shape => enclosed("invalid value for '", key, "'"),
        ConfigError::Backend => {
            let mut out: String = enclosed("invalid backend '", raw, "'\nvalid: ");
            out.append(text::join(&backend_names(), ", ").as_str());
            out
        },
        ConfigError::ExpectedBool => "expected true or false".to_owned(),
        ConfigError::ExpectedArray => "expected a JSON array".to_owned(),
        ConfigError::InvalidJson => "invalid JSON value".to_owned(),
        ConfigError::VramFraction => "scheduler_vram_fraction must be between 0.1 and 1.0".to_owned(),
        ConfigError::MaxModels => "scheduler_max_models must be at least 1".to_owned(),
        ConfigError::Ports => "ports must be between 1 and 65535".to_owned(),
        ConfigError::SamePort => "telemetry_port must differ from the OpenAI API port".to_owned(),
        ConfigError::KeepVersions => "keep_versions must be at least 1".to_owned(),
    }
}

} // verus!
