//! The model that the server runs, told by the server, its configuration and the
//! selected preset.
use crate::binary::Binary64;
use crate::json::{member, member_text, parsed_json, read_json, Json, JsonModel, Numeral};
use crate::text::{
    chars_of, ends_with, has_suffix, rest_from, text_of, trim, trimmed,
};
use vstd::prelude::*;

verus! {

/// Where a field came from: the server's `/props` come first, then its model list,
/// then the configuration of its process, then the preset.
#[derive(Clone, Copy, Debug, PartialEq, Eq, Structural)]
pub enum FieldSource {
    /// Nowhere.
    Absent,
    /// The server's `/props`.
    Props,
    /// The server's `/v1/models`.
    Models,
    /// The configuration of the server's process.
    ProcessConfig,
    /// The selected preset.
    Preset,
}

impl Default for FieldSource {
    fn default() -> (r: FieldSource)
        ensures
            r == FieldSource::Absent,
    {
        FieldSource::Absent
    }
}

/// The priority of a source.
pub open spec fn source_rank(source: FieldSource) -> u8 {
    match source {
        FieldSource::Props => 4,
        FieldSource::Models => 3,
        FieldSource::ProcessConfig => 2,
        FieldSource::Preset => 1,
        FieldSource::Absent => 0,
    }
}

/// Whether a source is the server itself.
pub open spec fn is_live_source(source: FieldSource) -> bool {
    source == FieldSource::Props || source == FieldSource::Models
}

impl FieldSource {
    /// The priority of the source.
    pub fn rank(self) -> (r: u8)
        ensures
            r == source_rank(self),
    {
        match self {
            FieldSource::Props => 4,
            FieldSource::Models => 3,
            FieldSource::ProcessConfig => 2,
            FieldSource::Preset => 1,
            FieldSource::Absent => 0,
        }
    }

    fn is_live(self) -> (r: bool)
        ensures
            r == is_live_source(self),
    {
        match self {
            FieldSource::Props => true,
            FieldSource::Models => true,
            _ => false,
        }
    }
}

/// A text and where it came from.
#[derive(Debug)]
pub struct SourcedString {
    /// The text.
    pub value: Option<String>,
    /// Where it came from.
    pub source: FieldSource,
}

/// A 64-bit number and where it came from.
#[derive(Clone, Copy, Debug, PartialEq, Eq, Structural)]
pub struct SourcedU64 {
    /// The number.
    pub value: Option<u64>,
    /// Where it came from.
    pub source: FieldSource,
}

/// A 32-bit number and where it came from.
#[derive(Clone, Copy, Debug, PartialEq, Eq, Structural)]
pub struct SourcedU32 {
    /// The number.
    pub value: Option<u32>,
    /// Where it came from.
    pub source: FieldSource,
}

/// The characters of an optional text.
pub open spec fn opt_text(value: Option<String>) -> Option<Seq<char>> {
    match value {
        Some(t) => Some(t@),
        None => None,
    }
}

/// What a text with its source is.
pub struct SourcedText {
    /// The text.
    pub value: Option<Seq<char>>,
    /// Where it came from.
    pub source: FieldSource,
}

impl View for SourcedString {
    type V = SourcedText;

    open spec fn view(&self) -> SourcedText {
        SourcedText { value: opt_text(self.value), source: self.source }
    }
}

/// The model that the server runs.
#[derive(Debug)]
pub struct RunningModelInfo {
    /// Whether the server itself told of it.
    pub detected: bool,
    /// The source of highest priority that told anything.
    pub primary_source: FieldSource,
    /// The model's name.
    pub name: SourcedString,
    /// The model's identifier.
    pub model_id: SourcedString,
    /// The name of the model's file.
    pub gguf_file: SourcedString,
    /// The path of the model's file.
    pub model_path: SourcedString,
    /// The context size in use.
    pub context_size: SourcedU64,
    /// The context size that the model was trained with.
    pub native_context: SourcedU64,
    /// The number of slots.
    pub total_slots: SourcedU32,
    /// The quantisation.
    pub quant: SourcedString,
}

/// What is known of the model that the server runs.
pub struct RunningModel {
    /// Whether the server itself told of it.
    pub detected: bool,
    /// The source of highest priority that told anything.
    pub primary_source: FieldSource,
    /// The model's name.
    pub name: SourcedText,
    /// The model's identifier.
    pub model_id: SourcedText,
    /// The name of the model's file.
    pub gguf_file: SourcedText,
    /// The path of the model's file.
    pub model_path: SourcedText,
    /// The context size in use.
    pub context_size: SourcedU64,
    /// The context size that the model was trained with.
    pub native_context: SourcedU64,
    /// The number of slots.
    pub total_slots: SourcedU32,
    /// The quantisation.
    pub quant: SourcedText,
}

impl View for RunningModelInfo {
    type V = RunningModel;

    open spec fn view(&self) -> RunningModel {
        RunningModel {
            detected: self.detected,
            primary_source: self.primary_source,
            name: self.name@,
            model_id: self.model_id@,
            gguf_file: self.gguf_file@,
            model_path: self.model_path@,
            context_size: self.context_size,
            native_context: self.native_context,
            total_slots: self.total_slots,
            quant: self.quant@,
        }
    }
}

/// A text that no source has told.
pub open spec fn no_text() -> SourcedText {
    SourcedText { value: None, source: FieldSource::Absent }
}

/// A model of which nothing is known.
pub open spec fn unknown_model() -> RunningModel {
    RunningModel {
        detected: false,
        primary_source: FieldSource::Absent,
        name: no_text(),
        model_id: no_text(),
        gguf_file: no_text(),
        model_path: no_text(),
        context_size: SourcedU64 { value: None, source: FieldSource::Absent },
        native_context: SourcedU64 { value: None, source: FieldSource::Absent },
        total_slots: SourcedU32 { value: None, source: FieldSource::Absent },
        quant: no_text(),
    }
}

impl Default for SourcedString {
    fn default() -> (r: SourcedString)
        ensures
            r@ == no_text(),
    {
        SourcedString { value: None, source: FieldSource::Absent }
    }
}

impl Default for RunningModelInfo {
    fn default() -> (r: RunningModelInfo)
        ensures
            r@ == unknown_model(),
    {
        RunningModelInfo {
            detected: false,
            primary_source: FieldSource::Absent,
            name: SourcedString::default(),
            model_id: SourcedString::default(),
            gguf_file: SourcedString::default(),
            model_path: SourcedString::default(),
            context_size: SourcedU64 { value: None, source: FieldSource::Absent },
            native_context: SourcedU64 { value: None, source: FieldSource::Absent },
            total_slots: SourcedU32 { value: None, source: FieldSource::Absent },
            quant: SourcedString::default(),
        }
    }
}

/// An optional text that is not empty.
pub open spec fn filled(value: Option<Seq<char>>) -> Option<Seq<char>> {
    match value {
        Some(t) => if t.len() > 0 {
            Some(t)
        } else {
            None
        },
        None => None,
    }
}

/// The file name without its extension `.gguf`.
pub open spec fn file_stem(file: Seq<char>) -> Seq<char> {
    if has_suffix(file, ".gguf"@) {
        file.take(file.len() - ".gguf"@.len())
    } else {
        file
    }
}

/// What a model is called: its name, or else its identifier, or else its file name
/// without extension, the first of them that is not empty.
pub open spec fn shown_name(m: RunningModel) -> Option<Seq<char>> {
    if filled(m.name.value) is Some {
        filled(m.name.value)
    } else if filled(m.model_id.value) is Some {
        filled(m.model_id.value)
    } else {
        match m.gguf_file.value {
            Some(file) => filled(Some(file_stem(file))),
            None => None,
        }
    }
}

impl RunningModelInfo {
    /// Forgets the model.
    pub fn clear(&mut self)
        ensures
            final(self)@ == unknown_model(),
    {
        *self = RunningModelInfo::default();
    }

    /// What the model is called.
    pub fn display_name(&self) -> (r: Option<&str>)
        ensures
            match (r, shown_name(self@)) {
                (Some(t), Some(e)) => t@ == e,
                (None, None) => true,
                _ => false,
            },
    {
        if let Some(name) = &self.name.value {
            if !name_is_empty(name) {
                return Some(name.as_str());
            }
        }
        if let Some(id) = &self.model_id.value {
            if !name_is_empty(id) {
                return Some(id.as_str());
            }
        }
        match &self.gguf_file.value {
            Some(file) => {
                let stem = strip_gguf(file.as_str());
                if stem.unicode_len() > 0 {
                    Some(stem)
                } else {
                    None
                }
            },
            None => None,
        }
    }
}

fn name_is_empty(s: &String) -> (r: bool)
    ensures
        r == (s@.len() == 0),
{
    s.as_str().unicode_len() == 0
}

fn strip_gguf(file: &str) -> (r: &str)
    ensures
        r@ == file_stem(file@),
{
    let text = chars_of(file);
    let suffix = chars_of(".gguf");
    if ends_with(text.as_slice(), suffix.as_slice()) {
        let keep: usize = text.len() - suffix.len();
        assert(file@.subrange(0, keep as int) =~= file@.take(keep as int));
        file.substring_char(0, keep)
    } else {
        file
    }
}

/// What one endpoint of the server tells of its model.
#[derive(Debug)]
pub struct ModelDiscoveryPartial {
    /// The path of the model's file.
    pub model_path: Option<String>,
    /// The model's alias.
    pub model_alias: Option<String>,
    /// The model's identifier.
    pub model_id: Option<String>,
    /// The context size in use.
    pub context_size: Option<u64>,
    /// The context size that the model was trained with.
    pub native_context: Option<u64>,
    /// The number of slots.
    pub total_slots: Option<u32>,
}

/// What one endpoint of the server tells of its model.
pub struct Discovery {
    /// The path of the model's file.
    pub model_path: Option<Seq<char>>,
    /// The model's alias.
    pub model_alias: Option<Seq<char>>,
    /// The model's identifier.
    pub model_id: Option<Seq<char>>,
    /// The context size in use.
    pub context_size: Option<u64>,
    /// The context size that the model was trained with.
    pub native_context: Option<u64>,
    /// The number of slots.
    pub total_slots: Option<u32>,
}

impl View for ModelDiscoveryPartial {
    type V = Discovery;

    open spec fn view(&self) -> Discovery {
        Discovery {
            model_path: opt_text(self.model_path),
            model_alias: opt_text(self.model_alias),
            model_id: opt_text(self.model_id),
            context_size: self.context_size,
            native_context: self.native_context,
            total_slots: self.total_slots,
        }
    }
}

/// An endpoint that told nothing.
pub open spec fn no_discovery() -> Discovery {
    Discovery {
        model_path: None,
        model_alias: None,
        model_id: None,
        context_size: None,
        native_context: None,
        total_slots: None,
    }
}

impl Default for ModelDiscoveryPartial {
    fn default() -> (r: ModelDiscoveryPartial)
        ensures
            r@ == no_discovery(),
    {
        ModelDiscoveryPartial {
            model_path: None,
            model_alias: None,
            model_id: None,
            context_size: None,
            native_context: None,
            total_slots: None,
        }
    }
}

// ---------------------------------------------------------------------------
// Reading the endpoints
// ---------------------------------------------------------------------------
/// The whole number that a JSON number stands for: the integer part of a float, no
/// more than a machine word holds.
pub open spec fn numeral_whole(n: Numeral) -> Option<u64> {
    match n {
        Numeral::Unsigned(u) => Some(u),
        Numeral::Negative(_) => None,
        Numeral::Float(x) => if x.nan() || x.rank() < 0 {
            None
        } else if x.infinite() || x.whole() > u64::MAX {
            Some(u64::MAX)
        } else {
            Some(x.whole() as u64)
        },
    }
}

/// The whole number that the member `key` stands for.
pub open spec fn member_whole(value: JsonModel, key: Seq<char>) -> Option<u64> {
    match member(value, key) {
        Some(JsonModel::Number(n)) => numeral_whole(n),
        _ => None,
    }
}

/// The trimmed text of the member `key`, where it is not empty.
pub open spec fn trimmed_member(value: JsonModel, key: Seq<char>) -> Option<Seq<char>> {
    match member_text(value, key) {
        Some(t) => filled(Some(trimmed(t))),
        None => None,
    }
}

/// The low half of a machine word.
pub open spec fn low_half(n: u64) -> u32 {
    (n % 0x1_0000_0000) as u32
}

/// What the value of `/props` tells.
pub open spec fn props_of(v: JsonModel) -> Discovery {
    let settings = member(v, "default_generation_settings"@);
    let own_path = trimmed_member(v, "model_path"@);
    Discovery {
        model_path: match (own_path, settings) {
            (Some(path), _) => Some(path),
            (None, Some(s)) => trimmed_member(s, "model"@),
            (None, None) => None,
        },
        model_alias: if member_text(v, "model_alias"@) is Some {
            trimmed_member(v, "model_alias"@)
        } else {
            trimmed_member(v, "alias"@)
        },
        model_id: None,
        context_size: match settings {
            Some(s) => member_whole(s, "n_ctx"@),
            None => None,
        },
        native_context: None,
        total_slots: match member_whole(v, "total_slots"@) {
            Some(n) => Some(low_half(n)),
            None => None,
        },
    }
}

/// Whether an identifier looks like a path.
pub open spec fn looks_like_path(id: Seq<char>) -> bool {
    id.contains('/') || has_suffix(id, ".gguf"@)
}

/// What the value of `/v1/models` tells: what its first entry says.
pub open spec fn models_of(v: JsonModel) -> Discovery {
    match member(v, "data"@) {
        Some(JsonModel::Array(items)) => if items.len() == 0 {
            no_discovery()
        } else {
            let id = trimmed_member(items[0], "id"@);
            let meta = member(items[0], "meta"@);
            Discovery {
                model_path: match id {
                    Some(id) => if looks_like_path(id) {
                        Some(id)
                    } else {
                        None
                    },
                    None => None,
                },
                model_alias: None,
                model_id: id,
                context_size: match meta {
                    Some(m) => member_whole(m, "n_ctx"@),
                    None => None,
                },
                native_context: match meta {
                    Some(m) => member_whole(m, "n_ctx_train"@),
                    None => None,
                },
                total_slots: None,
            }
        },
        _ => no_discovery(),
    }
}

fn as_u64(v: &Json) -> (r: Option<u64>)
    ensures
        r == match v@ {
            JsonModel::Number(n) => numeral_whole(n),
            _ => None,
        },
{
    match v {
        Json::Number(n) => match n {
            Numeral::Unsigned(u) => Some(*u),
            Numeral::Negative(_) => None,
            Numeral::Float(x) => {
                let x: Binary64 = *x;
                if !Binary64::zero().up_to(x) {
                    None
                } else if !x.is_finite() {
                    Some(u64::MAX)
                } else {
                    match x.whole_u64() {
                        Some(n) => Some(n),
                        None => Some(u64::MAX),
                    }
                }
            },
        },
        _ => None,
    }
}

fn get_whole(v: &Json, key: &str) -> (r: Option<u64>)
    ensures
        r == member_whole(v@, key@),
{
    match v.get(key) {
        Some(found) => as_u64(found),
        None => None,
    }
}

fn get_trimmed(v: &Json, key: &str) -> (r: Option<String>)
    ensures
        opt_text(r) == trimmed_member(v@, key@),
{
    match v.get_text(key) {
        Some(t) => {
            let text = chars_of(t);
            let kept = trim(text.as_slice());
            if kept.len() > 0 {
                Some(text_of(kept))
            } else {
                None
            }
        },
        None => None,
    }
}

/// What the value of `/props` tells.
pub fn props_from_json(v: &Json) -> (r: ModelDiscoveryPartial)
    ensures
        r@ == props_of(v@),
{
    let mut partial = ModelDiscoveryPartial::default();
    partial.model_path = get_trimmed(v, "model_path");
    partial.model_alias = if v.get_text("model_alias").is_some() {
        get_trimmed(v, "model_alias")
    } else {
        get_trimmed(v, "alias")
    };
    if let Some(n) = get_whole(v, "total_slots") {
        partial.total_slots = Some((n % 0x1_0000_0000) as u32);
    }
    if let Some(settings) = v.get("default_generation_settings") {
        partial.context_size = get_whole(settings, "n_ctx");
        if partial.model_path.is_none() {
            partial.model_path = get_trimmed(settings, "model");
        }
    }
    partial
}

fn has_slash(id: &[char]) -> (r: bool)
    ensures
        r == id@.contains('/'),
{
    let mut i: usize = 0;
    while i < id.len()
        invariant
            i <= id@.len(),
            forall|j: int| 0 <= j < i ==> id@[j] != '/',
        decreases id@.len() - i,
    {
        if id[i] == '/' {
            return true;
        }
        i = i + 1;
    }
    false
}

fn is_path_like(id: &str) -> (r: bool)
    ensures
        r == looks_like_path(id@),
{
    let text = chars_of(id);
    let suffix = chars_of(".gguf");
    has_slash(text.as_slice()) || ends_with(text.as_slice(), suffix.as_slice())
}

/// What the value of `/v1/models` tells.
pub fn models_from_json(v: &Json) -> (r: ModelDiscoveryPartial)
    ensures
        r@ == models_of(v@),
{
    let mut partial = ModelDiscoveryPartial::default();
    let first = match v.get("data") {
        Some(data) => match data.first_item() {
            Some(first) => first,
            None => return partial,
        },
        None => return partial,
    };
    if let Some(id) = get_trimmed(first, "id") {
        if is_path_like(id.as_str()) {
            partial.model_path = Some(id.as_str().to_owned());
        }
        partial.model_id = Some(id);
    }
    if let Some(meta) = first.get("meta") {
        partial.native_context = get_whole(meta, "n_ctx_train");
        partial.context_size = get_whole(meta, "n_ctx");
    }
    partial
}

/// The message for a body of `/props` that is no object.
pub open spec fn not_an_object(endpoint: Seq<char>) -> Seq<char> {
    "invalid "@ + endpoint + " JSON: expected object"@
}

/// The message for a body that is no JSON.
pub open spec fn not_json(endpoint: Seq<char>, message: Seq<char>) -> Seq<char> {
    "invalid "@ + endpoint + " JSON: "@ + message
}

fn object_body(endpoint: &str, body: &str) -> (r: Result<Json, String>)
    ensures
        match (r, parsed_json(body@)) {
            (Ok(v), Ok(model)) => v@ == model && model is Object,
            (Err(e), Ok(model)) => !(model is Object) && e@ == not_an_object(endpoint@),
            (Err(e), Err(message)) => e@ == not_json(endpoint@, message),
            (Ok(_), Err(_)) => false,
        },
{
    let prefix = "invalid ".to_owned().concat(endpoint);
    match read_json(body) {
        Ok(v) => if v.is_object() {
            Ok(v)
        } else {
            Err(prefix.concat(" JSON: expected object"))
        },
        Err(message) => Err(prefix.concat(" JSON: ").concat(message.as_str())),
    }
}

/// Parses the body of `/props`; unknown members are ignored.
pub fn parse_props_json(body: &str) -> (r: Result<ModelDiscoveryPartial, String>)
    ensures
        match (r, parsed_json(body@)) {
            (Ok(p), Ok(model)) => model is Object && p@ == props_of(model),
            (Err(e), Ok(model)) => !(model is Object) && e@ == not_an_object("/props"@),
            (Err(e), Err(message)) => e@ == not_json("/props"@, message),
            (Ok(_), Err(_)) => false,
        },
{
    match object_body("/props", body) {
        Ok(v) => Ok(props_from_json(&v)),
        Err(e) => Err(e),
    }
}

/// Parses the body of `/v1/models`, a list of models.
pub fn parse_v1_models_json(body: &str) -> (r: Result<ModelDiscoveryPartial, String>)
    ensures
        match (r, parsed_json(body@)) {
            (Ok(p), Ok(model)) => model is Object && p@ == models_of(model),
            (Err(e), Ok(model)) => !(model is Object) && e@ == not_an_object("/v1/models"@),
            (Err(e), Err(message)) => e@ == not_json("/v1/models"@, message),
            (Ok(_), Err(_)) => false,
        },
{
    match object_body("/v1/models", body) {
        Ok(v) => Ok(models_from_json(&v)),
        Err(e) => Err(e),
    }
}

// ---------------------------------------------------------------------------
// Merging
// ---------------------------------------------------------------------------
/// What the monitor knows of a server process that it started.
#[derive(Debug)]
pub struct ServerConfig {
    /// The path of the model's file.
    pub model_path: String,
    /// The context size, zero where it was left to the server.
    pub context_size: u64,
    /// The number of slots, zero where it was left to the server.
    pub parallel_slots: u32,
    /// The port on which the server listens.
    pub port: u16,
}

/// A field once a source of the given priority offers a text: an empty text is no
/// offer, and a value from a source of the same or a higher priority stays.
pub open spec fn text_set(
    field: SourcedText,
    value: Option<Seq<char>>,
    source: FieldSource,
) -> SourcedText {
    if filled(value) is None || (field.value is Some && source_rank(field.source) >= source_rank(
        source,
    )) {
        field
    } else {
        SourcedText { value, source }
    }
}

/// A field once a source of the given priority offers a number.
pub open spec fn u64_set(field: SourcedU64, value: Option<u64>, source: FieldSource) -> SourcedU64 {
    if value is None || (field.value is Some && source_rank(field.source) >= source_rank(source)) {
        field
    } else {
        SourcedU64 { value, source }
    }
}

/// A field once a source of the given priority offers a number.
pub open spec fn u32_set(field: SourcedU32, value: Option<u32>, source: FieldSource) -> SourcedU32 {
    if value is None || (field.value is Some && source_rank(field.source) >= source_rank(source)) {
        field
    } else {
        SourcedU32 { value, source }
    }
}

/// Whether an endpoint told anything.
pub open spec fn tells(p: Discovery) -> bool {
    p.model_path is Some || p.model_alias is Some || p.model_id is Some || p.context_size is Some
        || p.native_context is Some || p.total_slots is Some
}

/// The model once an endpoint has told of it.
pub open spec fn told(m: RunningModel, p: Discovery, source: FieldSource) -> RunningModel {
    RunningModel {
        model_path: text_set(m.model_path, p.model_path, source),
        model_id: text_set(m.model_id, p.model_id, source),
        name: text_set(m.name, p.model_alias, source),
        context_size: u64_set(m.context_size, p.context_size, source),
        native_context: u64_set(m.native_context, p.native_context, source),
        total_slots: u32_set(m.total_slots, p.total_slots, source),
        primary_source: if source_rank(source) > source_rank(m.primary_source) && tells(p) {
            source
        } else {
            m.primary_source
        },
        ..m
    }
}

/// The model once an endpoint has told of it, where it has.
pub open spec fn told_by(m: RunningModel, p: Option<Discovery>, source: FieldSource) -> RunningModel {
    match p {
        Some(p) => told(m, p, source),
        None => m,
    }
}

/// The model once the configuration of its process has filled gaps.
pub open spec fn with_process(m: RunningModel, cfg: Option<ServerConfig>) -> RunningModel {
    match cfg {
        Some(cfg) => RunningModel {
            model_path: text_set(m.model_path, Some(cfg.model_path@), FieldSource::ProcessConfig),
            context_size: if cfg.context_size > 0 {
                u64_set(m.context_size, Some(cfg.context_size), FieldSource::ProcessConfig)
            } else {
                m.context_size
            },
            total_slots: if cfg.parallel_slots > 0 {
                u32_set(m.total_slots, Some(cfg.parallel_slots), FieldSource::ProcessConfig)
            } else {
                m.total_slots
            },
            ..m
        },
        None => m,
    }
}

/// The model once the preset has filled gaps.
pub open spec fn with_preset(
    m: RunningModel,
    name: Option<Seq<char>>,
    path: Option<Seq<char>>,
    context: Option<u64>,
) -> RunningModel {
    RunningModel {
        model_path: text_set(m.model_path, path, FieldSource::Preset),
        name: text_set(m.name, name, FieldSource::Preset),
        context_size: if context == Some(0u64) {
            m.context_size
        } else {
            u64_set(m.context_size, context, FieldSource::Preset)
        },
        ..m
    }
}

/// A character that separates the parts of a path.
pub open spec fn is_path_separator(c: char) -> bool {
    c == '/' || c == '\\'
}

/// What follows the last separator of a path.
pub open spec fn last_segment(path: Seq<char>) -> Seq<char>
    decreases path.len(),
{
    if path.len() == 0 || is_path_separator(path.last()) {
        Seq::empty()
    } else {
        last_segment(path.drop_last()).push(path.last())
    }
}

/// The file name that is taken apart for a name and a quantisation: that of the
/// path, where it ends in `.gguf`.
pub open spec fn path_file(m: RunningModel) -> Option<Seq<char>> {
    match m.model_path.value {
        Some(path) => if has_suffix(last_segment(path), ".gguf"@) {
            Some(last_segment(path))
        } else {
            None
        },
        None => None,
    }
}

/// The model with what its path tells, when `parts` are the name and quantisation
/// in its file name. The path's source vouches for them: a name from a source of a
/// lower priority gives way.
pub open spec fn with_path(
    m: RunningModel,
    parts: (Option<Seq<char>>, Option<Seq<char>>),
) -> RunningModel {
    match m.model_path.value {
        Some(path) => {
            let file = last_segment(path);
            let source = m.model_path.source;
            if has_suffix(file, ".gguf"@) {
                RunningModel {
                    gguf_file: text_set(m.gguf_file, Some(file), source),
                    name: text_set(m.name, parts.0, source),
                    quant: text_set(m.quant, parts.1, source),
                    ..m
                }
            } else if m.gguf_file.value is None {
                RunningModel { gguf_file: text_set(m.gguf_file, Some(file), source), ..m }
            } else {
                m
            }
        },
        None => m,
    }
}

/// The file name that is made of the identifier and taken apart for a name and a
/// quantisation, where the identifier does not look like a path.
pub open spec fn id_file(m: RunningModel) -> Option<Seq<char>> {
    match m.model_id.value {
        Some(id) => if looks_like_path(id) {
            None
        } else {
            Some(id + ".gguf"@)
        },
        None => None,
    }
}

/// The model with what its identifier tells, when `parts` are the name and
/// quantisation in it. The identifier is a name itself, and like its parts it has
/// the priority of the source that told it.
pub open spec fn with_id(
    m: RunningModel,
    parts: (Option<Seq<char>>, Option<Seq<char>>),
) -> RunningModel {
    if id_file(m) is None {
        m
    } else {
        let source = m.model_id.source;
        RunningModel {
            name: text_set(text_set(m.name, m.model_id.value, source), parts.0, source),
            quant: text_set(m.quant, parts.1, source),
            ..m
        }
    }
}

/// The source of higher priority, the first of two of the same.
pub open spec fn higher(a: FieldSource, b: FieldSource) -> FieldSource {
    if source_rank(b) > source_rank(a) {
        b
    } else {
        a
    }
}

/// The model once its primary source and its detection are settled: it is detected
/// where the server itself told anything.
pub open spec fn finished(m: RunningModel, detected: bool) -> RunningModel {
    RunningModel {
        detected,
        primary_source: if m.primary_source == FieldSource::Absent {
            higher(
                higher(higher(m.model_path.source, m.name.source), m.model_id.source),
                m.context_size.source,
            )
        } else {
            m.primary_source
        },
        ..m
    }
}

/// What all sources together tell directly.
pub open spec fn gathered(
    props: Option<Discovery>,
    models: Option<Discovery>,
    process: Option<ServerConfig>,
    preset_name: Option<Seq<char>>,
    preset_path: Option<Seq<char>>,
    preset_context: Option<u64>,
) -> RunningModel {
    let live = told_by(
        told_by(unknown_model(), props, FieldSource::Props),
        models,
        FieldSource::Models,
    );
    with_preset(with_process(live, process), preset_name, preset_path, preset_context)
}

/// Whether the server itself told anything.
pub open spec fn server_told(props: Option<Discovery>, models: Option<Discovery>) -> bool {
    (props is Some && tells(props->0)) || (models is Some && tells(models->0))
}

/// The characters of two optional texts.
pub open spec fn opt_texts(parts: (Option<String>, Option<String>)) -> (
    Option<Seq<char>>,
    Option<Seq<char>>,
) {
    (opt_text(parts.0), opt_text(parts.1))
}

/// What an optional discovery is.
pub open spec fn opt_discovery(p: Option<&ModelDiscoveryPartial>) -> Option<Discovery> {
    match p {
        Some(p) => Some(p@),
        None => None,
    }
}

/// The characters of an optional text.
pub open spec fn opt_str(t: Option<&str>) -> Option<Seq<char>> {
    match t {
        Some(t) => Some(t@),
        None => None,
    }
}

/// What an optional configuration is.
pub open spec fn opt_config(c: Option<&ServerConfig>) -> Option<ServerConfig> {
    match c {
        Some(c) => Some(*c),
        None => None,
    }
}

/// That `parts` may come of taking `file` apart by `split`, where there is a file.
pub open spec fn split_gives<F: Fn(&str) -> (Option<String>, Option<String>)>(
    split: F,
    file: Option<Seq<char>>,
    parts: (Option<String>, Option<String>),
) -> bool {
    file is Some ==> exists|t: &str|
        t@ == file->0 && #[trigger] call_ensures(split, (t,), parts)
}

/// That a model may come of merging the sources when file names are taken apart by
/// `split`.
pub open spec fn merges_to<F: Fn(&str) -> (Option<String>, Option<String>)>(
    base: RunningModel,
    detected: bool,
    split: F,
    result: RunningModel,
) -> bool {
    exists|a: (Option<String>, Option<String>), b: (Option<String>, Option<String>)|
        #![trigger opt_texts(a), opt_texts(b)]
        {
            let placed = with_path(base, opt_texts(a));
            &&& split_gives(split, path_file(base), a)
            &&& split_gives(split, id_file(placed), b)
            &&& result == finished(with_id(placed, opt_texts(b)), detected)
        }
}

fn set_string(field: &mut SourcedString, value: Option<String>, source: FieldSource)
    ensures
        final(field)@ == text_set(old(field)@, opt_text(value), source),
{
    if let Some(text) = value {
        if name_is_empty(&text) {
            return;
        }
        if field.value.is_some() && field.source.rank() >= source.rank() {
            return;
        }
        field.value = Some(text);
        field.source = source;
    }
}

fn set_u64(field: &mut SourcedU64, value: Option<u64>, source: FieldSource)
    ensures
        *final(field) == u64_set(*old(field), value, source),
{
    if value.is_none() {
        return;
    }
    if field.value.is_some() && field.source.rank() >= source.rank() {
        return;
    }
    field.value = value;
    field.source = source;
}

fn set_u32(field: &mut SourcedU32, value: Option<u32>, source: FieldSource)
    ensures
        *final(field) == u32_set(*old(field), value, source),
{
    if value.is_none() {
        return;
    }
    if field.value.is_some() && field.source.rank() >= source.rank() {
        return;
    }
    field.value = value;
    field.source = source;
}

fn copy_text(value: &Option<String>) -> (r: Option<String>)
    ensures
        opt_text(r) == opt_text(*value),
{
    match value {
        Some(t) => Some(t.as_str().to_owned()),
        None => None,
    }
}

fn tells_anything(partial: &ModelDiscoveryPartial) -> (r: bool)
    ensures
        r == tells(partial@),
{
    partial.model_path.is_some() || partial.model_alias.is_some() || partial.model_id.is_some()
        || partial.context_size.is_some() || partial.native_context.is_some()
        || partial.total_slots.is_some()
}

fn apply_partial(info: &mut RunningModelInfo, partial: &ModelDiscoveryPartial, source: FieldSource)
    ensures
        final(info)@ == told(old(info)@, partial@, source),
{
    set_string(&mut info.model_path, copy_text(&partial.model_path), source);
    set_string(&mut info.model_id, copy_text(&partial.model_id), source);
    set_string(&mut info.name, copy_text(&partial.model_alias), source);
    set_u64(&mut info.context_size, partial.context_size, source);
    set_u64(&mut info.native_context, partial.native_context, source);
    set_u32(&mut info.total_slots, partial.total_slots, source);
    if source.rank() > info.primary_source.rank() && tells_anything(partial) {
        info.primary_source = source;
    }
}

proof fn lemma_last_segment(path: Seq<char>, start: int, end: int)
    requires
        0 <= start <= end <= path.len(),
        forall|j: int| start <= j < end ==> !is_path_separator(#[trigger] path[j]),
        start > 0 ==> is_path_separator(path[start - 1]),
    ensures
        last_segment(path.take(end)) == path.subrange(start, end),
    decreases end - start,
{
    let t = path.take(end);
    if start < end {
        assert(t.last() == path[end - 1]);
        assert(t.drop_last() =~= path.take(end - 1));
        lemma_last_segment(path, start, end - 1);
        assert(path.subrange(start, end) =~= path.subrange(start, end - 1).push(path[end - 1]));
    } else {
        assert(path.subrange(start, end) =~= Seq::<char>::empty());
        if end > 0 {
            assert(t.last() == path[end - 1]);
        }
    }
}

fn file_name(path: &str) -> (r: String)
    ensures
        r@ == last_segment(path@),
{
    let text = chars_of(path);
    let n: usize = text.len();
    let mut start: usize = n;
    while start > 0 && text[start - 1] != '/' && text[start - 1] != '\\'
        invariant
            n == text@.len(),
            start <= n,
            forall|j: int| start <= j < n ==> !is_path_separator(#[trigger] text@[j]),
        decreases start,
    {
        start = start - 1;
    }
    proof {
        lemma_last_segment(text@, start as int, n as int);
        assert(text@.take(n as int) =~= text@);
        assert(text@.skip(start as int) =~= text@.subrange(start as int, n as int));
    }
    text_of(rest_from(text.as_slice(), start))
}

fn is_gguf(file: &str) -> (r: bool)
    ensures
        r == has_suffix(file@, ".gguf"@),
{
    let text = chars_of(file);
    let suffix = chars_of(".gguf");
    ends_with(text.as_slice(), suffix.as_slice())
}

fn derive_from_path<F: Fn(&str) -> (Option<String>, Option<String>)>(
    info: &mut RunningModelInfo,
    split: &F,
)
    requires
        forall|t: &str| call_requires(*split, (t,)),
    ensures
        exists|a: (Option<String>, Option<String>)|
            split_gives(*split, path_file(old(info)@), a) && final(info)@ == with_path(
                old(info)@,
                #[trigger] opt_texts(a),
            ),
{
    let path = match copy_text(&info.model_path.value) {
        Some(path) => path,
        None => {
            proof {
                let nothing: (Option<String>, Option<String>) = (None, None);
                assert(info@ == with_path(old(info)@, opt_texts(nothing)));
            }
            return;
        },
    };
    let source = info.model_path.source;
    let file = file_name(path.as_str());
    if is_gguf(file.as_str()) {
        let parts = split(file.as_str());
        let ghost told_parts = parts;
        let (model_name, quant) = parts;
        set_string(&mut info.gguf_file, Some(file), source);
        set_string(&mut info.name, model_name, source);
        set_string(&mut info.quant, quant, source);
        assert(info@ == with_path(old(info)@, opt_texts(told_parts)));
    } else {
        if info.gguf_file.value.is_none() {
            set_string(&mut info.gguf_file, Some(file), source);
        }
        proof {
            let nothing: (Option<String>, Option<String>) = (None, None);
            assert(info@ == with_path(old(info)@, opt_texts(nothing)));
        }
    }
}

fn derive_from_id<F: Fn(&str) -> (Option<String>, Option<String>)>(
    info: &mut RunningModelInfo,
    split: &F,
)
    requires
        forall|t: &str| call_requires(*split, (t,)),
    ensures
        exists|b: (Option<String>, Option<String>)|
            split_gives(*split, id_file(old(info)@), b) && final(info)@ == with_id(
                old(info)@,
                #[trigger] opt_texts(b),
            ),
{
    let id = match copy_text(&info.model_id.value) {
        Some(id) => id,
        None => {
            proof {
                let nothing: (Option<String>, Option<String>) = (None, None);
                assert(info@ == with_id(old(info)@, opt_texts(nothing)));
            }
            return;
        },
    };
    if is_path_like(id.as_str()) {
        proof {
            let nothing: (Option<String>, Option<String>) = (None, None);
            assert(info@ == with_id(old(info)@, opt_texts(nothing)));
        }
        return;
    }
    let source = info.model_id.source;
    let file = id.as_str().to_owned().concat(".gguf");
    set_string(&mut info.name, Some(id), source);
    let parts = split(file.as_str());
    let ghost told_parts = parts;
    let (model_name, quant) = parts;
    set_string(&mut info.name, model_name, source);
    set_string(&mut info.quant, quant, source);
    assert(info@ == with_id(old(info)@, opt_texts(told_parts)));
}

fn rank_higher(a: FieldSource, b: FieldSource) -> (r: FieldSource)
    ensures
        r == higher(a, b),
{
    if b.rank() > a.rank() {
        b
    } else {
        a
    }
}

fn apply_process(info: &mut RunningModelInfo, process: Option<&ServerConfig>)
    ensures
        final(info)@ == with_process(old(info)@, opt_config(process)),
{
    if let Some(cfg) = process {
        set_string(
            &mut info.model_path,
            Some(cfg.model_path.as_str().to_owned()),
            FieldSource::ProcessConfig,
        );
        if cfg.context_size > 0 {
            set_u64(&mut info.context_size, Some(cfg.context_size), FieldSource::ProcessConfig);
        }
        if cfg.parallel_slots > 0 {
            set_u32(&mut info.total_slots, Some(cfg.parallel_slots), FieldSource::ProcessConfig);
        }
    }
}

fn copy_str(value: Option<&str>) -> (r: Option<String>)
    ensures
        opt_text(r) == opt_str(value),
{
    match value {
        Some(t) => Some(t.to_owned()),
        None => None,
    }
}

fn apply_preset(
    info: &mut RunningModelInfo,
    name: Option<&str>,
    path: Option<&str>,
    context: Option<u64>,
)
    ensures
        final(info)@ == with_preset(old(info)@, opt_str(name), opt_str(path), context),
{
    set_string(&mut info.model_path, copy_str(path), FieldSource::Preset);
    set_string(&mut info.name, copy_str(name), FieldSource::Preset);
    let unset: bool = match context {
        Some(n) => n == 0,
        None => true,
    };
    if !unset {
        set_u64(&mut info.context_size, context, FieldSource::Preset);
    }
}

fn finish(info: &mut RunningModelInfo, detected: bool)
    ensures
        final(info)@ == finished(old(info)@, detected),
{
    info.detected = detected;
    if info.primary_source == FieldSource::Absent {
        let first = rank_higher(info.model_path.source, info.name.source);
        let second = rank_higher(first, info.model_id.source);
        info.primary_source = rank_higher(second, info.context_size.source);
    }
}

fn apply_endpoint(
    info: &mut RunningModelInfo,
    partial: Option<&ModelDiscoveryPartial>,
    source: FieldSource,
) -> (r: bool)
    ensures
        final(info)@ == told_by(old(info)@, opt_discovery(partial), source),
        r == (partial is Some && tells(opt_discovery(partial)->0)),
{
    match partial {
        Some(p) => {
            apply_partial(info, p, source);
            tells_anything(p)
        },
        None => false,
    }
}

/// Merges what all sources tell, with fixed priority: the server's `/props`, then
/// its `/v1/models`, then the configuration of its process, then the preset.
/// `split` takes a file name apart into a model name and a quantisation.
pub fn merge_running_model<F: Fn(&str) -> (Option<String>, Option<String>)>(
    props: Option<&ModelDiscoveryPartial>,
    models: Option<&ModelDiscoveryPartial>,
    process: Option<&ServerConfig>,
    preset_name: Option<&str>,
    preset_model_path: Option<&str>,
    preset_context: Option<u64>,
    split: F,
) -> (r: RunningModelInfo)
    requires
        forall|t: &str| call_requires(split, (t,)),
    ensures
        merges_to(
            gathered(
                opt_discovery(props),
                opt_discovery(models),
                opt_config(process),
                opt_str(preset_name),
                opt_str(preset_model_path),
                preset_context,
            ),
            server_told(opt_discovery(props), opt_discovery(models)),
            split,
            r@,
        ),
{
    let mut info = RunningModelInfo::default();
    let by_props: bool = apply_endpoint(&mut info, props, FieldSource::Props);
    let by_models: bool = apply_endpoint(&mut info, models, FieldSource::Models);
    apply_process(&mut info, process);
    apply_preset(&mut info, preset_name, preset_model_path, preset_context);
    let ghost base = info@;
    derive_from_path(&mut info, &split);
    let ghost a = choose|a: (Option<String>, Option<String>)|
        split_gives(split, path_file(base), a) && info@ == with_path(base, #[trigger] opt_texts(a));
    let ghost placed = info@;
    derive_from_id(&mut info, &split);
    let ghost b = choose|b: (Option<String>, Option<String>)|
        split_gives(split, id_file(placed), b) && info@ == with_id(placed, #[trigger] opt_texts(b));
    finish(&mut info, by_props || by_models);
    assert(opt_texts(a) == opt_texts(a) && opt_texts(b) == opt_texts(b));
    info
}

// ---------------------------------------------------------------------------
// Health
// ---------------------------------------------------------------------------
/// Keeps what is known of a server through a few failed health checks.
#[derive(Clone, Copy, Debug, PartialEq, Eq, Structural)]
pub struct HealthStickiness {
    /// Failed checks in a row.
    pub consecutive_failures: u32,
    /// How many of them are too many.
    pub threshold: u32,
}

/// The tracker after a health check.
pub open spec fn checked(h: HealthStickiness, ok: bool) -> HealthStickiness {
    HealthStickiness {
        consecutive_failures: if ok {
            0
        } else if h.consecutive_failures == u32::MAX {
            u32::MAX
        } else {
            (h.consecutive_failures + 1) as u32
        },
        ..h
    }
}

/// Whether a health check gives the server up.
pub open spec fn gives_up(h: HealthStickiness, ok: bool) -> bool {
    !ok && checked(h, ok).consecutive_failures >= h.threshold
}

/// The tracker after some health checks.
pub open spec fn checked_all(h: HealthStickiness, results: Seq<bool>) -> HealthStickiness
    decreases results.len(),
{
    if results.len() == 0 {
        h
    } else {
        checked(checked_all(h, results.drop_last()), results.last())
    }
}

impl HealthStickiness {
    /// A tracker that gives a server up after `threshold` failures in a row, at
    /// least one.
    pub fn new(threshold: u32) -> (r: HealthStickiness)
        ensures
            r.consecutive_failures == 0,
            r.threshold == if threshold == 0 {
                1
            } else {
                threshold
            },
    {
        HealthStickiness {
            consecutive_failures: 0,
            threshold: if threshold == 0 {
                1
            } else {
                threshold
            },
        }
    }

    /// Takes in a health check, and says whether the server is to be given up.
    pub fn on_health_result(&mut self, ok: bool) -> (r: bool)
        ensures
            *final(self) == checked(*old(self), ok),
            r == gives_up(*old(self), ok),
    {
        if ok {
            self.consecutive_failures = 0;
            false
        } else {
            self.consecutive_failures = self.consecutive_failures.saturating_add(1);
            self.consecutive_failures >= self.threshold
        }
    }
}

// ---------------------------------------------------------------------------
// Laws
// ---------------------------------------------------------------------------
/// A text from a source is never replaced by one from a source of the same or a
/// lower priority.
pub proof fn law_priority(
    field: SourcedText,
    value: Option<Seq<char>>,
    source: FieldSource,
)
    requires
        field.value is Some,
        source_rank(source) <= source_rank(field.source),
    ensures
        text_set(field, value, source) == field,
{
}

/// What `/props` tells stands, whatever the other sources tell.
pub proof fn law_props_come_first(
    props: Discovery,
    models: Option<Discovery>,
    process: Option<ServerConfig>,
    preset_name: Option<Seq<char>>,
    preset_path: Option<Seq<char>>,
    preset_context: Option<u64>,
)
    ensures
        ({
            let m = gathered(
                Some(props),
                models,
                process,
                preset_name,
                preset_path,
                preset_context,
            );
            &&& filled(props.model_path) is Some ==> m.model_path.value == props.model_path
            &&& filled(props.model_alias) is Some ==> m.name.value == props.model_alias
            &&& props.context_size is Some ==> m.context_size.value == props.context_size
            &&& props.total_slots is Some ==> m.total_slots.value == props.total_slots
        }),
{
}

/// The preset fills gaps alone: a path, a name or a context size that the other
/// sources tell or that follows from a path or an identifier of theirs is the same
/// with the preset as without it. `path_parts` and `id_parts` are what the file names
/// taken from the path and from the identifier come apart into.
pub proof fn law_preset_fills_gaps(
    props: Option<Discovery>,
    models: Option<Discovery>,
    process: Option<ServerConfig>,
    preset_name: Option<Seq<char>>,
    preset_path: Option<Seq<char>>,
    preset_context: Option<u64>,
    path_parts: (Option<Seq<char>>, Option<Seq<char>>),
    id_parts: (Option<Seq<char>>, Option<Seq<char>>),
)
    ensures
        ({
            let bare = gathered(props, models, process, None, None, None);
            let base = gathered(
                props,
                models,
                process,
                preset_name,
                preset_path,
                preset_context,
            );
            let without = with_id(with_path(bare, path_parts), id_parts);
            let merged = with_id(with_path(base, path_parts), id_parts);
            &&& without.name.value is Some ==> merged.name == without.name
            &&& without.model_path.value is Some ==> merged.model_path == without.model_path
                && merged.gguf_file == without.gguf_file
            &&& without.quant.value is Some ==> merged.quant == without.quant
            &&& without.context_size.value is Some ==> merged.context_size == without.context_size
            &&& merged.model_id == without.model_id
            &&& merged.native_context == without.native_context
            &&& merged.total_slots == without.total_slots
        }),
{
    lemma_no_preset_sources(props, models, process);
}

/// Whether no field that is known came from the preset.
pub open spec fn is_without_preset(m: RunningModel) -> bool {
    &&& m.model_path.value is Some ==> source_rank(m.model_path.source) >= 2
    &&& m.model_id.value is Some ==> source_rank(m.model_id.source) >= 2
    &&& m.name.value is Some ==> source_rank(m.name.source) >= 2
    &&& m.context_size.value is Some ==> source_rank(m.context_size.source) >= 2
    &&& m.gguf_file.value is None
    &&& m.quant.value is None
}

proof fn lemma_no_preset_sources(
    props: Option<Discovery>,
    models: Option<Discovery>,
    process: Option<ServerConfig>,
)
    ensures
        is_without_preset(gathered(props, models, process, None, None, None)),
{
    let first = told_by(unknown_model(), props, FieldSource::Props);
    assert(is_without_preset(first));
    let second = told_by(first, models, FieldSource::Models);
    assert(is_without_preset(second));
    assert(is_without_preset(with_process(second, process)));
}

/// A name of the server's own is shown before the preset's: where `/v1/models` gives
/// an identifier that is no path, the name is not the preset's.
pub proof fn law_server_names_the_model(
    props: Option<Discovery>,
    models: Option<Discovery>,
    process: Option<ServerConfig>,
    preset_name: Option<Seq<char>>,
    preset_path: Option<Seq<char>>,
    preset_context: Option<u64>,
    path_parts: (Option<Seq<char>>, Option<Seq<char>>),
    id_parts: (Option<Seq<char>>, Option<Seq<char>>),
)
    requires
        models is Some,
        filled(models->0.model_id) is Some,
        !looks_like_path(models->0.model_id->0),
        props is None,
    ensures
        ({
            let base = gathered(
                props,
                models,
                process,
                preset_name,
                preset_path,
                preset_context,
            );
            let merged = with_id(with_path(base, path_parts), id_parts);
            &&& merged.name.value is Some
            &&& merged.name.source == FieldSource::Models
            &&& filled(models->0.model_alias) is None && filled(models->0.model_path) is None
                ==> merged.name.value == models->0.model_id
        }),
{
}

/// A model is detected exactly where the server itself told of it, and then its
/// primary source is the server.
pub proof fn law_detected_is_live<F: Fn(&str) -> (Option<String>, Option<String>)>(
    props: Option<Discovery>,
    models: Option<Discovery>,
    process: Option<ServerConfig>,
    preset_name: Option<Seq<char>>,
    preset_path: Option<Seq<char>>,
    preset_context: Option<u64>,
    split: F,
    result: RunningModel,
)
    requires
        merges_to(
            gathered(props, models, process, preset_name, preset_path, preset_context),
            server_told(props, models),
            split,
            result,
        ),
    ensures
        result.detected == server_told(props, models),
        is_live_source(result.primary_source) == server_told(props, models),
{
    let base = gathered(props, models, process, preset_name, preset_path, preset_context);
    lemma_gathered_sources(props, models, process, preset_name, preset_path, preset_context);
    let (a, b) = choose|a: (Option<String>, Option<String>), b: (Option<String>, Option<String>)|
        #![trigger opt_texts(a), opt_texts(b)]
        {
            let placed = with_path(base, opt_texts(a));
            &&& split_gives(split, path_file(base), a)
            &&& split_gives(split, id_file(placed), b)
            &&& result == finished(with_id(placed, opt_texts(b)), server_told(props, models))
        };
    lemma_path_sources(base, opt_texts(a));
    lemma_id_sources(with_path(base, opt_texts(a)), opt_texts(b));
}

/// Whether nothing that is known of a model came from the server.
pub open spec fn is_second_hand(m: RunningModel) -> bool {
    &&& m.primary_source == FieldSource::Absent
    &&& !is_live_source(m.model_path.source)
    &&& !is_live_source(m.name.source)
    &&& !is_live_source(m.model_id.source)
    &&& !is_live_source(m.context_size.source)
}

proof fn lemma_told_sources(m: RunningModel, p: Option<Discovery>, source: FieldSource)
    requires
        is_live_source(source),
        is_second_hand(m) || is_live_source(m.primary_source),
    ensures
        ({
            let after = told_by(m, p, source);
            let tells_now = p is Some && tells(p->0);
            &&& is_live_source(m.primary_source) || tells_now ==> is_live_source(
                after.primary_source,
            )
            &&& is_second_hand(m) && !tells_now ==> is_second_hand(after)
        }),
{
}

proof fn lemma_gathered_sources(
    props: Option<Discovery>,
    models: Option<Discovery>,
    process: Option<ServerConfig>,
    preset_name: Option<Seq<char>>,
    preset_path: Option<Seq<char>>,
    preset_context: Option<u64>,
)
    ensures
        ({
            let base = gathered(props, models, process, preset_name, preset_path, preset_context);
            if server_told(props, models) {
                is_live_source(base.primary_source)
            } else {
                is_second_hand(base)
            }
        }),
{
    let first = told_by(unknown_model(), props, FieldSource::Props);
    lemma_told_sources(unknown_model(), props, FieldSource::Props);
    lemma_told_sources(first, models, FieldSource::Models);
}

proof fn lemma_path_sources(m: RunningModel, parts: (Option<Seq<char>>, Option<Seq<char>>))
    ensures
        with_path(m, parts).primary_source == m.primary_source,
        is_second_hand(m) ==> is_second_hand(with_path(m, parts)),
{
}

proof fn lemma_id_sources(m: RunningModel, parts: (Option<Seq<char>>, Option<Seq<char>>))
    ensures
        with_id(m, parts).primary_source == m.primary_source,
        is_second_hand(m) ==> is_second_hand(with_id(m, parts)),
{
}

/// The failures at the end of some health checks.
pub open spec fn trailing_failures(results: Seq<bool>) -> nat
    decreases results.len(),
{
    if results.len() == 0 || results.last() {
        0
    } else {
        trailing_failures(results.drop_last()) + 1
    }
}

/// The failures at the end of some health checks, as far as they are counted.
pub open spec fn counted_failures(results: Seq<bool>) -> nat {
    if trailing_failures(results) < u32::MAX {
        trailing_failures(results)
    } else {
        u32::MAX as nat
    }
}

/// A server is given up at a health check exactly when this one and those right
/// before it have failed, at least `threshold` in a row.
pub proof fn law_health_needs_a_run_of_failures(h: HealthStickiness, results: Seq<bool>)
    requires
        h.consecutive_failures == 0,
        h.threshold >= 1,
        results.len() > 0,
    ensures
        checked_all(h, results).consecutive_failures == counted_failures(results),
        gives_up(checked_all(h, results.drop_last()), results.last()) == (trailing_failures(
            results,
        ) >= h.threshold),
{
    lemma_failures_are_counted(h, results);
    lemma_failures_are_counted(h, results.drop_last());
}

proof fn lemma_failures_are_counted(h: HealthStickiness, results: Seq<bool>)
    requires
        h.consecutive_failures == 0,
    ensures
        checked_all(h, results).consecutive_failures == counted_failures(results),
        checked_all(h, results).threshold == h.threshold,
    decreases results.len(),
{
    if results.len() > 0 {
        lemma_failures_are_counted(h, results.drop_last());
    }
}

/// A success forgets all failures.
pub proof fn law_success_forgets_failures(h: HealthStickiness)
    ensures
        checked(h, true).consecutive_failures == 0,
        checked(h, true).threshold == h.threshold,
{
}

/// Whether an endpoint offers a text: one that is not empty.
pub open spec fn offers(value: Option<Seq<char>>) -> bool {
    value is Some && value->0.len() > 0
}

/// Every field is told by the first of its sources that offers it: the server's `/props`,
/// its model list, its process, and the preset. No field is known that no source offers.
pub proof fn law_every_field_has_its_source(
    props: Discovery,
    models: Discovery,
    process: ServerConfig,
    name: Option<Seq<char>>,
    path: Option<Seq<char>>,
    context: Option<u64>,
)
    ensures
        ({
            let m = gathered(Some(props), Some(models), Some(process), name, path, context);
            let nowhere = SourcedText { value: None, source: FieldSource::Absent };
            &&& m.model_path == if offers(props.model_path) {
                SourcedText { value: props.model_path, source: FieldSource::Props }
            } else if offers(models.model_path) {
                SourcedText { value: models.model_path, source: FieldSource::Models }
            } else if process.model_path@.len() > 0 {
                SourcedText {
                    value: Some(process.model_path@),
                    source: FieldSource::ProcessConfig,
                }
            } else if offers(path) {
                SourcedText { value: path, source: FieldSource::Preset }
            } else {
                nowhere
            }
            &&& m.name == if offers(props.model_alias) {
                SourcedText { value: props.model_alias, source: FieldSource::Props }
            } else if offers(models.model_alias) {
                SourcedText { value: models.model_alias, source: FieldSource::Models }
            } else if offers(name) {
                SourcedText { value: name, source: FieldSource::Preset }
            } else {
                nowhere
            }
            &&& m.model_id == if offers(props.model_id) {
                SourcedText { value: props.model_id, source: FieldSource::Props }
            } else if offers(models.model_id) {
                SourcedText { value: models.model_id, source: FieldSource::Models }
            } else {
                nowhere
            }
            &&& m.context_size == if props.context_size is Some {
                SourcedU64 { value: props.context_size, source: FieldSource::Props }
            } else if models.context_size is Some {
                SourcedU64 { value: models.context_size, source: FieldSource::Models }
            } else if process.context_size > 0 {
                SourcedU64 {
                    value: Some(process.context_size),
                    source: FieldSource::ProcessConfig,
                }
            } else if context is Some && context->0 > 0 {
                SourcedU64 { value: context, source: FieldSource::Preset }
            } else {
                SourcedU64 { value: None, source: FieldSource::Absent }
            }
            &&& m.native_context == if props.native_context is Some {
                SourcedU64 { value: props.native_context, source: FieldSource::Props }
            } else if models.native_context is Some {
                SourcedU64 { value: models.native_context, source: FieldSource::Models }
            } else {
                SourcedU64 { value: None, source: FieldSource::Absent }
            }
            &&& m.total_slots == if props.total_slots is Some {
                SourcedU32 { value: props.total_slots, source: FieldSource::Props }
            } else if models.total_slots is Some {
                SourcedU32 { value: models.total_slots, source: FieldSource::Models }
            } else if process.parallel_slots > 0 {
                SourcedU32 {
                    value: Some(process.parallel_slots),
                    source: FieldSource::ProcessConfig,
                }
            } else {
                SourcedU32 { value: None, source: FieldSource::Absent }
            }
            &&& m.gguf_file == nowhere && m.quant == nowhere
        }),
{
    let first = told_by(unknown_model(), Some(props), FieldSource::Props);
    let second = told_by(first, Some(models), FieldSource::Models);
    assert(first.gguf_file == no_text() && first.quant == no_text());
    assert(second.gguf_file == no_text() && second.quant == no_text());
}

/// A source that is missing is as one that tells nothing.
pub proof fn law_missing_source_tells_nothing(
    m: RunningModel,
    source: FieldSource,
    cfg: ServerConfig,
)
    ensures
        told_by(m, None, source) == m,
        told_by(m, Some(no_discovery()), source) == m,
        with_process(m, None) == m,
        cfg.model_path@.len() == 0 && cfg.context_size == 0 && cfg.parallel_slots == 0
            ==> with_process(m, Some(cfg)) == m,
        with_preset(m, None, None, None) == m,
        !server_told(None, None),
        !server_told(Some(no_discovery()), Some(no_discovery())),
{
}

/// The server told of its model where an endpoint gave any field of it.
pub proof fn law_any_field_tells(props: Discovery, models: Discovery)
    ensures
        tells(props) == (props.model_path is Some || props.model_alias is Some || props.model_id
            is Some || props.context_size is Some || props.native_context is Some
            || props.total_slots is Some),
        server_told(Some(props), Some(models)) == (tells(props) || tells(models)),
        server_told(Some(props), None) == tells(props),
        server_told(None, Some(models)) == tells(models),
        tells(props) ==> gathered(Some(props), Some(models), None, None, None, None).primary_source
            == FieldSource::Props,
        !tells(props) && tells(models) ==> gathered(
            Some(props),
            Some(models),
            None,
            None,
            None,
            None,
        ).primary_source == FieldSource::Models,
{
}

/// What the properties of the server tell, member by member.
pub proof fn law_properties_are_read(v: JsonModel, settings: JsonModel, t: Seq<char>, n: u64)
    ensures
        ({
            let p = props_of(v);
            let inner = member(v, "default_generation_settings"@) == Some(settings);
            let text = JsonModel::Text(t);
            let number = JsonModel::Number(Numeral::Unsigned(n));
            let full = trimmed(t).len() > 0;
            &&& full && member(v, "model_path"@) == Some(text) ==> p.model_path == Some(trimmed(t))
            &&& full && member(v, "model_path"@) is None && inner && member(settings, "model"@)
                == Some(text) ==> p.model_path == Some(trimmed(t))
            &&& full && member(v, "model_alias"@) == Some(text) ==> p.model_alias == Some(
                trimmed(t),
            )
            &&& full && member(v, "model_alias"@) is None && member(v, "alias"@) == Some(text)
                ==> p.model_alias == Some(trimmed(t))
            &&& member(v, "model_alias"@) is None && member(v, "alias"@) is None
                ==> p.model_alias is None
            &&& inner && member(settings, "n_ctx"@) == Some(number) ==> p.context_size == Some(n)
            &&& inner && member(settings, "n_ctx"@) is None ==> p.context_size is None
            &&& n <= u32::MAX && member(v, "total_slots"@) == Some(number) ==> p.total_slots
                == Some(n as u32)
            &&& member(v, "total_slots"@) is None ==> p.total_slots is None
            &&& p.model_id is None && p.native_context is None
        }),
{
}

/// What the first entry of the model list tells, member by member; other entries tell
/// nothing.
pub proof fn law_first_model_is_read(
    v: JsonModel,
    items: Seq<JsonModel>,
    meta: JsonModel,
    t: Seq<char>,
    n: u64,
)
    requires
        member(v, "data"@) == Some(JsonModel::Array(items)),
    ensures
        ({
            let p = models_of(v);
            let first = items[0];
            let number = JsonModel::Number(Numeral::Unsigned(n));
            let inner = items.len() > 0 && member(first, "meta"@) == Some(meta);
            let named = items.len() > 0 && member(first, "id"@) == Some(JsonModel::Text(t))
                && trimmed(t).len() > 0;
            let path = trimmed(t).contains('/') || has_suffix(trimmed(t), ".gguf"@);
            &&& items.len() == 0 ==> !tells(p)
            &&& named ==> p.model_id == Some(trimmed(t))
            &&& named && path ==> p.model_path == Some(trimmed(t))
            &&& named && !path ==> p.model_path is None
            &&& inner && member(meta, "n_ctx"@) == Some(number) ==> p.context_size == Some(n)
            &&& inner && member(meta, "n_ctx_train"@) == Some(number) ==> p.native_context == Some(
                n,
            )
            &&& p.model_alias is None && p.total_slots is None
        }),
{
}

/// A number that is no integer counts by its integer part, no more than a machine word
/// holds; a negative one counts nothing.
pub proof fn law_numbers_count_whole(x: Binary64, n: u64, i: i64)
    ensures
        numeral_whole(Numeral::Unsigned(n)) == Some(n),
        numeral_whole(Numeral::Negative(i)) is None,
        x.finite() && x.rank() >= 0 && x.whole() <= u64::MAX ==> numeral_whole(Numeral::Float(x))
            == Some(x.whole() as u64),
        x.finite() && x.rank() >= 0 && x.whole() > u64::MAX ==> numeral_whole(Numeral::Float(x))
            == Some(u64::MAX),
        x.finite() && x.rank() < 0 ==> numeral_whole(Numeral::Float(x)) is None,
{
}

/// The file of a path is what stands behind its last separator.
pub proof fn law_file_is_the_last_part(path: Seq<char>, separator: char, file: Seq<char>)
    requires
        separator == '/' || separator == '\\',
        !file.contains('/'),
        !file.contains('\\'),
    ensures
        last_segment(path + seq![separator] + file) == file,
        last_segment(file) == file,
{
    let whole = path + seq![separator] + file;
    let n = path.len() as int;
    assert forall|j: int| 0 <= j < file.len() implies !is_path_separator(#[trigger] file[j]) by {
        assert(file.contains(file[j]));
    }
    assert forall|j: int| n + 1 <= j < whole.len() implies !is_path_separator(
        #[trigger] whole[j],
    ) by {
        assert(whole[j] == file[j - n - 1]);
    }
    assert(whole[n] == separator);
    lemma_last_segment(whole, n + 1, whole.len() as int);
    assert(whole.take(whole.len() as int) =~= whole);
    assert(whole.subrange(n + 1, whole.len() as int) =~= file);
    lemma_last_segment(file, 0, file.len() as int);
    assert(file.take(file.len() as int) =~= file);
    assert(file.subrange(0, file.len() as int) =~= file);
}

/// A path tells the file, and a model file the name and quantisation in it, each where no
/// source of the same or a higher priority has told it.
pub proof fn law_path_tells_the_file(
    m: RunningModel,
    parts: (Option<Seq<char>>, Option<Seq<char>>),
)
    requires
        m.gguf_file == no_text(),
        m.quant == no_text(),
        m.model_path.value is Some,
        m.model_path.source != FieldSource::Absent,
    ensures
        ({
            let file = last_segment(m.model_path.value->0);
            let source = m.model_path.source;
            let is_model = has_suffix(file, ".gguf"@);
            let after = with_path(m, parts);
            let outranked = m.name.value is None || source_rank(m.name.source) < source_rank(
                source,
            );
            &&& file.len() > 0 ==> after.gguf_file == (SourcedText { value: Some(file), source })
            &&& is_model && offers(parts.0) && outranked ==> after.name == (SourcedText {
                value: parts.0,
                source,
            })
            &&& !is_model || !offers(parts.0) || !outranked ==> after.name == m.name
            &&& is_model && offers(parts.1) ==> after.quant == (SourcedText {
                value: parts.1,
                source,
            })
            &&& !is_model || !offers(parts.1) ==> after.quant == m.quant
            &&& after.model_path == m.model_path && after.model_id == m.model_id
            &&& after.context_size == m.context_size && after.native_context == m.native_context
            &&& after.total_slots == m.total_slots && after.detected == m.detected
        }),
{
}

/// An identifier that is no path tells the name, and the quantisation in it, each where no
/// source of the same or a higher priority has told it.
pub proof fn law_identifier_tells_the_name(
    m: RunningModel,
    parts: (Option<Seq<char>>, Option<Seq<char>>),
)
    requires
        offers(m.model_id.value),
    ensures
        ({
            let id = m.model_id.value->0;
            let source = m.model_id.source;
            let path = id.contains('/') || has_suffix(id, ".gguf"@);
            let after = with_id(m, parts);
            let unnamed = m.name.value is None || source_rank(m.name.source) < source_rank(source);
            let open = m.quant.value is None || source_rank(m.quant.source) < source_rank(source);
            &&& path ==> after == m
            &&& !path && unnamed ==> after.name == (SourcedText { value: Some(id), source })
            &&& !path && !unnamed ==> after.name == m.name
            &&& !path && open && offers(parts.1) ==> after.quant == (SourcedText {
                value: parts.1,
                source,
            })
            &&& !path && (!open || !offers(parts.1)) ==> after.quant == m.quant
            &&& !path ==> id_file(m) == Some(id + ".gguf"@)
            &&& after.gguf_file == m.gguf_file && after.model_path == m.model_path
            &&& after.context_size == m.context_size && after.native_context == m.native_context
        }),
{
}

/// A model is shown by its name, or else its identifier, or else its file without the
/// extension.
pub proof fn law_shown_name(m: RunningModel, stem: Seq<char>)
    ensures
        offers(m.name.value) ==> shown_name(m) == m.name.value,
        !offers(m.name.value) && offers(m.model_id.value) ==> shown_name(m) == m.model_id.value,
        !offers(m.name.value) && !offers(m.model_id.value) && m.gguf_file.value == Some(
            stem + ".gguf"@,
        ) && stem.len() > 0 ==> shown_name(m) == Some(stem),
        !offers(m.name.value) && !offers(m.model_id.value) && m.gguf_file.value is None
            ==> shown_name(m) is None,
{
    let file = stem + ".gguf"@;
    assert(file.skip(stem.len() as int) =~= ".gguf"@);
    assert(file.take(stem.len() as int) =~= stem);
}

/// Where the server itself told nothing, the primary source is the highest that told path,
/// name, identifier or context size; settling it changes nothing else.
pub proof fn law_primary_source_is_the_highest(m: RunningModel, detected: bool, other: FieldSource)
    ensures
        ({
            let r = finished(m, detected);
            let top = source_rank(r.primary_source);
            &&& r == (RunningModel { detected, primary_source: r.primary_source, ..m })
            &&& m.primary_source != FieldSource::Absent ==> r.primary_source == m.primary_source
            &&& m.primary_source == FieldSource::Absent ==> {
                &&& r.primary_source == m.model_path.source || r.primary_source == m.name.source
                    || r.primary_source == m.model_id.source || r.primary_source
                    == m.context_size.source
                &&& top >= source_rank(m.model_path.source)
                &&& top >= source_rank(m.name.source)
                &&& top >= source_rank(m.model_id.source)
                &&& top >= source_rank(m.context_size.source)
            }
        }),
        source_rank(FieldSource::Props) > source_rank(FieldSource::Models),
        source_rank(FieldSource::Models) > source_rank(FieldSource::ProcessConfig),
        source_rank(FieldSource::ProcessConfig) > source_rank(FieldSource::Preset),
        source_rank(FieldSource::Preset) > source_rank(FieldSource::Absent),
        is_live_source(other) == (other == FieldSource::Props || other == FieldSource::Models),
{
}

/// A server is given up where a check fails and the failures in a row are then as many as
/// the limit; each failure adds one to them.
pub proof fn law_failures_add_up(h: HealthStickiness)
    requires
        h.consecutive_failures < u32::MAX,
    ensures
        checked(h, false).consecutive_failures == h.consecutive_failures + 1,
        checked(h, false).threshold == h.threshold,
        gives_up(h, false) == (h.consecutive_failures + 1 >= h.threshold),
        !gives_up(h, true),
{
}

} // verus!
