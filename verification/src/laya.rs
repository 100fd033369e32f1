//! A ModernBERT encoder with a decision head: a bidirectional encoder reads
//! one sequence per question and a scorer reads the hidden row at each
//! option's mask.
//!
//! ```text
//! [CLS] <type> question: <instructions> [SEP] [MASK] opt0 [MASK] opt1 … [SEP] <state> [SEP]
//! ```
//!
//! Every question of a request is one sequence; all of them are packed into
//! one token stream, isolated by the attention mask.

use vstd::prelude::*;
use vstd::string::StringExecFns;

use tokenizers::Tokenizer;

use crate::bert::{
    check_widths, eps_of, has_period, local_layers, missing_in, need_in, period_sane, read_eps,
    read_local_layers, read_theta, theta_of, types_message, types_text, widths_fault, GLOBAL_THETA,
};
use crate::error::LoadError;
use crate::json::{
    as_double, at, debug_json, debug_value, double_of, has_field, parsed, read_json, unread, Json,
    JsonView,
};
use crate::map::find;
use crate::model::{
    double_field, push1, push2, size_at_or, size_field, size_or, spec_views, NamedShape, TensorSpec, ONE,
    TEN_THOUSAND,
};
use crate::text::{concat2, concat3, decimal, push_decimal, same, starts_in, starts_with};
use crate::tokenize::{token_to_id, vocabulary_of};

verus! {

/// Question types as the checkpoint numbers them.
pub const QTYPES: [&'static str; 3] = ["choice", "score", "noul"];

/// The name of a question type.
pub open spec fn qtype_name(q: int) -> Seq<char> {
    if q == 0 {
        "choice"@
    } else if q == 1 {
        "score"@
    } else {
        "noul"@
    }
}

pub(crate) fn qtype_text(q: usize) -> (r: &'static str)
    ensures
        r@ == qtype_name(q as int),
{
    if q == 0 {
        "choice"
    } else if q == 1 {
        "score"
    } else {
        "noul"
    }
}

/// A checkpoint's shape, prompt budgets and calibration. Numbers that are no
/// integers are held as the bit patterns of their doubles.
#[derive(Debug)]
pub struct LayaConfig {
    pub vocab: usize,
    pub d: usize,
    pub layers: usize,
    pub heads: usize,
    pub ff: usize,
    /// Per encoder layer: true = local attention.
    pub sliding: Vec<bool>,
    /// Inclusive local distance: half of `local_attention`.
    pub window: usize,
    pub theta_global: u64,
    pub theta_local: u64,
    pub eps: u64,
    pub head_layers: usize,
    /// A question-type embedding is added after the encoder.
    pub type_emb: bool,
    /// The act head's hidden and output widths; no act head without output.
    pub act_hidden: usize,
    pub act_out: usize,
    /// Prompt budgets.
    pub max_len: usize,
    pub head_max_len: usize,
    /// Calibration: one temperature per question type, overridden per type
    /// and option-count bucket when present.
    pub temperature: Vec<u64>,
    pub temperature_by_options: Vec<(String, u64)>,
    pub cls: u32,
    pub sep: u32,
    pub mask: u32,
    pub pad: u32,
    pub mask_text: String,
}

/// A double that a temperature may have: narrowed to single precision it is
/// finite and positive. Positive doubles are ordered as their bit patterns
/// are; the bounds are two to the power -150, and halfway from the largest
/// single-precision number to two to the power 128.
pub open spec fn is_temperature(bits: u64) -> bool {
    0x3690_0000_0000_0000 < bits < 0x47ef_ffff_f000_0000
}

/// A number, one where there is none.
pub open spec fn double_or_one(v: JsonView) -> u64 {
    match as_double(v) {
        Some(n) => n,
        None => ONE,
    }
}

/// The temperatures per question type.
pub open spec fn temperatures_of(agent: JsonView) -> Seq<u64> {
    match at(agent, "temperature"@) {
        JsonView::Array(a) => a.map_values(|v: JsonView| double_or_one(v)),
        _ => seq![ONE, ONE, ONE],
    }
}

/// The temperatures per type and option count.
pub open spec fn overrides_of(agent: JsonView) -> Seq<(Seq<char>, u64)> {
    match at(agent, "temperature_by_options"@) {
        JsonView::Object(m) => m.map_values(
            |e: (Seq<char>, JsonView)| (e.0, double_or_one(e.1)),
        ),
        _ => Seq::empty(),
    }
}

/// Every temperature is finite and positive.
pub open spec fn temperatures_sane(agent: JsonView) -> bool {
    &&& forall|i: int|
        0 <= i < temperatures_of(agent).len() ==> is_temperature(
            #[trigger] temperatures_of(agent)[i],
        )
    &&& forall|i: int|
        0 <= i < overrides_of(agent).len() ==> is_temperature(
            (#[trigger] overrides_of(agent)[i]).1,
        )
}

/// The surface form of a special token: a text, or the content of a record.
pub open spec fn token_text(tokens: JsonView, name: Seq<char>) -> Option<Seq<char>> {
    match at(tokens, name) {
        JsonView::Str(s) => Some(s),
        v => match at(v, "content"@) {
            JsonView::Str(s) => Some(s),
            _ => None,
        },
    }
}

/// The vocabulary's entries as text and id.
pub open spec fn id_views(v: Seq<(String, u32)>) -> Seq<(Seq<char>, u32)> {
    v.map_values(|e: (String, u32)| (e.0@, e.1))
}

/// The vocabulary that a list of entries makes: each text with the id of its
/// first entry.
pub open spec fn vocabulary(ids: Seq<(Seq<char>, u32)>) -> Map<Seq<char>, u32> {
    Map::new(|text: Seq<char>| find(ids, text) is Some, |text: Seq<char>| find(ids, text)->0)
}

/// Why a special token cannot be resolved, if it cannot.
pub open spec fn token_fault(
    tokens: JsonView,
    ids: Map<Seq<char>, u32>,
    name: Seq<char>,
) -> Option<Seq<char>> {
    match token_text(tokens, name) {
        None => Some("tokenizer_config.json: missing "@ + name),
        Some(text) => if !ids.contains_key(text) {
            Some("tokenizer has no "@ + text)
        } else {
            None
        },
    }
}

/// The id of a special token.
pub open spec fn token_id(tokens: JsonView, ids: Map<Seq<char>, u32>, name: Seq<char>) -> u32 {
    ids[token_text(tokens, name)->0]
}

/// The outputs of the act head: acting, and one per cost.
pub open spec fn act_out_of(agent: JsonView) -> usize {
    if at(agent, "act_head"@) == JsonView::Bool(false) {
        0
    } else {
        match at(agent, "act_costs"@) {
            JsonView::Object(m) => if m.len() < usize::MAX {
                (m.len() + 1) as usize
            } else {
                usize::MAX
            },
            _ => 1,
        }
    }
}

/// What is wrong with the prompt budgets and the calibration, if anything.
pub open spec fn agent_fault(agent: JsonView) -> Option<Seq<char>> {
    let max_len = size_or(agent, "max_len"@, 512);
    let head_max_len = size_or(agent, "head_max_len"@, 192);
    if temperatures_of(agent).len() != 3 {
        Some(
            "rl_agent_config.json: temperature has "@ + decimal(temperatures_of(agent).len())
                + " entries"@,
        )
    } else if !temperatures_sane(agent) {
        Some("calibration temperatures must be finite and positive"@)
    } else if !(4 < head_max_len < max_len) {
        Some(
            "expected 4 < head_max_len "@ + decimal(head_max_len as nat) + " < max_len "@ + decimal(
                max_len as nat,
            ),
        )
    } else {
        None
    }
}

/// What the kernels cannot run of the widths, if anything.
pub open spec fn width_fault(d: nat, heads: nat, ff: nat) -> Option<Seq<char>> {
    if widths_fault(d, heads, ff) is Some {
        widths_fault(d, heads, ff)
    } else if d > 2048 {
        Some("hidden_size "@ + decimal(d) + " > 2048"@)
    } else {
        None
    }
}

/// What is wrong with the encoder's description before its sizes are read, if
/// anything.
pub open spec fn encoder_fault(encoder: JsonView) -> Option<Seq<char>> {
    let kind = at(encoder, "model_type"@);
    let act = at(encoder, "hidden_activation"@);
    let layers = size_field(encoder, "num_hidden_layers"@);
    if kind != JsonView::Str("modernbert"@) {
        Some("encoder model_type "@ + debug_json(kind) + " is not modernbert"@)
    } else if act is Str && act->Str_0 != "gelu"@ {
        Some("encoder hidden_activation "@ + act->Str_0 + " is not gelu"@)
    } else if layers is None {
        Some(missing_in("encoder/config.json"@, "num_hidden_layers"@))
    } else if local_layers(encoder, layers->0 as nat).len() != layers->0 {
        Some(
            types_message(local_layers(encoder, layers->0 as nat).len(), layers->0 as nat),
        )
    } else {
        None
    }
}

/// The encoder is of the kind that is read.
pub open spec fn right_kind(encoder: JsonView) -> bool {
    let act = at(encoder, "hidden_activation"@);
    at(encoder, "model_type"@) == JsonView::Str("modernbert"@) && (act is Str ==> act->Str_0
        == "gelu"@)
}

/// An encoder of the right kind has its local layers in a period, or listed.
pub open spec fn laya_sane(encoder: JsonView) -> bool {
    right_kind(encoder) ==> period_sane(
        encoder,
        size_or(encoder, "num_hidden_layers"@, 0) as nat,
    )
}

/// The first of the encoder's sizes that is missing.
pub open spec fn encoder_sizes_fault(encoder: JsonView) -> Option<Seq<char>> {
    if size_field(encoder, "hidden_size"@) is None {
        Some(missing_in("encoder/config.json"@, "hidden_size"@))
    } else if size_field(encoder, "num_attention_heads"@) is None {
        Some(missing_in("encoder/config.json"@, "num_attention_heads"@))
    } else if size_field(encoder, "vocab_size"@) is None {
        Some(missing_in("encoder/config.json"@, "vocab_size"@))
    } else if size_field(encoder, "intermediate_size"@) is None {
        Some(missing_in("encoder/config.json"@, "intermediate_size"@))
    } else {
        None
    }
}

/// Why a checkpoint cannot be read, if it cannot: the first of the faults, in
/// the order in which they are looked for.
pub open spec fn laya_fault(
    encoder: JsonView,
    agent: JsonView,
    tokens: JsonView,
    ids: Map<Seq<char>, u32>,
) -> Option<Seq<char>> {
    if encoder_fault(encoder) is Some {
        encoder_fault(encoder)
    } else if token_fault(tokens, ids, "mask_token"@) is Some {
        token_fault(tokens, ids, "mask_token"@)
    } else if agent_fault(agent) is Some {
        agent_fault(agent)
    } else if encoder_sizes_fault(encoder) is Some {
        encoder_sizes_fault(encoder)
    } else if token_fault(tokens, ids, "cls_token"@) is Some {
        token_fault(tokens, ids, "cls_token"@)
    } else if token_fault(tokens, ids, "sep_token"@) is Some {
        token_fault(tokens, ids, "sep_token"@)
    } else if token_fault(tokens, ids, "pad_token"@) is Some {
        token_fault(tokens, ids, "pad_token"@)
    } else {
        width_fault(
            size_or(encoder, "hidden_size"@, 0) as nat,
            size_or(encoder, "num_attention_heads"@, 0) as nat,
            size_or(encoder, "intermediate_size"@, 0) as nat,
        )
    }
}

/// Temperatures by text.
pub open spec fn override_views(v: Seq<(String, u64)>) -> Seq<(Seq<char>, u64)> {
    v.map_values(|e: (String, u64)| (e.0@, e.1))
}

impl LayaConfig {
    /// The configuration that the three files describe.
    pub open spec fn describes(
        self,
        encoder: JsonView,
        agent: JsonView,
        tokens: JsonView,
        ids: Map<Seq<char>, u32>,
    ) -> bool {
        let layers = size_or(encoder, "num_hidden_layers"@, 0);
        &&& self.vocab == size_or(encoder, "vocab_size"@, 0)
        &&& self.d == size_or(encoder, "hidden_size"@, 0)
        &&& self.layers == layers
        &&& self.heads == size_or(encoder, "num_attention_heads"@, 0)
        &&& self.ff == size_or(encoder, "intermediate_size"@, 0)
        &&& self.sliding@ == local_layers(encoder, layers as nat)
        &&& self.window == size_or(encoder, "local_attention"@, 128) / 2
        &&& self.theta_global == theta_of(
            encoder,
            "full_attention"@,
            "global_rope_theta"@,
            GLOBAL_THETA,
        )
        &&& self.theta_local == theta_of(
            encoder,
            "sliding_attention"@,
            "local_rope_theta"@,
            TEN_THOUSAND,
        )
        &&& self.eps == eps_of(encoder)
        &&& self.head_layers == size_or(agent, "head_layers"@, 2)
        &&& self.type_emb == (at(agent, "type_emb"@) != JsonView::Bool(false))
        &&& self.act_hidden == 256
        &&& self.act_out == act_out_of(agent)
        &&& self.max_len == size_or(agent, "max_len"@, 512)
        &&& self.head_max_len == size_or(agent, "head_max_len"@, 192)
        &&& self.temperature@ == temperatures_of(agent)
        &&& override_views(self.temperature_by_options@) == overrides_of(agent)
        &&& self.cls == token_id(tokens, ids, "cls_token"@)
        &&& self.sep == token_id(tokens, ids, "sep_token"@)
        &&& self.mask == token_id(tokens, ids, "mask_token"@)
        &&& self.pad == token_id(tokens, ids, "pad_token"@)
        &&& token_text(tokens, "mask_token"@) == Some(self.mask_text@)
    }
}

fn id_of(ids: &Vec<(String, u32)>, text: &str) -> (r: Option<u32>)
    ensures
        r == find(id_views(ids@), text@),
{
    let ghost iv = id_views(ids@);
    let mut i: usize = 0;
    assert(iv.skip(0) =~= iv);
    while i < ids.len()
        invariant
            0 <= i <= ids@.len(),
            iv == id_views(ids@),
            find(iv, text@) == find(iv.skip(i as int), text@),
        decreases ids@.len() - i,
    {
        proof {
            assert(iv[i as int] == (ids@[i as int].0@, ids@[i as int].1));
            assert(iv.skip(i as int)[0] == iv[i as int]);
            assert(iv.skip(i as int).drop_first() =~= iv.skip(i as int + 1));
        }
        if same(ids[i].0.as_str(), text) {
            return Some(ids[i].1);
        }
        i += 1;
    }
    assert(iv.skip(i as int).len() == 0);
    None
}

fn token_form(tokens: &Json, name: &str) -> (r: Option<String>)
    ensures
        match r {
            Some(s) => token_text(tokens@, name@) == Some(s@),
            None => token_text(tokens@, name@) is None,
        },
{
    match tokens.text_at(name) {
        Some(s) => Some(s.clone()),
        None => match tokens.get(name) {
            Some(v) => match v.text_at("content") {
                Some(s) => Some(s.clone()),
                None => None,
            },
            None => None,
        },
    }
}

fn read_token(tokens: &Json, ids: &Vec<(String, u32)>, name: &str) -> (r: Result<
    (String, u32),
    LoadError,
>)
    ensures
        match r {
            Ok(t) => token_fault(tokens@, vocabulary(id_views(ids@)), name@) is None && token_text(
                tokens@,
                name@,
            ) == Some(t.0@) && t.1 == token_id(tokens@, vocabulary(id_views(ids@)), name@),
            Err(e) => token_fault(tokens@, vocabulary(id_views(ids@)), name@) == Some(e@),
        },
{
    match token_form(tokens, name) {
        None => Err(LoadError::new(concat2("tokenizer_config.json: missing ", name))),
        Some(text) => match id_of(ids, text.as_str()) {
            Some(id) => Ok((text, id)),
            None => Err(LoadError::new(concat2("tokenizer has no ", text.as_str()))),
        },
    }
}

fn read_temperatures(agent: &Json) -> (r: Vec<u64>)
    ensures
        r@ == temperatures_of(agent@),
{
    let mut out: Vec<u64> = Vec::new();
    match agent.list_at("temperature") {
        None => {
            out.push(ONE);
            out.push(ONE);
            out.push(ONE);
            assert(out@ =~= temperatures_of(agent@));
        },
        Some(a) => {
            let mut i: usize = 0;
            while i < a.len()
                invariant
                    0 <= i <= a@.len(),
                    out@.len() == i,
                    forall|j: int| 0 <= j < i ==> #[trigger] out@[j] == double_or_one(a@[j]@),
                decreases a@.len() - i,
            {
                out.push(
                    match double_of(&a[i]) {
                        Some(n) => n,
                        None => ONE,
                    },
                );
                i += 1;
            }
            assert(out@ =~= temperatures_of(agent@));
        },
    }
    out
}

fn read_overrides(agent: &Json) -> (r: Vec<(String, u64)>)
    ensures
        override_views(r@) == overrides_of(agent@),
{
    let mut out: Vec<(String, u64)> = Vec::new();
    match agent.get("temperature_by_options") {
        Some(Json::Object(m)) => {
            let mut i: usize = 0;
            while i < m.len()
                invariant
                    0 <= i <= m@.len(),
                    out@.len() == i,
                    forall|j: int|
                        0 <= j < i ==> (#[trigger] out@[j]).0@ == m@[j].0@ && out@[j].1
                            == double_or_one(m@[j].1@),
                decreases m@.len() - i,
            {
                let (k, v) = &m[i];
                let t: u64 = match double_of(v) {
                    Some(n) => n,
                    None => ONE,
                };
                out.push((k.clone(), t));
                i += 1;
            }
            assert(override_views(out@) =~= overrides_of(agent@));
        },
        _ => {
            assert(override_views(out@) =~= overrides_of(agent@));
        },
    }
    out
}

fn all_temperatures(a: &Vec<u64>, b: &Vec<(String, u64)>) -> (r: bool)
    ensures
        r == ((forall|i: int| 0 <= i < a@.len() ==> is_temperature(#[trigger] a@[i])) && (forall|
            i: int,
        |
            0 <= i < b@.len() ==> is_temperature((#[trigger] b@[i]).1))),
{
    let mut i: usize = 0;
    while i < a.len()
        invariant
            0 <= i <= a@.len(),
            forall|j: int| 0 <= j < i ==> is_temperature(#[trigger] a@[j]),
        decreases a@.len() - i,
    {
        if !(0x3690_0000_0000_0000 < a[i] && a[i] < 0x47ef_ffff_f000_0000) {
            assert(!is_temperature(a@[i as int]));
            return false;
        }
        i += 1;
    }
    let mut i: usize = 0;
    while i < b.len()
        invariant
            0 <= i <= b@.len(),
            forall|j: int| 0 <= j < i ==> is_temperature((#[trigger] b@[j]).1),
        decreases b@.len() - i,
    {
        let t: u64 = b[i].1;
        if !(0x3690_0000_0000_0000 < t && t < 0x47ef_ffff_f000_0000) {
            assert(!is_temperature(b@[i as int].1));
            return false;
        }
        i += 1;
    }
    true
}

fn read_act_out(agent: &Json) -> (r: usize)
    ensures
        r == act_out_of(agent@),
{
    match agent.flag_at("act_head") {
        Some(false) => 0,
        _ => match agent.get("act_costs") {
            Some(Json::Object(m)) => {
                let n: usize = m.len();
                if n < usize::MAX {
                    n + 1
                } else {
                    n
                }
            },
            _ => 1,
        },
    }
}

/// Whether an encoder of the right kind has its local layers in a period, or
/// listed.
pub fn is_sane(encoder: &Json) -> (r: bool)
    ensures
        r == laya_sane(encoder@),
{
    let kind: bool = match encoder.text_at("model_type") {
        Some(s) => same(s.as_str(), "modernbert"),
        None => false,
    };
    let act: bool = match encoder.text_at("hidden_activation") {
        Some(s) => same(s.as_str(), "gelu"),
        None => true,
    };
    !(kind && act) || has_period(encoder)
}

/// Checks what the encoder's description says before its sizes: its layers,
/// and per layer whether attention is local.
fn read_encoder(encoder: &Json) -> (r: Result<(usize, Vec<bool>), LoadError>)
    requires
        laya_sane(encoder@),
    ensures
        match r {
            Ok((n, s)) => encoder_fault(encoder@) is None && size_field(
                encoder@,
                "num_hidden_layers"@,
            ) == Some(n) && s@ == local_layers(encoder@, n as nat) && s@.len() == n,
            Err(e) => encoder_fault(encoder@) == Some(e@),
        },
{
    let kind: bool = match encoder.text_at("model_type") {
        Some(s) => same(s.as_str(), "modernbert"),
        None => false,
    };
    if !kind {
        let null = Json::Null;
        let v: &Json = match encoder.get("model_type") {
            Some(v) => v,
            None => &null,
        };
        return Err(
            LoadError::new(
                concat3("encoder model_type ", debug_value(v).as_str(), " is not modernbert"),
            ),
        );
    }
    match encoder.text_at("hidden_activation") {
        Some(a) => {
            if !same(a.as_str(), "gelu") {
                return Err(
                    LoadError::new(concat3("encoder hidden_activation ", a.as_str(), " is not gelu")),
                );
            }
        },
        None => {},
    }
    let layers: usize = match need_in(encoder, "encoder/config.json", "num_hidden_layers") {
        Ok(n) => n,
        Err(e) => {
            return Err(e);
        },
    };
    let sliding = read_local_layers(encoder, layers);
    if sliding.len() != layers {
        return Err(LoadError::new(types_text(sliding.len(), layers)));
    }
    Ok((layers, sliding))
}

/// Reads the calibration and the prompt budgets.
fn read_agent(agent: &Json) -> (r: Result<(Vec<u64>, Vec<(String, u64)>, usize, usize), LoadError>)
    ensures
        match r {
            Ok((t, o, max_len, head_max_len)) => agent_fault(agent@) is None && t@
                == temperatures_of(agent@) && override_views(o@) == overrides_of(agent@) && max_len
                == size_or(agent@, "max_len"@, 512) && head_max_len == size_or(
                agent@,
                "head_max_len"@,
                192,
            ),
            Err(e) => agent_fault(agent@) == Some(e@),
        },
{
    let temperature = read_temperatures(agent);
    if temperature.len() != 3 {
        let mut m: String = "rl_agent_config.json: temperature has ".to_owned();
        push_decimal(&mut m, temperature.len() as u64);
        m.append(" entries");
        return Err(LoadError::new(m));
    }
    let overrides = read_overrides(agent);
    let sane: bool = all_temperatures(&temperature, &overrides);
    proof {
        let ov = override_views(overrides@);
        assert forall|i: int| 0 <= i < ov.len() implies ov[i].1 == overrides@[i].1 by {}
        if sane {
            assert forall|i: int| 0 <= i < ov.len() implies is_temperature((#[trigger] ov[i]).1) by {
                assert(is_temperature(overrides@[i].1));
            }
        } else if temperatures_sane(agent@) {
            assert forall|i: int| 0 <= i < overrides@.len() implies is_temperature(
                (#[trigger] overrides@[i]).1,
            ) by {
                assert(is_temperature(ov[i].1));
            }
        }
    }
    if !sane {
        return Err(LoadError::of("calibration temperatures must be finite and positive"));
    }
    let max_len: usize = size_at_or(agent, "max_len", 512);
    let head_max_len: usize = size_at_or(agent, "head_max_len", 192);
    if !(4 < head_max_len && head_max_len < max_len) {
        let mut m: String = "expected 4 < head_max_len ".to_owned();
        push_decimal(&mut m, head_max_len as u64);
        m.append(" < max_len ");
        push_decimal(&mut m, max_len as u64);
        return Err(LoadError::new(m));
    }
    Ok((temperature, overrides, max_len, head_max_len))
}

impl LayaConfig {
    /// Reads a configuration: `encoder` describes the encoder, `agent` the
    /// head, `tokens` the special tokens' surface forms, and `ids` is the
    /// vocabulary that resolves a surface form to its id.
    pub fn from_json(
        encoder: &Json,
        agent: &Json,
        tokens: &Json,
        ids: &Vec<(String, u32)>,
    ) -> (r: Result<LayaConfig, LoadError>)
        requires
            laya_sane(encoder@),
        ensures
            match r {
                Ok(c) => laya_fault(encoder@, agent@, tokens@, vocabulary(id_views(ids@))) is None
                    && c.describes(encoder@, agent@, tokens@, vocabulary(id_views(ids@))),
                Err(e) => laya_fault(encoder@, agent@, tokens@, vocabulary(id_views(ids@))) == Some(e@),
            },
    {
        let (layers, sliding) = match read_encoder(encoder) {
            Ok(p) => p,
            Err(e) => {
                return Err(e);
            },
        };
        let (mask_text, mask) = match read_token(tokens, ids, "mask_token") {
            Ok(t) => t,
            Err(e) => {
                return Err(e);
            },
        };
        let (temperature, temperature_by_options, max_len, head_max_len) = match read_agent(agent) {
            Ok(p) => p,
            Err(e) => {
                return Err(e);
            },
        };
        let d: usize = match need_in(encoder, "encoder/config.json", "hidden_size") {
            Ok(n) => n,
            Err(e) => {
                return Err(e);
            },
        };
        let heads: usize = match need_in(encoder, "encoder/config.json", "num_attention_heads") {
            Ok(n) => n,
            Err(e) => {
                return Err(e);
            },
        };
        let vocab: usize = match need_in(encoder, "encoder/config.json", "vocab_size") {
            Ok(n) => n,
            Err(e) => {
                return Err(e);
            },
        };
        let ff: usize = match need_in(encoder, "encoder/config.json", "intermediate_size") {
            Ok(n) => n,
            Err(e) => {
                return Err(e);
            },
        };
        let (_, cls) = match read_token(tokens, ids, "cls_token") {
            Ok(t) => t,
            Err(e) => {
                return Err(e);
            },
        };
        let (_, sep) = match read_token(tokens, ids, "sep_token") {
            Ok(t) => t,
            Err(e) => {
                return Err(e);
            },
        };
        let (_, pad) = match read_token(tokens, ids, "pad_token") {
            Ok(t) => t,
            Err(e) => {
                return Err(e);
            },
        };
        let type_emb: bool = match agent.flag_at("type_emb") {
            Some(b) => b,
            None => true,
        };
        let cfg = LayaConfig {
            vocab,
            d,
            layers,
            heads,
            ff,
            sliding,
            window: size_at_or(encoder, "local_attention", 128) / 2,
            theta_global: read_theta(encoder, "full_attention", "global_rope_theta", GLOBAL_THETA),
            theta_local: read_theta(
                encoder,
                "sliding_attention",
                "local_rope_theta",
                TEN_THOUSAND,
            ),
            eps: read_eps(encoder),
            head_layers: size_at_or(agent, "head_layers", 2),
            type_emb,
            act_hidden: 256,
            act_out: read_act_out(agent),
            max_len,
            head_max_len,
            temperature,
            temperature_by_options,
            cls,
            sep,
            mask,
            pad,
            mask_text,
        };
        match cfg.validate() {
            Ok(_) => Ok(cfg),
            Err(e) => Err(e),
        }
    }

    /// Checks the widths against what the kernels can run.
    pub fn validate(&self) -> (r: Result<(), LoadError>)
        ensures
            match r {
                Ok(_) => width_fault(self.d as nat, self.heads as nat, self.ff as nat) is None,
                Err(e) => width_fault(self.d as nat, self.heads as nat, self.ff as nat) == Some(
                    e@,
                ),
            },
    {
        match check_widths(self.d, self.heads, self.ff) {
            Ok(_) => {},
            Err(e) => {
                return Err(e);
            },
        }
        if self.d > 2048 {
            let mut m: String = "hidden_size ".to_owned();
            push_decimal(&mut m, self.d as u64);
            m.append(" > 2048");
            return Err(LoadError::new(m));
        }
        Ok(())
    }

    /// The width of one attention head.
    pub fn head_dim(&self) -> (r: usize)
        requires
            self.heads > 0,
        ensures
            r == self.d as nat / self.heads as nat,
    {
        self.d / self.heads
    }
}

/// The option-count bucket of a question with `k` options.
pub open spec fn bucket(k: nat) -> Seq<char> {
    if k <= 2 {
        "2"@
    } else if k <= 5 {
        "3-5"@
    } else if k <= 10 {
        "6-10"@
    } else {
        "11+"@
    }
}

impl LayaConfig {
    /// The temperature for a question of type `qtype` with `k` options: the
    /// override of the type and bucket when the configuration has one, else
    /// the type's.
    pub fn temperature_for(&self, qtype: usize, k: usize) -> (r: u64)
        requires
            qtype < self.temperature@.len(),
        ensures
            r == match find(
                override_views(self.temperature_by_options@),
                qtype_name(qtype as int) + ":"@ + bucket(k as nat),
            ) {
                Some(t) => t,
                None => self.temperature@[qtype as int],
            },
    {
        let size: &str = if k <= 2 {
            "2"
        } else if k <= 5 {
            "3-5"
        } else if k <= 10 {
            "6-10"
        } else {
            "11+"
        };
        let key = concat3(qtype_text(qtype), ":", size);
        let v = &self.temperature_by_options;
        let ghost ov = override_views(v@);
        let mut i: usize = 0;
        assert(ov.skip(0) =~= ov);
        while i < v.len()
            invariant
                0 <= i <= v@.len(),
                *v == self.temperature_by_options,
                ov == override_views(v@),
                key@ == qtype_name(qtype as int) + ":"@ + bucket(k as nat),
                find(ov, key@) == find(ov.skip(i as int), key@),
            decreases v@.len() - i,
        {
            proof {
                assert(ov[i as int] == (v@[i as int].0@, v@[i as int].1));
                assert(ov.skip(i as int)[0] == ov[i as int]);
                assert(ov.skip(i as int).drop_first() =~= ov.skip(i as int + 1));
            }
            if same(v[i].0.as_str(), key.as_str()) {
                return v[i].1;
            }
            i += 1;
        }
        assert(ov.skip(i as int).len() == 0);
        self.temperature[qtype]
    }
}

/// Why an export cannot be read, if it cannot.
pub open spec fn export_fault(config: JsonView, ids: Map<Seq<char>, u32>) -> Option<Seq<char>> {
    if !has_field(config, "laya_agent"@) {
        Some("config.json: missing laya_agent"@)
    } else if !has_field(config, "laya_tokens"@) {
        Some("config.json: missing laya_tokens"@)
    } else {
        laya_fault(config, at(config, "laya_agent"@), at(config, "laya_tokens"@), ids)
    }
}

fn export_parts(config: &Json) -> (r: Result<(&Json, &Json), LoadError>)
    ensures
        match r {
            Ok(p) => has_field(config@, "laya_agent"@) && has_field(config@, "laya_tokens"@)
                && p.0@ == at(config@, "laya_agent"@) && p.1@ == at(config@, "laya_tokens"@),
            Err(e) => e@ == (if has_field(config@, "laya_agent"@) {
                "config.json: missing laya_tokens"@
            } else {
                "config.json: missing laya_agent"@
            }) && !(has_field(config@, "laya_agent"@) && has_field(config@, "laya_tokens"@)),
        },
{
    let agent = match config.get("laya_agent") {
        Some(v) => v,
        None => {
            return Err(LoadError::of("config.json: missing laya_agent"));
        },
    };
    let tokens = match config.get("laya_tokens") {
        Some(v) => v,
        None => {
            return Err(LoadError::of("config.json: missing laya_tokens"));
        },
    };
    Ok((agent, tokens))
}

/// Reads an exported directory's configuration: the encoder's, carrying the
/// head's under `laya_agent` and the special tokens under `laya_tokens`.
pub fn config_from_export(config: &Json, ids: &Vec<(String, u32)>) -> (r: Result<
    LayaConfig,
    LoadError,
>)
    requires
        has_field(config@, "laya_agent"@) && has_field(config@, "laya_tokens"@) ==> laya_sane(
            config@,
        ),
    ensures
        match r {
            Ok(c) => export_fault(config@, vocabulary(id_views(ids@))) is None && c.describes(
                config@,
                at(config@, "laya_agent"@),
                at(config@, "laya_tokens"@),
                vocabulary(id_views(ids@)),
            ),
            Err(e) => export_fault(config@, vocabulary(id_views(ids@))) == Some(e@),
        },
{
    let (agent, tokens) = match export_parts(config) {
        Ok(p) => p,
        Err(e) => {
            return Err(e);
        },
    };
    LayaConfig::from_json(config, agent, tokens, ids)
}

/// Entries that a vocabulary holds.
pub open spec fn held_by(ids: Seq<(Seq<char>, u32)>, v: Map<Seq<char>, u32>) -> bool {
    vocabulary(ids).submap_of(v)
}

/// A list resolves a special token as a vocabulary does, where that can.
pub open spec fn resolves(
    ids: Seq<(Seq<char>, u32)>,
    v: Map<Seq<char>, u32>,
    tokens: JsonView,
    name: Seq<char>,
) -> bool {
    token_text(tokens, name) matches Some(text) ==> (v.contains_key(text) ==> vocabulary(
        ids,
    ).contains_key(text))
}

proof fn found_after_push(ids: Seq<(Seq<char>, u32)>, e: (Seq<char>, u32), text: Seq<char>)
    ensures
        find(ids.push(e), text) == (match find(ids, text) {
            Some(id) => Some(id),
            None => if e.0 == text {
                Some(e.1)
            } else {
                None
            },
        }),
    decreases ids.len(),
{
    if ids.len() == 0 {
        reveal_with_fuel(find, 2);
        assert(ids.push(e).drop_first().len() == 0);
    } else {
        assert(ids.push(e)[0] == ids[0]);
        assert(ids.push(e).drop_first() =~= ids.drop_first().push(e));
        found_after_push(ids.drop_first(), e, text);
    }
}

proof fn resolved_alike(
    ids: Seq<(Seq<char>, u32)>,
    v: Map<Seq<char>, u32>,
    tokens: JsonView,
    name: Seq<char>,
)
    requires
        held_by(ids, v),
        resolves(ids, v, tokens, name),
    ensures
        token_fault(tokens, vocabulary(ids), name) == token_fault(tokens, v, name),
        token_fault(tokens, v, name) is None ==> token_id(tokens, vocabulary(ids), name)
            == token_id(tokens, v, name),
{
    if token_text(tokens, name) is Some {
        let text = token_text(tokens, name)->0;
        if vocabulary(ids).contains_key(text) {
            assert(v.contains_key(text));
        }
    }
}

/// A configuration depends on the ids of its special tokens alone: under two
/// vocabularies that agree on those, reading it fails alike, and else gives the
/// same configuration.
pub proof fn other_tokens_do_not_matter(
    c: LayaConfig,
    encoder: JsonView,
    agent: JsonView,
    tokens: JsonView,
    a: Map<Seq<char>, u32>,
    b: Map<Seq<char>, u32>,
)
    requires
        forall|name: Seq<char>|
            #![trigger token_text(tokens, name)]
            token_text(tokens, name) matches Some(text) ==> a.contains_key(text)
                == b.contains_key(text) && (a.contains_key(text) ==> a[text] == b[text]),
    ensures
        laya_fault(encoder, agent, tokens, a) == laya_fault(encoder, agent, tokens, b),
        laya_fault(encoder, agent, tokens, a) is None ==> c.describes(encoder, agent, tokens, a)
            == c.describes(encoder, agent, tokens, b),
{
    assert forall|name: Seq<char>| #[trigger] token_fault(tokens, a, name) == token_fault(
        tokens,
        b,
        name,
    ) by {
        assert(token_text(tokens, name) == token_text(tokens, name));
    }
    if laya_fault(encoder, agent, tokens, a) is None {
        assert(token_fault(tokens, a, "mask_token"@) is None);
        assert(token_fault(tokens, a, "cls_token"@) is None);
        assert(token_fault(tokens, a, "sep_token"@) is None);
        assert(token_fault(tokens, a, "pad_token"@) is None);
    }
}

fn push_special(tokens: &Json, t: &Tokenizer, name: &str, ids: &mut Vec<(String, u32)>)
    requires
        held_by(id_views(old(ids)@), vocabulary_of(*t)),
    ensures
        held_by(id_views(final(ids)@), vocabulary_of(*t)),
        resolves(id_views(final(ids)@), vocabulary_of(*t), tokens@, name@),
        vocabulary(id_views(old(ids)@)).dom().subset_of(vocabulary(id_views(final(ids)@)).dom()),
{
    let ghost had = id_views(ids@);
    if let Some(text) = token_form(tokens, name) {
        if let Some(id) = token_to_id(t, text.as_str()) {
            let ghost e = (text@, id);
            ids.push((text, id));
            proof {
                let now = id_views(ids@);
                assert(now =~= had.push(e));
                assert forall|k: Seq<char>| find(now, k) == (match find(had, k) {
                    Some(id) => Some(id),
                    None => if e.0 == k {
                        Some(e.1)
                    } else {
                        None
                    },
                }) by {
                    found_after_push(had, e, k);
                }
                assert forall|k: Seq<char>| #[trigger]
                    vocabulary(now).contains_key(k) implies vocabulary_of(*t).contains_key(k)
                    && vocabulary_of(*t)[k] == vocabulary(now)[k] by {
                    if find(had, k) is Some {
                        assert(vocabulary(had).contains_key(k));
                    }
                }
                assert(find(now, e.0) is Some);
            }
        }
    }
}

/// The special tokens of a configuration with their ids in a tokenizer's
/// vocabulary.
fn special_tokens(tokens: &Json, t: &Tokenizer) -> (r: Vec<(String, u32)>)
    ensures
        held_by(id_views(r@), vocabulary_of(*t)),
        resolves(id_views(r@), vocabulary_of(*t), tokens@, "mask_token"@),
        resolves(id_views(r@), vocabulary_of(*t), tokens@, "cls_token"@),
        resolves(id_views(r@), vocabulary_of(*t), tokens@, "sep_token"@),
        resolves(id_views(r@), vocabulary_of(*t), tokens@, "pad_token"@),
{
    let mut ids: Vec<(String, u32)> = Vec::new();
    assert(id_views(ids@).len() == 0);
    push_special(tokens, t, "mask_token", &mut ids);
    push_special(tokens, t, "cls_token", &mut ids);
    push_special(tokens, t, "sep_token", &mut ids);
    push_special(tokens, t, "pad_token", &mut ids);
    ids
}

/// Reads a configuration whose special tokens a tokenizer's vocabulary
/// resolves.
pub fn laya_config_of(encoder: &Json, agent: &Json, tokens: &Json, t: &Tokenizer) -> (r: Result<
    LayaConfig,
    LoadError,
>)
    requires
        laya_sane(encoder@),
    ensures
        match r {
            Ok(c) => laya_fault(encoder@, agent@, tokens@, vocabulary_of(*t)) is None
                && c.describes(encoder@, agent@, tokens@, vocabulary_of(*t)),
            Err(e) => laya_fault(encoder@, agent@, tokens@, vocabulary_of(*t)) == Some(e@),
        },
{
    let ids = special_tokens(tokens, t);
    proof {
        resolved_alike(id_views(ids@), vocabulary_of(*t), tokens@, "mask_token"@);
        resolved_alike(id_views(ids@), vocabulary_of(*t), tokens@, "cls_token"@);
        resolved_alike(id_views(ids@), vocabulary_of(*t), tokens@, "sep_token"@);
        resolved_alike(id_views(ids@), vocabulary_of(*t), tokens@, "pad_token"@);
    }
    LayaConfig::from_json(encoder, agent, tokens, &ids)
}

/// Reads an exported directory's configuration whose special tokens a
/// tokenizer's vocabulary resolves.
pub fn laya_export_of(config: &Json, t: &Tokenizer) -> (r: Result<LayaConfig, LoadError>)
    requires
        has_field(config@, "laya_agent"@) && has_field(config@, "laya_tokens"@) ==> laya_sane(
            config@,
        ),
    ensures
        match r {
            Ok(c) => export_fault(config@, vocabulary_of(*t)) is None && c.describes(
                config@,
                at(config@, "laya_agent"@),
                at(config@, "laya_tokens"@),
                vocabulary_of(*t),
            ),
            Err(e) => export_fault(config@, vocabulary_of(*t)) == Some(e@),
        },
{
    let (agent, tokens) = match export_parts(config) {
        Ok(p) => p,
        Err(e) => {
            return Err(e);
        },
    };
    laya_config_of(config, agent, tokens, t)
}

/// A JSON value as a token id.
pub open spec fn as_id(v: JsonView) -> Option<u32> {
    match v {
        JsonView::Uint(n) => if n <= u32::MAX {
            Some(n as u32)
        } else {
            None
        },
        _ => None,
    }
}

/// Why an entry of a page's special tokens has no id.
pub open spec fn no_id(key: Seq<char>) -> Seq<char> {
    "specials: "@ + key + " has no token id"@
}

/// Why a page's special tokens cannot be read, if they cannot: no object, or
/// the first entry without an id.
pub open spec fn specials_fault(v: JsonView) -> Option<Seq<char>> {
    match v {
        JsonView::Object(es) => entries_fault(es),
        _ => Some("specials: no object"@),
    }
}

/// The first entry without an id.
pub open spec fn entries_fault(es: Seq<(Seq<char>, JsonView)>) -> Option<Seq<char>>
    decreases es.len(),
{
    if es.len() == 0 {
        None
    } else if as_id(es[0].1) is None {
        Some(no_id(es[0].0))
    } else {
        entries_fault(es.drop_first())
    }
}

/// Entries with their ids.
pub open spec fn entry_ids(es: Seq<(Seq<char>, JsonView)>) -> Seq<(Seq<char>, u32)> {
    es.map_values(|e: (Seq<char>, JsonView)| (e.0, as_id(e.1)->0))
}

fn ids_in(es: &Vec<(String, Json)>) -> (r: Result<Vec<(String, u32)>, LoadError>)
    ensures
        ({
            let vs = es@.map_values(|e: (String, Json)| (e.0@, e.1@));
            match r {
                Ok(ids) => entries_fault(vs) is None && id_views(ids@) == entry_ids(vs),
                Err(e) => entries_fault(vs) == Some(e@),
            }
        }),
{
    let ghost vs = es@.map_values(|e: (String, Json)| (e.0@, e.1@));
    let mut out: Vec<(String, u32)> = Vec::new();
    let mut i: usize = 0;
    assert(vs.skip(0) =~= vs);
    while i < es.len()
        invariant
            0 <= i <= es@.len(),
            vs == es@.map_values(|e: (String, Json)| (e.0@, e.1@)),
            entries_fault(vs) == entries_fault(vs.skip(i as int)),
            id_views(out@) == entry_ids(vs.take(i as int)),
        decreases es@.len() - i,
    {
        let (key, v) = &es[i];
        proof {
            assert(vs[i as int] == (key@, v@));
            assert(vs.skip(i as int).drop_first() =~= vs.skip(i as int + 1));
        }
        let id: Option<u32> = match v {
            Json::Uint(n) => if *n <= u32::MAX as u64 {
                Some(*n as u32)
            } else {
                None
            },
            _ => None,
        };
        assert(id == as_id(v@));
        match id {
            Some(n) => {
                let ghost before = out@;
                out.push((key.clone(), n));
                proof {
                    let e = (key@, n);
                    assert(id_views(out@) =~= id_views(before).push(e));
                    assert(vs.take(i as int + 1) =~= vs.take(i as int).push(vs[i as int]));
                    assert(entry_ids(vs.take(i as int).push(vs[i as int])) =~= entry_ids(
                        vs.take(i as int),
                    ).push(e));
                }
            },
            None => {
                return Err(
                    LoadError::new(concat3("specials: ", key.as_str(), " has no token id")),
                );
            },
        }
        i += 1;
    }
    assert(vs.take(i as int) =~= vs);
    Ok(out)
}

/// Reads the special tokens that a page hands over: a JSON object of surface
/// forms and ids.
pub fn special_ids(text: &[u8]) -> (r: Result<Vec<(String, u32)>, LoadError>)
    ensures
        match (parsed(text@), r) {
            (Some(v), Ok(ids)) => specials_fault(v) is None && id_views(ids@) == entry_ids(
                v->Object_0,
            ),
            (Some(v), Err(e)) => specials_fault(v) == Some(e@),
            (None, Ok(_)) => false,
            (None, Err(e)) => e@ == unread(text@, "specials"@),
        },
{
    let v = match read_json(text, "specials") {
        Ok(v) => v,
        Err(e) => {
            return Err(e);
        },
    };
    match &v {
        Json::Object(es) => {
            assert(v@->Object_0 =~= es@.map_values(|e: (String, Json)| (e.0@, e.1@)));
            ids_in(es)
        },
        _ => Err(LoadError::of("specials: no object")),
    }
}

/// A catalogued tensor that is evaluated on the host.
pub open spec fn host_tensor(name: Seq<char>) -> bool {
    starts_in(name, "scorer."@) || starts_in(name, "act."@)
}

/// Whether a catalogued tensor is evaluated on the host.
pub fn is_host_tensor(name: &str) -> (r: bool)
    ensures
        r == host_tensor(name@),
{
    starts_with(name, "scorer.") || starts_with(name, "act.")
}

/// The name of a tensor of a numbered part.
pub open spec fn part_name(part: Seq<char>, l: int, s: Seq<char>) -> Seq<char> {
    part + decimal(l as nat) + "."@ + s
}

pub(crate) fn part_text(part: &str, l: usize, s: &str) -> (r: String)
    ensures
        r@ == part_name(part@, l as int, s@),
{
    let mut n: String = part.to_owned();
    push_decimal(&mut n, l as u64);
    n.append(".");
    n.append(s);
    n
}

/// The tensors of encoder layer `l`; the first has no attention norm.
pub open spec fn encoder_tensors(c: LayaConfig, l: int) -> Seq<NamedShape> {
    let d = c.d;
    let n = |s: Seq<char>| part_name("enc."@, l, s);
    (if l > 0 {
        seq![(n("attn_norm"@), seq![d])]
    } else {
        Seq::empty()
    }) + seq![
        (n("qkv"@), seq![(3 * d) as usize, d]),
        (n("o"@), seq![d, d]),
        (n("mlp_norm"@), seq![d]),
        (n("wi_val"@), seq![c.ff, d]),
        (n("wi_gate"@), seq![c.ff, d]),
        (n("wo"@), seq![d, c.ff]),
    ]
}

/// The tensors of decision-head layer `h`.
pub open spec fn head_tensors(c: LayaConfig, h: int) -> Seq<NamedShape> {
    let d = c.d;
    let n = |s: Seq<char>| part_name("head."@, h, s);
    seq![
        (n("norm1_w"@), seq![d]),
        (n("norm1_b"@), seq![d]),
        (n("in_proj"@), seq![(3 * d) as usize, d]),
        (n("in_proj_b"@), seq![(3 * d) as usize]),
        (n("out_proj"@), seq![d, d]),
        (n("out_proj_b"@), seq![d]),
        (n("norm2_w"@), seq![d]),
        (n("norm2_b"@), seq![d]),
        (n("l1"@), seq![(4 * d) as usize, d]),
        (n("l1_b"@), seq![(4 * d) as usize]),
        (n("l2"@), seq![d, (4 * d) as usize]),
        (n("l2_b"@), seq![d]),
    ]
}

/// The tensors before the layers.
pub open spec fn first_tensors(c: LayaConfig) -> Seq<NamedShape> {
    seq![("embed"@, seq![c.vocab, c.d]), ("embed_norm"@, seq![c.d]), ("final_norm"@, seq![c.d])]
        + (if c.type_emb {
        seq![("type_emb"@, seq![3, c.d])]
    } else {
        Seq::empty()
    })
}

/// The tensors before the layers and those of the first `n` encoder layers.
pub open spec fn encoder_upto(c: LayaConfig, n: nat) -> Seq<NamedShape>
    decreases n,
{
    if n == 0 {
        first_tensors(c)
    } else {
        encoder_upto(c, (n - 1) as nat) + encoder_tensors(c, n - 1)
    }
}

/// Those of the encoder and of the first `n` head layers.
pub open spec fn head_upto(c: LayaConfig, n: nat) -> Seq<NamedShape>
    decreases n,
{
    if n == 0 {
        encoder_upto(c, c.layers as nat)
    } else {
        head_upto(c, (n - 1) as nat) + head_tensors(c, n - 1)
    }
}

/// The tensors of the scorer and of the act head.
pub open spec fn scorer_tensors(c: LayaConfig) -> Seq<NamedShape> {
    let d = c.d;
    seq![
        ("scorer.norm_w"@, seq![d]),
        ("scorer.norm_b"@, seq![d]),
        ("scorer.l1"@, seq![d, d]),
        ("scorer.l1_b"@, seq![d]),
        ("scorer.l2"@, seq![1, d]),
        ("scorer.l2_b"@, seq![1usize]),
    ] + (if c.act_out > 0 {
        seq![
            ("act.l1"@, seq![c.act_hidden, (d + 4) as usize]),
            ("act.l1_b"@, seq![c.act_hidden]),
            ("act.l2"@, seq![c.act_out, c.act_hidden]),
            ("act.l2_b"@, seq![c.act_out]),
        ]
    } else {
        Seq::empty()
    })
}

/// Every tensor the engine needs.
pub open spec fn laya_tensors(c: LayaConfig) -> Seq<NamedShape> {
    head_upto(c, c.head_layers as nat) + scorer_tensors(c)
}

/// The widths of the tensors are sizes.
pub open spec fn laya_widths_fit(c: LayaConfig) -> bool {
    4 * c.d + 4 <= usize::MAX
}

fn push_encoder_tensors(c: &LayaConfig, l: usize, v: &mut Vec<TensorSpec>)
    requires
        laya_widths_fit(*c),
    ensures
        spec_views(final(v)@) == spec_views(old(v)@) + encoder_tensors(*c, l as int),
{
    let ghost before = spec_views(v@);
    let d: usize = c.d;
    if l > 0 {
        push1(v, part_text("enc.", l, "attn_norm").as_str(), d);
    }
    push2(v, part_text("enc.", l, "qkv").as_str(), 3 * d, d);
    push2(v, part_text("enc.", l, "o").as_str(), d, d);
    push1(v, part_text("enc.", l, "mlp_norm").as_str(), d);
    push2(v, part_text("enc.", l, "wi_val").as_str(), c.ff, d);
    push2(v, part_text("enc.", l, "wi_gate").as_str(), c.ff, d);
    push2(v, part_text("enc.", l, "wo").as_str(), d, c.ff);
    assert(spec_views(v@) =~= before + encoder_tensors(*c, l as int));
}

fn push_head_tensors(c: &LayaConfig, h: usize, v: &mut Vec<TensorSpec>)
    requires
        laya_widths_fit(*c),
    ensures
        spec_views(final(v)@) == spec_views(old(v)@) + head_tensors(*c, h as int),
{
    let ghost before = spec_views(v@);
    let d: usize = c.d;
    push1(v, part_text("head.", h, "norm1_w").as_str(), d);
    push1(v, part_text("head.", h, "norm1_b").as_str(), d);
    push2(v, part_text("head.", h, "in_proj").as_str(), 3 * d, d);
    push1(v, part_text("head.", h, "in_proj_b").as_str(), 3 * d);
    push2(v, part_text("head.", h, "out_proj").as_str(), d, d);
    push1(v, part_text("head.", h, "out_proj_b").as_str(), d);
    push1(v, part_text("head.", h, "norm2_w").as_str(), d);
    push1(v, part_text("head.", h, "norm2_b").as_str(), d);
    push2(v, part_text("head.", h, "l1").as_str(), 4 * d, d);
    push1(v, part_text("head.", h, "l1_b").as_str(), 4 * d);
    push2(v, part_text("head.", h, "l2").as_str(), d, 4 * d);
    push1(v, part_text("head.", h, "l2_b").as_str(), d);
    assert(spec_views(v@) =~= before + head_tensors(*c, h as int));
}

impl LayaConfig {
    /// Every tensor the engine needs. Linears are `[out, in]`; those of the
    /// scorer and of the act head stay on the host.
    pub fn tensors(&self) -> (r: Vec<TensorSpec>)
        requires
            laya_widths_fit(*self),
        ensures
            spec_views(r@) == laya_tensors(*self),
    {
        let d: usize = self.d;
        let mut v: Vec<TensorSpec> = Vec::new();
        push2(&mut v, "embed", self.vocab, d);
        push1(&mut v, "embed_norm", d);
        push1(&mut v, "final_norm", d);
        if self.type_emb {
            push2(&mut v, "type_emb", 3, d);
        }
        assert(spec_views(v@) =~= first_tensors(*self));
        let mut l: usize = 0;
        while l < self.layers
            invariant
                0 <= l <= self.layers,
                laya_widths_fit(*self),
                spec_views(v@) == encoder_upto(*self, l as nat),
            decreases self.layers - l,
        {
            push_encoder_tensors(self, l, &mut v);
            l += 1;
        }
        let mut h: usize = 0;
        while h < self.head_layers
            invariant
                0 <= h <= self.head_layers,
                laya_widths_fit(*self),
                spec_views(v@) == head_upto(*self, h as nat),
            decreases self.head_layers - h,
        {
            push_head_tensors(self, h, &mut v);
            h += 1;
        }
        let ghost before = spec_views(v@);
        push1(&mut v, "scorer.norm_w", d);
        push1(&mut v, "scorer.norm_b", d);
        push2(&mut v, "scorer.l1", d, d);
        push1(&mut v, "scorer.l1_b", d);
        push2(&mut v, "scorer.l2", 1, d);
        push1(&mut v, "scorer.l2_b", 1);
        if self.act_out > 0 {
            push2(&mut v, "act.l1", self.act_hidden, d + 4);
            push1(&mut v, "act.l1_b", self.act_hidden);
            push2(&mut v, "act.l2", self.act_out, self.act_hidden);
            push1(&mut v, "act.l2_b", self.act_out);
        }
        assert(spec_views(v@) =~= before + scorer_tensors(*self));
        v
    }
}

/// Every size, number and token of a configuration is the one that its file
/// holds under its own name: the encoder's sizes in the encoder's, the prompt
/// budgets in the agent's, the special tokens in the tokenizer's.
pub proof fn laya_fields_are_read_by_name(
    c: LayaConfig,
    encoder: JsonView,
    agent: JsonView,
    tokens: JsonView,
    ids: Map<Seq<char>, u32>,
    n: u64,
    x: u64,
    s: Seq<char>,
)
    requires
        c.describes(encoder, agent, tokens, ids),
        n <= usize::MAX,
    ensures
        at(encoder, "vocab_size"@) == JsonView::Uint(n) ==> c.vocab == n,
        at(encoder, "hidden_size"@) == JsonView::Uint(n) ==> c.d == n,
        at(encoder, "num_hidden_layers"@) == JsonView::Uint(n) ==> c.layers == n,
        at(encoder, "num_attention_heads"@) == JsonView::Uint(n) ==> c.heads == n,
        at(encoder, "intermediate_size"@) == JsonView::Uint(n) ==> c.ff == n,
        at(encoder, "local_attention"@) == JsonView::Uint(n) ==> c.window == n / 2,
        at(encoder, "local_attention"@) is Null ==> c.window == 64,
        at(agent, "head_layers"@) == JsonView::Uint(n) ==> c.head_layers == n,
        at(agent, "head_layers"@) is Null ==> c.head_layers == 2,
        at(agent, "max_len"@) == JsonView::Uint(n) ==> c.max_len == n,
        at(agent, "max_len"@) is Null ==> c.max_len == 512,
        at(agent, "head_max_len"@) == JsonView::Uint(n) ==> c.head_max_len == n,
        at(agent, "head_max_len"@) is Null ==> c.head_max_len == 192,
        c.type_emb <==> at(agent, "type_emb"@) != JsonView::Bool(false),
        at(agent, "act_head"@) == JsonView::Bool(false) ==> c.act_out == 0,
        at(agent, "act_head"@) != JsonView::Bool(false) && at(agent, "act_costs"@) is Null
            ==> c.act_out == 1,
        at(agent, "act_head"@) != JsonView::Bool(false) && at(agent, "act_costs"@) is Object && at(
            agent,
            "act_costs"@,
        )->Object_0.len() < usize::MAX ==> c.act_out == at(agent, "act_costs"@)->Object_0.len()
            + 1,
        at(tokens, "cls_token"@) == JsonView::Str(s) ==> c.cls == ids[s],
        at(tokens, "sep_token"@) == JsonView::Str(s) ==> c.sep == ids[s],
        at(tokens, "pad_token"@) == JsonView::Str(s) ==> c.pad == ids[s],
        at(tokens, "mask_token"@) == JsonView::Str(s) ==> c.mask == ids[s] && c.mask_text@ == s,
        !(at(tokens, "mask_token"@) is Str) && at(at(tokens, "mask_token"@), "content"@)
            == JsonView::Str(s) ==> c.mask == ids[s] && c.mask_text@ == s,
        double_field(encoder, "norm_eps"@) == Some(x) ==> c.eps == x,
        double_field(encoder, "norm_eps"@) is None && double_field(encoder, "layer_norm_eps"@)
            == Some(x) ==> c.eps == x,
        double_field(at(at(encoder, "rope_parameters"@), "full_attention"@), "rope_theta"@)
            == Some(x) ==> c.theta_global == x,
        double_field(at(at(encoder, "rope_parameters"@), "full_attention"@), "rope_theta"@) is None
            && double_field(encoder, "global_rope_theta"@) == Some(x) ==> c.theta_global == x,
        double_field(at(at(encoder, "rope_parameters"@), "sliding_attention"@), "rope_theta"@)
            == Some(x) ==> c.theta_local == x,
        double_field(
            at(at(encoder, "rope_parameters"@), "sliding_attention"@),
            "rope_theta"@,
        ) is None && double_field(encoder, "local_rope_theta"@) == Some(x) ==> c.theta_local == x,
{
}

/// Listed layers have the type that they are listed with; of those that are
/// not, every third is global, or every one that the configuration says,
/// counted from the first.
pub proof fn laya_layers_are_typed(
    c: LayaConfig,
    encoder: JsonView,
    agent: JsonView,
    tokens: JsonView,
    ids: Map<Seq<char>, u32>,
    i: int,
    n: u64,
)
    requires
        c.describes(encoder, agent, tokens, ids),
        laya_fault(encoder, agent, tokens, ids) is None,
        0 <= i < c.layers,
        0 < n <= usize::MAX,
    ensures
        c.sliding@.len() == c.layers,
        at(encoder, "layer_types"@) is Array ==> (c.sliding@[i] <==> at(
            encoder,
            "layer_types"@,
        )->Array_0[i] == JsonView::Str("sliding_attention"@)),
        at(encoder, "layer_types"@) is Null && at(encoder, "global_attn_every_n_layers"@) is Null
            ==> (c.sliding@[i] <==> i % 3 != 0),
        at(encoder, "layer_types"@) is Null && at(encoder, "global_attn_every_n_layers"@)
            == JsonView::Uint(n) ==> (c.sliding@[i] <==> i % (n as int) != 0),
        c.temperature@.len() == 3,
        4 < c.head_max_len < c.max_len,
        c.heads > 0 && c.d % c.heads == 0 && c.d % 32 == 0 && c.ff % 32 == 0 && c.d <= 2048,
{
}

/// Temperatures are the configuration's, per question type in the order of the
/// types and per type and count of options by name; what is no number counts
/// as one.
pub proof fn temperatures_are_the_files_own(
    c: LayaConfig,
    encoder: JsonView,
    agent: JsonView,
    tokens: JsonView,
    ids: Map<Seq<char>, u32>,
    i: int,
    x: u64,
)
    requires
        c.describes(encoder, agent, tokens, ids),
        0 <= i,
    ensures
        at(agent, "temperature"@) is Array && i < at(agent, "temperature"@)->Array_0.len()
            && as_double(at(agent, "temperature"@)->Array_0[i]) == Some(x) ==> c.temperature@[i]
            == x,
        at(agent, "temperature"@) is Null && i < 3 ==> c.temperature@[i] == ONE,
        at(agent, "temperature_by_options"@) is Object && i < at(
            agent,
            "temperature_by_options"@,
        )->Object_0.len() ==> {
            let e = at(agent, "temperature_by_options"@)->Object_0[i];
            &&& c.temperature_by_options@[i].0@ == e.0
            &&& as_double(e.1) == Some(x) ==> c.temperature_by_options@[i].1 == x
        },
{
    if at(agent, "temperature_by_options"@) is Object && i < at(
        agent,
        "temperature_by_options"@,
    )->Object_0.len() {
        let own = c.temperature_by_options@;
        let v = override_views(own);
        assert(v.len() == own.len() && v == overrides_of(agent));
        assert(v[i] == (own[i].0@, own[i].1));
    }
}

/// Counts of options fall into the buckets up to two, three to five, six to ten
/// and more.
pub proof fn counts_fall_into_buckets(k: nat)
    ensures
        bucket(k) == "2"@ <==> k <= 2,
        bucket(k) == "3-5"@ <==> 3 <= k <= 5,
        bucket(k) == "6-10"@ <==> 6 <= k <= 10,
        bucket(k) == "11+"@ <==> k > 10,
        qtype_name(0) == QTYPES@[0]@ && qtype_name(1) == QTYPES@[1]@ && qtype_name(2)
            == QTYPES@[2]@,
{
    reveal_strlit("2");
    reveal_strlit("3-5");
    reveal_strlit("6-10");
    reveal_strlit("11+");
    assert("3-5"@[1] != "11+"@[1]);
    assert("2"@.len() == 1 && "3-5"@.len() == 3 && "6-10"@.len() == 4 && "11+"@.len() == 3);
}

/// Exactly the scorer's and the act head's tensors are evaluated on the host.
pub proof fn the_scorer_is_evaluated_on_the_host(c: LayaConfig, l: int, i: int)
    requires
        0 <= l,
        0 <= i,
    ensures
        i < scorer_tensors(c).len() ==> host_tensor(scorer_tensors(c)[i].0),
        i < first_tensors(c).len() ==> !host_tensor(first_tensors(c)[i].0),
        i < encoder_tensors(c, l).len() ==> !host_tensor(encoder_tensors(c, l)[i].0),
        i < head_tensors(c, l).len() ==> !host_tensor(head_tensors(c, l)[i].0),
{
    reveal_strlit("scorer.");
    reveal_strlit("act.");
    reveal_strlit("enc.");
    reveal_strlit("head.");
    reveal_strlit("embed");
    reveal_strlit("embed_norm");
    reveal_strlit("final_norm");
    reveal_strlit("type_emb");
    if i < scorer_tensors(c).len() {
        reveal_strlit("scorer.norm_w");
        reveal_strlit("scorer.norm_b");
        reveal_strlit("scorer.l1");
        reveal_strlit("scorer.l1_b");
        reveal_strlit("scorer.l2");
        reveal_strlit("scorer.l2_b");
        reveal_strlit("act.l1");
        reveal_strlit("act.l1_b");
        reveal_strlit("act.l2");
        reveal_strlit("act.l2_b");
        let name = scorer_tensors(c)[i].0;
        if i < 6 {
            assert(name.take(7) =~= "scorer."@);
        } else {
            assert(name.take(4) =~= "act."@);
        }
    }
    if i < first_tensors(c).len() {
        let name = first_tensors(c)[i].0;
        assert(name[0] != 's' && name[0] != 'a');
        not_on_host(name);
    }
    if i < encoder_tensors(c, l).len() {
        let name = encoder_tensors(c, l)[i].0;
        assert(name[0] == 'e');
        not_on_host(name);
    }
    if i < head_tensors(c, l).len() {
        let name = head_tensors(c, l)[i].0;
        assert(name[0] == 'h');
        not_on_host(name);
    }
}

proof fn not_on_host(name: Seq<char>)
    requires
        name.len() > 0,
        name[0] != 's',
        name[0] != 'a',
    ensures
        !host_tensor(name),
{
    reveal_strlit("scorer.");
    reveal_strlit("act.");
    if starts_in(name, "scorer."@) {
        assert(name.take(7)[0] == 's');
    }
    if starts_in(name, "act."@) {
        assert(name.take(4)[0] == 'a');
    }
}

/// Every entry of a page's special tokens has its own id, and is refused where
/// one has none.
pub proof fn special_tokens_keep_their_ids(es: Seq<(Seq<char>, JsonView)>, i: int, n: u64)
    requires
        0 <= i < es.len(),
    ensures
        entry_ids(es).len() == es.len(),
        entry_ids(es)[i].0 == es[i].0,
        es[i].1 == JsonView::Uint(n) && n <= u32::MAX ==> entry_ids(es)[i].1 == n,
        specials_fault(JsonView::Object(es)) is None ==> es[i].1 is Uint && es[i].1->Uint_0
            <= u32::MAX,
    decreases es.len(),
{
    if entries_fault(es) is None && i > 0 {
        special_tokens_keep_their_ids(es.drop_first(), i - 1, n);
        assert(es.drop_first()[i - 1] == es[i]);
    }
}

} // verus!
