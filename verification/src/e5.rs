//! Sentence embedders with a (state, option) head: the encoder maps a text to
//! a unit vector, a request is the rendered state and every option's
//! description, and the head scores each (state, option) pair.
//!
//! Two encoders share one description: BERT is post-LayerNorm with absolute
//! positions and biases; ModernBERT is pre-LayerNorm with RoPE, a gated
//! activation and no biases.

use vstd::prelude::*;
use vstd::string::StringExecFns;

use crate::bert::{
    check_widths, eps_of, has_period, local_layers, missing_in, need_in, period_sane, read_eps,
    read_local_layers, read_theta, theta_of, types_message, types_text, widths_fault, GLOBAL_THETA,
};
use crate::error::LoadError;
use crate::json::{as_unsigned, at, has_field, Json, JsonView};
use crate::laya::{is_temperature, part_name, part_text};
use crate::model::{double_field, 
    double_at_or, double_or, push1, push2, size_at_or, size_field, size_or, spec_views, NamedShape,
    TensorSpec, ONE, TEN_THOUSAND, ZERO,
};
use crate::text::{concat2, concat3, decimal, push_decimal, quote, quoted, same};

verus! {

/// The encoder's family.
#[derive(Debug, Clone, Copy, PartialEq, Eq, Structural)]
pub enum Arch {
    /// Post-LN, absolute positions, token-type row, biases everywhere.
    Bert,
    /// Pre-LN, RoPE with local and global layers, gated, no biases.
    ModernBert,
}

/// One millionth of one millionth, as the bit pattern of its double.
pub const PICO: u64 = 0x3d71_9799_812d_ea11;

/// A checkpoint's shape, head and calibration. Numbers that are no integers
/// are held as the bit patterns of their doubles.
#[derive(Debug)]
pub struct E5Config {
    pub arch: Arch,
    pub vocab: usize,
    pub d: usize,
    pub layers: usize,
    pub heads: usize,
    pub ff: usize,
    pub max_pos: usize,
    pub eps: u64,
    /// LayerNorms carry a bias.
    pub norm_bias: bool,
    /// Per layer: true = local attention; the inclusive local distance; the
    /// RoPE bases.
    pub sliding: Vec<bool>,
    pub window: usize,
    pub theta_global: u64,
    pub theta_local: u64,
    /// Longest sequence, special tokens included.
    pub max_len: usize,
    /// Head: input width, hidden width, and the calibration temperature its
    /// logits are divided by.
    pub head_in: usize,
    pub head_hidden: usize,
    pub temperature: u64,
    /// Text put in front of every state and option.
    pub prefix: String,
    pub cls: u32,
    pub sep: u32,
    pub pad: u32,
    pub name: String,
}

/// The family a configuration names.
pub open spec fn arch_named(config: JsonView) -> Option<Arch> {
    match at(config, "model_type"@) {
        JsonView::Str(s) => if s == "bert"@ {
            Some(Arch::Bert)
        } else if s == "modernbert"@ {
            Some(Arch::ModernBert)
        } else {
            None
        },
        _ => None,
    }
}

/// A text that may be missing, as an error names it.
pub open spec fn maybe_text(v: JsonView) -> Seq<char> {
    match v {
        JsonView::Str(s) => "Some("@ + quoted(s) + ")"@,
        _ => "None"@,
    }
}

/// A field that holds another text than the only one allowed.
pub open spec fn other_text(v: JsonView, key: Seq<char>, want: Seq<char>) -> Option<Seq<char>> {
    match at(v, key) {
        JsonView::Str(s) => if s != want {
            Some(key + " "@ + s + " is not "@ + want)
        } else {
            None
        },
        _ => None,
    }
}

/// What is wrong with the kind of encoder, if anything.
pub open spec fn kind_fault(config: JsonView) -> Option<Seq<char>> {
    if arch_named(config) is None {
        Some(
            "model_type "@ + maybe_text(at(config, "model_type"@))
                + " is not bert or modernbert"@,
        )
    } else if other_text(config, "hidden_act"@, "gelu"@) is Some {
        other_text(config, "hidden_act"@, "gelu"@)
    } else if other_text(config, "hidden_activation"@, "gelu"@) is Some {
        other_text(config, "hidden_activation"@, "gelu"@)
    } else if arch_named(config) == Some(Arch::Bert) {
        other_text(config, "position_embedding_type"@, "absolute"@)
    } else {
        None
    }
}

/// The head and the token ids of a configuration.
pub open spec fn head_part(config: JsonView) -> JsonView {
    at(config, "grande_e5"@)
}

/// The first of the sizes that is missing, or local layers that are not one
/// per layer.
pub open spec fn sizes_fault(config: JsonView) -> Option<Seq<char>> {
    let file = "config.json"@;
    let layers = size_or(config, "num_hidden_layers"@, 0);
    if size_field(config, "hidden_size"@) is None {
        Some(missing_in(file, "hidden_size"@))
    } else if size_field(config, "max_position_embeddings"@) is None {
        Some(missing_in(file, "max_position_embeddings"@))
    } else if size_field(config, "num_hidden_layers"@) is None {
        Some(missing_in(file, "num_hidden_layers"@))
    } else if arch_named(config) == Some(Arch::ModernBert) && local_layers(
        config,
        layers as nat,
    ).len() != layers {
        Some(types_message(local_layers(config, layers as nat).len(), layers as nat))
    } else if size_field(config, "vocab_size"@) is None {
        Some(missing_in(file, "vocab_size"@))
    } else if size_field(config, "num_attention_heads"@) is None {
        Some(missing_in(file, "num_attention_heads"@))
    } else if size_field(config, "intermediate_size"@) is None {
        Some(missing_in(file, "intermediate_size"@))
    } else {
        None
    }
}

/// The first of the head's numbers that is missing.
pub open spec fn head_fault(g: JsonView) -> Option<Seq<char>> {
    let m = |key: Seq<char>| Some("config.json: missing grande_e5."@ + key);
    if as_unsigned(at(g, "head_hidden"@)) is None {
        m("head_hidden"@)
    } else if as_unsigned(at(g, "cls"@)) is None {
        m("cls"@)
    } else if as_unsigned(at(g, "sep"@)) is None {
        m("sep"@)
    } else if as_unsigned(at(g, "pad"@)) is None {
        m("pad"@)
    } else {
        None
    }
}

/// What the engine cannot run of a checkpoint, if anything.
pub open spec fn limits_fault(
    widths: (nat, nat, nat),
    head_in: nat,
    max_len: nat,
    max_pos: nat,
    temperature: u64,
) -> Option<Seq<char>> {
    let (d, heads, ff) = widths;
    if widths_fault(d, heads, ff) is Some {
        widths_fault(d, heads, ff)
    } else if head_in != 4 * d {
        Some("head_in "@ + decimal(head_in) + " is not 4 x hidden_size"@)
    } else if max_len < 3 || max_len > max_pos {
        Some("max_len "@ + decimal(max_len) + " outside 3..="@ + decimal(max_pos))
    } else if !is_temperature(temperature) {
        Some("temperature must be finite and positive"@)
    } else {
        None
    }
}

/// What the engine cannot run of a configuration, if anything.
pub open spec fn e5_validate_fault(c: E5Config) -> Option<Seq<char>> {
    limits_fault(
        (c.d as nat, c.heads as nat, c.ff as nat),
        c.head_in as nat,
        c.max_len as nat,
        c.max_pos as nat,
        c.temperature,
    )
}

/// The longest sequence of a configuration.
pub open spec fn max_len_of(config: JsonView) -> usize {
    let max_pos = size_or(config, "max_position_embeddings"@, 0);
    size_or(
        head_part(config),
        "max_len"@,
        if max_pos < 512 {
            max_pos
        } else {
            512
        },
    )
}

/// The head's input width of a configuration.
pub open spec fn head_in_of(config: JsonView) -> usize {
    size_or(head_part(config), "head_in"@, (4 * size_or(config, "hidden_size"@, 0)) as usize)
}

/// A text of the head's description, or its default.
pub open spec fn text_or(g: JsonView, key: Seq<char>, default: Seq<char>) -> Seq<char> {
    match at(g, key) {
        JsonView::Str(s) => s,
        _ => default,
    }
}

/// The number under a key, as a token id.
pub open spec fn id_at(g: JsonView, key: Seq<char>) -> u32 {
    as_unsigned(at(g, key))->0 as u32
}

impl E5Config {
    /// The configuration that an exported `config.json` describes.
    pub open spec fn describes(self, config: JsonView) -> bool {
        let g = head_part(config);
        let n = size_or(config, "num_hidden_layers"@, 0);
        &&& Some(self.arch) == arch_named(config)
        &&& self.vocab == size_or(config, "vocab_size"@, 0)
        &&& self.d == size_or(config, "hidden_size"@, 0)
        &&& self.layers == n
        &&& self.heads == size_or(config, "num_attention_heads"@, 0)
        &&& self.ff == size_or(config, "intermediate_size"@, 0)
        &&& self.max_pos == size_or(config, "max_position_embeddings"@, 0)
        &&& self.max_len == max_len_of(config)
        &&& self.head_in == head_in_of(config)
        &&& size_field(g, "head_hidden"@) == Some(self.head_hidden)
        &&& self.temperature == double_or(g, "temperature"@, ONE)
        &&& self.prefix@ == text_or(g, "prefix"@, "query: "@)
        &&& self.cls == id_at(g, "cls"@)
        &&& self.sep == id_at(g, "sep"@)
        &&& self.pad == id_at(g, "pad"@)
        &&& self.name@ == text_or(g, "name"@, "e5"@)
        &&& match self.arch {
            Arch::Bert => {
                &&& self.sliding@ == Seq::new(n as nat, |i: int| false)
                &&& self.window == 0
                &&& self.theta_global == ZERO
                &&& self.theta_local == ZERO
                &&& self.eps == double_or(config, "layer_norm_eps"@, PICO)
                &&& self.norm_bias
            },
            Arch::ModernBert => {
                &&& self.sliding@ == local_layers(config, n as nat)
                &&& self.window == size_or(config, "local_attention"@, 128) / 2
                &&& self.theta_global == theta_of(
                    config,
                    "full_attention"@,
                    "global_rope_theta"@,
                    GLOBAL_THETA,
                )
                &&& self.theta_local == theta_of(
                    config,
                    "sliding_attention"@,
                    "local_rope_theta"@,
                    TEN_THOUSAND,
                )
                &&& self.eps == eps_of(config)
                &&& self.norm_bias == (at(config, "norm_bias"@) == JsonView::Bool(true))
            },
        }
    }
}

/// Why a configuration cannot be read, if it cannot: the first of the faults,
/// in the order in which they are looked for.
pub open spec fn e5_fault(config: JsonView) -> Option<Seq<char>> {
    if kind_fault(config) is Some {
        kind_fault(config)
    } else if !has_field(config, "grande_e5"@) {
        Some("config.json: missing grande_e5"@)
    } else if sizes_fault(config) is Some {
        sizes_fault(config)
    } else if head_fault(head_part(config)) is Some {
        head_fault(head_part(config))
    } else {
        limits_fault(
            (
                size_or(config, "hidden_size"@, 0) as nat,
                size_or(config, "num_attention_heads"@, 0) as nat,
                size_or(config, "intermediate_size"@, 0) as nat,
            ),
            head_in_of(config) as nat,
            max_len_of(config) as nat,
            size_or(config, "max_position_embeddings"@, 0) as nat,
            double_or(head_part(config), "temperature"@, ONE),
        )
    }
}

/// The configuration is read as far as its layers: it is of a known kind, has
/// a head, and says how wide, how long and how deep it is.
pub open spec fn reads_layers(config: JsonView) -> bool {
    &&& kind_fault(config) is None
    &&& has_field(config, "grande_e5"@)
    &&& size_field(config, "hidden_size"@) is Some
    &&& size_field(config, "max_position_embeddings"@) is Some
    &&& size_field(config, "num_hidden_layers"@) is Some
}

/// Numbers that a machine can compute with: four times the width is a size,
/// and a ModernBERT's local layers come in a period.
pub open spec fn e5_sane(config: JsonView) -> bool {
    reads_layers(config) ==> {
        &&& 4 * size_or(config, "hidden_size"@, 0) <= usize::MAX
        &&& arch_named(config) == Some(Arch::ModernBert) ==> period_sane(
            config,
            size_or(config, "num_hidden_layers"@, 0) as nat,
        )
    }
}

/// Whether a machine can compute with the numbers of a configuration.
pub fn is_sane(config: &Json) -> (r: bool)
    ensures
        r == e5_sane(config@),
{
    match read_kind(config) {
        Ok(arch) => {
            let read = config.get("grande_e5").is_some() && config.unsigned_at(
                "hidden_size",
            ).is_some() && config.unsigned_at("max_position_embeddings").is_some()
                && config.unsigned_at("num_hidden_layers").is_some();
            let period = match arch {
                Arch::Bert => true,
                Arch::ModernBert => has_period(config),
            };
            !read || (size_at_or(config, "hidden_size", 0) <= usize::MAX / 4 && period)
        },
        Err(_) => true,
    }
}

fn check_text(config: &Json, key: &str, want: &str) -> (r: Result<(), LoadError>)
    ensures
        match r {
            Ok(_) => other_text(config@, key@, want@) is None,
            Err(e) => other_text(config@, key@, want@) == Some(e@),
        },
{
    match config.text_at(key) {
        Some(s) => {
            if !same(s.as_str(), want) {
                let mut m: String = concat3(key, " ", s.as_str());
                m.append(" is not ");
                m.append(want);
                return Err(LoadError::new(m));
            }
            Ok(())
        },
        None => Ok(()),
    }
}

fn read_kind(config: &Json) -> (r: Result<Arch, LoadError>)
    ensures
        match r {
            Ok(a) => kind_fault(config@) is None && arch_named(config@) == Some(a),
            Err(e) => kind_fault(config@) == Some(e@),
        },
{
    let named: Option<Arch> = match config.text_at("model_type") {
        Some(s) => if same(s.as_str(), "bert") {
            Some(Arch::Bert)
        } else if same(s.as_str(), "modernbert") {
            Some(Arch::ModernBert)
        } else {
            None
        },
        None => None,
    };
    let arch = match named {
        Some(a) => a,
        None => {
            let got: String = match config.text_at("model_type") {
                Some(s) => concat3("Some(", quote(s.as_str()).as_str(), ")"),
                None => "None".to_owned(),
            };
            return Err(
                LoadError::new(
                    concat3("model_type ", got.as_str(), " is not bert or modernbert"),
                ),
            );
        },
    };
    match check_text(config, "hidden_act", "gelu") {
        Ok(_) => {},
        Err(e) => {
            return Err(e);
        },
    }
    match check_text(config, "hidden_activation", "gelu") {
        Ok(_) => {},
        Err(e) => {
            return Err(e);
        },
    }
    match arch {
        Arch::Bert => match check_text(config, "position_embedding_type", "absolute") {
            Ok(_) => Ok(arch),
            Err(e) => Err(e),
        },
        Arch::ModernBert => Ok(arch),
    }
}

fn need_of_head(g: &Json, key: &str) -> (r: Result<u64, LoadError>)
    ensures
        match r {
            Ok(n) => as_unsigned(at(g@, key@)) == Some(n),
            Err(e) => as_unsigned(at(g@, key@)) is None && e@
                == "config.json: missing grande_e5."@ + key@,
        },
{
    match g.unsigned_at(key) {
        Some(n) => Ok(n),
        None => Err(LoadError::new(concat2("config.json: missing grande_e5.", key))),
    }
}

fn text_at_or(g: &Json, key: &str, default: &str) -> (r: String)
    ensures
        r@ == text_or(g@, key@, default@),
{
    match g.text_at(key) {
        Some(s) => s.clone(),
        None => default.to_owned(),
    }
}

fn none_local(n: usize) -> (r: Vec<bool>)
    ensures
        r@ == Seq::new(n as nat, |i: int| false),
{
    let mut out: Vec<bool> = Vec::new();
    let mut i: usize = 0;
    while i < n
        invariant
            0 <= i <= n,
            out@ == Seq::new(i as nat, |j: int| false),
        decreases n - i,
    {
        out.push(false);
        i += 1;
        assert(out@ =~= Seq::new(i as nat, |j: int| false));
    }
    out
}

impl E5Config {
    /// Reads an exported directory's `config.json`: the encoder's
    /// configuration carrying the head and the token ids under `grande_e5`.
    pub fn from_json(config: &Json) -> (r: Result<E5Config, LoadError>)
        requires
            e5_sane(config@),
        ensures
            match r {
                Ok(c) => e5_fault(config@) is None && c.describes(config@),
                Err(e) => e5_fault(config@) == Some(e@),
            },
    {
        let arch = match read_kind(config) {
            Ok(a) => a,
            Err(e) => {
                return Err(e);
            },
        };
        let g = match config.get("grande_e5") {
            Some(g) => g,
            None => {
                return Err(LoadError::of("config.json: missing grande_e5"));
            },
        };
        let d: usize = match need_in(config, "config.json", "hidden_size") {
            Ok(n) => n,
            Err(e) => {
                return Err(e);
            },
        };
        let max_pos: usize = match need_in(config, "config.json", "max_position_embeddings") {
            Ok(n) => n,
            Err(e) => {
                return Err(e);
            },
        };
        let layers: usize = match need_in(config, "config.json", "num_hidden_layers") {
            Ok(n) => n,
            Err(e) => {
                return Err(e);
            },
        };
        let sliding: Vec<bool> = match arch {
            Arch::Bert => none_local(layers),
            Arch::ModernBert => {
                let s = read_local_layers(config, layers);
                if s.len() != layers {
                    return Err(LoadError::new(types_text(s.len(), layers)));
                }
                s
            },
        };
        let (window, theta_global, theta_local, eps, norm_bias) = match arch {
            Arch::Bert => (
                0,
                ZERO,
                ZERO,
                double_at_or(Some(config), "layer_norm_eps", PICO),
                true,
            ),
            Arch::ModernBert => (
                size_at_or(config, "local_attention", 128) / 2,
                read_theta(config, "full_attention", "global_rope_theta", GLOBAL_THETA),
                read_theta(config, "sliding_attention", "local_rope_theta", TEN_THOUSAND),
                read_eps(config),
                match config.flag_at("norm_bias") {
                    Some(b) => b,
                    None => false,
                },
            ),
        };
        let vocab: usize = match need_in(config, "config.json", "vocab_size") {
            Ok(n) => n,
            Err(e) => {
                return Err(e);
            },
        };
        let heads: usize = match need_in(config, "config.json", "num_attention_heads") {
            Ok(n) => n,
            Err(e) => {
                return Err(e);
            },
        };
        let ff: usize = match need_in(config, "config.json", "intermediate_size") {
            Ok(n) => n,
            Err(e) => {
                return Err(e);
            },
        };
        let longest: usize = if max_pos < 512 {
            max_pos
        } else {
            512
        };
        let head_hidden: u64 = match need_of_head(g, "head_hidden") {
            Ok(n) => n,
            Err(e) => {
                return Err(e);
            },
        };
        let cls: u64 = match need_of_head(g, "cls") {
            Ok(n) => n,
            Err(e) => {
                return Err(e);
            },
        };
        let sep: u64 = match need_of_head(g, "sep") {
            Ok(n) => n,
            Err(e) => {
                return Err(e);
            },
        };
        let pad: u64 = match need_of_head(g, "pad") {
            Ok(n) => n,
            Err(e) => {
                return Err(e);
            },
        };
        let cfg = E5Config {
            arch,
            vocab,
            d,
            layers,
            heads,
            ff,
            max_pos,
            eps,
            norm_bias,
            sliding,
            window,
            theta_global,
            theta_local,
            max_len: size_at_or(g, "max_len", longest),
            head_in: size_at_or(g, "head_in", 4 * d),
            head_hidden: head_hidden as usize,
            temperature: double_at_or(Some(g), "temperature", ONE),
            prefix: text_at_or(g, "prefix", "query: "),
            cls: cls as u32,
            sep: sep as u32,
            pad: pad as u32,
            name: text_at_or(g, "name", "e5"),
        };
        assert(cfg.describes(config@));
        match cfg.validate() {
            Ok(_) => Ok(cfg),
            Err(e) => Err(e),
        }
    }

    /// The width of one attention head.
    pub fn head_dim(&self) -> (r: usize)
        requires
            self.heads > 0,
        ensures
            r == self.d as nat / self.heads as nat,
    {
        self.d / self.heads
    }

    /// Checks a checkpoint against what the engine can run.
    pub fn validate(&self) -> (r: Result<(), LoadError>)
        requires
            4 * self.d <= usize::MAX,
        ensures
            match r {
                Ok(_) => e5_validate_fault(*self) is None,
                Err(e) => e5_validate_fault(*self) == Some(e@),
            },
    {
        match check_widths(self.d, self.heads, self.ff) {
            Ok(_) => {},
            Err(e) => {
                return Err(e);
            },
        }
        if self.head_in != 4 * self.d {
            let mut m: String = "head_in ".to_owned();
            push_decimal(&mut m, self.head_in as u64);
            m.append(" is not 4 x hidden_size");
            return Err(LoadError::new(m));
        }
        if self.max_len < 3 || self.max_len > self.max_pos {
            let mut m: String = "max_len ".to_owned();
            push_decimal(&mut m, self.max_len as u64);
            m.append(" outside 3..=");
            push_decimal(&mut m, self.max_pos as u64);
            return Err(LoadError::new(m));
        }
        if !(0x3690_0000_0000_0000 < self.temperature && self.temperature
            < 0x47ef_ffff_f000_0000) {
            return Err(LoadError::of("temperature must be finite and positive"));
        }
        Ok(())
    }
}

/// A norm's tensors: its weight, and its bias where norms have one.
pub open spec fn norm_tensors(c: E5Config, name: Seq<char>) -> Seq<NamedShape> {
    if c.norm_bias {
        seq![(name + "_w"@, seq![c.d]), (name + "_b"@, seq![c.d])]
    } else {
        seq![(name + "_w"@, seq![c.d])]
    }
}

/// The tensors of layer `l`.
pub open spec fn e5_layer_tensors(c: E5Config, l: int) -> Seq<NamedShape> {
    let d = c.d;
    let ff = c.ff;
    let n = |s: Seq<char>| part_name("enc."@, l, s);
    match c.arch {
        Arch::Bert => seq![
            (n("qkv"@), seq![(3 * d) as usize, d]),
            (n("qkv_b"@), seq![(3 * d) as usize]),
            (n("o"@), seq![d, d]),
            (n("o_b"@), seq![d]),
        ] + norm_tensors(c, n("attn_norm"@)) + seq![
            (n("wi"@), seq![ff, d]),
            (n("wi_b"@), seq![ff]),
            (n("wo"@), seq![d, ff]),
            (n("wo_b"@), seq![d]),
        ] + norm_tensors(c, n("mlp_norm"@)),
        Arch::ModernBert => (if l > 0 {
            norm_tensors(c, n("attn_norm"@))
        } else {
            Seq::empty()
        }) + seq![(n("qkv"@), seq![(3 * d) as usize, d]), (n("o"@), seq![d, d])] + norm_tensors(
            c,
            n("mlp_norm"@),
        ) + seq![
            (n("wi_val"@), seq![ff, d]),
            (n("wi_gate"@), seq![ff, d]),
            (n("wo"@), seq![d, ff]),
        ],
    }
}

/// The tensors before the layers.
pub open spec fn e5_first_tensors(c: E5Config) -> Seq<NamedShape> {
    let embed: NamedShape = ("embed"@, seq![c.vocab, c.d]);
    match c.arch {
        Arch::Bert => seq![
            embed,
            ("pos_embed"@, seq![c.max_pos, c.d]),
            ("type_embed"@, seq![c.d]),
        ] + norm_tensors(c, "embed_norm"@),
        Arch::ModernBert => seq![embed] + norm_tensors(c, "embed_norm"@) + norm_tensors(
            c,
            "final_norm"@,
        ),
    }
}

/// The tensors before the layers and those of the first `n` layers.
pub open spec fn e5_tensors_upto(c: E5Config, n: nat) -> Seq<NamedShape>
    decreases n,
{
    if n == 0 {
        e5_first_tensors(c)
    } else {
        e5_tensors_upto(c, (n - 1) as nat) + e5_layer_tensors(c, n - 1)
    }
}

/// Every tensor the engine needs.
pub open spec fn e5_tensors(c: E5Config) -> Seq<NamedShape> {
    e5_tensors_upto(c, c.layers as nat) + seq![
        ("head.l1"@, seq![c.head_hidden, c.head_in]),
        ("head.l1_b"@, seq![c.head_hidden]),
        ("head.l2"@, seq![1, c.head_hidden]),
        ("head.l2_b"@, seq![1usize]),
    ]
}

fn push_norm_tensors(c: &E5Config, name: &str, v: &mut Vec<TensorSpec>)
    ensures
        spec_views(final(v)@) == spec_views(old(v)@) + norm_tensors(*c, name@),
{
    let ghost before = spec_views(v@);
    push1(v, concat2(name, "_w").as_str(), c.d);
    if c.norm_bias {
        push1(v, concat2(name, "_b").as_str(), c.d);
    }
    assert(spec_views(v@) =~= before + norm_tensors(*c, name@));
}

fn push_layer_tensors(c: &E5Config, l: usize, v: &mut Vec<TensorSpec>)
    requires
        3 * c.d <= usize::MAX,
    ensures
        spec_views(final(v)@) == spec_views(old(v)@) + e5_layer_tensors(*c, l as int),
{
    let ghost before = spec_views(v@);
    let d: usize = c.d;
    let ff: usize = c.ff;
    match c.arch {
        Arch::Bert => {
            push2(v, part_text("enc.", l, "qkv").as_str(), 3 * d, d);
            push1(v, part_text("enc.", l, "qkv_b").as_str(), 3 * d);
            push2(v, part_text("enc.", l, "o").as_str(), d, d);
            push1(v, part_text("enc.", l, "o_b").as_str(), d);
            push_norm_tensors(c, part_text("enc.", l, "attn_norm").as_str(), v);
            push2(v, part_text("enc.", l, "wi").as_str(), ff, d);
            push1(v, part_text("enc.", l, "wi_b").as_str(), ff);
            push2(v, part_text("enc.", l, "wo").as_str(), d, ff);
            push1(v, part_text("enc.", l, "wo_b").as_str(), d);
            push_norm_tensors(c, part_text("enc.", l, "mlp_norm").as_str(), v);
        },
        Arch::ModernBert => {
            if l > 0 {
                push_norm_tensors(c, part_text("enc.", l, "attn_norm").as_str(), v);
            }
            push2(v, part_text("enc.", l, "qkv").as_str(), 3 * d, d);
            push2(v, part_text("enc.", l, "o").as_str(), d, d);
            push_norm_tensors(c, part_text("enc.", l, "mlp_norm").as_str(), v);
            push2(v, part_text("enc.", l, "wi_val").as_str(), ff, d);
            push2(v, part_text("enc.", l, "wi_gate").as_str(), ff, d);
            push2(v, part_text("enc.", l, "wo").as_str(), d, ff);
        },
    }
    assert(spec_views(v@) =~= before + e5_layer_tensors(*c, l as int));
}

impl E5Config {
    /// Every tensor the engine needs. Linears are `[out, in]`.
    pub fn tensors(&self) -> (r: Vec<TensorSpec>)
        requires
            3 * self.d <= usize::MAX,
        ensures
            spec_views(r@) == e5_tensors(*self),
    {
        let d: usize = self.d;
        let mut v: Vec<TensorSpec> = Vec::new();
        push2(&mut v, "embed", self.vocab, d);
        match self.arch {
            Arch::Bert => {
                push2(&mut v, "pos_embed", self.max_pos, d);
                push1(&mut v, "type_embed", d);
                push_norm_tensors(self, "embed_norm", &mut v);
            },
            Arch::ModernBert => {
                push_norm_tensors(self, "embed_norm", &mut v);
                push_norm_tensors(self, "final_norm", &mut v);
            },
        }
        assert(spec_views(v@) =~= e5_first_tensors(*self));
        let mut l: usize = 0;
        while l < self.layers
            invariant
                0 <= l <= self.layers,
                3 * self.d <= usize::MAX,
                spec_views(v@) == e5_tensors_upto(*self, l as nat),
            decreases self.layers - l,
        {
            push_layer_tensors(self, l, &mut v);
            l += 1;
        }
        push2(&mut v, "head.l1", self.head_hidden, self.head_in);
        push1(&mut v, "head.l1_b", self.head_hidden);
        push2(&mut v, "head.l2", 1, self.head_hidden);
        push1(&mut v, "head.l2_b", 1);
        assert(spec_views(v@) =~= e5_tensors(*self));
        v
    }
}

/// Every size, number, text and token of a configuration is the one that the
/// file holds under its own name, the head's among those of the head.
pub proof fn e5_fields_are_read_by_name(c: E5Config, v: JsonView, n: u64, x: u64, s: Seq<char>)
    requires
        c.describes(v),
        n <= usize::MAX,
    ensures
        at(v, "vocab_size"@) == JsonView::Uint(n) ==> c.vocab == n,
        at(v, "hidden_size"@) == JsonView::Uint(n) ==> c.d == n,
        at(v, "num_hidden_layers"@) == JsonView::Uint(n) ==> c.layers == n,
        at(v, "num_attention_heads"@) == JsonView::Uint(n) ==> c.heads == n,
        at(v, "intermediate_size"@) == JsonView::Uint(n) ==> c.ff == n,
        at(v, "max_position_embeddings"@) == JsonView::Uint(n) ==> c.max_pos == n,
        c.arch is Bert <==> at(v, "model_type"@) == JsonView::Str("bert"@),
        c.arch is ModernBert ==> at(v, "model_type"@) == JsonView::Str("modernbert"@),
        ({
            let g = at(v, "grande_e5"@);
            &&& at(g, "max_len"@) == JsonView::Uint(n) ==> c.max_len == n
            &&& at(g, "max_len"@) is Null ==> c.max_len <= 512 && c.max_len <= c.max_pos && (
            c.max_len == 512 || c.max_len == c.max_pos)
            &&& at(g, "head_in"@) == JsonView::Uint(n) ==> c.head_in == n
            &&& at(g, "head_in"@) is Null && 4 * c.d <= usize::MAX ==> c.head_in == 4 * c.d
            &&& at(g, "head_hidden"@) == JsonView::Uint(n) ==> c.head_hidden == n
            &&& double_field(g, "temperature"@) == Some(x) ==> c.temperature == x
            &&& double_field(g, "temperature"@) is None ==> c.temperature == ONE
            &&& at(g, "prefix"@) == JsonView::Str(s) ==> c.prefix@ == s
            &&& at(g, "prefix"@) is Null ==> c.prefix@ == "query: "@
            &&& at(g, "name"@) == JsonView::Str(s) ==> c.name@ == s
            &&& at(g, "name"@) is Null ==> c.name@ == "e5"@
            &&& at(g, "cls"@) == JsonView::Uint(n) && n <= u32::MAX ==> c.cls == n
            &&& at(g, "sep"@) == JsonView::Uint(n) && n <= u32::MAX ==> c.sep == n
            &&& at(g, "pad"@) == JsonView::Uint(n) && n <= u32::MAX ==> c.pad == n
        }),
        c.arch is Bert ==> c.norm_bias && c.window == 0,
        c.arch is Bert && double_field(v, "layer_norm_eps"@) == Some(x) ==> c.eps == x,
        c.arch is ModernBert ==> (c.norm_bias <==> at(v, "norm_bias"@) == JsonView::Bool(true)),
        c.arch is ModernBert && at(v, "local_attention"@) == JsonView::Uint(n) ==> c.window == n
            / 2,
        c.arch is ModernBert && at(v, "local_attention"@) is Null ==> c.window == 64,
        c.arch is ModernBert && double_field(v, "norm_eps"@) == Some(x) ==> c.eps == x,
        c.arch is ModernBert && double_field(v, "norm_eps"@) is None && double_field(
            v,
            "layer_norm_eps"@,
        ) == Some(x) ==> c.eps == x,
        c.arch is ModernBert && double_field(
            at(at(v, "rope_parameters"@), "full_attention"@),
            "rope_theta"@,
        ) == Some(x) ==> c.theta_global == x,
        c.arch is ModernBert && double_field(
            at(at(v, "rope_parameters"@), "full_attention"@),
            "rope_theta"@,
        ) is None && double_field(v, "global_rope_theta"@) == Some(x) ==> c.theta_global == x,
        c.arch is ModernBert && double_field(
            at(at(v, "rope_parameters"@), "sliding_attention"@),
            "rope_theta"@,
        ) == Some(x) ==> c.theta_local == x,
        c.arch is ModernBert && double_field(
            at(at(v, "rope_parameters"@), "sliding_attention"@),
            "rope_theta"@,
        ) is None && double_field(v, "local_rope_theta"@) == Some(x) ==> c.theta_local == x,
{
    reveal_strlit("bert");
    reveal_strlit("modernbert");
    assert("bert"@.len() != "modernbert"@.len());
}

/// BERT attends everywhere; of ModernBERT's layers the listed ones have the type
/// that they are listed with, of others every third is global, or every one
/// that the configuration says, counted from the first.
pub proof fn e5_layers_are_typed(c: E5Config, v: JsonView, i: int, n: u64)
    requires
        c.describes(v),
        e5_fault(v) is None,
        0 <= i < c.layers,
        0 < n <= usize::MAX,
    ensures
        c.sliding@.len() == c.layers,
        c.arch is Bert ==> !c.sliding@[i],
        c.arch is ModernBert && at(v, "layer_types"@) is Array ==> (c.sliding@[i] <==> at(
            v,
            "layer_types"@,
        )->Array_0[i] == JsonView::Str("sliding_attention"@)),
        c.arch is ModernBert && at(v, "layer_types"@) is Null && at(
            v,
            "global_attn_every_n_layers"@,
        ) is Null ==> (c.sliding@[i] <==> i % 3 != 0),
        c.arch is ModernBert && at(v, "layer_types"@) is Null && at(
            v,
            "global_attn_every_n_layers"@,
        ) == JsonView::Uint(n) ==> (c.sliding@[i] <==> i % (n as int) != 0),
        c.head_in == 4 * c.d,
        3 <= c.max_len <= c.max_pos,
        c.heads > 0 && c.d % c.heads == 0 && c.d % 32 == 0 && c.ff % 32 == 0,
{
}

} // verus!
