use grande::backend::Token;
use grande::error::Error;
use grande::charsmap::{decode, sound};
use grande::parts::{cuts, encodes, MOST_PADDED};
use grande::patterns::{compilable, nonempty_pattern, plainly};
use grande::tokenize::{encode_or_nothing, neutralize_specials, special, tokenize, tokens_of};
use tokenizers::models::unigram::Unigram;
use tokenizers::pre_tokenizers::split::{Split, SplitPattern};
use tokenizers::utils::SysRegex;
use tokenizers::{
    PaddingParams, PaddingStrategy, SplitDelimiterBehavior, Tokenizer, TruncationParams,
};

fn words(vocab: &str) -> Tokenizer {
    let json = format!(
        "{{\"version\":\"1.0\",\"truncation\":null,\"padding\":null,\"added_tokens\":[{{\"id\":3,\"content\":\"<bos>\",\"single_word\":false,\"lstrip\":false,\"rstrip\":false,\"normalized\":false,\"special\":true}}],\"normalizer\":null,\"pre_tokenizer\":{{\"type\":\"WhitespaceSplit\"}},\"post_processor\":null,\"decoder\":null,\"model\":{{\"type\":\"WordLevel\",\"vocab\":{vocab},\"unk_token\":\"[UNK]\"}}}}"
    );
    Tokenizer::from_bytes(json.as_bytes()).unwrap()
}

#[test]
fn caller_text_never_makes_control_tokens() {
    let t = words("{\"a\":0,\"b\":1,\"[UNK]\":2}");
    assert_eq!(encode_or_nothing(&t, "a <bos> b"), vec![0, 3, 1]);
    assert_eq!(
        tokenize(&t, "a <bos> b").unwrap(),
        vec![Token(0), Token(2), Token(1)]
    );
    assert_eq!(tokenize(&t, "").unwrap(), vec![]);
    assert_eq!(tokenize(&t, "b a").unwrap(), vec![Token(1), Token(0)]);
}

#[test]
fn control_tokens_are_looked_up_by_name() {
    let t = words("{\"a\":0,\"b\":1,\"[UNK]\":2}");
    assert_eq!(special(&t, "<bos>").unwrap(), Token(3));
    assert_eq!(special(&t, "b").unwrap(), Token(1));
    assert_eq!(
        special(&t, "<eos>").unwrap_err(),
        Error::Backend("\"<eos>\" is not a token in this vocabulary".to_string())
    );
}

#[test]
fn a_text_that_cannot_be_encoded_is_an_error() {
    let t = words("{\"a\":0}");
    assert_eq!(tokenize(&t, "a").unwrap(), vec![Token(0)]);
    let Err(Error::Backend(m)) = tokenize(&t, "z") else { panic!() };
    assert!(m.starts_with("tokenize: "));
    assert!(m.len() > "tokenize: ".len());
    assert_eq!(encode_or_nothing(&t, "z"), Vec::<u32>::new());
    assert_eq!(
        tokens_of(Err("no".to_string())).unwrap_err(),
        Error::Backend("tokenize: no".to_string())
    );
    assert_eq!(tokens_of(Ok(vec![4, 5])).unwrap(), vec![Token(4), Token(5)]);
}

#[test]
fn broken_up_text_stays_as_it_is() {
    let once = neutralize_specials("</s> <|turn> a<b <1");
    assert_eq!(once, "<\u{200c}/s> <\u{200c}|turn> a<\u{200c}b <1");
    assert_eq!(neutralize_specials(&once), once);
}

#[test]
fn a_tokenizer_that_cannot_cut_is_not_asked() {
    let mut t = words("{\"a\":0,\"b\":1,\"[UNK]\":2}");
    assert!(cuts(&t));
    let cut = |max_length, stride| {
        Some(TruncationParams { max_length, stride, ..TruncationParams::default() })
    };
    t.with_truncation(cut(2, 1)).unwrap();
    assert!(cuts(&t));
    assert_eq!(tokenize(&t, "a b a").unwrap(), vec![Token(0), Token(1)]);
    t.with_truncation(cut(2, 2)).unwrap();
    assert!(!cuts(&t));
    assert_eq!(
        tokenize(&t, "a b a").unwrap_err(),
        Error::Backend(
            "tokenize: the truncation stride is not below the truncation length".to_string()
        )
    );
    assert_eq!(tokenize(&t, "").unwrap(), vec![]);
    assert_eq!(encode_or_nothing(&t, "a b a"), Vec::<u32>::new());
    t.with_truncation(cut(0, 0)).unwrap();
    assert!(cuts(&t));
    assert_eq!(encode_or_nothing(&t, "a b"), Vec::<u32>::new());
}

fn built(added: &str, normalizer: &str, pre_tokenizer: &str, post_processor: &str) -> Tokenizer {
    let json = format!(
        "{{\"version\":\"1.0\",\"truncation\":null,\"padding\":null,\"added_tokens\":[{added}],\"normalizer\":{normalizer},\"pre_tokenizer\":{pre_tokenizer},\"post_processor\":{post_processor},\"decoder\":null,\"model\":{{\"type\":\"WordLevel\",\"vocab\":{{\"a\":0,\"b\":1,\"[UNK]\":2}},\"unk_token\":\"[UNK]\"}}}}"
    );
    Tokenizer::from_bytes(json.as_bytes()).unwrap()
}

fn token(id: u32, content: &str, lstrip: bool, rstrip: bool) -> String {
    format!(
        "{{\"id\":{id},\"content\":\"{content}\",\"single_word\":false,\"lstrip\":{lstrip},\"rstrip\":{rstrip},\"normalized\":false,\"special\":true}}"
    )
}

fn refused(t: &Tokenizer) {
    assert!(!encodes(t));
    assert_eq!(
        tokenize(t, "a").unwrap_err(),
        Error::Backend(
            "tokenize: the tokenizer has settings that fail on some texts".to_string()
        )
    );
    assert_eq!(tokenize(t, "").unwrap(), vec![]);
    assert_eq!(encode_or_nothing(t, "a"), Vec::<u32>::new());
}

#[test]
fn a_pre_tokenizer_without_a_length_is_refused() {
    let fixed = |n: usize| format!("{{\"type\":\"FixedLength\",\"length\":{n}}}");
    let nested = |n: usize| {
        format!(
            "{{\"type\":\"Sequence\",\"pretokenizers\":[{{\"type\":\"WhitespaceSplit\"}},{{\"type\":\"Sequence\",\"pretokenizers\":[{}]}}]}}",
            fixed(n)
        )
    };
    refused(&built("", "null", &fixed(0), "null"));
    refused(&built("", "null", &nested(0), "null"));
    let t = built("", "null", &nested(1), "null");
    assert!(encodes(&t));
    assert_eq!(encode_or_nothing(&t, "ab a"), vec![0, 1, 0]);
    assert_eq!(encode_or_nothing(&built("", "null", &fixed(1), "null"), "ba"), vec![1, 0]);
}

#[test]
fn a_pattern_that_moves_the_start_is_refused() {
    let split = |p: &str| {
        format!(
            "{{\"type\":\"Split\",\"pattern\":{{\"Regex\":\"{p}\"}},\"behavior\":\"Removed\",\"invert\":false}}"
        )
    };
    refused(&built("", "null", &split("(?=a\\\\K)"), "null"));
    let t = built("", "null", &split("x+"), "null");
    assert!(encodes(&t));
    assert_eq!(encode_or_nothing(&t, "axxb"), vec![0, 1]);
    let mut hidden = words("{\"a\":0,\"[UNK]\":1}");
    hidden.with_pre_tokenizer(Some(Split {
        pattern: SplitPattern::Regex("x+".to_string()),
        regex: SysRegex::new("(?=a\\K)").unwrap(),
        behavior: SplitDelimiterBehavior::Removed,
        invert: false,
    }));
    refused(&hidden);
}

#[test]
fn the_usual_patterns_are_accepted() {
    let split = |p: &str| {
        let text = p.replace('\\', "\\\\");
        let one = format!(
            "{{\"type\":\"Split\",\"pattern\":{{\"Regex\":\"{text}\"}},\"behavior\":\"Isolated\",\"invert\":false}}"
        );
        format!(
            "{{\"type\":\"Sequence\",\"pretokenizers\":[{one},{{\"type\":\"ByteLevel\",\"add_prefix_space\":false,\"trim_offsets\":true,\"use_regex\":false}}]}}"
        )
    };
    for p in [
        "(?i:'s|'t|'re|'ve|'m|'ll|'d)|[^\\r\\n\\p{L}\\p{N}]?\\p{L}+|\\p{N}{1,3}| ?[^\\s\\p{L}\\p{N}]+[\\r\\n]*|\\s*[\\r\\n]+|\\s+(?!\\S)|\\s+",
        "'s|'t|'re|'ve|'m|'ll|'d| ?\\p{L}+| ?\\p{N}+| ?[^\\s\\p{L}\\p{N}]+|\\s+(?!\\S)|\\s+",
        "[一-龥]+",
    ] {
        let t = built("", "null", &split(p), "null");
        assert!(encodes(&t), "{}", p);
        assert_eq!(encode_or_nothing(&t, "a").len(), 1);
    }
}

fn chars(s: &str) -> Vec<char> {
    s.chars().collect()
}

#[test]
fn plain_patterns_are_told_from_others() {
    let words = "(?i:'s|'t|'re)|[^\\r\\n\\p{L}\\p{N}]?\\p{L}+|\\p{N}{1,3}|\\s+(?!\\S)|\\s+";
    for p in ["", words, "a\\.b", "(?=x)", "(?<!x)y", "\\b\\w+"] {
        assert!(plainly(&chars(p)), "{}", p);
        assert!(compilable(&chars(p)), "{}", p);
    }
    for p in ["a\\Kb", "\\Ga", "(a)\\1", "(?<n>a)\\k<n>", "(?(1)a|b)", "(?#c)a", "a\\", "(?"] {
        assert!(!plainly(&chars(p)), "{}", p);
        assert!(!compilable(&chars(p)), "{}", p);
    }
    assert!(compilable(&chars("a{123}b{456}")));
    assert!(!compilable(&chars("a{123}b{4567}")));
    assert!(plainly(&chars("a{123}b{4567}")));
    assert!(compilable(&vec!['a'; 4096]));
    assert!(!compilable(&vec!['a'; 4097]));
}

#[test]
fn a_normalizer_that_inserts_at_nothing_is_refused() {
    let replace = |kind: &str, p: &str| {
        format!(
            "{{\"type\":\"Replace\",\"pattern\":{{\"{kind}\":\"{p}\"}},\"content\":\"b\"}}"
        )
    };
    let ws = "{\"type\":\"WhitespaceSplit\"}";
    refused(&built("", &replace("String", ""), ws, "null"));
    refused(&built("", &replace("Regex", "x*"), ws, "null"));
    let many = format!(
        "{{\"type\":\"Sequence\",\"normalizers\":[{{\"type\":\"Lowercase\"}},{}]}}",
        replace("Regex", "^")
    );
    refused(&built("", &many, ws, "null"));
    refused(&built("", "{\"type\":\"Prepend\",\"prepend\":\"\"}", ws, "null"));
    let t = built("", &replace("String", "x"), ws, "null");
    assert!(encodes(&t));
    assert_eq!(encode_or_nothing(&t, "x a"), vec![1, 0]);
    let t = built("", &replace("Regex", "x{2,}"), ws, "null");
    assert!(encodes(&t));
    assert_eq!(encode_or_nothing(&t, "xxx a"), vec![1, 0]);
    let dropped = "{\"type\":\"Replace\",\"pattern\":{\"Regex\":\"x*\"},\"content\":\"\"}";
    let t = built("", dropped, ws, "null");
    assert!(encodes(&t));
    assert_eq!(encode_or_nothing(&t, "axx xb"), vec![0, 1]);
    let kept = "{\"type\":\"Replace\",\"pattern\":{\"Regex\":\"(?:a\\\\K)x\"},\"content\":\"\"}";
    refused(&built("", kept, ws, "null"));
    let t = built("", "{\"type\":\"Prepend\",\"prepend\":\"b \"}", ws, "null");
    assert!(encodes(&t));
    assert_eq!(encode_or_nothing(&t, "a"), vec![1, 0]);
}

#[test]
fn patterns_show_that_they_match_something() {
    for p in [
        " {2,}", "\\s+", "\\s{2,}|[\\n\\r\\t]", "ab", ".", "x|y", "(``|'')", "(?:a|b)+c", "^a", "a$",
        "\\ba", "[^a\\]]", "\\p{Mn}+", "\\.\\*",
    ] {
        assert!(nonempty_pattern(&chars(p)), "{}", p);
    }
    for p in [
        "", "x*", "x?", "x{0,}", "x{,2}", "|x", "x|", "x||y", "()", "^", "$", "\\b", "{2}", "+", "(a|)",
        "a|^", "\\<", "\\>", "[", "[]", "[^]", "[[a]]", "\\p{L", "\\pL", "a\\", "\\u0041", "(?=a)",
    ] {
        assert!(!nonempty_pattern(&chars(p)), "{}", p);
    }
}

fn base64(bytes: &[u8]) -> String {
    let digits: Vec<char> =
        "ABCDEFGHIJKLMNOPQRSTUVWXYZabcdefghijklmnopqrstuvwxyz0123456789+/".chars().collect();
    let mut out = String::new();
    for c in bytes.chunks(3) {
        let n = (c[0] as usize) << 16
            | (*c.get(1).unwrap_or(&0) as usize) << 8
            | *c.get(2).unwrap_or(&0) as usize;
        out.push(digits[n >> 18]);
        out.push(digits[n >> 12 & 63]);
        out.push(if c.len() > 1 { digits[n >> 6 & 63] } else { '=' });
        out.push(if c.len() > 2 { digits[n & 63] } else { '=' });
    }
    out
}

#[test]
fn base64_text_gives_its_bytes_back() {
    let read = |s: &str| decode(&s.chars().collect());
    assert_eq!(read(""), Some(vec![]));
    assert_eq!(read("TWFu"), Some(b"Man".to_vec()));
    assert_eq!(read("TWE="), Some(b"Ma".to_vec()));
    assert_eq!(read("TQ=="), Some(b"M".to_vec()));
    assert_eq!(read("+/8="), Some(vec![0xfb, 0xff]));
    for bad in ["T", "TWF", "TW=u", "TQ==TQ==", "TW!u", "====", "TWFu=", "TR==", "TWF="] {
        assert_eq!(read(bad), None, "{}", bad);
    }
    let all: Vec<u8> = (0..=255).collect();
    assert_eq!(read(&base64(&all)), Some(all));
}

/// A table of two blocks whose only key is `a`, with the given first value.
fn table(value: u32, texts: &[u8]) -> Vec<u8> {
    let mut units = vec![0u32; 512];
    units[0] = 256 << 10;
    units[256 ^ 0x61] = 0x61 | 1 << 8 | 96 << 10;
    units[257] = 1 << 31 | value;
    let mut b = (4 * 512u32).to_le_bytes().to_vec();
    for u in units {
        b.extend(u.to_le_bytes());
    }
    b.extend(texts);
    b
}

#[test]
fn a_character_table_that_leads_out_of_itself_is_refused() {
    let charsmap = |b: &[u8]| {
        format!(
            "{{\"type\":\"Precompiled\",\"precompiled_charsmap\":\"{}\"}}",
            base64(b)
        )
    };
    let ws = "{\"type\":\"WhitespaceSplit\"}";
    let good = table(0, b"b\0");
    assert!(sound(&good));
    let t = built("", &charsmap(&good), ws, "null");
    assert!(encodes(&t));
    assert_eq!(encode_or_nothing(&t, "a b a"), vec![1, 1, 1]);
    assert!(sound(&table(2, b"b\0")));
    let outside = table(3, b"b\0");
    assert!(!sound(&outside));
    refused(&built("", &charsmap(&outside), ws, "null"));
    assert!(!sound(&table(1, "\u{e9}\0".as_bytes())));
    assert!(sound(&table(2, "\u{e9}\0".as_bytes())));
    let short: Vec<u8> = vec![4, 0, 0, 0, 0, 0, 0, 0];
    assert!(!sound(&short));
    refused(&built("", &charsmap(&short), ws, "null"));
    assert!(!sound(&vec![]));
    assert!(!sound(&vec![0, 0, 0, 0]));
    assert!(!sound(&vec![8, 0, 0, 0, 0, 0, 0, 0]));
}

#[test]
fn a_model_that_draws_its_pieces_is_refused() {
    let vocab = vec![("[UNK]".to_string(), 0.0), ("a".to_string(), -1.0)];
    let mut model = Unigram::from(vocab, Some(0), false).unwrap();
    assert!(encodes(&Tokenizer::new(model.clone())));
    assert_eq!(encode_or_nothing(&Tokenizer::new(model.clone()), "a"), vec![1]);
    model.alpha = Some(0.5);
    refused(&Tokenizer::new(model));
}

#[test]
fn added_tokens_that_want_the_same_space_are_refused() {
    let ws = "{\"type\":\"WhitespaceSplit\"}";
    let right = token(3, "<r>", false, true);
    let left = token(4, " ", true, false);
    refused(&built(&format!("{right},{left}"), "null", ws, "null"));
    let t = built(&right, "null", ws, "null");
    assert!(encodes(&t));
    assert_eq!(encode_or_nothing(&t, "<r>  a"), vec![3, 0]);
    assert!(encodes(&built(&token(3, "<l>", true, false), "null", ws, "null")));
    let both = format!("{right},{}", token(4, "<l>", true, false));
    let t = built(&both, "null", ws, "null");
    assert!(encodes(&t));
    assert_eq!(encode_or_nothing(&t, "<r>  <l> a"), vec![3, 4, 0]);
}

#[test]
fn an_added_token_that_normalizes_to_nothing_is_refused() {
    let ws = "{\"type\":\"WhitespaceSplit\"}";
    let drop = "{\"type\":\"Replace\",\"pattern\":{\"String\":\"x\"},\"content\":\"\"}";
    let normalized = |content: &str| {
        token(3, content, false, false).replace("\"normalized\":false", "\"normalized\":true")
    };
    refused(&built(&normalized("x"), drop, ws, "null"));
    let t = built(&normalized("xy"), drop, ws, "null");
    assert!(encodes(&t));
    assert_eq!(encode_or_nothing(&t, "a y"), vec![0, 3]);
}

#[test]
fn a_template_that_wants_more_than_one_text_is_refused() {
    let ws = "{\"type\":\"WhitespaceSplit\"}";
    let template = |single: &str| {
        format!(
            "{{\"type\":\"TemplateProcessing\",\"single\":[{single}],\"pair\":[],\"special_tokens\":{{}}}}"
        )
    };
    let a = "{\"Sequence\":{\"id\":\"A\",\"type_id\":0}}";
    let b = "{\"Sequence\":{\"id\":\"B\",\"type_id\":0}}";
    let byte = "{\"type\":\"ByteLevel\",\"add_prefix_space\":true,\"trim_offsets\":true,\"use_regex\":true}";
    let many =
        |ps: &[&str]| format!("{{\"type\":\"Sequence\",\"processors\":[{}]}}", ps.join(","));
    refused(&built("", "null", ws, &template(b)));
    refused(&built("", "null", ws, &many(&[byte, &template(b)])));
    refused(&built("", "null", ws, &many(&[&template(""), &template(a)])));
    refused(&built("", "null", ws, &many(&[&many(&[&template(a)]), &many(&[&template(a)])])));
    for p in [
        template(a),
        many(&[byte, &template(a)]),
        many(&[&template(a), byte]),
        many(&[byte, byte]),
        many(&[byte, &many(&[&template(a), byte]), &many(&[byte])]),
    ] {
        let t = built("", "null", ws, &p);
        assert!(encodes(&t), "{}", p);
        assert_eq!(encode_or_nothing(&t, "b a"), vec![1, 0]);
    }
}

#[test]
fn padding_beyond_memory_is_refused() {
    let mut t = words("{\"a\":0,\"[UNK]\":1}");
    let pad = |strategy, multiple| {
        Some(PaddingParams {
            strategy,
            pad_to_multiple_of: multiple,
            pad_id: 9,
            ..PaddingParams::default()
        })
    };
    t.with_padding(pad(PaddingStrategy::Fixed(3), None));
    assert!(encodes(&t));
    assert_eq!(encode_or_nothing(&t, "a"), vec![0, 9, 9]);
    t.with_padding(pad(PaddingStrategy::BatchLongest, Some(2)));
    assert_eq!(encode_or_nothing(&t, "a"), vec![0, 9]);
    t.with_padding(pad(PaddingStrategy::Fixed(MOST_PADDED + 1), None));
    refused(&t);
    t.with_padding(pad(PaddingStrategy::BatchLongest, Some(usize::MAX)));
    refused(&t);
}
