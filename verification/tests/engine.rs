//! Whole requests against small backends: the library plans, packs, batches,
//! reads and folds; the arithmetic in between is written out here.

use std::cell::Cell;

use grande::answer::{original_order, response, Answer, Read, Response};
use grande::api::{Question, Request};
use grande::backend::{
    Backend, BranchOutput, BranchTokens, Group, GroupOutput, PrefixSource, Token, Want,
};
use grande::baseline::BaselineCache;
use grande::engine::{Board, Diagnostics, Limits, Mode, Slot};
use grande::error::Error;
use grande::fold::{Source, EXCLUDED_LOGIT};
use grande::json::Json;
use grande::pack::tokenize_segments;
use grande::plan::Plan;
use grande::readout::{Distribution, PointerHead, Reading, Readout, LABELS};
use grande::render::{RenderedBranch, Renderer};
use grande::score::{evaluate_items, prepare, read_item, Item};
use indexmap::IndexMap;

fn softmax(z: &[f32], temperature: f32) -> Vec<f64> {
    let t = f64::from(temperature.max(1e-6));
    let m = z.iter().copied().fold(f32::NEG_INFINITY, f32::max) as f64;
    let e: Vec<f64> = z.iter().map(|&v| ((v as f64 - m) / t).exp()).collect();
    let s: f64 = e.iter().sum();
    e.into_iter().map(|v| v / s).collect()
}

fn log_sum_exp(z: &[f32]) -> f64 {
    let m = z.iter().copied().fold(f32::NEG_INFINITY, f32::max) as f64;
    m + z.iter().map(|&v| (v as f64 - m).exp()).sum::<f64>().ln()
}

fn confidence(p: &[f64]) -> f64 {
    if p.len() <= 1 {
        return 1.0;
    }
    let h: f64 = p.iter().filter(|&&v| v > 0.0).map(|&v| -v * v.ln()).sum();
    (1.0 - h / (p.len() as f64).ln()).clamp(0.0, 1.0)
}

fn singles(v: &[u32]) -> Vec<f32> {
    v.iter().map(|&b| f32::from_bits(b)).collect()
}

fn single_bits(v: &[f32]) -> Vec<u32> {
    v.iter().map(|x| x.to_bits()).collect()
}

fn double_bits(v: &[f64]) -> Vec<u64> {
    v.iter().map(|x| x.to_bits()).collect()
}

#[derive(Clone)]
struct Dist {
    logits: Vec<f32>,
    baseline: Option<Vec<f32>>,
    probs: Vec<f64>,
}

impl Dist {
    fn of(logits: Vec<f32>, temperature: f32) -> Dist {
        let probs = softmax(&logits, temperature);
        Dist { logits, baseline: None, probs }
    }

    fn calibrate(&mut self, baseline: Vec<f32>, temperature: f32) {
        for (z, b) in self.logits.iter_mut().zip(&baseline) {
            *z -= b;
        }
        self.probs = softmax(&self.logits, temperature);
        self.baseline = Some(baseline);
    }

    fn bits(&self) -> Distribution {
        Distribution {
            logits: single_bits(&self.logits),
            baseline: self.baseline.as_ref().map(|b| single_bits(b)),
            probs: double_bits(&self.probs),
            candidate_mass: None,
        }
    }
}

fn project(h: &PointerHead, w: &[u32], b: &[u32], x: &[f32]) -> Vec<f32> {
    (0..h.dp)
        .map(|r| {
            singles(&w[r * h.d..(r + 1) * h.d]).iter().zip(x).map(|(a, b)| a * b).sum::<f32>()
                + f32::from_bits(b[r])
        })
        .collect()
}

fn logits_of(readout: &Readout, reading: &Reading, out: &BranchOutput) -> (Vec<f32>, Option<f64>) {
    match (readout, reading) {
        (_, Reading::Letters { logits }) => {
            let logits = singles(logits);
            let mass = (log_sum_exp(&logits) - log_sum_exp(&singles(&out.rows[0]))).exp();
            (logits, Some(mass))
        }
        (Readout::Pointer(h), Reading::Rows { decide, options }) => {
            let q = project(h, &h.w_q, &h.b_q, &singles(&out.rows[*decide]));
            let scale = 1.0 / (h.dp as f32).sqrt();
            let logits = options
                .iter()
                .map(|&i| {
                    let k = project(h, &h.w_k, &h.b_k, &singles(&out.rows[i]));
                    k.iter().zip(&q).map(|(a, b)| a * b).sum::<f32>() * scale
                })
                .collect();
            (logits, None)
        }
        _ => unreachable!(),
    }
}

#[derive(Default, Debug)]
struct Seen {
    baseline: IndexMap<String, Vec<f32>>,
    order_spread: IndexMap<String, f64>,
    candidate_mass: IndexMap<String, f64>,
}

struct Engine<B> {
    backend: B,
    renderer: Renderer,
    readout: Readout,
    temperature: f32,
    model: String,
    baseline: Option<String>,
    orders: usize,
    recheck: Option<f64>,
    cache: BaselineCache,
}

type Distributed = Result<(Vec<(RenderedBranch, Dist)>, Diagnostics, Seen), Error>;

impl<B: Backend> Engine<B> {
    fn new(backend: B, renderer: Renderer, readout: Readout) -> Self {
        Engine {
            backend,
            renderer,
            readout,
            temperature: 1.0,
            model: "t".to_string(),
            baseline: None,
            orders: 1,
            recheck: None,
            cache: BaselineCache::new(),
        }
    }

    fn baseline_logits(&mut self, item: &Item, cf: &str) -> Result<(Vec<Vec<f32>>, bool), Error> {
        let missing = self.cache.missing(cf, &item.branches);
        if !missing.is_empty() {
            let prefix = self.renderer.prefix(cf);
            let (prefix, _) = tokenize_segments(&self.backend, &prefix)?;
            let wanted: Vec<BranchTokens> =
                missing.iter().map(|&i| item.packed[i].clone()).collect();
            let outs = self.backend.evaluate(&prefix, &wanted, self.readout.want())?;
            for (&i, out) in missing.iter().zip(&outs) {
                assert!(self.readout.can_gather(&item.branches[i], out, &item.label_ids));
                let reading = self.readout.gather(&item.branches[i], out, &item.label_ids)?;
                let (logits, _) = logits_of(&self.readout, &reading, out);
                self.cache.insert(cf, &item.branches[i], single_bits(&logits));
            }
        }
        let all = item
            .branches
            .iter()
            .map(|b| singles(&self.cache.get(cf, b).unwrap()))
            .collect();
        Ok((all, !missing.is_empty()))
    }

    fn score(
        &mut self,
        board: &mut Board,
        seen: &mut [Seen],
        work: Vec<(usize, Vec<RenderedBranch>)>,
        mode: Mode,
    ) -> Vec<(usize, Vec<(RenderedBranch, Dist)>)> {
        let mut done = Vec::new();
        let mut items = Vec::new();
        let mut baselines = Vec::new();
        for (i, branches) in work {
            if branches.is_empty() {
                done.push((i, Vec::new()));
                continue;
            }
            let item = match prepare(&self.backend, &self.readout, i, branches) {
                Ok(item) => item,
                Err(e) => {
                    board.fail(i, e);
                    continue;
                }
            };
            board.note_packed(i, &item.packed);
            let baseline = match self.baseline.clone() {
                Some(cf) => match self.baseline_logits(&item, &cf) {
                    Ok((b, evaluated)) => {
                        board.note_passes(i, usize::from(evaluated));
                        Some(b)
                    }
                    Err(e) => {
                        board.fail(i, e);
                        continue;
                    }
                },
                None => None,
            };
            items.push(item);
            baselines.push(baseline);
        }
        let outs =
            evaluate_items(board, &mut self.backend, &items, mode, self.readout.want());
        for ((item, out), baseline) in items.into_iter().zip(outs).zip(baselines) {
            let Some(out) = out else { continue };
            for (b, o) in item.branches.iter().zip(&out) {
                assert!(self.readout.can_gather(b, o, &item.label_ids));
            }
            let readings = match read_item(&self.readout, &item, &out) {
                Ok(r) => r,
                Err(e) => {
                    board.fail(item.job, e);
                    continue;
                }
            };
            let mut result = Vec::new();
            for (k, (branch, reading)) in item.branches.into_iter().zip(&readings).enumerate() {
                let (logits, mass) = logits_of(&self.readout, reading, &out[k]);
                let mut dist = Dist::of(logits, self.temperature);
                if let Some(m) = mass {
                    let e = seen[item.job].candidate_mass.entry(branch.id.clone()).or_insert(m);
                    *e = e.min(m);
                }
                if let Some(b) = &baseline {
                    dist.calibrate(b[k].clone(), self.temperature);
                    seen[item.job]
                        .baseline
                        .entry(branch.id.clone())
                        .or_insert_with(|| b[k].clone());
                }
                result.push((branch, dist));
            }
            done.push((item.job, result));
        }
        done
    }

    fn distributions_many(&mut self, reqs: &[&Request], mode: Mode) -> Vec<Distributed> {
        let none = IndexMap::new();
        let recheck = self.recheck.map(f64::to_bits);
        let planned = reqs
            .iter()
            .map(|req| {
                let plan = Plan::new(
                    &self.renderer,
                    req,
                    &none,
                    self.readout.cap(),
                    self.orders,
                    recheck,
                )?;
                let (prefix, _) = tokenize_segments(&self.backend, &plan.rendered.prefix)?;
                Ok((plan, prefix))
            })
            .collect();
        let mut board = Board::open(planned, self.orders);
        let mut seen: Vec<Seen> = reqs.iter().map(|_| Seen::default()).collect();
        let mut work = Vec::new();
        for i in board.live() {
            if let Slot::Live(job) = &board.slots[i] {
                work.push((i, job.plan.first.clone()));
            }
        }
        let firsts = self.score(&mut board, &mut seen, work, mode);
        let mut first: Vec<Vec<Dist>> = reqs.iter().map(|_| Vec::new()).collect();
        let mut work = Vec::new();
        for (i, dists) in firsts {
            first[i] = dists.into_iter().map(|(_, d)| d).collect();
            let Slot::Live(job) = &board.slots[i] else { continue };
            let bits: Vec<Distribution> = first[i].iter().map(Dist::bits).collect();
            let confident: Vec<bool> = first[i]
                .iter()
                .map(|d| self.recheck.is_some_and(|t| confidence(&d.probs) >= t))
                .collect();
            let (second, finalists, rechecked) =
                job.plan.second(&self.renderer, reqs[i], &bits, &confident);
            board.note_second(i, finalists, rechecked);
            work.push((i, second));
        }
        let mut seconds: IndexMap<usize, Vec<(RenderedBranch, Dist)>> =
            self.score(&mut board, &mut seen, work, mode).into_iter().collect();
        let mut out = Vec::new();
        for (i, (slot, mut seen)) in board.slots.into_iter().zip(seen).enumerate() {
            let job = match slot {
                Slot::Live(job) => job,
                Slot::Failed(e) => {
                    out.push(Err(e));
                    continue;
                }
            };
            let (branches, dists): (Vec<RenderedBranch>, Vec<Dist>) =
                seconds.shift_remove(&i).unwrap_or_default().into_iter().unzip();
            let folded = job.plan.fold(branches);
            let mut results = Vec::new();
            for (branch, fold) in folded.branches.into_iter().zip(folded.folds) {
                let runs: Vec<&Dist> = fold
                    .runs
                    .iter()
                    .map(|s| match s {
                        Source::First(j) => &first[i][*j],
                        Source::Second(j) => &dists[*j],
                    })
                    .collect();
                let mut logits = Vec::new();
                let mut per_run = vec![vec![0.0f64; branch.keys.len()]; runs.len()];
                for (slot, votes) in fold.votes.iter().enumerate() {
                    let sum: f64 = votes.iter().map(|&(r, s)| f64::from(runs[r].logits[s])).sum();
                    for &(r, s) in votes {
                        per_run[r][slot] = runs[r].probs[s];
                    }
                    logits.push(if votes.is_empty() {
                        f32::from_bits(EXCLUDED_LOGIT)
                    } else {
                        (sum / votes.len() as f64) as f32
                    });
                }
                if runs.len() > 1 {
                    let mut spread = 0.0f64;
                    for a in 0..runs.len() {
                        for b in a + 1..runs.len() {
                            for (x, y) in per_run[a].iter().zip(&per_run[b]) {
                                spread = spread.max((x - y).abs());
                            }
                        }
                    }
                    seen.order_spread.insert(branch.id.clone(), spread);
                }
                results.push((branch, Dist::of(logits, self.temperature)));
            }
            out.push(Ok((results, job.diag, seen)));
        }
        out
    }

    fn distributions(&mut self, req: &Request, mode: Mode) -> Distributed {
        self.distributions_many(&[req], mode).pop().unwrap()
    }

    fn answer_many(
        &mut self,
        reqs: &[&Request],
        mode: Mode,
    ) -> Vec<Result<(Response, Diagnostics, Seen), Error>> {
        let model = self.model.clone();
        self.distributions_many(reqs, mode)
            .into_iter()
            .zip(reqs)
            .map(|(r, req)| {
                let (dists, diag, seen) = r?;
                let reads: Vec<Read> = dists
                    .iter()
                    .map(|(b, d)| {
                        let probs = original_order(b, &double_bits(&d.probs));
                        let p: Vec<f64> = probs.iter().map(|&x| f64::from_bits(x)).collect();
                        let expected: f64 =
                            p.iter().enumerate().map(|(i, &v)| i as f64 * v).sum();
                        Read {
                            id: b.id.clone(),
                            expected: expected.to_bits(),
                            confidence: confidence(&p).to_bits(),
                            probs,
                        }
                    })
                    .collect();
                let resp = response(&model, req, &reads, diag.usage());
                Ok((resp, diag, seen))
            })
            .collect()
    }

    fn answer(&mut self, req: &Request, mode: Mode) -> (Response, Diagnostics, Seen) {
        self.answer_many(&[req], mode).pop().unwrap().unwrap()
    }
}

fn text(s: &str) -> Json {
    Json::Str(s.to_string())
}

fn request(state: &str) -> Request {
    let mut questions = IndexMap::new();
    questions.insert(
        "q".to_string(),
        Question::Noul { instructions: Some(text("is it so")), criteria: None },
    );
    Request { model: "grande-latest".to_string(), state: text(state), questions }
}

fn choice(instructions: &str, keys: &[&str]) -> Question {
    let mut criteria = IndexMap::new();
    for k in keys {
        criteria.insert(k.to_string(), None);
    }
    Question::Choice { instructions: Some(text(instructions)), criteria }
}

fn one_by_one<B: Backend>(
    b: &mut B,
    groups: &Vec<Group<'_>>,
    want: Want,
) -> Result<Vec<GroupOutput>, Error> {
    let mut out = Vec::new();
    for g in groups {
        let branches = b.evaluate(g.prefix, g.branches, want)?;
        out.push(GroupOutput { branches, prefix_source: b.prefix_source() });
    }
    Ok(out)
}

/// A backend with a fixed "yes" lean: every row puts label A 3 logits above B,
/// plus a bonus for A when the prefix contains the evidence token.
struct Leaning {
    calls: Cell<usize>,
}

const EVIDENCE: i32 = 999;

impl Backend for Leaning {
    fn tokenize(&self, text: &str) -> Result<Vec<Token>, Error> {
        Ok(text
            .split_whitespace()
            .map(|w| {
                Token(match w {
                    "A" => 1,
                    "B" => 2,
                    "evidence" => EVIDENCE,
                    _ => 3,
                })
            })
            .collect())
    }
    fn special(&self, _: &str) -> Result<Token, Error> {
        Ok(Token(2))
    }
    fn bos(&self) -> Token {
        Token(0)
    }
    fn n_embd(&self) -> usize {
        1
    }
    fn n_vocab(&self) -> usize {
        4
    }
    fn evaluate(
        &mut self,
        prefix: &[Token],
        branches: &[BranchTokens],
        _: Want,
    ) -> Result<Vec<BranchOutput>, Error> {
        self.calls.set(self.calls.get() + 1);
        let seen = prefix.iter().any(|t| t.0 == EVIDENCE);
        Ok(branches
            .iter()
            .map(|_| BranchOutput {
                rows: vec![single_bits(&[0.0, 3.0 + if seen { 6.0 } else { 0.0 }, 0.0, 0.0])],
            })
            .collect())
    }
    fn evaluate_many(
        &mut self,
        groups: &Vec<Group<'_>>,
        want: Want,
    ) -> Result<Vec<GroupOutput>, Error> {
        one_by_one(self, groups, want)
    }
    fn limits(&self) -> Limits {
        Limits::default()
    }
    fn prefix_source(&self) -> Option<PrefixSource> {
        None
    }
}

/// Counts groups per shared pass and caps a pass at four sequences.
struct Counting {
    calls: Cell<Vec<usize>>,
}

impl Backend for Counting {
    fn tokenize(&self, text: &str) -> Result<Vec<Token>, Error> {
        Ok(text.split_whitespace().map(|_| Token(3)).collect())
    }
    fn special(&self, _: &str) -> Result<Token, Error> {
        Ok(Token(2))
    }
    fn bos(&self) -> Token {
        Token(0)
    }
    fn n_embd(&self) -> usize {
        1
    }
    fn n_vocab(&self) -> usize {
        4
    }
    fn evaluate(
        &mut self,
        _: &[Token],
        branches: &[BranchTokens],
        _: Want,
    ) -> Result<Vec<BranchOutput>, Error> {
        Ok(branches
            .iter()
            .map(|_| BranchOutput { rows: vec![single_bits(&[0.0, 3.0, 0.0, 0.0])] })
            .collect())
    }
    fn evaluate_many(
        &mut self,
        groups: &Vec<Group<'_>>,
        want: Want,
    ) -> Result<Vec<GroupOutput>, Error> {
        let mut c = self.calls.take();
        c.push(groups.len());
        self.calls.set(c);
        one_by_one(self, groups, want)
    }
    fn limits(&self) -> Limits {
        Limits { sequences: 4, ..Default::default() }
    }
    fn prefix_source(&self) -> Option<PrefixSource> {
        None
    }
}

#[test]
fn many_requests_share_passes_and_fail_alone() {
    let mut engine = Engine::new(
        Counting { calls: Cell::new(Vec::new()) },
        Renderer::gemma_label(),
        Readout::Label,
    );
    let good = request("fine");
    let mut questions = IndexMap::new();
    questions.insert("q".to_string(), choice("pick", &[]));
    let bad = Request { model: "grande-latest".to_string(), state: text("x"), questions };
    let empty = Request {
        model: "grande-latest".to_string(),
        state: text("x"),
        questions: IndexMap::new(),
    };
    let results = engine.answer_many(&[&good, &bad, &good, &empty, &good], Mode::Packed);
    assert!(results[0].is_ok());
    assert!(matches!(&results[1], Err(Error::Invalid { .. })), "{:?}", results[1].as_ref().err());
    assert!(results[2].is_ok());
    assert!(results[3].is_err());
    assert!(results[4].is_ok());
    assert_eq!(engine.backend.calls.take(), vec![2, 1]);
    let (_, d0, _) = results[0].as_ref().unwrap();
    let (_, d4, _) = results[4].as_ref().unwrap();
    assert_eq!(d0.batch, 2);
    assert_eq!(d4.batch, 1);
}

#[test]
fn baseline_removes_the_lean_and_is_cached() {
    let backend = Leaning { calls: Cell::new(0) };
    let mut engine = Engine::new(backend, Renderer::gemma_label(), Readout::Label);
    let (d, _, _) = engine.distributions(&request("nothing here"), Mode::Packed).unwrap();
    assert!(d[0].1.probs[0] > 0.9);

    engine.baseline = Some("N/A".into());
    let (d, diag, seen) = engine.distributions(&request("nothing here"), Mode::Packed).unwrap();
    assert!((d[0].1.probs[0] - 0.5).abs() < 1e-9, "{:?}", d[0].1.probs);
    assert_eq!(diag.passes, 2);
    assert_eq!(seen.baseline["q"], vec![3.0, 0.0]);

    let calls = engine.backend.calls.get();
    let (d, diag, _) = engine.distributions(&request("the evidence"), Mode::Packed).unwrap();
    assert_eq!(engine.backend.calls.get(), calls + 1);
    assert_eq!(diag.passes, 1);
    assert!(d[0].1.probs[0] > 0.99);
}

#[test]
fn averaging_orders_cancels_the_letter_pull() {
    let backend = Leaning { calls: Cell::new(0) };
    let mut engine = Engine::new(backend, Renderer::gemma_label(), Readout::Label);
    engine.orders = 2;
    let (d, diag, seen) = engine.distributions(&request("nothing here"), Mode::Packed).unwrap();
    assert!((d[0].1.probs[0] - 0.5).abs() < 1e-9, "{:?}", d[0].1.probs);
    assert_eq!(d[0].1.logits, vec![1.5, 1.5]);
    assert_eq!(diag.passes, 1);
    assert_eq!(diag.branch_tokens.len(), 2);
    assert!(seen.order_spread["q"] > 0.9);
}

/// Every label letter is its own token, and a branch scores 5 on the label
/// that introduces the option named `gold`, 0 elsewhere.
struct Lettered;

const GOLD: i32 = 999;

fn lettered_tokens(text: &str) -> Vec<Token> {
    text.split_whitespace()
        .map(|w| {
            let w = w.trim_end_matches(':');
            let mut c = w.chars();
            match (c.next(), c.next()) {
                (Some(ch), None) if ch.is_ascii_alphabetic() => {
                    Token(1 + LABELS.iter().position(|&l| l == ch).unwrap() as i32)
                }
                _ if w == "gold" => Token(GOLD),
                _ => Token(GOLD + 1),
            }
        })
        .collect()
}

fn scored(b: &BranchTokens, pull: f32, gold: f32) -> BranchOutput {
    let mut row = vec![0.0f32; (GOLD + 3) as usize];
    row[1] = pull;
    let mut label = None;
    for t in &b.tokens {
        if (1..=52).contains(&t.0) {
            label = Some(t.0 as usize);
        } else if t.0 == GOLD {
            if let Some(l) = label {
                row[l] += gold;
            }
        }
    }
    BranchOutput { rows: vec![single_bits(&row)] }
}

impl Backend for Lettered {
    fn tokenize(&self, text: &str) -> Result<Vec<Token>, Error> {
        Ok(lettered_tokens(text))
    }
    fn special(&self, _: &str) -> Result<Token, Error> {
        Ok(Token(GOLD + 2))
    }
    fn bos(&self) -> Token {
        Token(0)
    }
    fn n_embd(&self) -> usize {
        1
    }
    fn n_vocab(&self) -> usize {
        (GOLD + 3) as usize
    }
    fn evaluate(
        &mut self,
        _: &[Token],
        branches: &[BranchTokens],
        _: Want,
    ) -> Result<Vec<BranchOutput>, Error> {
        Ok(branches.iter().map(|b| scored(b, 0.0, 5.0)).collect())
    }
    fn evaluate_many(
        &mut self,
        groups: &Vec<Group<'_>>,
        want: Want,
    ) -> Result<Vec<GroupOutput>, Error> {
        one_by_one(self, groups, want)
    }
    fn limits(&self) -> Limits {
        Limits::default()
    }
    fn prefix_source(&self) -> Option<PrefixSource> {
        Some(PrefixSource::Decoded)
    }
}

/// Position bias only: label A gets +1 unless an option is "gold", which gets
/// +6 wherever it sits.
struct Pulled;

impl Backend for Pulled {
    fn tokenize(&self, text: &str) -> Result<Vec<Token>, Error> {
        Ok(lettered_tokens(text))
    }
    fn special(&self, n: &str) -> Result<Token, Error> {
        Lettered.special(n)
    }
    fn bos(&self) -> Token {
        Lettered.bos()
    }
    fn n_embd(&self) -> usize {
        1
    }
    fn n_vocab(&self) -> usize {
        Lettered.n_vocab()
    }
    fn evaluate(
        &mut self,
        _: &[Token],
        branches: &[BranchTokens],
        _: Want,
    ) -> Result<Vec<BranchOutput>, Error> {
        Ok(branches.iter().map(|b| scored(b, 1.0, 6.0)).collect())
    }
    fn evaluate_many(
        &mut self,
        groups: &Vec<Group<'_>>,
        want: Want,
    ) -> Result<Vec<GroupOutput>, Error> {
        one_by_one(self, groups, want)
    }
    fn limits(&self) -> Limits {
        Limits::default()
    }
    fn prefix_source(&self) -> Option<PrefixSource> {
        None
    }
}

#[test]
fn recheck_re_asks_only_the_uncertain_question() {
    let mut questions = IndexMap::new();
    questions.insert("sure".to_string(), choice("which", &["x", "gold", "y"]));
    questions.insert("unsure".to_string(), choice("which", &["p", "q", "r"]));
    let req = Request { model: "grande-latest".to_string(), state: text("s"), questions };
    let mut engine = Engine::new(Pulled, Renderer::gemma_label(), Readout::Label);
    engine.orders = 3;
    let (_, diag, _) = engine.answer(&req, Mode::Packed);
    assert_eq!(diag.passes, 1);
    assert_eq!(diag.branch_tokens.len(), 6);
    assert!(diag.rechecked.is_empty());

    engine.recheck = Some(0.5);
    let (resp, diag, seen) = engine.answer(&req, Mode::Packed);
    assert_eq!(diag.rechecked, vec!["unsure".to_string()]);
    assert_eq!(diag.passes, 2);
    assert_eq!(diag.branch_tokens.len(), 4);
    let Answer::Choice { choice, .. } = &resp.answers["sure"] else { panic!() };
    assert_eq!(choice, "gold");
    let Answer::Choice { probabilities, .. } = &resp.answers["unsure"] else { panic!() };
    for (_, p) in probabilities {
        assert!((f64::from_bits(*p) - 1.0 / 3.0).abs() < 1e-6, "{probabilities:?}");
    }
    assert!(seen.order_spread["unsure"] > 0.3);

    engine.recheck = Some(0.0);
    let (_, diag, _) = engine.answer(&req, Mode::Packed);
    assert_eq!(diag.passes, 1);
    assert_eq!(diag.branch_tokens.len(), 2);
}

#[test]
fn choice_over_the_label_cap_runs_two_stages() {
    let keys: Vec<String> = (0..60)
        .map(|i| if i == 45 { "gold".to_string() } else { format!("k{i}") })
        .collect();
    let names: Vec<&str> = keys.iter().map(String::as_str).collect();
    let mut questions = IndexMap::new();
    questions.insert("q".to_string(), choice("which", &names));
    let req = Request { model: "grande-latest".to_string(), state: text("s"), questions };
    let mut engine = Engine::new(Lettered, Renderer::gemma_label(), Readout::Label);
    let (resp, diag, _) = engine.answer(&req, Mode::Packed);
    assert_eq!(diag.passes, 2);
    assert_eq!(diag.branch_tokens.len(), 3);
    let finalists = &diag.two_stage["q"];
    assert_eq!(finalists.len(), 52);
    assert!(finalists.contains(&"gold".to_string()));
    let Answer::Choice { choice, probabilities, .. } = &resp.answers["q"] else { panic!() };
    assert_eq!(choice, "gold");
    let probabilities: IndexMap<String, f64> =
        probabilities.iter().map(|(k, p)| (k.clone(), f64::from_bits(*p))).collect();
    assert_eq!(probabilities.len(), 60);
    assert!(probabilities["gold"] > 0.7);
    let excluded = probabilities.iter().filter(|(k, _)| !finalists.contains(k)).count();
    assert_eq!(excluded, 8);
    assert!(probabilities
        .iter()
        .filter(|(k, _)| !finalists.contains(k))
        .all(|(_, p)| *p == 0.0));
    let total: f64 = probabilities.values().sum();
    assert!((total - 1.0).abs() < 1e-9);
}

#[test]
fn separate_branches_are_counted_one_by_one() {
    let mut engine = Engine::new(Lettered, Renderer::gemma_label(), Readout::Label);
    let mut questions = IndexMap::new();
    questions.insert("a".to_string(), choice("which", &["x", "gold"]));
    questions.insert("b".to_string(), choice("which", &["gold", "y"]));
    let req = Request { model: "grande-latest".to_string(), state: text("s"), questions };
    let (apart, diag, _) = engine.answer(&req, Mode::Separate);
    assert_eq!(diag.passes, 2);
    assert_eq!(diag.prefix_source, Some(PrefixSource::Decoded));
    let (together, diag, _) = engine.answer(&req, Mode::Packed);
    assert_eq!(diag.passes, 1);
    assert_eq!(diag.prefix_source, Some(PrefixSource::Decoded));
    assert_eq!(apart, together);
    assert_eq!(
        apart.answers.keys().map(String::as_str).collect::<Vec<_>>(),
        vec!["a", "b"]
    );
    assert_eq!(
        apart.usage.input_tokens as usize,
        diag.prefix_tokens + diag.branch_tokens.iter().sum::<usize>()
    );
    assert_eq!(apart.usage.output_tokens, 0);
}

#[test]
fn a_pointer_head_scores_option_rows_against_the_deciding_row() {
    struct Hidden;
    impl Backend for Hidden {
        fn tokenize(&self, text: &str) -> Result<Vec<Token>, Error> {
            Ok(text.split_whitespace().map(|_| Token(1)).collect())
        }
        fn special(&self, _: &str) -> Result<Token, Error> {
            Ok(Token(2))
        }
        fn bos(&self) -> Token {
            Token(0)
        }
        fn n_embd(&self) -> usize {
            2
        }
        fn n_vocab(&self) -> usize {
            3
        }
        fn evaluate(
            &mut self,
            _: &[Token],
            branches: &[BranchTokens],
            want: Want,
        ) -> Result<Vec<BranchOutput>, Error> {
            assert_eq!(want, Want::Hidden);
            Ok(branches
                .iter()
                .map(|b| {
                    let n = b.want.len();
                    let rows = (0..n)
                        .map(|i| {
                            single_bits(&if i + 1 == n {
                                [1.0, 1.0]
                            } else {
                                [i as f32, 2.0 * i as f32]
                            })
                        })
                        .collect();
                    BranchOutput { rows }
                })
                .collect())
        }
        fn evaluate_many(
            &mut self,
            groups: &Vec<Group<'_>>,
            want: Want,
        ) -> Result<Vec<GroupOutput>, Error> {
            one_by_one(self, groups, want)
        }
        fn limits(&self) -> Limits {
            Limits::default()
        }
        fn prefix_source(&self) -> Option<PrefixSource> {
            None
        }
    }
    let eye = single_bits(&[1.0, 0.0, 0.0, 1.0]);
    let head = PointerHead {
        d: 2,
        dp: 2,
        w_q: eye.clone(),
        b_q: single_bits(&[0.0, 0.0]),
        w_k: eye,
        b_k: single_bits(&[0.0, 0.0]),
    };
    let mut engine =
        Engine::new(Hidden, Renderer::gemma_pointer(), Readout::Pointer(head));
    let mut questions = IndexMap::new();
    questions.insert("q".to_string(), choice("which", &["x", "y", "z"]));
    let req = Request { model: "grande-latest".to_string(), state: text("s"), questions };
    let (d, _, _) = engine.distributions(&req, Mode::Packed).unwrap();
    let scale = 1.0 / 2.0f32.sqrt();
    assert_eq!(d[0].1.logits, vec![0.0, 3.0 * scale, 6.0 * scale]);
}

#[test]
fn a_failing_pass_takes_down_only_its_own_requests() {
    struct Picky;
    impl Backend for Picky {
        fn tokenize(&self, text: &str) -> Result<Vec<Token>, Error> {
            if text.contains("unsayable") {
                return Err(Error::Backend("cannot say that".to_string()));
            }
            Ok(text.split_whitespace().map(|w| Token(w.len() as i32 % 3)).collect())
        }
        fn special(&self, _: &str) -> Result<Token, Error> {
            Ok(Token(2))
        }
        fn bos(&self) -> Token {
            Token(0)
        }
        fn n_embd(&self) -> usize {
            1
        }
        fn n_vocab(&self) -> usize {
            4
        }
        fn evaluate(
            &mut self,
            _: &[Token],
            _: &[BranchTokens],
            _: Want,
        ) -> Result<Vec<BranchOutput>, Error> {
            Err(Error::Backend("out of memory".to_string()))
        }
        fn evaluate_many(
            &mut self,
            groups: &Vec<Group<'_>>,
            _: Want,
        ) -> Result<Vec<GroupOutput>, Error> {
            if groups.len() > 1 {
                return Err(Error::Backend("too many at once".to_string()));
            }
            Ok(groups
                .iter()
                .map(|g| GroupOutput {
                    branches: g
                        .branches
                        .iter()
                        .map(|_| BranchOutput { rows: vec![single_bits(&[1.0, 2.0, 3.0, 4.0])] })
                        .collect(),
                    prefix_source: Some(PrefixSource::Ram),
                })
                .collect())
        }
        fn limits(&self) -> Limits {
            Limits { sequences: 4, ..Default::default() }
        }
        fn prefix_source(&self) -> Option<PrefixSource> {
            None
        }
    }
    let mut engine = Engine::new(Picky, Renderer::gemma_label(), Readout::Label);
    let good = request("fine");
    let odd = request("unsayable");
    let results = engine.answer_many(&[&good, &odd, &good, &good], Mode::Packed);
    assert_eq!(
        results[0].as_ref().err(),
        Some(&Error::Backend("too many at once".to_string()))
    );
    assert_eq!(
        results[1].as_ref().err(),
        Some(&Error::Backend("cannot say that".to_string()))
    );
    assert!(results[2].is_err());
    let (_, diag, _) = results[3].as_ref().unwrap();
    assert_eq!(diag.prefix_source, Some(PrefixSource::Ram));
    let results = engine.answer_many(&[&good], Mode::Separate);
    assert_eq!(
        results[0].as_ref().err(),
        Some(&Error::Backend("out of memory".to_string()))
    );
}

#[test]
fn the_levels_of_a_score_are_never_permuted() {
    let mut questions = IndexMap::new();
    questions.insert(
        "level".to_string(),
        Question::Score {
            instructions: Some(text("how much")),
            criteria: vec![text("none"), text("some"), text("all")],
        },
    );
    questions.insert("pick".to_string(), choice("which", &["x", "y", "z"]));
    let req = Request { model: "grande-latest".to_string(), state: text("s"), questions };
    let renderer = Renderer::gemma_label();
    let none = IndexMap::new();
    let plan = Plan::new(&renderer, &req, &none, Some(26), 3, None).unwrap();
    let asked: Vec<(&str, Vec<usize>)> =
        plan.first.iter().map(|b| (b.id.as_str(), b.order.clone())).collect();
    assert_eq!(asked[0], ("level", vec![0, 1, 2]));
    assert_eq!(asked.iter().filter(|(id, _)| *id == "level").count(), 1);
    assert_eq!(asked.iter().filter(|(id, _)| *id == "pick").count(), 3);

    let plan = Plan::new(&renderer, &req, &none, Some(26), 3, Some(0.5f64.to_bits())).unwrap();
    assert_eq!(plan.first.len(), 2);
    assert_eq!(plan.first[1].order, vec![0, 1, 2]);
    let flat: Vec<Distribution> =
        (0..2).map(|_| Dist::of(vec![0.0, 0.0, 0.0], 1.0).bits()).collect();
    let (again, _, ids) = plan.second(&renderer, &req, &flat, &vec![false, false]);
    assert_eq!(ids, vec!["pick".to_string()]);
    assert_eq!(again.len(), 2);
    assert!(again.iter().all(|b| b.id == "pick" && b.order != vec![0, 1, 2]));
    let (again, _, ids) = plan.second(&renderer, &req, &flat, &vec![false, true]);
    assert!(again.is_empty() && ids.is_empty());
}

#[test]
fn only_the_finalists_get_votes() {
    let mut questions = IndexMap::new();
    questions.insert("q".to_string(), choice("which", &["a", "b", "c", "d", "e"]));
    let req = Request { model: "grande-latest".to_string(), state: text("s"), questions };
    let renderer = Renderer::gemma_label();
    let none = IndexMap::new();
    let plan = Plan::new(&renderer, &req, &none, Some(4), 1, None).unwrap();
    assert_eq!(plan.first.len(), 2);
    assert_eq!(plan.first[0].order, vec![0, 1, 2]);
    assert_eq!(plan.first[1].order, vec![3, 4]);
    let read = vec![
        Dist::of(vec![0.0, 2.0, 1.0], 1.0).bits(),
        Dist::of(vec![1.0, 0.0], 1.0).bits(),
    ];
    let (second, keys, _) = plan.second(&renderer, &req, &read, &vec![false, false]);
    assert_eq!(keys["q"], vec!["b", "c", "d", "e"]);
    assert_eq!(second.len(), 1);
    assert_eq!(second[0].order, vec![1, 2, 3, 4]);
    assert!(plan.owns(&second) && plan.owns(&Vec::new()));
    let mut stray = second[0].clone();
    stray.id = "other".to_string();
    assert!(!plan.owns(&vec![stray]));
    let mut wide = second[0].clone();
    wide.order = vec![5];
    assert!(!plan.owns(&vec![wide]));
    let folded = plan.fold(second);
    assert_eq!(folded.folds[0].runs, vec![Source::Second(0)]);
    assert_eq!(
        folded.folds[0].votes,
        vec![vec![], vec![(0, 0)], vec![(0, 1)], vec![(0, 2)], vec![(0, 3)]]
    );
}
