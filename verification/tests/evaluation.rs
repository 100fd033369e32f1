use grande::answer::{original_order, to_answer, Answer};
use grande::api::{Question, Request};
use grande::backend::{
    Backend, BranchOutput, BranchTokens, Group, GroupOutput, PrefixSource, Token, Want,
};
use grande::engine::{Board, Limits, Mode, Slot};
use grande::error::Error;
use grande::json::{json_lines, Json};
use grande::math::calibration_split;
use grande::plan::Plan;
use grande::readout::{Distribution, Readout};
use grande::render::Renderer;
use grande::score::{evaluate_items, hidden_rows, prepare, read_item, Item};
use indexmap::IndexMap;

/// Notes what it is asked and answers with numbers of its own; the `fails`-th
/// call fails.
struct Noting {
    sequences: usize,
    fails: usize,
    asked: Vec<(Vec<(Vec<Token>, Vec<BranchTokens>)>, Want)>,
}

impl Noting {
    fn new(sequences: usize, fails: usize) -> Noting {
        Noting { sequences, fails, asked: Vec::new() }
    }

    fn note(
        &mut self,
        groups: Vec<(Vec<Token>, Vec<BranchTokens>)>,
        want: Want,
    ) -> Result<u32, Error> {
        self.asked.push((groups, want));
        let n = self.asked.len();
        if n == self.fails {
            return Err(Error::Backend(format!("call {n}")));
        }
        Ok(n as u32)
    }
}

impl Backend for Noting {
    fn tokenize(&self, text: &str) -> Result<Vec<Token>, Error> {
        if text.contains("bad") {
            return Err(Error::Backend("no token".to_string()));
        }
        Ok(text.split_whitespace().map(|w| Token(w.len() as i32)).collect())
    }
    fn special(&self, _: &str) -> Result<Token, Error> {
        Ok(Token(90))
    }
    fn bos(&self) -> Token {
        Token(91)
    }
    fn n_embd(&self) -> usize {
        2
    }
    fn n_vocab(&self) -> usize {
        99
    }
    fn evaluate(
        &mut self,
        prefix: &[Token],
        branches: &[BranchTokens],
        want: Want,
    ) -> Result<Vec<BranchOutput>, Error> {
        let n = self.note(vec![(prefix.to_vec(), branches.to_vec())], want)?;
        Ok((0..branches.len() as u32).map(|b| BranchOutput { rows: vec![vec![n, b]] }).collect())
    }
    fn evaluate_many(
        &mut self,
        groups: &Vec<Group<'_>>,
        want: Want,
    ) -> Result<Vec<GroupOutput>, Error> {
        let asked = groups.iter().map(|g| (g.prefix.clone(), g.branches.clone())).collect();
        let n = self.note(asked, want)?;
        Ok((0..groups.len() as u32)
            .map(|g| GroupOutput {
                branches: vec![BranchOutput { rows: vec![vec![n, g]] }],
                prefix_source: Some(PrefixSource::Ram),
            })
            .collect())
    }
    fn limits(&self) -> Limits {
        Limits { sequences: self.sequences, ..Default::default() }
    }
    fn prefix_source(&self) -> Option<PrefixSource> {
        Some(PrefixSource::Disk)
    }
}

fn text(s: &str) -> Json {
    Json::Str(s.to_string())
}

fn request(state: &str) -> Request {
    let mut questions = IndexMap::new();
    questions.insert(
        "q".to_string(),
        Question::Noul { instructions: Some(text("is it so")), criteria: None },
    );
    Request { model: "grande-latest".to_string(), state: text(state), questions }
}

/// Three jobs with prefixes of their own, and their items.
fn jobs(backend: &Noting) -> (Board, Vec<Item>) {
    let renderer = Renderer::gemma_label();
    let mut planned = Vec::new();
    let mut items = Vec::new();
    for i in 0..3 {
        let plan =
            Plan::new(&renderer, &request("fine"), &IndexMap::new(), Some(52), 1, None).unwrap();
        let packed = vec![BranchTokens { tokens: vec![Token(20 + i), Token(30)], want: vec![1] }];
        items.push(Item {
            job: i as usize,
            branches: plan.first.clone(),
            packed,
            label_ids: vec![Token(0), Token(1)],
        });
        planned.push(Ok((plan, vec![Token(10 + i)])));
    }
    assert_eq!(backend.asked.len(), 0);
    (Board::open(planned, 1), items)
}

fn seen(b: &Noting, call: usize) -> Vec<(i32, i32)> {
    b.asked[call].0.iter().map(|(p, bs)| (p[0].0, bs[0].tokens[0].0)).collect()
}

fn rows(r: &[Option<Vec<BranchOutput>>]) -> Vec<Option<Vec<u32>>> {
    r.iter().map(|o| o.as_ref().map(|b| b[0].rows[0].clone())).collect()
}

#[test]
fn requests_share_passes_and_get_their_own_rows_back() {
    let mut b = Noting::new(4, 0);
    let (mut board, items) = jobs(&b);
    let r = evaluate_items(&mut board, &mut b, &items, Mode::Packed, Want::Logits);
    assert_eq!(b.asked.len(), 2);
    assert_eq!(seen(&b, 0), vec![(10, 20), (11, 21)]);
    assert_eq!(seen(&b, 1), vec![(12, 22)]);
    assert!(b.asked.iter().all(|(_, w)| *w == Want::Logits));
    assert_eq!(rows(&r), vec![Some(vec![1, 0]), Some(vec![1, 1]), Some(vec![2, 0])]);
    let batches: Vec<(usize, usize)> = board
        .slots
        .iter()
        .map(|s| match s {
            Slot::Live(j) => {
                assert_eq!(j.diag.prefix_source, Some(PrefixSource::Ram));
                (j.diag.batch, j.diag.passes)
            }
            Slot::Failed(_) => panic!(),
        })
        .collect();
    assert_eq!(batches, vec![(2, 1), (2, 1), (1, 1)]);
}

#[test]
fn a_failing_pass_fails_its_own_requests() {
    let mut b = Noting::new(4, 1);
    let (mut board, items) = jobs(&b);
    let r = evaluate_items(&mut board, &mut b, &items, Mode::Packed, Want::Hidden);
    assert_eq!(rows(&r), vec![None, None, Some(vec![2, 0])]);
    assert!(b.asked.iter().all(|(_, w)| *w == Want::Hidden));
    for s in &board.slots[..2] {
        let Slot::Failed(e) = s else { panic!() };
        assert_eq!(*e, Error::Backend("call 1".to_string()));
    }
    assert!(matches!(&board.slots[2], Slot::Live(_)));
}

#[test]
fn branches_on_their_own_stop_at_the_first_failure() {
    let mut b = Noting::new(4, 3);
    let (mut board, mut items) = jobs(&b);
    let again = items[1].packed[0].clone();
    items[1].packed.push(again.clone());
    items[1].packed.push(again);
    let r = evaluate_items(&mut board, &mut b, &items, Mode::Separate, Want::Logits);
    assert_eq!(b.asked.len(), 4);
    assert_eq!(seen(&b, 0), vec![(10, 20)]);
    assert_eq!(seen(&b, 1), vec![(11, 21)]);
    assert_eq!(seen(&b, 2), vec![(11, 21)]);
    assert_eq!(seen(&b, 3), vec![(12, 22)]);
    assert_eq!(rows(&r), vec![Some(vec![1, 0]), None, Some(vec![4, 0])]);
    let Slot::Failed(e) = &board.slots[1] else { panic!() };
    assert_eq!(*e, Error::Backend("call 3".to_string()));
    let Slot::Live(j) = &board.slots[0] else { panic!() };
    assert_eq!((j.diag.passes, j.diag.prefix_source), (1, Some(PrefixSource::Disk)));
}

#[test]
fn outputs_are_read_at_the_letters() {
    let backend = Noting::new(4, 0);
    let plan = Plan::new(
        &Renderer::gemma_label(),
        &request("fine"),
        &IndexMap::new(),
        Some(52),
        1,
        None,
    )
    .unwrap();
    let item = prepare(&backend, &Readout::Label, 5, plan.first).unwrap();
    assert_eq!((item.job, item.label_ids.len()), (5, 2));
    let outs = vec![BranchOutput { rows: vec![(0..99).collect()] }];
    assert_eq!(read_item(&Readout::Label, &item, &outs).unwrap().len(), 1);
    assert_eq!(read_item(&Readout::Label, &item, &vec![]).unwrap().len(), 0);
}

#[test]
fn hidden_rows_come_from_one_evaluation() {
    let renderer = Renderer::gemma_label();
    let mut b = Noting::new(4, 0);
    let (branches, outs) =
        hidden_rows(&mut b, &renderer, &request("fine"), &IndexMap::new()).unwrap();
    assert_eq!((branches.len(), outs.len()), (1, 1));
    assert_eq!(outs[0].rows, vec![vec![1, 0]]);
    assert_eq!(b.asked.len(), 1);
    assert_eq!(b.asked[0].1, Want::Hidden);
    let mut b = Noting::new(4, 1);
    assert_eq!(
        hidden_rows(&mut b, &renderer, &request("fine"), &IndexMap::new()).unwrap_err(),
        Error::Backend("call 1".to_string())
    );
    assert_eq!(
        hidden_rows(&mut b, &renderer, &request("bad"), &IndexMap::new()).unwrap_err(),
        Error::Backend("no token".to_string())
    );
    assert_eq!(b.asked.len(), 1);
}

#[test]
fn an_answer_is_the_same_in_every_order() {
    let mut criteria = IndexMap::new();
    for k in ["a", "b", "c"] {
        criteria.insert(k.to_string(), None);
    }
    let q = Question::Choice { instructions: Some(text("which")), criteria };
    let mut questions = IndexMap::new();
    questions.insert("q".to_string(), q);
    let req = Request { model: "m".to_string(), state: text("s"), questions };
    let own = [0.2f64.to_bits(), 0.7f64.to_bits(), 0.1f64.to_bits()];
    for order in [vec![0, 1, 2], vec![2, 0, 1], vec![1, 0, 2], vec![2, 1, 0]] {
        let probs: Vec<u64> = order.iter().map(|&o: &usize| own[o]).collect();
        let mut orders = IndexMap::new();
        orders.insert("q".to_string(), order);
        let b = &Renderer::gemma_label().render_with(&req, &orders).branches[0];
        let p = original_order(b, &probs);
        assert_eq!(p, own.to_vec());
        let Answer::Choice { choice, probabilities, .. } =
            to_answer(&req.questions["q"], &p, 0, 0)
        else {
            panic!()
        };
        assert_eq!(choice, "b");
        assert_eq!(probabilities.get_index(2), Some((&"c".to_string(), &own[2])));
    }
}

#[test]
fn an_order_may_repeat_an_option() {
    let renderer = Renderer::gemma_label();
    let mut orders = IndexMap::new();
    orders.insert("q".to_string(), vec![1, 1]);
    let req = request("fine");
    let plan = Plan::new(&renderer, &req, &orders, Some(52), 1, None).unwrap();
    assert_eq!(plan.first[0].order, vec![1, 1]);
    let folded = plan.fold(Vec::new());
    assert_eq!(folded.folds[0].votes, vec![vec![(0, 0), (0, 1)], vec![(0, 0), (0, 1)]]);
}

#[test]
fn blank_lines_are_left_out_and_counted() {
    let got = json_lines("{}\r\n\n \u{3000}\t\n[1]\n\n2\r");
    let want = vec![(1, "{}".to_string()), (4, "[1]".to_string()), (6, "2\r".to_string())];
    assert_eq!(got, want);
    assert_eq!(json_lines(""), vec![]);
    assert_eq!(json_lines("\n"), vec![]);
    let sample = "a\n\u{85}\u{a0}\u{1680}\u{2000}\u{200a}\u{2028}\u{202f}\u{205f}\nb c\r\r\n\u{200b}";
    let std_lines: Vec<(usize, String)> = sample
        .lines()
        .enumerate()
        .filter(|(_, l)| !l.trim().is_empty())
        .map(|(i, l)| (i + 1, l.to_string()))
        .collect();
    assert_eq!(json_lines(sample), std_lines);
}

#[test]
fn even_rows_calibrate() {
    assert_eq!(calibration_split(5), (vec![0, 2, 4], vec![1, 3]));
    assert_eq!(calibration_split(4), (vec![0, 2], vec![1, 3]));
    assert_eq!(calibration_split(0), (vec![], vec![]));
}

fn choice(n: usize) -> Request {
    let criteria = (0..n).map(|i| (format!("k{i}"), None)).collect();
    let mut questions = IndexMap::new();
    questions.insert(
        "q".to_string(),
        Question::Choice { instructions: Some(text("which")), criteria },
    );
    Request { model: "m".to_string(), state: text("s"), questions }
}

fn given(order: Vec<usize>) -> IndexMap<String, Vec<usize>> {
    let mut orders = IndexMap::new();
    orders.insert("q".to_string(), order);
    orders
}

fn spread(probs: Vec<f64>) -> Distribution {
    Distribution {
        logits: vec![0; probs.len()],
        baseline: None,
        probs: probs.into_iter().map(f64::to_bits).collect(),
        candidate_mass: None,
    }
}

fn finalists(order: Vec<usize>, first: Vec<Vec<f64>>) -> (Vec<String>, Vec<usize>) {
    let renderer = Renderer::gemma_label();
    let req = choice(10);
    let plan = Plan::new(&renderer, &req, &given(order), Some(2), 1, None).unwrap();
    let first: Vec<Distribution> = first.into_iter().map(spread).collect();
    let sure = vec![true; first.len()];
    let (branches, keys, again) = plan.second(&renderer, &req, &first, &sure);
    assert_eq!((branches.len(), again.len()), (1, 0));
    (keys["q"].clone(), branches[0].order.clone())
}

#[test]
fn a_finalist_comes_once_for_every_slot_it_wins() {
    assert_eq!(
        finalists(vec![7, 8, 7], vec![vec![0.1, 0.9], vec![1.0]]),
        (vec!["k7".to_string(), "k8".to_string()], vec![7, 8])
    );
    assert_eq!(
        finalists(vec![7, 8, 7, 9], vec![vec![0.9, 0.1], vec![0.8, 0.2]]),
        (vec!["k7".to_string(), "k7".to_string()], vec![7, 7])
    );
    assert_eq!(
        finalists(vec![9, 3, 5, 4], vec![vec![0.1, 0.9], vec![0.2, 0.8]]),
        (vec!["k3".to_string(), "k4".to_string()], vec![3, 4])
    );
}

#[test]
fn a_refused_request_is_refused_whatever_its_orders() {
    let renderer = Renderer::gemma_label();
    for order in [vec![], vec![5, 6]] {
        let r = Plan::new(&renderer, &choice(0), &given(order), Some(52), 1, None);
        assert!(matches!(r, Err(Error::Invalid { .. })));
    }
}

/// Answers a branch with its prefix's first token and its own.
struct Apart;

impl Apart {
    fn rows(prefix: &[Token], branches: &[BranchTokens]) -> Vec<BranchOutput> {
        branches
            .iter()
            .map(|b| BranchOutput { rows: vec![vec![prefix[0].0 as u32, b.tokens[0].0 as u32]] })
            .collect()
    }
}

impl Backend for Apart {
    fn tokenize(&self, _: &str) -> Result<Vec<Token>, Error> {
        Ok(vec![Token(1)])
    }
    fn special(&self, _: &str) -> Result<Token, Error> {
        Ok(Token(90))
    }
    fn bos(&self) -> Token {
        Token(91)
    }
    fn n_embd(&self) -> usize {
        2
    }
    fn n_vocab(&self) -> usize {
        99
    }
    fn evaluate(
        &mut self,
        prefix: &[Token],
        branches: &[BranchTokens],
        _: Want,
    ) -> Result<Vec<BranchOutput>, Error> {
        Ok(Apart::rows(prefix, branches))
    }
    fn evaluate_many(
        &mut self,
        groups: &Vec<Group<'_>>,
        _: Want,
    ) -> Result<Vec<GroupOutput>, Error> {
        Ok(groups
            .iter()
            .map(|g| GroupOutput { branches: Apart::rows(g.prefix, g.branches), prefix_source: None })
            .collect())
    }
    fn limits(&self) -> Limits {
        Limits { sequences: 4, ..Default::default() }
    }
    fn prefix_source(&self) -> Option<PrefixSource> {
        None
    }
}

fn all_rows(r: &[Option<Vec<BranchOutput>>]) -> Vec<Vec<Vec<u32>>> {
    r.iter().map(|o| o.as_ref().unwrap().iter().map(|b| b.rows[0].clone()).collect()).collect()
}

#[test]
fn packing_and_company_change_no_row() {
    let (mut board, mut items) = jobs(&Noting::new(4, 0));
    items[1].packed.push(BranchTokens { tokens: vec![Token(40)], want: vec![0] });
    let packed = evaluate_items(&mut board, &mut Apart, &items, Mode::Packed, Want::Logits);
    assert_eq!(
        all_rows(&packed),
        vec![vec![vec![10, 20]], vec![vec![11, 21], vec![11, 40]], vec![vec![12, 22]]]
    );
    let (mut other, _) = jobs(&Noting::new(4, 0));
    let separate = evaluate_items(&mut other, &mut Apart, &items, Mode::Separate, Want::Logits);
    assert_eq!(all_rows(&packed), all_rows(&separate));
    let passes: Vec<usize> = other
        .slots
        .iter()
        .map(|s| match s {
            Slot::Live(j) => j.diag.passes,
            Slot::Failed(_) => panic!(),
        })
        .collect();
    assert_eq!(passes, vec![1, 2, 1]);
    for k in 0..3 {
        let (mut alone, _) = jobs(&Noting::new(4, 0));
        let one = vec![items.remove(0)];
        let r = evaluate_items(&mut alone, &mut Apart, &one, Mode::Packed, Want::Logits);
        assert_eq!(all_rows(&r), all_rows(&packed[k..k + 1]));
    }
}
