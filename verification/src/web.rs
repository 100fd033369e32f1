//! What the browser surface checks and says around the planner: the rows a
//! page hands in, and the settings it is given back.

use vstd::prelude::*;
use vstd::string::StringExecFns;

use crate::backend::Want;
use crate::baseline::CONTENT_FREE;
use crate::error::LoadError;
use crate::json::{at, field_views, object_of, Json, JsonView};
use crate::laya::LayaConfig;
use crate::model::Config;
use crate::readout::{label, label_char};
use crate::render::RenderedBranch;
use crate::suite::text_or;
use crate::text::{decimal, push_decimal, same};

verus! {

/// Option labels for the label readout, in order.
pub fn labels() -> (r: String)
    ensures
        r@ == Seq::new(52, |i: int| label_char(i)),
{
    let mut s: String = String::new();
    let mut i: usize = 0;
    assert(s@ =~= Seq::new(0, |i: int| label_char(i)));
    while i < 52
        invariant
            0 <= i <= 52,
            s@ == Seq::new(i as nat, |i: int| label_char(i)),
        decreases 52 - i,
    {
        s.push(label(i));
        i += 1;
        assert(s@ =~= Seq::new(i as nat, |i: int| label_char(i)));
    }
    s
}

/// The content-free state for contextual calibration.
pub fn content_free_state() -> (r: String)
    ensures
        r@ == "N/A"@,
{
    CONTENT_FREE.to_owned()
}

/// The most options a branch may letter, by the number a page gives: none for
/// zero.
pub fn label_cap(n: u32) -> (r: Option<usize>)
    ensures
        r == (if n > 0 {
            Some(n as usize)
        } else {
            None
        }),
{
    if n > 0 {
        Some(n as usize)
    } else {
        None
    }
}

/// What to read, by the name a page gives.
pub fn want_of(s: &str) -> (r: Want)
    ensures
        r == (if s@ == "logits"@ {
            Want::Logits
        } else {
            Want::Hidden
        }),
{
    if same(s, "logits") {
        Want::Logits
    } else {
        Want::Hidden
    }
}

/// The model name of an exported Laya configuration.
pub fn export_name(v: &Json) -> (r: String)
    ensures
        r@ == text_or(at(v@, "laya_name"@), "laya"@),
{
    match v.text_at("laya_name") {
        Some(s) => s.clone(),
        None => "laya".to_owned(),
    }
}

/// The error of a number of rows that is not the number of branches.
pub open spec fn row_count_message(n: nat, what: Seq<char>, branches: nat) -> Seq<char> {
    decimal(n) + " "@ + what + " for "@ + decimal(branches) + " branches"@
}

/// The error of a branch whose row does not have a number per option.
pub open spec fn row_width_message(
    id: Seq<char>,
    n: nat,
    what: Seq<char>,
    options: nat,
) -> Seq<char> {
    "branch "@ + id + ": "@ + decimal(n) + " "@ + what + " for "@ + decimal(options) + " options"@
}

/// The error of the first of the `n` branches whose rows do not fit it.
/// `rows` and `baseline` give how many numbers each row holds.
pub open spec fn widths_fault(
    branches: Seq<RenderedBranch>,
    rows: Seq<usize>,
    baseline: Option<Seq<usize>>,
    n: nat,
) -> Option<Seq<char>>
    decreases n,
{
    if n == 0 {
        None
    } else {
        let i = n - 1;
        let k = branches[i].keys@.len();
        match widths_fault(branches, rows, baseline, (n - 1) as nat) {
            Some(e) => Some(e),
            None => if rows[i] != k {
                Some(row_width_message(branches[i].id@, rows[i] as nat, "logits"@, k))
            } else if baseline is Some && baseline->0[i] != k {
                Some(
                    row_width_message(
                        branches[i].id@,
                        baseline->0[i] as nat,
                        "baseline logits"@,
                        k,
                    ),
                )
            } else {
                None
            },
        }
    }
}

/// Why rows cannot be read for branches, if they cannot: `what` names them.
pub open spec fn rows_fault(
    branches: Seq<RenderedBranch>,
    rows: Seq<usize>,
    baseline: Option<Seq<usize>>,
    what: Seq<char>,
) -> Option<Seq<char>> {
    if rows.len() != branches.len() {
        Some(row_count_message(rows.len(), what, branches.len()))
    } else if baseline is Some && baseline->0.len() != branches.len() {
        Some(row_count_message(baseline->0.len(), "baseline rows"@, branches.len()))
    } else {
        widths_fault(branches, rows, baseline, branches.len())
    }
}

proof fn widths_fault_stays(
    branches: Seq<RenderedBranch>,
    rows: Seq<usize>,
    baseline: Option<Seq<usize>>,
    i: nat,
    n: nat,
)
    requires
        i <= n,
        widths_fault(branches, rows, baseline, i) is Some,
    ensures
        widths_fault(branches, rows, baseline, n) == widths_fault(branches, rows, baseline, i),
    decreases n - i,
{
    if i < n {
        widths_fault_stays(branches, rows, baseline, i + 1, n);
    }
}

fn row_count_text(n: usize, what: &str, branches: usize) -> (r: String)
    ensures
        r@ == row_count_message(n as nat, what@, branches as nat),
{
    let mut m: String = String::new();
    push_decimal(&mut m, n as u64);
    assert(m@ =~= decimal(n as nat));
    m.append(" ");
    m.append(what);
    m.append(" for ");
    push_decimal(&mut m, branches as u64);
    m.append(" branches");
    m
}

fn row_width_text(id: &str, n: usize, what: &str, options: usize) -> (r: String)
    ensures
        r@ == row_width_message(id@, n as nat, what@, options as nat),
{
    let mut m: String = "branch ".to_owned();
    m.append(id);
    m.append(": ");
    push_decimal(&mut m, n as u64);
    m.append(" ");
    m.append(what);
    m.append(" for ");
    push_decimal(&mut m, options as u64);
    m.append(" options");
    m
}

/// The lengths of rows that may not be there.
pub open spec fn opt_lengths(v: Option<&Vec<usize>>) -> Option<Seq<usize>> {
    match v {
        Some(x) => Some(x@),
        None => None,
    }
}

/// Checks the rows that a page read for branches: one per branch, a number
/// per option, and the same of the baseline where there is one.
pub fn check_rows(
    branches: &Vec<RenderedBranch>,
    rows: &Vec<usize>,
    baseline: Option<&Vec<usize>>,
    what: &str,
) -> (r: Result<(), LoadError>)
    ensures
        match r {
            Ok(_) => rows_fault(branches@, rows@, opt_lengths(baseline), what@) is None,
            Err(e) => rows_fault(branches@, rows@, opt_lengths(baseline), what@) == Some(e@),
        },
{
    let n: usize = branches.len();
    if rows.len() != n {
        return Err(LoadError::new(row_count_text(rows.len(), what, n)));
    }
    match baseline {
        Some(b) => {
            if b.len() != n {
                return Err(LoadError::new(row_count_text(b.len(), "baseline rows", n)));
            }
        },
        None => {},
    }
    let ghost bl = opt_lengths(baseline);
    let mut i: usize = 0;
    while i < n
        invariant
            0 <= i <= n,
            n == branches@.len(),
            rows@.len() == n,
            bl == opt_lengths(baseline),
            bl is Some ==> bl->0.len() == n,
            rows_fault(branches@, rows@, bl, what@) == widths_fault(branches@, rows@, bl, n as nat),
            widths_fault(branches@, rows@, bl, i as nat) is None,
        decreases n - i,
    {
        let k: usize = branches[i].keys.len();
        proof {
            if widths_fault(branches@, rows@, bl, (i + 1) as nat) is Some {
                widths_fault_stays(branches@, rows@, bl, (i + 1) as nat, n as nat);
            }
        }
        if rows[i] != k {
            return Err(
                LoadError::new(row_width_text(branches[i].id.as_str(), rows[i], "logits", k)),
            );
        }
        match baseline {
            Some(b) => {
                if b[i] != k {
                    return Err(
                        LoadError::new(
                            row_width_text(branches[i].id.as_str(), b[i], "baseline logits", k),
                        ),
                    );
                }
            },
            None => {},
        }
        i += 1;
    }
    Ok(())
}

/// Whether the rows of a second pass are there where there is one.
pub fn check_second(branches: usize, rows: bool) -> (r: Result<(), LoadError>)
    ensures
        match r {
            Ok(_) => branches == 0 || rows,
            Err(e) => branches != 0 && !rows && e@ == decimal(branches as nat)
                + " second-pass branches need rows2"@,
        },
{
    if branches == 0 || rows {
        return Ok(());
    }
    let mut m: String = String::new();
    push_decimal(&mut m, branches as u64);
    assert(m@ =~= decimal(branches as nat));
    m.append(" second-pass branches need rows2");
    Err(LoadError::new(m))
}

/// The settings of a Gemma engine that a page reads, as JSON text.
pub fn config_text(c: &Config) -> (r: String)
    ensures
        r@ == "{\"d\":"@ + decimal(c.d as nat) + ",\"vocab\":"@ + decimal(c.vocab as nat)
            + ",\"bos\":"@ + decimal(c.bos as nat) + ",\"per_layer_dim\":"@ + decimal(
            c.per_layer_dim as nat,
        ) + ",\"layers\":"@ + decimal(c.layers as nat) + "}"@,
{
    let mut m: String = "{\"d\":".to_owned();
    push_decimal(&mut m, c.d as u64);
    m.append(",\"vocab\":");
    push_decimal(&mut m, c.vocab as u64);
    m.append(",\"bos\":");
    push_decimal(&mut m, c.bos as u64);
    m.append(",\"per_layer_dim\":");
    push_decimal(&mut m, c.per_layer_dim as u64);
    m.append(",\"layers\":");
    push_decimal(&mut m, c.layers as u64);
    m.append("}");
    m
}

/// The settings of a Laya engine that a page reads.
pub fn laya_settings(c: &LayaConfig) -> (r: Json)
    ensures
        r@ == JsonView::Object(
            seq![
                ("d"@, JsonView::Uint(c.d as u64)),
                ("vocab"@, JsonView::Uint(c.vocab as u64)),
                ("layers"@, JsonView::Uint(c.layers as u64)),
                ("head_layers"@, JsonView::Uint(c.head_layers as u64)),
                ("max_len"@, JsonView::Uint(c.max_len as u64)),
                ("head_max_len"@, JsonView::Uint(c.head_max_len as u64)),
                ("cls"@, JsonView::Uint(c.cls as u64)),
                ("sep"@, JsonView::Uint(c.sep as u64)),
                ("mask"@, JsonView::Uint(c.mask as u64)),
                ("pad"@, JsonView::Uint(c.pad as u64)),
            ],
        ),
{
    let fields: Vec<(String, Json)> = vec![
        ("d".to_owned(), Json::Uint(c.d as u64)),
        ("vocab".to_owned(), Json::Uint(c.vocab as u64)),
        ("layers".to_owned(), Json::Uint(c.layers as u64)),
        ("head_layers".to_owned(), Json::Uint(c.head_layers as u64)),
        ("max_len".to_owned(), Json::Uint(c.max_len as u64)),
        ("head_max_len".to_owned(), Json::Uint(c.head_max_len as u64)),
        ("cls".to_owned(), Json::Uint(c.cls as u64)),
        ("sep".to_owned(), Json::Uint(c.sep as u64)),
        ("mask".to_owned(), Json::Uint(c.mask as u64)),
        ("pad".to_owned(), Json::Uint(c.pad as u64)),
    ];
    let ghost want = seq![
        ("d"@, JsonView::Uint(c.d as u64)),
        ("vocab"@, JsonView::Uint(c.vocab as u64)),
        ("layers"@, JsonView::Uint(c.layers as u64)),
        ("head_layers"@, JsonView::Uint(c.head_layers as u64)),
        ("max_len"@, JsonView::Uint(c.max_len as u64)),
        ("head_max_len"@, JsonView::Uint(c.head_max_len as u64)),
        ("cls"@, JsonView::Uint(c.cls as u64)),
        ("sep"@, JsonView::Uint(c.sep as u64)),
        ("mask"@, JsonView::Uint(c.mask as u64)),
        ("pad"@, JsonView::Uint(c.pad as u64)),
    ];
    assert(field_views(fields@) =~= want);
    object_of(fields)
}

/// Rows are accepted exactly where there is one for every branch with a number
/// for every option, and the same of the baseline's where they are given.
pub proof fn rows_are_taken_exactly_when_they_fit(
    branches: Seq<RenderedBranch>,
    rows: Seq<usize>,
    baseline: Option<Seq<usize>>,
    what: Seq<char>,
)
    ensures
        rows_fault(branches, rows, baseline, what) is None <==> {
            &&& rows.len() == branches.len()
            &&& baseline is Some ==> baseline->0.len() == branches.len()
            &&& forall|i: int|
                0 <= i < branches.len() ==> (#[trigger] branches[i]).keys@.len() == rows[i] && (
                baseline is Some ==> baseline->0[i] == branches[i].keys@.len())
        },
{
    widths_fit_every_branch(branches, rows, baseline, branches.len());
}

proof fn widths_fit_every_branch(
    branches: Seq<RenderedBranch>,
    rows: Seq<usize>,
    baseline: Option<Seq<usize>>,
    n: nat,
)
    requires
        n <= branches.len(),
    ensures
        widths_fault(branches, rows, baseline, n) is None <==> forall|i: int|
            0 <= i < n ==> (#[trigger] branches[i]).keys@.len() == rows[i] && (baseline is Some
                ==> baseline->0[i] == branches[i].keys@.len()),
    decreases n,
{
    if n > 0 {
        widths_fit_every_branch(branches, rows, baseline, (n - 1) as nat);
        assert(branches[n - 1].keys@.len() >= 0);
    }
}

} // verus!
