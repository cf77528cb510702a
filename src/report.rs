//! Reconciling the outcomes of the tests run against both endpoints into a report.

use vstd::prelude::*;
use crate::json::{
    copy_string, differences, differences_view, filter_ref, filtered, verify_missing_or_mismatch,
    Difference, DifferenceValue, Json,
};

verus! {

/// The outcome of one test run against both endpoints.
#[derive(Debug, PartialEq)]
pub enum TestOutcome {
    /// Both answers are the same.
    Success,
    /// The answers differ: `rpc1` is the first endpoint's, `rpc2` the second's, and
    /// `args` the arguments of the call, if it had any.
    Diff { rpc1: Json, rpc2: Json, args: Option<String> },
    /// The first endpoint failed, with this message.
    Rpc1Err(String),
    /// The second endpoint failed, with this message.
    Rpc2Err(String),
}

#[derive(Debug, PartialEq)]
pub struct TestEntry {
    pub name: String,
    pub outcome: TestOutcome,
}

/// The outcomes of one group of tests (one block, one fixture), in the order they ran.
#[derive(Debug, PartialEq)]
pub struct ReportGroup {
    pub title: String,
    pub entries: Vec<TestEntry>,
}

/// Why a test failed.
#[derive(Debug, PartialEq)]
pub enum FailureDetail {
    /// The first endpoint's answer does not include the second's.
    Differences { args: Option<String>, differences: Vec<Difference> },
    Rpc1Err(String),
    Rpc2Err(String),
}

#[derive(Debug, PartialEq)]
pub struct Failure {
    pub name: String,
    pub detail: FailureDetail,
}

/// The failures of one group, in order; a group without any has passed.
#[derive(Debug, PartialEq)]
pub struct GroupReport {
    pub title: String,
    pub failures: Vec<Failure>,
}

/// The report of a whole run: every group, and whether all of them passed.
#[derive(Debug, PartialEq)]
pub struct Report {
    pub groups: Vec<GroupReport>,
    pub passed: bool,
}

pub enum FailureDetailValue {
    Differences { args: Option<Seq<char>>, differences: Seq<DifferenceValue> },
    Rpc1Err(Seq<char>),
    Rpc2Err(Seq<char>),
}

pub struct FailureValue {
    pub name: Seq<char>,
    pub detail: FailureDetailValue,
}

pub open spec fn opt_view(s: Option<String>) -> Option<Seq<char>> {
    match s {
        Some(t) => Some(t@),
        None => None,
    }
}

impl View for Failure {
    type V = FailureValue;

    open spec fn view(&self) -> FailureValue {
        FailureValue {
            name: self.name@,
            detail: match self.detail {
                FailureDetail::Differences { args, differences } => FailureDetailValue::Differences {
                    args: opt_view(args),
                    differences: differences_view(differences@),
                },
                FailureDetail::Rpc1Err(m) => FailureDetailValue::Rpc1Err(m@),
                FailureDetail::Rpc2Err(m) => FailureDetailValue::Rpc2Err(m@),
            },
        }
    }
}

pub open spec fn failures_view(fs: Seq<Failure>) -> Seq<FailureValue> {
    fs.map_values(|f: Failure| f@)
}

/// The failure that a test's outcome is, if any: an endpoint's error always; answers
/// that differ when, with the ignored fields removed from both, the first does not
/// include the second.
pub open spec fn failure_of(e: TestEntry) -> Option<FailureValue> {
    match e.outcome {
        TestOutcome::Success => None,
        TestOutcome::Diff { rpc1, rpc2, args } => {
            let d = differences(filtered(rpc1@), filtered(rpc2@), seq![]);
            if d.len() == 0 {
                None
            } else {
                Some(
                    FailureValue {
                        name: e.name@,
                        detail: FailureDetailValue::Differences { args: opt_view(args), differences: d },
                    },
                )
            }
        },
        TestOutcome::Rpc1Err(m) => Some(FailureValue { name: e.name@, detail: FailureDetailValue::Rpc1Err(m@) }),
        TestOutcome::Rpc2Err(m) => Some(FailureValue { name: e.name@, detail: FailureDetailValue::Rpc2Err(m@) }),
    }
}

/// The failures among `es`, in order.
pub open spec fn failures_of(es: Seq<TestEntry>) -> Seq<FailureValue>
    decreases es.len(),
{
    if es.len() == 0 {
        seq![]
    } else {
        let rest = failures_of(es.drop_last());
        match failure_of(es.last()) {
            Some(f) => rest.push(f),
            None => rest,
        }
    }
}

fn copy_opt_string(s: &Option<String>) -> (r: Option<String>)
    ensures
        opt_view(r) == opt_view(*s),
{
    match s {
        Some(t) => Some(copy_string(t)),
        None => None,
    }
}

fn entry_failure(e: &TestEntry) -> (r: Option<Failure>)
    ensures
        match failure_of(*e) {
            None => r is None,
            Some(f) => r matches Some(x) && x@ == f,
        },
{
    match &e.outcome {
        TestOutcome::Success => None,
        TestOutcome::Diff { rpc1, rpc2, args } => {
            let a = filter_ref(rpc1);
            let x = filter_ref(rpc2);
            match verify_missing_or_mismatch(a, x) {
                None => None,
                Some(d) => Some(
                    Failure {
                        name: copy_string(&e.name),
                        detail: FailureDetail::Differences { args: copy_opt_string(args), differences: d },
                    },
                ),
            }
        },
        TestOutcome::Rpc1Err(m) => Some(Failure { name: copy_string(&e.name), detail: FailureDetail::Rpc1Err(copy_string(m)) }),
        TestOutcome::Rpc2Err(m) => Some(Failure { name: copy_string(&e.name), detail: FailureDetail::Rpc2Err(copy_string(m)) }),
    }
}

/// Reconciles one group: every outcome is looked at, and the failures kept in order.
pub fn report_group(g: &ReportGroup) -> (r: GroupReport)
    ensures
        r.title@ == g.title@,
        failures_view(r.failures@) == failures_of(g.entries@),
{
    let mut failures: Vec<Failure> = Vec::new();
    let mut i: usize = 0;
    while i < g.entries.len()
        invariant
            i <= g.entries@.len(),
            failures_view(failures@) == failures_of(g.entries@.subrange(0, i as int)),
        decreases g.entries@.len() - i,
    {
        let ghost before = failures@;
        let f = entry_failure(&g.entries[i]);
        proof {
            let post = g.entries@.subrange(0, i + 1);
            assert(post.drop_last() =~= g.entries@.subrange(0, i as int));
            assert(post.last() == g.entries@[i as int]);
        }
        match f {
            Some(x) => {
                failures.push(x);
                proof {
                    assert(failures_view(failures@) =~= failures_view(before).push(x@));
                }
            },
            None => {},
        }
        i = i + 1;
    }
    assert(g.entries@.subrange(0, g.entries@.len() as int) =~= g.entries@);
    GroupReport { title: copy_string(&g.title), failures }
}

/// Reconciles a whole run. Every group and every outcome is looked at, so that the
/// report lists all failures; the run passed when no group has one.
pub fn report(results_by_block: Vec<ReportGroup>) -> (r: Report)
    ensures
        r.groups@.len() == results_by_block@.len(),
        forall|i: int|
            0 <= i < results_by_block@.len() ==> {
                &&& (#[trigger] r.groups@[i]).title@ == results_by_block@[i].title@
                &&& failures_view(r.groups@[i].failures@) == failures_of(results_by_block@[i].entries@)
            },
        r.passed == forall|i: int|
            0 <= i < results_by_block@.len() ==> (#[trigger] failures_of(results_by_block@[i].entries@)).len() == 0,
{
    let mut groups: Vec<GroupReport> = Vec::new();
    let mut passed = true;
    let mut i: usize = 0;
    while i < results_by_block.len()
        invariant
            i <= results_by_block@.len(),
            groups@.len() == i,
            forall|j: int|
                0 <= j < i ==> {
                    &&& (#[trigger] groups@[j]).title@ == results_by_block@[j].title@
                    &&& failures_view(groups@[j].failures@) == failures_of(results_by_block@[j].entries@)
                },
            passed == forall|j: int| 0 <= j < i ==> (#[trigger] failures_of(results_by_block@[j].entries@)).len() == 0,
        decreases results_by_block@.len() - i,
    {
        let g = report_group(&results_by_block[i]);
        proof {
            assert(failures_view(g.failures@).len() == g.failures@.len());
        }
        if g.failures.len() > 0 {
            passed = false;
        }
        groups.push(g);
        i = i + 1;
    }
    Report { groups, passed }
}

} // verus!
