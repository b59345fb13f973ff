//! A list of claims, and the verdict on them.
//!
//! Every claim is reported, and the verdict comes at the end: a failure does not stop the run,
//! because the whole report is more useful than the first line of it.

use crate::text;
use vstd::prelude::*;
use vstd::string::*;

verus! {

/// One named claim. `ok` is the claim being true.
pub struct Claim {
    pub what: String,
    pub ok: bool,
}

/// What a claim says.
#[verifier::ext_equal]
pub struct ClaimData {
    pub what: Seq<char>,
    pub ok: bool,
}

impl View for Claim {
    type V = ClaimData;

    open spec fn view(&self) -> ClaimData {
        ClaimData { what: self.what@, ok: self.ok }
    }
}

/// What some claims say.
pub open spec fn claims(cs: Seq<Claim>) -> Seq<ClaimData> {
    Seq::new(cs.len(), |i: int| cs[i]@)
}

/// How many claims held, and which did not.
pub struct Report {
    pub passed: usize,
    pub failed: Vec<String>,
}

/// What a report holds.
#[verifier::ext_equal]
pub struct ReportData {
    pub passed: nat,
    pub failed: Seq<Seq<char>>,
}

impl View for Report {
    type V = ReportData;

    open spec fn view(&self) -> ReportData {
        ReportData { passed: self.passed as nat, failed: text::texts(self.failed@) }
    }
}

impl ReportData {
    /// A report with one more claim.
    pub open spec fn with(self, c: ClaimData) -> ReportData {
        if c.ok {
            ReportData { passed: self.passed + 1, ..self }
        } else {
            ReportData { failed: self.failed.push(c.what), ..self }
        }
    }

    /// A report with more claims, in order.
    pub open spec fn with_all(self, cs: Seq<ClaimData>) -> ReportData
        decreases cs.len(),
    {
        if cs.len() == 0 {
            self
        } else {
            self.with_all(cs.drop_last()).with(cs.last())
        }
    }

    /// The last words: how many claims held, and every one that did not.
    pub open spec fn told(self) -> Seq<char> {
        if self.failed.len() == 0 {
            text::decimal(self.passed) + " checks passed"@
        } else {
            text::decimal(self.passed) + " passed, "@ + text::decimal(self.failed.len())
                + " FAILED:"@ + listed(self.failed)
        }
    }
}

/// A list, one item to a line.
pub open spec fn listed(items: Seq<Seq<char>>) -> Seq<char>
    decreases items.len(),
{
    if items.len() == 0 {
        Seq::empty()
    } else {
        listed(items.drop_last()) + "\n  - "@ + items.last()
    }
}

/// The line that reports a claim.
pub open spec fn line(c: ClaimData) -> Seq<char> {
    if c.ok {
        "  ok    "@ + c.what
    } else {
        "  FAIL  "@ + c.what
    }
}

impl Report {
    /// A report with nothing in it.
    pub fn new() -> (r: Report)
        ensures
            r@ == (ReportData { passed: 0, failed: Seq::empty() }),
    {
        let r = Report { passed: 0, failed: Vec::new() };
        assert(r@.failed =~= Seq::empty());
        r
    }

    /// One named claim, one line of output.
    pub fn check(&mut self, what: &str, ok: bool) -> (l: String)
        requires
            ok ==> old(self).passed < usize::MAX,
        ensures
            final(self)@ == old(self)@.with(ClaimData { what: what@, ok }),
            l@ == line(ClaimData { what: what@, ok }),
    {
        if ok {
            self.passed = self.passed + 1;
            "  ok    ".to_owned().concat(what)
        } else {
            let ghost before = self@.failed;
            self.failed.push(what.to_owned());
            assert(self@.failed =~= before.push(what@));
            "  FAIL  ".to_owned().concat(what)
        }
    }

    /// The verdict.
    pub fn clean(&self) -> (yes: bool)
        ensures
            yes == (self@.failed.len() == 0),
    {
        self.failed.len() == 0
    }

    /// The last words.
    pub fn summary(&self) -> (m: String)
        ensures
            m@ == self@.told(),
    {
        let mut m: String = String::new();
        text::put_decimal(&mut m, self.passed as u64);
        if self.clean() {
            m.append(" checks passed");
            assert(m@ =~= self@.told());
            return m;
        }
        m.append(" passed, ");
        text::put_decimal(&mut m, self.failed.len() as u64);
        m.append(" FAILED:");
        let ghost front = m@;
        let ghost items = self@.failed;
        let n: usize = self.failed.len();
        let mut i: usize = 0;
        proof {
            assert(items.take(0) =~= Seq::empty());
            assert(m@ =~= front + listed(items.take(0)));
        }
        while i < n
            invariant
                n == self.failed@.len(),
                items == self@.failed,
                i <= n,
                m@ == front + listed(items.take(i as int)),
            decreases n - i,
        {
            let ghost before = m@;
            m.append("\n  - ");
            m.append(self.failed[i].as_str());
            i = i + 1;
            proof {
                assert(items.take(i as int).drop_last() =~= items.take(i - 1));
                assert(m@ =~= front + listed(items.take(i as int)));
            }
        }
        proof {
            assert(items.take(n as int) =~= items);
            assert(m@ =~= self@.told());
        }
        m
    }
}

/// The claims that are false.
pub open spec fn false_ones(cs: Seq<ClaimData>) -> Seq<Seq<char>>
    decreases cs.len(),
{
    if cs.len() == 0 {
        Seq::empty()
    } else if cs.last().ok {
        false_ones(cs.drop_last())
    } else {
        false_ones(cs.drop_last()).push(cs.last().what)
    }
}

/// A report misses nothing: every claim is counted as passed or listed as failed, the failed
/// ones in the order in which they came up.
pub proof fn law_every_claim_counts(r: ReportData, cs: Seq<ClaimData>)
    ensures
        r.with_all(cs).passed + r.with_all(cs).failed.len() == r.passed + r.failed.len() + cs.len(),
        r.with_all(cs).failed == r.failed + false_ones(cs),
    decreases cs.len(),
{
    if cs.len() == 0 {
        assert(r.failed + false_ones(cs) =~= r.failed);
    } else {
        law_every_claim_counts(r, cs.drop_last());
        assert(r.with_all(cs).failed =~= r.failed + false_ones(cs));
    }
}

proof fn lemma_false_ones(cs: Seq<ClaimData>)
    ensures
        false_ones(cs).len() == 0 <==> forall|i: int| 0 <= i < cs.len() ==> (#[trigger] cs[i]).ok,
    decreases cs.len(),
{
    if cs.len() > 0 {
        let before = cs.drop_last();
        lemma_false_ones(before);
        assert(cs[cs.len() - 1] == cs.last());
        if false_ones(cs).len() == 0 {
            assert forall|i: int| 0 <= i < cs.len() implies (#[trigger] cs[i]).ok by {
                if i < before.len() {
                    assert(before[i] == cs[i]);
                }
            }
        }
        if forall|i: int| 0 <= i < cs.len() ==> (#[trigger] cs[i]).ok {
            assert forall|i: int| 0 <= i < before.len() implies (#[trigger] before[i]).ok by {
                assert(before[i] == cs[i]);
            }
        }
    }
}

/// The verdict on a run is good exactly where every claim is true.
pub proof fn law_verdict(cs: Seq<ClaimData>)
    ensures
        ({
            let r = ReportData { passed: 0, failed: Seq::empty() }.with_all(cs);
            r.failed.len() == 0 <==> forall|i: int| 0 <= i < cs.len() ==> (#[trigger] cs[i]).ok
        }),
{
    law_every_claim_counts(ReportData { passed: 0, failed: Seq::empty() }, cs);
    lemma_false_ones(cs);
}

/// The claim that the right library was linked. On a machine with another one installed, this
/// is what catches the other one winning.
pub fn version_claim(version: &str) -> (c: Claim)
    ensures
        c@ == (ClaimData {
            what: "libopus is the pinned 1.6 series"@,
            ok: "libopus 1.6"@.is_prefix_of(version@),
        }),
{
    Claim {
        what: "libopus is the pinned 1.6 series".to_owned(),
        ok: text::starts_with(version, "libopus 1.6"),
    }
}

/// What came of combining two packets into one.
pub enum Combined {
    /// The length of the combined packet, and how many frames it says it holds.
    Packet { len: usize, frames: Option<usize> },
    Failed(String),
}

/// The claims about combining two packets into one.
pub open spec fn combined_claims(c: Combined) -> Seq<ClaimData> {
    match c {
        Combined::Packet { len, frames } => seq![
            ClaimData { what: "two packets combine into one"@, ok: len > 0 },
            ClaimData {
                what: "the combined packet holds two frames"@,
                ok: frames == Some(2usize),
            },
        ],
        Combined::Failed(e) => seq![
            ClaimData { what: "repacketizer ("@ + e@ + ")"@, ok: false },
        ],
    }
}

/// The claims about combining two packets into one.
pub fn combining(c: &Combined) -> (cs: Vec<Claim>)
    ensures
        claims(cs@) == combined_claims(*c),
{
    let mut cs: Vec<Claim> = Vec::new();
    match c {
        Combined::Packet { len, frames } => {
            let two: bool = match frames {
                Some(n) => *n == 2,
                None => false,
            };
            cs.push(Claim { what: "two packets combine into one".to_owned(), ok: *len > 0 });
            cs.push(Claim { what: "the combined packet holds two frames".to_owned(), ok: two });
        },
        Combined::Failed(e) => {
            let mut what: String = "repacketizer (".to_owned();
            what.append(e.as_str());
            what.append(")");
            cs.push(Claim { what, ok: false });
        },
    }
    assert(claims(cs@) =~= combined_claims(*c));
    cs
}

/// Whether a text has another in it.
pub open spec fn says(s: Seq<char>, part: Seq<char>) -> bool {
    exists|at: int|
        0 <= at <= at + part.len() <= s.len() && #[trigger] s.subrange(at, at + part.len()) == part
}

proof fn lemma_says(front: Seq<char>, part: Seq<char>, back: Seq<char>)
    ensures
        says(front + part + back, part),
{
    let s = front + part + back;
    let at = front.len() as int;
    assert(s.subrange(at, at + part.len()) =~= part);
}

proof fn lemma_listed(items: Seq<Seq<char>>, i: int) -> (r: (Seq<char>, Seq<char>))
    requires
        0 <= i < items.len(),
    ensures
        listed(items) == r.0 + ("\n  - "@ + items[i]) + r.1,
    decreases items.len(),
{
    let before = items.drop_last();
    if i == items.len() - 1 {
        let r = (listed(before), Seq::<char>::empty());
        assert(listed(items) =~= r.0 + ("\n  - "@ + items[i]) + r.1);
        r
    } else {
        let (a, b) = lemma_listed(before, i);
        let r = (a, b + "\n  - "@ + items.last());
        assert(before[i] == items[i]);
        assert(listed(items) =~= r.0 + ("\n  - "@ + items[i]) + r.1);
        r
    }
}

/// The last words begin with the number of claims that held, and where some did not, name every
/// one of these on a line of its own.
pub proof fn law_summary_names_every_failure(r: ReportData, i: int)
    ensures
        r.told().take(text::decimal(r.passed).len() as int) == text::decimal(r.passed),
        text::decimal(r.passed).len() <= r.told().len(),
        0 <= i < r.failed.len() ==> says(r.told(), "\n  - "@ + r.failed[i]),
        0 < r.failed.len() ==> says(r.told(), text::decimal(r.failed.len()) + " FAILED:"@),
        r.failed.len() == 0 ==> r.told() == text::decimal(r.passed) + " checks passed"@,
{
    let d = text::decimal(r.passed);
    let t = r.told();
    assert(t.take(d.len() as int) =~= d);
    if r.failed.len() > 0 {
        let front = d + " passed, "@;
        let count = text::decimal(r.failed.len()) + " FAILED:"@;
        lemma_says(front, count, listed(r.failed));
        assert(t =~= front + count + listed(r.failed));
        if 0 <= i < r.failed.len() {
            let (a, b) = lemma_listed(r.failed, i);
            let part = "\n  - "@ + r.failed[i];
            lemma_says(front + count + a, part, b);
            assert(t =~= front + count + a + part + b);
        }
    }
}

/// One claim changes a report by one: a claim that holds is counted, one that does not is listed
/// last, and the line that reports it ends with its words.
pub proof fn law_one_claim(r: ReportData, c: ClaimData)
    ensures
        c.ok ==> r.with(c).passed == r.passed + 1 && r.with(c).failed == r.failed,
        !c.ok ==> r.with(c).passed == r.passed && r.with(c).failed == r.failed.push(c.what),
        line(c).len() == 8 + c.what.len(),
        line(c).skip(8) == c.what,
        c.ok ==> line(c).take(8) == "  ok    "@,
        !c.ok ==> line(c).take(8) == "  FAIL  "@,
{
    reveal_strlit("  ok    ");
    reveal_strlit("  FAIL  ");
    assert(line(c).skip(8) =~= c.what);
    if c.ok {
        assert(line(c).take(8) =~= "  ok    "@);
    } else {
        assert(line(c).take(8) =~= "  FAIL  "@);
    }
}

/// Combining is claimed twice where it works, true exactly for a packet that is not empty and
/// for one that holds two frames; where it fails there is one claim, which is false.
pub proof fn law_combining(len: usize, frames: Option<usize>, e: String)
    ensures
        ({
            let cs = combined_claims(Combined::Packet { len, frames });
            &&& cs.len() == 2
            &&& cs[0].ok <==> len != 0
            &&& cs[1].ok <==> frames == Some(2usize)
        }),
        combined_claims(Combined::Failed(e)).len() == 1,
        !combined_claims(Combined::Failed(e))[0].ok,
        says(combined_claims(Combined::Failed(e))[0].what, e@),
{
    lemma_says("repacketizer ("@, e@, ")"@);
}

/// Claims are taken as they are, one for one.
pub proof fn law_claims_are_taken_as_they_are(cs: Seq<Claim>, i: int)
    requires
        0 <= i < cs.len(),
    ensures
        claims(cs).len() == cs.len(),
        claims(cs)[i].what == cs[i].what@,
        claims(cs)[i].ok == cs[i].ok,
{
}

/// More claims are added one after the other.
pub proof fn law_claims_in_order(r: ReportData, cs: Seq<ClaimData>, c: ClaimData)
    ensures
        r.with_all(Seq::empty()) == r,
        r.with_all(cs.push(c)) == r.with_all(cs).with(c),
{
    assert(cs.push(c).drop_last() =~= cs);
}

} // verus!
