//! Debian version strings: parsing `[epoch:]upstream[-revision]`, rendering
//! the canonical form back, and the total order used to compare versions.

use core::cmp::Ordering;
use vstd::prelude::*;

use crate::text::{
    all_digits, dec_rep, dec_val, digit_val, find_char, find_char_str, is_digit, is_digit_char,
    lemma_find_char, lemma_rfind_char, push_dec, rfind_char, rfind_char_str,
};

verus! {

use vstd::string::StrSliceExecFns;
use vstd::string::StringExecFns;

/// One alternating run of a version segment: a (possibly empty) run of
/// non-digit characters followed by a run of digits collapsed to an integer.
#[derive(Debug, Clone, Eq, PartialEq)]
pub struct VersionElement {
    pub alpha: String,
    pub numeric: u64,
}

/// The mathematical value of a `VersionElement`.
pub ghost struct ElemModel {
    pub alpha: Seq<char>,
    pub numeric: u64,
}

impl View for VersionElement {
    type V = ElemModel;

    open spec fn view(&self) -> ElemModel {
        ElemModel { alpha: self.alpha@, numeric: self.numeric }
    }
}

/// One version segment (upstream version or Debian revision): a sequence of
/// alternating runs.
#[derive(Debug, Clone, Eq, PartialEq)]
pub struct VersionPart {
    pub elements: Vec<VersionElement>,
}

impl View for VersionPart {
    type V = Seq<ElemModel>;

    open spec fn view(&self) -> Seq<ElemModel> {
        Seq::new(self.elements@.len(), |i: int| self.elements@[i]@)
    }
}

/// The mathematical value of a `Version`.
pub ghost struct VersionModel {
    pub epoch: u32,
    pub upstream: Seq<ElemModel>,
    pub revision: Seq<ElemModel>,
}

/// A Debian package version: epoch, upstream version and Debian revision.
#[derive(Debug, Clone, Eq, PartialEq)]
pub struct Version {
    pub epoch: u32,
    pub upstream_version: VersionPart,
    pub debian_revision: VersionPart,
}

impl View for Version {
    type V = VersionModel;

    open spec fn view(&self) -> VersionModel {
        VersionModel {
            epoch: self.epoch,
            upstream: self.upstream_version@,
            revision: self.debian_revision@,
        }
    }
}

/// A failure to parse a version string, with a position and a message.
#[derive(Debug)]
pub struct ParseError {
    pub pos: i32,
    pub msg: String,
}

/// The element a scan starts with: no characters seen yet.
pub open spec fn empty_elem() -> ElemModel {
    ElemModel { alpha: Seq::empty(), numeric: 0 }
}

/// One digit appended to a numeric run, wrapping around on 64-bit overflow.
pub open spec fn push_digit(n: u64, c: char) -> u64 {
    vstd::wrapping::u64_specs::wrapping_add(
        vstd::wrapping::u64_specs::wrapping_mul(n, 10),
        digit_val(c),
    )
}

/// The left-to-right scan of a version segment: characters are appended to
/// the current run of non-digits until a digit starts the numeric run; a
/// non-digit after digits closes the element and starts the next one.
pub open spec fn scan_rec(
    s: Seq<char>,
    in_num: bool,
    cur: ElemModel,
    acc: Seq<ElemModel>,
) -> Seq<ElemModel>
    decreases s.len(),
{
    if s.len() == 0 {
        acc.push(cur)
    } else {
        let c = s[0];
        let rest = s.drop_first();
        if is_digit(c) {
            scan_rec(rest, true, ElemModel { alpha: cur.alpha, numeric: push_digit(cur.numeric, c) }, acc)
        } else if !in_num {
            scan_rec(rest, false, ElemModel { alpha: cur.alpha.push(c), numeric: cur.numeric }, acc)
        } else {
            scan_rec(rest, false, ElemModel { alpha: seq![c], numeric: 0u64 }, acc.push(cur))
        }
    }
}

/// The elements of a version segment. An empty segment has no elements.
pub open spec fn spec_parse_part(s: Seq<char>) -> Seq<ElemModel> {
    if s.len() == 0 {
        Seq::empty()
    } else {
        scan_rec(s, false, empty_elem(), Seq::empty())
    }
}

/// The text of one element: its run of non-digits, then its number in
/// canonical decimal.
pub open spec fn render_elem(e: ElemModel) -> Seq<char> {
    e.alpha + dec_rep(e.numeric)
}

/// The text of a version segment: its elements, one after the other.
pub open spec fn render_part(p: Seq<ElemModel>) -> Seq<char>
    decreases p.len(),
{
    if p.len() == 0 {
        Seq::empty()
    } else {
        render_elem(p[0]) + render_part(p.drop_first())
    }
}

/// The canonical text of a version: the epoch and its colon only when the
/// epoch is non-zero, the dash and the revision only when the revision has
/// elements.
pub open spec fn render_version(v: VersionModel) -> Seq<char> {
    let base = if v.revision.len() == 0 {
        render_part(v.upstream)
    } else {
        render_part(v.upstream) + seq!['-'] + render_part(v.revision)
    };
    if v.epoch == 0 {
        base
    } else {
        dec_rep(v.epoch as u64) + seq![':'] + base
    }
}

/// A non-empty epoch segment of digits whose value fits in 32 bits.
pub open spec fn valid_epoch(s: Seq<char>) -> bool {
    s.len() > 0 && all_digits(s) && dec_val(s) <= u32::MAX
}

/// The upstream and revision segments around the last dash of `s`, scanned
/// from position `start` on, with the given epoch.
pub open spec fn split_upstream_revision(s: Seq<char>, start: int, epoch: u32) -> VersionModel {
    match rfind_char(s, '-') {
        Some(r) => VersionModel {
            epoch,
            upstream: spec_parse_part(s.subrange(start, r)),
            revision: spec_parse_part(s.subrange(r + 1, s.len() as int)),
        },
        None => VersionModel {
            epoch,
            upstream: spec_parse_part(s.subrange(start, s.len() as int)),
            revision: Seq::empty(),
        },
    }
}

/// What parsing a version string yields: `None` exactly when an epoch
/// segment is present and is not a number that fits in 32 bits. The first
/// colon separates the epoch; the last dash separates the revision.
pub open spec fn spec_parse_version(s: Seq<char>) -> Option<VersionModel> {
    match find_char(s, ':') {
        Some(l) => if valid_epoch(s.take(l)) {
            Some(split_upstream_revision(s, l + 1, dec_val(s.take(l)) as u32))
        } else {
            None
        },
        None => Some(split_upstream_revision(s, 0, 0)),
    }
}

/// Reads the digit prefix `s[..end]` as a 32-bit number.
fn parse_epoch_digits(s: &str, end: usize) -> (r: Option<u32>)
    requires
        end <= s@.len(),
    ensures
        r is Some <==> valid_epoch(s@.take(end as int)),
        r is Some ==> r->0 == dec_val(s@.take(end as int)),
{
    if end == 0 {
        return None;
    }
    let mut acc: u64 = 0;
    let mut i: usize = 0;
    proof {
        assert(s@.take(0int) =~= Seq::<char>::empty());
    }
    while i < end
        invariant
            0 <= i <= end <= s@.len(),
            forall|j: int| 0 <= j < i ==> is_digit(s@[j]),
            dec_val(s@.take(i as int)) <= u32::MAX ==> acc == dec_val(s@.take(i as int)),
            dec_val(s@.take(i as int)) > u32::MAX ==> acc == 0x1_0000_0000u64,
        decreases end - i,
    {
        let c = s.get_char(i);
        if !is_digit_char(c) {
            proof {
                assert(s@.take(end as int)[i as int] == s@[i as int]);
                assert(!all_digits(s@.take(end as int)));
            }
            return None;
        }
        proof {
            assert(s@.take(i + 1).drop_last() =~= s@.take(i as int));
            assert(s@.take(i + 1)[i as int] == s@[i as int]);
            assert(dec_val(s@.take(i + 1)) == dec_val(s@.take(i as int)) * 10 + digit_val(
                s@[i as int],
            ));
        }
        let d: u64 = (c as u64) - ('0' as u64);
        if acc <= (u32::MAX as u64) {
            acc = acc * 10 + d;
        }
        if acc > (u32::MAX as u64) {
            acc = 0x1_0000_0000u64;
        }
        i += 1;
    }
    proof {
        assert(forall|j: int|
            0 <= j < end ==> s@.take(end as int)[j] == s@[j]);
    }
    if acc > (u32::MAX as u64) {
        return None;
    }
    Some(acc as u32)
}

impl VersionElement {
    /// Appends this element's text to `out`.
    fn push_onto(&self, out: &mut String)
        ensures
            final(out)@ == old(out)@ + render_elem(self@),
    {
        out.append(self.alpha.as_str());
        push_dec(out, self.numeric);
        proof {
            assert(final(out)@ =~= old(out)@ + render_elem(self@));
        }
    }

    /// The text of this element.
    pub fn to_string(&self) -> (r: String)
        ensures
            r@ == render_elem(self@),
    {
        let mut out = String::new();
        self.push_onto(&mut out);
        proof {
            assert(out@ =~= render_elem(self@));
        }
        out
    }
}

/// Rendering a segment one element longer appends that element's text.
proof fn lemma_render_part_push(p: Seq<ElemModel>, e: ElemModel)
    ensures
        render_part(p.push(e)) == render_part(p) + render_elem(e),
    decreases p.len(),
{
    assert(render_part(Seq::<ElemModel>::empty()) == Seq::<char>::empty());
    if p.len() == 0 {
        assert(p.push(e)[0] == e);
        assert(p.push(e).drop_first() =~= Seq::<ElemModel>::empty());
        assert(render_part(p.push(e)) == render_elem(e) + render_part(
            Seq::<ElemModel>::empty(),
        ));
        assert(render_part(p.push(e)) =~= render_part(p) + render_elem(e));
    } else {
        lemma_render_part_push(p.drop_first(), e);
        assert(p.push(e)[0] == p[0]);
        assert(p.push(e).drop_first() =~= p.drop_first().push(e));
        assert(render_part(p.push(e)) == render_elem(p[0]) + (render_part(p.drop_first())
            + render_elem(e)));
        assert(render_part(p.push(e)) =~= render_part(p) + render_elem(e));
    }
}

impl VersionPart {
    /// How many alternating runs this segment has.
    pub fn count_elements(&self) -> (r: usize)
        ensures
            r == self@.len(),
    {
        self.elements.len()
    }

    /// Appends this segment's text to `out`.
    fn push_onto(&self, out: &mut String)
        ensures
            final(out)@ == old(out)@ + render_part(self@),
    {
        let n = self.elements.len();
        let mut i: usize = 0;
        proof {
            assert(self@.take(0int) =~= Seq::<ElemModel>::empty());
            assert(out@ =~= old(out)@ + render_part(self@.take(0int)));
        }
        while i < n
            invariant
                0 <= i <= n,
                n == self.elements@.len(),
                out@ == old(out)@ + render_part(self@.take(i as int)),
            decreases n - i,
        {
            proof {
                assert(self@.take(i + 1) =~= self@.take(i as int).push(self@[i as int]));
                lemma_render_part_push(self@.take(i as int), self@[i as int]);
            }
            self.elements[i].push_onto(out);
            proof {
                assert(out@ =~= old(out)@ + render_part(self@.take(i + 1)));
            }
            i += 1;
        }
        proof {
            assert(self@.take(n as int) =~= self@);
        }
    }

    /// The text of this segment.
    pub fn to_string(&self) -> (r: String)
        ensures
            r@ == render_part(self@),
    {
        let mut out = String::new();
        self.push_onto(&mut out);
        proof {
            assert(out@ =~= render_part(self@));
        }
        out
    }
}

impl Version {
    /// Scans one version segment into its alternating runs. Every input
    /// succeeds; digit runs longer than a `u64` wrap around.
    pub fn parse_part(s: &str) -> (r: Result<VersionPart, ParseError>)
        ensures
            r is Ok,
            r->Ok_0@ == spec_parse_part(s@),
    {
        let n = s.unicode_len();
        if n == 0 {
            let part = VersionPart { elements: Vec::new() };
            proof {
                assert(part@ =~= spec_parse_part(s@));
            }
            return Ok(part);
        }
        let mut elements: Vec<VersionElement> = Vec::new();
        let mut in_numeric_part = false;
        let mut cur_alpha = String::new();
        let mut cur_numeric: u64 = 0;
        let mut i: usize = 0;
        proof {
            assert(s@.skip(0int) =~= s@);
            assert(cur_alpha@ =~= Seq::<char>::empty());
            assert(Seq::new(elements@.len(), |k: int| elements@[k]@) =~= Seq::<
                ElemModel,
            >::empty());
        }
        while i < n
            invariant
                0 <= i <= n,
                n == s@.len(),
                scan_rec(
                    s@.skip(i as int),
                    in_numeric_part,
                    ElemModel { alpha: cur_alpha@, numeric: cur_numeric },
                    Seq::new(elements@.len(), |k: int| elements@[k]@),
                ) == scan_rec(s@, false, empty_elem(), Seq::empty()),
            decreases n - i,
        {
            let ghost pre_elems = Seq::new(elements@.len(), |k: int| elements@[k]@);
            proof {
                assert(s@.skip(i as int).len() > 0);
                assert(s@.skip(i as int)[0] == s@[i as int]);
                assert(s@.skip(i as int).drop_first() =~= s@.skip(i + 1));
            }
            let c = s.get_char(i);
            if is_digit_char(c) {
                in_numeric_part = true;
                cur_numeric = cur_numeric.wrapping_mul(10).wrapping_add((c as u64) - ('0' as u64));
            } else if !in_numeric_part {
                cur_alpha.push(c);
            } else {
                elements.push(VersionElement { alpha: cur_alpha, numeric: cur_numeric });
                in_numeric_part = false;
                cur_alpha = String::new();
                cur_alpha.push(c);
                cur_numeric = 0;
                proof {
                    assert(Seq::new(elements@.len(), |k: int| elements@[k]@) =~= pre_elems.push(
                        elements@[elements@.len() - 1]@,
                    ));
                    assert(cur_alpha@ =~= seq![s@[i as int]]);
                }
            }
            i += 1;
        }
        proof {
            assert(s@.skip(n as int) =~= Seq::<char>::empty());
        }
        elements.push(VersionElement { alpha: cur_alpha, numeric: cur_numeric });
        let part = VersionPart { elements };
        proof {
            assert(part@ =~= scan_rec(s@, false, empty_elem(), Seq::empty()));
        }
        Ok(part)
    }

    /// Parses a whole version string. The text before the first colon, if
    /// one is present, must be a number that fits the epoch; everything
    /// after the last dash, if one is present, is the revision.
    pub fn parse(s: &str) -> (r: Result<Version, ParseError>)
        ensures
            match spec_parse_version(s@) {
                Some(vm) => r is Ok && r->Ok_0@ == vm,
                None => r is Err && r->Err_0.pos == 0 && r->Err_0.msg@
                    == "Expected a numeric epoch."@,
            },
    {
        let n = s.unicode_len();
        let first_colon = find_char_str(s, ':');
        let last_dash = rfind_char_str(s, '-');
        proof {
            lemma_find_char(s@, ':');
            lemma_rfind_char(s@, '-');
        }
        let mut epoch: u32 = 0;
        let mut rest_start: usize = 0;
        match first_colon {
            Some(l) => {
                match parse_epoch_digits(s, l) {
                    Some(e) => {
                        epoch = e;
                        rest_start = l + 1;
                        proof {
                            lemma_find_char(s@, ':');
                        }
                    },
                    None => {
                        return Err(
                            ParseError {
                                pos: 0,
                                msg: String::from_str("Expected a numeric epoch."),
                            },
                        );
                    },
                }
            },
            None => {},
        }
        match last_dash {
            Some(r) => {
                proof {
                    lemma_find_char(s@, ':');
                    lemma_rfind_char(s@, '-');
                    if first_colon is Some {
                        let l = first_colon->0 as int;
                        if r < rest_start {
                            assert(is_digit(s@.take(l)[r as int]));
                        }
                    }
                }
                let upstream_version = match Version::parse_part(
                    s.substring_char(rest_start, r),
                ) {
                    Ok(p) => p,
                    Err(e) => {
                        return Err(e);
                    },
                };
                let debian_revision = match Version::parse_part(s.substring_char(r + 1, n)) {
                    Ok(p) => p,
                    Err(e) => {
                        return Err(e);
                    },
                };
                Ok(Version { epoch, upstream_version, debian_revision })
            },
            None => {
                let upstream_version = match Version::parse_part(s.substring_char(rest_start, n)) {
                    Ok(p) => p,
                    Err(e) => {
                        return Err(e);
                    },
                };
                let debian_revision = VersionPart { elements: Vec::new() };
                proof {
                    assert(debian_revision@ =~= Seq::<ElemModel>::empty());
                }
                Ok(Version { epoch, upstream_version, debian_revision })
            },
        }
    }

    /// The canonical text of this version: `epoch:upstream-revision`, with
    /// the epoch omitted when zero and the revision omitted when empty.
    pub fn to_string(&self) -> (r: String)
        ensures
            r@ == render_version(self@),
    {
        let mut out = String::new();
        if self.epoch != 0 {
            push_dec(&mut out, self.epoch as u64);
            out.push(':');
        }
        self.upstream_version.push_onto(&mut out);
        if self.debian_revision.count_elements() != 0 {
            out.push('-');
            self.debian_revision.push_onto(&mut out);
        }
        proof {
            assert(out@ =~= render_version(self@));
        }
        out
    }
}

impl core::str::FromStr for Version {
    type Err = ParseError;

    fn from_str(s: &str) -> Result<Self, Self::Err> {
        Version::parse(s)
    }
}

/// Lexicographic order on character sequences by code point, the order of
/// `str` comparison.
pub open spec fn chars_cmp(a: Seq<char>, b: Seq<char>) -> Ordering
    decreases a.len(),
{
    if a.len() == 0 && b.len() == 0 {
        Ordering::Equal
    } else if a.len() == 0 {
        Ordering::Less
    } else if b.len() == 0 {
        Ordering::Greater
    } else if a[0] != b[0] {
        if a[0] < b[0] {
            Ordering::Less
        } else {
            Ordering::Greater
        }
    } else {
        chars_cmp(a.drop_first(), b.drop_first())
    }
}

/// Order on elements: by the numeric run first, by the non-digit run only on
/// a tie.
pub open spec fn elem_cmp(a: ElemModel, b: ElemModel) -> Ordering {
    if a.numeric < b.numeric {
        Ordering::Less
    } else if a.numeric > b.numeric {
        Ordering::Greater
    } else {
        chars_cmp(a.alpha, b.alpha)
    }
}

/// Lexicographic order on version segments: the first differing element
/// decides; a segment precedes any proper extension of itself.
pub open spec fn part_cmp(a: Seq<ElemModel>, b: Seq<ElemModel>) -> Ordering
    decreases a.len(),
{
    if a.len() == 0 && b.len() == 0 {
        Ordering::Equal
    } else if a.len() == 0 {
        Ordering::Less
    } else if b.len() == 0 {
        Ordering::Greater
    } else {
        match elem_cmp(a[0], b[0]) {
            Ordering::Equal => part_cmp(a.drop_first(), b.drop_first()),
            o => o,
        }
    }
}

/// The total order on versions: epoch first, then the upstream segment, then
/// the revision segment.
pub open spec fn version_cmp(a: VersionModel, b: VersionModel) -> Ordering {
    if a.epoch < b.epoch {
        Ordering::Less
    } else if a.epoch > b.epoch {
        Ordering::Greater
    } else {
        match part_cmp(a.upstream, b.upstream) {
            Ordering::Equal => part_cmp(a.revision, b.revision),
            o => o,
        }
    }
}

/// Compares two strings by code point at run time.
fn str_cmp(a: &str, b: &str) -> (r: Ordering)
    ensures
        r == chars_cmp(a@, b@),
{
    let na = a.unicode_len();
    let nb = b.unicode_len();
    let mut i: usize = 0;
    proof {
        assert(a@.skip(0int) =~= a@);
        assert(b@.skip(0int) =~= b@);
    }
    while i < na && i < nb
        invariant
            0 <= i <= na,
            0 <= i <= nb,
            na == a@.len(),
            nb == b@.len(),
            chars_cmp(a@, b@) == chars_cmp(a@.skip(i as int), b@.skip(i as int)),
        decreases na - i,
    {
        let ca = a.get_char(i);
        let cb = b.get_char(i);
        proof {
            assert(a@.skip(i as int)[0] == a@[i as int]);
            assert(b@.skip(i as int)[0] == b@[i as int]);
            assert(a@.skip(i as int).drop_first() =~= a@.skip(i + 1));
            assert(b@.skip(i as int).drop_first() =~= b@.skip(i + 1));
        }
        if ca != cb {
            if ca < cb {
                return Ordering::Less;
            } else {
                return Ordering::Greater;
            }
        }
        i += 1;
    }
    proof {
        if i == na {
            assert(a@.skip(na as int) =~= Seq::<char>::empty());
        }
        if i == nb {
            assert(b@.skip(nb as int) =~= Seq::<char>::empty());
        }
    }
    if na < nb {
        Ordering::Less
    } else if na > nb {
        Ordering::Greater
    } else {
        Ordering::Equal
    }
}

/// Compares two elements at run time.
fn elem_cmp_exec(a: &VersionElement, b: &VersionElement) -> (r: Ordering)
    ensures
        r == elem_cmp(a@, b@),
{
    if a.numeric < b.numeric {
        Ordering::Less
    } else if a.numeric > b.numeric {
        Ordering::Greater
    } else {
        str_cmp(a.alpha.as_str(), b.alpha.as_str())
    }
}

/// Compares two version segments at run time.
fn part_cmp_exec(a: &VersionPart, b: &VersionPart) -> (r: Ordering)
    ensures
        r == part_cmp(a@, b@),
{
    let na = a.elements.len();
    let nb = b.elements.len();
    let mut i: usize = 0;
    proof {
        assert(a@.skip(0int) =~= a@);
        assert(b@.skip(0int) =~= b@);
    }
    while i < na && i < nb
        invariant
            0 <= i <= na,
            0 <= i <= nb,
            na == a@.len(),
            nb == b@.len(),
            part_cmp(a@, b@) == part_cmp(a@.skip(i as int), b@.skip(i as int)),
        decreases na - i,
    {
        proof {
            assert(a@.skip(i as int)[0] == a@[i as int]);
            assert(b@.skip(i as int)[0] == b@[i as int]);
            assert(a@.skip(i as int).drop_first() =~= a@.skip(i + 1));
            assert(b@.skip(i as int).drop_first() =~= b@.skip(i + 1));
        }
        let c = elem_cmp_exec(&a.elements[i], &b.elements[i]);
        match c {
            Ordering::Equal => {},
            _ => {
                return c;
            },
        }
        i += 1;
    }
    proof {
        if i == na {
            assert(a@.skip(na as int) =~= Seq::<ElemModel>::empty());
        }
        if i == nb {
            assert(b@.skip(nb as int) =~= Seq::<ElemModel>::empty());
        }
    }
    if na < nb {
        Ordering::Less
    } else if na > nb {
        Ordering::Greater
    } else {
        Ordering::Equal
    }
}

impl vstd::std_specs::cmp::PartialOrdSpecImpl for VersionElement {
    open spec fn obeys_partial_cmp_spec() -> bool {
        true
    }

    open spec fn partial_cmp_spec(&self, other: &Self) -> Option<Ordering> {
        Some(elem_cmp(self@, other@))
    }
}

impl PartialOrd for VersionElement {
    fn partial_cmp(&self, other: &Self) -> (r: Option<Ordering>) {
        Some(elem_cmp_exec(self, other))
    }
}

impl vstd::std_specs::cmp::PartialOrdSpecImpl for VersionPart {
    open spec fn obeys_partial_cmp_spec() -> bool {
        true
    }

    open spec fn partial_cmp_spec(&self, other: &Self) -> Option<Ordering> {
        Some(part_cmp(self@, other@))
    }
}

impl PartialOrd for VersionPart {
    fn partial_cmp(&self, other: &Self) -> (r: Option<Ordering>) {
        Some(part_cmp_exec(self, other))
    }
}

impl vstd::std_specs::cmp::PartialOrdSpecImpl for Version {
    open spec fn obeys_partial_cmp_spec() -> bool {
        true
    }

    open spec fn partial_cmp_spec(&self, other: &Self) -> Option<Ordering> {
        Some(version_cmp(self@, other@))
    }
}

impl PartialOrd for Version {
    fn partial_cmp(&self, other: &Self) -> (r: Option<Ordering>) {
        if self.epoch < other.epoch {
            return Some(Ordering::Less);
        }
        if self.epoch > other.epoch {
            return Some(Ordering::Greater);
        }
        let up = part_cmp_exec(&self.upstream_version, &other.upstream_version);
        match up {
            Ordering::Equal => Some(part_cmp_exec(&self.debian_revision, &other.debian_revision)),
            _ => Some(up),
        }
    }
}

/// The opposite of an ordering.
pub open spec fn ord_flip(o: Ordering) -> Ordering {
    match o {
        Ordering::Less => Ordering::Greater,
        Ordering::Equal => Ordering::Equal,
        Ordering::Greater => Ordering::Less,
    }
}

proof fn lemma_chars_cmp_eq(a: Seq<char>, b: Seq<char>)
    ensures
        chars_cmp(a, b) == Ordering::Equal <==> a == b,
    decreases a.len(),
{
    if a.len() > 0 && b.len() > 0 && a[0] == b[0] {
        lemma_chars_cmp_eq(a.drop_first(), b.drop_first());
        if chars_cmp(a, b) == Ordering::Equal {
            assert(forall|i: int| 1 <= i < a.len() ==> a[i] == a.drop_first()[i - 1]);
            assert(forall|i: int| 1 <= i < b.len() ==> b[i] == b.drop_first()[i - 1]);
            assert(a =~= b);
        }
        if a == b {
            assert(a.drop_first() =~= b.drop_first());
        }
    } else if a.len() > 0 && b.len() > 0 && a[0] != b[0] {
        assert(a != b);
    } else if a.len() != b.len() {
        assert(a != b);
    } else {
        assert(a =~= b);
    }
}

proof fn lemma_chars_cmp_flip(a: Seq<char>, b: Seq<char>)
    ensures
        chars_cmp(b, a) == ord_flip(chars_cmp(a, b)),
    decreases a.len(),
{
    if a.len() > 0 && b.len() > 0 && a[0] == b[0] {
        lemma_chars_cmp_flip(a.drop_first(), b.drop_first());
    }
}

proof fn lemma_chars_cmp_trans(a: Seq<char>, b: Seq<char>, c: Seq<char>)
    requires
        chars_cmp(a, b) == Ordering::Less,
        chars_cmp(b, c) == Ordering::Less,
    ensures
        chars_cmp(a, c) == Ordering::Less,
    decreases a.len() + b.len() + c.len(),
{
    if a.len() > 0 && b.len() > 0 && c.len() > 0 && a[0] == b[0] && b[0] == c[0] {
        lemma_chars_cmp_trans(a.drop_first(), b.drop_first(), c.drop_first());
    }
}

proof fn lemma_elem_cmp_eq(a: ElemModel, b: ElemModel)
    ensures
        elem_cmp(a, b) == Ordering::Equal <==> a == b,
{
    lemma_chars_cmp_eq(a.alpha, b.alpha);
}

proof fn lemma_elem_cmp_flip(a: ElemModel, b: ElemModel)
    ensures
        elem_cmp(b, a) == ord_flip(elem_cmp(a, b)),
{
    lemma_chars_cmp_flip(a.alpha, b.alpha);
}

proof fn lemma_elem_cmp_trans(a: ElemModel, b: ElemModel, c: ElemModel)
    requires
        elem_cmp(a, b) == Ordering::Less,
        elem_cmp(b, c) == Ordering::Less,
    ensures
        elem_cmp(a, c) == Ordering::Less,
{
    if a.numeric == b.numeric && b.numeric == c.numeric {
        lemma_chars_cmp_trans(a.alpha, b.alpha, c.alpha);
    }
}

proof fn lemma_part_cmp_eq(a: Seq<ElemModel>, b: Seq<ElemModel>)
    ensures
        part_cmp(a, b) == Ordering::Equal <==> a == b,
    decreases a.len(),
{
    if a.len() > 0 && b.len() > 0 {
        lemma_elem_cmp_eq(a[0], b[0]);
        if elem_cmp(a[0], b[0]) == Ordering::Equal {
            lemma_part_cmp_eq(a.drop_first(), b.drop_first());
            if part_cmp(a, b) == Ordering::Equal {
                assert(forall|i: int| 1 <= i < a.len() ==> a[i] == a.drop_first()[i - 1]);
                assert(forall|i: int| 1 <= i < b.len() ==> b[i] == b.drop_first()[i - 1]);
                assert(a =~= b);
            }
            if a == b {
                assert(a.drop_first() =~= b.drop_first());
            }
        } else {
            assert(a != b);
        }
    } else if a.len() != b.len() {
        assert(a != b);
    } else {
        assert(a =~= b);
    }
}

proof fn lemma_part_cmp_flip(a: Seq<ElemModel>, b: Seq<ElemModel>)
    ensures
        part_cmp(b, a) == ord_flip(part_cmp(a, b)),
    decreases a.len(),
{
    if a.len() > 0 && b.len() > 0 {
        lemma_elem_cmp_flip(a[0], b[0]);
        if elem_cmp(a[0], b[0]) == Ordering::Equal {
            lemma_part_cmp_flip(a.drop_first(), b.drop_first());
        }
    }
}

proof fn lemma_part_cmp_trans(a: Seq<ElemModel>, b: Seq<ElemModel>, c: Seq<ElemModel>)
    requires
        part_cmp(a, b) == Ordering::Less,
        part_cmp(b, c) == Ordering::Less,
    ensures
        part_cmp(a, c) == Ordering::Less,
    decreases a.len() + b.len() + c.len(),
{
    if a.len() > 0 && b.len() > 0 && c.len() > 0 {
        lemma_elem_cmp_eq(a[0], b[0]);
        lemma_elem_cmp_eq(b[0], c[0]);
        match (elem_cmp(a[0], b[0]), elem_cmp(b[0], c[0])) {
            (Ordering::Equal, Ordering::Equal) => {
                lemma_part_cmp_trans(a.drop_first(), b.drop_first(), c.drop_first());
            },
            (Ordering::Equal, Ordering::Less) => {},
            (Ordering::Less, Ordering::Equal) => {},
            (Ordering::Less, Ordering::Less) => {
                lemma_elem_cmp_trans(a[0], b[0], c[0]);
            },
            _ => {},
        }
    }
}

/// The order on versions is total: comparing `a` with `b` yields `Equal`
/// exactly when the two values are equal, and comparing in the opposite
/// direction yields the opposite outcome, so for any two versions exactly
/// one of `a < b`, `a == b`, `a > b` holds.
pub proof fn lemma_version_order_trichotomy(a: VersionModel, b: VersionModel)
    ensures
        version_cmp(a, b) == Ordering::Equal <==> a == b,
        version_cmp(b, a) == ord_flip(version_cmp(a, b)),
{
    lemma_part_cmp_eq(a.upstream, b.upstream);
    lemma_part_cmp_eq(a.revision, b.revision);
    lemma_part_cmp_flip(a.upstream, b.upstream);
    lemma_part_cmp_flip(a.revision, b.revision);
}

/// The order on versions is transitive: a version below a second one, which
/// is below a third, is below the third.
pub proof fn lemma_version_order_transitive(a: VersionModel, b: VersionModel, c: VersionModel)
    requires
        version_cmp(a, b) == Ordering::Less,
        version_cmp(b, c) == Ordering::Less,
    ensures
        version_cmp(a, c) == Ordering::Less,
{
    if a.epoch == b.epoch && b.epoch == c.epoch {
        lemma_part_cmp_eq(a.upstream, b.upstream);
        lemma_part_cmp_eq(b.upstream, c.upstream);
        match (part_cmp(a.upstream, b.upstream), part_cmp(b.upstream, c.upstream)) {
            (Ordering::Equal, Ordering::Equal) => {
                lemma_part_cmp_trans(a.revision, b.revision, c.revision);
            },
            (Ordering::Equal, Ordering::Less) => {},
            (Ordering::Less, Ordering::Equal) => {},
            (Ordering::Less, Ordering::Less) => {
                lemma_part_cmp_trans(a.upstream, b.upstream, c.upstream);
            },
            _ => {},
        }
    }
}

} // verus!
