//! The PEM armor scanner: a line-oriented state machine that extracts the
//! first complete labeled base64 body from a byte buffer.
//!
//! `spec_scan` is the mathematical model: it walks the input line by line
//! (splitting on `\n` or `\r`, with a final unterminated fragment counting as
//! one more line), opens a section at a well-formed `BEGIN` line, accumulates
//! body lines, and closes at the expected end marker. Unrecognized labels are
//! skipped without error. `from_slice` computes exactly that model, with the
//! accumulated text handed to the outside base64 decoder.

use vstd::prelude::*;

use crate::Error;
use crate::PrivatePkcs1KeyDer;
use crate::PrivatePkcs8KeyDer;
use crate::PrivateSec1KeyDer;
use crate::codec::DerObject;
use crate::codec::clone_bytes;
use crate::codec::copy_range;
use crate::codec::parse_pkcs1;
use crate::codec::parse_pkcs8;
use crate::codec::parse_sec1;

verus! {

/// The kind of a recognized PEM section.
#[derive(Clone, Copy, Debug, PartialEq, Eq, Hash, Structural)]
pub enum SectionKind {
    PrivateKey,
    EcPrivateKey,
    RsaPrivateKey,
}

/// A loaded private key, tagged by the container format it arrived in.
#[derive(Debug)]
pub enum PrivateKeyDer {
    Pkcs8(PrivatePkcs8KeyDer),
    Sec1(PrivateSec1KeyDer),
    Pkcs1(PrivatePkcs1KeyDer),
}

/// The bytes of `-----BEGIN `.
pub open spec fn begin_prefix() -> Seq<u8> {
    seq![45u8, 45, 45, 45, 45, 66, 69, 71, 73, 78, 32]
}

/// The bytes of `-----END `.
pub open spec fn end_prefix() -> Seq<u8> {
    seq![45u8, 45, 45, 45, 45, 69, 78, 68, 32]
}

/// Five dashes.
pub open spec fn five_dashes() -> Seq<u8> {
    seq![45u8, 45, 45, 45, 45]
}

/// The bytes of `PRIVATE KEY`.
pub open spec fn label_pkcs8() -> Seq<u8> {
    seq![80u8, 82, 73, 86, 65, 84, 69, 32, 75, 69, 89]
}

/// The bytes of `EC PRIVATE KEY`.
pub open spec fn label_sec1() -> Seq<u8> {
    seq![69u8, 67, 32] + label_pkcs8()
}

/// The bytes of `RSA PRIVATE KEY`.
pub open spec fn label_pkcs1() -> Seq<u8> {
    seq![82u8, 83, 65, 32] + label_pkcs8()
}

/// The kind a section label maps to; labels are compared byte-exact.
pub open spec fn kind_of(label: Seq<u8>) -> Option<SectionKind> {
    if label == label_pkcs8() {
        Some(SectionKind::PrivateKey)
    } else if label == label_sec1() {
        Some(SectionKind::EcPrivateKey)
    } else if label == label_pkcs1() {
        Some(SectionKind::RsaPrivateKey)
    } else {
        None
    }
}

pub open spec fn starts_with(s: Seq<u8>, p: Seq<u8>) -> bool {
    p.len() <= s.len() && s.take(p.len() as int) == p
}

/// The scanner state: the open section's label and expected end marker, if
/// any, and the accumulated body text.
pub struct ScanState {
    pub section: Option<(Seq<u8>, Seq<u8>)>,
    pub acc: Seq<u8>,
}

pub open spec fn init_state() -> ScanState {
    ScanState { section: None, acc: Seq::empty() }
}

/// What a scan of a whole buffer produces.
pub enum ScanOutcome {
    NotFound,
    Found(SectionKind, Seq<u8>),
    IllegalStart(Seq<u8>),
    MissingEnd(Seq<u8>),
}

/// What one line does to the scanner.
pub enum StepResult {
    Next(ScanState),
    Stop(ScanOutcome),
}

/// The trailing-dash scan of a `BEGIN` line, walking backward from index `i`:
/// counts dashes, skips spaces and line breaks, stops at anything else.
/// Returns the count and the index of the leftmost counted dash.
pub open spec fn trailer_from(line: Seq<u8>, i: int, trailer: int, pos: int) -> (int, int)
    decreases i + 1,
{
    if i < 0 || i >= line.len() {
        (trailer, pos)
    } else {
        let b = line[i];
        if b == 45 {
            trailer_from(line, i - 1, trailer + 1, i)
        } else if b == 10 || b == 13 || b == 32 {
            trailer_from(line, i - 1, trailer, pos)
        } else {
            (trailer, pos)
        }
    }
}

pub open spec fn line_trailer(line: Seq<u8>) -> (int, int) {
    trailer_from(line, line.len() - 1, 0, line.len() as int)
}

/// One step of the scanner. A `BEGIN` line always opens a new section (and is
/// checked for its trailing dashes); while a section is open, a line carrying
/// its end marker as a prefix closes it — yielding the section if its label
/// is recognized, resetting the scanner if not — and any other line is
/// appended to the body.
pub open spec fn step_line(line: Seq<u8>, st: ScanState) -> StepResult {
    if starts_with(line, begin_prefix()) {
        let (trailer, pos) = line_trailer(line);
        if trailer != 5 {
            StepResult::Stop(ScanOutcome::IllegalStart(line))
        } else {
            let label = line.subrange(11, pos);
            StepResult::Next(
                ScanState {
                    section: Some((label, end_prefix() + label + five_dashes())),
                    acc: st.acc,
                },
            )
        }
    } else {
        match st.section {
            Some((label, endm)) => {
                if starts_with(line, endm) {
                    match kind_of(label) {
                        Some(kind) => StepResult::Stop(ScanOutcome::Found(kind, st.acc)),
                        None => StepResult::Next(init_state()),
                    }
                } else {
                    StepResult::Next(ScanState { section: Some((label, endm)), acc: st.acc + line })
                }
            },
            None => StepResult::Next(st),
        }
    }
}

pub open spec fn is_break(b: u8) -> bool {
    b == 10 || b == 13
}

/// The index of the first line terminator, if any.
pub open spec fn find_break(s: Seq<u8>) -> Option<int>
    decreases s.len(),
{
    if s.len() == 0 {
        None
    } else if is_break(s[0]) {
        Some(0)
    } else {
        match find_break(s.skip(1)) {
            None => None,
            Some(i) => Some(i + 1),
        }
    }
}

/// The scanner over a whole buffer.
pub open spec fn spec_scan(s: Seq<u8>, st: ScanState) -> ScanOutcome
    decreases s.len(),
{
    if s.len() == 0 {
        match st.section {
            Some((label, endm)) => ScanOutcome::MissingEnd(endm),
            None => ScanOutcome::NotFound,
        }
    } else {
        let (line, rest) = match find_break(s) {
            Some(i) => if 0 <= i < s.len() {
                (s.take(i), s.skip(i + 1))
            } else {
                (s, Seq::<u8>::empty())
            },
            None => (s, Seq::<u8>::empty()),
        };
        match step_line(line, st) {
            StepResult::Stop(o) => o,
            StepResult::Next(st2) => spec_scan(rest, st2),
        }
    }
}

/// What the outside base64 decoder returns on given text: the decoded bytes
/// where the text is valid standard padded base64, nothing otherwise.
pub uninterp spec fn b64_of(text: Seq<u8>) -> Option<Seq<u8>>;

/// Relies on `base64::Engine::decode` with the standard padded engine: the
/// result depends on the input bytes alone, and decoding fails exactly on
/// text that is not valid base64.
#[verifier::external_body]
fn base64_decode(text: &Vec<u8>) -> (r: Result<Vec<u8>, base64::DecodeError>)
    ensures
        (r matches Ok(v) ==> b64_of(text@) == Some(v@)),
        r is Err ==> b64_of(text@) is None,
{
    base64::Engine::decode(&base64::prelude::BASE64_STANDARD, text)
}

/// Byte-exact equality of two slices.
fn bytes_eq(a: &[u8], b: &[u8]) -> (r: bool)
    ensures
        r <==> a@ == b@,
{
    if a.len() != b.len() {
        proof {
            assert(a@ != b@);
        }
        return false;
    }
    let mut i: usize = 0;
    while i < a.len()
        invariant
            i <= a@.len(),
            a@.len() == b@.len(),
            forall|j: int| 0 <= j < i ==> a@[j] == b@[j],
        decreases a@.len() - i,
    {
        if a[i] != b[i] {
            proof {
                assert(a@ != b@);
            }
            return false;
        }
        i = i + 1;
    }
    proof {
        assert(a@ =~= b@);
    }
    true
}

/// Whether `s` begins with `p`, byte for byte.
fn starts_with_bytes(s: &[u8], p: &[u8]) -> (r: bool)
    ensures
        r == starts_with(s@, p@),
{
    if p.len() > s.len() {
        return false;
    }
    let mut i: usize = 0;
    while i < p.len()
        invariant
            i <= p@.len() <= s@.len(),
            forall|j: int| 0 <= j < i ==> s@[j] == p@[j],
        decreases p@.len() - i,
    {
        if s[i] != p[i] {
            proof {
                assert(s@.take(p@.len() as int)[i as int] != p@[i as int]);
            }
            return false;
        }
        i = i + 1;
    }
    proof {
        assert(s@.take(p@.len() as int) =~= p@);
    }
    true
}

fn begin_prefix_vec() -> (r: Vec<u8>)
    ensures
        r@ == begin_prefix(),
{
    let mut v: Vec<u8> = Vec::new();
    v.push(45);
    v.push(45);
    v.push(45);
    v.push(45);
    v.push(45);
    v.push(66);
    v.push(69);
    v.push(71);
    v.push(73);
    v.push(78);
    v.push(32);
    proof {
        assert(v@ =~= begin_prefix());
    }
    v
}

fn end_prefix_vec() -> (r: Vec<u8>)
    ensures
        r@ == end_prefix(),
{
    let mut v: Vec<u8> = Vec::new();
    v.push(45);
    v.push(45);
    v.push(45);
    v.push(45);
    v.push(45);
    v.push(69);
    v.push(78);
    v.push(68);
    v.push(32);
    proof {
        assert(v@ =~= end_prefix());
    }
    v
}

fn five_dashes_vec() -> (r: Vec<u8>)
    ensures
        r@ == five_dashes(),
{
    let mut v: Vec<u8> = Vec::new();
    v.push(45);
    v.push(45);
    v.push(45);
    v.push(45);
    v.push(45);
    proof {
        assert(v@ =~= five_dashes());
    }
    v
}

fn label_pkcs8_vec() -> (r: Vec<u8>)
    ensures
        r@ == label_pkcs8(),
{
    let mut v: Vec<u8> = Vec::new();
    v.push(80);
    v.push(82);
    v.push(73);
    v.push(86);
    v.push(65);
    v.push(84);
    v.push(69);
    v.push(32);
    v.push(75);
    v.push(69);
    v.push(89);
    proof {
        assert(v@ =~= label_pkcs8());
    }
    v
}

fn label_sec1_vec() -> (r: Vec<u8>)
    ensures
        r@ == label_sec1(),
{
    let mut v: Vec<u8> = Vec::new();
    v.push(69);
    v.push(67);
    v.push(32);
    let mut tail = label_pkcs8_vec();
    v.append(&mut tail);
    proof {
        assert(v@ =~= label_sec1());
    }
    v
}

fn label_pkcs1_vec() -> (r: Vec<u8>)
    ensures
        r@ == label_pkcs1(),
{
    let mut v: Vec<u8> = Vec::new();
    v.push(82);
    v.push(83);
    v.push(65);
    v.push(32);
    let mut tail = label_pkcs8_vec();
    v.append(&mut tail);
    proof {
        assert(v@ =~= label_pkcs1());
    }
    v
}

impl SectionKind {
    /// Maps a section label to its kind; labels are compared byte-exact and
    /// case-sensitively.
    pub fn try_from(value: &[u8]) -> (r: Result<SectionKind, ()>)
        ensures
            (r matches Ok(k) ==> kind_of(value@) == Some(k)),
            r is Err ==> kind_of(value@) is None,
    {
        if bytes_eq(value, label_pkcs8_vec().as_slice()) {
            Ok(SectionKind::PrivateKey)
        } else if bytes_eq(value, label_sec1_vec().as_slice()) {
            Ok(SectionKind::EcPrivateKey)
        } else if bytes_eq(value, label_pkcs1_vec().as_slice()) {
            Ok(SectionKind::RsaPrivateKey)
        } else {
            Err(())
        }
    }
}

/// The trailing-dash scan, computed backward over the line.
fn line_trailer_exec(line: &[u8]) -> (r: (usize, usize))
    ensures
        line_trailer(line@) == (r.0 as int, r.1 as int),
        r.1 <= line@.len(),
{
    let mut trailer: usize = 0;
    let mut pos: usize = line.len();
    let mut i: usize = line.len();
    while i > 0
        invariant
            i <= line@.len(),
            pos <= line@.len(),
            trailer <= line@.len() - i,
            line_trailer(line@) == trailer_from(line@, i - 1, trailer as int, pos as int),
        decreases i,
    {
        let b = line[i - 1];
        if b == 45 {
            trailer = trailer + 1;
            pos = i - 1;
            i = i - 1;
        } else if b == 10 || b == 13 || b == 32 {
            i = i - 1;
        } else {
            return (trailer, pos);
        }
    }
    (trailer, pos)
}

/// On a line that opens a section with a well-formed trailer, the label
/// starts after the `BEGIN ` marker: the leftmost counted dash cannot lie
/// inside the marker, whose last letter stops the backward scan.
proof fn lemma_trailer_pos(line: Seq<u8>, i: int, t: int, p: int)
    requires
        starts_with(line, begin_prefix()),
        9 <= i < line.len(),
        11 <= p <= line.len(),
    ensures
        11 <= trailer_from(line, i, t, p).1 <= line.len(),
    decreases i,
{
    assert(line[9] == 78) by {
        assert(line.take(11)[9] == begin_prefix()[9]);
    }
    assert(line[10] == 32) by {
        assert(line.take(11)[10] == begin_prefix()[10]);
    }
    if i == 9 {
    } else if line[i] == 45 {
        lemma_trailer_pos(line, i - 1, t + 1, i);
    } else if line[i] == 10 || line[i] == 13 || line[i] == 32 {
        lemma_trailer_pos(line, i - 1, t, p);
    }
}

/// The label bounds of a well-formed `BEGIN` line.
proof fn lemma_begin_pos(line: Seq<u8>)
    requires
        starts_with(line, begin_prefix()),
    ensures
        11 <= line_trailer(line).1 <= line.len(),
{
    assert(line.len() >= 11);
    lemma_trailer_pos(line, line.len() - 1, 0, line.len() as int);
}

/// `find_break` returns exactly the first line terminator.
proof fn lemma_find_break_at(s: Seq<u8>, i: int)
    requires
        0 <= i < s.len(),
        is_break(s[i]),
        forall|j: int| 0 <= j < i ==> !is_break(#[trigger] s[j]),
    ensures
        find_break(s) == Some(i),
    decreases s.len(),
{
    if i > 0 {
        lemma_find_break_at(s.skip(1), i - 1);
    }
}

/// Without a terminator, `find_break` finds nothing.
proof fn lemma_find_break_none(s: Seq<u8>)
    requires
        forall|j: int| 0 <= j < s.len() ==> !is_break(#[trigger] s[j]),
    ensures
        find_break(s) is None,
    decreases s.len(),
{
    if s.len() > 0 {
        lemma_find_break_none(s.skip(1));
    }
}

/// The scanner state a pair of executable values stands for.
pub open spec fn st_of(section: Option<(Vec<u8>, Vec<u8>)>, bytes: Vec<u8>) -> ScanState {
    ScanState {
        section: match section {
            Some((l, e)) => Some((l@, e@)),
            None => None,
        },
        acc: bytes@,
    }
}

/// Scans a buffer for the first complete recognized section and decodes its
/// base64 body. Yields `None` where no section was found, and an error where
/// a section is malformed, unterminated, or carries an invalid body.
pub fn from_slice(input: &[u8]) -> (r: Result<Option<(SectionKind, Vec<u8>)>, Error>)
    ensures
        ({
            let outcome = spec_scan(input@, init_state());
            match outcome {
                ScanOutcome::NotFound => r matches Ok(o) && o is None,
                ScanOutcome::IllegalStart(l) => r matches Err(e) && (e matches
                    Error::IllegalSectionStart { line } && line@ == l),
                ScanOutcome::MissingEnd(m) => r matches Err(e) && (e matches
                    Error::MissingSectionEnd { end_marker } && end_marker@ == m),
                ScanOutcome::Found(kind, text) => match b64_of(text) {
                    Some(bs) => r matches Ok(o) && (o matches Some((k, v)) && k == kind && v@
                        == bs),
                    None => r matches Err(e) && e is Base64Decode,
                },
            }
        }),
{
    let beginp = begin_prefix_vec();
    let mut section: Option<(Vec<u8>, Vec<u8>)> = None;
    let mut bytes: Vec<u8> = Vec::new();
    let mut i: usize = 0;
    proof {
        assert(input@.skip(0) =~= input@);
        assert(st_of(section, bytes) == init_state());
    }
    while i < input.len()
        invariant
            i <= input@.len(),
            beginp@ == begin_prefix(),
            spec_scan(input@, init_state()) == spec_scan(
                input@.skip(i as int),
                st_of(section, bytes),
            ),
        decreases input@.len() - i,
    {
        let ghost s = input@.skip(i as int);
        let ghost st = st_of(section, bytes);
        // find the end of the current line
        let mut j: usize = i;
        while j < input.len() && input[j] != 10 && input[j] != 13
            invariant
                i <= j <= input@.len(),
                forall|t: int| i <= t < j ==> !is_break(#[trigger] input@[t]),
            decreases input@.len() - j,
        {
            j = j + 1;
        }
        let line = copy_range(input, i, j);
        let ghost next = if j < input@.len() {
            j + 1
        } else {
            j as int
        };
        proof {
            assert forall|t: int| 0 <= t < j - i implies !is_break(s[t]) by {
                assert(s[t] == input@[i + t]);
            }
            if j < input@.len() {
                assert(is_break(s[j - i]) && s[j - i] == input@[j as int]);
                lemma_find_break_at(s, j - i);
                assert(s.take(j - i) =~= input@.subrange(i as int, j as int));
                assert(s.skip(j - i + 1) =~= input@.skip(j + 1));
            } else {
                lemma_find_break_none(s);
                assert(s =~= input@.subrange(i as int, j as int));
                assert(input@.skip(next) =~= Seq::<u8>::empty());
            }
        }
        // process the line, mirroring step_line
        if starts_with_bytes(line.as_slice(), beginp.as_slice()) {
            let (trailer, pos) = line_trailer_exec(line.as_slice());
            if trailer != 5 {
                return Err(Error::IllegalSectionStart { line });
            }
            proof {
                lemma_begin_pos(line@);
            }
            let label = copy_range(line.as_slice(), 11, pos);
            let mut endm = end_prefix_vec();
            let mut lab2 = clone_bytes(&label);
            endm.append(&mut lab2);
            let mut d5 = five_dashes_vec();
            endm.append(&mut d5);
            proof {
                assert(endm@ =~= end_prefix() + label@ + five_dashes());
            }
            section = Some((label, endm));
        } else {
            let is_end = match &section {
                Some((_l, endm)) => starts_with_bytes(line.as_slice(), endm.as_slice()),
                None => false,
            };
            if is_end {
                let (label, _endm) = section.unwrap();
                match SectionKind::try_from(label.as_slice()) {
                    Ok(kind) => {
                        match base64_decode(&bytes) {
                            Ok(der) => {
                                return Ok(Some((kind, der)));
                            },
                            Err(e) => {
                                return Err(Error::Base64Decode(e));
                            },
                        }
                    },
                    Err(()) => {
                        section = None;
                        bytes = Vec::new();
                        proof {
                            assert(st_of(section, bytes) == init_state());
                        }
                    },
                }
            } else {
                if section.is_some() {
                    let mut lc = line;
                    bytes.append(&mut lc);
                }
            }
        }
        proof {
            assert(spec_scan(input@, init_state()) == spec_scan(
                input@.skip(next),
                st_of(section, bytes),
            ));
        }
        i = if j < input.len() {
            j + 1
        } else {
            j
        };
    }
    proof {
        assert(input@.skip(i as int) =~= Seq::<u8>::empty());
    }
    match section {
        Some((_label, endm)) => Err(Error::MissingSectionEnd { end_marker: endm }),
        None => Ok(None),
    }
}

impl PrivateKeyDer {
    /// Loads the first recognized private-key section of a PEM buffer and
    /// decodes its DER body as the container its label names.
    pub fn from_pem_slice(input: &[u8]) -> (r: Result<PrivateKeyDer, Error>)
        ensures
            ({
                let outcome = spec_scan(input@, init_state());
                match outcome {
                    ScanOutcome::NotFound => r matches Err(e) && e is NoItemsFound,
                    ScanOutcome::IllegalStart(l) => r matches Err(e) && (e matches
                        Error::IllegalSectionStart { line } && line@ == l),
                    ScanOutcome::MissingEnd(m) => r matches Err(e) && (e matches
                        Error::MissingSectionEnd { end_marker } && end_marker@ == m),
                    ScanOutcome::Found(kind, text) => match b64_of(text) {
                        None => r matches Err(e) && e is Base64Decode,
                        Some(bs) => match kind {
                            SectionKind::PrivateKey => match parse_pkcs8(bs) {
                                Some(v) => r matches Ok(k) && (k matches PrivateKeyDer::Pkcs8(p)
                                    && p@ == v),
                                None => r matches Err(e) && e is DerDecode,
                            },
                            SectionKind::EcPrivateKey => match parse_sec1(bs) {
                                Some(v) => r matches Ok(k) && (k matches PrivateKeyDer::Sec1(p)
                                    && p@ == v),
                                None => r matches Err(e) && e is DerDecode,
                            },
                            SectionKind::RsaPrivateKey => match parse_pkcs1(bs) {
                                Some(v) => r matches Ok(k) && (k matches PrivateKeyDer::Pkcs1(p)
                                    && p@ == v),
                                None => r matches Err(e) && e is DerDecode,
                            },
                        },
                    },
                }
            }),
    {
        match from_slice(input) {
            Err(e) => Err(e),
            Ok(None) => Err(Error::NoItemsFound),
            Ok(Some((kind, bytes))) => match kind {
                SectionKind::PrivateKey => match PrivatePkcs8KeyDer::from_der_slice(
                    bytes.as_slice(),
                ) {
                    Ok(v) => Ok(PrivateKeyDer::Pkcs8(v)),
                    Err(e) => Err(e),
                },
                SectionKind::EcPrivateKey => match PrivateSec1KeyDer::from_der_slice(
                    bytes.as_slice(),
                ) {
                    Ok(v) => Ok(PrivateKeyDer::Sec1(v)),
                    Err(e) => Err(e),
                },
                SectionKind::RsaPrivateKey => match PrivatePkcs1KeyDer::from_der_slice(
                    bytes.as_slice(),
                ) {
                    Ok(v) => Ok(PrivateKeyDer::Pkcs1(v)),
                    Err(e) => Err(e),
                },
            },
        }
    }
}

// ---------------------------------------------------------------------------
// Laws of the scanner.
// ---------------------------------------------------------------------------

/// No byte of `line` is a line terminator: `line` is one whole line.
pub open spec fn line_whole(line: Seq<u8>) -> bool {
    forall|j: int| 0 <= j < line.len() ==> !is_break(#[trigger] line[j])
}

/// Splitting off a terminated first line.
proof fn lemma_scan_first_line(line: Seq<u8>, rest: Seq<u8>, st: ScanState)
    requires
        line_whole(line),
    ensures
        spec_scan(line + seq![10u8] + rest, st) == (match step_line(line, st) {
            StepResult::Stop(o) => o,
            StepResult::Next(st2) => spec_scan(rest, st2),
        }),
{
    let s = line + seq![10u8] + rest;
    assert forall|j: int| 0 <= j < line.len() implies !is_break(s[j]) by {
        assert(s[j] == line[j]);
    }
    assert(s[line.len() as int] == 10);
    lemma_find_break_at(s, line.len() as int);
    assert(s.take(line.len() as int) =~= line);
    assert(s.skip(line.len() as int + 1) =~= rest);
}

/// Law: a `BEGIN` line that does not end in exactly five trailing dashes
/// stops the scan with `IllegalSectionStart` carrying that line, whatever
/// state the scanner is in and whatever follows.
pub proof fn lemma_illegal_section_start(line: Seq<u8>, rest: Seq<u8>, st: ScanState)
    requires
        line_whole(line),
        starts_with(line, begin_prefix()),
        line_trailer(line).0 != 5,
    ensures
        spec_scan(line + seq![10u8] + rest, st) == ScanOutcome::IllegalStart(line),
{
    lemma_scan_first_line(line, rest, st);
}

/// All lines of `s` leave an open section open: none is a `BEGIN` line and
/// none carries `endm` as a prefix.
pub open spec fn lines_inert(s: Seq<u8>, endm: Seq<u8>) -> bool
    decreases s.len(),
{
    if s.len() == 0 {
        true
    } else {
        let (line, rest) = match find_break(s) {
            Some(i) => if 0 <= i < s.len() {
                (s.take(i), s.skip(i + 1))
            } else {
                (s, Seq::<u8>::empty())
            },
            None => (s, Seq::<u8>::empty()),
        };
        &&& !starts_with(line, begin_prefix())
        &&& !starts_with(line, endm)
        &&& lines_inert(rest, endm)
    }
}

/// Law: while a section is open, input whose remaining lines never carry the
/// expected end marker ends in `MissingSectionEnd` with that marker.
pub proof fn lemma_missing_section_end(s: Seq<u8>, label: Seq<u8>, endm: Seq<u8>, acc: Seq<u8>)
    requires
        lines_inert(s, endm),
    ensures
        spec_scan(s, ScanState { section: Some((label, endm)), acc }) == ScanOutcome::MissingEnd(
            endm,
        ),
    decreases s.len(),
{
    if s.len() > 0 {
        let (line, rest) = match find_break(s) {
            Some(i) => if 0 <= i < s.len() {
                (s.take(i), s.skip(i + 1))
            } else {
                (s, Seq::<u8>::empty())
            },
            None => (s, Seq::<u8>::empty()),
        };
        lemma_missing_section_end(rest, label, endm, acc + line);
    }
}

/// Law: a line that closes a section whose label is not recognized resets the
/// scanner completely; the scan of what follows begins from a clean state, so
/// an unrecognized section is skipped without affecting the result.
pub proof fn lemma_unrecognized_close(line: Seq<u8>, rest: Seq<u8>, st: ScanState)
    requires
        line_whole(line),
        !starts_with(line, begin_prefix()),
        st.section matches Some((label, endm)) && starts_with(line, endm) && kind_of(label)
            is None,
    ensures
        spec_scan(line + seq![10u8] + rest, st) == spec_scan(rest, init_state()),
{
    lemma_scan_first_line(line, rest, st);
}

/// Law: a complete section with an unrecognized label — a well-formed
/// `BEGIN` line, one body line, and its end marker — is skipped entirely:
/// scanning the input is scanning whatever follows the section from a clean
/// state.
pub proof fn lemma_unrecognized_section_skipped(
    bline: Seq<u8>,
    label: Seq<u8>,
    body: Seq<u8>,
    eline: Seq<u8>,
    rest: Seq<u8>,
)
    requires
        line_whole(bline),
        line_whole(body),
        line_whole(eline),
        starts_with(bline, begin_prefix()),
        line_trailer(bline).0 == 5,
        label == bline.subrange(11, line_trailer(bline).1),
        kind_of(label) is None,
        !starts_with(body, begin_prefix()),
        !starts_with(body, end_prefix() + label + five_dashes()),
        !starts_with(eline, begin_prefix()),
        starts_with(eline, end_prefix() + label + five_dashes()),
    ensures
        spec_scan(
            bline + seq![10u8] + (body + seq![10u8] + (eline + seq![10u8] + rest)),
            init_state(),
        ) == spec_scan(rest, init_state()),
{
    let endm = end_prefix() + label + five_dashes();
    let tail1 = body + seq![10u8] + (eline + seq![10u8] + rest);
    let tail2 = eline + seq![10u8] + rest;
    lemma_scan_first_line(bline, tail1, init_state());
    let st1 = ScanState { section: Some((label, endm)), acc: Seq::empty() };
    assert(step_line(bline, init_state()) == StepResult::Next(st1));
    lemma_scan_first_line(body, tail2, st1);
    let st2 = ScanState { section: Some((label, endm)), acc: Seq::<u8>::empty() + body };
    assert(step_line(body, st1) == StepResult::Next(st2));
    lemma_scan_first_line(eline, rest, st2);
    assert(step_line(eline, st2) == StepResult::Next(init_state()));
}

/// Law: input holding only such an unrecognized section yields no items —
/// skipping a foreign section is not an error.
pub proof fn lemma_unrecognized_section_only(
    bline: Seq<u8>,
    label: Seq<u8>,
    body: Seq<u8>,
    eline: Seq<u8>,
)
    requires
        line_whole(bline),
        line_whole(body),
        line_whole(eline),
        starts_with(bline, begin_prefix()),
        line_trailer(bline).0 == 5,
        label == bline.subrange(11, line_trailer(bline).1),
        kind_of(label) is None,
        !starts_with(body, begin_prefix()),
        !starts_with(body, end_prefix() + label + five_dashes()),
        !starts_with(eline, begin_prefix()),
        starts_with(eline, end_prefix() + label + five_dashes()),
    ensures
        spec_scan(
            bline + seq![10u8] + (body + seq![10u8] + (eline + seq![10u8] + Seq::<u8>::empty())),
            init_state(),
        ) == ScanOutcome::NotFound,
{
    lemma_unrecognized_section_skipped(bline, label, body, eline, Seq::empty());
}

} // verus!
