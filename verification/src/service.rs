//! Service detection: matching answers against probe rules, choosing the
//! probe to send, filling in version templates, and the detection dialogue.
use vstd::prelude::*;
use vstd::utf8::{decode_utf8, valid_utf8};
use crate::pattern::{regex_search, search_pattern};
use crate::probe_file::{
    parse_probes, probes_of, probes_view, rules_sliceable, ProbeSpec, RuleSpec,
    ServiceProbe,
};
use crate::text::{
    chars_of, decimal, opt_chars, push_char, push_decimal, skip_spaces, starts_with, string_of,
    trailing_spaces_start, trim,
};

verus! {

// ---------------------------------------------------------------------------
// Version templates
// ---------------------------------------------------------------------------

/// `s` with every occurrence of the non-empty `pat` replaced by `rep`, scanning
/// left to right without overlaps, as `str::replace` does.
pub open spec fn replace_all(s: Seq<char>, pat: Seq<char>, rep: Seq<char>) -> Seq<char>
    decreases s.len(),
{
    if s.len() == 0 {
        seq![]
    } else if pat.len() > 0 && starts_with(s, pat) {
        rep + replace_all(s.skip(pat.len() as int), pat, rep)
    } else {
        seq![s[0]] + replace_all(s.skip(1), pat, rep)
    }
}

/// The placeholder `$i`.
pub open spec fn placeholder(i: nat) -> Seq<char> {
    seq!['$'] + decimal(i)
}

/// Text of group `i`, empty when the group took no part in the match.
pub open spec fn group_text(groups: Seq<Option<Seq<char>>>, i: int) -> Seq<char> {
    match groups[i] {
        Some(t) => t,
        None => seq![],
    }
}

/// Replaces `$(n-1)`, then `$(n-2)`, ..., then `$1` by the groups' texts.
pub open spec fn substitute_groups(t: Seq<char>, groups: Seq<Option<Seq<char>>>, n: nat) -> Seq<
    char,
>
    decreases n,
{
    if n <= 1 {
        t
    } else {
        substitute_groups(
            replace_all(t, placeholder((n - 1) as nat), group_text(groups, n - 1)),
            groups,
            (n - 1) as nat,
        )
    }
}

/// The version string a template gives for a match with the given groups.
pub open spec fn expand_template(t: Seq<char>, groups: Seq<Option<Seq<char>>>) -> Seq<char> {
    trim(substitute_groups(t, groups, groups.len()))
}

fn replace_chars(s: &Vec<char>, pat: &Vec<char>, rep: &Vec<char>) -> (r: Vec<char>)
    requires
        pat@.len() > 0,
    ensures
        r@ == replace_all(s@, pat@, rep@),
{
    let mut out: Vec<char> = Vec::new();
    let n = s.len();
    let mut i: usize = 0;
    assert(s@.skip(0) =~= s@);
    while i < n
        invariant
            n == s@.len(),
            i <= n,
            pat@.len() > 0,
            out@ + replace_all(s@.skip(i as int), pat@, rep@) == replace_all(s@, pat@, rep@),
        decreases n - i,
    {
        let ghost rest = s@.skip(i as int);
        assert(rest =~= s@.subrange(i as int, n as int));
        if crate::text::has_prefix(s.as_slice(), i, n, pat.as_slice()) {
            let ghost before = out@;
            let mut j: usize = 0;
            while j < rep.len()
                invariant
                    j <= rep@.len(),
                    out@ == before + rep@.take(j as int),
                decreases rep@.len() - j,
            {
                out.push(rep[j]);
                assert(rep@.take(j + 1) =~= rep@.take(j as int).push(rep@[j as int]));
                j = j + 1;
            }
            assert(rep@.take(j as int) =~= rep@);
            assert(rest.skip(pat@.len() as int) =~= s@.skip(i + pat@.len()));
            assert(out@ + replace_all(s@.skip(i + pat@.len()), pat@, rep@) =~= before
                + replace_all(rest, pat@, rep@));
            i = i + pat.len();
        } else {
            let ghost before = out@;
            out.push(s[i]);
            assert(rest.skip(1) =~= s@.skip(i + 1));
            assert(out@ + replace_all(s@.skip(i + 1), pat@, rep@) =~= before + replace_all(
                rest,
                pat@,
                rep@,
            ));
            i = i + 1;
        }
    }
    assert(s@.skip(n as int) =~= Seq::<char>::empty());
    assert(out@ =~= out@ + Seq::<char>::empty());
    out
}

fn placeholder_chars(i: usize) -> (r: Vec<char>)
    ensures
        r@ == placeholder(i as nat),
{
    let mut s = String::new();
    push_char(&mut s, '$');
    push_decimal(&mut s, i);
    chars_of(s.as_str())
}

fn group_chars(groups: &Vec<Option<String>>, i: usize) -> (r: Vec<char>)
    requires
        i < groups@.len(),
    ensures
        r@ == group_text(crate::pattern::groups_view(*groups), i as int),
{
    match &groups[i] {
        Some(t) => chars_of(t.as_str()),
        None => Vec::new(),
    }
}

/// Fills `$1`, `$2`, ... in `template` with the texts of the match's groups
/// (the highest group first) and trims the result.
pub fn apply_version_template(template: &str, groups: &Vec<Option<String>>) -> (r: String)
    ensures
        r@ == expand_template(template@, crate::pattern::groups_view(*groups)),
{
    let ghost gv = crate::pattern::groups_view(*groups);
    let mut out = chars_of(template);
    let mut i = groups.len();
    while i > 1
        invariant
            i <= groups@.len(),
            gv == crate::pattern::groups_view(*groups),
            i <= 1 ==> substitute_groups(out@, gv, i as nat) == out@,
            substitute_groups(template@, gv, groups@.len() as nat) == substitute_groups(
                out@,
                gv,
                i as nat,
            ),
        decreases i,
    {
        let pat = placeholder_chars(i - 1);
        let rep = group_chars(groups, i - 1);
        out = replace_chars(&out, &pat, &rep);
        i = i - 1;
    }
    let a = skip_spaces(out.as_slice(), 0, out.len());
    let b = trailing_spaces_start(out.as_slice(), a, out.len());
    assert(out@.subrange(0, out@.len() as int) =~= out@);
    string_of(out.as_slice(), a, b)
}


// ---------------------------------------------------------------------------
// Matching answers
// ---------------------------------------------------------------------------

/// Service and version found in an answer.
pub type Detection = (Option<String>, Option<String>);

pub open spec fn detection_view(d: Detection) -> (Option<Seq<char>>, Option<Seq<char>>) {
    (opt_chars(d.0), opt_chars(d.1))
}

pub open spec fn opt_detection_view(o: Option<Detection>) -> Option<
    (Option<Seq<char>>, Option<Seq<char>>),
> {
    match o {
        Some(d) => Some(detection_view(d)),
        None => None,
    }
}

/// What one rule says of `data`: its service, and its version template filled
/// from the groups, when its pattern matches.
pub open spec fn rule_outcome(r: RuleSpec, data: Seq<char>) -> Option<
    (Option<Seq<char>>, Option<Seq<char>>),
> {
    match regex_search(r.pattern, data) {
        Some(Some(groups)) => Some(
            (
                Some(r.service),
                match r.version_template {
                    Some(t) => Some(expand_template(t, groups)),
                    None => None,
                },
            ),
        ),
        _ => None,
    }
}

/// The outcome of the first rule, in order, that matches `data`.
pub open spec fn first_rule_match(rules: Seq<RuleSpec>, data: Seq<char>) -> Option<
    (Option<Seq<char>>, Option<Seq<char>>),
>
    decreases rules.len(),
{
    if rules.len() == 0 {
        None
    } else {
        match rule_outcome(rules[0], data) {
            Some(o) => Some(o),
            None => first_rule_match(rules.drop_first(), data),
        }
    }
}

/// Whether a probe's rules are tried: for a passive banner only the probe that
/// sends nothing; for an answer to a probe, that one and the probes meant for
/// the port.
pub open spec fn probe_applies(p: ProbeSpec, port: u16, null_only: bool) -> bool {
    if null_only {
        p.probe_bytes.len() == 0
    } else {
        p.probe_bytes.len() == 0 || p.ports.contains(port)
    }
}

/// The first match, probe by probe and rule by rule, of `data` on `port`.
pub open spec fn match_probes(probes: Seq<ProbeSpec>, data: Seq<char>, port: u16, null_only: bool) -> Option<
    (Option<Seq<char>>, Option<Seq<char>>),
>
    decreases probes.len(),
{
    if probes.len() == 0 {
        None
    } else if probe_applies(probes[0], port, null_only) {
        match first_rule_match(probes[0].rules, data) {
            Some(o) => Some(o),
            None => match_probes(probes.drop_first(), data, port, null_only),
        }
    } else {
        match_probes(probes.drop_first(), data, port, null_only)
    }
}

/// A probe that sends nothing listens on every port: when it comes first
/// and one of its rules recognises the text, that is the answer, for a
/// banner and for the answer to an active probe alike, whatever the port.
pub proof fn lemma_listening_probe_answers_everywhere(
    probes: Seq<ProbeSpec>,
    data: Seq<char>,
    port: u16,
    null_only: bool,
)
    requires
        probes.len() > 0,
        probes[0].probe_bytes.len() == 0,
        first_rule_match(probes[0].rules, data) is Some,
    ensures
        match_probes(probes, data, port, null_only) == first_rule_match(probes[0].rules, data),
{
}

/// A probe meant for the port is tried on the answer to an active probe:
/// when it comes first and one of its rules recognises the text, that is
/// the answer.
pub proof fn lemma_port_probe_answers_actively(probes: Seq<ProbeSpec>, data: Seq<char>, port: u16)
    requires
        probes.len() > 0,
        probes[0].ports.contains(port),
        first_rule_match(probes[0].rules, data) is Some,
    ensures
        match_probes(probes, data, port, false) == first_rule_match(probes[0].rules, data),
{
}

/// A probe that sends something is never tried on a banner, and one that
/// sends something but is not meant for the port is never tried at all.
pub proof fn lemma_other_probes_are_skipped(
    probes: Seq<ProbeSpec>,
    data: Seq<char>,
    port: u16,
    null_only: bool,
)
    requires
        probes.len() > 0,
        probes[0].probe_bytes.len() > 0,
        null_only || !probes[0].ports.contains(port),
    ensures
        match_probes(probes, data, port, null_only) == match_probes(
            probes.drop_first(),
            data,
            port,
            null_only,
        ),
{
}

fn contains_port(ports: &Vec<u16>, port: u16) -> (b: bool)
    ensures
        b == ports@.contains(port),
{
    let mut i: usize = 0;
    while i < ports.len()
        invariant
            i <= ports@.len(),
            forall|j: int| 0 <= j < i ==> ports@[j] != port,
        decreases ports@.len() - i,
    {
        if ports[i] == port {
            assert(ports@[i as int] == port);
            return true;
        }
        i = i + 1;
    }
    false
}

fn first_rule_match_in(probe: &ServiceProbe, data: &str) -> (r: Option<Detection>)
    ensures
        opt_detection_view(r) == first_rule_match(probe@.rules, data@),
{
    let rules = &probe.match_rules;
    let ghost rv = probe@.rules;
    let mut i: usize = 0;
    assert(rv.skip(0) =~= rv);
    while i < rules.len()
        invariant
            i <= rules@.len(),
            rv == rules@.map_values(|r: crate::probe_file::MatchRule| r@),
            rv == probe@.rules,
            first_rule_match(rv, data@) == first_rule_match(rv.skip(i as int), data@),
        decreases rules@.len() - i,
    {
        let rule = &rules[i];
        assert(rv.skip(i as int)[0] == rule@);
        assert(rv.skip(i as int).drop_first() =~= rv.skip(i + 1));
        match search_pattern(&rule.pattern, data) {
            Ok(Some(groups)) => {
                let version = match &rule.version_template {
                    Some(t) => Some(apply_version_template(t.as_str(), &groups)),
                    None => None,
                };
                let service = rule.service.clone();
                let found = (Some(service), version);
                assert(rule_outcome(rule@, data@) == Some(detection_view(found)));
                assert(rv.skip(i as int).len() > 0);
                return Some(found);
            },
            _ => {},
        }
        i = i + 1;
    }
    assert(rv.skip(i as int) =~= Seq::<RuleSpec>::empty());
    None
}

/// Tries the rules of the applicable probes against `data` (see `match_probes`).
pub fn try_match_probes(data: &str, port: u16, probes: &Vec<ServiceProbe>, null_only: bool) -> (r:
    Option<Detection>)
    ensures
        opt_detection_view(r) == match_probes(probes_view(probes@), data@, port, null_only),
{
    let ghost pv = probes_view(probes@);
    let mut i: usize = 0;
    assert(pv.skip(0) =~= pv);
    while i < probes.len()
        invariant
            i <= probes@.len(),
            pv == probes_view(probes@),
            match_probes(pv, data@, port, null_only) == match_probes(
                pv.skip(i as int),
                data@,
                port,
                null_only,
            ),
        decreases probes@.len() - i,
    {
        let probe = &probes[i];
        assert(pv.skip(i as int)[0] == probe@);
        assert(pv.skip(i as int).drop_first() =~= pv.skip(i + 1));
        let empty = probe.probe_bytes.len() == 0;
        let applies = if null_only {
            empty
        } else {
            empty || contains_port(&probe.ports, port)
        };
        if applies {
            let found = first_rule_match_in(probe, data);
            if found.is_some() {
                return found;
            }
        }
        i = i + 1;
    }
    assert(pv.skip(i as int) =~= Seq::<ProbeSpec>::empty());
    None
}

// ---------------------------------------------------------------------------
// Choosing the probe to send
// ---------------------------------------------------------------------------

pub open spec fn get_request_name() -> Seq<char> {
    seq!['G', 'e', 't', 'R', 'e', 'q', 'u', 'e', 's', 't']
}

/// Bytes of the first probe that sends something and is meant for `port`.
pub open spec fn port_probe(probes: Seq<ProbeSpec>, port: u16) -> Option<Seq<u8>>
    decreases probes.len(),
{
    if probes.len() == 0 {
        None
    } else if probes[0].probe_bytes.len() > 0 && probes[0].ports.contains(port) {
        Some(probes[0].probe_bytes)
    } else {
        port_probe(probes.drop_first(), port)
    }
}

/// Bytes of the first probe with the given name.
pub open spec fn named_probe(probes: Seq<ProbeSpec>, name: Seq<char>) -> Option<Seq<u8>>
    decreases probes.len(),
{
    if probes.len() == 0 {
        None
    } else if probes[0].name == name {
        Some(probes[0].probe_bytes)
    } else {
        named_probe(probes.drop_first(), name)
    }
}

/// What to send to `port`: its own probe, else the `GetRequest` probe, else
/// nothing.
pub open spec fn probe_bytes_for(probes: Seq<ProbeSpec>, port: u16) -> Seq<u8> {
    match port_probe(probes, port) {
        Some(b) => b,
        None => match named_probe(probes, get_request_name()) {
            Some(b) => b,
            None => seq![],
        },
    }
}

fn copy_bytes(b: &Vec<u8>) -> (r: Vec<u8>)
    ensures
        r@ == b@,
{
    let mut out: Vec<u8> = Vec::new();
    let mut i: usize = 0;
    while i < b.len()
        invariant
            i <= b@.len(),
            out@ == b@.take(i as int),
        decreases b@.len() - i,
    {
        out.push(b[i]);
        assert(b@.take(i + 1) =~= b@.take(i as int).push(b@[i as int]));
        i = i + 1;
    }
    assert(b@.take(i as int) =~= b@);
    out
}

fn is_get_request(name: &String) -> (b: bool)
    ensures
        b == (name@ == get_request_name()),
{
    let cs = chars_of(name.as_str());
    let want = vec!['G', 'e', 't', 'R', 'e', 'q', 'u', 'e', 's', 't'];
    assert(want@ =~= get_request_name());
    if cs.len() != want.len() {
        assert(cs@.len() != want@.len());
        return false;
    }
    let mut i: usize = 0;
    while i < cs.len()
        invariant
            cs@.len() == want@.len(),
            cs@ == name@,
            want@ == get_request_name(),
            i <= cs@.len(),
            forall|j: int| 0 <= j < i ==> cs@[j] == want@[j],
        decreases cs@.len() - i,
    {
        if cs[i] != want[i] {
            assert(cs@[i as int] != want@[i as int]);
            assert(cs@ != want@);
            return false;
        }
        i = i + 1;
    }
    assert(cs@ =~= want@);
    true
}

/// Probe bytes to send to `port` (see `probe_bytes_for`).
pub fn find_probe_bytes(port: u16, probes: &Vec<ServiceProbe>) -> (r: Vec<u8>)
    ensures
        r@ == probe_bytes_for(probes_view(probes@), port),
{
    let ghost pv = probes_view(probes@);
    let mut i: usize = 0;
    assert(pv.skip(0) =~= pv);
    while i < probes.len()
        invariant
            i <= probes@.len(),
            pv == probes_view(probes@),
            port_probe(pv, port) == port_probe(pv.skip(i as int), port),
        decreases probes@.len() - i,
    {
        let probe = &probes[i];
        assert(pv.skip(i as int)[0] == probe@);
        assert(pv.skip(i as int).drop_first() =~= pv.skip(i + 1));
        if probe.probe_bytes.len() != 0 && contains_port(&probe.ports, port) {
            return copy_bytes(&probe.probe_bytes);
        }
        i = i + 1;
    }
    assert(pv.skip(i as int) =~= Seq::<ProbeSpec>::empty());
    let mut i: usize = 0;
    while i < probes.len()
        invariant
            i <= probes@.len(),
            pv == probes_view(probes@),
            port_probe(pv, port) is None,
            named_probe(pv, get_request_name()) == named_probe(
                pv.skip(i as int),
                get_request_name(),
            ),
        decreases probes@.len() - i,
    {
        let probe = &probes[i];
        assert(pv.skip(i as int)[0] == probe@);
        assert(pv.skip(i as int).drop_first() =~= pv.skip(i + 1));
        if is_get_request(&probe.name) {
            return copy_bytes(&probe.probe_bytes);
        }
        i = i + 1;
    }
    assert(pv.skip(i as int) =~= Seq::<ProbeSpec>::empty());
    Vec::new()
}


// ---------------------------------------------------------------------------
// The detector and its dialogue with one open port
// ---------------------------------------------------------------------------

/// The probes of a probe file, ready to identify services.
pub struct ServiceDetector {
    probes: Vec<ServiceProbe>,
}

impl View for ServiceDetector {
    type V = Seq<ProbeSpec>;

    closed spec fn view(&self) -> Seq<ProbeSpec> {
        probes_view(self.probes@)
    }
}

impl ServiceDetector {
    /// A detector holding the probes that `raw` declares.
    pub fn new(raw: &str) -> (d: ServiceDetector)
        requires
            rules_sliceable(raw@),
        ensures
            d@ == probes_of(raw@),
    {
        ServiceDetector { probes: parse_probes(raw) }
    }

    /// The detector's probes, in file order.
    pub fn probes(&self) -> (r: &Vec<ServiceProbe>)
        ensures
            probes_view(r@) == self@,
    {
        &self.probes
    }
}

/// What `String::from_utf8_lossy` makes of `bytes`.
pub uninterp spec fn lossy_text(bytes: Seq<u8>) -> Seq<char>;

/// Calls `String::from_utf8_lossy`. The contract claims that the text depends
/// on the bytes alone and, as the documentation says, that valid UTF-8 is
/// decoded unchanged.
#[verifier::external_body]
fn utf8_lossy(bytes: &[u8]) -> (r: String)
    ensures
        r@ == lossy_text(bytes@),
        valid_utf8(bytes@) ==> r@ == decode_utf8(bytes@),
{
    String::from_utf8_lossy(bytes).into_owned()
}

/// The text of an answer: `None` when nothing was read, otherwise the bytes
/// read, decoded leniently.
pub open spec fn answer_text(read: Option<Seq<u8>>) -> Option<Seq<char>> {
    match read {
        Some(b) => if b.len() > 0 {
            Some(lossy_text(b))
        } else {
            None
        },
        None => None,
    }
}

/// Decodes what a read produced (see `answer_text`).
pub fn received_text(read: &Option<Vec<u8>>) -> (r: Option<String>)
    ensures
        opt_chars(r) == answer_text(match read {
            Some(b) => Some(b@),
            None => None,
        }),
{
    match read {
        Some(b) => if b.len() > 0 {
            Some(utf8_lossy(b.as_slice()))
        } else {
            None
        },
        None => None,
    }
}

/// Longest wait for a banner the service sends by itself, in nanoseconds.
pub open spec fn passive_wait(timeout_nanos: u128) -> u64 {
    if timeout_nanos < 1_500_000_000 {
        timeout_nanos as u64
    } else {
        1_500_000_000
    }
}

/// Longest wait for writing the probe and for its answer, in nanoseconds.
pub open spec fn active_wait(timeout_nanos: u128) -> u64 {
    if timeout_nanos < 2_000_000_000 {
        timeout_nanos as u64
    } else {
        2_000_000_000
    }
}

#[derive(PartialEq, Eq, Structural, Clone, Copy)]
pub enum DetectStage {
    /// Waiting for a banner.
    Passive,
    /// Sending the probe.
    Writing,
    /// Waiting for the answer to the probe.
    Active,
    Done,
}

/// What happened since the last action.
pub enum DetectEvent {
    /// A read finished: `None` on time-out or error, else the bytes read
    /// (empty at end of stream).
    Received(Option<Vec<u8>>),
    /// The probe was written, or the write timed out.
    Written { timed_out: bool },
}

/// What to do next.
pub enum DetectAction {
    /// Read once, waiting at most this long.
    Read { wait_nanos: u64 },
    /// Write these bytes, waiting at most this long.
    Write { bytes: Vec<u8>, wait_nanos: u64 },
    /// Stop: the service and version found, if any.
    Finish { service: Option<String>, version: Option<String> },
}

pub enum EventView {
    Received(Option<Seq<u8>>),
    Written(bool),
}

pub enum ActionView {
    Read(u64),
    Write(Seq<u8>, u64),
    Finish(Option<Seq<char>>, Option<Seq<char>>),
}

pub open spec fn event_view(e: DetectEvent) -> EventView {
    match e {
        DetectEvent::Received(Some(b)) => EventView::Received(Some(b@)),
        DetectEvent::Received(None) => EventView::Received(None),
        DetectEvent::Written { timed_out } => EventView::Written(timed_out),
    }
}

pub open spec fn action_view(a: DetectAction) -> ActionView {
    match a {
        DetectAction::Read { wait_nanos } => ActionView::Read(wait_nanos),
        DetectAction::Write { bytes, wait_nanos } => ActionView::Write(bytes@, wait_nanos),
        DetectAction::Finish { service, version } => ActionView::Finish(
            opt_chars(service),
            opt_chars(version),
        ),
    }
}

pub open spec fn finish_with(found: Option<(Option<Seq<char>>, Option<Seq<char>>)>) -> ActionView {
    match found {
        Some((s, v)) => ActionView::Finish(s, v),
        None => ActionView::Finish(None, None),
    }
}

/// One decision of the dialogue: a banner that a listening probe's rule
/// recognises ends it; otherwise the port's probe is sent (nothing to send
/// ends it unidentified); a write that timed out ends it; the answer to the
/// probe is matched against the port's probes and ends it.
pub open spec fn detect_step(
    stage: DetectStage,
    ev: EventView,
    probes: Seq<ProbeSpec>,
    port: u16,
    timeout_nanos: u128,
) -> (DetectStage, ActionView) {
    match (stage, ev) {
        (DetectStage::Passive, EventView::Received(read)) => {
            let found = match answer_text(read) {
                Some(t) => match_probes(probes, t, port, true),
                None => None,
            };
            if found is Some {
                (DetectStage::Done, finish_with(found))
            } else {
                let b = probe_bytes_for(probes, port);
                if b.len() == 0 {
                    (DetectStage::Done, ActionView::Finish(None, None))
                } else {
                    (DetectStage::Writing, ActionView::Write(b, active_wait(timeout_nanos)))
                }
            }
        },
        (DetectStage::Writing, EventView::Written(timed_out)) => if timed_out {
            (DetectStage::Done, ActionView::Finish(None, None))
        } else {
            (DetectStage::Active, ActionView::Read(active_wait(timeout_nanos)))
        },
        (DetectStage::Active, EventView::Received(read)) => (
            DetectStage::Done,
            finish_with(
                match answer_text(read) {
                    Some(t) => match_probes(probes, t, port, false),
                    None => None,
                },
            ),
        ),
        _ => (DetectStage::Done, ActionView::Finish(None, None)),
    }
}

/// The detection dialogue with one open port.
pub struct DetectSession {
    pub port: u16,
    pub timeout_nanos: u128,
    pub stage: DetectStage,
}

fn wait_nanos(timeout_nanos: u128, cap: u64) -> (r: u64)
    ensures
        r as int == if timeout_nanos < cap {
            timeout_nanos as int
        } else {
            cap as int
        },
{
    if timeout_nanos < cap as u128 {
        timeout_nanos as u64
    } else {
        cap
    }
}

fn finish(found: Option<Detection>) -> (a: DetectAction)
    ensures
        action_view(a) == finish_with(opt_detection_view(found)),
{
    match found {
        Some((service, version)) => DetectAction::Finish { service, version },
        None => DetectAction::Finish { service: None, version: None },
    }
}

impl DetectSession {
    /// Opens the dialogue: first wait for a banner.
    pub fn start(port: u16, timeout_nanos: u128) -> (r: (DetectSession, DetectAction))
        ensures
            r.0.port == port,
            r.0.timeout_nanos == timeout_nanos,
            r.0.stage == DetectStage::Passive,
            action_view(r.1) == ActionView::Read(passive_wait(timeout_nanos)),
    {
        let w = wait_nanos(timeout_nanos, 1_500_000_000);
        (DetectSession { port, timeout_nanos, stage: DetectStage::Passive }, DetectAction::Read {
            wait_nanos: w,
        })
    }

    /// Takes the outcome of the last action and decides the next one (see
    /// `detect_step`).
    pub fn step(&mut self, detector: &ServiceDetector, ev: DetectEvent) -> (a: DetectAction)
        ensures
            final(self).port == old(self).port,
            final(self).timeout_nanos == old(self).timeout_nanos,
            (final(self).stage, action_view(a)) == detect_step(
                old(self).stage,
                event_view(ev),
                detector@,
                old(self).port,
                old(self).timeout_nanos,
            ),
    {
        let probes = detector.probes();
        match (self.stage, ev) {
            (DetectStage::Passive, DetectEvent::Received(read)) => {
                let text = received_text(&read);
                let found = match &text {
                    Some(t) => try_match_probes(t.as_str(), self.port, probes, true),
                    None => None,
                };
                if found.is_some() {
                    self.stage = DetectStage::Done;
                    return finish(found);
                }
                let bytes = find_probe_bytes(self.port, probes);
                if bytes.len() == 0 {
                    self.stage = DetectStage::Done;
                    DetectAction::Finish { service: None, version: None }
                } else {
                    self.stage = DetectStage::Writing;
                    let w = wait_nanos(self.timeout_nanos, 2_000_000_000);
                    DetectAction::Write { bytes, wait_nanos: w }
                }
            },
            (DetectStage::Writing, DetectEvent::Written { timed_out }) => {
                if timed_out {
                    self.stage = DetectStage::Done;
                    DetectAction::Finish { service: None, version: None }
                } else {
                    self.stage = DetectStage::Active;
                    let w = wait_nanos(self.timeout_nanos, 2_000_000_000);
                    DetectAction::Read { wait_nanos: w }
                }
            },
            (DetectStage::Active, DetectEvent::Received(read)) => {
                let text = received_text(&read);
                let found = match &text {
                    Some(t) => try_match_probes(t.as_str(), self.port, probes, false),
                    None => None,
                };
                self.stage = DetectStage::Done;
                finish(found)
            },
            _ => {
                self.stage = DetectStage::Done;
                DetectAction::Finish { service: None, version: None }
            },
        }
    }
}

} // verus!
