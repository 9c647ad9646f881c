use crate::encoding::BIT_START_INVALID;
use crate::encoding::DatabaseType;
use crate::encoding::Database;
use crate::encoding::Encoding;
use crate::encoding::LDFScheduleCommand;
use crate::encoding::LDFData;
use crate::encoding::LINResponderData;
use crate::encoding::MAX_SIGNAL_WIDTH;
use crate::encoding::Message;
use crate::encoding::Signal;
use crate::error::Error;
use crate::namemap::lemma_same_keys_contains;
use crate::namemap::NameMap;
use crate::numbers::int_token_val;
use crate::numbers::real_token_val;
use crate::numbers::parse_integer;
use crate::numbers::parse_real_or_integer;
use crate::numbers::Real;
use crate::text::contains_name;
use crate::text::str_eq;
use crate::text::str_starts_with;
use crate::text::string_eq_str;
use crate::text::vec_contains_name;
use crate::tokenizer::token_at;
use crate::tokenizer::tokens_match;
use crate::tokenizer::Tokenizer;
use vstd::prelude::*;

verus! {

/// Checks a declared signal width, given as the grammar's 16-bit reading of
/// the numeral: wider than [`MAX_SIGNAL_WIDTH`] is refused, 64 itself is
/// accepted.
pub fn signal_width_checked(w: u64) -> (r: Result<u16, Error>)
    ensures
        w > MAX_SIGNAL_WIDTH ==> r == Err::<u16, Error>(Error::SignalTooWide),
        w <= MAX_SIGNAL_WIDTH ==> r == Ok::<u16, Error>(w as u16),
{
    if w > (MAX_SIGNAL_WIDTH as u64) {
        Err(Error::SignalTooWide)
    } else {
        Ok(w as u16)
    }
}

/// Checks a frame-bit offset: it must lie below the unassigned sentinel,
/// else the numeral does not denote a bit position and is rejected.
pub fn signal_offset_checked(v: u64) -> (r: Result<u16, Error>)
    ensures
        v >= BIT_START_INVALID ==> r == Err::<u16, Error>(Error::NumberParse),
        v < BIT_START_INVALID ==> r == Ok::<u16, Error>(v as u16),
{
    if v >= (BIT_START_INVALID as u64) {
        Err(Error::NumberParse)
    } else {
        Ok(v as u16)
    }
}

/// Records the frame-bit offset of the signal named `name`.
///
/// A name that is not a declared signal is `UnknownSignal`; a signal whose
/// offset was already assigned is `DuplicateSignal`; otherwise exactly that
/// signal's `bit_start` is set and everything else is untouched.
pub fn assign_frame_offset(signals: &mut NameMap<Signal>, name: &str, offset: u16) -> (r: Result<
    (),
    Error,
>)
    ensures
        !old(signals).contains_key(name@) ==> r == Err::<(), Error>(Error::UnknownSignal)
            && *final(signals) == *old(signals),
        old(signals).contains_key(name@) && old(signals).spec_get(name@).bit_start
            != BIT_START_INVALID ==> r == Err::<(), Error>(Error::DuplicateSignal)
            && *final(signals) == *old(signals),
        old(signals).contains_key(name@) && old(signals).spec_get(name@).bit_start
            == BIT_START_INVALID ==> {
            &&& r is Ok
            &&& ({
                let i = old(signals).key_index(name@);
                let e0 = old(signals).entries@[i];
                final(signals).entries@ == old(signals).entries@.update(
                    i,
                    (e0.0, (Signal { bit_start: offset, ..e0.1 })),
                )
            })
        },
{
    match signals.index_of(name) {
        None => Err(Error::UnknownSignal),
        Some(i) => {
            if signals.entries[i].1.bit_start != BIT_START_INVALID {
                Err(Error::DuplicateSignal)
            } else {
                signals.entries[i].1.bit_start = offset;
                Ok(())
            }
        },
    }
}

/// Validates one constituent frame of a sporadic group against the frames
/// already taken into the group: it must exist, be sent by the commander,
/// and not repeat.
pub fn check_sporadic_constituent(
    messages: &NameMap<Message>,
    commander: &String,
    taken: &Vec<String>,
    f: &String,
) -> (r: Result<(), Error>)
    ensures
        !messages.contains_key(f@) ==> r == Err::<(), Error>(Error::UnknownFrame),
        messages.contains_key(f@) && messages.spec_get(f@).sender@ != commander@ ==> r == Err::<
            (),
            Error,
        >(Error::SporadicFrameHasResponder),
        messages.contains_key(f@) && messages.spec_get(f@).sender@ == commander@ && contains_name(
            taken@,
            f@,
        ) ==> r == Err::<(), Error>(Error::DuplicateFrame),
        messages.contains_key(f@) && messages.spec_get(f@).sender@ == commander@ && !contains_name(
            taken@,
            f@,
        ) ==> r is Ok,
{
    match messages.get(f.as_str()) {
        None => Err(Error::UnknownFrame),
        Some(msg) => {
            if !str_eq(msg.sender.as_str(), commander.as_str()) {
                Err(Error::SporadicFrameHasResponder)
            } else if vec_contains_name(taken, f.as_str()) {
                Err(Error::DuplicateFrame)
            } else {
                Ok(())
            }
        },
    }
}

/// Validates one constituent frame of an event-triggered group: it must not
/// repeat, and it must be a known unconditional frame.
pub fn check_event_constituent(messages: &NameMap<Message>, taken: &Vec<String>, f: &String) -> (r:
    Result<(), Error>)
    ensures
        contains_name(taken@, f@) ==> r == Err::<(), Error>(Error::DuplicateFrame),
        !contains_name(taken@, f@) && !messages.contains_key(f@) ==> r == Err::<(), Error>(
            Error::NotUnconditionalFrame,
        ),
        !contains_name(taken@, f@) && messages.contains_key(f@) ==> r is Ok,
{
    if vec_contains_name(taken, f.as_str()) {
        Err(Error::DuplicateFrame)
    } else if messages.contains(f.as_str()) {
        Ok(())
    } else {
        Err(Error::NotUnconditionalFrame)
    }
}

/// Whether all listed frames share the byte width of the first one; an empty
/// list holds vacuously.
pub fn frames_same_width(messages: &NameMap<Message>, frames: &Vec<String>) -> (r: bool)
    requires
        forall|k: int|
            0 <= k < frames@.len() ==> messages.contains_key((#[trigger] frames@[k])@),
    ensures
        r == (forall|k: int|
            0 <= k < frames@.len() ==> messages.spec_get((#[trigger] frames@[k])@).byte_width
                == messages.spec_get(frames@[0]@).byte_width),
{
    if frames.len() == 0 {
        return true;
    }
    let first = match messages.get(frames[0].as_str()) {
        Some(m) => m.byte_width,
        None => 0,
    };
    let n = frames.len();
    let mut k: usize = 0;
    while k < n
        invariant
            k <= n,
            n == frames@.len(),
            n > 0,
            forall|j: int|
                0 <= j < frames@.len() ==> messages.contains_key((#[trigger] frames@[j])@),
            first == messages.spec_get(frames@[0]@).byte_width,
            forall|j: int|
                0 <= j < k ==> messages.spec_get((#[trigger] frames@[j])@).byte_width == first,
        decreases n - k,
    {
        let w = match messages.get(frames[k].as_str()) {
            Some(m) => m.byte_width,
            None => 0,
        };
        if w != first {
            return false;
        }
        k = k + 1;
    }
    true
}

/// The token-level shape of a `keyword = token ;` line: the fixed keyword
/// and `=`, one value token of any text, and the closing `;`.
pub open spec fn assignment_line_shape(s: Seq<char>, i: int, kw: Seq<char>) -> Result<int, Error> {
    match tokens_match(s, i, seq![kw, "="@]) {
        Err(e) => Err(e),
        Ok(p) => match token_at(s, p) {
            Err(e) => Err(e),
            Ok(se) => tokens_match(s, se.1, seq![";"@]),
        },
    }
}

/// The value token of an assignment line — what the version and
/// channel-name lines read between `=` and `;`.
pub open spec fn assignment_line_value(s: Seq<char>, i: int, kw: Seq<char>) -> Seq<char>
    recommends
        assignment_line_shape(s, i, kw) is Ok,
{
    let se = token_at(s, tokens_match(s, i, seq![kw, "="@])->Ok_0)->Ok_0;
    s.subrange(se.0, se.1)
}

/// The version lines are advisory: whether one is accepted depends only on
/// the fixed literals around the version token and on a version token being
/// present — never on what the version token says.
pub proof fn lemma_version_line_advisory(s: Seq<char>, i: int, kw: Seq<char>)
    ensures
        assignment_line_shape(s, i, kw) is Ok <==> ({
            &&& tokens_match(s, i, seq![kw, "="@]) is Ok
            &&& token_at(s, tokens_match(s, i, seq![kw, "="@])->Ok_0) is Ok
            &&& tokens_match(
                s,
                token_at(s, tokens_match(s, i, seq![kw, "="@])->Ok_0)->Ok_0.1,
                seq![";"@],
            ) is Ok
        }),
{
}

/// Reads the fixed file header.
fn parse_header(t: &mut Tokenizer) -> (r: Result<(), Error>)
    requires
        old(t).wf(),
    ensures
        final(t).wf(),
        final(t).spec_text() == old(t).spec_text(),
        match tokens_match(
            old(t).spec_text(),
            old(t).spec_index(),
            seq!["LIN_description_file"@, ";"@],
        ) {
            Ok(ni) => r is Ok && final(t).spec_index() == ni,
            Err(e) => r == Err::<(), Error>(e),
        },
{
    let exp: &[&str] = &["LIN_description_file", ";"];
    proof {
        assert(exp@.map_values(|x: &str| x@) =~= seq!["LIN_description_file"@, ";"@]);
    }
    t.check_equal(exp)
}

/// Reads one version line.  The version text is advisory: any single token
/// is accepted there and never decides success, as
/// [`lemma_version_line_advisory`] records.
fn parse_version_line(t: &mut Tokenizer, kw: &str) -> (r: Result<(), Error>)
    requires
        old(t).wf(),
    ensures
        final(t).wf(),
        final(t).spec_text() == old(t).spec_text(),
        match assignment_line_shape(old(t).spec_text(), old(t).spec_index(), kw@) {
            Ok(ni) => r is Ok && final(t).spec_index() == ni,
            Err(e) => r == Err::<(), Error>(e),
        },
{
    let exp: &[&str] = &[kw, "="];
    proof {
        assert(exp@.map_values(|x: &str| x@) =~= seq![kw@, "="@]);
    }
    t.check_equal(exp)?;
    let _version = t.next()?;
    let exp2: &[&str] = &[";"];
    proof {
        assert(exp2@.map_values(|x: &str| x@) =~= seq![";"@]);
    }
    t.check_equal(exp2)?;
    Ok(())
}

/// The token-level shape of the speed line, and the bitrate it sets: the
/// literal is read in kilobits per second and scaled by a thousand.
pub open spec fn speed_line_shape(s: Seq<char>, i: int) -> Result<(int, Real), Error> {
    match tokens_match(s, i, seq!["LIN_speed"@, "="@]) {
        Err(e) => Err(e),
        Ok(p) => match token_at(s, p) {
            Err(e) => Err(e),
            Ok(se) => match real_token_val(s.subrange(se.0, se.1)) {
                None => Err(Error::NumberParse),
                Some(v) => match tokens_match(s, se.1, seq!["kbps"@, ";"@]) {
                    Err(e) => Err(e),
                    Ok(q) => if v.exp10 + 3 <= i32::MAX {
                        Ok((q, (Real { exp10: (v.exp10 + 3) as i32, ..v })))
                    } else {
                        Err(Error::NumberParse)
                    },
                },
            },
        },
    }
}

/// Reads the speed line and sets the bitrate, converting kbps to bps.
fn parse_speed(t: &mut Tokenizer, bitrate: &mut Real) -> (r: Result<(), Error>)
    requires
        old(t).wf(),
    ensures
        final(t).wf(),
        final(t).spec_text() == old(t).spec_text(),
        match speed_line_shape(old(t).spec_text(), old(t).spec_index()) {
            Ok(nb) => r is Ok && final(t).spec_index() == nb.0 && *final(bitrate) == nb.1,
            Err(e) => r == Err::<(), Error>(e) && *final(bitrate) == *old(bitrate),
        },
{
    let exp: &[&str] = &["LIN_speed", "="];
    proof {
        assert(exp@.map_values(|x: &str| x@) =~= seq!["LIN_speed"@, "="@]);
    }
    t.check_equal(exp)?;
    let tok = t.next()?;
    let v = parse_real_or_integer(tok.as_str())?;
    let exp2: &[&str] = &["kbps", ";"];
    proof {
        assert(exp2@.map_values(|x: &str| x@) =~= seq!["kbps"@, ";"@]);
    }
    t.check_equal(exp2)?;
    if v.exp10 > i32::MAX - 3 {
        return Err(Error::NumberParse);
    }
    *bitrate = Real { neg: v.neg, mantissa: v.mantissa, exp10: v.exp10 + 3 };
    Ok(())
}

/// Reads the optional channel-name line into the postfix.
fn parse_channel_name(t: &mut Tokenizer, postfix: &mut String) -> (r: Result<(), Error>)
    requires
        old(t).wf(),
    ensures
        final(t).wf(),
        final(t).spec_text() == old(t).spec_text(),
        match assignment_line_shape(old(t).spec_text(), old(t).spec_index(), "Channel_name"@) {
            Ok(ni) => r is Ok && final(t).spec_index() == ni && final(postfix)@
                == assignment_line_value(
                old(t).spec_text(),
                old(t).spec_index(),
                "Channel_name"@,
            ),
            Err(e) => r == Err::<(), Error>(e),
        },
{
    let exp: &[&str] = &["Channel_name", "="];
    proof {
        assert(exp@.map_values(|x: &str| x@) =~= seq!["Channel_name"@, "="@]);
    }
    t.check_equal(exp)?;
    let tok = t.next()?;
    *postfix = tok;
    let exp2: &[&str] = &[";"];
    proof {
        assert(exp2@.map_values(|x: &str| x@) =~= seq![";"@]);
    }
    t.check_equal(exp2)?;
    Ok(())
}

/// A responder as the node section seeds it: no subscriptions, no
/// response-error signal, no configurable frames yet.
pub open spec fn fresh_responder(r: LINResponderData) -> bool {
    &&& r.subscribed_signals@.len() == 0
    &&& r.response_error is None
    &&& r.configurable_frames@.len() == 0
}

/// Every signal the responder subscribes to is declared.
pub open spec fn subs_ok(r: LINResponderData, signals: NameMap<Signal>) -> bool {
    forall|k: int|
        0 <= k < r.subscribed_signals@.len() ==> signals.contains_key(
            (#[trigger] r.subscribed_signals@[k])@,
        )
}

/// The token-level shape of the node section's fixed head, up to the start
/// of the responder list: the commander's name, its time base and its
/// jitter, both in milliseconds.
pub open spec fn nodes_head_shape(s: Seq<char>, i: int) -> Result<
    (int, Seq<char>, Real, Real),
    Error,
> {
    match tokens_match(s, i, seq!["Nodes"@, "{"@, "Master"@, ":"@]) {
        Err(e) => Err(e),
        Ok(p) => match token_at(s, p) {
            Err(e) => Err(e),
            Ok(se_c) => match tokens_match(s, se_c.1, seq![","@]) {
                Err(e) => Err(e),
                Ok(p2) => match token_at(s, p2) {
                    Err(e) => Err(e),
                    Ok(se_tb) => match real_token_val(s.subrange(se_tb.0, se_tb.1)) {
                        None => Err(Error::NumberParse),
                        Some(tb) => match tokens_match(s, se_tb.1, seq!["ms"@, ","@]) {
                            Err(e) => Err(e),
                            Ok(p3) => match token_at(s, p3) {
                                Err(e) => Err(e),
                                Ok(se_j) => match real_token_val(s.subrange(se_j.0, se_j.1)) {
                                    None => Err(Error::NumberParse),
                                    Some(jit) => match tokens_match(
                                        s,
                                        se_j.1,
                                        seq!["ms"@, ";"@, "Slaves"@, ":"@],
                                    ) {
                                        Err(e) => Err(e),
                                        Ok(q) => Ok(
                                            (q, s.subrange(se_c.0, se_c.1), tb, jit),
                                        ),
                                    },
                                },
                            },
                        },
                    },
                },
            },
        },
    }
}

/// Whether a name already stands in the list.
pub open spec fn name_listed(ks: Seq<Seq<char>>, n: Seq<char>) -> bool {
    exists|q: int| 0 <= q < ks.len() && ks[q] == n
}

/// The names a responder table holds, in order.
pub open spec fn responder_keys(m: NameMap<LINResponderData>) -> Seq<Seq<char>> {
    m.entries@.map_values(|e: (String, LINResponderData)| e.0@)
}

/// The token-level shape of the responder list after `Slaves :`: names
/// separated by commas, closed by a semicolon; a repeated name is kept once.
/// The result is the final name list and the cursor after the semicolon.
/// (The guard on the recursion merely keeps it well-founded: a scanned token
/// always ends past where the scan began.)
pub open spec fn responder_list_shape(s: Seq<char>, i: int, ks: Seq<Seq<char>>) -> Result<
    (Seq<Seq<char>>, int),
    Error,
>
    decreases s.len() - i,
{
    match token_at(s, i) {
        Err(e) => Err(e),
        Ok(se_n) => {
            let nm = s.subrange(se_n.0, se_n.1);
            let ks2 = if name_listed(ks, nm) {
                ks
            } else {
                ks.push(nm)
            };
            match token_at(s, se_n.1) {
                Err(e) => Err(e),
                Ok(se_d) => {
                    let d = s.subrange(se_d.0, se_d.1);
                    if d == ";"@ {
                        Ok((ks2, se_d.1))
                    } else if d == ","@ {
                        if i < se_d.1 <= s.len() {
                            responder_list_shape(s, se_d.1, ks2)
                        } else {
                            Err(Error::IncorrectToken)
                        }
                    } else {
                        Err(Error::IncorrectToken)
                    }
                },
            }
        },
    }
}

/// The token-level shape of the whole node section: its fixed head, the
/// responder list, and the closing brace.  The result carries the commander,
/// the time base, the jitter, and the responder names in order.
pub open spec fn nodes_section_shape(s: Seq<char>, i: int) -> Result<
    ((Seq<char>, Real, Real, Seq<Seq<char>>), int),
    Error,
> {
    match nodes_head_shape(s, i) {
        Err(e) => Err(e),
        Ok(hd) => match responder_list_shape(s, hd.0, Seq::<Seq<char>>::empty()) {
            Err(e) => Err(e),
            Ok(ln) => match tokens_match(s, ln.1, seq!["}"@]) {
                Err(e) => Err(e),
                Ok(q) => Ok(((hd.1, hd.2, hd.3, ln.0), q)),
            },
        },
    }
}

/// Reads the mandatory node section: the commander with its scheduling
/// parameters, then the responder names, each seeded with default data,
/// exactly as [`nodes_section_shape`] lays the section out.
#[verifier::loop_isolation(false)]
fn parse_nodes(t: &mut Tokenizer, data: &mut LDFData) -> (r: Result<(), Error>)
    requires
        old(t).wf(),
    ensures
        final(t).wf(),
        final(t).spec_text() == old(t).spec_text(),
        match nodes_section_shape(old(t).spec_text(), old(t).spec_index()) {
            Err(e) => r == Err::<(), Error>(e),
            Ok(res) => r is Ok && final(t).spec_index() == res.1 && final(data).commander@
                == res.0.0 && final(data).time_base == res.0.1 && final(data).jitter == res.0.2
                && responder_keys(final(data).responders) == res.0.3,
        },
        r is Ok ==> {
            &&& final(data).responders.wf()
            &&& forall|i: int|
                0 <= i < final(data).responders.entries@.len() ==> fresh_responder(
                    (#[trigger] final(data).responders.entries@[i]).1,
                )
            &&& final(data).bitrate == old(data).bitrate
            &&& final(data).postfix == old(data).postfix
            &&& final(data).sporadic_frames == old(data).sporadic_frames
            &&& final(data).event_frames == old(data).event_frames
            &&& final(data).schedule_tables == old(data).schedule_tables
        },
        r is Err ==> *final(data) == *old(data),
{
    let ghost s = t.spec_text();
    let exp: &[&str] = &["Nodes", "{", "Master", ":"];
    proof {
        assert(exp@.map_values(|x: &str| x@) =~= seq!["Nodes"@, "{"@, "Master"@, ":"@]);
    }
    t.check_equal(exp)?;
    let commander = t.next()?;
    let exp_c: &[&str] = &[","];
    proof {
        assert(exp_c@.map_values(|x: &str| x@) =~= seq![","@]);
    }
    t.check_equal(exp_c)?;
    let tb_tok = t.next()?;
    let time_base = parse_real_or_integer(tb_tok.as_str())?;
    let exp_ms: &[&str] = &["ms", ","];
    proof {
        assert(exp_ms@.map_values(|x: &str| x@) =~= seq!["ms"@, ","@]);
    }
    t.check_equal(exp_ms)?;
    let j_tok = t.next()?;
    let jitter = parse_real_or_integer(j_tok.as_str())?;
    let exp_sl: &[&str] = &["ms", ";", "Slaves", ":"];
    proof {
        assert(exp_sl@.map_values(|x: &str| x@) =~= seq!["ms"@, ";"@, "Slaves"@, ":"@]);
    }
    t.check_equal(exp_sl)?;
    let mut responders: NameMap<LINResponderData> = NameMap::new();
    let ghost l0 = t.spec_index();
    proof {
        assert(responder_keys(responders) =~= Seq::<Seq<char>>::empty());
    }
    let mut done = false;
    while !done
        invariant
            t.wf(),
            t.spec_text() == s,
            0 <= l0 <= t.spec_index(),
            responders.wf(),
            forall|i: int|
                0 <= i < responders.entries@.len() ==> fresh_responder(
                    (#[trigger] responders.entries@[i]).1,
                ),
            if done {
                responder_list_shape(s, l0, Seq::<Seq<char>>::empty()) == Ok::<
                    (Seq<Seq<char>>, int),
                    Error,
                >((responder_keys(responders), t.spec_index()))
            } else {
                responder_list_shape(s, l0, Seq::<Seq<char>>::empty()) == responder_list_shape(
                    s,
                    t.spec_index(),
                    responder_keys(responders),
                )
            },
        decreases s.len() - t.spec_index(), (if done { 0int } else { 1int }),
    {
        let ghost i_it = t.spec_index();
        let ghost ks_it = responder_keys(responders);
        let name = t.next()?;
        let ghost prem = responders;
        let ghost nm = name@;
        let seed = LINResponderData::default();
        let ghost sd = seed;
        responders.insert(name, seed);
        proof {
            crate::namemap::lemma_first_key_index(prem.entries@, nm);
            assert forall|i: int|
                0 <= i < responders.entries@.len() implies fresh_responder(
                (#[trigger] responders.entries@[i]).1,
            ) by {
                assert(fresh_responder(sd));
                if prem.contains_key(nm) {
                    assert(responders.entries@ == prem.entries@.update(
                        prem.key_index(nm),
                        (responders.entries@[prem.key_index(nm)].0, sd),
                    ));
                }
            }
            // the table's keys follow the spec's once-only listing
            assert(prem.contains_key(nm) == name_listed(ks_it, nm)) by {
                if prem.contains_key(nm) {
                    let w = choose|w: int|
                        0 <= w < prem.entries@.len() && (#[trigger] prem.entries@[w]).0@ == nm;
                    assert(ks_it[w] == nm);
                }
                if name_listed(ks_it, nm) {
                    let w = choose|w: int| 0 <= w < ks_it.len() && ks_it[w] == nm;
                    assert(prem.entries@[w].0@ == nm);
                }
            }
            if prem.contains_key(nm) {
                assert(responder_keys(responders) =~= ks_it);
            } else {
                assert(responder_keys(responders) =~= ks_it.push(nm));
            }
        }
        let delim = t.next()?;
        proof {
            crate::tokenizer::lemma_token_bounds(s, i_it);
        }
        if string_eq_str(&delim, ";") {
            done = true;
        } else if !string_eq_str(&delim, ",") {
            return Err(Error::IncorrectToken);
        }
    }
    let exp_cl: &[&str] = &["}"];
    proof {
        assert(exp_cl@.map_values(|x: &str| x@) =~= seq!["}"@]);
    }
    t.check_equal(exp_cl)?;
    data.commander = commander;
    data.time_base = time_base;
    data.jitter = jitter;
    data.responders = responders;
    Ok(())
}

/// Where a depth-tracked brace skip ends: each token is consumed, `{` and
/// `}` move the depth, and the skip closes when it returns to zero.  (The
/// guard on the recursion merely keeps it well-founded.)
pub open spec fn brace_skip(s: Seq<char>, i: int, depth: nat) -> Result<int, Error>
    decreases s.len() - i,
{
    if depth == 0 {
        Ok(i)
    } else {
        match token_at(s, i) {
            Err(e) => Err(e),
            Ok(se) => {
                let d = s.subrange(se.0, se.1);
                let depth2 = if d == "{"@ {
                    depth + 1
                } else if d == "}"@ {
                    (depth - 1) as nat
                } else {
                    depth
                };
                if i < se.1 <= s.len() {
                    brace_skip(s, se.1, depth2)
                } else {
                    Err(Error::ExpectedToken)
                }
            },
        }
    }
}

/// The token-level shape of a skipped block: its introductory keyword, the
/// opening brace, and everything through the matching closing brace.
pub open spec fn skipped_block_shape(s: Seq<char>, i: int, intro: Seq<char>) -> Result<int, Error> {
    match tokens_match(s, i, seq![intro, "{"@]) {
        Err(e) => Err(e),
        Ok(p) => brace_skip(s, p, 1),
    }
}

/// Skips a brace-delimited block after its introductory keyword, tracking
/// nesting depth; the block's content is discarded.
#[verifier::loop_isolation(false)]
fn skip_brace_block(t: &mut Tokenizer, intro: &str) -> (r: Result<(), Error>)
    requires
        old(t).wf(),
    ensures
        final(t).wf(),
        final(t).spec_text() == old(t).spec_text(),
        match skipped_block_shape(old(t).spec_text(), old(t).spec_index(), intro@) {
            Ok(ni) => r is Ok && final(t).spec_index() == ni,
            Err(e) => r == Err::<(), Error>(e),
        },
{
    let ghost s = t.spec_text();
    let n = t.text_len();
    let exp: &[&str] = &[intro, "{"];
    proof {
        assert(exp@.map_values(|x: &str| x@) =~= seq![intro@, "{"@]);
    }
    t.check_equal(exp)?;
    let mut depth: u64 = 1;
    let ghost i0 = t.spec_index();
    while depth > 0
        invariant
            t.wf(),
            t.spec_text() == s,
            1 <= i0 <= t.spec_index() <= s.len(),
            depth <= 1 + t.spec_index() - i0,
            brace_skip(s, i0, 1) == brace_skip(s, t.spec_index(), depth as nat),
        decreases s.len() - t.spec_index(),
    {
        let ghost before = t.spec_index();
        let tok = t.next()?;
        proof {
            crate::tokenizer::lemma_token_bounds(s, before);
        }
        if string_eq_str(&tok, "{") {
            proof {
                assert(before <= n - 1);
            }
            depth = depth + 1;
        } else if string_eq_str(&tok, "}") {
            depth = depth - 1;
        }
    }
    Ok(())
}

/// The signal table as plain values: name to (bit width, init value).  The
/// signal section leaves every offset at the sentinel and no encodings.
pub open spec fn sig_model(m: NameMap<Signal>) -> Seq<(Seq<char>, (u16, u64))> {
    m.entries@.map_values(|e: (String, Signal)| (e.0@, (e.1.bit_width, e.1.init_value)))
}

/// The responder table as plain values: name to subscribed signal names.
pub open spec fn subs_model(m: NameMap<LINResponderData>) -> Seq<(Seq<char>, Seq<Seq<char>>)> {
    m.entries@.map_values(
        |e: (String, LINResponderData)|
            (e.0@, e.1.subscribed_signals@.map_values(|x: String| x@)),
    )
}

/// Appends `signame` to the subscriptions of the responder named `sub`; an
/// unknown subscriber changes nothing.
pub open spec fn add_subscription(
    rs: Seq<(Seq<char>, Seq<Seq<char>>)>,
    sub: Seq<char>,
    signame: Seq<char>,
) -> Seq<(Seq<char>, Seq<Seq<char>>)> {
    if crate::namemap::view_contains(rs, sub) {
        let i = crate::namemap::view_key_index(rs, sub);
        rs.update(i, (rs[i].0, rs[i].1.push(signame)))
    } else {
        rs
    }
}

/// Whether the token at `i` reads `w`.
pub open spec fn token_is(s: Seq<char>, i: int, w: Seq<char>) -> bool {
    token_at(s, i) matches Ok(se) && s.subrange(se.0, se.1) == w
}

/// Consumes tokens through the first `}`, with no depth tracking.  (The
/// guard on the recursion merely keeps it well-founded.)
pub open spec fn flat_skip(s: Seq<char>, i: int) -> Result<int, Error>
    decreases s.len() - i,
{
    match token_at(s, i) {
        Err(e) => Err(e),
        Ok(se) => if s.subrange(se.0, se.1) == "}"@ {
            Ok(se.1)
        } else if i < se.1 <= s.len() {
            flat_skip(s, se.1)
        } else {
            Err(Error::ExpectedToken)
        },
    }
}

/// One signal's subscriber list: `, name` pairs through the closing `;`,
/// each subscriber that names a known responder gaining the signal.
pub open spec fn subscriber_list_shape(
    s: Seq<char>,
    i: int,
    rs: Seq<(Seq<char>, Seq<Seq<char>>)>,
    signame: Seq<char>,
) -> Result<(Seq<(Seq<char>, Seq<Seq<char>>)>, int), Error>
    decreases s.len() - i,
{
    match token_at(s, i) {
        Err(e) => Err(e),
        Ok(se) => if s.subrange(se.0, se.1) == ";"@ {
            Ok((rs, se.1))
        } else {
            match tokens_match(s, i, seq![","@]) {
                Err(e) => Err(e),
                Ok(p) => match token_at(s, p) {
                    Err(e) => Err(e),
                    Ok(se2) => {
                        let rs2 = add_subscription(rs, s.subrange(se2.0, se2.1), signame);
                        if i < se2.1 <= s.len() {
                            subscriber_list_shape(s, se2.1, rs2, signame)
                        } else {
                            Err(Error::IncorrectToken)
                        }
                    },
                },
            }
        },
    }
}

/// One signal entry's tail after its init value: the comma, the publisher
/// (read and unused), the subscriber list, and the declaration taking
/// effect.
pub open spec fn signal_entry_tail(
    s: Seq<char>,
    i: int,
    sigs: Seq<(Seq<char>, (u16, u64))>,
    rs: Seq<(Seq<char>, Seq<Seq<char>>)>,
    nm: Seq<char>,
    width: u16,
    init: u64,
) -> Result<((Seq<(Seq<char>, (u16, u64))>, Seq<(Seq<char>, Seq<Seq<char>>)>), int), Error> {
    match tokens_match(s, i, seq![","@]) {
        Err(e) => Err(e),
        Ok(p) => match token_at(s, p) {
            Err(e) => Err(e),
            Ok(sep) => match subscriber_list_shape(s, sep.1, rs, nm) {
                Err(e) => Err(e),
                Ok(ln) => Ok(
                    ((crate::namemap::view_insert(sigs, nm, (width, init)), ln.0), ln.1),
                ),
            },
        },
    }
}

/// The signal entries through the section's closing brace: per signal its
/// name, its width (rejected beyond [`MAX_SIGNAL_WIDTH`]), its init value
/// (an array literal is skipped and reads zero), and its entry tail.
pub open spec fn signals_items_shape(
    s: Seq<char>,
    i: int,
    sigs: Seq<(Seq<char>, (u16, u64))>,
    rs: Seq<(Seq<char>, Seq<Seq<char>>)>,
) -> Result<((Seq<(Seq<char>, (u16, u64))>, Seq<(Seq<char>, Seq<Seq<char>>)>), int), Error>
    decreases s.len() - i,
{
    match token_at(s, i) {
        Err(e) => Err(e),
        Ok(se) => if s.subrange(se.0, se.1) == "}"@ {
            Ok(((sigs, rs), se.1))
        } else {
            let nm = s.subrange(se.0, se.1);
            match tokens_match(s, se.1, seq![":"@]) {
                Err(e) => Err(e),
                Ok(p1) => match token_at(s, p1) {
                    Err(e) => Err(e),
                    Ok(sew) => match int_token_val(s.subrange(sew.0, sew.1)) {
                        None => Err(Error::NumberParse),
                        Some(wv) => if wv > u64::MAX {
                            Err(Error::NumberParse)
                        } else if wv > MAX_SIGNAL_WIDTH {
                            Err(Error::SignalTooWide)
                        } else {
                            match tokens_match(s, sew.1, seq![","@]) {
                                Err(e) => Err(e),
                                Ok(p2) => match token_at(s, p2) {
                                    Err(e) => Err(e),
                                    Ok(sei) => {
                                        let after_init: Result<(int, u64), Error> = if s.subrange(
                                            sei.0,
                                            sei.1,
                                        ) == "{"@ {
                                            match flat_skip(s, p2) {
                                                Err(e) => Err(e),
                                                Ok(p3) => Ok((p3, 0u64)),
                                            }
                                        } else {
                                            match int_token_val(s.subrange(sei.0, sei.1)) {
                                                None => Err(Error::NumberParse),
                                                Some(iv) => if iv > u64::MAX {
                                                    Err(Error::NumberParse)
                                                } else {
                                                    Ok((sei.1, iv as u64))
                                                },
                                            }
                                        };
                                        match after_init {
                                            Err(e) => Err(e),
                                            Ok(ai) => match signal_entry_tail(
                                                s,
                                                ai.0,
                                                sigs,
                                                rs,
                                                nm,
                                                wv as u16,
                                                ai.1,
                                            ) {
                                                Err(e) => Err(e),
                                                Ok(res) => if i < res.1 <= s.len() {
                                                    signals_items_shape(s, res.1, res.0.0, res.0.1)
                                                } else {
                                                    Err(Error::IncorrectToken)
                                                },
                                            },
                                        }
                                    },
                                },
                            }
                        },
                    },
                },
            }
        },
    }
}

/// The token-level shape of the whole signal section.
pub open spec fn signals_section_shape(
    s: Seq<char>,
    i: int,
    rs0: Seq<(Seq<char>, Seq<Seq<char>>)>,
) -> Result<((Seq<(Seq<char>, (u16, u64))>, Seq<(Seq<char>, Seq<Seq<char>>)>), int), Error> {
    match tokens_match(s, i, seq!["Signals"@, "{"@]) {
        Err(e) => Err(e),
        Ok(p) => signals_items_shape(s, p, Seq::<(Seq<char>, (u16, u64))>::empty(), rs0),
    }
}

/// Reads the signal section exactly as [`signals_section_shape`] lays it
/// out: each signal's width (checked against [`MAX_SIGNAL_WIDTH`]), init
/// value, publisher, and subscribers; every subscriber that names a known
/// responder gets the signal appended to its subscription list.
#[verifier::rlimit(80)]
#[verifier::loop_isolation(false)]
fn parse_signals(
    t: &mut Tokenizer,
    signals: &mut NameMap<Signal>,
    responders: &mut NameMap<LINResponderData>,
) -> (r: Result<(), Error>)
    requires
        old(t).wf(),
        old(signals).entries@.len() == 0,
        old(responders).wf(),
        forall|i: int|
            0 <= i < old(responders).entries@.len() ==> fresh_responder(
                (#[trigger] old(responders).entries@[i]).1,
            ),
    ensures
        final(t).wf(),
        final(t).spec_text() == old(t).spec_text(),
        final(responders).wf(),
        final(responders).entries@.len() == old(responders).entries@.len(),
        forall|i: int|
            0 <= i < old(responders).entries@.len() ==> {
                &&& (#[trigger] final(responders).entries@[i]).0 == old(responders).entries@[i].0
                &&& final(responders).entries@[i].1.response_error == old(
                    responders,
                ).entries@[i].1.response_error
                &&& final(responders).entries@[i].1.configurable_frames == old(
                    responders,
                ).entries@[i].1.configurable_frames
            },
        match signals_section_shape(
            old(t).spec_text(),
            old(t).spec_index(),
            subs_model(*old(responders)),
        ) {
            Err(e) => r == Err::<(), Error>(e),
            Ok(res) => r is Ok && final(t).spec_index() == res.1 && sig_model(*final(signals))
                == res.0.0 && subs_model(*final(responders)) == res.0.1,
        },
        r is Ok ==> {
            &&& final(signals).wf()
            &&& forall|i: int|
                0 <= i < final(signals).entries@.len() ==> (
                #[trigger] final(signals).entries@[i]).1.wf()
                    && final(signals).entries@[i].1.bit_start == BIT_START_INVALID
            &&& forall|i: int|
                0 <= i < final(responders).entries@.len() ==> subs_ok(
                    (#[trigger] final(responders).entries@[i]).1,
                    *final(signals),
                )
        },
{
    let ghost s = t.spec_text();
    let ghost rs0 = subs_model(*old(responders));
    let exp_sec: &[&str] = &["Signals", "{"];
    proof {
        assert(exp_sec@.map_values(|x: &str| x@) =~= seq!["Signals"@, "{"@]);
    }
    t.check_equal(exp_sec)?;
    let ghost l0 = t.spec_index();
    proof {
        assert(sig_model(*signals) =~= Seq::<(Seq<char>, (u16, u64))>::empty());
        assert(subs_model(*responders) =~= rs0);
    }
    let mut done = false;
    while !done
        invariant
            t.wf(),
            t.spec_text() == s,
            0 <= l0 <= t.spec_index(),
            signals.wf(),
            forall|i: int|
                0 <= i < signals.entries@.len() ==> (#[trigger] signals.entries@[i]).1.wf()
                    && signals.entries@[i].1.bit_start == BIT_START_INVALID,
            responders.wf(),
            responders.entries@.len() == old(responders).entries@.len(),
            forall|i: int|
                0 <= i < old(responders).entries@.len() ==> {
                    &&& (#[trigger] responders.entries@[i]).0 == old(responders).entries@[i].0
                    &&& responders.entries@[i].1.response_error == old(
                        responders,
                    ).entries@[i].1.response_error
                    &&& responders.entries@[i].1.configurable_frames == old(
                        responders,
                    ).entries@[i].1.configurable_frames
                },
            forall|i: int|
                0 <= i < responders.entries@.len() ==> subs_ok(
                    (#[trigger] responders.entries@[i]).1,
                    *signals,
                ),
            if done {
                signals_items_shape(s, l0, Seq::<(Seq<char>, (u16, u64))>::empty(), rs0) == Ok::<
                    _,
                    Error,
                >(((sig_model(*signals), subs_model(*responders)), t.spec_index()))
            } else {
                signals_items_shape(s, l0, Seq::<(Seq<char>, (u16, u64))>::empty(), rs0)
                    == signals_items_shape(
                    s,
                    t.spec_index(),
                    sig_model(*signals),
                    subs_model(*responders),
                )
            },
        decreases s.len() - t.spec_index(), (if done { 0int } else { 1int }),
    {
        let ghost i_it = t.spec_index();
        let ghost sigs_it = sig_model(*signals);
        let ghost rs_it = subs_model(*responders);
        let nxt = t.peek()?;
        if string_eq_str(&nxt, "}") {
            let _ = t.next()?;
            done = true;
        } else {
            let name = t.next()?;
            let ghost nm = name@;
            let exp_co: &[&str] = &[":"];
            proof {
                assert(exp_co@.map_values(|x: &str| x@) =~= seq![":"@]);
            }
            t.check_equal(exp_co)?;
            let w_tok = t.next()?;
            let w = parse_integer(w_tok.as_str())?;
            let bit_width = signal_width_checked(w)?;
            let exp_c1: &[&str] = &[","];
            proof {
                assert(exp_c1@.map_values(|x: &str| x@) =~= seq![","@]);
            }
            t.check_equal(exp_c1)?;
            let init_value: u64;
            let nxt2 = t.peek()?;
            if string_eq_str(&nxt2, "{") {
                // an init-value array literal: its content is discarded and
                // the init value defaults to zero
                init_value = 0;
                let ghost fl0 = t.spec_index();
                let mut fdone = false;
                while !fdone
                    invariant
                        t.wf(),
                        t.spec_text() == s,
                        0 <= fl0 <= t.spec_index(),
                        if fdone {
                            flat_skip(s, fl0) == Ok::<int, Error>(t.spec_index())
                        } else {
                            flat_skip(s, fl0) == flat_skip(s, t.spec_index())
                        },
                    decreases s.len() - t.spec_index(), (if fdone { 0int } else { 1int }),
                {
                    let ghost fb = t.spec_index();
                    let tok = t.next()?;
                    proof {
                        crate::tokenizer::lemma_token_bounds(s, fb);
                    }
                    if string_eq_str(&tok, "}") {
                        fdone = true;
                    }
                }
            } else {
                let v_tok = t.next()?;
                init_value = parse_integer(v_tok.as_str())?;
            }
            let exp_c2: &[&str] = &[","];
            proof {
                assert(exp_c2@.map_values(|x: &str| x@) =~= seq![","@]);
            }
            t.check_equal(exp_c2)?;
            // the publisher is read but unused: senders are derived from
            // frame membership in the frame section
            let _publisher = t.next()?;
            let ghost sl0 = t.spec_index();
            let mut sdone = false;
            while !sdone
                invariant
                    t.wf(),
                    t.spec_text() == s,
                    0 <= sl0 <= t.spec_index(),
                    responders.wf(),
                    responders.entries@.len() == old(responders).entries@.len(),
                    forall|i: int|
                        0 <= i < old(responders).entries@.len() ==> {
                            &&& (#[trigger] responders.entries@[i]).0 == old(
                                responders,
                            ).entries@[i].0
                            &&& responders.entries@[i].1.response_error == old(
                                responders,
                            ).entries@[i].1.response_error
                            &&& responders.entries@[i].1.configurable_frames == old(
                                responders,
                            ).entries@[i].1.configurable_frames
                        },
                    forall|i: int, k: int|
                        0 <= i < responders.entries@.len() && 0 <= k < (
                        #[trigger] responders.entries@[i]).1.subscribed_signals@.len()
                            ==> signals.contains_key(
                            (#[trigger] responders.entries@[i].1.subscribed_signals@[k])@,
                        ) || responders.entries@[i].1.subscribed_signals@[k]@ == nm,
                    if sdone {
                        token_is(s, t.spec_index(), ";"@) && subscriber_list_shape(s, sl0, rs_it, nm)
                            == subscriber_list_shape(
                            s,
                            t.spec_index(),
                            subs_model(*responders),
                            nm,
                        )
                    } else {
                        subscriber_list_shape(s, sl0, rs_it, nm) == subscriber_list_shape(
                            s,
                            t.spec_index(),
                            subs_model(*responders),
                            nm,
                        )
                    },
                decreases s.len() - t.spec_index(), (if sdone { 0int } else { 1int }),
            {
                let ghost sb = t.spec_index();
                let ghost rsb = subs_model(*responders);
                let nxt3 = t.peek()?;
                if string_eq_str(&nxt3, ";") {
                    sdone = true;
                } else {
                    let exp_c3: &[&str] = &[","];
                    proof {
                        assert(exp_c3@.map_values(|x: &str| x@) =~= seq![","@]);
                    }
                    t.check_equal(exp_c3)?;
                    let subscriber = t.next()?;
                    proof {
                        crate::tokenizer::lemma_token_bounds(s, sb);
                        crate::namemap::lemma_view_key_index(rsb, subscriber@);
                        crate::namemap::lemma_view_key_index_matches(
                            responders.entries@,
                            rsb,
                            subscriber@,
                        );
                        crate::namemap::lemma_first_key_index(responders.entries@, subscriber@);
                    }
                    match responders.index_of(subscriber.as_str()) {
                        Some(i) => {
                            responders.entries[i].1.subscribed_signals.push(name.clone());
                            proof {
                                assert(subs_model(*responders) =~~= add_subscription(
                                    rsb,
                                    subscriber@,
                                    nm,
                                ));
                            }
                        },
                        None => {
                            proof {
                                assert(subs_model(*responders) =~= add_subscription(
                                    rsb,
                                    subscriber@,
                                    nm,
                                ));
                            }
                        },
                    }
                }
            }
            let _ = t.next()?;  // the ";"
            let ghost prem = *signals;
            let fresh_sig = Signal {
                signed: false,
                little_endian: true,
                bit_start: BIT_START_INVALID,
                bit_width,
                init_value,
                encodings: Vec::new(),
            };
            let ghost sg = fresh_sig;
            signals.insert(name, fresh_sig);
            proof {
                crate::namemap::lemma_first_key_index(prem.entries@, nm);
                crate::namemap::lemma_view_key_index(sig_model(prem), nm);
                crate::namemap::lemma_view_key_index_matches(prem.entries@, sig_model(prem), nm);
                assert(sg.wf());
                assert forall|i: int|
                    0 <= i < signals.entries@.len() implies (
                #[trigger] signals.entries@[i]).1.wf() && signals.entries@[i].1.bit_start
                    == BIT_START_INVALID by {
                    if prem.contains_key(nm) {
                        assert(signals.entries@ == prem.entries@.update(
                            prem.key_index(nm),
                            (signals.entries@[prem.key_index(nm)].0, sg),
                        ));
                    }
                }
                assert(sig_model(*signals) =~= crate::namemap::view_insert(
                    sig_model(prem),
                    nm,
                    (bit_width, init_value),
                ));
                assert forall|i: int, k: int|
                    0 <= i < responders.entries@.len() && 0 <= k < (
                    #[trigger] responders.entries@[i]).1.subscribed_signals@.len()
                    implies signals.contains_key(
                    (#[trigger] responders.entries@[i].1.subscribed_signals@[k])@,
                ) by {}
            }
            proof {
                crate::tokenizer::lemma_token_bounds(s, i_it);
            }
        }
    }
    Ok(())
}

/// The fixed sixteen-slot diagnostic-signals template, as literal tokens.
pub open spec fn diag_signals_literals() -> Seq<Seq<char>> {
    seq![
        "Diagnostic_signals"@,
        "{"@,
        "MasterReqB0"@,
        ":"@,
        "8"@,
        ","@,
        "0"@,
        ";"@,
        "MasterReqB1"@,
        ":"@,
        "8"@,
        ","@,
        "0"@,
        ";"@,
        "MasterReqB2"@,
        ":"@,
        "8"@,
        ","@,
        "0"@,
        ";"@,
        "MasterReqB3"@,
        ":"@,
        "8"@,
        ","@,
        "0"@,
        ";"@,
        "MasterReqB4"@,
        ":"@,
        "8"@,
        ","@,
        "0"@,
        ";"@,
        "MasterReqB5"@,
        ":"@,
        "8"@,
        ","@,
        "0"@,
        ";"@,
        "MasterReqB6"@,
        ":"@,
        "8"@,
        ","@,
        "0"@,
        ";"@,
        "MasterReqB7"@,
        ":"@,
        "8"@,
        ","@,
        "0"@,
        ";"@,
        "SlaveRespB0"@,
        ":"@,
        "8"@,
        ","@,
        "0"@,
        ";"@,
        "SlaveRespB1"@,
        ":"@,
        "8"@,
        ","@,
        "0"@,
        ";"@,
        "SlaveRespB2"@,
        ":"@,
        "8"@,
        ","@,
        "0"@,
        ";"@,
        "SlaveRespB3"@,
        ":"@,
        "8"@,
        ","@,
        "0"@,
        ";"@,
        "SlaveRespB4"@,
        ":"@,
        "8"@,
        ","@,
        "0"@,
        ";"@,
        "SlaveRespB5"@,
        ":"@,
        "8"@,
        ","@,
        "0"@,
        ";"@,
        "SlaveRespB6"@,
        ":"@,
        "8"@,
        ","@,
        "0"@,
        ";"@,
        "SlaveRespB7"@,
        ":"@,
        "8"@,
        ","@,
        "0"@,
        ";"@,
        "}"@,
    ]
}

/// The diagnostic-signals block is a fixed sixteen-slot template: eight
/// commander-request and eight responder-response byte signals, each of width
/// eight and init value zero.  Any deviation is [`Error::IncorrectToken`].
fn parse_diagnostic_signals(t: &mut Tokenizer) -> (r: Result<(), Error>)
    requires
        old(t).wf(),
    ensures
        final(t).wf(),
        final(t).spec_text() == old(t).spec_text(),
        match tokens_match(old(t).spec_text(), old(t).spec_index(), diag_signals_literals()) {
            Ok(ni) => r is Ok && final(t).spec_index() == ni,
            Err(e) => r == Err::<(), Error>(e),
        },
{
    let exp: &[&str] = &[
        "Diagnostic_signals",
        "{",
        "MasterReqB0", ":", "8", ",", "0", ";",
        "MasterReqB1", ":", "8", ",", "0", ";",
        "MasterReqB2", ":", "8", ",", "0", ";",
        "MasterReqB3", ":", "8", ",", "0", ";",
        "MasterReqB4", ":", "8", ",", "0", ";",
        "MasterReqB5", ":", "8", ",", "0", ";",
        "MasterReqB6", ":", "8", ",", "0", ";",
        "MasterReqB7", ":", "8", ",", "0", ";",
        "SlaveRespB0", ":", "8", ",", "0", ";",
        "SlaveRespB1", ":", "8", ",", "0", ";",
        "SlaveRespB2", ":", "8", ",", "0", ";",
        "SlaveRespB3", ":", "8", ",", "0", ";",
        "SlaveRespB4", ":", "8", ",", "0", ";",
        "SlaveRespB5", ":", "8", ",", "0", ";",
        "SlaveRespB6", ":", "8", ",", "0", ";",
        "SlaveRespB7", ":", "8", ",", "0", ";",
        "}",
    ];
    proof {
        assert(exp@.map_values(|x: &str| x@) =~= diag_signals_literals());
    }
    t.check_equal(exp)
}

/// The fixed two-frame diagnostic-frames template, as literal tokens.
pub open spec fn diag_frames_literals() -> Seq<Seq<char>> {
    seq![
        "Diagnostic_frames"@,
        "{"@,
        "MasterReq"@,
        ":"@,
        "60"@,
        "{"@,
        "MasterReqB0"@,
        ","@,
        "0"@,
        ";"@,
        "MasterReqB1"@,
        ","@,
        "8"@,
        ";"@,
        "MasterReqB2"@,
        ","@,
        "16"@,
        ";"@,
        "MasterReqB3"@,
        ","@,
        "24"@,
        ";"@,
        "MasterReqB4"@,
        ","@,
        "32"@,
        ";"@,
        "MasterReqB5"@,
        ","@,
        "40"@,
        ";"@,
        "MasterReqB6"@,
        ","@,
        "48"@,
        ";"@,
        "MasterReqB7"@,
        ","@,
        "56"@,
        ";"@,
        "}"@,
        "SlaveResp"@,
        ":"@,
        "61"@,
        "{"@,
        "SlaveRespB0"@,
        ","@,
        "0"@,
        ";"@,
        "SlaveRespB1"@,
        ","@,
        "8"@,
        ";"@,
        "SlaveRespB2"@,
        ","@,
        "16"@,
        ";"@,
        "SlaveRespB3"@,
        ","@,
        "24"@,
        ";"@,
        "SlaveRespB4"@,
        ","@,
        "32"@,
        ";"@,
        "SlaveRespB5"@,
        ","@,
        "40"@,
        ";"@,
        "SlaveRespB6"@,
        ","@,
        "48"@,
        ";"@,
        "SlaveRespB7"@,
        ","@,
        "56"@,
        ";"@,
        "}"@,
        "}"@,
    ]
}

/// The diagnostic-frames block is a fixed two-frame template: `MasterReq`
/// with id 60 and `SlaveResp` with id 61, each laying its eight byte signals
/// out in order.  Any deviation is [`Error::IncorrectToken`].
fn parse_diagnostic_frames(t: &mut Tokenizer) -> (r: Result<(), Error>)
    requires
        old(t).wf(),
    ensures
        final(t).wf(),
        final(t).spec_text() == old(t).spec_text(),
        match tokens_match(old(t).spec_text(), old(t).spec_index(), diag_frames_literals()) {
            Ok(ni) => r is Ok && final(t).spec_index() == ni,
            Err(e) => r == Err::<(), Error>(e),
        },
{
    let exp: &[&str] = &[
        "Diagnostic_frames",
        "{",
        "MasterReq", ":", "60", "{",
        "MasterReqB0", ",", "0", ";",
        "MasterReqB1", ",", "8", ";",
        "MasterReqB2", ",", "16", ";",
        "MasterReqB3", ",", "24", ";",
        "MasterReqB4", ",", "32", ";",
        "MasterReqB5", ",", "40", ";",
        "MasterReqB6", ",", "48", ";",
        "MasterReqB7", ",", "56", ";",
        "}",
        "SlaveResp", ":", "61", "{",
        "SlaveRespB0", ",", "0", ";",
        "SlaveRespB1", ",", "8", ";",
        "SlaveRespB2", ",", "16", ";",
        "SlaveRespB3", ",", "24", ";",
        "SlaveRespB4", ",", "32", ";",
        "SlaveRespB5", ",", "40", ";",
        "SlaveRespB6", ",", "48", ";",
        "SlaveRespB7", ",", "56", ";",
        "}",
        "}",
    ];
    proof {
        assert(exp@.map_values(|x: &str| x@) =~= diag_frames_literals());
    }
    t.check_equal(exp)
}

/// One offset assignment leaves every other signal's resolution and
/// assignment state untouched, and assigns exactly the named one.
proof fn lemma_assign_preserves(
    pres: NameMap<Signal>,
    post: NameMap<Signal>,
    sname: Seq<char>,
    off: u16,
    n2: Seq<char>,
)
    requires
        pres.contains_key(sname),
        post.entries@ == pres.entries@.update(
            pres.key_index(sname),
            (
                pres.entries@[pres.key_index(sname)].0,
                (Signal { bit_start: off, ..pres.entries@[pres.key_index(sname)].1 }),
            ),
        ),
        off != BIT_START_INVALID,
    ensures
        post.contains_key(n2) == pres.contains_key(n2),
        pres.contains_key(n2) && pres.spec_get(n2).bit_start != BIT_START_INVALID
            ==> post.spec_get(n2).bit_start != BIT_START_INVALID,
        post.contains_key(sname),
        post.spec_get(sname).bit_start == off,
{
    crate::namemap::lemma_first_key_index(pres.entries@, sname);
    assert forall|i: int| 0 <= i < pres.entries@.len() implies (#[trigger] post.entries@[i]).0@
        == pres.entries@[i].0@ by {}
    crate::namemap::lemma_first_key_index(pres.entries@, n2);
    crate::namemap::lemma_first_key_index(post.entries@, n2);
    crate::namemap::lemma_first_key_index_same_keys(pres.entries@, post.entries@, n2);
    crate::namemap::lemma_first_key_index_same_keys(pres.entries@, post.entries@, sname);
    lemma_same_keys_contains(pres, post, n2);
    lemma_same_keys_contains(pres, post, sname);
}

/// The frame section leaves every signal as it was apart from its
/// `bit_start`, and it never renames, adds or drops one.
pub open spec fn signals_stable(a: NameMap<Signal>, b: NameMap<Signal>) -> bool {
    &&& b.entries@.len() == a.entries@.len()
    &&& forall|i: int|
        0 <= i < a.entries@.len() ==> {
            &&& (#[trigger] b.entries@[i]).0 == a.entries@[i].0
            &&& b.entries@[i].1 == (Signal { bit_start: b.entries@[i].1.bit_start, ..a.entries@[i].1 })
        }
}

/// The signal table with offsets as plain values: name to (bit start, bit
/// width, init value).
pub open spec fn sigfull_model(m: NameMap<Signal>) -> Seq<(Seq<char>, (u16, u16, u64))> {
    m.entries@.map_values(
        |e: (String, Signal)| (e.0@, (e.1.bit_start, e.1.bit_width, e.1.init_value)),
    )
}

/// The frame table as plain values: name to (sender, id, byte width, placed
/// signal names).
pub open spec fn msg_model(m: NameMap<Message>) -> Seq<
    (Seq<char>, (Seq<char>, u32, u16, Seq<Seq<char>>)),
> {
    m.entries@.map_values(
        |e: (String, Message)|
            (
                e.0@,
                (e.1.sender@, e.1.id, e.1.byte_width, e.1.signals@.map_values(|x: String| x@)),
            ),
    )
}

/// What recording one frame-bit offset means on the signal table: an
/// undeclared name is `UnknownSignal`, an already-assigned signal is
/// `DuplicateSignal`, else exactly that signal's offset is set.
pub open spec fn assign_offset_model(
    fs: Seq<(Seq<char>, (u16, u16, u64))>,
    nm: Seq<char>,
    off: u16,
) -> Result<Seq<(Seq<char>, (u16, u16, u64))>, Error> {
    if !crate::namemap::view_contains(fs, nm) {
        Err(Error::UnknownSignal)
    } else {
        let i = crate::namemap::view_key_index(fs, nm);
        if fs[i].1.0 != BIT_START_INVALID {
            Err(Error::DuplicateSignal)
        } else {
            Ok(fs.update(i, (fs[i].0, (off, fs[i].1.1, fs[i].1.2))))
        }
    }
}

/// One frame's signal placements through the closing brace: per pair the
/// signal name and its offset (which must fit below the unassigned
/// sentinel), each taking effect on the signal table.
pub open spec fn placements_shape(
    s: Seq<char>,
    i: int,
    fs: Seq<(Seq<char>, (u16, u16, u64))>,
    placed: Seq<Seq<char>>,
) -> Result<((Seq<(Seq<char>, (u16, u16, u64))>, Seq<Seq<char>>), int), Error>
    decreases s.len() - i,
{
    match token_at(s, i) {
        Err(e) => Err(e),
        Ok(se) => if s.subrange(se.0, se.1) == "}"@ {
            Ok(((fs, placed), se.1))
        } else {
            let snm = s.subrange(se.0, se.1);
            match tokens_match(s, se.1, seq![","@]) {
                Err(e) => Err(e),
                Ok(p1) => match token_at(s, p1) {
                    Err(e) => Err(e),
                    Ok(seo) => match int_token_val(s.subrange(seo.0, seo.1)) {
                        None => Err(Error::NumberParse),
                        Some(ov) => if ov > u64::MAX {
                            Err(Error::NumberParse)
                        } else if ov >= BIT_START_INVALID {
                            Err(Error::NumberParse)
                        } else {
                            match tokens_match(s, seo.1, seq![";"@]) {
                                Err(e) => Err(e),
                                Ok(p2) => match assign_offset_model(fs, snm, ov as u16) {
                                    Err(e) => Err(e),
                                    Ok(fs2) => if i < p2 <= s.len() {
                                        placements_shape(s, p2, fs2, placed.push(snm))
                                    } else {
                                        Err(Error::IncorrectToken)
                                    },
                                },
                            }
                        },
                    },
                },
            }
        },
    }
}

/// The frame entries through the section's closing brace: per frame its
/// name, id, sender, byte width, and its placements.
pub open spec fn frames_items_shape(
    s: Seq<char>,
    i: int,
    fs: Seq<(Seq<char>, (u16, u16, u64))>,
    ms: Seq<(Seq<char>, (Seq<char>, u32, u16, Seq<Seq<char>>))>,
) -> Result<
    (
        (
            Seq<(Seq<char>, (u16, u16, u64))>,
            Seq<(Seq<char>, (Seq<char>, u32, u16, Seq<Seq<char>>))>,
        ),
        int,
    ),
    Error,
>
    decreases s.len() - i,
{
    match token_at(s, i) {
        Err(e) => Err(e),
        Ok(se) => if s.subrange(se.0, se.1) == "}"@ {
            Ok(((fs, ms), se.1))
        } else {
            let nm = s.subrange(se.0, se.1);
            match tokens_match(s, se.1, seq![":"@]) {
                Err(e) => Err(e),
                Ok(p1) => match token_at(s, p1) {
                    Err(e) => Err(e),
                    Ok(sid) => match int_token_val(s.subrange(sid.0, sid.1)) {
                        None => Err(Error::NumberParse),
                        Some(idv) => if idv > u64::MAX {
                            Err(Error::NumberParse)
                        } else {
                            match tokens_match(s, sid.1, seq![","@]) {
                                Err(e) => Err(e),
                                Ok(p2) => match token_at(s, p2) {
                                    Err(e) => Err(e),
                                    Ok(ssn) => match tokens_match(s, ssn.1, seq![","@]) {
                                        Err(e) => Err(e),
                                        Ok(p3) => match token_at(s, p3) {
                                            Err(e) => Err(e),
                                            Ok(sbw) => match int_token_val(
                                                s.subrange(sbw.0, sbw.1),
                                            ) {
                                                None => Err(Error::NumberParse),
                                                Some(bwv) => if bwv > u64::MAX {
                                                    Err(Error::NumberParse)
                                                } else {
                                                    match tokens_match(s, sbw.1, seq!["{"@]) {
                                                        Err(e) => Err(e),
                                                        Ok(p4) => match placements_shape(
                                                            s,
                                                            p4,
                                                            fs,
                                                            Seq::<Seq<char>>::empty(),
                                                        ) {
                                                            Err(e) => Err(e),
                                                            Ok(pl) => {
                                                                let ms2 =
                                                                    crate::namemap::view_insert(
                                                                    ms,
                                                                    nm,
                                                                    (
                                                                        s.subrange(ssn.0, ssn.1),
                                                                        idv as u32,
                                                                        bwv as u16,
                                                                        pl.0.1,
                                                                    ),
                                                                );
                                                                if i < pl.1 <= s.len() {
                                                                    frames_items_shape(
                                                                        s,
                                                                        pl.1,
                                                                        pl.0.0,
                                                                        ms2,
                                                                    )
                                                                } else {
                                                                    Err(Error::IncorrectToken)
                                                                }
                                                            },
                                                        },
                                                    }
                                                },
                                            },
                                        },
                                    },
                                },
                            }
                        },
                    },
                },
            }
        },
    }
}

/// The token-level shape of the whole frame section.
pub open spec fn frames_section_shape(
    s: Seq<char>,
    i: int,
    fs0: Seq<(Seq<char>, (u16, u16, u64))>,
) -> Result<
    (
        (
            Seq<(Seq<char>, (u16, u16, u64))>,
            Seq<(Seq<char>, (Seq<char>, u32, u16, Seq<Seq<char>>))>,
        ),
        int,
    ),
    Error,
> {
    match tokens_match(s, i, seq!["Frames"@, "{"@]) {
        Err(e) => Err(e),
        Ok(p) => frames_items_shape(
            s,
            p,
            fs0,
            Seq::<(Seq<char>, (Seq<char>, u32, u16, Seq<Seq<char>>))>::empty(),
        ),
    }
}

/// Reads the frame section exactly as [`frames_section_shape`] lays it out:
/// each frame's id, sender and byte width, then its signal placements.
/// Every placed signal must already be declared ([`Error::UnknownSignal`])
/// and placed only once ([`Error::DuplicateSignal`]).
#[verifier::rlimit(80)]
#[verifier::loop_isolation(false)]
fn parse_frames(
    t: &mut Tokenizer,
    signals: &mut NameMap<Signal>,
    messages: &mut NameMap<Message>,
) -> (r: Result<(), Error>)
    requires
        old(t).wf(),
        old(signals).wf(),
        forall|i: int|
            0 <= i < old(signals).entries@.len() ==> (#[trigger] old(signals).entries@[i]).1.wf(),
        old(messages).entries@.len() == 0,
    ensures
        final(t).wf(),
        final(t).spec_text() == old(t).spec_text(),
        final(signals).wf(),
        signals_stable(*old(signals), *final(signals)),
        forall|i: int|
            0 <= i < final(signals).entries@.len() ==> (#[trigger] final(signals).entries@[i]).1.wf(),
        final(messages).wf(),
        match frames_section_shape(
            old(t).spec_text(),
            old(t).spec_index(),
            sigfull_model(*old(signals)),
        ) {
            Err(e) => r == Err::<(), Error>(e),
            Ok(res) => r is Ok && final(t).spec_index() == res.1 && sigfull_model(*final(signals))
                == res.0.0 && msg_model(*final(messages)) == res.0.1,
        },
        r is Ok ==> forall|i: int|
            0 <= i < final(messages).entries@.len() ==> (
            #[trigger] final(messages).entries@[i]).1.refs_ok(*final(signals)),
{
    let ghost s = t.spec_text();
    let ghost fs0 = sigfull_model(*old(signals));
    let exp_sec: &[&str] = &["Frames", "{"];
    proof {
        assert(exp_sec@.map_values(|x: &str| x@) =~= seq!["Frames"@, "{"@]);
    }
    t.check_equal(exp_sec)?;
    let ghost l0 = t.spec_index();
    proof {
        assert(msg_model(*messages) =~= Seq::<
            (Seq<char>, (Seq<char>, u32, u16, Seq<Seq<char>>)),
        >::empty());
    }
    let mut done = false;
    while !done
        invariant
            t.wf(),
            t.spec_text() == s,
            0 <= l0 <= t.spec_index(),
            signals.wf(),
            signals_stable(*old(signals), *signals),
            forall|i: int|
                0 <= i < signals.entries@.len() ==> (#[trigger] signals.entries@[i]).1.wf(),
            messages.wf(),
            forall|i: int|
                0 <= i < messages.entries@.len() ==> (#[trigger] messages.entries@[i]).1.refs_ok(
                    *signals,
                ),
            if done {
                frames_items_shape(
                    s,
                    l0,
                    fs0,
                    Seq::<(Seq<char>, (Seq<char>, u32, u16, Seq<Seq<char>>))>::empty(),
                ) == Ok::<_, Error>(
                    ((sigfull_model(*signals), msg_model(*messages)), t.spec_index()),
                )
            } else {
                frames_items_shape(
                    s,
                    l0,
                    fs0,
                    Seq::<(Seq<char>, (Seq<char>, u32, u16, Seq<Seq<char>>))>::empty(),
                ) == frames_items_shape(
                    s,
                    t.spec_index(),
                    sigfull_model(*signals),
                    msg_model(*messages),
                )
            },
        decreases s.len() - t.spec_index(), (if done { 0int } else { 1int }),
    {
        let ghost i_it = t.spec_index();
        let nxt = t.peek()?;
        if string_eq_str(&nxt, "}") {
            let _ = t.next()?;
            done = true;
        } else {
            let name = t.next()?;
            let ghost nm = name@;
            let exp_co: &[&str] = &[":"];
            proof {
                assert(exp_co@.map_values(|x: &str| x@) =~= seq![":"@]);
            }
            t.check_equal(exp_co)?;
            let id_tok = t.next()?;
            let id_v = parse_integer(id_tok.as_str())?;
            let id = #[verifier::truncate] (id_v as u32);
            let exp_c1: &[&str] = &[","];
            proof {
                assert(exp_c1@.map_values(|x: &str| x@) =~= seq![","@]);
            }
            t.check_equal(exp_c1)?;
            let sender = t.next()?;
            let exp_c2: &[&str] = &[","];
            proof {
                assert(exp_c2@.map_values(|x: &str| x@) =~= seq![","@]);
            }
            t.check_equal(exp_c2)?;
            let bw_tok = t.next()?;
            let bw_v = parse_integer(bw_tok.as_str())?;
            let byte_width = #[verifier::truncate] (bw_v as u16);
            let exp_ob: &[&str] = &["{"];
            proof {
                assert(exp_ob@.map_values(|x: &str| x@) =~= seq!["{"@]);
            }
            t.check_equal(exp_ob)?;
            let mut sigs: Vec<String> = Vec::new();
            let ghost pl0 = t.spec_index();
            let ghost fs_it = sigfull_model(*signals);
            proof {
                assert(sigs@.map_values(|x: String| x@) =~= Seq::<Seq<char>>::empty());
            }
            let mut pdone = false;
            while !pdone
                invariant
                    t.wf(),
                    t.spec_text() == s,
                    0 <= pl0 <= t.spec_index(),
                    signals.wf(),
                    signals_stable(*old(signals), *signals),
                    forall|i: int|
                        0 <= i < signals.entries@.len() ==> (#[trigger] signals.entries@[i]).1.wf(),
                    forall|i: int|
                        0 <= i < messages.entries@.len() ==> (
                        #[trigger] messages.entries@[i]).1.refs_ok(*signals),
                    forall|k: int|
                        0 <= k < sigs@.len() ==> signals.contains_key((#[trigger] sigs@[k])@)
                            && signals.spec_get(sigs@[k]@).bit_start != BIT_START_INVALID,
                    if pdone {
                        token_is(s, t.spec_index(), "}"@) && placements_shape(s, pl0, fs_it, Seq::<
                            Seq<char>,
                        >::empty()) == placements_shape(
                            s,
                            t.spec_index(),
                            sigfull_model(*signals),
                            sigs@.map_values(|x: String| x@),
                        )
                    } else {
                        placements_shape(s, pl0, fs_it, Seq::<Seq<char>>::empty())
                            == placements_shape(
                            s,
                            t.spec_index(),
                            sigfull_model(*signals),
                            sigs@.map_values(|x: String| x@),
                        )
                    },
                decreases s.len() - t.spec_index(), (if pdone { 0int } else { 1int }),
            {
                let ghost pb = t.spec_index();
                let ghost fsb = sigfull_model(*signals);
                let ghost sgb = sigs@.map_values(|x: String| x@);
                let nxt2 = t.peek()?;
                if string_eq_str(&nxt2, "}") {
                    pdone = true;
                } else {
                    let sname = t.next()?;
                    let exp_c3: &[&str] = &[","];
                    proof {
                        assert(exp_c3@.map_values(|x: &str| x@) =~= seq![","@]);
                    }
                    t.check_equal(exp_c3)?;
                    let off_tok = t.next()?;
                    let off_v = parse_integer(off_tok.as_str())?;
                    let off = signal_offset_checked(off_v)?;
                    let exp_sc: &[&str] = &[";"];
                    proof {
                        assert(exp_sc@.map_values(|x: &str| x@) =~= seq![";"@]);
                    }
                    t.check_equal(exp_sc)?;
                    let ghost pres = *signals;
                    proof {
                        crate::tokenizer::lemma_token_bounds(s, pb);
                        crate::namemap::lemma_view_key_index(fsb, sname@);
                        crate::namemap::lemma_view_key_index_matches(pres.entries@, fsb, sname@);
                        crate::namemap::lemma_first_key_index(pres.entries@, sname@);
                    }
                    assign_frame_offset(signals, sname.as_str(), off)?;
                    proof {
                        assert(signals.entries@.len() == pres.entries@.len());
                        assert forall|i: int| 0 <= i < pres.entries@.len() implies {
                            &&& (#[trigger] signals.entries@[i]).0 == pres.entries@[i].0
                            &&& signals.entries@[i].1 == (Signal {
                                bit_start: signals.entries@[i].1.bit_start,
                                ..pres.entries@[i].1
                            })
                        } by {}
                        assert(sigfull_model(*signals) =~= assign_offset_model(
                            fsb,
                            sname@,
                            off,
                        )->Ok_0);
                        assert forall|k: int| 0 <= k < sigs@.len() implies signals.contains_key(
                            (#[trigger] sigs@[k])@,
                        ) && signals.spec_get(sigs@[k]@).bit_start != BIT_START_INVALID by {
                            lemma_assign_preserves(pres, *signals, sname@, off, sigs@[k]@);
                        }
                        assert forall|i: int| 0 <= i < messages.entries@.len() implies (
                        #[trigger] messages.entries@[i]).1.refs_ok(*signals) by {
                            let m = messages.entries@[i].1;
                            assert forall|k: int|
                                0 <= k < m.signals@.len() implies signals.contains_key(
                                (#[trigger] m.signals@[k])@,
                            ) && signals.spec_get(m.signals@[k]@).bit_start != BIT_START_INVALID by {
                                lemma_assign_preserves(pres, *signals, sname@, off, m.signals@[k]@);
                            }
                        }
                        lemma_assign_preserves(pres, *signals, sname@, off, sname@);
                    }
                    let ghost snmv = sname@;
                    sigs.push(sname);
                    proof {
                        assert(sigs@.map_values(|x: String| x@) =~= sgb.push(snmv));
                    }
                }
            }
            let _ = t.next()?;  // the "}"
            let ghost prem = *messages;
            let msg = Message {
                sender,
                id,
                byte_width,
                signals: sigs,
                mux_signals: NameMap::new(),
            };
            let ghost mg = msg;
            messages.insert(name, msg);
            proof {
                crate::namemap::lemma_first_key_index(prem.entries@, nm);
                crate::namemap::lemma_view_key_index(msg_model(prem), nm);
                crate::namemap::lemma_view_key_index_matches(prem.entries@, msg_model(prem), nm);
                assert(mg.refs_ok(*signals));
                assert forall|i: int| 0 <= i < messages.entries@.len() implies (
                #[trigger] messages.entries@[i]).1.refs_ok(*signals) by {
                    if prem.contains_key(nm) {
                        assert(messages.entries@ == prem.entries@.update(
                            prem.key_index(nm),
                            (messages.entries@[prem.key_index(nm)].0, mg),
                        ));
                    }
                }
                assert(msg_model(*messages) =~~= crate::namemap::view_insert(
                    msg_model(prem),
                    nm,
                    (mg.sender@, mg.id, mg.byte_width, mg.signals@.map_values(|x: String| x@)),
                ));
                crate::tokenizer::lemma_token_bounds(s, i_it);
            }
        }
    }
    Ok(())
}

/// The sporadic-group table as plain values: group name to its constituent
/// frame names in order.
pub open spec fn spor_model(m: NameMap<Vec<String>>) -> Seq<(Seq<char>, Seq<Seq<char>>)> {
    m.entries@.map_values(
        |e: (String, Vec<String>)| (e.0@, e.1@.map_values(|x: String| x@)),
    )
}

/// What one sporadic constituent means against the frame table: it must
/// exist, be sent by the commander, and not repeat among those taken.
pub open spec fn sporadic_constituent_model(
    ms: Seq<(Seq<char>, (Seq<char>, u32, u16, Seq<Seq<char>>))>,
    commander: Seq<char>,
    taken: Seq<Seq<char>>,
    f: Seq<char>,
) -> Result<(), Error> {
    if !crate::namemap::view_contains(ms, f) {
        Err(Error::UnknownFrame)
    } else if ms[crate::namemap::view_key_index(ms, f)].1.0 != commander {
        Err(Error::SporadicFrameHasResponder)
    } else if name_listed(taken, f) {
        Err(Error::DuplicateFrame)
    } else {
        Ok(())
    }
}

/// A sporadic group's constituents after the first, through the closing
/// semicolon.
pub open spec fn sporadic_list_shape(
    s: Seq<char>,
    i: int,
    ms: Seq<(Seq<char>, (Seq<char>, u32, u16, Seq<Seq<char>>))>,
    commander: Seq<char>,
    taken: Seq<Seq<char>>,
) -> Result<(Seq<Seq<char>>, int), Error>
    decreases s.len() - i,
{
    match token_at(s, i) {
        Err(e) => Err(e),
        Ok(se) => if s.subrange(se.0, se.1) == ";"@ {
            Ok((taken, se.1))
        } else {
            match tokens_match(s, i, seq![","@]) {
                Err(e) => Err(e),
                Ok(p) => match token_at(s, p) {
                    Err(e) => Err(e),
                    Ok(sef) => {
                        let f = s.subrange(sef.0, sef.1);
                        match sporadic_constituent_model(ms, commander, taken, f) {
                            Err(e) => Err(e),
                            Ok(u) => if i < sef.1 <= s.len() {
                                sporadic_list_shape(s, sef.1, ms, commander, taken.push(f))
                            } else {
                                Err(Error::IncorrectToken)
                            },
                        }
                    },
                },
            }
        },
    }
}

/// The sporadic groups through the section's closing brace: per group its
/// name, its first constituent, the rest of the list, and the collision
/// check of the group name against frames and earlier groups.
pub open spec fn sporadic_items_shape(
    s: Seq<char>,
    i: int,
    ms: Seq<(Seq<char>, (Seq<char>, u32, u16, Seq<Seq<char>>))>,
    commander: Seq<char>,
    gs: Seq<(Seq<char>, Seq<Seq<char>>)>,
) -> Result<(Seq<(Seq<char>, Seq<Seq<char>>)>, int), Error>
    decreases s.len() - i,
{
    match token_at(s, i) {
        Err(e) => Err(e),
        Ok(se) => if s.subrange(se.0, se.1) == "}"@ {
            Ok((gs, se.1))
        } else {
            let nm = s.subrange(se.0, se.1);
            match tokens_match(s, se.1, seq![":"@]) {
                Err(e) => Err(e),
                Ok(p1) => match token_at(s, p1) {
                    Err(e) => Err(e),
                    Ok(sef) => {
                        let f0 = s.subrange(sef.0, sef.1);
                        match sporadic_constituent_model(
                            ms,
                            commander,
                            Seq::<Seq<char>>::empty(),
                            f0,
                        ) {
                            Err(e) => Err(e),
                            Ok(u) => match sporadic_list_shape(
                                s,
                                sef.1,
                                ms,
                                commander,
                                seq![f0],
                            ) {
                                Err(e) => Err(e),
                                Ok(ln) => if crate::namemap::view_contains(ms, nm) {
                                    Err(Error::DuplicateFrame)
                                } else if crate::namemap::view_contains(gs, nm) {
                                    Err(Error::DuplicateFrame)
                                } else {
                                    if i < ln.1 <= s.len() {
                                        sporadic_items_shape(
                                            s,
                                            ln.1,
                                            ms,
                                            commander,
                                            gs.push((nm, ln.0)),
                                        )
                                    } else {
                                        Err(Error::IncorrectToken)
                                    }
                                },
                            },
                        }
                    },
                },
            }
        },
    }
}

/// The token-level shape of the whole sporadic-frame section.
pub open spec fn sporadic_section_shape(
    s: Seq<char>,
    i: int,
    ms: Seq<(Seq<char>, (Seq<char>, u32, u16, Seq<Seq<char>>))>,
    commander: Seq<char>,
) -> Result<(Seq<(Seq<char>, Seq<Seq<char>>)>, int), Error> {
    match tokens_match(s, i, seq!["Sporadic_frames"@, "{"@]) {
        Err(e) => Err(e),
        Ok(p) => sporadic_items_shape(s, p, ms, commander, Seq::<(Seq<char>, Seq<Seq<char>>)>::empty()),
    }
}

/// The containment, sender and repetition checks of
/// [`check_sporadic_constituent`] agree with their model reading.
proof fn lemma_sporadic_constituent_model(
    messages: NameMap<Message>,
    commander: Seq<char>,
    taken: Seq<String>,
    f: Seq<char>,
)
    ensures
        crate::namemap::view_contains(msg_model(messages), f) == messages.contains_key(f),
        messages.contains_key(f) ==> msg_model(messages)[crate::namemap::view_key_index(
            msg_model(messages),
            f,
        )].1.0 == messages.spec_get(f).sender@,
        name_listed(taken.map_values(|x: String| x@), f) == contains_name(taken, f),
{
    let mm = msg_model(messages);
    crate::namemap::lemma_view_key_index(mm, f);
    crate::namemap::lemma_view_key_index_matches(messages.entries@, mm, f);
    crate::namemap::lemma_first_key_index(messages.entries@, f);
    if messages.contains_key(f) {
        let w = choose|w: int|
            0 <= w < messages.entries@.len() && (#[trigger] messages.entries@[w]).0@ == f;
        assert(mm[w].0 == f);
    }
    if crate::namemap::view_contains(mm, f) {
        let w = choose|w: int| 0 <= w < mm.len() && (#[trigger] mm[w]).0 == f;
        assert(messages.entries@[w].0@ == f);
    }
    let tv = taken.map_values(|x: String| x@);
    if contains_name(taken, f) {
        let w = choose|w: int| 0 <= w < taken.len() && (#[trigger] taken[w])@ == f;
        assert(tv[w] == f);
    }
    if name_listed(tv, f) {
        let w = choose|w: int| 0 <= w < tv.len() && tv[w] == f;
        assert(taken[w]@ == f);
    }
}

/// Reads the sporadic-frame section exactly as [`sporadic_section_shape`]
/// lays it out.  Every constituent frame must exist, be sent by the
/// commander, and appear once in its group; a group name must not collide
/// with a frame or an earlier group.
#[verifier::rlimit(60)]
#[verifier::loop_isolation(false)]
fn parse_sporadic_frames(
    t: &mut Tokenizer,
    messages: &NameMap<Message>,
    commander: &String,
    sporadic: &mut NameMap<Vec<String>>,
) -> (r: Result<(), Error>)
    requires
        old(t).wf(),
        old(sporadic).entries@.len() == 0,
    ensures
        final(t).wf(),
        final(t).spec_text() == old(t).spec_text(),
        final(sporadic).wf(),
        forall|i: int|
            0 <= i < final(sporadic).entries@.len() ==> crate::encoding::sporadic_group_ok(
                (#[trigger] final(sporadic).entries@[i]).1,
                *messages,
                commander@,
            ),
        match sporadic_section_shape(
            old(t).spec_text(),
            old(t).spec_index(),
            msg_model(*messages),
            commander@,
        ) {
            Err(e) => r == Err::<(), Error>(e),
            Ok(res) => r is Ok && final(t).spec_index() == res.1 && spor_model(*final(sporadic))
                == res.0,
        },
{
    let ghost s = t.spec_text();
    let ghost mm = msg_model(*messages);
    let exp_sec: &[&str] = &["Sporadic_frames", "{"];
    proof {
        assert(exp_sec@.map_values(|x: &str| x@) =~= seq!["Sporadic_frames"@, "{"@]);
    }
    t.check_equal(exp_sec)?;
    let ghost l0 = t.spec_index();
    proof {
        assert(spor_model(*sporadic) =~= Seq::<(Seq<char>, Seq<Seq<char>>)>::empty());
    }
    let mut done = false;
    while !done
        invariant
            t.wf(),
            t.spec_text() == s,
            0 <= l0 <= t.spec_index(),
            sporadic.wf(),
            forall|i: int|
                0 <= i < sporadic.entries@.len() ==> crate::encoding::sporadic_group_ok(
                    (#[trigger] sporadic.entries@[i]).1,
                    *messages,
                    commander@,
                ),
            if done {
                sporadic_items_shape(s, l0, mm, commander@, Seq::<
                    (Seq<char>, Seq<Seq<char>>),
                >::empty()) == Ok::<_, Error>((spor_model(*sporadic), t.spec_index()))
            } else {
                sporadic_items_shape(s, l0, mm, commander@, Seq::<
                    (Seq<char>, Seq<Seq<char>>),
                >::empty()) == sporadic_items_shape(
                    s,
                    t.spec_index(),
                    mm,
                    commander@,
                    spor_model(*sporadic),
                )
            },
        decreases s.len() - t.spec_index(), (if done { 0int } else { 1int }),
    {
        let ghost i_it = t.spec_index();
        let nxt = t.peek()?;
        if string_eq_str(&nxt, "}") {
            let _ = t.next()?;
            done = true;
        } else {
            let name = t.next()?;
            let ghost nm = name@;
            let exp_co: &[&str] = &[":"];
            proof {
                assert(exp_co@.map_values(|x: &str| x@) =~= seq![":"@]);
            }
            t.check_equal(exp_co)?;
            let mut frames: Vec<String> = Vec::new();
            let first = t.next()?;
            proof {
                lemma_sporadic_constituent_model(*messages, commander@, frames@, first@);
                assert(frames@.map_values(|x: String| x@) =~= Seq::<Seq<char>>::empty());
            }
            check_sporadic_constituent(messages, commander, &frames, &first)?;
            let ghost f0 = first@;
            frames.push(first);
            proof {
                assert(frames@.map_values(|x: String| x@) =~= seq![f0]);
            }
            let ghost sl0 = t.spec_index();
            let mut sdone = false;
            while !sdone
                invariant
                    t.wf(),
                    t.spec_text() == s,
                    0 <= sl0 <= t.spec_index(),
                    frames@.len() >= 1,
                    forall|k: int|
                        0 <= k < frames@.len() ==> messages.contains_key((#[trigger] frames@[k])@),
                    forall|k: int|
                        0 <= k < frames@.len() ==> messages.spec_get(
                            (#[trigger] frames@[k])@,
                        ).sender@ == commander@,
                    forall|k1: int, k2: int|
                        0 <= k1 < k2 < frames@.len() ==> (#[trigger] frames@[k1])@ != (
                        #[trigger] frames@[k2])@,
                    if sdone {
                        token_is(s, t.spec_index(), ";"@) && sporadic_list_shape(
                            s,
                            sl0,
                            mm,
                            commander@,
                            seq![f0],
                        ) == sporadic_list_shape(
                            s,
                            t.spec_index(),
                            mm,
                            commander@,
                            frames@.map_values(|x: String| x@),
                        )
                    } else {
                        sporadic_list_shape(s, sl0, mm, commander@, seq![f0])
                            == sporadic_list_shape(
                            s,
                            t.spec_index(),
                            mm,
                            commander@,
                            frames@.map_values(|x: String| x@),
                        )
                    },
                decreases s.len() - t.spec_index(), (if sdone { 0int } else { 1int }),
            {
                let ghost sb = t.spec_index();
                let ghost fvb = frames@.map_values(|x: String| x@);
                let nxt2 = t.peek()?;
                if string_eq_str(&nxt2, ";") {
                    sdone = true;
                } else {
                    let exp_c: &[&str] = &[","];
                    proof {
                        assert(exp_c@.map_values(|x: &str| x@) =~= seq![","@]);
                    }
                    t.check_equal(exp_c)?;
                    let f = t.next()?;
                    proof {
                        crate::tokenizer::lemma_token_bounds(s, sb);
                        lemma_sporadic_constituent_model(*messages, commander@, frames@, f@);
                    }
                    check_sporadic_constituent(messages, commander, &frames, &f)?;
                    let ghost fv = f@;
                    frames.push(f);
                    proof {
                        assert(frames@.map_values(|x: String| x@) =~= fvb.push(fv));
                    }
                }
            }
            let _ = t.next()?;  // the ";"
            proof {
                lemma_sporadic_constituent_model(*messages, commander@, frames@, nm);
            }
            if messages.contains(name.as_str()) {
                return Err(Error::DuplicateFrame);
            }
            if sporadic.contains(name.as_str()) {
                proof {
                    crate::namemap::lemma_view_key_index(spor_model(*sporadic), nm);
                    crate::namemap::lemma_view_key_index_matches(
                        sporadic.entries@,
                        spor_model(*sporadic),
                        nm,
                    );
                    crate::namemap::lemma_first_key_index(sporadic.entries@, nm);
                }
                return Err(Error::DuplicateFrame);
            }
            proof {
                crate::namemap::lemma_view_key_index(spor_model(*sporadic), nm);
                crate::namemap::lemma_view_key_index_matches(
                    sporadic.entries@,
                    spor_model(*sporadic),
                    nm,
                );
                crate::namemap::lemma_first_key_index(sporadic.entries@, nm);
            }
            let ghost prem = *sporadic;
            let ghost fr = frames;
            sporadic.insert(name, frames);
            proof {
                assert(crate::encoding::sporadic_group_ok(fr, *messages, commander@));
                assert(sporadic.entries@ == prem.entries@.push(
                    (sporadic.entries@[prem.entries@.len() as int].0, fr),
                ));
                assert(spor_model(*sporadic) =~~= spor_model(prem).push(
                    (nm, fr@.map_values(|x: String| x@)),
                ));
                crate::tokenizer::lemma_token_bounds(s, i_it);
            }
        }
    }
    Ok(())
}

/// The event-group table as plain values: group name to (collision
/// resolver, id, constituent frame names).
pub open spec fn event_model(m: NameMap<(String, u32, Vec<String>)>) -> Seq<
    (Seq<char>, (Seq<char>, u32, Seq<Seq<char>>)),
> {
    m.entries@.map_values(
        |e: (String, (String, u32, Vec<String>))|
            (e.0@, (e.1.0@, e.1.1, e.1.2@.map_values(|x: String| x@))),
    )
}

/// What one event constituent means against the frame table: it must not
/// repeat, and it must be a known unconditional frame.
pub open spec fn event_constituent_model(
    ms: Seq<(Seq<char>, (Seq<char>, u32, u16, Seq<Seq<char>>))>,
    taken: Seq<Seq<char>>,
    f: Seq<char>,
) -> Result<(), Error> {
    if name_listed(taken, f) {
        Err(Error::DuplicateFrame)
    } else if !crate::namemap::view_contains(ms, f) {
        Err(Error::NotUnconditionalFrame)
    } else {
        Ok(())
    }
}

/// Whether the listed frames all share the first one's byte width, read from
/// the frame table; an empty list holds vacuously.
pub open spec fn event_widths_equal(
    ms: Seq<(Seq<char>, (Seq<char>, u32, u16, Seq<Seq<char>>))>,
    frames: Seq<Seq<char>>,
) -> bool {
    forall|k: int|
        0 <= k < frames.len() ==> ms[crate::namemap::view_key_index(
            ms,
            #[trigger] frames[k],
        )].1.2 == ms[crate::namemap::view_key_index(ms, frames[0])].1.2
}

/// An event group's constituents through the closing semicolon.
pub open spec fn event_list_shape(
    s: Seq<char>,
    i: int,
    ms: Seq<(Seq<char>, (Seq<char>, u32, u16, Seq<Seq<char>>))>,
    taken: Seq<Seq<char>>,
) -> Result<(Seq<Seq<char>>, int), Error>
    decreases s.len() - i,
{
    match token_at(s, i) {
        Err(e) => Err(e),
        Ok(se) => if s.subrange(se.0, se.1) == ";"@ {
            Ok((taken, se.1))
        } else {
            match tokens_match(s, i, seq![","@]) {
                Err(e) => Err(e),
                Ok(p) => match token_at(s, p) {
                    Err(e) => Err(e),
                    Ok(sef) => {
                        let f = s.subrange(sef.0, sef.1);
                        match event_constituent_model(ms, taken, f) {
                            Err(e) => Err(e),
                            Ok(u) => if i < sef.1 <= s.len() {
                                event_list_shape(s, sef.1, ms, taken.push(f))
                            } else {
                                Err(Error::IncorrectToken)
                            },
                        }
                    },
                },
            }
        },
    }
}

/// The event groups through the section's closing brace: per group its
/// name, resolver, id and constituents, the collision checks of the group
/// name, and the one-byte-width rule.
pub open spec fn event_items_shape(
    s: Seq<char>,
    i: int,
    ms: Seq<(Seq<char>, (Seq<char>, u32, u16, Seq<Seq<char>>))>,
    sp: Seq<(Seq<char>, Seq<Seq<char>>)>,
    gs: Seq<(Seq<char>, (Seq<char>, u32, Seq<Seq<char>>))>,
) -> Result<(Seq<(Seq<char>, (Seq<char>, u32, Seq<Seq<char>>))>, int), Error>
    decreases s.len() - i,
{
    match token_at(s, i) {
        Err(e) => Err(e),
        Ok(se) => if s.subrange(se.0, se.1) == "}"@ {
            Ok((gs, se.1))
        } else {
            let nm = s.subrange(se.0, se.1);
            match tokens_match(s, se.1, seq![":"@]) {
                Err(e) => Err(e),
                Ok(p1) => match token_at(s, p1) {
                    Err(e) => Err(e),
                    Ok(ser) => match tokens_match(s, ser.1, seq![","@]) {
                        Err(e) => Err(e),
                        Ok(p2) => match token_at(s, p2) {
                            Err(e) => Err(e),
                            Ok(sid) => match int_token_val(s.subrange(sid.0, sid.1)) {
                                None => Err(Error::NumberParse),
                                Some(idv) => if idv > u64::MAX {
                                    Err(Error::NumberParse)
                                } else {
                                    match event_list_shape(
                                        s,
                                        sid.1,
                                        ms,
                                        Seq::<Seq<char>>::empty(),
                                    ) {
                                        Err(e) => Err(e),
                                        Ok(ln) => if crate::namemap::view_contains(ms, nm) {
                                            Err(Error::DuplicateFrame)
                                        } else if crate::namemap::view_contains(sp, nm) {
                                            Err(Error::DuplicateFrame)
                                        } else if crate::namemap::view_contains(gs, nm) {
                                            Err(Error::DuplicateFrame)
                                        } else if !event_widths_equal(ms, ln.0) {
                                            Err(Error::EventFrameDifferentLength)
                                        } else {
                                            if i < ln.1 <= s.len() {
                                                event_items_shape(
                                                    s,
                                                    ln.1,
                                                    ms,
                                                    sp,
                                                    gs.push(
                                                        (
                                                            nm,
                                                            (
                                                                s.subrange(ser.0, ser.1),
                                                                idv as u32,
                                                                ln.0,
                                                            ),
                                                        ),
                                                    ),
                                                )
                                            } else {
                                                Err(Error::IncorrectToken)
                                            }
                                        },
                                    }
                                },
                            },
                        },
                    },
                },
            }
        },
    }
}

/// The token-level shape of the whole event-triggered-frame section.
pub open spec fn event_section_shape(
    s: Seq<char>,
    i: int,
    ms: Seq<(Seq<char>, (Seq<char>, u32, u16, Seq<Seq<char>>))>,
    sp: Seq<(Seq<char>, Seq<Seq<char>>)>,
) -> Result<(Seq<(Seq<char>, (Seq<char>, u32, Seq<Seq<char>>))>, int), Error> {
    match tokens_match(s, i, seq!["Event_triggered_frames"@, "{"@]) {
        Err(e) => Err(e),
        Ok(p) => event_items_shape(
            s,
            p,
            ms,
            sp,
            Seq::<(Seq<char>, (Seq<char>, u32, Seq<Seq<char>>))>::empty(),
        ),
    }
}

/// The containment, repetition and byte-width readings of the event checks
/// agree with their model reading.
proof fn lemma_event_constituent_model(messages: NameMap<Message>, taken: Seq<String>, f: Seq<char>)
    ensures
        crate::namemap::view_contains(msg_model(messages), f) == messages.contains_key(f),
        messages.contains_key(f) ==> msg_model(messages)[crate::namemap::view_key_index(
            msg_model(messages),
            f,
        )].1.2 == messages.spec_get(f).byte_width,
        name_listed(taken.map_values(|x: String| x@), f) == contains_name(taken, f),
{
    let mm = msg_model(messages);
    crate::namemap::lemma_view_key_index(mm, f);
    crate::namemap::lemma_view_key_index_matches(messages.entries@, mm, f);
    crate::namemap::lemma_first_key_index(messages.entries@, f);
    if messages.contains_key(f) {
        let w = choose|w: int|
            0 <= w < messages.entries@.len() && (#[trigger] messages.entries@[w]).0@ == f;
        assert(mm[w].0 == f);
    }
    if crate::namemap::view_contains(mm, f) {
        let w = choose|w: int| 0 <= w < mm.len() && (#[trigger] mm[w]).0 == f;
        assert(messages.entries@[w].0@ == f);
    }
    let tv = taken.map_values(|x: String| x@);
    if contains_name(taken, f) {
        let w = choose|w: int| 0 <= w < taken.len() && (#[trigger] taken[w])@ == f;
        assert(tv[w] == f);
    }
    if name_listed(tv, f) {
        let w = choose|w: int| 0 <= w < tv.len() && tv[w] == f;
        assert(taken[w]@ == f);
    }
}

/// Reads the event-triggered-frame section exactly as
/// [`event_section_shape`] lays it out.  Constituents must be known
/// unconditional frames, each named once, all sharing one byte width; an
/// empty constituent list is accepted.  A group name must not collide with a
/// frame, a sporadic group, or an earlier event group.
#[verifier::rlimit(60)]
#[verifier::loop_isolation(false)]
fn parse_event_frames(
    t: &mut Tokenizer,
    messages: &NameMap<Message>,
    sporadic: &NameMap<Vec<String>>,
    event: &mut NameMap<(String, u32, Vec<String>)>,
) -> (r: Result<(), Error>)
    requires
        old(t).wf(),
        old(event).entries@.len() == 0,
    ensures
        final(t).wf(),
        final(t).spec_text() == old(t).spec_text(),
        final(event).wf(),
        forall|i: int|
            0 <= i < final(event).entries@.len() ==> crate::encoding::event_group_ok(
                (#[trigger] final(event).entries@[i]).1,
                *messages,
            ),
        match event_section_shape(
            old(t).spec_text(),
            old(t).spec_index(),
            msg_model(*messages),
            spor_model(*sporadic),
        ) {
            Err(e) => r == Err::<(), Error>(e),
            Ok(res) => r is Ok && final(t).spec_index() == res.1 && event_model(*final(event))
                == res.0,
        },
{
    let ghost s = t.spec_text();
    let ghost mm = msg_model(*messages);
    let ghost spm = spor_model(*sporadic);
    let exp_sec: &[&str] = &["Event_triggered_frames", "{"];
    proof {
        assert(exp_sec@.map_values(|x: &str| x@) =~= seq!["Event_triggered_frames"@, "{"@]);
    }
    t.check_equal(exp_sec)?;
    let ghost l0 = t.spec_index();
    proof {
        assert(event_model(*event) =~= Seq::<(Seq<char>, (Seq<char>, u32, Seq<Seq<char>>))>::empty());
    }
    let mut done = false;
    while !done
        invariant
            t.wf(),
            t.spec_text() == s,
            0 <= l0 <= t.spec_index(),
            event.wf(),
            forall|i: int|
                0 <= i < event.entries@.len() ==> crate::encoding::event_group_ok(
                    (#[trigger] event.entries@[i]).1,
                    *messages,
                ),
            if done {
                event_items_shape(s, l0, mm, spm, Seq::<
                    (Seq<char>, (Seq<char>, u32, Seq<Seq<char>>)),
                >::empty()) == Ok::<_, Error>((event_model(*event), t.spec_index()))
            } else {
                event_items_shape(s, l0, mm, spm, Seq::<
                    (Seq<char>, (Seq<char>, u32, Seq<Seq<char>>)),
                >::empty()) == event_items_shape(
                    s,
                    t.spec_index(),
                    mm,
                    spm,
                    event_model(*event),
                )
            },
        decreases s.len() - t.spec_index(), (if done { 0int } else { 1int }),
    {
        let ghost i_it = t.spec_index();
        let nxt = t.peek()?;
        if string_eq_str(&nxt, "}") {
            let _ = t.next()?;
            done = true;
        } else {
            let name = t.next()?;
            let ghost nm = name@;
            let exp_co: &[&str] = &[":"];
            proof {
                assert(exp_co@.map_values(|x: &str| x@) =~= seq![":"@]);
            }
            t.check_equal(exp_co)?;
            let resolver = t.next()?;
            let exp_c1: &[&str] = &[","];
            proof {
                assert(exp_c1@.map_values(|x: &str| x@) =~= seq![","@]);
            }
            t.check_equal(exp_c1)?;
            let id_tok = t.next()?;
            let id_v = parse_integer(id_tok.as_str())?;
            let id = #[verifier::truncate] (id_v as u32);
            let mut frames: Vec<String> = Vec::new();
            proof {
                assert(frames@.map_values(|x: String| x@) =~= Seq::<Seq<char>>::empty());
            }
            let ghost sl0 = t.spec_index();
            let mut sdone = false;
            while !sdone
                invariant
                    t.wf(),
                    t.spec_text() == s,
                    0 <= sl0 <= t.spec_index(),
                    forall|k: int|
                        0 <= k < frames@.len() ==> messages.contains_key((#[trigger] frames@[k])@),
                    forall|k1: int, k2: int|
                        0 <= k1 < k2 < frames@.len() ==> (#[trigger] frames@[k1])@ != (
                        #[trigger] frames@[k2])@,
                    if sdone {
                        token_is(s, t.spec_index(), ";"@) && event_list_shape(s, sl0, mm, Seq::<
                            Seq<char>,
                        >::empty()) == event_list_shape(
                            s,
                            t.spec_index(),
                            mm,
                            frames@.map_values(|x: String| x@),
                        )
                    } else {
                        event_list_shape(s, sl0, mm, Seq::<Seq<char>>::empty())
                            == event_list_shape(
                            s,
                            t.spec_index(),
                            mm,
                            frames@.map_values(|x: String| x@),
                        )
                    },
                decreases s.len() - t.spec_index(), (if sdone { 0int } else { 1int }),
            {
                let ghost sb = t.spec_index();
                let ghost fvb = frames@.map_values(|x: String| x@);
                let nxt2 = t.peek()?;
                if string_eq_str(&nxt2, ";") {
                    sdone = true;
                } else {
                    let exp_c: &[&str] = &[","];
                    proof {
                        assert(exp_c@.map_values(|x: &str| x@) =~= seq![","@]);
                    }
                    t.check_equal(exp_c)?;
                    let f = t.next()?;
                    proof {
                        crate::tokenizer::lemma_token_bounds(s, sb);
                        lemma_event_constituent_model(*messages, frames@, f@);
                    }
                    check_event_constituent(messages, &frames, &f)?;
                    let ghost fv = f@;
                    frames.push(f);
                    proof {
                        assert(frames@.map_values(|x: String| x@) =~= fvb.push(fv));
                    }
                }
            }
            let _ = t.next()?;  // the ";"
            let same = frames_same_width(messages, &frames);
            proof {
                lemma_event_constituent_model(*messages, frames@, nm);
                crate::namemap::lemma_view_key_index(spm, nm);
                crate::namemap::lemma_view_key_index_matches(sporadic.entries@, spm, nm);
                crate::namemap::lemma_first_key_index(sporadic.entries@, nm);
                crate::namemap::lemma_view_key_index(event_model(*event), nm);
                crate::namemap::lemma_view_key_index_matches(
                    event.entries@,
                    event_model(*event),
                    nm,
                );
                crate::namemap::lemma_first_key_index(event.entries@, nm);
                // the executable width check and its model reading agree
                let fv = frames@.map_values(|x: String| x@);
                assert forall|k: int| 0 <= k < fv.len() implies (
                #[trigger] fv[k]) == frames@[k]@ by {}
                if frames@.len() > 0 {
                    assert forall|k: int| 0 <= k < frames@.len() implies (
                    msg_model(*messages)[crate::namemap::view_key_index(mm, fv[k])].1.2
                        == messages.spec_get(frames@[k]@).byte_width) by {
                        lemma_event_constituent_model(*messages, frames@, frames@[k]@);
                    }
                    assert(same == event_widths_equal(mm, fv));
                } else {
                    assert(same == event_widths_equal(mm, fv));
                }
            }
            if messages.contains(name.as_str()) {
                return Err(Error::DuplicateFrame);
            }
            if sporadic.contains(name.as_str()) {
                return Err(Error::DuplicateFrame);
            }
            if event.contains(name.as_str()) {
                return Err(Error::DuplicateFrame);
            }
            if !same {
                return Err(Error::EventFrameDifferentLength);
            }
            let ghost prem = *event;
            let group = (resolver, id, frames);
            let ghost grp = group;
            event.insert(name, group);
            proof {
                assert(crate::encoding::event_group_ok(grp, *messages));
                assert(event.entries@ == prem.entries@.push(
                    (event.entries@[prem.entries@.len() as int].0, grp),
                ));
                assert(event_model(*event) =~~= event_model(prem).push(
                    (nm, (grp.0@, grp.1, grp.2@.map_values(|x: String| x@))),
                ));
                crate::tokenizer::lemma_token_bounds(s, i_it);
            }
        }
    }
    Ok(())
}

/// Consumes the next token and reads it as an unsigned integer.
fn next_integer(t: &mut Tokenizer) -> (r: Result<u64, Error>)
    requires
        old(t).wf(),
    ensures
        final(t).wf(),
        final(t).spec_text() == old(t).spec_text(),
        old(t).spec_index() <= final(t).spec_index(),
        r is Ok ==> old(t).spec_index() < final(t).spec_index(),
{
    let tok = t.next()?;
    parse_integer(tok.as_str())
}

/// Consumes `kw = ... ;` when the next token is `kw`: the assignment is
/// recognized but its value is discarded.
#[verifier::loop_isolation(false)]
fn skip_optional_assignment(t: &mut Tokenizer, kw: &str) -> (r: Result<(), Error>)
    requires
        old(t).wf(),
    ensures
        final(t).wf(),
        final(t).spec_text() == old(t).spec_text(),
        old(t).spec_index() <= final(t).spec_index(),
{
    let ghost s = t.spec_text();
    let nxt = t.peek()?;
    if !string_eq_str(&nxt, kw) {
        return Ok(());
    }
    let exp: &[&str] = &[kw, "="];
    t.check_equal(exp)?;
    let ghost mid = t.spec_index();
    loop
        invariant
            t.wf(),
            t.spec_text() == s,
            mid <= t.spec_index(),
        decreases s.len() - t.spec_index(),
    {
        let tok = t.next()?;
        if string_eq_str(&tok, ";") {
            break ;
        }
    }
    Ok(())
}

/// Reads the node-attribute section: per responder, its protocol string and
/// diagnostic addresses, and — for the `"2.x` protocol class — the product
/// id, the response-error signal (which must be declared), a few recognized
/// but unsupported timing fields, and the configurable-frames list (each
/// entry naming a frame or an event-triggered group).
#[verifier::loop_isolation(false)]
fn parse_node_attributes(
    t: &mut Tokenizer,
    signals: &NameMap<Signal>,
    messages: &NameMap<Message>,
    event: &NameMap<(String, u32, Vec<String>)>,
    responders: &mut NameMap<LINResponderData>,
) -> (r: Result<(), Error>)
    requires
        old(t).wf(),
        old(responders).wf(),
        forall|i: int|
            0 <= i < old(responders).entries@.len() ==> {
                &&& subs_ok((#[trigger] old(responders).entries@[i]).1, *signals)
                &&& old(responders).entries@[i].1.response_error is None
                &&& old(responders).entries@[i].1.configurable_frames@.len() == 0
            },
    ensures
        final(t).wf(),
        final(t).spec_text() == old(t).spec_text(),
        final(responders).wf(),
        final(responders).entries@.len() == old(responders).entries@.len(),
        forall|i: int|
            0 <= i < old(responders).entries@.len() ==> (
            #[trigger] final(responders).entries@[i]).0 == old(responders).entries@[i].0
                && final(responders).entries@[i].1.subscribed_signals == old(
                responders,
            ).entries@[i].1.subscribed_signals,
        forall|i: int|
            0 <= i < final(responders).entries@.len() ==> (
            #[trigger] final(responders).entries@[i]).1.refs_ok(*signals, *messages, *event),
        tokens_match(old(t).spec_text(), old(t).spec_index(), seq!["Node_attributes"@, "{"@])
            matches Err(e) ==> r == Err::<(), Error>(e),
{
    let ghost s = t.spec_text();
    proof {
        assert forall|i: int|
            0 <= i < responders.entries@.len() implies (
        #[trigger] responders.entries@[i]).1.refs_ok(*signals, *messages, *event) by {}
    }
    let exp_sec: &[&str] = &["Node_attributes", "{"];
    proof {
        assert(exp_sec@.map_values(|x: &str| x@) =~= seq!["Node_attributes"@, "{"@]);
    }
    t.check_equal(exp_sec)?;
    loop
        invariant
            t.wf(),
            t.spec_text() == s,
            responders.wf(),
            responders.entries@.len() == old(responders).entries@.len(),
            forall|i: int|
                0 <= i < old(responders).entries@.len() ==> (
                #[trigger] responders.entries@[i]).0 == old(responders).entries@[i].0
                    && responders.entries@[i].1.subscribed_signals == old(
                    responders,
                ).entries@[i].1.subscribed_signals,
            forall|i: int|
                0 <= i < responders.entries@.len() ==> (
                #[trigger] responders.entries@[i]).1.refs_ok(*signals, *messages, *event),
        decreases s.len() - t.spec_index(),
    {
        let nxt = t.peek()?;
        if string_eq_str(&nxt, "}") {
            let _ = t.next()?;
            break ;
        }
        let name = t.next()?;
        let i = match responders.index_of(name.as_str()) {
            Some(i) => i,
            None => {
                return Err(Error::UnknownNode);
            },
        };
        t.check_equal(&["{", "LIN_protocol", "="])?;
        let protocol = t.next()?;
        t.check_equal(&[";", "configured_NAD", "="])?;
        let nad_v = next_integer(t)?;
        responders.entries[i].1.configured_nad = #[verifier::truncate] (nad_v as u8);
        t.check_equal(&[";"])?;
        let nxt2 = t.peek()?;
        if string_eq_str(&nxt2, "initial_NAD") {
            t.check_equal(&["initial_NAD", "="])?;
            let inad_v = next_integer(t)?;
            responders.entries[i].1.initial_nad = Some(#[verifier::truncate] (inad_v as u8));
            t.check_equal(&[";"])?;
        }
        if str_starts_with(protocol.as_str(), "\"2.") {
            t.check_equal(&["product_id", "="])?;
            let sup_v = next_integer(t)?;
            t.check_equal(&[","])?;
            let fun_v = next_integer(t)?;
            let variant: u8;
            let nxt3 = t.peek()?;
            if string_eq_str(&nxt3, ",") {
                let _ = t.next()?;
                let var_v = next_integer(t)?;
                variant = #[verifier::truncate] (var_v as u8);
            } else {
                variant = 0;
            }
            responders.entries[i].1.product_id = Some(
                (#[verifier::truncate] (sup_v as u16), #[verifier::truncate] (fun_v as u16), variant),
            );
            t.check_equal(&[";", "response_error", "="])?;
            let re = t.next()?;
            if signals.contains(re.as_str()) {
                responders.entries[i].1.response_error = Some(re);
            } else {
                return Err(Error::UnknownSignal);
            }
            t.check_equal(&[";"])?;
            skip_optional_assignment(t, "fault_state_signals")?;
            skip_optional_assignment(t, "P2_min")?;
            skip_optional_assignment(t, "ST_min")?;
            skip_optional_assignment(t, "N_As_timeout")?;
            skip_optional_assignment(t, "N_Cr_timeout")?;
            t.check_equal(&["configurable_frames", "{"])?;
            let ghost mid = t.spec_index();
            loop
                invariant
                    t.wf(),
                    t.spec_text() == s,
                    mid <= t.spec_index(),
                    i < responders.entries@.len(),
                    responders.wf(),
                    responders.entries@.len() == old(responders).entries@.len(),
                    forall|j: int|
                        0 <= j < old(responders).entries@.len() ==> (
                        #[trigger] responders.entries@[j]).0 == old(responders).entries@[j].0
                            && responders.entries@[j].1.subscribed_signals == old(
                            responders,
                        ).entries@[j].1.subscribed_signals,
                    forall|j: int|
                        0 <= j < responders.entries@.len() ==> (
                        #[trigger] responders.entries@[j]).1.refs_ok(*signals, *messages, *event),
                decreases s.len() - t.spec_index(),
            {
                let nxt4 = t.peek()?;
                if string_eq_str(&nxt4, "}") {
                    break ;
                }
                let frame = t.next()?;
                let known = messages.contains(frame.as_str()) || event.contains(frame.as_str());
                if !known {
                    return Err(Error::UnknownFrame);
                }
                let fid: Option<u16>;
                let nxt5 = t.peek()?;
                if string_eq_str(&nxt5, "=") {
                    let _ = t.next()?;
                    let fid_v = next_integer(t)?;
                    fid = Some(#[verifier::truncate] (fid_v as u16));
                } else {
                    fid = None;
                }
                t.check_equal(&[";"])?;
                responders.entries[i].1.configurable_frames.push((frame, fid));
            }
            let _ = t.next()?;  // the "}" of configurable_frames
        }
        let _ = t.next()?;  // the "}" of this responder
    }
    Ok(())
}

/// Reads one schedule command with its fields, validating every node and
/// frame reference it makes.
#[verifier::loop_isolation(false)]
fn parse_schedule_command(
    t: &mut Tokenizer,
    messages: &NameMap<Message>,
    sporadic: &NameMap<Vec<String>>,
    event: &NameMap<(String, u32, Vec<String>)>,
    responders: &NameMap<LINResponderData>,
) -> (r: Result<LDFScheduleCommand, Error>)
    requires
        old(t).wf(),
    ensures
        final(t).wf(),
        final(t).spec_text() == old(t).spec_text(),
        old(t).spec_index() <= final(t).spec_index(),
        r is Ok ==> old(t).spec_index() < final(t).spec_index(),
        r matches Ok(c) ==> c.refs_ok(*messages, *sporadic, *event, *responders),
{
    let cmd = t.next()?;
    if string_eq_str(&cmd, "MasterReq") {
        return Ok(LDFScheduleCommand::CommanderReq);
    }
    if string_eq_str(&cmd, "SlaveResp") {
        return Ok(LDFScheduleCommand::ResponderResp);
    }
    if string_eq_str(&cmd, "AssignNAD") {
        t.check_equal(&["{"])?;
        let node = t.next()?;
        if !responders.contains(node.as_str()) {
            return Err(Error::UnknownNode);
        }
        t.check_equal(&["}"])?;
        return Ok(LDFScheduleCommand::AssignNAD(node));
    }
    if string_eq_str(&cmd, "ConditionalChangeNAD") {
        t.check_equal(&["{"])?;
        let nad = next_integer(t)?;
        t.check_equal(&[","])?;
        let idb = next_integer(t)?;
        t.check_equal(&[","])?;
        let byte = next_integer(t)?;
        t.check_equal(&[","])?;
        let mask = next_integer(t)?;
        t.check_equal(&[","])?;
        let inv = next_integer(t)?;
        t.check_equal(&[","])?;
        let new_nad = next_integer(t)?;
        t.check_equal(&["}"])?;
        return Ok(
            LDFScheduleCommand::ConditionalChangeNAD {
                nad: #[verifier::truncate] (nad as u8),
                id: #[verifier::truncate] (idb as u8),
                byte: #[verifier::truncate] (byte as u8),
                mask: #[verifier::truncate] (mask as u8),
                inv: #[verifier::truncate] (inv as u8),
                new_nad: #[verifier::truncate] (new_nad as u8),
            },
        );
    }
    if string_eq_str(&cmd, "DataDump") {
        t.check_equal(&["{"])?;
        let node = t.next()?;
        if !responders.contains(node.as_str()) {
            return Err(Error::UnknownNode);
        }
        t.check_equal(&[","])?;
        let d0 = next_integer(t)?;
        t.check_equal(&[","])?;
        let d1 = next_integer(t)?;
        t.check_equal(&[","])?;
        let d2 = next_integer(t)?;
        t.check_equal(&[","])?;
        let d3 = next_integer(t)?;
        t.check_equal(&[","])?;
        let d4 = next_integer(t)?;
        t.check_equal(&["}"])?;
        let data = vec![
            #[verifier::truncate] (d0 as u8),
            #[verifier::truncate] (d1 as u8),
            #[verifier::truncate] (d2 as u8),
            #[verifier::truncate] (d3 as u8),
            #[verifier::truncate] (d4 as u8),
        ];
        return Ok(LDFScheduleCommand::DataDump { name: node, data });
    }
    if string_eq_str(&cmd, "SaveConfiguration") {
        t.check_equal(&["{"])?;
        let node = t.next()?;
        if !responders.contains(node.as_str()) {
            return Err(Error::UnknownNode);
        }
        t.check_equal(&["}"])?;
        return Ok(LDFScheduleCommand::SaveConfiguration(node));
    }
    if string_eq_str(&cmd, "AssignFrameIdRange") {
        t.check_equal(&["{"])?;
        let node = t.next()?;
        if !responders.contains(node.as_str()) {
            return Err(Error::UnknownNode);
        }
        t.check_equal(&[","])?;
        let index_v = next_integer(t)?;
        let pid: Vec<u8>;
        let nxt = t.peek()?;
        if string_eq_str(&nxt, ",") {
            let _ = t.next()?;
            let p0 = next_integer(t)?;
            t.check_equal(&[","])?;
            let p1 = next_integer(t)?;
            t.check_equal(&[","])?;
            let p2 = next_integer(t)?;
            t.check_equal(&[","])?;
            let p3 = next_integer(t)?;
            t.check_equal(&["}"])?;
            pid = vec![
                #[verifier::truncate] (p0 as u8),
                #[verifier::truncate] (p1 as u8),
                #[verifier::truncate] (p2 as u8),
                #[verifier::truncate] (p3 as u8),
            ];
        } else {
            // without an explicit PID the four bytes default to 0xFF; deriving
            // them from the configurable-frames list is not attempted
            pid = vec![0xFF, 0xFF, 0xFF, 0xFF];
            t.check_equal(&["}"])?;
        }
        return Ok(
            LDFScheduleCommand::AssignFrameIdRange {
                name: node,
                index: #[verifier::truncate] (index_v as u8),
                pid,
            },
        );
    }
    if string_eq_str(&cmd, "FreeFormat") {
        t.check_equal(&["{"])?;
        let d0 = next_integer(t)?;
        t.check_equal(&[","])?;
        let d1 = next_integer(t)?;
        t.check_equal(&[","])?;
        let d2 = next_integer(t)?;
        t.check_equal(&[","])?;
        let d3 = next_integer(t)?;
        t.check_equal(&[","])?;
        let d4 = next_integer(t)?;
        t.check_equal(&[","])?;
        let d5 = next_integer(t)?;
        t.check_equal(&[","])?;
        let d6 = next_integer(t)?;
        t.check_equal(&[","])?;
        let d7 = next_integer(t)?;
        t.check_equal(&["}"])?;
        let data = vec![
            #[verifier::truncate] (d0 as u8),
            #[verifier::truncate] (d1 as u8),
            #[verifier::truncate] (d2 as u8),
            #[verifier::truncate] (d3 as u8),
            #[verifier::truncate] (d4 as u8),
            #[verifier::truncate] (d5 as u8),
            #[verifier::truncate] (d6 as u8),
            #[verifier::truncate] (d7 as u8),
        ];
        return Ok(LDFScheduleCommand::FreeFormat(data));
    }
    if string_eq_str(&cmd, "AssignFrameId") {
        t.check_equal(&["{"])?;
        let node = t.next()?;
        if !responders.contains(node.as_str()) {
            return Err(Error::UnknownNode);
        }
        t.check_equal(&[","])?;
        let frame = t.next()?;
        if !messages.contains(frame.as_str()) {
            return Err(Error::UnknownFrame);
        }
        t.check_equal(&["}"])?;
        return Ok(LDFScheduleCommand::AssignFrameId { node, frame });
    }
    // anything else is a bare reference to a frame, a sporadic group, or an
    // event-triggered group
    let known = messages.contains(cmd.as_str()) || sporadic.contains(cmd.as_str())
        || event.contains(cmd.as_str());
    if !known {
        return Err(Error::UnknownFrame);
    }
    Ok(LDFScheduleCommand::Frame(cmd))
}

/// Reads the schedule-table section: named tables of (command, delay) slots,
/// each slot closed by `delay <time> ms ;`.
#[verifier::loop_isolation(false)]
fn parse_schedule_tables(
    t: &mut Tokenizer,
    messages: &NameMap<Message>,
    sporadic: &NameMap<Vec<String>>,
    event: &NameMap<(String, u32, Vec<String>)>,
    responders: &NameMap<LINResponderData>,
    tables: &mut NameMap<Vec<(LDFScheduleCommand, Real)>>,
) -> (r: Result<(), Error>)
    requires
        old(t).wf(),
        old(tables).entries@.len() == 0,
    ensures
        final(t).wf(),
        final(t).spec_text() == old(t).spec_text(),
        final(tables).wf(),
        forall|i: int, k: int|
            0 <= i < final(tables).entries@.len() && 0 <= k < final(tables).entries@[i].1@.len()
                ==> (#[trigger] final(tables).entries@[i].1@[k]).0.refs_ok(
                *messages,
                *sporadic,
                *event,
                *responders,
            ),
{
    let ghost s = t.spec_text();
    t.check_equal(&["Schedule_tables", "{"])?;
    loop
        invariant
            t.wf(),
            t.spec_text() == s,
            tables.wf(),
            forall|i: int, k: int|
                0 <= i < tables.entries@.len() && 0 <= k < tables.entries@[i].1@.len() ==> (
                #[trigger] tables.entries@[i].1@[k]).0.refs_ok(
                    *messages,
                    *sporadic,
                    *event,
                    *responders,
                ),
        decreases s.len() - t.spec_index(),
    {
        let nxt = t.peek()?;
        if string_eq_str(&nxt, "}") {
            let _ = t.next()?;
            break ;
        }
        let name = t.next()?;
        t.check_equal(&["{"])?;
        let mut table: Vec<(LDFScheduleCommand, Real)> = Vec::new();
        let ghost mid = t.spec_index();
        loop
            invariant
                t.wf(),
                t.spec_text() == s,
                mid <= t.spec_index(),
                forall|k: int|
                    0 <= k < table@.len() ==> (#[trigger] table@[k]).0.refs_ok(
                        *messages,
                        *sporadic,
                        *event,
                        *responders,
                    ),
            decreases s.len() - t.spec_index(),
        {
            let nxt2 = t.peek()?;
            if string_eq_str(&nxt2, "}") {
                break ;
            }
            let command = parse_schedule_command(t, messages, sporadic, event, responders)?;
            t.check_equal(&["delay"])?;
            let ft_tok = t.next()?;
            let frame_time = parse_real_or_integer(ft_tok.as_str())?;
            t.check_equal(&["ms", ";"])?;
            table.push((command, frame_time));
        }
        let _ = t.next()?;  // the "}"
        let ghost prem = *tables;
        let ghost nm = name@;
        let ghost tb = table;
        tables.insert(name, table);
        proof {
            crate::namemap::lemma_first_key_index(prem.entries@, nm);
            assert forall|i: int, k: int|
                0 <= i < tables.entries@.len() && 0 <= k < tables.entries@[i].1@.len() implies (
            #[trigger] tables.entries@[i].1@[k]).0.refs_ok(
                *messages,
                *sporadic,
                *event,
                *responders,
            ) by {
                if prem.contains_key(nm) {
                    assert(tables.entries@ == prem.entries@.update(
                        prem.key_index(nm),
                        (tables.entries@[prem.key_index(nm)].0, tb),
                    ));
                }
            }
        }
    }
    Ok(())
}

/// Reads the signal-encoding-type section: per named block, scalar ranges
/// and logical values; the labelled logical values merge into one `Enum`
/// appended after the scalars, only when at least one was present.
/// `bcd_value` and `ascii_value` entries are recognized and dropped.
/// Re-declaring a block name is [`Error::DuplicateEncoding`].
#[verifier::loop_isolation(false)]
fn parse_signal_encoding_types(t: &mut Tokenizer, encodings: &mut NameMap<Vec<Encoding>>) -> (r:
    Result<(), Error>)
    requires
        old(t).wf(),
        old(encodings).wf(),
    ensures
        final(t).wf(),
        final(t).spec_text() == old(t).spec_text(),
        final(encodings).wf(),
{
    let ghost s = t.spec_text();
    t.check_equal(&["Signal_encoding_types", "{"])?;
    loop
        invariant
            t.wf(),
            t.spec_text() == s,
            encodings.wf(),
        decreases s.len() - t.spec_index(),
    {
        let nxt = t.peek()?;
        if string_eq_str(&nxt, "}") {
            let _ = t.next()?;
            break ;
        }
        let name = t.next()?;
        if encodings.contains(name.as_str()) {
            return Err(Error::DuplicateEncoding);
        }
        t.check_equal(&["{"])?;
        let mut encs: Vec<Encoding> = Vec::new();
        let mut logicals: NameMap<u64> = NameMap::new();
        let ghost mid = t.spec_index();
        loop
            invariant
                t.wf(),
                t.spec_text() == s,
                mid <= t.spec_index(),
                logicals.wf(),
            decreases s.len() - t.spec_index(),
        {
            let nxt2 = t.peek()?;
            if string_eq_str(&nxt2, "}") {
                break ;
            }
            let kind = t.next()?;
            if string_eq_str(&kind, "logical_value") {
                t.check_equal(&[","])?;
                let val = next_integer(t)?;
                let nxt3 = t.peek()?;
                if string_eq_str(&nxt3, ",") {
                    let _ = t.next()?;
                    let label = t.next()?;
                    logicals.insert(label, val);
                }
                // a logical value without text is recognized and dropped
            } else if string_eq_str(&kind, "physical_value") {
                t.check_equal(&[","])?;
                let raw_min = next_integer(t)?;
                t.check_equal(&[","])?;
                let raw_max = next_integer(t)?;
                t.check_equal(&[","])?;
                let sc_tok = t.next()?;
                let scale = parse_real_or_integer(sc_tok.as_str())?;
                t.check_equal(&[","])?;
                let off_tok = t.next()?;
                let offset = parse_real_or_integer(off_tok.as_str())?;
                let unit: String;
                let nxt3 = t.peek()?;
                if string_eq_str(&nxt3, ",") {
                    let _ = t.next()?;
                    unit = t.next()?;
                } else {
                    unit = String::new();
                }
                encs.push(Encoding::Scalar { raw_min, raw_max, scale, offset, unit });
            } else if string_eq_str(&kind, "bcd_value") {
                // recognized, unsupported: dropped
            } else if string_eq_str(&kind, "ascii_value") {
                // recognized, unsupported: dropped
            } else {
                return Err(Error::IncorrectToken);
            }
            t.check_equal(&[";"])?;
        }
        let _ = t.next()?;  // the "}"
        if logicals.entries.len() > 0 {
            encs.push(Encoding::Enum { name: name.clone(), map: logicals });
        }
        encodings.insert(name, encs);
    }
    Ok(())
}

/// The token-level shape of the file's prelude: the header, the two version
/// lines, and the speed line with the bitrate it sets.
pub open spec fn prelude_shape(s: Seq<char>) -> Result<(int, Real), Error> {
    match tokens_match(s, 0, seq!["LIN_description_file"@, ";"@]) {
        Err(e) => Err(e),
        Ok(p0) => match assignment_line_shape(s, p0, "LIN_protocol_version"@) {
            Err(e) => Err(e),
            Ok(p1) => match assignment_line_shape(s, p1, "LIN_language_version"@) {
                Err(e) => Err(e),
                Ok(p2) => speed_line_shape(s, p2),
            },
        },
    }
}

/// The token-level shape of the file's head: the prelude, the optional
/// channel-name line (decided by look-ahead), and the whole node section.
/// The result carries the bitrate, the channel postfix (empty when the line
/// is absent), the commander, the time base, the jitter, and the responder
/// names in order, plus the cursor after the node section.
pub open spec fn head_shape(s: Seq<char>) -> Result<
    ((Real, Seq<char>, Seq<char>, Real, Real, Seq<Seq<char>>), int),
    Error,
> {
    match prelude_shape(s) {
        Err(e) => Err(e),
        Ok(pr) => match token_at(s, pr.0) {
            Err(e) => Err(e),
            Ok(se) => if s.subrange(se.0, se.1) == "Channel_name"@ {
                match assignment_line_shape(s, pr.0, "Channel_name"@) {
                    Err(e) => Err(e),
                    Ok(ni) => match nodes_section_shape(s, ni) {
                        Err(e) => Err(e),
                        Ok(res) => Ok(
                            (
                                (
                                    pr.1,
                                    assignment_line_value(s, pr.0, "Channel_name"@),
                                    res.0.0,
                                    res.0.1,
                                    res.0.2,
                                    res.0.3,
                                ),
                                res.1,
                            ),
                        ),
                    },
                }
            } else {
                match nodes_section_shape(s, pr.0) {
                    Err(e) => Err(e),
                    Ok(res) => Ok(
                        (
                            (pr.1, Seq::<char>::empty(), res.0.0, res.0.1, res.0.2, res.0.3),
                            res.1,
                        ),
                    ),
                }
            },
        },
    }
}

/// The token-level shape of the file through the signal section: the head,
/// the optional composite block (recognized and discarded), and the signal
/// section applied to responders that start with no subscriptions.
pub open spec fn through_signals_shape(s: Seq<char>) -> Result<
    (
        (Real, Seq<char>, Seq<char>, Real, Real, Seq<Seq<char>>),
        (Seq<(Seq<char>, (u16, u64))>, Seq<(Seq<char>, Seq<Seq<char>>)>),
        int,
    ),
    Error,
> {
    match head_shape(s) {
        Err(e) => Err(e),
        Ok(hd) => match token_at(s, hd.1) {
            Err(e) => Err(e),
            Ok(se) => {
                let after_comp: Result<int, Error> = if s.subrange(se.0, se.1) == "composite"@ {
                    skipped_block_shape(s, hd.1, "composite"@)
                } else {
                    Ok(hd.1)
                };
                match after_comp {
                    Err(e) => Err(e),
                    Ok(p) => {
                        let rs0 = hd.0.5.map_values(
                            |n: Seq<char>| (n, Seq::<Seq<char>>::empty()),
                        );
                        match signals_section_shape(s, p, rs0) {
                            Err(e) => Err(e),
                            Ok(res) => Ok((hd.0, res.0, res.1)),
                        }
                    },
                }
            },
        },
    }
}

/// The token-level shape of the file through the frame section: everything
/// through the signals, the optional diagnostic-signals template, and the
/// frame section applied to the declared signals with unassigned offsets.
pub open spec fn through_frames_shape(s: Seq<char>) -> Result<
    (
        (Real, Seq<char>, Seq<char>, Real, Real, Seq<Seq<char>>),
        Seq<(Seq<char>, Seq<Seq<char>>)>,
        (
            Seq<(Seq<char>, (u16, u16, u64))>,
            Seq<(Seq<char>, (Seq<char>, u32, u16, Seq<Seq<char>>))>,
        ),
        int,
    ),
    Error,
> {
    match through_signals_shape(s) {
        Err(e) => Err(e),
        Ok(ts) => match token_at(s, ts.2) {
            Err(e) => Err(e),
            Ok(se) => {
                let after_diag: Result<int, Error> = if s.subrange(se.0, se.1)
                    == "Diagnostic_signals"@ {
                    tokens_match(s, ts.2, diag_signals_literals())
                } else {
                    Ok(ts.2)
                };
                match after_diag {
                    Err(e) => Err(e),
                    Ok(p) => {
                        let fs0 = ts.1.0.map_values(
                            |e: (Seq<char>, (u16, u64))|
                                (e.0, (BIT_START_INVALID, e.1.0, e.1.1)),
                        );
                        match frames_section_shape(s, p, fs0) {
                            Err(e) => Err(e),
                            Ok(res) => Ok((ts.0, ts.1.1, res.0, res.1)),
                        }
                    },
                }
            },
        },
    }
}

/// The token-level shape of the file through the frame-group sections:
/// everything through the frames, then the optional sporadic and
/// event-triggered group sections, each decided by look-ahead and starting
/// empty when absent.
pub open spec fn through_groups_shape(s: Seq<char>) -> Result<
    (
        (Real, Seq<char>, Seq<char>, Real, Real, Seq<Seq<char>>),
        Seq<(Seq<char>, Seq<Seq<char>>)>,
        (
            Seq<(Seq<char>, (u16, u16, u64))>,
            Seq<(Seq<char>, (Seq<char>, u32, u16, Seq<Seq<char>>))>,
        ),
        Seq<(Seq<char>, Seq<Seq<char>>)>,
        Seq<(Seq<char>, (Seq<char>, u32, Seq<Seq<char>>))>,
        int,
    ),
    Error,
> {
    match through_frames_shape(s) {
        Err(e) => Err(e),
        Ok(tf) => match token_at(s, tf.3) {
            Err(e) => Err(e),
            Ok(se) => {
                let after_sp: Result<(Seq<(Seq<char>, Seq<Seq<char>>)>, int), Error> = if s.subrange(
                    se.0,
                    se.1,
                ) == "Sporadic_frames"@ {
                    sporadic_section_shape(s, tf.3, tf.2.1, tf.0.2)
                } else {
                    Ok((Seq::<(Seq<char>, Seq<Seq<char>>)>::empty(), tf.3))
                };
                match after_sp {
                    Err(e) => Err(e),
                    Ok(sp) => match token_at(s, sp.1) {
                        Err(e) => Err(e),
                        Ok(se2) => {
                            let after_ev: Result<
                                (Seq<(Seq<char>, (Seq<char>, u32, Seq<Seq<char>>))>, int),
                                Error,
                            > = if s.subrange(se2.0, se2.1) == "Event_triggered_frames"@ {
                                event_section_shape(s, sp.1, tf.2.1, sp.0)
                            } else {
                                Ok(
                                    (
                                        Seq::<
                                            (Seq<char>, (Seq<char>, u32, Seq<Seq<char>>)),
                                        >::empty(),
                                        sp.1,
                                    ),
                                )
                            };
                            match after_ev {
                                Err(e) => Err(e),
                                Ok(ev) => Ok((tf.0, tf.1, tf.2, sp.0, ev.0, ev.1)),
                            }
                        },
                    },
                }
            },
        },
    }
}

/// The token-level shape of the file through the optional diagnostic-frames
/// template.
pub open spec fn through_diag_frames_shape(s: Seq<char>) -> Result<
    (
        (Real, Seq<char>, Seq<char>, Real, Real, Seq<Seq<char>>),
        Seq<(Seq<char>, Seq<Seq<char>>)>,
        (
            Seq<(Seq<char>, (u16, u16, u64))>,
            Seq<(Seq<char>, (Seq<char>, u32, u16, Seq<Seq<char>>))>,
        ),
        Seq<(Seq<char>, Seq<Seq<char>>)>,
        Seq<(Seq<char>, (Seq<char>, u32, Seq<Seq<char>>))>,
        int,
    ),
    Error,
> {
    match through_groups_shape(s) {
        Err(e) => Err(e),
        Ok(tg) => match token_at(s, tg.5) {
            Err(e) => Err(e),
            Ok(se) => {
                let after: Result<int, Error> = if s.subrange(se.0, se.1)
                    == "Diagnostic_frames"@ {
                    tokens_match(s, tg.5, diag_frames_literals())
                } else {
                    Ok(tg.5)
                };
                match after {
                    Err(e) => Err(e),
                    Ok(p) => Ok((tg.0, tg.1, tg.2, tg.3, tg.4, p)),
                }
            },
        },
    }
}

/// Parses a complete LIN description file from its full text.
///
/// The sections are read in their fixed order, the optional ones decided by
/// look-ahead; the first failure aborts the parse with its error and no
/// database is returned.  Everything through the frame-group sections — the
/// prelude, the channel name, the node section, the signals, the frames,
/// and the sporadic and event-triggered groups — is read exactly as the
/// `*_shape` functions lay it out: a text whose prefix does not fit returns
/// exactly that prefix's error, and the bitrate, postfix, commander,
/// scheduling parameters, responder names and subscriptions, signals (with
/// widths, init values and assigned offsets), frames and frame groups of a
/// returned database are exactly the ones the text writes.  The sections
/// after the groups (node attributes, schedule tables, encoding types) are
/// constrained through [`Database::wf`]: its name tables are well-formed,
/// every signal respects the width cap, every frame's signals are declared
/// with their offsets assigned, every group, responder and schedule slot
/// references only declared names, sporadic groups list commander-sent
/// frames once each, and event-triggered groups share one byte width.  Its
/// `extra` always holds the LDF network data.
#[verifier::loop_isolation(false)]
pub fn parse_ldf(text: &str) -> (r: Result<Database, Error>)
    ensures
        r matches Ok(db) ==> db.wf() && db.extra is LDF,
        head_shape(text@) matches Err(e) ==> r == Err::<Database, Error>(e),
        r matches Ok(db) ==> (db.extra matches DatabaseType::LDF(d) && head_shape(
            text@,
        ) matches Ok(hd) && d.bitrate == hd.0.0 && d.postfix@ == hd.0.1 && d.commander@ == hd.0.2
            && d.time_base == hd.0.3 && d.jitter == hd.0.4 && responder_keys(d.responders)
            == hd.0.5),
        through_signals_shape(text@) matches Err(e) ==> r == Err::<Database, Error>(e),
        r matches Ok(db) ==> (db.extra matches DatabaseType::LDF(d) && through_signals_shape(
            text@,
        ) matches Ok(ts) && sig_model(db.signals) == ts.1.0 && subs_model(d.responders) == ts.1.1),
        through_frames_shape(text@) matches Err(e) ==> r == Err::<Database, Error>(e),
        r matches Ok(db) ==> (through_frames_shape(text@) matches Ok(tf) && sigfull_model(
            db.signals,
        ) == tf.2.0 && msg_model(db.messages) == tf.2.1),
        through_groups_shape(text@) matches Err(e) ==> r == Err::<Database, Error>(e),
        r matches Ok(db) ==> (db.extra matches DatabaseType::LDF(d) && through_groups_shape(
            text@,
        ) matches Ok(tg) && spor_model(d.sporadic_frames) == tg.3 && event_model(d.event_frames)
            == tg.4),
        through_diag_frames_shape(text@) matches Err(e) ==> r == Err::<Database, Error>(e),
        through_diag_frames_shape(text@) matches Ok(td) ==> (tokens_match(
            text@,
            td.5,
            seq!["Node_attributes"@, "{"@],
        ) matches Err(e) ==> r == Err::<Database, Error>(e)),
{
    let mut tokens = Tokenizer::new(text);
    let mut db = Database::default();
    let mut data = LDFData::default();
    let mut encodings: NameMap<Vec<Encoding>> = NameMap::new();
    parse_header(&mut tokens)?;
    parse_version_line(&mut tokens, "LIN_protocol_version")?;
    parse_version_line(&mut tokens, "LIN_language_version")?;
    parse_speed(&mut tokens, &mut data.bitrate)?;
    let nx1 = tokens.peek()?;
    if string_eq_str(&nx1, "Channel_name") {
        parse_channel_name(&mut tokens, &mut data.postfix)?;
    }
    parse_nodes(&mut tokens, &mut data)?;
    let ghost rkeys0 = responder_keys(data.responders);
    proof {
        assert(subs_model(data.responders) =~~= rkeys0.map_values(
            |n: Seq<char>| (n, Seq::<Seq<char>>::empty()),
        ));
    }
    let nx2 = tokens.peek()?;
    if string_eq_str(&nx2, "composite") {
        // composite-node sub-blocks are recognized but their content is
        // discarded
        skip_brace_block(&mut tokens, "composite")?;
    }
    parse_signals(&mut tokens, &mut db.signals, &mut data.responders)?;
    let ghost sigm0 = sig_model(db.signals);
    let ghost subm0 = subs_model(data.responders);
    proof {
        assert(responder_keys(data.responders) =~= rkeys0);
    }
    let nx3 = tokens.peek()?;
    if string_eq_str(&nx3, "Diagnostic_signals") {
        parse_diagnostic_signals(&mut tokens)?;
    }
    let ghost sig1 = db.signals;
    proof {
        assert(sigfull_model(db.signals) =~= sigm0.map_values(
            |e: (Seq<char>, (u16, u64))| (e.0, (BIT_START_INVALID, e.1.0, e.1.1)),
        ));
    }
    parse_frames(&mut tokens, &mut db.signals, &mut db.messages)?;
    proof {
        assert(sig_model(db.signals) =~= sigm0);
    }
    proof {
        assert forall|i: int|
            0 <= i < data.responders.entries@.len() implies subs_ok(
            (#[trigger] data.responders.entries@[i]).1,
            db.signals,
        ) by {
            let resp = data.responders.entries@[i].1;
            assert forall|k: int|
                0 <= k < resp.subscribed_signals@.len() implies db.signals.contains_key(
                (#[trigger] resp.subscribed_signals@[k])@,
            ) by {
                lemma_same_keys_contains(sig1, db.signals, resp.subscribed_signals@[k]@);
            }
        }
    }
    let nx4 = tokens.peek()?;
    if string_eq_str(&nx4, "Sporadic_frames") {
        parse_sporadic_frames(
            &mut tokens,
            &db.messages,
            &data.commander,
            &mut data.sporadic_frames,
        )?;
    } else {
        proof {
            assert(spor_model(data.sporadic_frames) =~= Seq::<
                (Seq<char>, Seq<Seq<char>>),
            >::empty());
        }
    }
    let nx5 = tokens.peek()?;
    if string_eq_str(&nx5, "Event_triggered_frames") {
        parse_event_frames(
            &mut tokens,
            &db.messages,
            &data.sporadic_frames,
            &mut data.event_frames,
        )?;
    } else {
        proof {
            assert(event_model(data.event_frames) =~= Seq::<
                (Seq<char>, (Seq<char>, u32, Seq<Seq<char>>)),
            >::empty());
        }
    }
    let nx6 = tokens.peek()?;
    if string_eq_str(&nx6, "Diagnostic_frames") {
        parse_diagnostic_frames(&mut tokens)?;
    }
    let ghost rkeys1 = responder_keys(data.responders);
    parse_node_attributes(
        &mut tokens,
        &db.signals,
        &db.messages,
        &data.event_frames,
        &mut data.responders,
    )?;
    proof {
        assert(responder_keys(data.responders) =~= rkeys1);
        assert(subs_model(data.responders) =~= subm0);
    }
    parse_schedule_tables(
        &mut tokens,
        &db.messages,
        &data.sporadic_frames,
        &data.event_frames,
        &data.responders,
        &mut data.schedule_tables,
    )?;
    // trailing optional sections, in their fixed order
    let mut at_end = false;
    match tokens.peek() {
        Err(_) => {
            at_end = true;
        },
        Ok(tok) => {
            if string_eq_str(&tok, "Signal_groups") {
                // signal groups are deprecated: the section is skipped whole
                skip_brace_block(&mut tokens, "Signal_groups")?;
            } else if !(string_eq_str(&tok, "Signal_encoding_types") || string_eq_str(
                &tok,
                "Signal_representation",
            )) {
                return Err(Error::UnexpectedToken);
            }
        },
    }
    if !at_end {
        match tokens.peek() {
            Err(_) => {
                at_end = true;
            },
            Ok(tok) => {
                if string_eq_str(&tok, "Signal_encoding_types") {
                    parse_signal_encoding_types(&mut tokens, &mut encodings)?;
                } else if !string_eq_str(&tok, "Signal_representation") {
                    return Err(Error::UnexpectedToken);
                }
            },
        }
    }
    if !at_end {
        // the signal-representation section, which would bind the collected
        // encodings to signals, is not covered yet: any remaining token,
        // including its own keyword, is rejected
        match tokens.peek() {
            Err(_) => {},
            Ok(_) => {
                return Err(Error::UnexpectedToken);
            },
        }
    }
    db.extra = DatabaseType::LDF(data);
    proof {
        assert(db.wf());
    }
    Ok(db)
}

/// In a well-formed database every signal placed in a frame is a declared
/// signal whose frame-bit offset was assigned: a parse can only return
/// frames whose signal lists resolve to placed signals.
pub proof fn lemma_wf_frames_reference_declared_signals(db: Database, i: int, k: int)
    requires
        db.wf(),
        0 <= i < db.messages.entries@.len(),
        0 <= k < db.messages.entries@[i].1.signals@.len(),
    ensures
        db.signals.contains_key(db.messages.entries@[i].1.signals@[k]@),
        db.signals.spec_get(db.messages.entries@[i].1.signals@[k]@).bit_start
            != BIT_START_INVALID,
{
}

/// In a well-formed LDF database every sporadic group is non-empty, names
/// each constituent frame once, and every constituent is a declared frame
/// sent by the commander.
pub proof fn lemma_wf_sporadic_groups(db: Database, i: int)
    requires
        db.wf(),
        db.extra is LDF,
        0 <= i < db.extra->0.sporadic_frames.entries@.len(),
    ensures
        crate::encoding::sporadic_group_ok(
            db.extra->0.sporadic_frames.entries@[i].1,
            db.messages,
            db.extra->0.commander@,
        ),
{
}

/// In a well-formed LDF database every event-triggered group names each
/// constituent once, every constituent is a declared unconditional frame,
/// and all constituents share one byte width; an empty group holds
/// vacuously.
pub proof fn lemma_wf_event_groups(db: Database, i: int)
    requires
        db.wf(),
        db.extra is LDF,
        0 <= i < db.extra->0.event_frames.entries@.len(),
    ensures
        crate::encoding::event_group_ok(db.extra->0.event_frames.entries@[i].1, db.messages),
{
}



} // verus!
