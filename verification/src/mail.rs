//! The header-folding parser and the message assembler.
//!
//! A message is header lines of the shape `Name: value`, each optionally
//! continued by following lines without a colon (folded), ended by one
//! blank line, after which the rest of the input is the body. The
//! assembler demands a `Message-ID` and an RFC-2822-parseable `Date`
//! header and builds the final record.

use vstd::prelude::*;

use crate::headers::Headers;
use crate::text::{
    find_byte, first_occurrence, frags_view, join_fragments, join_fragments_vec,
    lemma_first_occurrence, subvec, trim, trim_vec,
};

verus! {

/// Why a message was rejected.
#[derive(Debug)]
pub enum Reason {
    /// A continuation line appeared before any header line.
    CannotConcat,
    /// No `Message-ID` header.
    MissingMessageId,
    /// No `Date` header.
    MissingDate,
    /// The `Date` value is not RFC-2822-parseable.
    InvalidDate,
}

/// A per-file failure: the reason, the offending raw line (empty when the
/// failure is not line-specific), and the source path.
#[derive(Debug)]
pub struct Error {
    pub reason: Reason,
    pub line: Vec<u8>,
    pub path: String,
}

/// An instant with a fixed UTC offset, as an RFC-2822 date denotes one:
/// seconds since the Unix epoch, and the local offset east of UTC in
/// seconds.
#[derive(Debug, PartialEq, Eq, Structural, Clone, Copy)]
pub struct MailDate {
    pub timestamp_secs: i64,
    pub offset_secs: i32,
}

/// What RFC-2822 parsing makes of a byte sequence: the instant as
/// (seconds since the Unix epoch, offset east of UTC in seconds), or
/// nothing when the text is not a valid RFC-2822 date.
pub uninterp spec fn rfc2822_parse(s: Seq<u8>) -> Option<(i64, i32)>;

/// Relies on chrono's `DateTime::parse_from_rfc2822`, `timestamp` and
/// `FixedOffset::local_minus_utc`: the outcome depends on the bytes alone,
/// and `timestamp` is the count of non-leap seconds since the Unix epoch.
#[verifier::external_body]
fn parse_rfc2822_bytes(s: &Vec<u8>) -> (r: Option<MailDate>)
    ensures
        r is Some <==> rfc2822_parse(s@) is Some,
        r matches Some(d) ==> rfc2822_parse(s@) == Some((d.timestamp_secs, d.offset_secs)),
{
    let text = match core::str::from_utf8(s.as_slice()) {
        Ok(t) => t,
        Err(_) => return None,
    };
    match chrono::DateTime::parse_from_rfc2822(text) {
        Ok(d) => Some(MailDate {
            timestamp_secs: d.timestamp(),
            offset_secs: d.offset().local_minus_utc(),
        }),
        Err(_) => None,
    }
}

/// An in-progress header: the raw name and the raw value fragments
/// gathered so far, first the text after the colon, then one fragment per
/// folded line.
pub struct PendingHeader {
    pub name: Vec<u8>,
    pub fragments: Vec<Vec<u8>>,
}

/// The in-progress header as raw sequences.
pub open spec fn pending_view(p: Option<PendingHeader>) -> Option<(Seq<u8>, Seq<Seq<u8>>)> {
    match p {
        None => None,
        Some(ph) => Some((ph.name@, frags_view(ph.fragments@))),
    }
}

/// Finalizing the in-progress header: its name trimmed, its fragments
/// collapsed, written into the map (overwriting an earlier occurrence of
/// the same name).
pub open spec fn finish_pending(
    p: Option<(Seq<u8>, Seq<Seq<u8>>)>,
    acc: Map<Seq<u8>, Seq<u8>>,
) -> Map<Seq<u8>, Seq<u8>> {
    match p {
        None => acc,
        Some((n, fs)) => acc.insert(trim(n), join_fragments(fs)),
    }
}

/// What header parsing makes of `input`, carrying the in-progress header
/// and the map built so far. One line is taken per step:
/// - no line feed left: the in-progress header is finalized and the rest
///   of the input is dropped, with an empty body;
/// - a blank line: the in-progress header is finalized and everything
///   after the line is the body;
/// - a line with a colon: the in-progress header is finalized and the
///   line opens a new one, name before the first colon, first fragment
///   after it;
/// - any other line folds into the in-progress header, and is an error
///   when there is none.
pub open spec fn spec_parse(
    input: Seq<u8>,
    pending: Option<(Seq<u8>, Seq<Seq<u8>>)>,
    acc: Map<Seq<u8>, Seq<u8>>,
) -> Result<(Seq<u8>, Map<Seq<u8>, Seq<u8>>), Seq<u8>>
    decreases input.len(),
    via spec_parse_decreases
{
    if !input.contains(10u8) {
        Ok((Seq::empty(), finish_pending(pending, acc)))
    } else {
        let i = first_occurrence(input, 10u8);
        let line = input.take(i);
        let rest = input.skip(i + 1);
        if trim(line).len() == 0 {
            Ok((rest, finish_pending(pending, acc)))
        } else if line.contains(58u8) {
            let j = first_occurrence(line, 58u8);
            spec_parse(
                rest,
                Some((line.take(j), seq![line.skip(j + 1)])),
                finish_pending(pending, acc),
            )
        } else {
            match pending {
                None => Err(line),
                Some((n, fs)) => spec_parse(rest, Some((n, fs.push(line))), acc),
            }
        }
    }
}

#[via_fn]
proof fn spec_parse_decreases(
    input: Seq<u8>,
    pending: Option<(Seq<u8>, Seq<Seq<u8>>)>,
    acc: Map<Seq<u8>, Seq<u8>>,
) {
    if input.contains(10u8) {
        lemma_first_occurrence(input, 10u8);
    }
}

/// What header parsing makes of a whole input: the body and the header
/// map on success, the offending line on failure.
pub open spec fn parsed(input: Seq<u8>) -> Result<(Seq<u8>, Map<Seq<u8>, Seq<u8>>), Seq<u8>> {
    spec_parse(input, None, Map::empty())
}

/// The bytes of the header name `Message-ID`.
pub open spec fn message_id_key() -> Seq<u8> {
    seq![77u8, 101u8, 115u8, 115u8, 97u8, 103u8, 101u8, 45u8, 73u8, 68u8]
}

/// The bytes of the header name `Date`.
pub open spec fn date_key() -> Seq<u8> {
    seq![68u8, 97u8, 116u8, 101u8]
}

/// The header name `Message-ID`, as looked up in a parsed header map.
pub fn message_id_key_vec() -> (r: Vec<u8>)
    ensures
        r@ == message_id_key(),
{
    let mut r: Vec<u8> = Vec::new();
    r.push(77);
    r.push(101);
    r.push(115);
    r.push(115);
    r.push(97);
    r.push(103);
    r.push(101);
    r.push(45);
    r.push(73);
    r.push(68);
    proof {
        assert(r@ =~= message_id_key());
    }
    r
}

/// The header name `Date`, as looked up in a parsed header map.
pub fn date_key_vec() -> (r: Vec<u8>)
    ensures
        r@ == date_key(),
{
    let mut r: Vec<u8> = Vec::new();
    r.push(68);
    r.push(97);
    r.push(116);
    r.push(101);
    proof {
        assert(r@ =~= date_key());
    }
    r
}

/// A parsed message: source path, the two required headers lifted out
/// (`Message-ID` as an opaque string, `Date` as an instant), the
/// remaining headers, and the body. All data is owned.
#[derive(Debug)]
pub struct EnronMail {
    pub path: String,
    pub message_id: Vec<u8>,
    pub date: MailDate,
    pub header: Headers,
    pub body: Vec<u8>,
}

/// Exactly what assembling a message from `input` at `path` returns:
/// - the parser's own failure is passed through;
/// - a missing `Message-ID`, then a missing `Date`, then a `Date` value
///   that RFC-2822 parsing rejects each give their error, with an empty
///   offending line;
/// - otherwise the message, with the two required headers removed from
///   the map, the date as RFC-2822 parsing reads it, and the body as the
///   parser handed it back.
pub open spec fn parse_result_matches(
    r: Result<EnronMail, Error>,
    path: Seq<char>,
    input: Seq<u8>,
) -> bool {
    match parsed(input) {
        Err(line) => r matches Err(e) && e.reason is CannotConcat && e.line@ == line && e.path@
            == path,
        Ok((body, hm)) => if !hm.contains_key(message_id_key()) {
            r matches Err(e) && e.reason is MissingMessageId && e.line@ == Seq::<u8>::empty()
                && e.path@ == path
        } else if !hm.contains_key(date_key()) {
            r matches Err(e) && e.reason is MissingDate && e.line@ == Seq::<u8>::empty() && e.path@
                == path
        } else {
            match rfc2822_parse(hm[date_key()]) {
                None => r matches Err(e) && e.reason is InvalidDate && e.line@ == Seq::<
                    u8,
                >::empty() && e.path@ == path,
                Some(td) => r matches Ok(m) && m.path@ == path && m.message_id@ == hm[
                    message_id_key()
                ] && m.date.timestamp_secs == td.0 && m.date.offset_secs == td.1 && m.header@
                    == hm.remove(message_id_key()).remove(date_key()) && m.header.wf() && m.body@
                    == body,
            }
        },
    }
}

impl EnronMail {
    /// Parses `input` and lifts the result into a message, demanding the
    /// `Message-ID` and `Date` headers and an RFC-2822-parseable date, as
    /// `parse_result_matches` states.
    pub fn parse(path: String, input: &Vec<u8>) -> (r: Result<EnronMail, Error>)
        ensures
            parse_result_matches(r, path@, input@),
    {
        let parser = EnronMailHeaderParser::new(path.clone());
        let (body, mut header) = match parser.parse(input) {
            Ok(p) => p,
            Err(e) => {
                return Err(e);
            },
        };
        let message_id = match header.remove(&message_id_key_vec()) {
            Some(v) => v,
            None => {
                return Err(Error { reason: Reason::MissingMessageId, line: Vec::new(), path });
            },
        };
        let date_text = match header.remove(&date_key_vec()) {
            Some(v) => v,
            None => {
                return Err(Error { reason: Reason::MissingDate, line: Vec::new(), path });
            },
        };
        let date = match parse_rfc2822_bytes(&date_text) {
            Some(d) => d,
            None => {
                return Err(Error { reason: Reason::InvalidDate, line: Vec::new(), path });
            },
        };
        Ok(EnronMail { path, message_id, date, header, body })
    }
}

/// The header-folding parser: the source path for error context, the map
/// built so far, and the in-progress header.
pub struct EnronMailHeaderParser {
    pub path: String,
    pub res: Headers,
    pub previous_line: Option<PendingHeader>,
}

impl EnronMailHeaderParser {
    /// The parser's header map is well formed.
    pub open spec fn wf(&self) -> bool {
        self.res.wf()
    }

    /// A fresh parser for a file at `path`: empty map, no header in
    /// progress.
    pub fn new(path: String) -> (r: Self)
        ensures
            r.wf(),
            r.path@ == path@,
            r.res@ == Map::<Seq<u8>, Seq<u8>>::empty(),
            r.previous_line is None,
    {
        Self { path, res: Headers::new(), previous_line: None }
    }

    /// Finalizes the in-progress header into the map, if one is open:
    /// fragments trimmed one by one and joined with single spaces, under
    /// the trimmed name.
    pub fn parse_line(&mut self)
        requires
            old(self).wf(),
        ensures
            final(self).wf(),
            final(self).path == old(self).path,
            final(self).previous_line is None,
            final(self).res@ == finish_pending(pending_view(old(self).previous_line), old(
                self,
            ).res@),
    {
        let prev = self.previous_line.take();
        match prev {
            None => {},
            Some(ph) => {
                let value = join_fragments_vec(&ph.fragments);
                let name = trim_vec(&ph.name);
                self.res.insert(name, value);
            },
        }
    }

    /// Runs the parser over `input` and hands back the body and the
    /// completed header map, or the offending line on a continuation line
    /// with no header to fold into. The outcome is exactly what
    /// `spec_parse` says of the parser's state and the input.
    #[verifier::loop_isolation(false)]
    pub fn parse(self, input: &Vec<u8>) -> (r: Result<(Vec<u8>, Headers), Error>)
        requires
            self.wf(),
        ensures
            match spec_parse(input@, pending_view(self.previous_line), self.res@) {
                Ok((body, hm)) => r matches Ok(p) && p.0@ == body && p.1@ == hm && p.1.wf(),
                Err(line) => r matches Err(e) && e.reason is CannotConcat && e.line@ == line
                    && e.path@ == self.path@,
            },
    {
        let ghost target = spec_parse(input@, pending_view(self.previous_line), self.res@);
        let ghost path0 = self.path@;
        let mut st = self;
        let mut buffer = subvec(input, 0, input.len());
        proof {
            assert(buffer@ =~= input@);
        }
        loop
            invariant
                st.wf(),
                st.path@ == path0,
                spec_parse(buffer@, pending_view(st.previous_line), st.res@) == target,
            decreases buffer@.len(),
        {
            match find_byte(&buffer, 10) {
                None => {
                    st.parse_line();
                    let body: Vec<u8> = Vec::new();
                    proof {
                        assert(body@ =~= Seq::<u8>::empty());
                    }
                    return Ok((body, st.res));
                },
                Some(i) => {
                    let ghost bv = buffer@;
                    proof {
                        lemma_first_occurrence(bv, 10u8);
                    }
                    let blen = buffer.len();
                    let line = subvec(&buffer, 0, i);
                    let rest = subvec(&buffer, i + 1, blen);
                    proof {
                        assert(line@ =~= bv.take(i as int));
                        assert(rest@ =~= bv.skip(i + 1));
                    }
                    let tl = trim_vec(&line);
                    if tl.len() == 0 {
                        st.parse_line();
                        return Ok((rest, st.res));
                    }
                    match find_byte(&line, 58) {
                        Some(j) => {
                            st.parse_line();
                            let name = subvec(&line, 0, j);
                            let frag = subvec(&line, j + 1, line.len());
                            proof {
                                assert(name@ =~= line@.take(j as int));
                                assert(frag@ =~= line@.skip(j + 1));
                            }
                            let mut fragments: Vec<Vec<u8>> = Vec::new();
                            fragments.push(frag);
                            proof {
                                assert(frags_view(fragments@) =~= seq![line@.skip(j + 1)]);
                            }
                            st.previous_line = Some(PendingHeader { name, fragments });
                        },
                        None => {
                            match &mut st.previous_line {
                                None => {
                                    return Err(Error {
                                        reason: Reason::CannotConcat,
                                        line,
                                        path: st.path,
                                    });
                                },
                                Some(ph) => {
                                    let ghost fs0 = frags_view(ph.fragments@);
                                    ph.fragments.push(line);
                                    proof {
                                        assert(frags_view(ph.fragments@) =~= fs0.push(
                                            bv.take(i as int),
                                        ));
                                    }
                                },
                            }
                        },
                    }
                    buffer = rest;
                },
            }
        }
    }
}

} // verus!
